use pkgcache::byte_format::{human_readable_size, ByteFormat};

#[test]
fn zero_bytes() {
    assert_eq!(human_readable_size(0), "0 B");
}

#[test]
fn one_kib() {
    assert_eq!(human_readable_size(1024), "1 KiB");
}

#[test]
fn one_and_a_half_kib() {
    assert_eq!(human_readable_size(1536), "1.5 KiB");
}

#[test]
fn one_gib() {
    assert_eq!(human_readable_size(1073741824), "1 GiB");
}

#[test]
fn below_one_kib() {
    assert_eq!(human_readable_size(1023), "1023 B");
    assert_eq!(human_readable_size(7), "7 B");
}

#[test]
fn two_decimal_places() {
    assert_eq!(human_readable_size(1035), "1.01 KiB");
    assert_eq!(human_readable_size(1126), "1.1 KiB");
    assert_eq!(human_readable_size(1234567), "1.18 MiB");
}

#[test]
fn rounds_half_up() {
    // 1029.12 bytes would be 1.005 KiB; 1030 bytes is 1.00586 KiB.
    assert_eq!(human_readable_size(1030), "1.01 KiB");
    assert_eq!(human_readable_size(1025), "1 KiB");
}

#[test]
fn rounding_may_reach_1024_of_a_unit() {
    assert_eq!(human_readable_size(1048575), "1024 KiB");
}

#[test]
fn larger_units() {
    assert_eq!(human_readable_size(1048576), "1 MiB");
    assert_eq!(human_readable_size(1u64 << 40), "1 TiB");
    assert_eq!(human_readable_size(3u64 << 50), "3 PiB");
    assert_eq!(human_readable_size(1u64 << 60), "1 EiB");
    assert_eq!(human_readable_size(u64::MAX), "16 EiB");
}

#[test]
fn byte_format_writes_the_same() {
    assert_eq!(ByteFormat(1536).to_string(), "1.5 KiB");
    assert_eq!(ByteFormat(512).to_string(), "512 B");
}
