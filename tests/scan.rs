use pkgcache::scan::{is_pkg_file, map_pkgs, map_repos, select_pkgs, select_repos, DirEntryInfo};

fn entry(name: &str, is_file: bool, size: u64) -> DirEntryInfo {
    DirEntryInfo { name: name.to_string(), is_file, size }
}

#[test]
fn package_archive_is_a_package() {
    assert!(is_pkg_file("pkg-1.0-1-x86_64.pkg.tar.zst"));
    let p = map_pkgs(&entry("pkg-1.0-1-x86_64.pkg.tar.zst", true, 42)).unwrap();
    assert_eq!(p.name(), "pkg-1.0-1-x86_64.pkg.tar.zst");
    assert_eq!(p.size(), 42);
}

#[test]
fn signature_is_no_package() {
    assert!(!is_pkg_file("pkg-1.0-1-x86_64.pkg.tar.zst.sig"));
    assert!(map_pkgs(&entry("pkg-1.0-1-x86_64.pkg.tar.zst.sig", true, 1)).is_none());
}

#[test]
fn directory_is_no_package() {
    assert!(map_pkgs(&entry("foo.pkg.tar.zst", false, 4096)).is_none());
}

#[test]
fn other_compressions_are_packages() {
    assert!(is_pkg_file("a-1-1-any.pkg.tar"));
    assert!(is_pkg_file("a-1-1-any.pkg.tar.gz"));
    assert!(is_pkg_file("a-1-1-any.pkg.tar.xz"));
    assert!(!is_pkg_file("a-1-1-any.tar.zst"));
    assert!(!is_pkg_file(""));
    assert!(!is_pkg_file("sig"));
}

#[test]
fn selection_keeps_listing_order() {
    let entries = vec![
        entry("b.pkg.tar.zst", true, 2),
        entry("b.pkg.tar.zst.sig", true, 1),
        entry("dir.pkg.tar.zst", false, 0),
        entry("notes.txt", true, 3),
        entry("a.pkg.tar.xz", true, 5),
    ];
    let pkgs = select_pkgs(&entries);
    let names: Vec<&str> = pkgs.iter().map(|p| p.name()).collect();
    assert_eq!(names, ["b.pkg.tar.zst", "a.pkg.tar.xz"]);
    assert_eq!(pkgs[1].size(), 5);
}

#[test]
fn database_file_names_a_repository() {
    assert_eq!(map_repos(&entry("core.db", true, 0)).as_deref(), Some("core"));
    assert_eq!(map_repos(&entry(".db", true, 0)), None);
    assert_eq!(map_repos(&entry("core.db.sig", true, 0)), None);
    assert_eq!(map_repos(&entry("core.files", true, 0)), None);
    assert_eq!(map_repos(&entry("core.db", false, 0)), None);
}

#[test]
fn repositories_of_a_database_directory() {
    let entries = vec![
        entry("extra.db", true, 0),
        entry("extra.files", true, 0),
        entry("core.db", true, 0),
        entry("x.db", false, 0),
    ];
    assert_eq!(select_repos(&entries), ["extra", "core"]);
}
