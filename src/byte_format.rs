//! Human-readable byte counts with binary prefixes: `"512 B"`, `"1.5 KiB"`,
//! `"3.07 GiB"`.
use vstd::prelude::*;
use vstd::string::*;
use vstd::arithmetic::div_mod::{lemma_div_is_ordered, lemma_div_is_ordered_by_denominator};

verus! {

/// `1024` to the power `k`.
pub open spec fn pow1024(k: nat) -> nat
    decreases k,
{
    if k == 0 {
        1
    } else {
        1024 * pow1024((k - 1) as nat)
    }
}

/// The unit for `size`, searched upwards from `k`: the largest power of
/// 1024 that `size` reaches, at most the sixth.
pub open spec fn unit_from(size: nat, k: nat) -> nat
    decreases 6 - k,
{
    if k < 6 && size >= pow1024(k + 1) {
        unit_from(size, k + 1)
    } else {
        k
    }
}

/// `size / 1024^k` in hundredths, rounded half up.
pub open spec fn hundredths(size: nat, k: nat) -> nat {
    (size * 200 + pow1024(k)) / (2 * pow1024(k))
}

/// The decimal digit `d`.
pub open spec fn digit_char(d: nat) -> char {
    if d == 0 {
        '0'
    } else if d == 1 {
        '1'
    } else if d == 2 {
        '2'
    } else if d == 3 {
        '3'
    } else if d == 4 {
        '4'
    } else if d == 5 {
        '5'
    } else if d == 6 {
        '6'
    } else if d == 7 {
        '7'
    } else if d == 8 {
        '8'
    } else {
        '9'
    }
}

/// `n` in decimal, without leading zeros.
pub open spec fn decimal(n: nat) -> Seq<char>
    decreases n,
{
    if n < 10 {
        seq![digit_char(n)]
    } else {
        decimal(n / 10).push(digit_char(n % 10))
    }
}

/// The fractional part of a value given in hundredths: nothing when it is
/// zero, else a point and its digits without a trailing zero.
pub open spec fn fraction(f: nat) -> Seq<char> {
    if f == 0 {
        Seq::empty()
    } else if f % 10 == 0 {
        seq!['.', digit_char(f / 10)]
    } else {
        seq!['.', digit_char(f / 10), digit_char(f % 10)]
    }
}

/// The name of the unit `1024^k`, for `k` from 1 to 6.
pub open spec fn unit_name(k: nat) -> Seq<char> {
    if k == 1 {
        "KiB"@
    } else if k == 2 {
        "MiB"@
    } else if k == 3 {
        "GiB"@
    } else if k == 4 {
        "TiB"@
    } else if k == 5 {
        "PiB"@
    } else {
        "EiB"@
    }
}

/// How `size` bytes are written: below 1024 as `"<n> B"`; else scaled by
/// the largest power of 1024 that it reaches, rounded to two decimal places
/// with trailing zeros dropped, and followed by the unit.
pub open spec fn size_text(size: nat) -> Seq<char> {
    if size < 1024 {
        decimal(size) + " B"@
    } else {
        let k = unit_from(size, 1);
        let h = hundredths(size, k);
        decimal(h / 100) + fraction(h % 100) + " "@ + unit_name(k)
    }
}

/// A byte count, written with a binary prefix.
pub struct ByteFormat(pub u64);

impl ByteFormat {
    /// The byte count as text, as [`human_readable_size`] writes it.
    pub fn to_string(&self) -> (r: String)
        ensures
            r@ == size_text(self.0 as nat),
    {
        human_readable_size(self.0)
    }
}

fn digit_str(d: u64) -> (r: &'static str)
    requires
        d < 10,
    ensures
        r@ == seq![digit_char(d as nat)],
{
    proof {
        reveal_strlit("0");
        reveal_strlit("1");
        reveal_strlit("2");
        reveal_strlit("3");
        reveal_strlit("4");
        reveal_strlit("5");
        reveal_strlit("6");
        reveal_strlit("7");
        reveal_strlit("8");
        reveal_strlit("9");
    }
    if d == 0 {
        "0"
    } else if d == 1 {
        "1"
    } else if d == 2 {
        "2"
    } else if d == 3 {
        "3"
    } else if d == 4 {
        "4"
    } else if d == 5 {
        "5"
    } else if d == 6 {
        "6"
    } else if d == 7 {
        "7"
    } else if d == 8 {
        "8"
    } else {
        "9"
    }
}

/// Appends `n` in decimal to `out`.
fn push_decimal(out: &mut String, n: u64)
    ensures
        final(out)@ == old(out)@ + decimal(n as nat),
    decreases n,
{
    if n >= 10 {
        push_decimal(out, n / 10);
    }
    out.append(digit_str(n % 10));
    proof {
        if n >= 10 {
            assert(old(out)@ + decimal(n as nat) =~= old(out)@ + decimal((n / 10) as nat) + seq![
                digit_char((n % 10) as nat),
            ]);
        }
    }
}

fn unit_str(k: u64) -> (r: &'static str)
    requires
        1 <= k <= 6,
    ensures
        r@ == unit_name(k as nat),
{
    if k == 1 {
        "KiB"
    } else if k == 2 {
        "MiB"
    } else if k == 3 {
        "GiB"
    } else if k == 4 {
        "TiB"
    } else if k == 5 {
        "PiB"
    } else {
        "EiB"
    }
}

/// Writes `size` bytes for a person to read: `0` gives `"0 B"`, `1536`
/// gives `"1.5 KiB"`, `1073741824` gives `"1 GiB"`.
pub fn human_readable_size(size: u64) -> (r: String)
    ensures
        r@ == size_text(size as nat),
{
    let mut out = String::new();
    if size < 1024 {
        push_decimal(&mut out, size);
        out.append(" B");
        return out;
    }
    let mut k: u64 = 1;
    let mut d: u64 = 1024;
    proof {
        reveal_with_fuel(pow1024, 2);
    }
    while k < 6 && size / 1024 >= d
        invariant
            1 <= k <= 6,
            d == pow1024(k as nat),
            unit_from(size as nat, 1) == unit_from(size as nat, k as nat),
        decreases 6 - k,
    {
        proof {
            reveal_with_fuel(pow1024, 7);
            assert(d <= 1125899906842624) by {
                assert(k == 1 || k == 2 || k == 3 || k == 4 || k == 5);
            }
        }
        d = d * 1024;
        k = k + 1;
    }
    proof {
        reveal_with_fuel(pow1024, 7);
        assert(1024 <= d <= 1152921504606846976) by {
            assert(k == 1 || k == 2 || k == 3 || k == 4 || k == 5 || k == 6);
        }
    }
    let h: u128 = ((size as u128) * 200 + d as u128) / (2 * (d as u128));
    assert(h == hundredths(size as nat, k as nat));
    proof {
        let x = size as int * 200 + d as int;
        lemma_div_is_ordered_by_denominator(x, 2048, 2 * d as int);
        lemma_div_is_ordered(x, 3689348814741910323000 + 1152921504606846976int, 2048);
    }
    assert(h <= 2000000000000000000);
    let whole = (h / 100) as u64;
    let f = (h % 100) as u64;
    push_decimal(&mut out, whole);
    if f != 0 {
        out.append(".");
        out.append(digit_str(f / 10));
        if f % 10 != 0 {
            out.append(digit_str(f % 10));
        }
    }
    out.append(" ");
    out.append(unit_str(k));
    proof {
        reveal_strlit(".");
    }
    assert(out@ =~= size_text(size as nat));
    out
}

} // verus!
