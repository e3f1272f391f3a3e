use vstd::prelude::*;
use vstd::utf8::encode_utf8;

verus! {

/// A package archive found in the cache: its file name and its size in bytes.
#[derive(Debug, PartialEq, Eq)]
pub struct Pkg {
    name: String,
    size: u64,
}

/// What a [`Pkg`] stands for: a file name and a byte count.
pub struct PkgView {
    pub name: Seq<char>,
    pub size: u64,
}

impl PkgView {
    /// The file name as it is stored on disk, in UTF-8; packages are ordered
    /// by this byte string.
    pub open spec fn key(self) -> Seq<u8> {
        encode_utf8(self.name)
    }
}

impl View for Pkg {
    type V = PkgView;

    closed spec fn view(&self) -> PkgView {
        PkgView { name: self.name@, size: self.size }
    }
}

impl Pkg {
    pub fn new(name: String, size: u64) -> (r: Pkg)
        ensures
            r@ == (PkgView { name: name@, size }),
    {
        Pkg { name, size }
    }

    pub fn name(&self) -> (r: &str)
        ensures
            r@ == self@.name,
    {
        self.name.as_str()
    }

    pub fn size(&self) -> (r: u64)
        ensures
            r == self@.size,
    {
        self.size
    }

    /// Splits the package into the pair (file name, size).
    pub fn into_hash(self) -> (r: (String, u64))
        ensures
            r.0@ == self@.name,
            r.1 == self@.size,
    {
        (self.name, self.size)
    }

    /// Builds a package from the pair (file name, size).
    pub fn from_hash(pair: (String, u64)) -> (r: Pkg)
        ensures
            r@ == (PkgView { name: pair.0@, size: pair.1 }),
    {
        let (name, size) = pair;
        Pkg::new(name, size)
    }
}

/// The views of a sequence of packages.
pub open spec fn views(s: Seq<Pkg>) -> Seq<PkgView> {
    s.map_values(|p: Pkg| p@)
}

/// The sizes of the packages `s` added up.
pub open spec fn sum_sizes(s: Seq<PkgView>) -> nat
    decreases s.len(),
{
    if s.len() == 0 {
        0
    } else {
        sum_sizes(s.drop_last()) + s.last().size as nat
    }
}

/// `n`, or `u64::MAX` where `n` exceeds it.
pub open spec fn capped(n: nat) -> nat {
    if n > u64::MAX {
        u64::MAX as nat
    } else {
        n
    }
}

/// The sizes of `pkgs` added up, at most `u64::MAX`.
pub fn total_size(pkgs: &Vec<Pkg>) -> (r: u64)
    ensures
        r == capped(sum_sizes(views(pkgs@))),
{
    let ghost s = views(pkgs@);
    let mut total: u64 = 0;
    assert(s.subrange(0, 0) =~= Seq::<PkgView>::empty());
    for i in 0..pkgs.len()
        invariant
            s == views(pkgs@),
            total == capped(sum_sizes(s.subrange(0, i as int))),
    {
        assert(s.subrange(0, i + 1).drop_last() =~= s.subrange(0, i as int));
        assert(s[i as int] == pkgs@[i as int]@);
        total = total.saturating_add(pkgs[i].size());
    }
    assert(s.subrange(0, s.len() as int) =~= s);
    total
}

} // verus!
