//! Picking package archives and repository databases out of directory
//! listings.
use vstd::prelude::*;
use crate::package::{views, Pkg, PkgView};
use crate::text::{chars_of, range_is};

verus! {

/// One entry of a directory listing, as the file system reports it.
pub struct DirEntryInfo {
    pub name: String,
    /// The entry is a regular file.
    pub is_file: bool,
    /// Its length in bytes.
    pub size: u64,
}

/// The abstract value of a [`DirEntryInfo`].
pub struct EntryView {
    pub name: Seq<char>,
    pub is_file: bool,
    pub size: u64,
}

impl View for DirEntryInfo {
    type V = EntryView;

    open spec fn view(&self) -> EntryView {
        EntryView { name: self.name@, is_file: self.is_file, size: self.size }
    }
}

/// `t` occurs in `s` from position `i` on.
pub open spec fn occurs_at(s: Seq<char>, t: Seq<char>, i: int) -> bool {
    0 <= i && i + t.len() <= s.len() && s.subrange(i, i + t.len()) == t
}

/// `t` occurs somewhere in `s`.
pub open spec fn has_infix(s: Seq<char>, t: Seq<char>) -> bool {
    exists|i: int| occurs_at(s, t, i)
}

/// `s` ends with `t`.
pub open spec fn ends_with(s: Seq<char>, t: Seq<char>) -> bool {
    t.len() <= s.len() && occurs_at(s, t, s.len() - t.len())
}

/// A file name of a package archive: it holds `.pkg.tar` and is no detached
/// signature (it does not end with `.sig`).
pub open spec fn is_pkg_name(name: Seq<char>) -> bool {
    has_infix(name, ".pkg.tar"@) && !ends_with(name, ".sig"@)
}

/// The repository whose synchronisation database a file of this name is:
/// `<repo>.db`, with a name before the extension.
pub open spec fn repo_of(name: Seq<char>) -> Option<Seq<char>> {
    if ends_with(name, ".db"@) && name.len() > 3 {
        Some(name.subrange(0, name.len() - 3))
    } else {
        None
    }
}

/// The package that a cache entry is, if it is one.
pub open spec fn pkg_of(e: EntryView) -> Option<PkgView> {
    if e.is_file && is_pkg_name(e.name) {
        Some(PkgView { name: e.name, size: e.size })
    } else {
        None
    }
}

/// The packages among the cache entries `es`, in their order.
pub open spec fn pkgs_of(es: Seq<EntryView>) -> Seq<PkgView>
    decreases es.len(),
{
    if es.len() == 0 {
        Seq::empty()
    } else {
        let rest = pkgs_of(es.drop_last());
        match pkg_of(es.last()) {
            Some(p) => rest.push(p),
            None => rest,
        }
    }
}

/// The repositories whose databases the entries `es` are, in their order.
pub open spec fn repos_of(es: Seq<EntryView>) -> Seq<Seq<char>>
    decreases es.len(),
{
    if es.len() == 0 {
        Seq::empty()
    } else {
        let rest = repos_of(es.drop_last());
        if es.last().is_file && repo_of(es.last().name) is Some {
            rest.push(repo_of(es.last().name)->0)
        } else {
            rest
        }
    }
}

/// The views of a sequence of entries.
pub open spec fn entry_views(es: Seq<DirEntryInfo>) -> Seq<EntryView> {
    es.map_values(|e: DirEntryInfo| e@)
}

fn ends_with_chars(cs: &Vec<char>, t: &Vec<char>) -> (r: bool)
    ensures
        r == ends_with(cs@, t@),
{
    t.len() <= cs.len() && range_is(cs, cs.len() - t.len(), cs.len(), t)
}

fn has_infix_chars(cs: &Vec<char>, t: &Vec<char>) -> (r: bool)
    ensures
        r == has_infix(cs@, t@),
{
    if t.len() > cs.len() {
        return false;
    }
    if t.len() == 0 {
        assert(cs@.subrange(0, 0) =~= t@);
        assert(occurs_at(cs@, t@, 0));
        return true;
    }
    let last = cs.len() - t.len();
    let mut i: usize = 0;
    while i <= last
        invariant
            last == cs@.len() - t@.len(),
            1 <= t@.len() <= cs@.len() <= usize::MAX,
            i <= last + 1,
            forall|j: int| 0 <= j < i ==> !occurs_at(cs@, t@, j),
        decreases last + 1 - i,
    {
        if range_is(cs, i, i + t.len(), t) {
            assert(occurs_at(cs@, t@, i as int));
            return true;
        }
        i = i + 1;
    }
    assert forall|j: int| !occurs_at(cs@, t@, j) by {
        if 0 <= j < i {
        }
    }
    false
}

/// Whether `name` is the file name of a package archive: it holds
/// `.pkg.tar` and does not end with `.sig`.
pub fn is_pkg_file(name: &str) -> (r: bool)
    ensures
        r == is_pkg_name(name@),
{
    let cs = chars_of(name);
    let marker = chars_of(".pkg.tar");
    let sig = chars_of(".sig");
    has_infix_chars(&cs, &marker) && !ends_with_chars(&cs, &sig)
}

/// The package that the cache entry `e` is: a regular file whose name is
/// that of a package archive.
pub fn map_pkgs(e: &DirEntryInfo) -> (r: Option<Pkg>)
    ensures
        match r {
            Some(p) => pkg_of(e@) == Some(p@),
            None => pkg_of(e@) is None,
        },
{
    if e.is_file && is_pkg_file(e.name.as_str()) {
        Some(Pkg::new(e.name.clone(), e.size))
    } else {
        None
    }
}

/// The repository whose database the entry `e` is: a regular file named
/// `<repo>.db`.
pub fn map_repos(e: &DirEntryInfo) -> (r: Option<String>)
    ensures
        r.deep_view() == (if e@.is_file {
            repo_of(e@.name)
        } else {
            None
        }),
{
    if !e.is_file {
        return None;
    }
    let cs = chars_of(e.name.as_str());
    let ext = chars_of(".db");
    proof {
        reveal_strlit(".db");
    }
    if ends_with_chars(&cs, &ext) && cs.len() > 3 {
        Some(e.name.as_str().substring_char(0, cs.len() - 3).to_owned())
    } else {
        None
    }
}

/// The package archives of a cache directory listing, in listing order.
pub fn select_pkgs(entries: &Vec<DirEntryInfo>) -> (r: Vec<Pkg>)
    ensures
        views(r@) == pkgs_of(entry_views(entries@)),
{
    let ghost es = entry_views(entries@);
    let mut r: Vec<Pkg> = Vec::new();
    assert(es.subrange(0, 0) =~= Seq::<EntryView>::empty());
    assert(views(r@) =~= Seq::<PkgView>::empty());
    for i in 0..entries.len()
        invariant
            es == entry_views(entries@),
            views(r@) == pkgs_of(es.subrange(0, i as int)),
    {
        let ghost before = views(r@);
        assert(es.subrange(0, i + 1).drop_last() =~= es.subrange(0, i as int));
        assert(es[i as int] == entries@[i as int]@);
        match map_pkgs(&entries[i]) {
            Some(p) => {
                r.push(p);
                assert(views(r@) =~= before.push(p@));
            },
            None => {},
        }
    }
    assert(es.subrange(0, es.len() as int) =~= es);
    r
}

/// The repositories whose synchronisation databases a listing of the
/// database directory shows, in listing order.
pub fn select_repos(entries: &Vec<DirEntryInfo>) -> (r: Vec<String>)
    ensures
        r.deep_view() == repos_of(entry_views(entries@)),
{
    let ghost es = entry_views(entries@);
    let mut r: Vec<String> = Vec::new();
    assert(es.subrange(0, 0) =~= Seq::<EntryView>::empty());
    assert(r.deep_view() =~= Seq::<Seq<char>>::empty());
    for i in 0..entries.len()
        invariant
            es == entry_views(entries@),
            r.deep_view() == repos_of(es.subrange(0, i as int)),
    {
        let ghost before = r.deep_view();
        assert(es.subrange(0, i + 1).drop_last() =~= es.subrange(0, i as int));
        assert(es[i as int] == entries@[i as int]@);
        match map_repos(&entries[i]) {
            Some(name) => {
                let ghost n = name@;
                r.push(name);
                assert(r.deep_view() =~= before.push(n));
            },
            None => {},
        }
    }
    assert(es.subrange(0, es.len() as int) =~= es);
    r
}

} // verus!
