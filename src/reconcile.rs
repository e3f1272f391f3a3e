//! Working out which cached packages no configured repository provides.
use vstd::prelude::*;
use vstd::utf8::encode_utf8_decode_utf8;
use std::cmp::Ordering;
use crate::order::{bytes_lt, compare_bytes, lemma_lt_irreflexive, lemma_lt_transitive};
use crate::package::{views, Pkg, PkgView};

verus! {

/// What one repository's synchronisation database lists: the file names of
/// the package archives it provides, or `None` where the database could not
/// be opened.
pub struct RepoListing {
    pub repo: String,
    pub files: Option<Vec<String>>,
}

/// The abstract value of a [`RepoListing`].
pub struct ListingView {
    pub repo: Seq<char>,
    pub files: Option<Seq<Seq<char>>>,
}

impl View for RepoListing {
    type V = ListingView;

    open spec fn view(&self) -> ListingView {
        ListingView { repo: self.repo@, files: self.files.deep_view() }
    }
}

/// What to do when a repository's database could not be opened.
#[derive(Debug, Clone, Copy, PartialEq, Eq)]
pub enum MissingDb {
    /// Go on without it: its packages are then not kept.
    Skip,
    /// Give up with [`ReconcileError::RepositoryUnavailable`].
    Abort,
}

/// Why no removal plan was made.
#[derive(Debug)]
pub enum ReconcileError {
    /// The named repository's database could not be opened.
    RepositoryUnavailable(String),
}

/// The views of a sequence of listings.
pub open spec fn listing_views(s: Seq<RepoListing>) -> Seq<ListingView> {
    s.map_values(|l: RepoListing| l@)
}

/// `pkgs[i]` is the last package of `pkgs` under its file name.
pub open spec fn is_last_of_name(pkgs: Seq<PkgView>, i: int) -> bool {
    forall|j: int| i < j < pkgs.len() ==> (#[trigger] pkgs[j]).name != pkgs[i].name
}

/// `p` is what the cache listing `pkgs` holds under its file name: where a
/// name comes more than once, the last entry stands.
pub open spec fn is_cached(pkgs: Seq<PkgView>, p: PkgView) -> bool {
    exists|i: int| 0 <= i < pkgs.len() && pkgs[i] == p && is_last_of_name(pkgs, i)
}

/// The packages are in strictly ascending byte-wise order of file name.
pub open spec fn sorted_by_name(s: Seq<PkgView>) -> bool {
    forall|i: int, j: int| 0 <= i < j < s.len() ==> bytes_lt(s[i].key(), s[j].key())
}

/// The listing names the file `name`.
pub open spec fn lists(l: ListingView, name: Seq<char>) -> bool {
    l.files is Some && l.files->0.contains(name)
}

/// Some listing among `ls` names the file `name`.
pub open spec fn provided(ls: Seq<ListingView>, name: Seq<char>) -> bool {
    exists|i: int| 0 <= i < ls.len() && lists(#[trigger] ls[i], name)
}

/// Every listing among `ls` could be read.
pub open spec fn all_available(ls: Seq<ListingView>) -> bool {
    forall|i: int| 0 <= i < ls.len() ==> (#[trigger] ls[i]).files is Some
}

/// `i` is the first listing among `ls` that could not be read.
pub open spec fn first_unavailable(ls: Seq<ListingView>, i: int) -> bool {
    &&& 0 <= i < ls.len()
    &&& ls[i].files is None
    &&& forall|k: int| 0 <= k < i ==> (#[trigger] ls[k]).files is Some
}

/// `p` is cached among `pkgs`, and no listing among `ls` provides it.
pub open spec fn is_orphan(pkgs: Seq<PkgView>, ls: Seq<ListingView>, p: PkgView) -> bool {
    is_cached(pkgs, p) && !provided(ls, p.name)
}

/// `q` is the last package under its name among `pkgs`, at position `n`
/// or later.
pub open spec fn latest_from(pkgs: Seq<PkgView>, n: int, q: PkgView) -> bool {
    exists|i: int| n <= i < pkgs.len() && pkgs[i] == q && is_last_of_name(pkgs, i)
}

/// Each name of `s` has a last package, at position `j` or later.
proof fn lemma_last_of_name_exists(s: Seq<PkgView>, j: int)
    requires
        0 <= j < s.len(),
    ensures
        exists|i: int| j <= i < s.len() && s[i].name == s[j].name && is_last_of_name(s, i),
    decreases s.len() - j,
{
    if is_last_of_name(s, j) {
        assert(s[j].name == s[j].name);
    } else {
        let j2 = choose|j2: int| j < j2 < s.len() && (#[trigger] s[j2]).name == s[j].name;
        lemma_last_of_name_exists(s, j2);
    }
}

/// Equal keys mean equal file names.
proof fn lemma_key_injective(a: PkgView, b: PkgView)
    requires
        a.key() == b.key(),
    ensures
        a.name == b.name,
{
    encode_utf8_decode_utf8(a.name);
    encode_utf8_decode_utf8(b.name);
}

/// Where `key` stands in the sorted `w`: `Ok(k)` where `w[k]` has that key,
/// else `Err(pos)` with the smaller keys before `pos` and the greater from it.
fn find(w: &Vec<Pkg>, key: &[u8]) -> (r: Result<usize, usize>)
    requires
        sorted_by_name(views(w@)),
    ensures
        match r {
            Ok(k) => k < w@.len() && w@[k as int]@.key() == key@,
            Err(pos) => pos <= w@.len() && (forall|i: int|
                0 <= i < pos ==> bytes_lt(#[trigger] w@[i]@.key(), key@)) && (forall|i: int|
                pos <= i < w@.len() ==> bytes_lt(key@, #[trigger] w@[i]@.key())),
        },
{
    let mut lo: usize = 0;
    let mut hi: usize = w.len();
    while lo < hi
        invariant
            sorted_by_name(views(w@)),
            lo <= hi <= w@.len(),
            forall|i: int| 0 <= i < lo ==> bytes_lt(#[trigger] w@[i]@.key(), key@),
            forall|i: int| hi <= i < w@.len() ==> bytes_lt(key@, #[trigger] w@[i]@.key()),
        decreases hi - lo,
    {
        let mid = lo + (hi - lo) / 2;
        let ghost m = w@[mid as int]@.key();
        assert(views(w@)[mid as int] == w@[mid as int]@);
        match compare_bytes(w[mid].name().as_bytes(), key) {
            Ordering::Less => {
                assert forall|i: int| 0 <= i < mid + 1 implies bytes_lt(
                    #[trigger] w@[i]@.key(),
                    key@,
                ) by {
                    if i < mid {
                        assert(views(w@)[i] == w@[i]@);
                        lemma_lt_transitive(w@[i]@.key(), m, key@);
                    }
                }
                lo = mid + 1;
            },
            Ordering::Equal => {
                return Ok(mid);
            },
            Ordering::Greater => {
                assert forall|i: int| mid <= i < w@.len() implies bytes_lt(
                    key@,
                    #[trigger] w@[i]@.key(),
                ) by {
                    if i > mid {
                        assert(views(w@)[i] == w@[i]@);
                        lemma_lt_transitive(key@, m, w@[i]@.key());
                    }
                }
                hi = mid;
            },
        }
    }
    Err(lo)
}

/// In a sorted sequence, different positions hold different keys.
proof fn lemma_sorted_keys_differ(s: Seq<PkgView>, i: int, j: int)
    requires
        sorted_by_name(s),
        0 <= i < s.len(),
        0 <= j < s.len(),
        i != j,
    ensures
        s[i].key() != s[j].key(),
{
    if i < j {
        lemma_lt_irreflexive(s[i].key());
    } else {
        lemma_lt_irreflexive(s[j].key());
    }
}

/// Puts `p` into the sorted `w` at `pos`, its place by [`find`].
fn insert_sorted(w: &mut Vec<Pkg>, pos: usize, p: Pkg)
    requires
        sorted_by_name(views(old(w)@)),
        pos <= old(w)@.len(),
        forall|i: int| 0 <= i < pos ==> bytes_lt(#[trigger] old(w)@[i]@.key(), p@.key()),
        forall|i: int| pos <= i < old(w)@.len() ==> bytes_lt(p@.key(), #[trigger] old(w)@[i]@.key()),
    ensures
        sorted_by_name(views(final(w)@)),
        forall|q: PkgView| #[trigger] views(final(w)@).contains(q) <==> (views(old(w)@).contains(q) || q == p@),
{
    let ghost before = views(w@);
    let ghost pv = p@;
    w.insert(pos, p);
    assert(views(w@) =~= before.insert(pos as int, pv));
    assert forall|i: int, j: int| 0 <= i < j < views(w@).len() implies bytes_lt(
        views(w@)[i].key(),
        views(w@)[j].key(),
    ) by {
        assert(views(w@)[i] == w@[i]@);
        assert(views(w@)[j] == w@[j]@);
        if j < pos {
            assert(before[i] == w@[i]@ && before[j] == w@[j]@);
        } else if j == pos {
        } else if i < pos {
            assert(before[i] == w@[i]@ && before[j - 1] == w@[j]@);
            lemma_lt_transitive(before[i].key(), pv.key(), before[j - 1].key());
        } else if i == pos {
        } else {
            assert(before[i - 1] == w@[i]@ && before[j - 1] == w@[j]@);
        }
    }
    assert forall|q: PkgView| before.contains(q) || q == pv implies #[trigger] views(
        w@,
    ).contains(q) by {
        if q == pv {
            assert(views(w@)[pos as int] == pv);
        } else if before.contains(q) {
            let m = choose|m: int| 0 <= m < before.len() && before[m] == q;
            if m < pos {
                assert(views(w@)[m] == q);
            } else {
                assert(views(w@)[m + 1] == q);
            }
        }
    }
    assert forall|q: PkgView| #[trigger] views(w@).contains(q) implies (before.contains(q)
        || q == pv) by {
        let m = choose|m: int| 0 <= m < views(w@).len() && views(w@)[m] == q;
        if m < pos {
            assert(before[m] == q);
        } else if m > pos {
            assert(before[m - 1] == q);
        }
    }
}

/// Takes out of the sorted `w` every package whose file name `files` lists.
fn remove_listed(w: &mut Vec<Pkg>, files: &Vec<String>)
    requires
        sorted_by_name(views(old(w)@)),
    ensures
        sorted_by_name(views(final(w)@)),
        forall|q: PkgView| #[trigger] views(final(w)@).contains(q) <==> (views(old(w)@).contains(q)
            && !files.deep_view().contains(q.name)),
{
    let ghost start = views(w@);
    let ghost names = files.deep_view();
    for j in 0..files.len()
        invariant
            names == files.deep_view(),
            sorted_by_name(views(w@)),
            forall|q: PkgView| #[trigger] views(w@).contains(q) <==> (start.contains(q)
                && !names.subrange(0, j as int).contains(q.name)),
    {
        let ghost before = views(w@);
        let ghost file = names[j as int];
        assert(names.subrange(0, j + 1) =~= names.subrange(0, j as int).push(file));
        match find(w, files[j].as_str().as_bytes()) {
            Ok(k) => {
                let ghost gone = before[k as int];
                assert(before[k as int] == w@[k as int]@);
                proof {
                    lemma_lt_irreflexive(gone.key());
                }
                assert(gone.key() == (PkgView { name: file, size: 0 }).key());
                w.remove(k);
                assert(views(w@) =~= before.remove(k as int));
                assert forall|q: PkgView| #[trigger] views(w@).contains(q) <==> (before.contains(q)
                    && q.name != file) by {
                    if views(w@).contains(q) {
                        let m = choose|m: int| 0 <= m < views(w@).len() && views(w@)[m] == q;
                        let m0 = if m < k { m } else { m + 1 };
                        assert(before[m0] == q);
                        lemma_sorted_keys_differ(before, m0, k as int);
                    }
                    if before.contains(q) && q.name != file {
                        let m = choose|m: int| 0 <= m < before.len() && before[m] == q;
                        if m == k {
                            lemma_key_injective(gone, PkgView { name: file, size: 0 });
                        } else if m < k {
                            assert(views(w@)[m] == q);
                        } else {
                            assert(views(w@)[m - 1] == q);
                        }
                    }
                }
            },
            Err(pos) => {
                assert forall|q: PkgView| #[trigger] before.contains(q) implies q.name != file by {
                    let m = choose|m: int| 0 <= m < before.len() && before[m] == q;
                    assert(before[m] == w@[m]@);
                    if q.name == file {
                        lemma_lt_irreflexive(q.key());
                    }
                }
            },
        }
        assert(forall|q: PkgView| #[trigger] views(w@).contains(q) <==> (before.contains(q)
            && q.name != file));
        assert forall|q: PkgView| #[trigger] views(w@).contains(q) <==> (start.contains(q)
            && !names.subrange(0, j + 1).contains(q.name)) by {
            let sub = names.subrange(0, j as int);
            if sub.contains(q.name) {
                let m = choose|m: int| 0 <= m < sub.len() && sub[m] == q.name;
                assert(sub.push(file)[m] == q.name);
            }
            if sub.push(file).contains(q.name) && q.name != file {
                let m = choose|m: int| 0 <= m < sub.len() + 1 && sub.push(file)[m] == q.name;
                assert(sub[m] == q.name);
            }
            if q.name == file {
                assert(sub.push(file)[j as int] == file);
            }
        }
    }
    assert(names.subrange(0, names.len() as int) =~= names);
}

/// `provided` over one listing more.
proof fn lemma_provided_push(ls: Seq<ListingView>, i: int, name: Seq<char>)
    requires
        0 <= i < ls.len(),
    ensures
        provided(ls.subrange(0, i + 1), name) == (provided(ls.subrange(0, i), name) || lists(
            ls[i],
            name,
        )),
{
    let a = ls.subrange(0, i);
    let b = ls.subrange(0, i + 1);
    if provided(b, name) {
        let k = choose|k: int| 0 <= k < b.len() && lists(#[trigger] b[k], name);
        if k < i {
            assert(a[k] == b[k]);
        }
    }
    if provided(a, name) {
        let k = choose|k: int| 0 <= k < a.len() && lists(#[trigger] a[k], name);
        assert(b[k] == a[k]);
    }
    if lists(ls[i], name) {
        assert(b[i] == ls[i]);
    }
}

/// Works out the removal plan: the cached packages `pkgs` that none of the
/// `listings` provides, in ascending byte-wise order of file name.
///
/// A listing whose database could not be opened protects nothing. With
/// [`MissingDb::Abort`] the first such listing ends the work with
/// [`ReconcileError::RepositoryUnavailable`] instead.
pub fn filter_pkgs(pkgs: Vec<Pkg>, listings: &Vec<RepoListing>, on_missing: MissingDb) -> (r:
    Result<Vec<Pkg>, ReconcileError>)
    ensures
        match r {
            Ok(plan) => {
                &&& on_missing == MissingDb::Skip || all_available(listing_views(listings@))
                &&& sorted_by_name(views(plan@))
                &&& forall|p: PkgView| #[trigger]
                    views(plan@).contains(p) <==> is_orphan(
                        views(pkgs@),
                        listing_views(listings@),
                        p,
                    )
            },
            Err(ReconcileError::RepositoryUnavailable(repo)) => {
                &&& on_missing == MissingDb::Abort
                &&& exists|i: int|
                    first_unavailable(listing_views(listings@), i) && repo@ == listings@[i]@.repo
            },
        },
{
    let ghost ls = listing_views(listings@);
    if let MissingDb::Abort = on_missing {
        for i in 0..listings.len()
            invariant
                ls == listing_views(listings@),
                on_missing == MissingDb::Abort,
                forall|k: int| 0 <= k < i ==> (#[trigger] ls[k]).files is Some,
        {
            assert(ls[i as int] == listings@[i as int]@);
            if listings[i].files.is_none() {
                let repo = listings[i].repo.clone();
                assert(first_unavailable(ls, i as int) && repo@ == listings@[i as int]@.repo);
                return Err(ReconcileError::RepositoryUnavailable(repo));
            }
        }
    }
    let ghost all = views(pkgs@);
    let mut pkgs = pkgs;
    let mut w: Vec<Pkg> = Vec::new();
    assert(views(w@) =~= Seq::<PkgView>::empty());
    while pkgs.len() > 0
        invariant
            views(pkgs@) == all.subrange(0, pkgs@.len() as int),
            pkgs@.len() <= all.len(),
            sorted_by_name(views(w@)),
            forall|q: PkgView| #[trigger]
                views(w@).contains(q) <==> latest_from(all, pkgs@.len() as int, q),
        decreases pkgs@.len(),
    {
        let n = pkgs.len();
        let ghost prev = pkgs@;
        let p = pkgs.pop().unwrap();
        assert(views(pkgs@) =~= all.subrange(0, n - 1));
        assert(p@ == views(prev)[n - 1]);
        assert(p@ == all[n - 1]);
        match find(&w, p.name().as_bytes()) {
            Ok(k) => {
                proof {
                    // A later entry under the same name stands already.
                    let later = w@[k as int]@;
                    lemma_key_injective(later, p@);
                    assert(views(w@)[k as int] == later);
                    assert(views(w@).contains(later));
                    let i2 = choose|i: int|
                        n <= i < all.len() && all[i] == later && is_last_of_name(all, i);
                    assert forall|q: PkgView| #[trigger]
                        views(w@).contains(q) <==> latest_from(all, n - 1, q) by {
                        if latest_from(all, n - 1, q) {
                            let i = choose|i: int|
                                n - 1 <= i < all.len() && all[i] == q && is_last_of_name(all, i);
                            if i == n - 1 {
                                assert(all[i2].name == all[n - 1].name);
                            }
                            assert(latest_from(all, n as int, q));
                        }
                    }
                }
            },
            Err(pos) => {
                proof {
                    assert forall|j: int| n - 1 < j < all.len() implies (#[trigger] all[j]).name
                        != all[n - 1].name by {
                        if all[j].name == all[n - 1].name {
                            lemma_last_of_name_exists(all, j);
                            let i = choose|i: int|
                                j <= i < all.len() && all[i].name == all[j].name
                                    && is_last_of_name(all, i);
                            assert(latest_from(all, n as int, all[i]));
                            assert(views(w@).contains(all[i]));
                            let m = choose|m: int| 0 <= m < views(w@).len() && views(w@)[m] == all[i];
                            assert(views(w@)[m] == w@[m]@);
                            assert(w@[m]@.key() == p@.key());
                            lemma_lt_irreflexive(p@.key());
                            if m < pos {
                                assert(bytes_lt(w@[m]@.key(), p@.key()));
                            } else {
                                assert(bytes_lt(p@.key(), w@[m]@.key()));
                            }
                        }
                    }
                    assert(is_last_of_name(all, n - 1));
                }
                insert_sorted(&mut w, pos, p);
                assert forall|q: PkgView| #[trigger]
                    views(w@).contains(q) <==> latest_from(all, n - 1, q) by {
                    if latest_from(all, n - 1, q) {
                        let i = choose|i: int|
                            n - 1 <= i < all.len() && all[i] == q && is_last_of_name(all, i);
                        if i > n - 1 {
                            assert(latest_from(all, n as int, q));
                        }
                    }
                    if q == all[n - 1] {
                        assert(latest_from(all, n - 1, q));
                    }
                    if latest_from(all, n as int, q) {
                        let i = choose|i: int|
                            n <= i < all.len() && all[i] == q && is_last_of_name(all, i);
                        assert(latest_from(all, n - 1, q));
                    }
                }
            },
        }
    }
    assert(all.subrange(0, all.len() as int) =~= all);
    for i in 0..listings.len()
        invariant
            ls == listing_views(listings@),
            on_missing == MissingDb::Skip || all_available(ls),
            sorted_by_name(views(w@)),
            forall|q: PkgView| #[trigger]
                views(w@).contains(q) <==> (is_cached(all, q) && !provided(
                    ls.subrange(0, i as int),
                    q.name,
                )),
    {
        assert(ls[i as int] == listings@[i as int]@);
        let ghost before = views(w@);
        match &listings[i].files {
            Some(files) => {
                remove_listed(&mut w, files);
            },
            None => {},
        }
        assert forall|q: PkgView| #[trigger] views(w@).contains(q) <==> (is_cached(all, q)
            && !provided(ls.subrange(0, i + 1), q.name)) by {
            lemma_provided_push(ls, i as int, q.name);
        }
    }
    assert(ls.subrange(0, ls.len() as int) =~= ls);
    assert(on_missing == MissingDb::Skip || all_available(ls));
    Ok(w)
}

} // verus!
