//! Removing the planned packages from the cache, one file at a time.
//!
//! [`Purge`] decides; the caller does the file system work. It asks
//! [`Purge::next_step`] which file to remove, removes it, and hands the
//! outcome to [`Purge::record`], which says whether to warn about it.
//!
//! Each package archive is removed first. When that succeeds, the package
//! counts as removed and its detached signature (`<archive>.sig`) is removed
//! next; a missing signature is no fault. A missing archive is taken as
//! already removed: nothing is counted and its signature is left alone. Any
//! other failure is warned about and, for an archive, skips the package.
use vstd::prelude::*;
use vstd::string::*;
use crate::package::{views, Pkg, PkgView};

verus! {

/// How the removal of one file went.
#[derive(Debug, Clone, Copy, PartialEq, Eq)]
pub enum Removal {
    Removed,
    /// The file was not there.
    NotFound,
    /// Any other failure: permissions, I/O.
    Failed,
}

/// What to do next.
#[derive(Debug, PartialEq, Eq)]
pub enum Step {
    /// Remove the package archive at this path.
    RemovePackage(String),
    /// Remove the detached signature at this path.
    RemoveSignature(String),
    /// Nothing is left to remove.
    Done,
}

/// How many packages were removed, and their bytes in all (at most
/// `u64::MAX`).
#[derive(Debug, Clone, Copy, PartialEq, Eq)]
pub struct PurgeOutcome {
    pub removed_count: u64,
    pub removed_bytes: u64,
}

#[derive(Clone, Copy)]
struct Cursor {
    index: usize,
    signature: bool,
    count: u64,
    bytes: u64,
}

/// The removal of a plan of packages from a cache directory, in progress.
pub struct Purge {
    cachedir: String,
    plan: Vec<Pkg>,
    at: Cursor,
}

/// The abstract state of a [`Purge`]: the plan, the package at hand
/// (`index`), whether its signature is next, and what has been counted.
pub struct PurgeView {
    pub cachedir: Seq<char>,
    pub plan: Seq<PkgView>,
    pub index: nat,
    pub signature: bool,
    pub count: nat,
    pub bytes: nat,
}

impl View for Purge {
    type V = PurgeView;

    closed spec fn view(&self) -> PurgeView {
        PurgeView {
            cachedir: self.cachedir@,
            plan: views(self.plan@),
            index: self.at.index as nat,
            signature: self.at.signature,
            count: self.at.count as nat,
            bytes: self.at.bytes as nat,
        }
    }
}

/// `a + b`, or `u64::MAX` where the sum exceeds it.
pub open spec fn saturating_sum(a: nat, b: nat) -> nat {
    if a + b > u64::MAX {
        u64::MAX as nat
    } else {
        a + b
    }
}

/// The path of the file `name` in the directory `dir`.
pub open spec fn path_in(dir: Seq<char>, name: Seq<char>) -> Seq<char> {
    dir + "/"@ + name
}

/// The path of the detached signature of the file `name` in `dir`.
pub open spec fn signature_path_in(dir: Seq<char>, name: Seq<char>) -> Seq<char> {
    path_in(dir, name) + ".sig"@
}

/// The state in which the purge of `plan` from `dir` starts.
pub open spec fn fresh(dir: Seq<char>, plan: Seq<PkgView>) -> PurgeView {
    PurgeView { cachedir: dir, plan, index: 0, signature: false, count: 0, bytes: 0 }
}

/// The purge is over.
pub open spec fn is_finished(st: PurgeView) -> bool {
    st.index >= st.plan.len()
}

/// The state after the file of the current step was handled with result `r`.
pub open spec fn after(st: PurgeView, r: Removal) -> PurgeView {
    if is_finished(st) {
        st
    } else if !st.signature {
        match r {
            Removal::Removed => PurgeView {
                signature: true,
                count: st.count + 1,
                bytes: saturating_sum(st.bytes, st.plan[st.index as int].size as nat),
                ..st
            },
            _ => PurgeView { index: st.index + 1, ..st },
        }
    } else {
        PurgeView { index: st.index + 1, signature: false, ..st }
    }
}

/// The result `r` of the current step is to be reported as a warning.
pub open spec fn warns(st: PurgeView, r: Removal) -> bool {
    !is_finished(st) && r == Removal::Failed
}

/// The state after the steps of `st` on have had the results `rs`.
pub open spec fn run(st: PurgeView, rs: Seq<Removal>) -> PurgeView
    decreases rs.len(),
{
    if rs.len() == 0 {
        st
    } else {
        run(after(st, rs[0]), rs.drop_first())
    }
}

impl Purge {
    #[verifier::type_invariant]
    spec fn inv(self) -> bool {
        &&& self.at.index <= self.plan@.len()
        &&& self.at.signature ==> self.at.index < self.plan@.len()
        &&& self.at.count <= self.at.index + if self.at.signature {
            1int
        } else {
            0int
        }
    }

    /// Starts the removal of `plan` from the directory `cachedir`.
    pub fn new(cachedir: String, plan: Vec<Pkg>) -> (r: Purge)
        ensures
            r@ == fresh(cachedir@, views(plan@)),
    {
        Purge { cachedir, plan, at: Cursor { index: 0, signature: false, count: 0, bytes: 0 } }
    }

    /// The file to remove next.
    pub fn next_step(&self) -> (r: Step)
        ensures
            r == Step::Done <==> is_finished(self@),
            r matches Step::RemovePackage(p) ==> !self@.signature && p@ == path_in(
                self@.cachedir,
                self@.plan[self@.index as int].name,
            ),
            r matches Step::RemoveSignature(p) ==> self@.signature && p@ == signature_path_in(
                self@.cachedir,
                self@.plan[self@.index as int].name,
            ),
    {
        proof {
            use_type_invariant(self);
        }
        if self.at.index >= self.plan.len() {
            return Step::Done;
        }
        let pkg = &self.plan[self.at.index];
        assert(views(self.plan@)[self.at.index as int] == pkg@);
        let mut path = self.cachedir.as_str().to_owned();
        path.append("/");
        path.append(pkg.name());
        if self.at.signature {
            path.append(".sig");
            Step::RemoveSignature(path)
        } else {
            Step::RemovePackage(path)
        }
    }

    /// Takes in how the removal of the file of [`Purge::next_step`] went;
    /// `true` where that is to be reported as a warning.
    pub fn record(&mut self, r: Removal) -> (warn: bool)
        ensures
            final(self)@ == after(old(self)@, r),
            warn == warns(old(self)@, r),
    {
        proof {
            use_type_invariant(&*self);
        }
        let at = self.at;
        if at.index >= self.plan.len() {
            return false;
        }
        if !at.signature {
            match r {
                Removal::Removed => {
                    let size = self.plan[at.index].size();
                    assert(views(self.plan@)[at.index as int] == self.plan@[at.index as int]@);
                    self.at = Cursor {
                        signature: true,
                        count: at.count + 1,
                        bytes: at.bytes.saturating_add(size),
                        ..at
                    };
                    false
                },
                Removal::NotFound => {
                    self.at = Cursor { index: at.index + 1, ..at };
                    false
                },
                Removal::Failed => {
                    self.at = Cursor { index: at.index + 1, ..at };
                    true
                },
            }
        } else {
            self.at = Cursor { index: at.index + 1, signature: false, ..at };
            match r {
                Removal::Failed => true,
                _ => false,
            }
        }
    }

    /// Whether every package of the plan has been handled.
    pub fn is_done(&self) -> (r: bool)
        ensures
            r == is_finished(self@),
    {
        self.at.index >= self.plan.len()
    }

    /// What has been removed so far.
    pub fn outcome(&self) -> (r: PurgeOutcome)
        ensures
            r.removed_count == self@.count,
            r.removed_bytes == self@.bytes,
    {
        PurgeOutcome { removed_count: self.at.count, removed_bytes: self.at.bytes }
    }
}

/// The state of a purge of `plan` at package `k`, with nothing counted.
pub open spec fn untouched_at(dir: Seq<char>, plan: Seq<PkgView>, k: nat) -> PurgeView {
    PurgeView { cachedir: dir, plan, index: k, signature: false, count: 0, bytes: 0 }
}

/// Purging again a plan whose files are all gone already: each archive is
/// found missing, which warns of nothing and counts nothing, and the purge
/// ends having removed zero packages and zero bytes.
pub proof fn lemma_purge_of_absent_files(dir: Seq<char>, plan: Seq<PkgView>, k: nat)
    requires
        k <= plan.len(),
    ensures
        run(fresh(dir, plan), Seq::new(k, |i: int| Removal::NotFound)) == untouched_at(
            dir,
            plan,
            k,
        ),
        forall|j: nat| j < k ==> !warns(#[trigger] untouched_at(dir, plan, j), Removal::NotFound),
        k == plan.len() ==> is_finished(untouched_at(dir, plan, k)),
    decreases k,
{
    if k > 0 {
        let rs = Seq::new(k, |i: int| Removal::NotFound);
        lemma_purge_of_absent_files(dir, plan, (k - 1) as nat);
        lemma_run_push(fresh(dir, plan), Seq::new((k - 1) as nat, |i: int| Removal::NotFound), Removal::NotFound);
        assert(Seq::new((k - 1) as nat, |i: int| Removal::NotFound).push(Removal::NotFound) =~= rs);
    } else {
        assert(Seq::new(0, |i: int| Removal::NotFound) =~= Seq::<Removal>::empty());
    }
}

/// Running one result more is one step more.
pub proof fn lemma_run_push(st: PurgeView, rs: Seq<Removal>, r: Removal)
    ensures
        run(st, rs.push(r)) == after(run(st, rs), r),
    decreases rs.len(),
{
    if rs.len() == 0 {
        assert(rs.push(r).drop_first() =~= Seq::<Removal>::empty());
        assert(run(after(st, r), Seq::<Removal>::empty()) == after(st, r));
        assert(rs.push(r)[0] == r);
    } else {
        lemma_run_push(after(st, rs[0]), rs.drop_first(), r);
        assert(rs.push(r).drop_first() =~= rs.drop_first().push(r));
        assert(rs.push(r)[0] == rs[0]);
    }
}

/// Once a package archive is removed, the next step removes its detached
/// signature, and whatever comes of that (a missing signature above all) the
/// package stays counted as removed; only a failure other than a missing file
/// is warned about.
pub proof fn lemma_signature_pairing(st: PurgeView, sig: Removal)
    requires
        !is_finished(st),
        !st.signature,
    ensures
        after(st, Removal::Removed).signature,
        after(st, Removal::Removed).index == st.index,
        after(after(st, Removal::Removed), sig).index == st.index + 1,
        after(after(st, Removal::Removed), sig).count == st.count + 1,
        after(after(st, Removal::Removed), sig).bytes == saturating_sum(
            st.bytes,
            st.plan[st.index as int].size as nat,
        ),
        warns(after(st, Removal::Removed), sig) <==> sig == Removal::Failed,
{
}

} // verus!
