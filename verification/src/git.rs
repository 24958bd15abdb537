//! The in-memory view of repository history and the branch classification
//! queries over it.
//!
//! History is a set of commits with parent links; branches are names pointing
//! at commits.  Reachability along parent links (`in_ancestry`) is the one
//! relation everything here is specified with: the classifier's queries
//! (`all`, `descendants`, `dependents`, `branch`, `protected`) each keep
//! exactly the indexed branches their query relation admits, and
//! `find_protected_base` walks toward the root for the first protected
//! branch sharing history with a head.

use vstd::prelude::*;
use vstd::assert_by_contradiction;
use crate::text::str_eq;

verus! {

broadcast use
    vstd::set::group_set_axioms,
    vstd::seq_lib::seq_to_set_is_finite,
    vstd::seq_lib::group_filter_ensures;


/// One commit: its id, the ids of its parents in order, and the snapshot
/// data carried along for display.
#[derive(Debug)]
pub struct Commit {
    pub id: u64,
    pub parent_ids: Vec<u64>,
    pub message: String,
    pub time: u64,
}

/// One local branch: a name and the commit it points at.
#[derive(Debug)]
pub struct Branch {
    pub name: String,
    pub id: u64,
}

/// Copies a branch, field for field.
pub fn branch_dup(b: &Branch) -> (r: Branch)
    ensures
        r == *b,
{
    Branch { name: b.name.clone(), id: b.id }
}

/// Copies a list of branches, element for element.
pub fn branch_vec_dup(v: &Vec<Branch>) -> (r: Vec<Branch>)
    ensures
        r@ == v@,
{
    let mut out: Vec<Branch> = Vec::new();
    let mut i: usize = 0;
    while i < v.len()
        invariant
            i <= v.len(),
            out@ == v@.take(i as int),
        decreases v.len() - i,
    {
        out.push(branch_dup(&v[i]));
        i = i + 1;
        proof {
            assert(v@.take(i as int) =~= v@.take(i - 1).push(v@[i - 1]));
        }
    }
    proof {
        assert(v@.take(v@.len() as int) =~= v@);
    }
    out
}

/// Copies a list of commit ids.
pub fn id_vec_dup(v: &Vec<u64>) -> (r: Vec<u64>)
    ensures
        r@ == v@,
{
    let mut out: Vec<u64> = Vec::new();
    let mut i: usize = 0;
    while i < v.len()
        invariant
            i <= v.len(),
            out@ == v@.take(i as int),
        decreases v.len() - i,
    {
        out.push(v[i]);
        i = i + 1;
        proof {
            assert(v@.take(i as int) =~= v@.take(i - 1).push(v@[i - 1]));
        }
    }
    proof {
        assert(v@.take(v@.len() as int) =~= v@);
    }
    out
}

/// Whether a list of ids holds `x`.
pub fn contains_id(v: &Vec<u64>, x: u64) -> (r: bool)
    ensures
        r == v@.contains(x),
{
    let mut i: usize = 0;
    while i < v.len()
        invariant
            i <= v.len(),
            forall|j: int| 0 <= j < i ==> v@[j] != x,
        decreases v.len() - i,
    {
        if v[i] == x {
            return true;
        }
        i = i + 1;
    }
    false
}

/// A deterministic, in-memory repository view: the commits of one run's
/// history and the local branch references, resolved up front so that no
/// traversal suspends on anything.
#[derive(Debug)]
pub struct InMemoryRepo {
    pub commits: Vec<Commit>,
    pub branches: Vec<Branch>,
}

impl InMemoryRepo {
    /// Commit ids are unique.
    pub open spec fn wf(self) -> bool {
        forall|i: int, j: int|
            0 <= i < j < self.commits@.len() ==> (#[trigger] self.commits@[i]).id != (
            #[trigger] self.commits@[j]).id
    }

    /// Whether a commit with this id is part of the history.
    pub open spec fn has_commit(self, id: u64) -> bool {
        exists|i: int| 0 <= i < self.commits@.len() && (#[trigger] self.commits@[i]).id == id
    }

    /// The position of the commit with this id.
    pub open spec fn commit_index(self, id: u64) -> int {
        choose|i: int| 0 <= i < self.commits@.len() && (#[trigger] self.commits@[i]).id == id
    }

    /// The parent ids of a commit; a commit outside the history has none.
    pub open spec fn parents_of(self, id: u64) -> Seq<u64> {
        if self.has_commit(id) {
            self.commits@[self.commit_index(id)].parent_ids@
        } else {
            Seq::<u64>::empty()
        }
    }

    /// An empty history.
    pub fn new() -> (r: InMemoryRepo)
        ensures
            r.commits@.len() == 0,
            r.branches@.len() == 0,
            r.wf(),
    {
        InMemoryRepo { commits: Vec::new(), branches: Vec::new() }
    }

    /// Adds one commit; its id must be new.
    pub fn add_commit(&mut self, commit: Commit)
        requires
            old(self).wf(),
            !old(self).has_commit(commit.id),
        ensures
            final(self).wf(),
            final(self).commits@ == old(self).commits@.push(commit),
            final(self).branches@ == old(self).branches@,
            forall|id: u64| final(self).has_commit(id) <==> (old(self).has_commit(id) || id
                == commit.id),
            forall|id: u64| id != commit.id ==> final(self).parents_of(id) == old(
                self,
            ).parents_of(id),
            final(self).parents_of(commit.id) == commit.parent_ids@,
    {
        self.commits.push(commit);
        proof {
            let n = self.commits@.len() - 1;
            assert forall|id: u64| self.has_commit(id) implies (old(self).has_commit(id) || id
                == commit.id) by {
                let i = choose|i: int|
                    0 <= i < self.commits@.len() && (#[trigger] self.commits@[i]).id == id;
                if i < n {
                    assert(old(self).commits@[i].id == id);
                }
            }
            assert forall|id: u64| old(self).has_commit(id) implies self.has_commit(id) by {
                let i = choose|i: int|
                    0 <= i < old(self).commits@.len() && (#[trigger] old(self).commits@[i]).id
                        == id;
                assert(self.commits@[i].id == id);
            }
            assert(self.commits@[n].id == commit.id);
            assert forall|id: u64| id != commit.id && self.has_commit(id) implies
                self.parents_of(id) == old(self).parents_of(id) by {
                let i = self.commit_index(id);
                assert(0 <= i < self.commits@.len() && self.commits@[i].id == id);
                assert(i < n);
                assert(old(self).commits@[i].id == id);
                let i0 = old(self).commit_index(id);
                assert(old(self).commits@[i0].id == id);
                assert(i0 == i);
            }
            assert(self.has_commit(commit.id));
            let ci = self.commit_index(commit.id);
            assert(0 <= ci < self.commits@.len() && self.commits@[ci].id == commit.id);
            if ci < n {
                assert(old(self).commits@[ci].id == commit.id);
                assert(false);
            }
        }
    }

    /// Adds one local branch reference.
    pub fn add_branch(&mut self, branch: Branch)
        ensures
            final(self).branches@ == old(self).branches@.push(branch),
            final(self).commits@ == old(self).commits@,
    {
        self.branches.push(branch);
    }

    /// The position of the commit with this id, if any.
    fn find_commit(&self, id: u64) -> (r: Option<usize>)
        ensures
            r matches Some(ci) ==> ci < self.commits@.len() && self.commits@[ci as int].id
                == id,
            r is None ==> !self.has_commit(id),
    {
        let mut i: usize = 0;
        while i < self.commits.len()
            invariant
                i <= self.commits@.len(),
                forall|j: int| 0 <= j < i ==> (#[trigger] self.commits@[j]).id != id,
            decreases self.commits@.len() - i,
        {
            if self.commits[i].id == id {
                return Some(i);
            }
            i = i + 1;
        }
        None
    }

    /// The parent ids of a commit; empty when the id is outside the history.
    pub fn parent_ids(&self, id: u64) -> (r: Vec<u64>)
        requires
            self.wf(),
        ensures
            r@ == self.parents_of(id),
    {
        match self.find_commit(id) {
            Some(ci) => {
                proof {
                    assert(self.has_commit(id));
                    let i0 = self.commit_index(id);
                    assert(0 <= i0 < self.commits@.len() && self.commits@[i0].id == id);
                    assert(i0 == ci);
                }
                id_vec_dup(&self.commits[ci].parent_ids)
            },
            None => Vec::new(),
        }
    }

    /// The commit with this id, if it is part of the history.
    pub fn commit(&self, id: u64) -> (r: Option<&Commit>)
        requires
            self.wf(),
        ensures
            r matches Some(c) ==> self.has_commit(id) && c.id == id && c.parent_ids@
                == self.parents_of(id),
            r is None ==> !self.has_commit(id),
    {
        match self.find_commit(id) {
            Some(ci) => {
                proof {
                    assert(self.commits@[ci as int].id == id);
                    assert(self.has_commit(id));
                    let i0 = self.commit_index(id);
                    assert(0 <= i0 < self.commits@.len() && self.commits@[i0].id == id);
                    assert(i0 == ci);
                }
                Some(&self.commits[ci])
            },
            None => None,
        }
    }

    /// The first local branch with this name, if any.
    pub fn resolve(&self, name: &str) -> (r: Option<Branch>)
        ensures
            r == first_branch_named(self.branches@, name@),
    {
        let mut i: usize = 0;
        proof {
            assert(self.branches@.skip(0) =~= self.branches@);
        }
        while i < self.branches.len()
            invariant
                i <= self.branches@.len(),
                first_branch_named(self.branches@, name@) == first_branch_named(
                    self.branches@.skip(i as int),
                    name@,
                ),
            decreases self.branches@.len() - i,
        {
            proof {
                assert(self.branches@.skip(i as int).len() > 0);
                assert(self.branches@.skip(i as int)[0] == self.branches@[i as int]);
                assert(self.branches@.skip(i as int).drop_first() =~= self.branches@.skip(
                    i + 1,
                ));
            }
            if str_eq(self.branches[i].name.as_str(), name) {
                return Some(branch_dup(&self.branches[i]));
            }
            i = i + 1;
        }
        proof {
            assert(self.branches@.skip(self.branches@.len() as int) =~= Seq::<Branch>::empty());
        }
        None
    }

    /// All local branch references.
    pub fn local_branches(&self) -> (r: Vec<Branch>)
        ensures
            r@ == self.branches@,
    {
        branch_vec_dup(&self.branches)
    }
}

/// The first branch of the list carrying this name.
pub open spec fn first_branch_named(s: Seq<Branch>, name: Seq<char>) -> Option<Branch>
    decreases s.len(),
{
    if s.len() == 0 {
        None
    } else if s[0].name@ == name {
        Some(s[0])
    } else {
        first_branch_named(s.drop_first(), name)
    }
}

/// `to` is reachable from `from` along parent links within `n` steps.
pub open spec fn ancestor_within(r: InMemoryRepo, from: u64, to: u64, n: nat) -> bool
    decreases n,
{
    from == to || (n > 0 && exists|k: int|
        0 <= k < r.parents_of(from).len() && ancestor_within(
            r,
            #[trigger] r.parents_of(from)[k],
            to,
            (n - 1) as nat,
        ))
}

/// `to` is `from` itself or one of its ancestors.
pub open spec fn in_ancestry(r: InMemoryRepo, from: u64, to: u64) -> bool {
    exists|n: nat| ancestor_within(r, from, to, n)
}

/// Every commit is in its own ancestry.
pub proof fn lemma_ancestry_refl(r: InMemoryRepo, x: u64)
    ensures
        in_ancestry(r, x, x),
{
    assert(ancestor_within(r, x, x, 0));
}

proof fn lemma_ancestry_extend_within(r: InMemoryRepo, s: u64, v: u64, p: u64, n: nat)
    requires
        ancestor_within(r, s, v, n),
        r.parents_of(v).contains(p),
    ensures
        in_ancestry(r, s, p),
    decreases n,
{
    if s == v {
        let k = choose|k: int| 0 <= k < r.parents_of(v).len() && r.parents_of(v)[k] == p;
        assert(ancestor_within(r, p, p, 0));
        assert(ancestor_within(r, s, p, 1));
    } else {
        let k = choose|k: int|
            0 <= k < r.parents_of(s).len() && ancestor_within(
                r,
                #[trigger] r.parents_of(s)[k],
                v,
                (n - 1) as nat,
            );
        lemma_ancestry_extend_within(r, r.parents_of(s)[k], v, p, (n - 1) as nat);
        let m = choose|m: nat| ancestor_within(r, r.parents_of(s)[k], p, m);
        assert(ancestor_within(r, s, p, m + 1));
    }
}

/// A parent of a commit in `s`'s ancestry is in `s`'s ancestry too.
pub proof fn lemma_ancestry_extend(r: InMemoryRepo, s: u64, v: u64, p: u64)
    requires
        in_ancestry(r, s, v),
        r.parents_of(v).contains(p),
    ensures
        in_ancestry(r, s, p),
{
    let n = choose|n: nat| ancestor_within(r, s, v, n);
    lemma_ancestry_extend_within(r, s, v, p, n);
}

proof fn lemma_closed_set_complete(r: InMemoryRepo, out: Seq<u64>, x: u64, y: u64, n: nat)
    requires
        out.contains(x),
        forall|o: u64, k: int|
            #![trigger out.contains(o), r.parents_of(o)[k]]
            out.contains(o) && 0 <= k < r.parents_of(o).len() ==> out.contains(
                r.parents_of(o)[k],
            ),
        ancestor_within(r, x, y, n),
    ensures
        out.contains(y),
    decreases n,
{
    if x != y {
        let k = choose|k: int|
            0 <= k < r.parents_of(x).len() && ancestor_within(
                r,
                #[trigger] r.parents_of(x)[k],
                y,
                (n - 1) as nat,
            );
        assert(out.contains(r.parents_of(x)[k]));
        lemma_closed_set_complete(r, out, r.parents_of(x)[k], y, (n - 1) as nat);
    }
}

/// The set of commit ids of the history, as a spec-level set.
pub open spec fn repo_id_set(r: InMemoryRepo) -> Set<u64> {
    Set::new(|id: u64| r.has_commit(id))
}

proof fn lemma_repo_id_set_finite(r: InMemoryRepo)
    ensures
        repo_id_set(r).finite(),
{
    let ids = Seq::new(r.commits@.len(), |i: int| r.commits@[i].id);
    assert(repo_id_set(r) =~= ids.to_set()) by {
        assert forall|id: u64| repo_id_set(r).contains(id) implies ids.to_set().contains(
            id,
        ) by {
            let i = choose|i: int|
                0 <= i < r.commits@.len() && (#[trigger] r.commits@[i]).id == id;
            assert(ids[i] == id);
        }
        assert forall|id: u64| ids.to_set().contains(id) implies repo_id_set(r).contains(
            id,
        ) by {
            let i = choose|i: int| 0 <= i < ids.len() && ids[i] == id;
            assert(r.commits@[i].id == id);
        }
    }
}

/// Every id in a commit's ancestry, starting from `start`: exactly the ids
/// `in_ancestry` admits, each once.
pub fn ancestors_of(repo: &InMemoryRepo, start: u64) -> (out: Vec<u64>)
    requires
        repo.wf(),
    ensures
        forall|id: u64| #[trigger] out@.contains(id) ==> in_ancestry(*repo, start, id),
        forall|id: u64| in_ancestry(*repo, start, id) ==> #[trigger] out@.contains(id),
        forall|i: int, j: int| 0 <= i < j < out@.len() ==> out@[i] != out@[j],
{
    let mut out: Vec<u64> = Vec::new();
    let mut work: Vec<u64> = Vec::new();
    work.push(start);
    proof {
        lemma_ancestry_refl(*repo, start);
        lemma_repo_id_set_finite(*repo);
        assert(work@[0] == start);
        assert(work@.contains(start));
    }
    while work.len() > 0
        invariant
            repo.wf(),
            repo_id_set(*repo).finite(),
            forall|w: u64| #[trigger] work@.contains(w) ==> in_ancestry(*repo, start, w),
            forall|o: u64| #[trigger] out@.contains(o) ==> in_ancestry(*repo, start, o),
            forall|o: u64, k: int|
                #![trigger out@.contains(o), repo.parents_of(o)[k]]
                out@.contains(o) && 0 <= k < repo.parents_of(o).len() ==> (out@.contains(
                    repo.parents_of(o)[k],
                ) || work@.contains(repo.parents_of(o)[k])),
            out@.contains(start) || work@.contains(start),
            forall|i: int, j: int| 0 <= i < j < out@.len() ==> out@[i] != out@[j],
        decreases
            repo_id_set(*repo).difference(out@.to_set()).len(),
            work@.len(),
    {
        let ghost work_prev = work@;
        let ghost out_prev = out@;
        let id = work.pop().unwrap();
        proof {
            assert(work_prev.contains(id)) by {
                assert(work_prev[work_prev.len() - 1] == id);
            }
            assert forall|w: u64| #[trigger] work@.contains(w) implies work_prev.contains(
                w,
            ) by {
                let i = choose|i: int| 0 <= i < work@.len() && work@[i] == w;
                assert(work_prev[i] == w);
            }
        }
        if !contains_id(&out, id) {
            out.push(id);
            proof {
                assert(in_ancestry(*repo, start, id));
                assert forall|o: u64| #[trigger] out@.contains(o) implies in_ancestry(
                    *repo,
                    start,
                    o,
                ) by {
                    let i = choose|i: int| 0 <= i < out@.len() && out@[i] == o;
                    if i < out_prev.len() {
                        assert(out_prev[i] == o);
                        assert(out_prev.contains(o));
                    } else {
                        assert(o == id);
                    }
                }
            }
            let mut parents = repo.parent_ids(id);
            let ghost parents_snap = parents@;
            proof {
                assert forall|k: int|
                    0 <= k < parents_snap.len() implies in_ancestry(
                    *repo,
                    start,
                    parents_snap[k],
                ) by {
                    assert(repo.parents_of(id).contains(parents_snap[k]));
                    lemma_ancestry_extend(*repo, start, id, parents_snap[k]);
                }
            }
            work.append(&mut parents);
            proof {
                assert(work@ =~= work_prev.subrange(0, work_prev.len() - 1) + parents_snap);
                // every id in the new worklist is in the start's ancestry
                assert forall|w: u64| #[trigger] work@.contains(w) implies in_ancestry(
                    *repo,
                    start,
                    w,
                ) by {
                    let i = choose|i: int| 0 <= i < work@.len() && work@[i] == w;
                    if i < work_prev.len() - 1 {
                        assert(work_prev[i] == w);
                        assert(work_prev.contains(w));
                    } else {
                        assert(0 <= i - (work_prev.len() - 1) < parents_snap.len());
                        assert(parents_snap[i - (work_prev.len() - 1)] == w);
                    }
                }
                // the discovered set stays closed under parent links
                assert forall|o: u64, k: int|
                    out@.contains(o) && 0 <= k < repo.parents_of(o).len() implies (out@.contains(
                    #[trigger] repo.parents_of(o)[k],
                ) || work@.contains(repo.parents_of(o)[k])) by {
                    let p = repo.parents_of(o)[k];
                    if o == id {
                        assert(parents_snap[k] == p);
                        assert(work@[work_prev.len() - 1 + k] == p);
                    } else {
                        assert(out_prev.contains(o)) by {
                            let i = choose|i: int| 0 <= i < out@.len() && out@[i] == o;
                            assert(i < out_prev.len());
                        }
                        if out_prev.contains(p) {
                            assert(out@.contains(p)) by {
                                let i = choose|i: int|
                                    0 <= i < out_prev.len() && out_prev[i] == p;
                                assert(out@[i] == p);
                            }
                        } else {
                            assert(work_prev.contains(p));
                            let i = choose|i: int|
                                0 <= i < work_prev.len() && work_prev[i] == p;
                            if i < work_prev.len() - 1 {
                                assert(work@[i] == p);
                            } else {
                                assert(p == id);
                                assert(out@.contains(p)) by {
                                    assert(out@[out@.len() - 1] == p);
                                }
                            }
                        }
                    }
                }
                // the loop measure falls
                assert(out@.to_set() =~= out_prev.to_set().insert(id)) by {
                    assert forall|x: u64| out@.to_set().contains(x) implies
                        out_prev.to_set().contains(x) || x == id by {
                        let i = choose|i: int| 0 <= i < out@.len() && out@[i] == x;
                        if i < out_prev.len() {
                            assert(out_prev[i] == x);
                        }
                    }
                    assert forall|x: u64| out_prev.to_set().contains(x) implies
                        out@.to_set().contains(x) by {
                        let i = choose|i: int| 0 <= i < out_prev.len() && out_prev[i] == x;
                        assert(out@[i] == x);
                    }
                    assert(out@[out@.len() - 1] == id);
                }
                if repo.has_commit(id) {
                    assert(repo_id_set(*repo).difference(out@.to_set()) =~= repo_id_set(
                        *repo,
                    ).difference(out_prev.to_set()).remove(id));
                    assert(repo_id_set(*repo).difference(out_prev.to_set()).contains(id));
                    assert(repo_id_set(*repo).difference(out_prev.to_set()).finite());
                    assert(repo_id_set(*repo).difference(out@.to_set()).len() < repo_id_set(
                        *repo,
                    ).difference(out_prev.to_set()).len());
                } else {
                    assert(repo.parents_of(id) =~= Seq::<u64>::empty());
                    assert(parents_snap.len() == 0);
                    assert(work@ =~= work_prev.drop_last());
                    assert(repo_id_set(*repo).difference(out@.to_set()) =~= repo_id_set(
                        *repo,
                    ).difference(out_prev.to_set()));
                }
                // the start commit stays discovered or pending
                if out_prev.contains(start) {
                    let i = choose|i: int| 0 <= i < out_prev.len() && out_prev[i] == start;
                    assert(out@[i] == start);
                    assert(out@.contains(start));
                } else {
                    let i = choose|i: int| 0 <= i < work_prev.len() && work_prev[i] == start;
                    if i < work_prev.len() - 1 {
                        assert(work@[i] == start);
                        assert(work@.contains(start));
                    } else {
                        assert(start == id);
                        assert(out@[out@.len() - 1] == id);
                        assert(out@.contains(start));
                    }
                }
            }
        } else {
            proof {
                assert forall|o: u64, k: int|
                    out@.contains(o) && 0 <= k < repo.parents_of(o).len() implies (out@.contains(
                    #[trigger] repo.parents_of(o)[k],
                ) || work@.contains(repo.parents_of(o)[k])) by {
                    let p = repo.parents_of(o)[k];
                    if !out@.contains(p) {
                        assert(work_prev.contains(p));
                        let i = choose|i: int| 0 <= i < work_prev.len() && work_prev[i] == p;
                        if i < work_prev.len() - 1 {
                            assert(work@[i] == p);
                        } else {
                            assert(p == id);
                        }
                    }
                }
                // the start commit stays discovered or pending
                if out_prev.contains(start) {
                    assert(out@.contains(start));
                } else {
                    let i = choose|i: int| 0 <= i < work_prev.len() && work_prev[i] == start;
                    if i < work_prev.len() - 1 {
                        assert(work@[i] == start);
                        assert(work@.contains(start));
                    } else {
                        assert(start == id);
                        assert(out@.contains(start));
                    }
                }
            }
        }
    }
    proof {
        assert(out@.contains(start));
        assert forall|id: u64| in_ancestry(*repo, start, id) implies #[trigger] out@.contains(
            id,
        ) by {
            let n = choose|n: nat| ancestor_within(*repo, start, id, n);
            assert forall|o: u64, k: int|
                #![trigger out@.contains(o), repo.parents_of(o)[k]]
                out@.contains(o) && 0 <= k < repo.parents_of(o).len() implies out@.contains(
                repo.parents_of(o)[k],
            ) by {
                assert(!work@.contains(repo.parents_of(o)[k]));
            }
            lemma_closed_set_complete(*repo, out@, start, id, n);
        }
    }
    out
}

/// Whether two lists share an element.
fn any_common(a: &Vec<u64>, b: &Vec<u64>) -> (r: bool)
    ensures
        r == exists|c: u64| a@.contains(c) && b@.contains(c),
{
    let mut i: usize = 0;
    while i < a.len()
        invariant
            i <= a.len(),
            forall|j: int| 0 <= j < i ==> !b@.contains(#[trigger] a@[j]),
        decreases a.len() - i,
    {
        if contains_id(b, a[i]) {
            proof {
                assert(a@.contains(a@[i as int]));
            }
            return true;
        }
        i = i + 1;
    }
    proof {
        assert_by_contradiction!(!(exists|c: u64| a@.contains(c) && b@.contains(c)), {
            let c = choose|c: u64| a@.contains(c) && b@.contains(c);
            let j = choose|j: int| 0 <= j < a@.len() && a@[j] == c;
            assert(!b@.contains(a@[j]));
        });
    }
    false
}

/// The branch classifier predicate: `id` is `base` itself or a descendant.
pub open spec fn is_descendant_id(r: InMemoryRepo, base: u64, id: u64) -> bool {
    in_ancestry(r, id, base)
}

/// The branch classifier predicate: `id` descends from `base` and lies on a
/// line comparable with `head` — at or below it, or continuing beyond it.
pub open spec fn is_dependent_id(r: InMemoryRepo, base: u64, head: u64, id: u64) -> bool {
    in_ancestry(r, id, base) && (in_ancestry(r, head, id) || in_ancestry(r, id, head))
}

/// The branch classifier predicate: `id` lies on the direct path from `base`
/// to `head`, both inclusive.
pub open spec fn is_stack_id(r: InMemoryRepo, base: u64, head: u64, id: u64) -> bool {
    in_ancestry(r, id, base) && in_ancestry(r, head, id)
}

/// Each query narrows the one before it: the base-to-head window only holds
/// dependents, and dependents only hold descendants, whatever the history.
pub proof fn lemma_classification_narrowing(r: InMemoryRepo, base: u64, head: u64, id: u64)
    ensures
        is_stack_id(r, base, head, id) ==> is_dependent_id(r, base, head, id),
        is_dependent_id(r, base, head, id) ==> is_descendant_id(r, base, id),
{
}

/// The same narrowing over whole query results: given three answers that
/// keep exactly what their query relations admit of one index, every commit
/// the window keeps the dependents keep, and every commit the dependents
/// keep the descendants keep.
pub proof fn lemma_query_results_narrow(
    r: InMemoryRepo,
    index: Branches,
    base: u64,
    head: u64,
    descendants: Branches,
    dependents: Branches,
    window: Branches,
    id: u64,
)
    requires
        forall|x: u64|
            #[trigger] descendants.contains_key(x) <==> (index.contains_key(x)
                && is_descendant_id(r, base, x)),
        forall|x: u64|
            #[trigger] dependents.contains_key(x) <==> (index.contains_key(x)
                && is_dependent_id(r, base, head, x)),
        forall|x: u64|
            #[trigger] window.contains_key(x) <==> (index.contains_key(x) && is_stack_id(
                r,
                base,
                head,
                x,
            )),
    ensures
        window.contains_key(id) ==> dependents.contains_key(id),
        dependents.contains_key(id) ==> descendants.contains_key(id),
{
}

/// Keeps the branches whose commit id is this one.
pub open spec fn with_id(id: u64) -> spec_fn(Branch) -> bool {
    |b: Branch| b.id == id
}

/// Whether some branch of the list points at this commit.
pub open spec fn has_branch_with_id(s: Seq<Branch>, id: u64) -> bool {
    exists|i: int| 0 <= i < s.len() && (#[trigger] s[i]).id == id
}

/// The position of the first branch of the list pointing at this commit.
pub open spec fn first_pos_with_id(s: Seq<Branch>, id: u64) -> int
    decreases s.len(),
{
    if s.len() == 0 {
        0
    } else if s[0].id == id {
        0
    } else {
        1 + first_pos_with_id(s.drop_first(), id)
    }
}

/// A position whose branch carries the id, with none earlier, is the first.
proof fn lemma_first_pos(s: Seq<Branch>, id: u64, p: int)
    requires
        0 <= p < s.len(),
        s[p].id == id,
        forall|j: int| 0 <= j < p ==> (#[trigger] s[j]).id != id,
    ensures
        first_pos_with_id(s, id) == p,
    decreases p,
{
    if p > 0 {
        assert(s[0].id != id);
        assert(s.drop_first()[p - 1] == s[p]);
        assert forall|j: int| 0 <= j < p - 1 implies (#[trigger] s.drop_first()[j]).id
            != id by {
            assert(s.drop_first()[j] == s[j + 1]);
        }
        lemma_first_pos(s.drop_first(), id, p - 1);
    }
}

proof fn lemma_filter_push<A>(s: Seq<A>, x: A, pred: spec_fn(A) -> bool)
    ensures
        pred(x) ==> s.push(x).filter(pred) == s.filter(pred).push(x),
        !pred(x) ==> s.push(x).filter(pred) == s.filter(pred),
{
    reveal(Seq::filter);
    assert(s.push(x).drop_last() =~= s);
    assert(s.push(x).last() == x);
}

/// The index of local branches, keyed by commit id: each indexed commit maps
/// to the branches pointing at it, grouped once at construction and then
/// handed out by the classification queries or claimed by graph building.
#[derive(Debug)]
pub struct Branches {
    pub entries: Vec<(u64, Vec<Branch>)>,
}

impl Branches {
    /// How many distinct commits are indexed.
    pub open spec fn entry_count(self) -> nat {
        self.entries@.len()
    }

    /// The commit id of the entry at this position.
    pub open spec fn key_at(self, i: int) -> u64 {
        self.entries@[i].0
    }

    /// The branches of the entry at this position.
    pub open spec fn group_at(self, i: int) -> Seq<Branch> {
        self.entries@[i].1@
    }

    /// Whether some entry is keyed by this commit id.
    pub open spec fn contains_key(self, id: u64) -> bool {
        exists|i: int| 0 <= i < self.entry_count() && self.key_at(i) == id
    }

    /// The position of the entry keyed by this commit id.
    pub open spec fn key_index(self, id: u64) -> int {
        choose|i: int| 0 <= i < self.entry_count() && self.key_at(i) == id
    }

    /// The branches indexed at this commit id; none when it is not indexed.
    pub open spec fn branches_at(self, id: u64) -> Seq<Branch> {
        if self.contains_key(id) {
            self.group_at(self.key_index(id))
        } else {
            Seq::<Branch>::empty()
        }
    }

    /// Keys are unique, groups are never empty, and every branch sits under
    /// the id it points at.
    pub open spec fn wf(self) -> bool {
        &&& forall|i: int, j: int|
            0 <= i < j < self.entry_count() ==> #[trigger] self.key_at(i) != #[trigger] self.key_at(j)
        &&& forall|i: int| 0 <= i < self.entry_count() ==> (#[trigger] self.group_at(i)).len() > 0
        &&& forall|i: int, k: int|
            0 <= i < self.entry_count() && 0 <= k < self.group_at(i).len() ==> (
            #[trigger] self.group_at(i)[k]).id == self.key_at(i)
    }

    /// How many distinct commits are indexed.
    pub fn len(&self) -> (n: usize)
        ensures
            n == self.entry_count(),
    {
        self.entries.len()
    }

    /// The commit id of the entry at this position.
    pub fn entry_key(&self, i: usize) -> (r: u64)
        requires
            i < self.entry_count(),
        ensures
            r == self.key_at(i as int),
    {
        self.entries[i].0
    }

    /// The branches of the entry at this position, copied out.
    pub fn entry_branches(&self, i: usize) -> (r: Vec<Branch>)
        requires
            i < self.entry_count(),
        ensures
            r@ == self.group_at(i as int),
    {
        branch_vec_dup(&self.entries[i].1)
    }

    /// Groups a list of local branches by the commit they point at; entries
    /// appear in order of each commit's first branch, and every group keeps
    /// the list's order.
    pub fn new(branches: Vec<Branch>) -> (r: Branches)
        ensures
            r.wf(),
            forall|id: u64| r.contains_key(id) <==> has_branch_with_id(branches@, id),
            forall|id: u64|
                #[trigger] r.contains_key(id) ==> r.branches_at(id) == branches@.filter(
                    with_id(id),
                ),
            forall|a: int, b: int|
                0 <= a < b < r.entry_count() ==> first_pos_with_id(
                    branches@,
                    #[trigger] r.key_at(a),
                ) < first_pos_with_id(branches@, #[trigger] r.key_at(b)),
    {
        let mut entries: Vec<(u64, Vec<Branch>)> = Vec::new();
        let ghost mut occ: Seq<int> = Seq::empty();
        let mut i: usize = 0;
        while i < branches.len()
            invariant
                i <= branches@.len(),
                forall|a: int, b: int|
                    0 <= a < b < entries@.len() ==> (#[trigger] entries@[a]).0 != (
                    #[trigger] entries@[b]).0,
                forall|k: int|
                    0 <= k < entries@.len() ==> has_branch_with_id(
                        branches@.take(i as int),
                        (#[trigger] entries@[k]).0,
                    ),
                forall|id: u64|
                    has_branch_with_id(branches@.take(i as int), id) ==> exists|k: int|
                        0 <= k < entries@.len() && (#[trigger] entries@[k]).0 == id,
                forall|k: int|
                    0 <= k < entries@.len() ==> (#[trigger] entries@[k]).1@ == branches@.filter(
                        with_id(entries@[k].0),
                    ),
                occ.len() == entries@.len(),
                forall|k: int| 0 <= k < occ.len() ==> 0 <= #[trigger] occ[k] < i,
                forall|k: int|
                    0 <= k < occ.len() ==> (#[trigger] entries@[k]).0 == branches@[occ[k]].id,
                forall|k1: int, k2: int|
                    0 <= k1 < k2 < occ.len() ==> #[trigger] occ[k1] < #[trigger] occ[k2],
                forall|k: int, j: int|
                    0 <= k < occ.len() && 0 <= j < occ[k] ==> (#[trigger] branches@[j]).id != (
                    #[trigger] entries@[k]).0,
            decreases branches@.len() - i,
        {
            let ghost entries0 = entries@;
            let id = branches[i].id;
            let mut found: Option<usize> = None;
            let mut k: usize = 0;
            while k < entries.len()
                invariant
                    k <= entries@.len(),
                    found matches Some(a) ==> a < entries@.len() && (#[trigger] entries@[
                        a as int]).0 == id,
                    found is None ==> forall|a: int|
                        0 <= a < k ==> (#[trigger] entries@[a]).0 != id,
                decreases entries@.len() - k,
            {
                if entries[k].0 == id {
                    found = Some(k);
                }
                k = k + 1;
            }
            let seen = found.is_some();
            if !seen {
                let mut grp: Vec<Branch> = Vec::new();
                let mut j: usize = 0;
                proof {
                    reveal(Seq::filter);
                    assert(branches@.take(0).filter(with_id(id)) =~= Seq::<Branch>::empty());
                }
                while j < branches.len()
                    invariant
                        j <= branches@.len(),
                        grp@ == branches@.take(j as int).filter(with_id(id)),
                    decreases branches@.len() - j,
                {
                    proof {
                        assert(branches@.take(j + 1) =~= branches@.take(j as int).push(
                            branches@[j as int],
                        ));
                        assert(with_id(id)(branches@[j as int]) == (branches@[j as int].id
                            == id));
                        lemma_filter_push(branches@.take(j as int), branches@[j as int], with_id(id));
                    }
                    if branches[j].id == id {
                        grp.push(branch_dup(&branches[j]));
                    }
                    j = j + 1;
                }
                proof {
                    assert(branches@.take(branches@.len() as int) =~= branches@);
                    assert(branches@[i as int].id == id);
                    assert(branches@.take(i + 1)[i as int] == branches@[i as int]);
                }
                entries.push((id, grp));
                proof {
                    assert forall|j: int| 0 <= j < i implies (#[trigger] branches@[j]).id
                        != id by {
                        if branches@[j].id == id {
                            assert(branches@.take(i as int)[j] == branches@[j]);
                            assert(has_branch_with_id(branches@.take(i as int), id));
                            let k0 = choose|k2: int|
                                0 <= k2 < entries0.len() && (entries0[k2]).0 == id;
                            assert((entries0[k0]).0 != id);
                        }
                    }
                    occ = occ.push(i as int);
                    assert(occ[occ.len() - 1] == i as int);
                }
            }
            proof {
                match found {
                    Some(a) => {
                        assert((#[trigger] entries@[a as int]).0 == id);
                    },
                    None => {
                        assert((#[trigger] entries@[entries@.len() - 1]).0 == id);
                    },
                }
                let ghost prev = branches@.take(i as int);
                assert(branches@.take(i + 1).drop_last() =~= prev);
                assert(branches@.take(i + 1).last() == branches@[i as int]);
                assert forall|x: u64|
                    #[trigger] has_branch_with_id(branches@.take(i + 1), x) implies exists|k2: int|
                    0 <= k2 < entries@.len() && (#[trigger] entries@[k2]).0 == x by {
                    let a = choose|a: int|
                        0 <= a < branches@.take(i + 1).len() && (#[trigger] branches@.take(
                            i + 1,
                        )[a]).id == x;
                    if a < i {
                        assert(prev[a].id == x);
                        assert(has_branch_with_id(prev, x));
                        let k0 = choose|k2: int|
                            0 <= k2 < entries0.len() && (entries0[k2]).0 == x;
                        assert(0 <= k0 < entries@.len());
                        assert((entries@[k0]).0 == x);
                    } else {
                        assert(x == id);
                    }
                }
                assert forall|k2: int|
                    0 <= k2 < entries@.len() implies has_branch_with_id(
                    branches@.take(i + 1),
                    (#[trigger] entries@[k2]).0,
                ) by {
                    assert(has_branch_with_id(prev, entries@[k2].0) || entries@[k2].0 == id);
                    if has_branch_with_id(prev, entries@[k2].0) {
                        let a = choose|a: int|
                            0 <= a < prev.len() && (#[trigger] prev[a]).id == entries@[k2].0;
                        assert(branches@.take(i + 1)[a].id == entries@[k2].0);
                    } else {
                        assert(branches@.take(i + 1)[i as int].id == id);
                    }
                }
            }
            i = i + 1;
        }
        proof {
            assert(branches@.take(branches@.len() as int) =~= branches@);
        }
        let ghost es = entries@;
        let r = Branches { entries };
        proof {
            assert(r.entries@ == es);
            assert forall|id: u64| #[trigger] r.contains_key(id) implies has_branch_with_id(
                branches@,
                id,
            ) by {
                let a = r.key_index(id);
                assert(0 <= a < r.entry_count() && r.key_at(a) == id);
                assert((es[a]).0 == id);
                assert(has_branch_with_id(branches@.take(branches@.len() as int), (es[a]).0));
            }
            assert forall|id: u64| has_branch_with_id(branches@, id) implies
                #[trigger] r.contains_key(id) by {
                assert(has_branch_with_id(branches@.take(branches@.len() as int), id));
                let k0 = choose|k2: int| 0 <= k2 < es.len() && (es[k2]).0 == id;
                assert(r.key_at(k0) == id);
                assert(0 <= k0 < r.entry_count());
            }
            assert forall|id: u64| #[trigger] r.contains_key(id) implies r.branches_at(id)
                == branches@.filter(with_id(id)) by {
                let i0 = r.key_index(id);
                assert(0 <= i0 < r.entry_count() && r.key_at(i0) == id);
            }
            assert forall|i0: int| 0 <= i0 < r.entry_count() implies (
            #[trigger] r.group_at(i0)).len() > 0 by {
                let id = r.key_at(i0);
                assert(r.contains_key(id));
                assert(has_branch_with_id(branches@, id));
                let a = choose|a: int|
                    0 <= a < branches@.len() && (#[trigger] branches@[a]).id == id;
                assert(with_id(id)(branches@[a]));
                assert(branches@.filter(with_id(id)).contains(branches@[a]));
            }
            assert forall|i0: int, k: int|
                0 <= i0 < r.entry_count() && 0 <= k < r.group_at(i0).len() implies (
            #[trigger] r.group_at(i0)[k]).id == r.key_at(i0) by {
                assert(r.group_at(i0) == branches@.filter(with_id(r.key_at(i0))));
                assert(with_id(r.key_at(i0))(r.group_at(i0)[k]));
            }
            assert forall|a: int, b: int|
                0 <= a < b < r.entry_count() implies first_pos_with_id(
                branches@,
                #[trigger] r.key_at(a),
            ) < first_pos_with_id(branches@, #[trigger] r.key_at(b)) by {
                assert(r.key_at(a) == (es[a]).0);
                assert(r.key_at(b) == (es[b]).0);
                assert(r.key_at(a) == branches@[occ[a]].id);
                assert(r.key_at(b) == branches@[occ[b]].id);
                assert forall|j: int| 0 <= j < occ[a] implies (#[trigger] branches@[j]).id
                    != r.key_at(a) by {
                    assert((es[a]).0 != branches@[j].id);
                }
                assert forall|j: int| 0 <= j < occ[b] implies (#[trigger] branches@[j]).id
                    != r.key_at(b) by {
                    assert((es[b]).0 != branches@[j].id);
                }
                lemma_first_pos(branches@, r.key_at(a), occ[a]);
                lemma_first_pos(branches@, r.key_at(b), occ[b]);
                assert(occ[a] < occ[b]);
            }
        }
        r
    }

    /// Every indexed branch, grouped by commit: a copy of the whole index.
    pub fn all(&self) -> (r: Branches)
        requires
            self.wf(),
        ensures
            r.wf(),
            r.entry_count() == self.entry_count(),
            forall|i: int| 0 <= i < self.entry_count() ==> #[trigger] r.key_at(i) == self.key_at(i),
            forall|i: int|
                0 <= i < self.entry_count() ==> #[trigger] r.group_at(i) == self.group_at(i),
            forall|id: u64| r.contains_key(id) == self.contains_key(id),
            forall|id: u64| #[trigger] r.branches_at(id) == self.branches_at(id),
    {
        let mut entries: Vec<(u64, Vec<Branch>)> = Vec::new();
        let mut i: usize = 0;
        while i < self.entries.len()
            invariant
                i <= self.entries@.len(),
                entries@.len() == i,
                forall|k: int|
                    0 <= k < i ==> (#[trigger] entries@[k]).0 == self.entries@[k].0
                        && entries@[k].1@ == self.entries@[k].1@,
            decreases self.entries@.len() - i,
        {
            entries.push((self.entries[i].0, branch_vec_dup(&self.entries[i].1)));
            i = i + 1;
        }
        let r = Branches { entries };
        proof {
            lemma_same_entries(r, *self);
        }
        r
    }

    /// Detaches and returns the branches indexed at this commit; a second
    /// call for the same id finds nothing.
    pub fn remove(&mut self, id: u64) -> (r: Option<Vec<Branch>>)
        requires
            old(self).wf(),
        ensures
            final(self).wf(),
            old(self).contains_key(id) ==> (r matches Some(v) && v@ == old(self).branches_at(id)),
            !old(self).contains_key(id) ==> r is None && *final(self) == *old(self),
            forall|x: u64|
                #[trigger] final(self).contains_key(x) <==> (old(self).contains_key(x) && x != id),
            forall|x: u64|
                x != id ==> #[trigger] final(self).branches_at(x) == old(self).branches_at(x),
    {
        let mut j: usize = 0;
        while j < self.entries.len()
            invariant
                j <= self.entries@.len(),
                forall|a: int| 0 <= a < j ==> (#[trigger] self.entries@[a]).0 != id,
                *self == *old(self),
                old(self).wf(),
            decreases self.entries@.len() - j,
        {
            if self.entries[j].0 == id {
                let ghost prev = *self;
                let e = self.entries.remove(j);
                proof {
                    lemma_remove_entry(prev, *self, j as int, id);
                }
                return Some(e.1);
            }
            j = j + 1;
        }
        proof {
            assert(!self.contains_key(id));
        }
        None
    }
}

/// Removing the entry at `j` takes exactly its key out of the index and
/// leaves every other entry in place.
proof fn lemma_remove_entry(prev: Branches, cur: Branches, j: int, id: u64)
    requires
        prev.wf(),
        0 <= j < prev.entry_count(),
        prev.key_at(j) == id,
        cur.entries@ == prev.entries@.remove(j),
    ensures
        cur.wf(),
        prev.contains_key(id),
        prev.key_index(id) == j,
        prev.branches_at(id) == prev.group_at(j),
        forall|x: u64| #[trigger] cur.contains_key(x) <==> (prev.contains_key(x) && x != id),
        forall|x: u64| x != id ==> #[trigger] cur.branches_at(x) == prev.branches_at(x),
{
    lemma_key_unique(prev, j, id);
    assert(cur.entry_count() == prev.entry_count() - 1);
    assert forall|a: int| 0 <= a < cur.entry_count() implies #[trigger] cur.entries@[a] == (
    if a < j {
        prev.entries@[a]
    } else {
        prev.entries@[a + 1]
    }) by {
        assert(prev.entries@.remove(j)[a] == if a < j {
            prev.entries@[a]
        } else {
            prev.entries@[a + 1]
        });
    }
    assert forall|a: int, b: int| 0 <= a < b < cur.entry_count() implies #[trigger] cur.key_at(a)
        != #[trigger] cur.key_at(b) by {
        let pa = if a < j { a } else { a + 1 };
        let pb = if b < j { b } else { b + 1 };
        assert(cur.key_at(a) == prev.key_at(pa));
        assert(cur.key_at(b) == prev.key_at(pb));
        assert(0 <= pa < pb < prev.entry_count());
    }
    assert forall|a: int| 0 <= a < cur.entry_count() implies (#[trigger] cur.group_at(a)).len()
        > 0 by {
        let pa = if a < j { a } else { a + 1 };
        assert(cur.group_at(a) == prev.group_at(pa));
    }
    assert forall|a: int, k: int|
        0 <= a < cur.entry_count() && 0 <= k < cur.group_at(a).len() implies (
    #[trigger] cur.group_at(a)[k]).id == cur.key_at(a) by {
        let pa = if a < j { a } else { a + 1 };
        assert(cur.group_at(a) == prev.group_at(pa));
        assert(cur.key_at(a) == prev.key_at(pa));
        assert(prev.group_at(pa)[k].id == prev.key_at(pa));
    }
    assert forall|x: u64| #[trigger] cur.contains_key(x) implies (prev.contains_key(x) && x
        != id) by {
        let a = choose|a: int| 0 <= a < cur.entry_count() && cur.key_at(a) == x;
        let pa = if a < j { a } else { a + 1 };
        assert(prev.key_at(pa) == x);
        assert(prev.contains_key(x));
        if x == id {
            lemma_key_unique(prev, pa, x);
        }
    }
    assert forall|x: u64| prev.contains_key(x) && x != id implies #[trigger] cur.contains_key(
        x,
    ) by {
        let pa = prev.key_index(x);
        assert(0 <= pa < prev.entry_count() && prev.key_at(pa) == x);
        assert(pa != j);
        if pa < j {
            assert(cur.key_at(pa) == x);
        } else {
            assert(cur.key_at(pa - 1) == x);
        }
    }
    assert forall|x: u64| x != id && prev.contains_key(x) implies #[trigger] cur.branches_at(x)
        == prev.branches_at(x) by {
        let pa = prev.key_index(x);
        assert(0 <= pa < prev.entry_count() && prev.key_at(pa) == x);
        assert(pa != j);
        if pa < j {
            assert(cur.key_at(pa) == x);
            lemma_key_unique(cur, pa, x);
        } else {
            assert(cur.key_at(pa - 1) == x);
            lemma_key_unique(cur, pa - 1, x);
        }
    }
}

impl Branches {
    /// Keeps the entries whose position is flagged, in order.
    #[verifier::rlimit(50)]
    fn filter_keys(&self, keep: &Vec<bool>) -> (r: Branches)
        requires
            self.wf(),
            keep@.len() == self.entry_count(),
        ensures
            r.wf(),
            forall|x: u64|
                #[trigger] r.contains_key(x) <==> (self.contains_key(x) && keep@[self.key_index(
                    x,
                )]),
            forall|x: u64|
                #[trigger] r.contains_key(x) ==> r.branches_at(x) == self.branches_at(x),
            forall|a: int, b: int|
                0 <= a < b < r.entry_count() ==> self.key_index(#[trigger] r.key_at(a))
                    < self.key_index(#[trigger] r.key_at(b)),
    {
        let mut entries: Vec<(u64, Vec<Branch>)> = Vec::new();
        // `pos[k]` is the source position of the kept entry `k`; `idx[a]` is
        // the position in the result of the kept source entry `a`, or -1.
        let ghost mut pos: Seq<int> = Seq::empty();
        let ghost mut idx: Seq<int> = Seq::empty();
        let mut i: usize = 0;
        while i < self.entries.len()
            invariant
                self.wf(),
                keep@.len() == self.entry_count(),
                i <= self.entry_count(),
                pos.len() == entries@.len(),
                idx.len() == i,
                forall|k: int| 0 <= k < pos.len() ==> 0 <= #[trigger] pos[k] < i,
                forall|k: int| 0 <= k < pos.len() ==> keep@[#[trigger] pos[k]],
                forall|k: int|
                    0 <= k < pos.len() ==> (#[trigger] entries@[k]).0 == self.key_at(pos[k]),
                forall|k: int|
                    0 <= k < pos.len() ==> (#[trigger] entries@[k]).1@ == self.group_at(pos[k]),
                forall|k1: int, k2: int|
                    0 <= k1 < k2 < pos.len() ==> #[trigger] pos[k1] < #[trigger] pos[k2],
                forall|a: int| 0 <= a < i && keep@[a] ==> 0 <= #[trigger] idx[a] < entries@.len(),
                forall|a: int|
                    0 <= a < i && keep@[a] ==> (entries@[#[trigger] idx[a]]).0 == self.key_at(a),
            decreases self.entry_count() - i,
        {
            let ghost entries0 = entries@;
            let ghost i0 = i as int;
            if keep[i] {
                let key = self.entries[i].0;
                let grp = branch_vec_dup(&self.entries[i].1);
                entries.push((key, grp));
                proof {
                    idx = idx.push(pos.len() as int);
                    pos = pos.push(i0);
                    assert((entries@[entries@.len() - 1]).0 == self.key_at(i0));
                    assert((entries@[entries@.len() - 1]).1@ == self.group_at(i0));
                }
            } else {
                proof {
                    idx = idx.push(-1);
                }
            }
            i = i + 1;
        }
        let ghost es = entries@;
        let r = Branches { entries };
        proof {
            assert(r.entries@ == es);
            assert forall|a: int, b: int|
                0 <= a < b < r.entry_count() implies #[trigger] r.key_at(a)
                != #[trigger] r.key_at(b) by {
                assert(pos[a] < pos[b]);
                assert(r.key_at(a) == self.key_at(pos[a]));
                assert(r.key_at(b) == self.key_at(pos[b]));
            }
            assert forall|a: int| 0 <= a < r.entry_count() implies (#[trigger] r.group_at(
                a,
            )).len() > 0 by {
                assert(r.group_at(a) == self.group_at(pos[a]));
            }
            assert forall|a: int, k: int|
                0 <= a < r.entry_count() && 0 <= k < r.group_at(a).len() implies (
            #[trigger] r.group_at(a)[k]).id == r.key_at(a) by {
                assert(r.group_at(a) == self.group_at(pos[a]));
                assert(r.key_at(a) == self.key_at(pos[a]));
                assert(self.group_at(pos[a])[k].id == self.key_at(pos[a]));
            }
            assert forall|x: u64| #[trigger] r.contains_key(x) implies (self.contains_key(x)
                && keep@[self.key_index(x)] && r.branches_at(x) == self.branches_at(x)) by {
                let a = r.key_index(x);
                assert(0 <= a < r.entry_count() && r.key_at(a) == x);
                let p = pos[a];
                assert(self.key_at(p) == x && keep@[p]);
                lemma_key_unique(*self, p, x);
                lemma_key_unique(r, a, x);
                assert(r.branches_at(x) == r.group_at(a));
                assert(self.branches_at(x) == self.group_at(p));
                assert(r.group_at(a) == self.group_at(p));
            }
            assert forall|x: u64| self.contains_key(x) && keep@[self.key_index(x)] implies
                #[trigger] r.contains_key(x) by {
                let p = self.key_index(x);
                assert(0 <= p < self.entry_count() && self.key_at(p) == x);
                assert(0 <= idx[p] < es.len() && (es[idx[p]]).0 == self.key_at(p));
                assert(r.key_at(idx[p]) == x);
            }
            assert forall|a: int, b: int|
                0 <= a < b < r.entry_count() implies self.key_index(#[trigger] r.key_at(a))
                < self.key_index(#[trigger] r.key_at(b)) by {
                assert(pos[a] < pos[b]);
                assert(r.key_at(a) == self.key_at(pos[a]));
                assert(r.key_at(b) == self.key_at(pos[b]));
                lemma_key_unique(*self, pos[a], r.key_at(a));
                lemma_key_unique(*self, pos[b], r.key_at(b));
            }
        }
        r
    }
}

impl Branches {
    /// The branches of `base_id` itself and of every commit that descends
    /// from it, through any child.
    pub fn descendants(&self, repo: &InMemoryRepo, base_id: u64) -> (r: Branches)
        requires
            self.wf(),
            repo.wf(),
            repo.has_commit(base_id),
        ensures
            r.wf(),
            forall|id: u64|
                #[trigger] r.contains_key(id) <==> (self.contains_key(id) && is_descendant_id(
                    *repo,
                    base_id,
                    id,
                )),
            forall|id: u64|
                #[trigger] r.contains_key(id) ==> r.branches_at(id) == self.branches_at(id),
            forall|a: int, b: int|
                0 <= a < b < r.entry_count() ==> self.key_index(#[trigger] r.key_at(a))
                    < self.key_index(#[trigger] r.key_at(b)),
    {
        let mut keep: Vec<bool> = Vec::new();
        let mut i: usize = 0;
        while i < self.entries.len()
            invariant
                self.wf(),
                repo.wf(),
                i <= self.entry_count(),
                keep@.len() == i,
                forall|a: int|
                    0 <= a < i ==> #[trigger] keep@[a] == is_descendant_id(
                        *repo,
                        base_id,
                        self.key_at(a),
                    ),
            decreases self.entry_count() - i,
        {
            let key = self.entries[i].0;
            let anc = ancestors_of(repo, key);
            let f = contains_id(&anc, base_id);
            proof {
                assert(f == is_descendant_id(*repo, base_id, key));
            }
            keep.push(f);
            i = i + 1;
        }
        let r = self.filter_keys(&keep);
        proof {
            lemma_query_bridge(*self, r, keep@, |id: u64| is_descendant_id(*repo, base_id, id));
        }
        r
    }

    /// The branches of the commits that descend from `base_id` and lie on a
    /// line comparable with `head_id`: at or below the head, or continuing
    /// beyond it — never on a sibling line that left `base_id` elsewhere.
    pub fn dependents(&self, repo: &InMemoryRepo, base_id: u64, head_id: u64) -> (r: Branches)
        requires
            self.wf(),
            repo.wf(),
            repo.has_commit(base_id),
            repo.has_commit(head_id),
        ensures
            r.wf(),
            forall|id: u64|
                #[trigger] r.contains_key(id) <==> (self.contains_key(id) && is_dependent_id(
                    *repo,
                    base_id,
                    head_id,
                    id,
                )),
            forall|id: u64|
                #[trigger] r.contains_key(id) ==> r.branches_at(id) == self.branches_at(id),
            forall|a: int, b: int|
                0 <= a < b < r.entry_count() ==> self.key_index(#[trigger] r.key_at(a))
                    < self.key_index(#[trigger] r.key_at(b)),
    {
        let head_anc = ancestors_of(repo, head_id);
        let mut keep: Vec<bool> = Vec::new();
        let mut i: usize = 0;
        while i < self.entries.len()
            invariant
                self.wf(),
                repo.wf(),
                i <= self.entry_count(),
                keep@.len() == i,
                forall|id: u64| #[trigger] head_anc@.contains(id) ==> in_ancestry(*repo, head_id, id),
                forall|id: u64| in_ancestry(*repo, head_id, id) ==> #[trigger] head_anc@.contains(id),
                forall|a: int|
                    0 <= a < i ==> #[trigger] keep@[a] == is_dependent_id(
                        *repo,
                        base_id,
                        head_id,
                        self.key_at(a),
                    ),
            decreases self.entry_count() - i,
        {
            let key = self.entries[i].0;
            let anc = ancestors_of(repo, key);
            let f = contains_id(&anc, base_id) && (contains_id(&head_anc, key) || contains_id(
                &anc,
                head_id,
            ));
            proof {
                assert(f == is_dependent_id(*repo, base_id, head_id, key));
            }
            keep.push(f);
            i = i + 1;
        }
        let r = self.filter_keys(&keep);
        proof {
            lemma_query_bridge(
                *self,
                r,
                keep@,
                |id: u64| is_dependent_id(*repo, base_id, head_id, id),
            );
        }
        r
    }

    /// The branches on the direct path from `base_id` to `head_id`, both
    /// inclusive: the one stack segment, without further segments beyond the
    /// head and without sibling stacks.
    pub fn branch(&self, repo: &InMemoryRepo, base_id: u64, head_id: u64) -> (r: Branches)
        requires
            self.wf(),
            repo.wf(),
            repo.has_commit(base_id),
            repo.has_commit(head_id),
        ensures
            r.wf(),
            forall|id: u64|
                #[trigger] r.contains_key(id) <==> (self.contains_key(id) && is_stack_id(
                    *repo,
                    base_id,
                    head_id,
                    id,
                )),
            forall|id: u64|
                #[trigger] r.contains_key(id) ==> r.branches_at(id) == self.branches_at(id),
            forall|a: int, b: int|
                0 <= a < b < r.entry_count() ==> self.key_index(#[trigger] r.key_at(a))
                    < self.key_index(#[trigger] r.key_at(b)),
    {
        let head_anc = ancestors_of(repo, head_id);
        let mut keep: Vec<bool> = Vec::new();
        let mut i: usize = 0;
        while i < self.entries.len()
            invariant
                self.wf(),
                repo.wf(),
                i <= self.entry_count(),
                keep@.len() == i,
                forall|id: u64| #[trigger] head_anc@.contains(id) ==> in_ancestry(*repo, head_id, id),
                forall|id: u64| in_ancestry(*repo, head_id, id) ==> #[trigger] head_anc@.contains(id),
                forall|a: int|
                    0 <= a < i ==> #[trigger] keep@[a] == is_stack_id(
                        *repo,
                        base_id,
                        head_id,
                        self.key_at(a),
                    ),
            decreases self.entry_count() - i,
        {
            let key = self.entries[i].0;
            let anc = ancestors_of(repo, key);
            let f = contains_id(&anc, base_id) && contains_id(&head_anc, key);
            proof {
                assert(f == is_stack_id(*repo, base_id, head_id, key));
            }
            keep.push(f);
            i = i + 1;
        }
        let r = self.filter_keys(&keep);
        proof {
            lemma_query_bridge(
                *self,
                r,
                keep@,
                |id: u64| is_stack_id(*repo, base_id, head_id, id),
            );
        }
        r
    }
}

/// Restates a key filter's outcome through the predicate its flags encode.
proof fn lemma_query_bridge(src: Branches, r: Branches, keep: Seq<bool>, pred: spec_fn(u64) -> bool)
    requires
        src.wf(),
        keep.len() == src.entry_count(),
        forall|a: int| 0 <= a < src.entry_count() ==> #[trigger] keep[a] == pred(src.key_at(a)),
        forall|x: u64|
            #[trigger] r.contains_key(x) <==> (src.contains_key(x) && keep[src.key_index(x)]),
    ensures
        forall|x: u64| #[trigger] r.contains_key(x) <==> (src.contains_key(x) && pred(x)),
{
    assert forall|x: u64| #[trigger] r.contains_key(x) <==> (src.contains_key(x) && pred(
        x,
    )) by {
        if src.contains_key(x) {
            let p = src.key_index(x);
            assert(0 <= p < src.entry_count() && src.key_at(p) == x);
            assert(keep[p] == pred(x));
        }
    }
}

/// A key sits at exactly one position of a well-formed index.
proof fn lemma_key_unique(b: Branches, i: int, id: u64)
    requires
        b.wf(),
        0 <= i < b.entry_count(),
        b.key_at(i) == id,
    ensures
        b.contains_key(id),
        b.key_index(id) == i,
{
    assert(b.contains_key(id));
    let i0 = b.key_index(id);
    assert(0 <= i0 < b.entry_count() && b.key_at(i0) == id);
    if i0 != i {
        assert(b.key_at(i0) != b.key_at(i));
    }
}

/// The compiled set of protected branch names: branches that must never be
/// rewritten.  Matching is exact and case-sensitive.
#[derive(Debug)]
pub struct ProtectedBranches {
    pub names: Vec<String>,
}

impl ProtectedBranches {
    /// The protected names, as character sequences.
    pub open spec fn names_view(self) -> Seq<Seq<char>> {
        self.names.deep_view()
    }

    /// Compiles a set of protected branch names.  Exact names carry no
    /// pattern syntax, so every list compiles.
    pub fn new(names: Vec<&str>) -> (r: Result<ProtectedBranches, String>)
        ensures
            r matches Ok(p) && p.names_view().len() == names@.len(),
            r matches Ok(p) ==> forall|i: int|
                0 <= i < names@.len() ==> #[trigger] p.names_view()[i] == names@[i]@,
    {
        let mut owned: Vec<String> = Vec::new();
        let mut i: usize = 0;
        while i < names.len()
            invariant
                i <= names@.len(),
                owned.deep_view().len() == i,
                forall|j: int|
                    0 <= j < i ==> #[trigger] owned.deep_view()[j] == names@[j]@,
            decreases names@.len() - i,
        {
            let ghost prevv = owned@;
            let ghost prevdv = owned.deep_view();
            owned.push(names[i].to_owned());
            proof {
                assert(owned.deep_view()[owned.deep_view().len() - 1] == names@[i as int]@);
                assert forall|j: int| 0 <= j < prevdv.len() implies #[trigger] owned.deep_view()[
                    j] == prevdv[j] by {
                    assert(owned@[j] == prevv[j]);
                    assert(prevdv[j] == prevv[j].deep_view());
                }
            }
            i = i + 1;
        }
        Ok(ProtectedBranches { names: owned })
    }

    /// Whether this name is protected.
    pub fn is_protected(&self, name: &str) -> (r: bool)
        ensures
            r == self.names_view().contains(name@),
    {
        let mut i: usize = 0;
        while i < self.names.len()
            invariant
                i <= self.names@.len(),
                forall|j: int| 0 <= j < i ==> #[trigger] self.names_view()[j] != name@,
            decreases self.names@.len() - i,
        {
            if str_eq(self.names[i].as_str(), name) {
                proof {
                    assert(self.names_view()[i as int] == name@);
                }
                return true;
            }
            proof {
                assert(self.names_view()[i as int] == self.names@[i as int]@);
            }
            i = i + 1;
        }
        proof {
            assert_by_contradiction!(!self.names_view().contains(name@), {
                let j = choose|j: int|
                    0 <= j < self.names_view().len() && self.names_view()[j] == name@;
            });
        }
        false
    }
}

/// Keeps the branches whose name the matcher protects.
pub open spec fn protected_pred(m: ProtectedBranches) -> spec_fn(Branch) -> bool {
    |b: Branch| m.names_view().contains(b.name@)
}

impl Branches {
    /// The indexed branches whose names are protected, grouped as before;
    /// commits left with no protected branch are dropped.  Always a subset
    /// of the index.
    #[verifier::rlimit(50)]
    pub fn protected(&self, matcher: &ProtectedBranches) -> (r: Branches)
        requires
            self.wf(),
        ensures
            r.wf(),
            forall|id: u64|
                #[trigger] r.contains_key(id) <==> (self.contains_key(id)
                    && self.branches_at(id).filter(protected_pred(*matcher)).len() > 0),
            forall|id: u64|
                #[trigger] r.contains_key(id) ==> r.branches_at(id) == self.branches_at(
                    id,
                ).filter(protected_pred(*matcher)),
            forall|id: u64| #[trigger] r.contains_key(id) ==> self.contains_key(id),
            forall|a: int, b: int|
                0 <= a < b < r.entry_count() ==> self.key_index(#[trigger] r.key_at(a))
                    < self.key_index(#[trigger] r.key_at(b)),
    {
        let mut entries: Vec<(u64, Vec<Branch>)> = Vec::new();
        let ghost mut pos: Seq<int> = Seq::empty();
        let ghost mut idx: Seq<int> = Seq::empty();
        let ghost pp = protected_pred(*matcher);
        let mut i: usize = 0;
        while i < self.entries.len()
            invariant
                self.wf(),
                i <= self.entry_count(),
                pp == protected_pred(*matcher),
                pos.len() == entries@.len(),
                idx.len() == i,
                forall|k: int| 0 <= k < pos.len() ==> 0 <= #[trigger] pos[k] < i,
                forall|k: int|
                    0 <= k < pos.len() ==> (#[trigger] entries@[k]).0 == self.key_at(pos[k]),
                forall|k: int|
                    0 <= k < pos.len() ==> (#[trigger] entries@[k]).1@ == self.group_at(
                        pos[k],
                    ).filter(pp),
                forall|k: int| 0 <= k < pos.len() ==> (#[trigger] entries@[k]).1@.len() > 0,
                forall|k1: int, k2: int|
                    0 <= k1 < k2 < pos.len() ==> #[trigger] pos[k1] < #[trigger] pos[k2],
                forall|a: int|
                    0 <= a < i && self.group_at(a).filter(pp).len() > 0 ==> 0 <= #[trigger] idx[
                        a] < entries@.len(),
                forall|a: int|
                    0 <= a < i && self.group_at(a).filter(pp).len() > 0 ==> (entries@[
                    #[trigger] idx[a]]).0 == self.key_at(a),
            decreases self.entry_count() - i,
        {
            let ghost i0 = i as int;
            let key = self.entries[i].0;
            let mut grp: Vec<Branch> = Vec::new();
            let mut j: usize = 0;
            proof {
                reveal(Seq::filter);
                assert(self.group_at(i0).take(0).filter(pp) =~= Seq::<Branch>::empty());
            }
            while j < self.entries[i].1.len()
                invariant
                    self.wf(),
                    i < self.entry_count(),
                    pp == protected_pred(*matcher),
                    j <= self.group_at(i as int).len(),
                    grp@ == self.group_at(i as int).take(j as int).filter(pp),
                decreases self.group_at(i as int).len() - j,
            {
                proof {
                    assert(self.group_at(i as int).take(j + 1) =~= self.group_at(
                        i as int,
                    ).take(j as int).push(self.group_at(i as int)[j as int]));
                    assert(pp(self.group_at(i as int)[j as int]) == matcher.names_view().contains(
                        self.group_at(i as int)[j as int].name@,
                    ));
                    lemma_filter_push(
                        self.group_at(i as int).take(j as int),
                        self.group_at(i as int)[j as int],
                        pp,
                    );
                }
                if matcher.is_protected(self.entries[i].1[j].name.as_str()) {
                    grp.push(branch_dup(&self.entries[i].1[j]));
                }
                j = j + 1;
            }
            proof {
                assert(self.group_at(i0).take(self.group_at(i0).len() as int) =~= self.group_at(
                    i0,
                ));
            }
            if grp.len() > 0 {
                entries.push((key, grp));
                proof {
                    idx = idx.push(pos.len() as int);
                    pos = pos.push(i0);
                    assert((entries@[entries@.len() - 1]).0 == self.key_at(i0));
                    assert((entries@[entries@.len() - 1]).1@ == self.group_at(i0).filter(pp));
                }
            } else {
                proof {
                    idx = idx.push(-1);
                }
            }
            i = i + 1;
        }
        let ghost es = entries@;
        let r = Branches { entries };
        proof {
            assert(r.entries@ == es);
            assert forall|a: int, b: int|
                0 <= a < b < r.entry_count() implies #[trigger] r.key_at(a)
                != #[trigger] r.key_at(b) by {
                assert(pos[a] < pos[b]);
                assert(r.key_at(a) == self.key_at(pos[a]));
                assert(r.key_at(b) == self.key_at(pos[b]));
            }
            assert forall|a: int, k: int|
                0 <= a < r.entry_count() && 0 <= k < r.group_at(a).len() implies (
            #[trigger] r.group_at(a)[k]).id == r.key_at(a) by {
                assert(r.group_at(a) == self.group_at(pos[a]).filter(pp));
                assert(pp(r.group_at(a)[k]));
                assert(self.group_at(pos[a]).contains(r.group_at(a)[k])) by {
                    lemma_filter_sub(self.group_at(pos[a]), pp, k);
                }
                let k2 = choose|k2: int|
                    0 <= k2 < self.group_at(pos[a]).len() && self.group_at(pos[a])[k2]
                        == r.group_at(a)[k];
                assert(self.group_at(pos[a])[k2].id == self.key_at(pos[a]));
            }
            assert forall|x: u64| #[trigger] r.contains_key(x) implies (self.contains_key(x)
                && self.branches_at(x).filter(pp).len() > 0 && r.branches_at(x)
                == self.branches_at(x).filter(pp)) by {
                let a = r.key_index(x);
                assert(0 <= a < r.entry_count() && r.key_at(a) == x);
                let p = pos[a];
                assert(self.key_at(p) == x);
                lemma_key_unique(*self, p, x);
                lemma_key_unique(r, a, x);
                assert(r.branches_at(x) == r.group_at(a));
                assert(self.branches_at(x) == self.group_at(p));
            }
            assert forall|x: u64| self.contains_key(x) && self.branches_at(x).filter(
                pp,
            ).len() > 0 implies #[trigger] r.contains_key(x) by {
                let p = self.key_index(x);
                assert(0 <= p < self.entry_count() && self.key_at(p) == x);
                assert(self.branches_at(x) == self.group_at(p));
                assert(0 <= idx[p] < es.len());
                assert(r.key_at(idx[p]) == x);
            }
            assert forall|a: int, b: int|
                0 <= a < b < r.entry_count() implies self.key_index(#[trigger] r.key_at(a))
                < self.key_index(#[trigger] r.key_at(b)) by {
                assert(pos[a] < pos[b]);
                assert(r.key_at(a) == self.key_at(pos[a]));
                assert(r.key_at(b) == self.key_at(pos[b]));
                lemma_key_unique(*self, pos[a], r.key_at(a));
                lemma_key_unique(*self, pos[b], r.key_at(b));
            }
        }
        r
    }
}

/// An element of a filtered sequence is an element of the original.
proof fn lemma_filter_sub<A>(s: Seq<A>, pred: spec_fn(A) -> bool, k: int)
    requires
        0 <= k < s.filter(pred).len(),
    ensures
        s.contains(s.filter(pred)[k]),
    decreases s.len(),
{
    reveal(Seq::filter);
    if s.len() > 0 {
        if k < s.drop_last().filter(pred).len() {
            lemma_filter_sub(s.drop_last(), pred, k);
            let x = s.drop_last().filter(pred)[k];
            let j = choose|j: int| 0 <= j < s.drop_last().len() && s.drop_last()[j] == x;
            assert(s[j] == x);
        } else {
            assert(s.filter(pred)[k] == s.last());
            assert(s[s.len() - 1] == s.last());
        }
    }
}

/// `a` and `b` share some commit in both ancestries: a merge base exists.
pub open spec fn has_common_ancestor(r: InMemoryRepo, a: u64, b: u64) -> bool {
    exists|c: u64| in_ancestry(r, a, c) && in_ancestry(r, b, c)
}

/// The first indexed entry, in index order, whose commit shares history with
/// `head`; the first branch of that entry anchors the rebase boundary.
pub open spec fn first_shared_base_from(
    r: InMemoryRepo,
    b: Branches,
    head: u64,
    i: int,
) -> Option<Branch>
    decreases b.entry_count() - i,
    when 0 <= i
{
    if i >= b.entry_count() {
        None
    } else if has_common_ancestor(r, head, b.key_at(i)) {
        Some(b.group_at(i)[0])
    } else {
        first_shared_base_from(r, b, head, i + 1)
    }
}

/// The protected branch that anchors `head_id`'s stack: the first protected
/// entry sharing history with the head, or nothing — in particular, nothing
/// whenever no branch is protected.
pub fn find_protected_base(
    repo: &InMemoryRepo,
    protected: &Branches,
    head_id: u64,
) -> (r: Option<Branch>)
    requires
        repo.wf(),
        protected.wf(),
        repo.has_commit(head_id),
    ensures
        r == first_shared_base_from(*repo, *protected, head_id, 0),
        protected.entry_count() == 0 ==> r is None,
{
    let head_anc = ancestors_of(repo, head_id);
    let n = protected.len();
    let mut i: usize = 0;
    while i < n
        invariant
            repo.wf(),
            protected.wf(),
            n == protected.entry_count(),
            i <= n,
            forall|id: u64| #[trigger] head_anc@.contains(id) ==> in_ancestry(*repo, head_id, id),
            forall|id: u64| in_ancestry(*repo, head_id, id) ==> #[trigger] head_anc@.contains(id),
            first_shared_base_from(*repo, *protected, head_id, 0) == first_shared_base_from(
                *repo,
                *protected,
                head_id,
                i as int,
            ),
        decreases n - i,
    {
        let key = protected.entry_key(i);
        let key_anc = ancestors_of(repo, key);
        let shared = any_common(&head_anc, &key_anc);
        proof {
            if shared {
                let c = choose|c: u64| head_anc@.contains(c) && key_anc@.contains(c);
                assert(in_ancestry(*repo, head_id, c) && in_ancestry(*repo, key, c));
                assert(has_common_ancestor(*repo, head_id, key));
            } else {
                assert_by_contradiction!(!has_common_ancestor(*repo, head_id, key), {
                    let c = choose|c: u64|
                        in_ancestry(*repo, head_id, c) && in_ancestry(*repo, key, c);
                    assert(head_anc@.contains(c) && key_anc@.contains(c));
                });
            }
        }
        if shared {
            let grp = protected.entry_branches(i);
            proof {
                assert(grp@[0] == protected.group_at(i as int)[0]);
            }
            return Some(branch_dup(&grp[0]));
        }
        i = i + 1;
    }
    None
}

/// Two indexes with the same entries answer every query alike.
proof fn lemma_same_entries(a: Branches, b: Branches)
    requires
        b.wf(),
        a.entry_count() == b.entry_count(),
        forall|i: int| 0 <= i < b.entry_count() ==> #[trigger] a.key_at(i) == b.key_at(i),
        forall|i: int| 0 <= i < b.entry_count() ==> #[trigger] a.group_at(i) == b.group_at(i),
    ensures
        a.wf(),
        forall|id: u64| a.contains_key(id) == b.contains_key(id),
        forall|id: u64| #[trigger] a.branches_at(id) == b.branches_at(id),
{
    assert forall|id: u64| #[trigger] a.contains_key(id) == b.contains_key(id) by {
        if a.contains_key(id) {
            let i = a.key_index(id);
            assert(0 <= i < a.entry_count() && a.key_at(i) == id);
            assert(b.key_at(i) == id);
            assert(b.contains_key(id));
        }
        if b.contains_key(id) {
            let i = b.key_index(id);
            assert(0 <= i < b.entry_count() && b.key_at(i) == id);
            assert(a.key_at(i) == id);
            assert(a.contains_key(id));
        }
    }
    assert forall|id: u64| #[trigger] a.branches_at(id) == b.branches_at(id) by {
        if a.contains_key(id) {
            let i = a.key_index(id);
            assert(0 <= i < a.entry_count() && a.key_at(i) == id);
            lemma_key_unique(b, i, id);
            let i2 = b.key_index(id);
            assert(i2 == i);
        }
    }
}

} // verus!
