//! Per-commit graph nodes: the rebase action, pushability and child links of
//! one commit, the branches claimed from the index for it, and the merge
//! that combines what independent traversal passes found.

use vstd::prelude::*;
use vstd::multiset::Multiset;
use vstd::seq_lib::lemma_seq_union_to_multiset_commutative;
use crate::git::{Branch, Branches, InMemoryRepo, contains_id};

verus! {

/// The planned rebase action for one commit.  `Pick` is the neutral
/// default; `Fixup` and `Squash` carry the id of the commit they fold into;
/// `Protect` marks a commit that is never rewritten.
#[derive(Debug, Copy, Clone, PartialEq, Eq, Structural)]
pub enum Action {
    Pick,
    Fixup(u64),
    Squash(u64),
    Protect,
}

/// Two actions can merge: at most one of them says something.
pub open spec fn actions_compatible(a: Action, b: Action) -> bool {
    a == Action::Pick || b == Action::Pick || a == b
}

/// The action a merge keeps: anything over the neutral default.
pub open spec fn merged_action(a: Action, b: Action) -> Action {
    if b != Action::Pick {
        b
    } else {
        a
    }
}

/// One commit of the graph: the branches pointing at it, its action, its
/// pushability, and the ids of its known children.
#[derive(Debug)]
pub struct Node {
    pub commit_id: u64,
    pub branches: Vec<Branch>,
    pub action: Action,
    pub pushable: bool,
    pub children: Vec<u64>,
}

impl Node {
    /// Child ids are unique and every attached branch points at this commit.
    pub open spec fn wf(self) -> bool {
        &&& forall|i: int, j: int|
            0 <= i < j < self.children@.len() ==> #[trigger] self.children@[i] != #[trigger] self.children@[j]
        &&& forall|i: int|
            0 <= i < self.branches@.len() ==> (#[trigger] self.branches@[i]).id == self.commit_id
    }

    /// A fresh node: no branches, the neutral action, not pushable, no
    /// children.
    pub fn new(commit_id: u64) -> (r: Node)
        ensures
            r.commit_id == commit_id,
            r.branches@.len() == 0,
            r.action == Action::Pick,
            !r.pushable,
            r.children@.len() == 0,
            r.wf(),
    {
        Node {
            commit_id,
            branches: Vec::new(),
            action: Action::Pick,
            pushable: false,
            children: Vec::new(),
        }
    }

    /// Claims the branches indexed at this node's commit: they move from the
    /// index onto the node, so no later pass can claim them again.
    pub fn with_branches(self, branches: &mut Branches) -> (r: Node)
        requires
            old(branches).wf(),
            self.branches@.len() == 0,
            self.wf(),
        ensures
            r.commit_id == self.commit_id,
            r.action == self.action,
            r.pushable == self.pushable,
            r.children == self.children,
            r.branches@ == old(branches).branches_at(self.commit_id),
            r.wf(),
            final(branches).wf(),
            forall|x: u64|
                #[trigger] final(branches).contains_key(x) <==> (old(branches).contains_key(x)
                    && x != self.commit_id),
            forall|x: u64|
                x != self.commit_id ==> #[trigger] final(branches).branches_at(x) == old(
                    branches,
                ).branches_at(x),
    {
        let mut s = self;
        proof {
            if old(branches).contains_key(s.commit_id) {
                let p = old(branches).key_index(s.commit_id);
                assert(0 <= p < old(branches).entry_count() && old(branches).key_at(p)
                    == s.commit_id);
                assert forall|k: int|
                    0 <= k < old(branches).branches_at(s.commit_id).len() implies (
                #[trigger] old(branches).branches_at(s.commit_id)[k]).id == s.commit_id by {
                    assert(old(branches).group_at(p)[k].id == old(branches).key_at(p));
                }
            }
        }
        match branches.remove(s.commit_id) {
            Some(v) => {
                s.branches = v;
            },
            None => {
                proof {
                    assert(old(branches).branches_at(s.commit_id) =~= Seq::<Branch>::empty());
                }
            },
        }
        s
    }

    /// Merges what another pass found for the same commit into this node:
    /// branches append, any non-neutral action wins, pushability is kept
    /// once set, and children unite.
    pub fn update(&mut self, other: Node)
        requires
            old(self).commit_id == other.commit_id,
            actions_compatible(old(self).action, other.action),
            old(self).wf(),
            other.wf(),
        ensures
            final(self).wf(),
            final(self).commit_id == old(self).commit_id,
            final(self).branches@ == old(self).branches@ + other.branches@,
            final(self).action == merged_action(old(self).action, other.action),
            final(self).pushable == (old(self).pushable || other.pushable),
            forall|c: u64|
                #[trigger] final(self).children@.contains(c) <==> (old(self).children@.contains(c)
                    || other.children@.contains(c)),
            node_summary(*final(self)) == merged(*old(self), other),
    {
        let ghost other0 = other;
        let mut other = other;
        let ghost oc = other0.children@;
        self.branches.append(&mut other.branches);
        if other.action != Action::Pick {
            self.action = other.action;
        }
        if other.pushable {
            self.pushable = true;
        }
        let mut k: usize = 0;
        while k < other.children.len()
            invariant
                k <= oc.len(),
                other.children@ == oc,
                self.commit_id == old(self).commit_id,
                self.branches@ == old(self).branches@ + other0.branches@,
                self.action == merged_action(old(self).action, other0.action),
                self.pushable == (old(self).pushable || other0.pushable),
                forall|i: int|
                    0 <= i < self.branches@.len() ==> (#[trigger] self.branches@[i]).id
                        == self.commit_id,
                forall|i: int, j: int|
                    0 <= i < j < self.children@.len() ==> #[trigger] self.children@[i]
                        != #[trigger] self.children@[j],
                forall|c: u64|
                    #[trigger] self.children@.contains(c) ==> (old(self).children@.contains(c)
                        || oc.contains(c)),
                forall|c: u64|
                    old(self).children@.contains(c) ==> #[trigger] self.children@.contains(c),
                forall|j: int| 0 <= j < k ==> self.children@.contains(#[trigger] oc[j]),
            decreases oc.len() - k,
        {
            let ghost prev = self.children@;
            let c = other.children[k];
            if !contains_id(&self.children, c) {
                self.children.push(c);
                proof {
                    assert(self.children@[self.children@.len() - 1] == c);
                    assert forall|x: u64| #[trigger] self.children@.contains(x) implies (
                    prev.contains(x) || x == c) by {
                        let i = choose|i: int|
                            0 <= i < self.children@.len() && self.children@[i] == x;
                        if i < prev.len() {
                            assert(prev[i] == x);
                        }
                    }
                    assert forall|x: u64| prev.contains(x) implies
                        #[trigger] self.children@.contains(x) by {
                        let i = choose|i: int| 0 <= i < prev.len() && prev[i] == x;
                        assert(self.children@[i] == x);
                    }
                    assert(oc.contains(c)) by {
                        assert(oc[k as int] == c);
                    }
                }
            }
            proof {
                assert forall|j: int| 0 <= j < k + 1 implies self.children@.contains(
                    #[trigger] oc[j],
                ) by {
                    if j < k {
                        assert(prev.contains(oc[j]));
                        let i = choose|i: int| 0 <= i < prev.len() && prev[i] == oc[j];
                        assert(self.children@[i] == oc[j]);
                    } else {
                        if prev.contains(c) {
                            let i = choose|i: int| 0 <= i < prev.len() && prev[i] == c;
                            assert(self.children@[i] == c);
                        } else {
                            assert(self.children@[self.children@.len() - 1] == c);
                        }
                    }
                }
            }
            k = k + 1;
        }
        proof {
            assert forall|c: u64| oc.contains(c) implies #[trigger] self.children@.contains(
                c,
            ) by {
                let j = choose|j: int| 0 <= j < oc.len() && oc[j] == c;
            }
            assert(self.children@.to_set() =~= old(self).children@.to_set().union(
                oc.to_set(),
            )) by {
                assert forall|c: u64| self.children@.to_set().contains(c) implies old(
                    self,
                ).children@.to_set().contains(c) || oc.to_set().contains(c) by {
                    assert(self.children@.contains(c));
                }
                assert forall|c: u64|
                    old(self).children@.to_set().contains(c) || oc.to_set().contains(
                        c,
                    ) implies self.children@.to_set().contains(c) by {
                    assert(old(self).children@.contains(c) || oc.contains(c));
                    assert(self.children@.contains(c));
                }
            }
            assert(self.branches@ == old(self).branches@ + other0.branches@);
            assert(node_summary(*self) == merged(*old(self), other0));
        }
    }
}

/// What a node amounts to once order is forgotten: its branches as a
/// multiset and its children as a set.
pub ghost struct MergedNode {
    pub commit_id: u64,
    pub branches: Multiset<Branch>,
    pub action: Action,
    pub pushable: bool,
    pub children: Set<u64>,
}

/// The order-free summary of a node.
pub open spec fn node_summary(n: Node) -> MergedNode {
    MergedNode {
        commit_id: n.commit_id,
        branches: n.branches@.to_multiset(),
        action: n.action,
        pushable: n.pushable,
        children: n.children@.to_set(),
    }
}

/// What merging two partial nodes for one commit must amount to, whichever
/// is merged into which.
pub open spec fn merged(x: Node, y: Node) -> MergedNode {
    MergedNode {
        commit_id: x.commit_id,
        branches: (x.branches@ + y.branches@).to_multiset(),
        action: merged_action(x.action, y.action),
        pushable: x.pushable || y.pushable,
        children: x.children@.to_set().union(y.children@.to_set()),
    }
}

/// The node map of one classification run: one node per distinct commit id,
/// rebuilt for every run.
#[derive(Debug)]
pub struct NodeMap {
    pub nodes: Vec<Node>,
}

impl NodeMap {
    /// How many nodes the map holds.
    pub open spec fn node_count(self) -> nat {
        self.nodes@.len()
    }

    /// Whether some node carries this commit id.
    pub open spec fn has_node(self, id: u64) -> bool {
        exists|i: int|
            0 <= i < self.nodes@.len() && (#[trigger] self.nodes@[i]).commit_id == id
    }

    /// Commit ids are unique and each node is well formed.
    pub open spec fn wf(self) -> bool {
        &&& forall|i: int, j: int|
            0 <= i < j < self.nodes@.len() ==> (#[trigger] self.nodes@[i]).commit_id != (
            #[trigger] self.nodes@[j]).commit_id
        &&& forall|i: int| 0 <= i < self.nodes@.len() ==> (#[trigger] self.nodes@[i]).wf()
    }

    /// The position of the node for this commit id.
    pub open spec fn node_index(self, id: u64) -> int {
        choose|i: int|
            0 <= i < self.nodes@.len() && (#[trigger] self.nodes@[i]).commit_id == id
    }

    /// Takes in one pass's partial node: the first node for a commit is kept
    /// as it is, a later one for the same commit merges into it, so a node
    /// is never replaced.
    pub fn insert_or_merge(&mut self, node: Node)
        requires
            old(self).wf(),
            node.wf(),
            forall|i: int|
                0 <= i < old(self).nodes@.len() && (#[trigger] old(self).nodes@[i]).commit_id
                    == node.commit_id ==> actions_compatible(
                    old(self).nodes@[i].action,
                    node.action,
                ),
        ensures
            final(self).wf(),
            final(self).has_node(node.commit_id),
            !old(self).has_node(node.commit_id) ==> final(self).nodes@ == old(
                self,
            ).nodes@.push(node),
            old(self).has_node(node.commit_id) ==> ({
                let i = old(self).node_index(node.commit_id);
                &&& final(self).nodes@.len() == old(self).nodes@.len()
                &&& forall|j: int|
                    0 <= j < old(self).nodes@.len() && j != i ==> (#[trigger] final(self).nodes@[j])
                        == old(self).nodes@[j]
                &&& final(self).nodes@[i].commit_id == node.commit_id
                &&& node_summary(final(self).nodes@[i]) == merged(
                    old(self).nodes@[i],
                    node,
                )
            }),
    {
        match self.find(node.commit_id) {
            Some(i) => {
                proof {
                    assert(old(self).has_node(node.commit_id));
                    let i0 = old(self).node_index(node.commit_id);
                    assert(0 <= i0 < old(self).nodes@.len() && old(self).nodes@[
                    i0].commit_id == node.commit_id);
                    if i0 != i {
                        assert(old(self).nodes@[i0].commit_id != old(self).nodes@[
                        i as int].commit_id);
                    }
                }
                let mut existing = self.nodes.remove(i);
                existing.update(node);
                self.nodes.insert(i, existing);
                proof {
                    assert(self.nodes@ =~= old(self).nodes@.update(i as int, existing));
                    assert(self.has_node(node.commit_id)) by {
                        assert(self.nodes@[i as int].commit_id == node.commit_id);
                    }
                }
            },
            None => {
                self.nodes.push(node);
                proof {
                    assert(self.nodes@[self.nodes@.len() - 1] == node);
                    assert forall|a: int, b: int|
                        0 <= a < b < self.nodes@.len() implies (
                    #[trigger] self.nodes@[a]).commit_id != (
                    #[trigger] self.nodes@[b]).commit_id by {
                        if b == self.nodes@.len() - 1 {
                            assert(old(self).nodes@[a].commit_id != node.commit_id);
                        }
                    }
                }
            },
        }
    }

    /// The position of the node for this commit id, if any.
    pub fn find(&self, id: u64) -> (r: Option<usize>)
        ensures
            r matches Some(i) ==> i < self.nodes@.len() && self.nodes@[i as int].commit_id
                == id,
            r is None ==> !self.has_node(id),
    {
        let mut i: usize = 0;
        while i < self.nodes.len()
            invariant
                i <= self.nodes@.len(),
                forall|j: int| 0 <= j < i ==> (#[trigger] self.nodes@[j]).commit_id != id,
            decreases self.nodes@.len() - i,
        {
            if self.nodes[i].commit_id == id {
                return Some(i);
            }
            i = i + 1;
        }
        None
    }
}

/// Builds one node per visited commit: each claims the branches indexed at
/// its commit, starts from the neutral action, and records as children the
/// visited commits it is a parent of.
#[verifier::rlimit(50)]
pub fn build_nodes(repo: &InMemoryRepo, ids: &Vec<u64>, branches: &mut Branches) -> (map: NodeMap)
    requires
        repo.wf(),
        old(branches).wf(),
        forall|i: int, j: int| 0 <= i < j < ids@.len() ==> #[trigger] ids@[i] != #[trigger] ids@[j],
    ensures
        map.wf(),
        map.nodes@.len() == ids@.len(),
        forall|i: int| 0 <= i < ids@.len() ==> (#[trigger] map.nodes@[i]).commit_id == ids@[i],
        forall|i: int|
            0 <= i < ids@.len() ==> (#[trigger] map.nodes@[i]).branches@ == old(
                branches,
            ).branches_at(ids@[i]),
        forall|i: int| 0 <= i < ids@.len() ==> (#[trigger] map.nodes@[i]).action == Action::Pick,
        forall|i: int| 0 <= i < ids@.len() ==> !(#[trigger] map.nodes@[i]).pushable,
        forall|i: int, c: u64|
            #![trigger map.nodes@[i].children@.contains(c)]
            0 <= i < ids@.len() ==> (map.nodes@[i].children@.contains(c) <==> (ids@.contains(c)
                && repo.parents_of(c).contains(ids@[i]))),
        final(branches).wf(),
        forall|x: u64|
            #[trigger] final(branches).contains_key(x) <==> (old(branches).contains_key(x)
                && !ids@.contains(x)),
        forall|x: u64|
            !ids@.contains(x) ==> #[trigger] final(branches).branches_at(x) == old(
                branches,
            ).branches_at(x),
{
    let mut nodes: Vec<Node> = Vec::new();
    let mut i: usize = 0;
    while i < ids.len()
        invariant
            repo.wf(),
            old(branches).wf(),
            branches.wf(),
            forall|a: int, b: int| 0 <= a < b < ids@.len() ==> #[trigger] ids@[a] != #[trigger] ids@[b],
            i <= ids@.len(),
            nodes@.len() == i,
            forall|k: int| 0 <= k < i ==> (#[trigger] nodes@[k]).commit_id == ids@[k],
            forall|k: int|
                0 <= k < i ==> (#[trigger] nodes@[k]).branches@ == old(branches).branches_at(
                    ids@[k],
                ),
            forall|k: int| 0 <= k < i ==> (#[trigger] nodes@[k]).action == Action::Pick,
            forall|k: int| 0 <= k < i ==> !(#[trigger] nodes@[k]).pushable,
            forall|k: int| 0 <= k < i ==> (#[trigger] nodes@[k]).wf(),
            forall|k: int, c: u64|
                #![trigger nodes@[k].children@.contains(c)]
                0 <= k < i ==> (nodes@[k].children@.contains(c) <==> (ids@.contains(c)
                    && repo.parents_of(c).contains(ids@[k]))),
            forall|x: u64|
                #[trigger] branches.contains_key(x) <==> (old(branches).contains_key(x)
                    && !ids@.take(i as int).contains(x)),
            forall|x: u64|
                !ids@.take(i as int).contains(x) ==> #[trigger] branches.branches_at(x) == old(
                    branches,
                ).branches_at(x),
        decreases ids@.len() - i,
    {
        let ghost take_prev = ids@.take(i as int);
        let id = ids[i];
        // the children of this commit among the visited ids
        let mut kids: Vec<u64> = Vec::new();
        let ghost mut pos2: Seq<int> = Seq::empty();
        let mut j: usize = 0;
        while j < ids.len()
            invariant
                repo.wf(),
                j <= ids@.len(),
                id == ids@[i as int],
                i < ids@.len(),
                pos2.len() == kids@.len(),
                forall|k: int| 0 <= k < pos2.len() ==> 0 <= #[trigger] pos2[k] < j,
                forall|k: int|
                    0 <= k < pos2.len() ==> ids@[#[trigger] pos2[k]] == kids@[k],
                forall|k: int|
                    0 <= k < kids@.len() ==> repo.parents_of(#[trigger] kids@[k]).contains(id),
                forall|k1: int, k2: int|
                    0 <= k1 < k2 < pos2.len() ==> #[trigger] pos2[k1] < #[trigger] pos2[k2],
                forall|j2: int|
                    0 <= j2 < j && repo.parents_of(ids@[j2]).contains(id) ==> kids@.contains(
                        #[trigger] ids@[j2],
                    ),
            decreases ids@.len() - j,
        {
            let ghost kids0 = kids@;
            let pj = repo.parent_ids(ids[j]);
            if contains_id(&pj, id) {
                kids.push(ids[j]);
                proof {
                    pos2 = pos2.push(j as int);
                    assert(kids@[kids@.len() - 1] == ids@[j as int]);
                }
            }
            proof {
                assert forall|j2: int|
                    0 <= j2 < j + 1 && repo.parents_of(ids@[j2]).contains(id) implies
                    kids@.contains(#[trigger] ids@[j2]) by {
                    if j2 < j {
                        assert(kids0.contains(ids@[j2]));
                        let k = choose|k: int| 0 <= k < kids0.len() && kids0[k] == ids@[j2];
                        assert(kids@[k] == ids@[j2]);
                    } else {
                        assert(kids@[kids@.len() - 1] == ids@[j2]);
                    }
                }
            }
            j = j + 1;
        }
        proof {
            assert forall|k1: int, k2: int|
                0 <= k1 < k2 < kids@.len() implies #[trigger] kids@[k1] != #[trigger] kids@[
                k2] by {
                assert(pos2[k1] < pos2[k2]);
                assert(ids@[pos2[k1]] == kids@[k1]);
                assert(ids@[pos2[k2]] == kids@[k2]);
            }
            assert forall|c: u64| #[trigger] kids@.contains(c) implies (ids@.contains(c)
                && repo.parents_of(c).contains(id)) by {
                let k = choose|k: int| 0 <= k < kids@.len() && kids@[k] == c;
                assert(ids@[pos2[k]] == c);
                assert(ids@.contains(c));
            }
            assert forall|c: u64| ids@.contains(c) && repo.parents_of(c).contains(
                id,
            ) implies #[trigger] kids@.contains(c) by {
                let j2 = choose|j2: int| 0 <= j2 < ids@.len() && ids@[j2] == c;
            }
        }
        let node0 = Node::new(id).with_branches(branches);
        let mut node = node0;
        node.children = kids;
        proof {
            assert(node.wf());
        }
        nodes.push(node);
        proof {
            assert((nodes@[nodes@.len() - 1]) == node);
            assert(ids@.take(i + 1) =~= take_prev.push(id));
            assert forall|x: u64| #[trigger] ids@.take(i + 1).contains(x) implies (
            take_prev.contains(x) || x == id) by {
                let a = choose|a: int|
                    0 <= a < ids@.take(i + 1).len() && #[trigger] ids@.take(i + 1)[a] == x;
                if a < i {
                    assert(take_prev[a] == x);
                }
            }
            assert forall|x: u64| take_prev.contains(x) implies #[trigger] ids@.take(
                i + 1,
            ).contains(x) by {
                let a = choose|a: int| 0 <= a < take_prev.len() && take_prev[a] == x;
                assert(ids@.take(i + 1)[a] == x);
            }
            assert(ids@.take(i + 1).contains(id)) by {
                assert(ids@.take(i + 1)[i as int] == id);
            }
        }
        i = i + 1;
    }
    proof {
        assert(ids@.take(ids@.len() as int) =~= ids@);
    }
    NodeMap { nodes }
}

/// After a complete run that visited every indexed commit, each indexed
/// branch group sits on exactly one node: the one for its commit, none
/// dropped and none duplicated.
pub proof fn lemma_each_branch_claimed_once(index: Branches, ids: Seq<u64>, map: NodeMap, x: u64)
    requires
        index.wf(),
        map.nodes@.len() == ids.len(),
        forall|i: int| 0 <= i < ids.len() ==> (#[trigger] map.nodes@[i]).commit_id == ids[i],
        forall|i: int|
            0 <= i < ids.len() ==> (#[trigger] map.nodes@[i]).branches@ == index.branches_at(
                ids[i],
            ),
        forall|i: int, j: int| 0 <= i < j < ids.len() ==> #[trigger] ids[i] != #[trigger] ids[j],
        forall|y: u64| #[trigger] index.contains_key(y) ==> ids.contains(y),
        index.contains_key(x),
    ensures
        exists|i: int|
            0 <= i < map.nodes@.len() && (#[trigger] map.nodes@[i]).commit_id == x
                && map.nodes@[i].branches@ == index.branches_at(x),
        forall|i: int, j: int|
            0 <= i < map.nodes@.len() && 0 <= j < map.nodes@.len() && (
            #[trigger] map.nodes@[i]).commit_id == x && (#[trigger] map.nodes@[j]).commit_id
                == x ==> i == j,
{
    assert(ids.contains(x));
    let j = choose|j: int| 0 <= j < ids.len() && ids[j] == x;
    assert(map.nodes@[j].commit_id == x && map.nodes@[j].branches@ == index.branches_at(x));
    assert forall|i1: int, j1: int|
        0 <= i1 < map.nodes@.len() && 0 <= j1 < map.nodes@.len() && (
    #[trigger] map.nodes@[i1]).commit_id == x && (#[trigger] map.nodes@[j1]).commit_id
        == x implies i1 == j1 by {
        if i1 != j1 {
            assert(ids[i1] == x && ids[j1] == x);
        }
    }
}

/// Merging is commutative: for two partial nodes of one commit whose
/// actions do not contradict, merging either into the other yields the same
/// node, up to the order of the branch list.
pub proof fn lemma_merge_commutative(x: Node, y: Node)
    requires
        x.commit_id == y.commit_id,
        actions_compatible(x.action, y.action),
    ensures
        merged(x, y) == merged(y, x),
{
    lemma_seq_union_to_multiset_commutative(x.branches@, y.branches@);
    assert((x.branches@ + y.branches@).to_multiset() == (y.branches@
        + x.branches@).to_multiset());
    assert(x.children@.to_set().union(y.children@.to_set()) =~= y.children@.to_set().union(
        x.children@.to_set(),
    ));
    assert(merged_action(x.action, y.action) == merged_action(y.action, x.action));
}

/// The merge of two summaries, field by field: what repeated node merges
/// amount to.
pub open spec fn merged_summary(a: MergedNode, b: MergedNode) -> MergedNode {
    MergedNode {
        commit_id: a.commit_id,
        branches: a.branches.add(b.branches),
        action: merged_action(a.action, b.action),
        pushable: a.pushable || b.pushable,
        children: a.children.union(b.children),
    }
}

/// Merging two nodes is merging their summaries: the node-level merge loses
/// nothing that the order-free view keeps.
pub proof fn lemma_merge_via_summaries(x: Node, y: Node)
    ensures
        merged(x, y) == merged_summary(node_summary(x), node_summary(y)),
{
    vstd::seq_lib::lemma_multiset_commutative(x.branches@, y.branches@);
    assert((x.branches@ + y.branches@).to_multiset() == x.branches@.to_multiset().add(
        y.branches@.to_multiset(),
    ));
}

/// Merging is associative: however three partial summaries of one commit
/// are grouped, the outcome is the same.
pub proof fn lemma_merge_associative(a: MergedNode, b: MergedNode, c: MergedNode)
    ensures
        merged_summary(merged_summary(a, b), c) == merged_summary(a, merged_summary(b, c)),
{
    broadcast use vstd::multiset::group_multiset_axioms;

    assert(a.branches.add(b.branches).add(c.branches) =~= a.branches.add(
        b.branches.add(c.branches),
    ));
    assert(a.children.union(b.children).union(c.children) =~= a.children.union(
        b.children.union(c.children),
    ));
    assert(merged_action(merged_action(a.action, b.action), c.action) == merged_action(
        a.action,
        merged_action(b.action, c.action),
    ));
}

} // verus!
