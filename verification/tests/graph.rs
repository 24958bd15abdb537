//! Graph nodes: claiming branches from the index, merging partial nodes,
//! and building the node map for a run.

use git_stack::git::{Branch, Branches, Commit, InMemoryRepo};
use git_stack::graph::{build_nodes, Action, Node, NodeMap};

fn commit(id: u64, parent_ids: Vec<u64>) -> Commit {
    Commit { id, parent_ids, message: String::new(), time: 0 }
}

fn branch(name: &str, id: u64) -> Branch {
    Branch { name: name.to_owned(), id }
}

fn fixture_repo() -> InMemoryRepo {
    let mut repo = InMemoryRepo::new();
    repo.add_commit(commit(1, vec![]));
    repo.add_commit(commit(2, vec![1]));
    repo.add_commit(commit(3, vec![2]));
    repo.add_commit(commit(4, vec![3]));
    repo.add_commit(commit(5, vec![2]));
    repo.add_commit(commit(6, vec![5]));
    repo.add_branch(branch("initial", 1));
    repo.add_branch(branch("base", 2));
    repo.add_branch(branch("feature1", 3));
    repo.add_branch(branch("feature2", 4));
    repo.add_branch(branch("off_master", 5));
    repo.add_branch(branch("master", 6));
    repo
}

#[test]
fn test_with_branches_claims() {
    let repo = fixture_repo();
    let mut branches = Branches::new(repo.local_branches());

    let node = Node::new(3).with_branches(&mut branches);
    assert_eq!(node.commit_id, 3);
    assert_eq!(node.branches.len(), 1);
    assert_eq!(node.branches[0].name, "feature1");
    assert_eq!(node.action, Action::Pick);
    assert!(!node.pushable);

    // a second claim for the same commit finds nothing
    let again = Node::new(3).with_branches(&mut branches);
    assert!(again.branches.is_empty());
}

#[test]
fn test_update_merges() {
    let mut a = Node::new(7);
    a.branches.push(branch("one", 7));
    a.children.push(8);

    let mut b = Node::new(7);
    b.branches.push(branch("two", 7));
    b.action = Action::Protect;
    b.pushable = true;
    b.children.push(8);
    b.children.push(9);

    a.update(b);
    assert_eq!(a.commit_id, 7);
    assert_eq!(a.action, Action::Protect);
    assert!(a.pushable);
    let names: Vec<&str> = a.branches.iter().map(|b| b.name.as_str()).collect();
    assert_eq!(names, ["one", "two"]);
    let mut kids = a.children.clone();
    kids.sort_unstable();
    assert_eq!(kids, [8, 9]);
}

#[test]
fn test_update_commutes() {
    let make_x = || {
        let mut x = Node::new(7);
        x.branches.push(branch("one", 7));
        x.children.push(8);
        x.pushable = true;
        x
    };
    let make_y = || {
        let mut y = Node::new(7);
        y.branches.push(branch("two", 7));
        y.action = Action::Squash(5);
        y.children.push(9);
        y
    };

    let mut xy = make_x();
    xy.update(make_y());
    let mut yx = make_y();
    yx.update(make_x());

    assert_eq!(xy.action, yx.action);
    assert_eq!(xy.pushable, yx.pushable);
    let mut xy_names: Vec<String> = xy.branches.iter().map(|b| b.name.clone()).collect();
    let mut yx_names: Vec<String> = yx.branches.iter().map(|b| b.name.clone()).collect();
    xy_names.sort_unstable();
    yx_names.sort_unstable();
    assert_eq!(xy_names, yx_names);
    let mut xy_kids = xy.children.clone();
    let mut yx_kids = yx.children.clone();
    xy_kids.sort_unstable();
    yx_kids.sort_unstable();
    assert_eq!(xy_kids, yx_kids);
}

#[test]
fn test_insert_or_merge() {
    let mut map = NodeMap { nodes: Vec::new() };

    let mut a = Node::new(7);
    a.branches.push(branch("one", 7));
    map.insert_or_merge(a);
    assert_eq!(map.nodes.len(), 1);

    let mut b = Node::new(7);
    b.action = Action::Protect;
    b.children.push(9);
    map.insert_or_merge(b);
    assert_eq!(map.nodes.len(), 1);
    assert_eq!(map.nodes[0].action, Action::Protect);
    assert_eq!(map.nodes[0].branches.len(), 1);
    assert_eq!(map.nodes[0].branches[0].name, "one");
    assert_eq!(map.nodes[0].children, [9]);

    map.insert_or_merge(Node::new(8));
    assert_eq!(map.nodes.len(), 2);
    assert!(map.find(8).is_some());
    assert!(map.find(10).is_none());
}

#[test]
fn test_build_nodes_claims_each_branch_once() {
    let repo = fixture_repo();
    let mut branches = Branches::new(repo.local_branches());
    let ids: Vec<u64> = vec![1, 2, 3, 4, 5, 6];

    let map = build_nodes(&repo, &ids, &mut branches);
    assert_eq!(map.nodes.len(), 6);

    // every branch appears on exactly one node: the one for its commit
    let mut seen: Vec<String> = Vec::new();
    for node in &map.nodes {
        for b in &node.branches {
            assert_eq!(b.id, node.commit_id);
            assert!(!seen.contains(&b.name));
            seen.push(b.name.clone());
        }
    }
    seen.sort_unstable();
    assert_eq!(
        seen,
        ["base", "feature1", "feature2", "initial", "master", "off_master"]
    );

    // the index was fully consumed
    assert!(branches.remove(1).is_none());
    assert!(branches.remove(6).is_none());
}

#[test]
fn test_build_nodes_children() {
    let repo = fixture_repo();
    let mut branches = Branches::new(repo.local_branches());
    let ids: Vec<u64> = vec![1, 2, 3, 4, 5, 6];

    let map = build_nodes(&repo, &ids, &mut branches);
    let kids_of = |id: u64| -> Vec<u64> {
        let i = map.find(id).unwrap();
        let mut kids = map.nodes[i].children.clone();
        kids.sort_unstable();
        kids
    };
    assert_eq!(kids_of(1), [2]);
    assert_eq!(kids_of(2), [3, 5]);
    assert_eq!(kids_of(3), [4]);
    assert_eq!(kids_of(4), Vec::<u64>::new());
    assert_eq!(kids_of(5), [6]);
    assert_eq!(kids_of(6), Vec::<u64>::new());
}
