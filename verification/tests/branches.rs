//! Classification over a small fixture history:
//! `initial <- base <- {feature1 <- feature2, off_master <- master}`,
//! with one branch on each commit and `master` protected.

use git_stack::git::{
    find_protected_base, Branch, Branches, Commit, InMemoryRepo, ProtectedBranches,
};

fn commit(id: u64, parent_ids: Vec<u64>) -> Commit {
    Commit { id, parent_ids, message: String::new(), time: 0 }
}

fn branch(name: &str, id: u64) -> Branch {
    Branch { name: name.to_owned(), id }
}

fn fixture_repo() -> InMemoryRepo {
    let mut repo = InMemoryRepo::new();
    repo.add_commit(commit(1, vec![]));
    repo.add_commit(commit(2, vec![1]));
    repo.add_commit(commit(3, vec![2]));
    repo.add_commit(commit(4, vec![3]));
    repo.add_commit(commit(5, vec![2]));
    repo.add_commit(commit(6, vec![5]));
    repo.add_branch(branch("initial", 1));
    repo.add_branch(branch("base", 2));
    repo.add_branch(branch("feature1", 3));
    repo.add_branch(branch("feature2", 4));
    repo.add_branch(branch("off_master", 5));
    repo.add_branch(branch("master", 6));
    repo
}

fn no_protect() -> ProtectedBranches {
    ProtectedBranches::new(vec![]).unwrap()
}

fn protect() -> ProtectedBranches {
    ProtectedBranches::new(vec!["master"]).unwrap()
}

fn sorted_names(result: &Branches) -> Vec<String> {
    let mut names: Vec<String> = Vec::new();
    let mut i = 0;
    while i < result.len() {
        for b in result.entry_branches(i) {
            names.push(b.name.clone());
        }
        i += 1;
    }
    names.sort_unstable();
    names
}

#[test]
fn test_all() {
    let repo = fixture_repo();

    let branches = Branches::new(repo.local_branches());
    let result = branches.all();
    let names = sorted_names(&result);

    assert_eq!(
        names,
        [
            "base",
            "feature1",
            "feature2",
            "initial",
            "master",
            "off_master"
        ]
    );
}

#[test]
fn test_descendants() {
    let repo = fixture_repo();

    let base_oid = repo.resolve("base").unwrap().id;

    let branches = Branches::new(repo.local_branches());
    let result = branches.descendants(&repo, base_oid);
    let names = sorted_names(&result);

    // Should pick up master (branches off base)
    assert_eq!(
        names,
        ["base", "feature1", "feature2", "master", "off_master"]
    );
}

#[test]
fn test_dependents() {
    let repo = fixture_repo();

    let base_oid = repo.resolve("base").unwrap().id;
    let head_oid = repo.resolve("feature1").unwrap().id;

    let branches = Branches::new(repo.local_branches());
    let result = branches.dependents(&repo, base_oid, head_oid);
    let names = sorted_names(&result);

    // Shouldn't pick up master (branches off base)
    assert_eq!(names, ["base", "feature1", "feature2"]);
}

#[test]
fn test_branch() {
    let repo = fixture_repo();

    let base_oid = repo.resolve("base").unwrap().id;
    let head_oid = repo.resolve("feature1").unwrap().id;

    let branches = Branches::new(repo.local_branches());
    let result = branches.branch(&repo, base_oid, head_oid);
    let names = sorted_names(&result);

    // Shouldn't pick up feature2 (dependent) or master (branches off base)
    assert_eq!(names, ["base", "feature1"]);
}

#[test]
fn test_protected() {
    let repo = fixture_repo();

    let protect = protect();
    let branches = Branches::new(repo.local_branches());
    let result = branches.protected(&protect);
    let names = sorted_names(&result);

    assert_eq!(names, ["master"]);
}

#[test]
fn test_no_protected() {
    let repo = fixture_repo();

    let protect = no_protect();
    let branches = Branches::new(repo.local_branches());
    let protected = branches.protected(&protect);

    let head_oid = repo.resolve("base").unwrap().id;

    let branch = find_protected_base(&repo, &protected, head_oid);
    assert!(branch.is_none());
}

#[test]
fn test_protected_branch() {
    let repo = fixture_repo();

    let protect = protect();
    let branches = Branches::new(repo.local_branches());
    let protected = branches.protected(&protect);

    let head_oid = repo.resolve("off_master").unwrap().id;

    let branch = find_protected_base(&repo, &protected, head_oid);
    assert!(branch.is_some());
}

#[test]
fn test_protected_base() {
    let repo = fixture_repo();

    let protect = protect();
    let branches = Branches::new(repo.local_branches());
    let protected = branches.protected(&protect);

    let head_oid = repo.resolve("base").unwrap().id;

    let branch = find_protected_base(&repo, &protected, head_oid);
    assert!(branch.is_some());
}

#[test]
fn test_protected_base_name() {
    let repo = fixture_repo();

    let protect = protect();
    let branches = Branches::new(repo.local_branches());
    let protected = branches.protected(&protect);

    let head_oid = repo.resolve("base").unwrap().id;
    let found = find_protected_base(&repo, &protected, head_oid).unwrap();
    assert_eq!(found.name, "master");
}

#[test]
fn test_queries_narrow() {
    let repo = fixture_repo();

    let base_oid = repo.resolve("base").unwrap().id;
    let head_oid = repo.resolve("feature1").unwrap().id;

    let branches = Branches::new(repo.local_branches());
    let all_names = sorted_names(&branches.all());
    let descendant_names = sorted_names(&branches.descendants(&repo, base_oid));
    let dependent_names = sorted_names(&branches.dependents(&repo, base_oid, head_oid));
    let branch_names = sorted_names(&branches.branch(&repo, base_oid, head_oid));

    assert!(branch_names.iter().all(|n| dependent_names.contains(n)));
    assert!(dependent_names.iter().all(|n| descendant_names.contains(n)));
    assert!(descendant_names.iter().all(|n| all_names.contains(n)));
}

#[test]
fn test_protected_subset_of_all() {
    let repo = fixture_repo();

    let branches = Branches::new(repo.local_branches());
    let all_names = sorted_names(&branches.all());
    let protected_names = sorted_names(&branches.protected(&protect()));

    assert!(protected_names.iter().all(|n| all_names.contains(n)));
}

#[test]
fn test_two_branches_one_commit() {
    let mut repo = fixture_repo();
    repo.add_branch(branch("feature1_alias", 3));

    let branches = Branches::new(repo.local_branches());
    let result = branches.branch(&repo, 2, 3);
    let names = sorted_names(&result);

    assert_eq!(names, ["base", "feature1", "feature1_alias"]);
}

#[test]
fn test_dependents_remerge() {
    // base <- mid <- head, with a side line off base merging back into head,
    // and a stray line off base that never reconnects
    let mut repo = InMemoryRepo::new();
    repo.add_commit(commit(1, vec![]));
    repo.add_commit(commit(2, vec![1]));
    repo.add_commit(commit(3, vec![2]));
    repo.add_commit(commit(5, vec![2]));
    repo.add_commit(commit(4, vec![3, 5]));
    repo.add_commit(commit(6, vec![2]));
    repo.add_branch(branch("base", 2));
    repo.add_branch(branch("mid", 3));
    repo.add_branch(branch("side", 5));
    repo.add_branch(branch("head", 4));
    repo.add_branch(branch("stray", 6));

    let branches = Branches::new(repo.local_branches());
    let dependent_names = sorted_names(&branches.dependents(&repo, 2, 4));
    assert_eq!(dependent_names, ["base", "head", "mid", "side"]);

    let descendant_names = sorted_names(&branches.descendants(&repo, 2));
    assert_eq!(descendant_names, ["base", "head", "mid", "side", "stray"]);

    let window_names = sorted_names(&branches.branch(&repo, 2, 4));
    assert_eq!(window_names, ["base", "head", "mid", "side"]);
}

#[test]
fn test_remove_claims_once() {
    let repo = fixture_repo();

    let mut branches = Branches::new(repo.local_branches());
    let first = branches.remove(2);
    assert!(first.is_some());
    assert_eq!(first.unwrap()[0].name, "base");
    assert!(branches.remove(2).is_none());
}

#[test]
fn test_resolve_unknown() {
    let repo = fixture_repo();
    assert!(repo.resolve("no-such-branch").is_none());
}
