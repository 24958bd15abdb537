//! The layered configuration: defaults, precedence, and the typing of raw
//! values from files and from the environment.

use git_stack::config::{Fixup, Format, RawConfig, RepoConfig, Stack};

fn entry(key: &str, value: Option<&str>) -> (String, Option<String>) {
    (key.to_owned(), value.map(|v| v.to_owned()))
}

#[test]
fn test_getter_defaults() {
    let config = RepoConfig::default();
    assert_eq!(config.protected_branches(), Vec::<String>::new());
    assert_eq!(config.protect_commit_count(), Some(50));
    assert_eq!(config.protect_commit_age(), 60 * 60 * 24 * 14);
    assert_eq!(config.push_remote(), "origin");
    assert_eq!(config.pull_remote(), "origin");
    assert_eq!(config.stack(), Stack::All);
    assert_eq!(config.show_format(), Format::BranchCommits);
    assert!(config.show_stacked());
    assert_eq!(config.auto_fixup(), Fixup::Move);
    assert!(config.auto_repair());
    assert_eq!(config.capacity(), Some(30));
}

#[test]
fn test_zero_counts_disable() {
    let config = RepoConfig {
        protect_commit_count: Some(0),
        capacity: Some(0),
        ..RepoConfig::default()
    };
    assert_eq!(config.protect_commit_count(), None);
    assert_eq!(config.capacity(), None);
}

#[test]
fn test_update_later_wins() {
    let base = RepoConfig {
        protect_commit_count: Some(10),
        push_remote: Some("fork".to_owned()),
        ..RepoConfig::default()
    };
    let over = RepoConfig {
        protect_commit_count: Some(20),
        show_stacked: Some(false),
        ..RepoConfig::default()
    };
    let merged = base.update(over);
    assert_eq!(merged.protect_commit_count, Some(20));
    assert_eq!(merged.push_remote.as_deref(), Some("fork"));
    assert_eq!(merged.show_stacked, Some(false));
}

#[test]
fn test_update_accumulates_protected() {
    let base = RepoConfig {
        protected_branches: Some(vec!["main".to_owned()]),
        ..RepoConfig::default()
    };
    let over = RepoConfig {
        protected_branches: Some(vec!["release".to_owned()]),
        ..RepoConfig::default()
    };
    let merged = base.update(over);
    assert_eq!(
        merged.protected_branches,
        Some(vec!["main".to_owned(), "release".to_owned()])
    );
}

#[test]
fn test_from_defaults_internal() {
    let config = RepoConfig::from_defaults_internal(Some("trunk".to_owned()));
    assert_eq!(
        config.protected_branches,
        Some(vec![
            "trunk".to_owned(),
            "main".to_owned(),
            "master".to_owned(),
            "dev".to_owned(),
            "stable".to_owned()
        ])
    );
    assert_eq!(config.protect_commit_count, Some(50));
    assert_eq!(config.protect_commit_age, Some(60 * 60 * 24 * 14));
    assert_eq!(config.stack, Some(Stack::All));
    assert_eq!(config.push_remote.as_deref(), Some("origin"));
    assert_eq!(config.pull_remote.as_deref(), Some("origin"));
    assert_eq!(config.show_format, Some(Format::BranchCommits));
    assert_eq!(config.show_stacked, Some(true));
    assert_eq!(config.auto_fixup, Some(Fixup::Move));
    assert_eq!(config.auto_repair, None);
    assert_eq!(config.capacity, Some(30));
}

#[test]
fn test_from_env_iter_known_keys() {
    let config = RepoConfig::from_env_iter(vec![
        entry("stack.protected-branch", Some("release")),
        entry("stack.protected-branch", Some("lts")),
        entry("stack.protect-commit-count", Some("42")),
        entry("stack.protect-commit-age", Some("2weeks")),
        entry("stack.stack", Some("dependents")),
        entry("stack.push-remote", Some("fork")),
        entry("stack.pull-remote", Some("upstream")),
        entry("stack.show-format", Some("silent")),
        entry("stack.show-stacked", Some("true")),
        entry("stack.auto-fixup", Some("squash")),
        entry("stack.auto-repair", Some("false")),
        entry("branch-stash.capacity", Some("7")),
    ]);
    assert_eq!(
        config.protected_branches,
        Some(vec!["release".to_owned(), "lts".to_owned()])
    );
    assert_eq!(config.protect_commit_count, Some(42));
    assert_eq!(config.protect_commit_age, Some(60 * 60 * 24 * 14));
    assert_eq!(config.stack, Some(Stack::Dependents));
    assert_eq!(config.push_remote.as_deref(), Some("fork"));
    assert_eq!(config.pull_remote.as_deref(), Some("upstream"));
    assert_eq!(config.show_format, Some(Format::Silent));
    assert_eq!(config.show_stacked, Some(true));
    assert_eq!(config.auto_fixup, Some(Fixup::Squash));
    assert_eq!(config.auto_repair, Some(false));
    assert_eq!(config.capacity, Some(7));
}

#[test]
fn test_from_env_iter_bad_values() {
    let config = RepoConfig::from_env_iter(vec![
        entry("stack.protect-commit-count", Some("x42")),
        entry("stack.protect-commit-age", Some("never")),
        entry("stack.stack", Some("sideways")),
        entry("stack.show-stacked", None),
        entry("stack.auto-repair", Some("yes")),
        entry("branch-stash.capacity", Some("-1")),
        entry("some.other-key", Some("ignored")),
        entry("stack.protect-commit-count", Some("99999999999999999999999999")),
    ]);
    assert_eq!(config.protect_commit_count, None);
    assert_eq!(config.protect_commit_age, None);
    assert_eq!(config.stack, None);
    assert_eq!(config.show_stacked, Some(true));
    assert_eq!(config.auto_repair, Some(false));
    assert_eq!(config.capacity, None);
}

#[test]
fn test_plus_sign_counts() {
    let config = RepoConfig::from_env_iter(vec![
        entry("stack.protect-commit-count", Some("+8")),
        entry("branch-stash.capacity", Some("+0")),
    ]);
    assert_eq!(config.protect_commit_count, Some(8));
    assert_eq!(config.capacity, Some(0));
    let config = RepoConfig::from_env_iter(vec![entry("stack.protect-commit-count", Some("+"))]);
    assert_eq!(config.protect_commit_count, None);
}

#[test]
fn test_duration_length_limit() {
    // at most twelve characters reach the duration parser; longer values
    // are treated as unparseable and leave the field as it was
    let config = RepoConfig::from_env_iter(vec![
        entry("stack.protect-commit-age", Some("1year 2weeks")),
        entry("stack.protect-commit-age", Some("1year 6months")),
    ]);
    assert_eq!(config.protect_commit_age, Some(31_557_600 + 1_209_600));
}

#[test]
fn test_from_gitconfig_age_too_long() {
    let raw = RawConfig {
        protect_commit_age: Some("1year 6months".to_owned()),
        ..RawConfig::default()
    };
    let config = RepoConfig::from_gitconfig(&raw);
    assert_eq!(config.protect_commit_age, None);
}

#[test]
fn test_from_env_smoke() {
    let from_env = RepoConfig::from_env();
    let merged = RepoConfig::from_defaults_internal(None).update(from_env);
    assert!(merged.protect_commit_count.is_some());
    assert!(merged.protected_branches.is_some());
}

#[test]
fn test_from_gitconfig() {
    let raw = RawConfig {
        protected_branches: vec!["release".to_owned()],
        protect_commit_count: Some(-5),
        protect_commit_age: Some("1day".to_owned()),
        stack: Some("current".to_owned()),
        push_remote: Some("fork".to_owned()),
        pull_remote: None,
        show_format: Some("commits".to_owned()),
        show_stacked: Some(false),
        auto_fixup: Some("ignore".to_owned()),
        auto_repair: Some(true),
        capacity: Some(9),
    };
    let config = RepoConfig::from_gitconfig(&raw);
    assert_eq!(config.protected_branches, Some(vec!["release".to_owned()]));
    assert_eq!(config.protect_commit_count, Some(0));
    assert_eq!(config.protect_commit_age, Some(60 * 60 * 24));
    assert_eq!(config.stack, Some(Stack::Current));
    assert_eq!(config.push_remote.as_deref(), Some("fork"));
    assert_eq!(config.pull_remote, None);
    assert_eq!(config.show_format, Some(Format::Commits));
    assert_eq!(config.show_stacked, Some(false));
    assert_eq!(config.auto_fixup, Some(Fixup::Ignore));
    assert_eq!(config.auto_repair, Some(true));
    assert_eq!(config.capacity, Some(9));
}

#[test]
fn test_from_gitconfig_empty() {
    let raw = RawConfig::default();
    let config = RepoConfig::from_gitconfig(&raw);
    assert_eq!(config, RepoConfig::default());
}

#[test]
fn test_enum_names() {
    assert_eq!(
        Format::variants(),
        ["silent", "branches", "branch-commits", "commits", "debug"]
    );
    assert_eq!(Stack::variants(), ["current", "dependents", "descendants", "all"]);
    assert_eq!(Fixup::variants(), ["ignore", "move", "squash"]);

    assert_eq!(Format::from_str("branch-commits"), Some(Format::BranchCommits));
    assert_eq!(Format::from_str("bogus"), None);
    assert_eq!(Stack::from_str("all"), Some(Stack::All));
    assert_eq!(Stack::from_str(""), None);
    assert_eq!(Fixup::from_str("move"), Some(Fixup::Move));
    assert_eq!(Fixup::from_str("Move"), None);

    assert_eq!(Format::default().as_str(), "branch-commits");
    assert_eq!(Stack::default().as_str(), "all");
    assert_eq!(Fixup::default().as_str(), "move");
}
