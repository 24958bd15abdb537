//! Layered repository configuration: typed settings, their defaults, and the
//! precedence fold that merges one configuration source over another.
//!
//! Values read from a git configuration file or from the environment reach
//! this module as plain strings, numbers and booleans; the typing decisions
//! (which keys are known, how their values parse, which source wins) are all
//! made here.

use vstd::prelude::*;
use crate::text::{str_eq, clone_string_vec, parse_usize, parse_usize_spec};

verus! {

/// How the graph is rendered after a command runs.
#[derive(Debug, Copy, Clone, PartialEq, Eq, Structural)]
pub enum Format {
    Silent,
    Branches,
    BranchCommits,
    Commits,
    Debug,
}

/// Which classifier query scopes a command by default.
#[derive(Debug, Copy, Clone, PartialEq, Eq, Structural)]
pub enum Stack {
    Current,
    Dependents,
    Descendants,
    All,
}

/// What is done with fixup commits when restacking.
#[derive(Debug, Copy, Clone, PartialEq, Eq, Structural)]
pub enum Fixup {
    Ignore,
    Move,
    Squash,
}

/// What `Format::from_str` returns for a given character sequence.
pub open spec fn format_from_str_spec(s: Seq<char>) -> Option<Format> {
    if s == "silent"@ {
        Some(Format::Silent)
    } else if s == "branches"@ {
        Some(Format::Branches)
    } else if s == "branch-commits"@ {
        Some(Format::BranchCommits)
    } else if s == "commits"@ {
        Some(Format::Commits)
    } else if s == "debug"@ {
        Some(Format::Debug)
    } else {
        None
    }
}

impl Format {
    /// The names under which the variants are written, in declaration order.
    pub fn variants() -> (r: [&'static str; 5])
        ensures
            r@.len() == 5,
            r@[0]@ == "silent"@,
            r@[1]@ == "branches"@,
            r@[2]@ == "branch-commits"@,
            r@[3]@ == "commits"@,
            r@[4]@ == "debug"@,
    {
        ["silent", "branches", "branch-commits", "commits", "debug"]
    }

    /// The variant a name denotes, if any.
    pub fn from_str(s: &str) -> (r: Option<Format>)
        ensures
            r == format_from_str_spec(s@),
    {
        if str_eq(s, "silent") {
            Some(Format::Silent)
        } else if str_eq(s, "branches") {
            Some(Format::Branches)
        } else if str_eq(s, "branch-commits") {
            Some(Format::BranchCommits)
        } else if str_eq(s, "commits") {
            Some(Format::Commits)
        } else if str_eq(s, "debug") {
            Some(Format::Debug)
        } else {
            None
        }
    }

    /// The name under which this variant is written.
    pub fn as_str(&self) -> (r: &'static str)
        ensures
            *self == Format::Silent ==> r@ == "silent"@,
            *self == Format::Branches ==> r@ == "branches"@,
            *self == Format::BranchCommits ==> r@ == "branch-commits"@,
            *self == Format::Commits ==> r@ == "commits"@,
            *self == Format::Debug ==> r@ == "debug"@,
    {
        match self {
            Format::Silent => "silent",
            Format::Branches => "branches",
            Format::BranchCommits => "branch-commits",
            Format::Commits => "commits",
            Format::Debug => "debug",
        }
    }
}

impl Default for Format {
    fn default() -> (r: Self)
        ensures
            r == Format::BranchCommits,
    {
        Format::BranchCommits
    }
}

/// What `Stack::from_str` returns for a given character sequence.
pub open spec fn stack_from_str_spec(s: Seq<char>) -> Option<Stack> {
    if s == "current"@ {
        Some(Stack::Current)
    } else if s == "dependents"@ {
        Some(Stack::Dependents)
    } else if s == "descendants"@ {
        Some(Stack::Descendants)
    } else if s == "all"@ {
        Some(Stack::All)
    } else {
        None
    }
}

impl Stack {
    /// The names under which the variants are written, in declaration order.
    pub fn variants() -> (r: [&'static str; 4])
        ensures
            r@.len() == 4,
            r@[0]@ == "current"@,
            r@[1]@ == "dependents"@,
            r@[2]@ == "descendants"@,
            r@[3]@ == "all"@,
    {
        ["current", "dependents", "descendants", "all"]
    }

    /// The variant a name denotes, if any.
    pub fn from_str(s: &str) -> (r: Option<Stack>)
        ensures
            r == stack_from_str_spec(s@),
    {
        if str_eq(s, "current") {
            Some(Stack::Current)
        } else if str_eq(s, "dependents") {
            Some(Stack::Dependents)
        } else if str_eq(s, "descendants") {
            Some(Stack::Descendants)
        } else if str_eq(s, "all") {
            Some(Stack::All)
        } else {
            None
        }
    }

    /// The name under which this variant is written.
    pub fn as_str(&self) -> (r: &'static str)
        ensures
            *self == Stack::Current ==> r@ == "current"@,
            *self == Stack::Dependents ==> r@ == "dependents"@,
            *self == Stack::Descendants ==> r@ == "descendants"@,
            *self == Stack::All ==> r@ == "all"@,
    {
        match self {
            Stack::Current => "current",
            Stack::Dependents => "dependents",
            Stack::Descendants => "descendants",
            Stack::All => "all",
        }
    }
}

impl Default for Stack {
    fn default() -> (r: Self)
        ensures
            r == Stack::All,
    {
        Stack::All
    }
}

/// What `Fixup::from_str` returns for a given character sequence.
pub open spec fn fixup_from_str_spec(s: Seq<char>) -> Option<Fixup> {
    if s == "ignore"@ {
        Some(Fixup::Ignore)
    } else if s == "move"@ {
        Some(Fixup::Move)
    } else if s == "squash"@ {
        Some(Fixup::Squash)
    } else {
        None
    }
}

impl Fixup {
    /// The names under which the variants are written, in declaration order.
    pub fn variants() -> (r: [&'static str; 3])
        ensures
            r@.len() == 3,
            r@[0]@ == "ignore"@,
            r@[1]@ == "move"@,
            r@[2]@ == "squash"@,
    {
        ["ignore", "move", "squash"]
    }

    /// The variant a name denotes, if any.
    pub fn from_str(s: &str) -> (r: Option<Fixup>)
        ensures
            r == fixup_from_str_spec(s@),
    {
        if str_eq(s, "ignore") {
            Some(Fixup::Ignore)
        } else if str_eq(s, "move") {
            Some(Fixup::Move)
        } else if str_eq(s, "squash") {
            Some(Fixup::Squash)
        } else {
            None
        }
    }

    /// The name under which this variant is written.
    pub fn as_str(&self) -> (r: &'static str)
        ensures
            *self == Fixup::Ignore ==> r@ == "ignore"@,
            *self == Fixup::Move ==> r@ == "move"@,
            *self == Fixup::Squash ==> r@ == "squash"@,
    {
        match self {
            Fixup::Ignore => "ignore",
            Fixup::Move => "move",
            Fixup::Squash => "squash",
        }
    }
}

impl Default for Fixup {
    fn default() -> (r: Self)
        ensures
            r == Fixup::Move,
    {
        Fixup::Move
    }
}

/// One layer of repository configuration.  A `None` field means the layer
/// does not speak about that setting; the getters supply the defaults.
/// Durations are held as whole seconds.
#[derive(Debug, PartialEq)]
pub struct RepoConfig {
    pub protected_branches: Option<Vec<String>>,
    pub protect_commit_count: Option<usize>,
    pub protect_commit_age: Option<u64>,
    pub stack: Option<Stack>,
    pub push_remote: Option<String>,
    pub pull_remote: Option<String>,
    pub show_format: Option<Format>,
    pub show_stacked: Option<bool>,
    pub auto_fixup: Option<Fixup>,
    pub auto_repair: Option<bool>,
    pub capacity: Option<usize>,
}

impl Default for RepoConfig {
    fn default() -> (r: Self)
        ensures
            r == RepoConfig::empty_spec(),
    {
        RepoConfig {
            protected_branches: None,
            protect_commit_count: None,
            protect_commit_age: None,
            stack: None,
            push_remote: None,
            pull_remote: None,
            show_format: None,
            show_stacked: None,
            auto_fixup: None,
            auto_repair: None,
            capacity: None,
        }
    }
}

impl RepoConfig {
    /// The configuration with every field unset.
    pub open spec fn empty_spec() -> RepoConfig {
        RepoConfig {
            protected_branches: None,
            protect_commit_count: None,
            protect_commit_age: None,
            stack: None,
            push_remote: None,
            pull_remote: None,
            show_format: None,
            show_stacked: None,
            auto_fixup: None,
            auto_repair: None,
            capacity: None,
        }
    }

    /// Lays `other` over `self`: a field set in `other` wins, an unset one
    /// keeps `self`'s value, and the protected-branch lists accumulate.
    pub fn update(self, other: Self) -> (r: Self)
        ensures
            r@ == updated(self@, other@),
            r.protected_branches matches Some(v) ==> v.deep_view() == (match (
                self.protected_branches,
                other.protected_branches,
            ) {
                (Some(l), Some(rh)) => l.deep_view() + rh.deep_view(),
                (None, Some(rh)) => rh.deep_view(),
                (Some(l), None) => l.deep_view(),
                (None, None) => Seq::<Seq<char>>::empty(),
            }),
            (r.protected_branches is Some) == (self.protected_branches is Some
                || other.protected_branches is Some),
            r.protect_commit_count == (if other.protect_commit_count is Some {
                other.protect_commit_count
            } else {
                self.protect_commit_count
            }),
            r.protect_commit_age == (if other.protect_commit_age is Some {
                other.protect_commit_age
            } else {
                self.protect_commit_age
            }),
            r.stack == (if other.stack is Some {
                other.stack
            } else {
                self.stack
            }),
            r.push_remote == (if other.push_remote is Some {
                other.push_remote
            } else {
                self.push_remote
            }),
            r.pull_remote == (if other.pull_remote is Some {
                other.pull_remote
            } else {
                self.pull_remote
            }),
            r.show_format == (if other.show_format is Some {
                other.show_format
            } else {
                self.show_format
            }),
            r.show_stacked == (if other.show_stacked is Some {
                other.show_stacked
            } else {
                self.show_stacked
            }),
            r.auto_fixup == (if other.auto_fixup is Some {
                other.auto_fixup
            } else {
                self.auto_fixup
            }),
            r.auto_repair == (if other.auto_repair is Some {
                other.auto_repair
            } else {
                self.auto_repair
            }),
            r.capacity == (if other.capacity is Some {
                other.capacity
            } else {
                self.capacity
            }),
    {
        let ghost s0 = self;
        let ghost o0 = other;
        let protected_branches = match (self.protected_branches, other.protected_branches) {
            (Some(mut l), Some(rh)) => {
                let ghost l0v = l@;
                let ghost l0d = l.deep_view();
                let ghost rh0v = rh@;
                let ghost rh0d = rh.deep_view();
                let mut rh = rh;
                l.append(&mut rh);
                proof {
                    assert(l.deep_view() =~= l0d + rh0d) by {
                        assert(l@ == l0v + rh0v);
                        assert forall|j: int|
                            0 <= j < l@.len() implies #[trigger] l.deep_view()[j] == (l0d
                            + rh0d)[j] by {
                            if j < l0v.len() {
                                assert(l@[j] == l0v[j]);
                            } else {
                                assert(l@[j] == rh0v[j - l0v.len()]);
                            }
                        }
                    }
                }
                Some(l)
            },
            (None, Some(rh)) => Some(rh),
            (Some(l), None) => Some(l),
            (None, None) => None,
        };
        let r = RepoConfig {
            protected_branches,
            protect_commit_count: if other.protect_commit_count.is_some() {
                other.protect_commit_count
            } else {
                self.protect_commit_count
            },
            protect_commit_age: if other.protect_commit_age.is_some() {
                other.protect_commit_age
            } else {
                self.protect_commit_age
            },
            stack: if other.stack.is_some() {
                other.stack
            } else {
                self.stack
            },
            push_remote: if other.push_remote.is_some() {
                other.push_remote
            } else {
                self.push_remote
            },
            pull_remote: if other.pull_remote.is_some() {
                other.pull_remote
            } else {
                self.pull_remote
            },
            show_format: if other.show_format.is_some() {
                other.show_format
            } else {
                self.show_format
            },
            show_stacked: if other.show_stacked.is_some() {
                other.show_stacked
            } else {
                self.show_stacked
            },
            auto_fixup: if other.auto_fixup.is_some() {
                other.auto_fixup
            } else {
                self.auto_fixup
            },
            auto_repair: if other.auto_repair.is_some() {
                other.auto_repair
            } else {
                self.auto_repair
            },
            capacity: if other.capacity.is_some() {
                other.capacity
            } else {
                self.capacity
            },
        };
        proof {
            assert(r@ == updated(s0@, o0@));
        }
        r
    }

    /// The configured protected branch names, or none.
    pub fn protected_branches(&self) -> (r: Vec<String>)
        ensures
            self.protected_branches matches Some(v) ==> r@ == v@,
            self.protected_branches is None ==> r@ == Seq::<String>::empty(),
    {
        match &self.protected_branches {
            Some(v) => clone_string_vec(v),
            None => Vec::new(),
        }
    }

    /// How many recent commits stay protected; zero switches the guard off.
    pub fn protect_commit_count(&self) -> (r: Option<usize>)
        ensures
            r == ({
                let c = self.protect_commit_count.unwrap_or(50);
                if c != 0 {
                    Some(c)
                } else {
                    None::<usize>
                }
            }),
    {
        let c = self.protect_commit_count.unwrap_or(50);
        if c != 0 {
            Some(c)
        } else {
            None
        }
    }

    /// How old a commit must be, in seconds, before it is protected.
    /// The default is fourteen days.
    pub fn protect_commit_age(&self) -> (r: u64)
        ensures
            r == self.protect_commit_age.unwrap_or((60 * 60 * 24 * 14) as u64),
    {
        self.protect_commit_age.unwrap_or(60 * 60 * 24 * 14)
    }

    /// The remote that branches are pushed to.
    pub fn push_remote(&self) -> (r: String)
        ensures
            self.push_remote matches Some(s) ==> r == s,
            self.push_remote is None ==> r@ == "origin"@,
    {
        match &self.push_remote {
            Some(s) => s.clone(),
            None => "origin".to_owned(),
        }
    }

    /// The remote that branches are pulled from; defaults to the push remote.
    pub fn pull_remote(&self) -> (r: String)
        ensures
            self.pull_remote matches Some(s) ==> r == s,
            self.pull_remote is None ==> (self.push_remote matches Some(s) ==> r == s),
            self.pull_remote is None && self.push_remote is None ==> r@ == "origin"@,
    {
        match &self.pull_remote {
            Some(s) => s.clone(),
            None => self.push_remote(),
        }
    }

    /// The default stack scope.
    pub fn stack(&self) -> (r: Stack)
        ensures
            r == self.stack.unwrap_or(Stack::All),
    {
        self.stack.unwrap_or(Stack::All)
    }

    /// The default rendering format.
    pub fn show_format(&self) -> (r: Format)
        ensures
            r == self.show_format.unwrap_or(Format::BranchCommits),
    {
        self.show_format.unwrap_or(Format::BranchCommits)
    }

    /// Whether the rendering nests stacks.
    pub fn show_stacked(&self) -> (r: bool)
        ensures
            r == self.show_stacked.unwrap_or(true),
    {
        self.show_stacked.unwrap_or(true)
    }

    /// What is done with fixup commits.
    pub fn auto_fixup(&self) -> (r: Fixup)
        ensures
            r == self.auto_fixup.unwrap_or(Fixup::Move),
    {
        self.auto_fixup.unwrap_or(Fixup::Move)
    }

    /// Whether lost work is repaired automatically.
    pub fn auto_repair(&self) -> (r: bool)
        ensures
            r == self.auto_repair.unwrap_or(true),
    {
        self.auto_repair.unwrap_or(true)
    }

    /// How many stashed snapshots are kept; zero switches stashing off.
    pub fn capacity(&self) -> (r: Option<usize>)
        ensures
            r == ({
                let c = self.capacity.unwrap_or(30);
                if c != 0 {
                    Some(c)
                } else {
                    None::<usize>
                }
            }),
    {
        let c = self.capacity.unwrap_or(30);
        if c != 0 {
            Some(c)
        } else {
            None
        }
    }
}

/// The ghost image of a configuration layer: every string as its character
/// sequence.
pub ghost struct RepoConfigView {
    pub protected_branches: Option<Seq<Seq<char>>>,
    pub protect_commit_count: Option<usize>,
    pub protect_commit_age: Option<u64>,
    pub stack: Option<Stack>,
    pub push_remote: Option<Seq<char>>,
    pub pull_remote: Option<Seq<char>>,
    pub show_format: Option<Format>,
    pub show_stacked: Option<bool>,
    pub auto_fixup: Option<Fixup>,
    pub auto_repair: Option<bool>,
    pub capacity: Option<usize>,
}

/// The character sequence of an optional string.
pub open spec fn opt_str_view(o: Option<String>) -> Option<Seq<char>> {
    match o {
        Some(s) => Some(s@),
        None => None,
    }
}

/// The character sequences of an optional string list.
pub open spec fn opt_vec_str_view(o: Option<Vec<String>>) -> Option<Seq<Seq<char>>> {
    match o {
        Some(v) => Some(v.deep_view()),
        None => None,
    }
}

impl View for RepoConfig {
    type V = RepoConfigView;

    open spec fn view(&self) -> RepoConfigView {
        RepoConfigView {
            protected_branches: opt_vec_str_view(self.protected_branches),
            protect_commit_count: self.protect_commit_count,
            protect_commit_age: self.protect_commit_age,
            stack: self.stack,
            push_remote: opt_str_view(self.push_remote),
            pull_remote: opt_str_view(self.pull_remote),
            show_format: self.show_format,
            show_stacked: self.show_stacked,
            auto_fixup: self.auto_fixup,
            auto_repair: self.auto_repair,
            capacity: self.capacity,
        }
    }
}

/// One layer laid over another, at the view level: a set field wins, an
/// unset one keeps the base, and the protected-branch lists accumulate.
pub open spec fn updated(base: RepoConfigView, over: RepoConfigView) -> RepoConfigView {
    RepoConfigView {
        protected_branches: match (base.protected_branches, over.protected_branches) {
            (Some(l), Some(rh)) => Some(l + rh),
            (None, rh) => rh,
            (l, None) => l,
        },
        protect_commit_count: if over.protect_commit_count is Some {
            over.protect_commit_count
        } else {
            base.protect_commit_count
        },
        protect_commit_age: if over.protect_commit_age is Some {
            over.protect_commit_age
        } else {
            base.protect_commit_age
        },
        stack: if over.stack is Some {
            over.stack
        } else {
            base.stack
        },
        push_remote: if over.push_remote is Some {
            over.push_remote
        } else {
            base.push_remote
        },
        pull_remote: if over.pull_remote is Some {
            over.pull_remote
        } else {
            base.pull_remote
        },
        show_format: if over.show_format is Some {
            over.show_format
        } else {
            base.show_format
        },
        show_stacked: if over.show_stacked is Some {
            over.show_stacked
        } else {
            base.show_stacked
        },
        auto_fixup: if over.auto_fixup is Some {
            over.auto_fixup
        } else {
            base.auto_fixup
        },
        auto_repair: if over.auto_repair is Some {
            over.auto_repair
        } else {
            base.auto_repair
        },
        capacity: if over.capacity is Some {
            over.capacity
        } else {
            base.capacity
        },
    }
}

/// The longest duration string handed to the outside parser; anything
/// longer is treated as unparseable.
pub const DURATION_STR_MAX: usize = 12;

/// Names what humantime's duration parser yields for a string; the result
/// depends on the characters alone.  `None` stands for a parse failure, a
/// parsed duration is kept as its count of whole seconds.
pub uninterp spec fn parsed_duration_secs(s: Seq<char>) -> Option<u64>;

/// Relies on humantime::parse_duration: parses a human-readable duration
/// such as "2weeks 1s"; the whole-second count of the result is kept.
///
/// The parser carries a nanosecond total of exactly one second into the
/// seconds counter unchecked, and that carry aborts the process only when
/// the seconds total already equals the largest `u64`.  Every other
/// accumulation in it is checked and returns an error instead.  The largest
/// unit it knows, the year, is worth 31,557,600 seconds, so a string of at
/// most `DURATION_STR_MAX` characters — at best eleven digits and a one-byte
/// unit — can spell under 10^11 years, short of that total by a factor of
/// five; such inputs therefore always return normally.
#[verifier::external_body]
fn duration_secs_from_str(s: &str) -> (r: Option<u64>)
    requires
        s@.len() <= DURATION_STR_MAX,
    ensures
        r == parsed_duration_secs(s@),
{
    humantime::parse_duration(s).ok().map(|d| d.as_secs())
}

/// Relies on git_config_env::ConfigParameters: reads the key/value pairs of
/// the GIT_CONFIG_PARAMETERS environment variable.  What comes back depends
/// on the process environment, so nothing is promised of it.
#[verifier::external_body]
fn read_env_config_parameters() -> Vec<(String, Option<String>)> {
    let params = git_config_env::ConfigParameters::new();
    params.iter().map(|(k, v)| (k.into_owned(), v.map(|x| x.into_owned()))).collect()
}

/// Relies on git_config_env::ConfigEnv: reads the key/value pairs named by
/// GIT_CONFIG_COUNT, GIT_CONFIG_KEY_n and GIT_CONFIG_VALUE_n.  What comes
/// back depends on the process environment, so nothing is promised of it.
#[verifier::external_body]
fn read_env_config_pairs() -> Vec<(String, String)> {
    let params = git_config_env::ConfigEnv::new();
    params.iter().map(|(k, v)| (k.into_owned(), v.into_owned())).collect()
}

/// One key/value pair applied to a configuration layer, as git's environment
/// protocol has it: known keys set their field when the value is usable,
/// everything else leaves the layer unchanged.
pub open spec fn env_entry_applied(
    c: RepoConfigView,
    key: Seq<char>,
    value: Option<Seq<char>>,
) -> RepoConfigView {
    if key == "stack.protected-branch"@ {
        match value {
            Some(v) => RepoConfigView {
                protected_branches: Some(
                    match c.protected_branches {
                        Some(l) => l.push(v),
                        None => seq![v],
                    },
                ),
                ..c
            },
            None => c,
        }
    } else if key == "stack.protect-commit-count"@ {
        match value {
            Some(v) => match parse_usize_spec(v) {
                Some(n) => RepoConfigView { protect_commit_count: Some(n), ..c },
                None => c,
            },
            None => c,
        }
    } else if key == "stack.protect-commit-age"@ {
        match value {
            Some(v) => if v.len() <= DURATION_STR_MAX {
                match parsed_duration_secs(v) {
                    Some(n) => RepoConfigView { protect_commit_age: Some(n), ..c },
                    None => c,
                }
            } else {
                c
            },
            None => c,
        }
    } else if key == "stack.stack"@ {
        match value {
            Some(v) => match stack_from_str_spec(v) {
                Some(t) => RepoConfigView { stack: Some(t), ..c },
                None => c,
            },
            None => c,
        }
    } else if key == "stack.push-remote"@ {
        match value {
            Some(v) => RepoConfigView { push_remote: Some(v), ..c },
            None => c,
        }
    } else if key == "stack.pull-remote"@ {
        match value {
            Some(v) => RepoConfigView { pull_remote: Some(v), ..c },
            None => c,
        }
    } else if key == "stack.show-format"@ {
        match value {
            Some(v) => match format_from_str_spec(v) {
                Some(f) => RepoConfigView { show_format: Some(f), ..c },
                None => c,
            },
            None => c,
        }
    } else if key == "stack.show-stacked"@ {
        RepoConfigView {
            show_stacked: Some(
                match value {
                    Some(v) => v == "true"@,
                    None => true,
                },
            ),
            ..c
        }
    } else if key == "stack.auto-fixup"@ {
        match value {
            Some(v) => match fixup_from_str_spec(v) {
                Some(f) => RepoConfigView { auto_fixup: Some(f), ..c },
                None => c,
            },
            None => c,
        }
    } else if key == "stack.auto-repair"@ {
        RepoConfigView {
            auto_repair: Some(
                match value {
                    Some(v) => v == "true"@,
                    None => true,
                },
            ),
            ..c
        }
    } else if key == "branch-stash.capacity"@ {
        RepoConfigView {
            capacity: (match value {
                Some(v) => parse_usize_spec(v),
                None => None,
            }),
            ..c
        }
    } else {
        c
    }
}

/// The character-level image of a list of key/value pairs.
pub open spec fn env_entries_view(
    entries: Seq<(String, Option<String>)>,
) -> Seq<(Seq<char>, Option<Seq<char>>)> {
    entries.map_values(|e: (String, Option<String>)| (e.0@, opt_str_view(e.1)))
}

/// A list of key/value pairs applied to a layer in order, later pairs over
/// earlier ones.
pub open spec fn env_fold(
    c: RepoConfigView,
    entries: Seq<(Seq<char>, Option<Seq<char>>)>,
) -> RepoConfigView
    decreases entries.len(),
{
    if entries.len() == 0 {
        c
    } else {
        env_entry_applied(env_fold(c, entries.drop_last()), entries.last().0, entries.last().1)
    }
}

/// The default protected-branch names, behind the configured default branch
/// when one is known.
pub open spec fn default_protected_view(default_branch: Option<String>) -> Seq<Seq<char>> {
    match default_branch {
        Some(d) => seq![d@, "main"@, "master"@, "dev"@, "stable"@],
        None => seq!["main"@, "master"@, "dev"@, "stable"@],
    }
}

/// Clamps a configured count into `usize`: negatives become zero.
pub open spec fn saturate_to_usize_spec(i: i64) -> usize {
    if i <= 0 {
        0
    } else if i <= usize::MAX {
        i as usize
    } else {
        usize::MAX
    }
}

/// Clamps a configured count into `usize`: negatives become zero.
pub fn saturate_to_usize(i: i64) -> (r: usize)
    ensures
        r == saturate_to_usize_spec(i),
{
    if i <= 0 {
        0
    } else if (i as u64) <= (usize::MAX as u64) {
        i as usize
    } else {
        usize::MAX
    }
}

/// The values of the known keys as read from one git configuration file,
/// before they are typed.  Unverified callers fill this in from the file and
/// hand it over; `protected_branches` carries every value of its key, in file
/// order.
#[derive(Debug, Default)]
pub struct RawConfig {
    pub protected_branches: Vec<String>,
    pub protect_commit_count: Option<i64>,
    pub protect_commit_age: Option<String>,
    pub stack: Option<String>,
    pub push_remote: Option<String>,
    pub pull_remote: Option<String>,
    pub show_format: Option<String>,
    pub show_stacked: Option<bool>,
    pub auto_fixup: Option<String>,
    pub auto_repair: Option<bool>,
    pub capacity: Option<i64>,
}

impl RepoConfig {
    /// Types the values read from one git configuration file: an empty
    /// multi-value list means the key was absent, counts clamp into `usize`,
    /// durations and enumerated settings parse or stay unset.
    pub fn from_gitconfig(raw: &RawConfig) -> (r: RepoConfig)
        ensures
            raw.protected_branches@.len() == 0 ==> r.protected_branches is None,
            raw.protected_branches@.len() > 0 ==> (r.protected_branches matches Some(v)
                && v@ == raw.protected_branches@),
            r.protect_commit_count == (match raw.protect_commit_count {
                Some(i) => Some(saturate_to_usize_spec(i)),
                None => None::<usize>,
            }),
            r.protect_commit_age == (match raw.protect_commit_age {
                Some(s) => if s@.len() <= DURATION_STR_MAX {
                    parsed_duration_secs(s@)
                } else {
                    None::<u64>
                },
                None => None::<u64>,
            }),
            r.stack == (match raw.stack {
                Some(s) => stack_from_str_spec(s@),
                None => None::<Stack>,
            }),
            r.push_remote == raw.push_remote,
            r.pull_remote == raw.pull_remote,
            r.show_format == (match raw.show_format {
                Some(s) => format_from_str_spec(s@),
                None => None::<Format>,
            }),
            r.show_stacked == raw.show_stacked,
            r.auto_fixup == (match raw.auto_fixup {
                Some(s) => fixup_from_str_spec(s@),
                None => None::<Fixup>,
            }),
            r.auto_repair == raw.auto_repair,
            r.capacity == (match raw.capacity {
                Some(i) => Some(saturate_to_usize_spec(i)),
                None => None::<usize>,
            }),
    {
        let protected_branches = if raw.protected_branches.len() == 0 {
            None
        } else {
            Some(clone_string_vec(&raw.protected_branches))
        };
        let protect_commit_count = match raw.protect_commit_count {
            Some(i) => Some(saturate_to_usize(i)),
            None => None,
        };
        let protect_commit_age = match &raw.protect_commit_age {
            Some(s) => {
                if s.as_str().unicode_len() <= DURATION_STR_MAX {
                    duration_secs_from_str(s.as_str())
                } else {
                    None
                }
            },
            None => None,
        };
        let stack = match &raw.stack {
            Some(s) => Stack::from_str(s.as_str()),
            None => None,
        };
        let push_remote = match &raw.push_remote {
            Some(s) => Some(s.clone()),
            None => None,
        };
        let pull_remote = match &raw.pull_remote {
            Some(s) => Some(s.clone()),
            None => None,
        };
        let show_format = match &raw.show_format {
            Some(s) => Format::from_str(s.as_str()),
            None => None,
        };
        let auto_fixup = match &raw.auto_fixup {
            Some(s) => Fixup::from_str(s.as_str()),
            None => None,
        };
        let capacity = match raw.capacity {
            Some(i) => Some(saturate_to_usize(i)),
            None => None,
        };
        RepoConfig {
            protected_branches,
            protect_commit_count,
            protect_commit_age,
            stack,
            push_remote,
            pull_remote,
            show_format,
            show_stacked: raw.show_stacked,
            auto_fixup,
            auto_repair: raw.auto_repair,
            capacity,
        }
    }

    /// The built-in defaults: every setting at its default value, and the
    /// well-known protected branch names behind the configured default
    /// branch, when one is known.
    pub fn from_defaults_internal(default_branch: Option<String>) -> (r: RepoConfig)
        ensures
            r.protected_branches matches Some(v) && v.deep_view()
                == default_protected_view(default_branch),
            r.protect_commit_count == Some(50usize),
            r.protect_commit_age == Some((60 * 60 * 24 * 14) as u64),
            r.stack == Some(Stack::All),
            r.push_remote matches Some(s) && s@ == "origin"@,
            r.pull_remote matches Some(s) && s@ == "origin"@,
            r.show_format == Some(Format::BranchCommits),
            r.show_stacked == Some(true),
            r.auto_fixup == Some(Fixup::Move),
            r.auto_repair is None,
            r.capacity == Some(30usize),
    {
        let mut names: Vec<String> = Vec::new();
        let has_default = default_branch.is_some();
        match default_branch {
            Some(d) => names.push(d),
            None => (),
        }
        names.push("main".to_owned());
        names.push("master".to_owned());
        names.push("dev".to_owned());
        names.push("stable".to_owned());
        proof {
            assert(names.deep_view() =~= default_protected_view(default_branch));
        }
        RepoConfig {
            protected_branches: Some(names),
            protect_commit_count: Some(50),
            protect_commit_age: Some(60 * 60 * 24 * 14),
            stack: Some(Stack::All),
            push_remote: Some("origin".to_owned()),
            pull_remote: Some("origin".to_owned()),
            show_format: Some(Format::BranchCommits),
            show_stacked: Some(true),
            auto_fixup: Some(Fixup::Move),
            auto_repair: None,
            capacity: Some(30),
        }
    }

    /// Types a list of key/value pairs from git's environment protocol,
    /// applying them to an empty layer in order.
    pub fn from_env_iter(entries: Vec<(String, Option<String>)>) -> (r: RepoConfig)
        ensures
            r@ == env_fold(RepoConfig::empty_spec()@, env_entries_view(entries@)),
    {
        let mut pb: Option<Vec<String>> = None;
        let mut pcc: Option<usize> = None;
        let mut age: Option<u64> = None;
        let mut stack_v: Option<Stack> = None;
        let mut push_v: Option<String> = None;
        let mut pull_v: Option<String> = None;
        let mut fmt_v: Option<Format> = None;
        let mut stacked_v: Option<bool> = None;
        let mut fixup_v: Option<Fixup> = None;
        let mut repair_v: Option<bool> = None;
        let mut cap: Option<usize> = None;
        let mut i: usize = 0;
        while i < entries.len()
            invariant
                i <= entries@.len(),
                env_fold(
                    RepoConfig::empty_spec()@,
                    env_entries_view(entries@).take(i as int),
                ) == (RepoConfigView {
                    protected_branches: opt_vec_str_view(pb),
                    protect_commit_count: pcc,
                    protect_commit_age: age,
                    stack: stack_v,
                    push_remote: opt_str_view(push_v),
                    pull_remote: opt_str_view(pull_v),
                    show_format: fmt_v,
                    show_stacked: stacked_v,
                    auto_fixup: fixup_v,
                    auto_repair: repair_v,
                    capacity: cap,
                }),
            decreases entries@.len() - i,
        {
            let ghost dv = env_entries_view(entries@);
            let key = entries[i].0.as_str();
            if str_eq(key, "stack.protected-branch") {
                match &entries[i].1 {
                    Some(v) => {
                        let ghost pb_prev = opt_vec_str_view(pb);
                        let mut cur = match pb {
                            Some(l) => l,
                            None => Vec::new(),
                        };
                        let ghost cur_prev = cur.deep_view();
                        cur.push(v.clone());
                        proof {
                            assert(cur.deep_view() =~= cur_prev.push(v@));
                            if pb_prev is None {
                                assert(cur_prev =~= seq![v@].take(0));
                                assert(cur.deep_view() =~= seq![v@]);
                            }
                        }
                        pb = Some(cur);
                    },
                    None => (),
                }
            } else if str_eq(key, "stack.protect-commit-count") {
                match &entries[i].1 {
                    Some(v) => {
                        match parse_usize(v.as_str()) {
                            Some(n) => {
                                pcc = Some(n);
                            },
                            None => (),
                        }
                    },
                    None => (),
                }
            } else if str_eq(key, "stack.protect-commit-age") {
                match &entries[i].1 {
                    Some(v) => {
                        if v.as_str().unicode_len() <= DURATION_STR_MAX {
                            match duration_secs_from_str(v.as_str()) {
                                Some(n) => {
                                    age = Some(n);
                                },
                                None => (),
                            }
                        }
                    },
                    None => (),
                }
            } else if str_eq(key, "stack.stack") {
                match &entries[i].1 {
                    Some(v) => {
                        match Stack::from_str(v.as_str()) {
                            Some(t) => {
                                stack_v = Some(t);
                            },
                            None => (),
                        }
                    },
                    None => (),
                }
            } else if str_eq(key, "stack.push-remote") {
                match &entries[i].1 {
                    Some(v) => {
                        push_v = Some(v.clone());
                    },
                    None => (),
                }
            } else if str_eq(key, "stack.pull-remote") {
                match &entries[i].1 {
                    Some(v) => {
                        pull_v = Some(v.clone());
                    },
                    None => (),
                }
            } else if str_eq(key, "stack.show-format") {
                match &entries[i].1 {
                    Some(v) => {
                        match Format::from_str(v.as_str()) {
                            Some(f) => {
                                fmt_v = Some(f);
                            },
                            None => (),
                        }
                    },
                    None => (),
                }
            } else if str_eq(key, "stack.show-stacked") {
                stacked_v = Some(
                    match &entries[i].1 {
                        Some(v) => str_eq(v.as_str(), "true"),
                        None => true,
                    },
                );
            } else if str_eq(key, "stack.auto-fixup") {
                match &entries[i].1 {
                    Some(v) => {
                        match Fixup::from_str(v.as_str()) {
                            Some(f) => {
                                fixup_v = Some(f);
                            },
                            None => (),
                        }
                    },
                    None => (),
                }
            } else if str_eq(key, "stack.auto-repair") {
                repair_v = Some(
                    match &entries[i].1 {
                        Some(v) => str_eq(v.as_str(), "true"),
                        None => true,
                    },
                );
            } else if str_eq(key, "branch-stash.capacity") {
                cap = match &entries[i].1 {
                    Some(v) => parse_usize(v.as_str()),
                    None => None,
                };
            }
            proof {
                assert(dv.take(i + 1).drop_last() =~= dv.take(i as int));
                assert(dv.take(i + 1).last() == dv[i as int]);
            }
            i = i + 1;
        }
        proof {
            assert(env_entries_view(entries@).take(entries@.len() as int)
                =~= env_entries_view(entries@));
        }
        RepoConfig {
            protected_branches: pb,
            protect_commit_count: pcc,
            protect_commit_age: age,
            stack: stack_v,
            push_remote: push_v,
            pull_remote: pull_v,
            show_format: fmt_v,
            show_stacked: stacked_v,
            auto_fixup: fixup_v,
            auto_repair: repair_v,
            capacity: cap,
        }
    }

    /// Reads configuration from git's environment protocol: first the
    /// parameters passed down by a parent git process, then the counted
    /// key/value variables, the latter over the former.  Which pairs the
    /// environment holds cannot be pinned down, but whatever came back, the
    /// result is those two pair lists typed by `from_env_iter` and folded
    /// over an empty layer in that order.
    pub fn from_env() -> (r: RepoConfig)
        ensures
            exists|
                params: Seq<(Seq<char>, Option<Seq<char>>)>,
                pairs: Seq<(Seq<char>, Option<Seq<char>>)>,
            |
                r@ == updated(
                    updated(
                        RepoConfig::empty_spec()@,
                        #[trigger] env_fold(RepoConfig::empty_spec()@, params),
                    ),
                    #[trigger] env_fold(RepoConfig::empty_spec()@, pairs),
                ),
    {
        let params = read_env_config_parameters();
        let ghost w1 = env_entries_view(params@);
        let config = RepoConfig::default().update(Self::from_env_iter(params));
        let pairs = read_env_config_pairs();
        let mut entries: Vec<(String, Option<String>)> = Vec::new();
        let mut i: usize = 0;
        while i < pairs.len()
            invariant
                i <= pairs.len(),
            decreases pairs.len() - i,
        {
            entries.push((pairs[i].0.clone(), Some(pairs[i].1.clone())));
            i = i + 1;
        }
        let ghost w2 = env_entries_view(entries@);
        let r = config.update(Self::from_env_iter(entries));
        proof {
            assert(r@ == updated(
                updated(RepoConfig::empty_spec()@, env_fold(RepoConfig::empty_spec()@, w1)),
                env_fold(RepoConfig::empty_spec()@, w2),
            ));
        }
        r
    }
}

} // verus!
