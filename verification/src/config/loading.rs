//! What a registry must be to be used, and what is said of one that is not.

use vstd::prelude::*;
use vstd::string::*;

use crate::bind::{same_place, same_remote};
use crate::config::{expand_registry_path, expanded, trunk_of, Registry, RepoEntry, NO_HOME};
use crate::forge_cache::path_syntax;
use crate::ids::RELEASE_PREFIX;
use crate::order::OrdMap;
use crate::pieces::{lemma_next_at, next_at, split_once};
use crate::seqs::{group_seqs, lemma_filter_map_has, lemma_filter_next, lemma_take_next, view_of, views};
use crate::sorting::{sort_texts, sorted, text_rank};
use crate::text::{begins_with, contains, contains_text, debug_text, join, joined, lists, quoted, same, starts_with};

verus! {

/// Why a registry cannot be used.
#[derive(Debug, PartialEq, Eq)]
pub enum ConfigError {
    Read { path: String, source: String },
    Parse { path: String, source: String },
    Invalid { path: String, detail: String },
}

impl ConfigError {
    /// The error in words.
    pub open spec fn text(self) -> Seq<char> {
        match self {
            ConfigError::Read { path, source } => "reading "@ + path@ + ": "@ + source@,
            ConfigError::Parse { path, source } => path@ + " is not a valid registry: "@ + source@,
            ConfigError::Invalid { path, detail } => path@ + " is not a valid registry: "@ + detail@,
        }
    }

    /// The error in words.
    pub fn message(&self) -> (text: String)
        ensures
            text@ == self.text(),
    {
        match self {
            ConfigError::Read { path, source } => {
                let mut text = "reading ".to_owned();
                text.append(path.as_str());
                text.append(": ");
                text.append(source.as_str());
                text
            },
            ConfigError::Parse { path, source } => {
                let mut text = path.clone();
                text.append(" is not a valid registry: ");
                text.append(source.as_str());
                text
            },
            ConfigError::Invalid { path, detail } => {
                let mut text = path.clone();
                text.append(" is not a valid registry: ");
                text.append(detail.as_str());
                text
            },
        }
    }
}

/// The first of two answers, where it says anything.
pub open spec fn either(a: Option<Seq<char>>, b: Option<Seq<char>>) -> Option<Seq<char>> {
    if a is Some {
        a
    } else {
        b
    }
}

/// Whether a name can stand as one component of a path.
pub open spec fn safe_key(name: Seq<char>) -> bool {
    name.len() > 0 && name != "."@ && name != ".."@ && !contains_text(name, "/"@) && !contains_text(name, "\\"@)
}

/// What is wrong with the first name, from `from` on, that cannot stand in a path.
pub open spec fn key_fault(repos: Seq<(String, RepoEntry)>, from: int) -> Option<Seq<char>>
    decreases repos.len() - from,
{
    if from >= repos.len() {
        None
    } else if !safe_key(repos[from].0@) {
        Some("repository key "@ + debug_text(repos[from].0@) + " is not a safe path component"@)
    } else {
        key_fault(repos, from + 1)
    }
}

fn is_safe_key(name: &str) -> (r: bool)
    ensures
        r == safe_key(name@),
{
    proof {
        reveal_strlit("");
        if name@.len() == 0 {
            assert(name@ =~= ""@);
        }
    }
    !same(name, "") && !same(name, ".") && !same(name, "..") && !contains(name, "/") && !contains(name, "\\")
}

fn check_keys(repos: &OrdMap<String, RepoEntry>) -> (fault: Option<String>)
    ensures
        view_of(fault) == key_fault(repos@, 0),
{
    let mut i: usize = 0;
    while i < repos.len()
        invariant
            i <= repos@.len(),
            key_fault(repos@, 0) == key_fault(repos@, i as int),
        decreases repos@.len() - i,
    {
        let name = repos.key(i);
        if !is_safe_key(name.as_str()) {
            let mut fault = "repository key ".to_owned();
            fault.append(quoted(name.as_str()).as_str());
            fault.append(" is not a safe path component");
            return Some(fault);
        }
        i += 1;
    }
    None
}

/// The first entry, from `from` on, with the upstream of the entry at `at`.
pub open spec fn partner(repos: Seq<(String, RepoEntry)>, at: int, from: int) -> Option<int>
    decreases repos.len() - from,
{
    if from >= repos.len() {
        None
    } else if same_place(repos[at].1.upstream@, repos[from].1.upstream@) {
        Some(from)
    } else {
        partner(repos, at, from + 1)
    }
}

/// What is wrong with the first pair of entries, from `from` on, that name one repository.
///
/// Identity is the upstream remote, so two entries naming one repository could never both bind.
pub open spec fn shared_fault(repos: Seq<(String, RepoEntry)>, from: int) -> Option<Seq<char>>
    decreases repos.len() - from,
{
    if from >= repos.len() {
        None
    } else {
        match partner(repos, from, from + 1) {
            Some(other) => Some(
                "[repos."@ + repos[from].0@ + "] and [repos."@ + repos[other].0@ + "] share upstream "@
                    + repos[from].1.upstream@ + "; identity must be unique"@,
            ),
            None => shared_fault(repos, from + 1),
        }
    }
}

fn find_partner(repos: &OrdMap<String, RepoEntry>, at: usize) -> (other: Option<usize>)
    requires
        at < repos@.len(),
    ensures
        match other {
            Some(other) => other < repos@.len() && partner(repos@, at as int, at + 1) == Some(other as int),
            None => partner(repos@, at as int, at + 1) is None,
        },
{
    let count = repos.len();
    let mut i: usize = at + 1;
    while i < count
        invariant
            at < repos@.len(),
            count == repos@.len(),
            i <= repos@.len(),
            partner(repos@, at as int, at + 1) == partner(repos@, at as int, i as int),
        decreases repos@.len() - i,
    {
        if same_remote(repos.value(at).upstream.as_str(), repos.value(i).upstream.as_str()) {
            return Some(i);
        }
        i += 1;
    }
    None
}

fn reject_shared_upstreams(repos: &OrdMap<String, RepoEntry>) -> (fault: Option<String>)
    ensures
        view_of(fault) == shared_fault(repos@, 0),
{
    let count = repos.len();
    let mut i: usize = 0;
    while i < count
        invariant
            count == repos@.len(),
            i <= repos@.len(),
            shared_fault(repos@, 0) == shared_fault(repos@, i as int),
        decreases repos@.len() - i,
    {
        if let Some(other) = find_partner(repos, i) {
            let mut fault = "[repos.".to_owned();
            fault.append(repos.key(i).as_str());
            fault.append("] and [repos.");
            fault.append(repos.key(other).as_str());
            fault.append("] share upstream ");
            fault.append(repos.value(i).upstream.as_str());
            fault.append("; identity must be unique");
            return Some(fault);
        }
        i += 1;
    }
    None
}

/// Whether a path starts at the home directory.
pub open spec fn from_home(path: Seq<char>) -> bool {
    path == "~"@ || begins_with(path, "~/"@)
}

/// What is said of an entry whose workspaces need a home directory.
pub open spec fn homeless_entry() -> spec_fn((String, RepoEntry)) -> Option<Seq<char>> {
    |entry: (String, RepoEntry)|
        match entry.1.workspaces {
            Some(path) => if from_home(path@) {
                Some("[repos."@ + entry.0@ + "] workspaces = \""@ + path@ + "\" needs HOME"@)
            } else {
                None
            },
            None => None,
        }
}

/// What is said of a root that needs a home directory.
pub open spec fn homeless_root() -> spec_fn(Seq<char>) -> Option<Seq<char>> {
    |root: Seq<char>|
        if from_home(root) {
            Some("[trust] roots = \""@ + root + "\" needs HOME"@)
        } else {
            None
        }
}

/// Everything in a registry that needs a home directory, in words.
pub open spec fn homeless(registry: Registry) -> Seq<Seq<char>> {
    registry.repos@.filter_map(homeless_entry()) + views(registry.trust.roots@).filter_map(homeless_root())
}

/// What is wrong with a registry that needs a home directory where there is none. Left unexpanded, a
/// tilde would be a relative path, and workspaces would open below the current directory.
pub open spec fn home_fault(registry: Registry, home: Option<Seq<char>>) -> Option<Seq<char>> {
    if home is Some || homeless(registry).len() == 0 {
        None
    } else {
        Some(NO_HOME@ + ": "@ + joined(homeless(registry), "; "@))
    }
}

fn needs_home(path: &str) -> (r: bool)
    ensures
        r == from_home(path@),
{
    same(path, "~") || starts_with(path, "~/")
}

fn homeless_paths(registry: &Registry) -> (lines: Vec<String>)
    ensures
        views(lines@) == homeless(*registry),
{
    broadcast use group_seqs;

    let mut lines: Vec<String> = Vec::new();
    let repos = &registry.repos;
    let mut i: usize = 0;
    while i < repos.len()
        invariant
            i <= repos@.len(),
            views(lines@) == repos@.take(i as int).filter_map(homeless_entry()),
        decreases repos@.len() - i,
    {
        proof {
            repos@.lemma_filter_map_take_succ(homeless_entry(), i as int);
        }
        if let Some(path) = &repos.value(i).workspaces {
            if needs_home(path.as_str()) {
                let mut line = "[repos.".to_owned();
                line.append(repos.key(i).as_str());
                line.append("] workspaces = \"");
                line.append(path.as_str());
                line.append("\" needs HOME");
                lines.push(line);
            }
        }
        assert(views(lines@) =~= repos@.take(i + 1).filter_map(homeless_entry()));
        i += 1;
    }
    let ghost first = views(lines@);
    let roots = &registry.trust.roots;
    let ghost all = views(roots@);
    let mut k: usize = 0;
    while k < roots.len()
        invariant
            k <= roots@.len(),
            all == views(roots@),
            views(lines@) == first + all.take(k as int).filter_map(homeless_root()),
        decreases roots@.len() - k,
    {
        proof {
            all.lemma_filter_map_take_succ(homeless_root(), k as int);
            assert(all[k as int] == roots@[k as int]@);
        }
        if needs_home(roots[k].as_str()) {
            let mut line = "[trust] roots = \"".to_owned();
            line.append(roots[k].as_str());
            line.append("\" needs HOME");
            let ghost earlier = lines@;
            lines.push(line);
            assert(homeless_root()(all[k as int]) == Some(line@));
            assert(views(lines@) =~= views(earlier).push(line@));
        }
        assert(views(lines@) =~= first + all.take(k + 1).filter_map(homeless_root()));
        k += 1;
    }
    lines
}

fn reject_tilde_paths_without_a_home(registry: &Registry, home: Option<&str>) -> (fault: Option<String>)
    ensures
        view_of(fault) == home_fault(*registry, view_of(home)),
{
    if home.is_some() {
        return None;
    }
    let offending = homeless_paths(registry);
    assert(views(offending@).len() == offending@.len());
    if offending.len() == 0 {
        return None;
    }
    let mut fault = NO_HOME.to_owned();
    fault.append(": ");
    fault.append(join(&offending, "; ").as_str());
    Some(fault)
}

/// What is wrong with the workspaces of an entry: an empty path would resolve to the config home
/// itself, putting every branch workspace beside the state.
pub open spec fn workspaces_fault(name: Seq<char>, entry: RepoEntry) -> Option<Seq<char>> {
    match entry.workspaces {
        Some(path) => if path@.len() == 0 {
            Some("[repos."@ + name + "] workspaces is empty; name a directory or omit it"@)
        } else {
            None
        },
        None => None,
    }
}

/// What is wrong with a remote that reads like an option.
pub open spec fn option_fault(role: Seq<char>, remote: Seq<char>) -> Option<Seq<char>> {
    if begins_with(remote, "-"@) {
        Some(role + " remote "@ + debug_text(remote) + " must not start with `-`"@)
    } else {
        None
    }
}

/// What is wrong with the remotes of an entry.
pub open spec fn remotes_fault(entry: RepoEntry) -> Option<Seq<char>> {
    either(
        option_fault("upstream"@, entry.upstream@),
        either(
            option_fault("origin"@, entry.origin@),
            match entry.release {
                Some(release) => option_fault("release"@, release@),
                None => None,
            },
        ),
    )
}

/// What is wrong with the release branch of an entry. One named for the trunk would make every trunk
/// exclusion also exclude the release, and one under the dated prefix would collide with the dated
/// scheme's namespace.
pub open spec fn branch_fault(entry: RepoEntry) -> Option<Seq<char>> {
    match entry.release_branch {
        Some(name) => if name@.len() == 0 {
            Some("release_branch is empty; a fixed release scheme needs a branch name"@)
        } else if name@ == trunk_of(entry) {
            Some(
                "release_branch "@ + debug_text(name@)
                    + " names the trunk; a release branch shadowing the trunk corrupts every trunk exclusion"@,
            )
        } else if begins_with(name@, RELEASE_PREFIX@) {
            Some(
                "release_branch "@ + debug_text(name@) + " sits in the dated "@ + RELEASE_PREFIX@
                    + " namespace; the two schemes must not collide"@,
            )
        } else {
            None
        },
        None => None,
    }
}

/// Whether a text is a forge slug: an owner and a repository with one slash between them, neither
/// written like a path.
pub open spec fn forge_slug(value: Seq<char>) -> bool {
    let k = next_at(value, '/', 0);
    k < value.len() && !path_syntax(value.take(k)) && !path_syntax(value.skip(k + 1)) && !contains_text(
        value.skip(k + 1),
        "/"@,
    )
}

/// Whether a text is a forge slug.
pub fn is_forge_slug(value: &str) -> (r: bool)
    ensures
        r == forge_slug(value@),
{
    match split_once(value, '/') {
        Some((owner, repository)) => {
            !crate::forge_cache::has_path_syntax(owner.as_str()) && !crate::forge_cache::has_path_syntax(
                repository.as_str(),
            ) && !contains(repository.as_str(), "/")
        },
        None => false,
    }
}

/// What is wrong with the first consumer, from `from` on, that is no forge slug.
pub open spec fn consumer_fault(name: Seq<char>, consumers: Seq<String>, from: int) -> Option<Seq<char>>
    decreases consumers.len() - from,
{
    if from >= consumers.len() {
        None
    } else if !forge_slug(consumers[from]@) {
        Some(
            "repos.toml: [repos."@ + name + "] consumers now takes forge slugs (\"<owner>/<repo>\"); found \""@
                + consumers[from]@ + "\". Scan a local checkout with --consumer <path> instead."@,
        )
    } else {
        consumer_fault(name, consumers, from + 1)
    }
}

/// What is wrong with an entry.
pub open spec fn entry_fault(name: Seq<char>, entry: RepoEntry) -> Option<Seq<char>> {
    either(
        workspaces_fault(name, entry),
        either(
            remotes_fault(entry),
            either(branch_fault(entry), consumer_fault(name, entry.consumers@, 0)),
        ),
    )
}

/// What is wrong with the first entry, from `from` on, that has a fault.
pub open spec fn entries_fault(repos: Seq<(String, RepoEntry)>, from: int) -> Option<Seq<char>>
    decreases repos.len() - from,
{
    if from >= repos.len() {
        None
    } else {
        either(entry_fault(repos[from].0@, repos[from].1), entries_fault(repos, from + 1))
    }
}

/// What is wrong with the first trusted repository, from `from` on, that is no forge slug.
pub open spec fn trust_fault(repos: Seq<String>, from: int) -> Option<Seq<char>>
    decreases repos.len() - from,
{
    if from >= repos.len() {
        None
    } else if !forge_slug(repos[from]@) {
        Some("[trust] repos takes forge slugs (\"<owner>/<repo>\"); found \""@ + repos[from]@ + "\""@)
    } else {
        trust_fault(repos, from + 1)
    }
}

/// What is wrong with a registry: its names, its identities, its paths, its entries, its trust.
pub open spec fn registry_fault(registry: Registry, home: Option<Seq<char>>) -> Option<Seq<char>> {
    either(
        key_fault(registry.repos@, 0),
        either(
            shared_fault(registry.repos@, 0),
            either(
                home_fault(registry, home),
                either(entries_fault(registry.repos@, 0), trust_fault(registry.trust.repos@, 0)),
            ),
        ),
    )
}

/// What the commands can count on in an entry.
pub open spec fn usable(entry: RepoEntry) -> bool {
    &&& match entry.release_branch {
        Some(name) => name@.len() > 0 && name@ != trunk_of(entry) && !begins_with(name@, RELEASE_PREFIX@),
        None => true,
    }
    &&& match entry.workspaces {
        Some(path) => path@.len() > 0,
        None => true,
    }
    &&& !begins_with(entry.upstream@, "-"@)
    &&& !begins_with(entry.origin@, "-"@)
    &&& match entry.release {
        Some(release) => !begins_with(release@, "-"@),
        None => true,
    }
    &&& forall|i: int| 0 <= i < entry.consumers@.len() ==> forge_slug(#[trigger] entry.consumers@[i]@)
}

proof fn lemma_safe_keys(repos: Seq<(String, RepoEntry)>, from: int)
    requires
        0 <= from,
        key_fault(repos, from) is None,
    ensures
        forall|i: int| from <= i < repos.len() ==> safe_key((#[trigger] repos[i]).0@),
    decreases repos.len() - from,
{
    if from < repos.len() {
        lemma_safe_keys(repos, from + 1);
    }
}

proof fn lemma_no_partner(repos: Seq<(String, RepoEntry)>, at: int, from: int)
    requires
        0 <= from,
        partner(repos, at, from) is None,
    ensures
        forall|j: int|
            from <= j < repos.len() ==> !same_place(repos[at].1.upstream@, (#[trigger] repos[j]).1.upstream@),
    decreases repos.len() - from,
{
    if from < repos.len() {
        lemma_no_partner(repos, at, from + 1);
    }
}

proof fn lemma_no_shared(repos: Seq<(String, RepoEntry)>, from: int)
    requires
        0 <= from,
        shared_fault(repos, from) is None,
    ensures
        forall|i: int, j: int|
            from <= i < j < repos.len() ==> !same_place(
                (#[trigger] repos[i]).1.upstream@,
                (#[trigger] repos[j]).1.upstream@,
            ),
    decreases repos.len() - from,
{
    if from < repos.len() {
        lemma_no_partner(repos, from, from + 1);
        lemma_no_shared(repos, from + 1);
    }
}

proof fn lemma_slugs(name: Seq<char>, consumers: Seq<String>, from: int)
    requires
        0 <= from,
        consumer_fault(name, consumers, from) is None,
    ensures
        forall|i: int| from <= i < consumers.len() ==> forge_slug(#[trigger] consumers[i]@),
    decreases consumers.len() - from,
{
    if from < consumers.len() {
        lemma_slugs(name, consumers, from + 1);
    }
}

proof fn lemma_usable_entries(repos: Seq<(String, RepoEntry)>, from: int)
    requires
        0 <= from,
        entries_fault(repos, from) is None,
    ensures
        forall|i: int| from <= i < repos.len() ==> usable((#[trigger] repos[i]).1),
    decreases repos.len() - from,
{
    if from < repos.len() {
        lemma_slugs(repos[from].0@, repos[from].1.consumers@, 0);
        lemma_usable_entries(repos, from + 1);
    }
}

/// In a registry without a fault every name can stand in a path, every entry is usable, and no two
/// entries name one repository: identity is unique, and no release branch shadows a trunk or sits
/// among the dated ones.
pub proof fn lemma_accepted_registry(registry: Registry, home: Option<Seq<char>>)
    requires
        registry_fault(registry, home) is None,
    ensures
        forall|i: int|
            0 <= i < registry.repos@.len() ==> safe_key((#[trigger] registry.repos@[i]).0@) && usable(
                registry.repos@[i].1,
            ),
        forall|i: int, j: int|
            0 <= i < j < registry.repos@.len() ==> !same_place(
                (#[trigger] registry.repos@[i]).1.upstream@,
                (#[trigger] registry.repos@[j]).1.upstream@,
            ),
{
    lemma_safe_keys(registry.repos@, 0);
    lemma_no_shared(registry.repos@, 0);
    lemma_usable_entries(registry.repos@, 0);
}

fn check_workspaces(name: &str, entry: &RepoEntry) -> (fault: Option<String>)
    ensures
        view_of(fault) == workspaces_fault(name@, *entry),
{
    if let Some(path) = &entry.workspaces {
        proof {
            reveal_strlit("");
            if path@.len() == 0 {
                assert(path@ =~= ""@);
            }
        }
        if same(path.as_str(), "") {
            let mut fault = "[repos.".to_owned();
            fault.append(name);
            fault.append("] workspaces is empty; name a directory or omit it");
            return Some(fault);
        }
    }
    None
}

fn check_remote(role: &str, remote: &str) -> (fault: Option<String>)
    ensures
        view_of(fault) == option_fault(role@, remote@),
{
    if !starts_with(remote, "-") {
        return None;
    }
    let mut fault = role.to_owned();
    fault.append(" remote ");
    fault.append(quoted(remote).as_str());
    fault.append(" must not start with `-`");
    Some(fault)
}

fn check_remotes(entry: &RepoEntry) -> (fault: Option<String>)
    ensures
        view_of(fault) == remotes_fault(*entry),
{
    if let Some(fault) = check_remote("upstream", entry.upstream.as_str()) {
        return Some(fault);
    }
    if let Some(fault) = check_remote("origin", entry.origin.as_str()) {
        return Some(fault);
    }
    match &entry.release {
        Some(release) => check_remote("release", release.as_str()),
        None => None,
    }
}

fn checked_release_branch(entry: &RepoEntry) -> (fault: Option<String>)
    ensures
        view_of(fault) == branch_fault(*entry),
{
    let name = match &entry.release_branch {
        Some(name) => name,
        None => return None,
    };
    proof {
        reveal_strlit("");
        if name@.len() == 0 {
            assert(name@ =~= ""@);
        }
    }
    if same(name.as_str(), "") {
        return Some("release_branch is empty; a fixed release scheme needs a branch name".to_owned());
    }
    let mut fault = "release_branch ".to_owned();
    fault.append(quoted(name.as_str()).as_str());
    if same(name.as_str(), entry.trunk()) {
        fault.append(" names the trunk; a release branch shadowing the trunk corrupts every trunk exclusion");
        return Some(fault);
    }
    if starts_with(name.as_str(), RELEASE_PREFIX) {
        fault.append(" sits in the dated ");
        fault.append(RELEASE_PREFIX);
        fault.append(" namespace; the two schemes must not collide");
        return Some(fault);
    }
    None
}

fn check_consumers(name: &str, consumers: &Vec<String>) -> (fault: Option<String>)
    ensures
        view_of(fault) == consumer_fault(name@, consumers@, 0),
{
    let mut i: usize = 0;
    while i < consumers.len()
        invariant
            i <= consumers@.len(),
            consumer_fault(name@, consumers@, 0) == consumer_fault(name@, consumers@, i as int),
        decreases consumers@.len() - i,
    {
        if !is_forge_slug(consumers[i].as_str()) {
            let mut fault = "repos.toml: [repos.".to_owned();
            fault.append(name);
            fault.append("] consumers now takes forge slugs (\"<owner>/<repo>\"); found \"");
            fault.append(consumers[i].as_str());
            fault.append("\". Scan a local checkout with --consumer <path> instead.");
            return Some(fault);
        }
        i += 1;
    }
    None
}

fn check_entry(name: &str, entry: &RepoEntry) -> (fault: Option<String>)
    ensures
        view_of(fault) == entry_fault(name@, *entry),
{
    if let Some(fault) = check_workspaces(name, entry) {
        return Some(fault);
    }
    if let Some(fault) = check_remotes(entry) {
        return Some(fault);
    }
    if let Some(fault) = checked_release_branch(entry) {
        return Some(fault);
    }
    check_consumers(name, &entry.consumers)
}

fn check_entries(repos: &OrdMap<String, RepoEntry>) -> (fault: Option<String>)
    ensures
        view_of(fault) == entries_fault(repos@, 0),
{
    let mut i: usize = 0;
    while i < repos.len()
        invariant
            i <= repos@.len(),
            entries_fault(repos@, 0) == entries_fault(repos@, i as int),
        decreases repos@.len() - i,
    {
        if let Some(fault) = check_entry(repos.key(i).as_str(), repos.value(i)) {
            return Some(fault);
        }
        i += 1;
    }
    None
}

fn check_trust(repos: &Vec<String>) -> (fault: Option<String>)
    ensures
        view_of(fault) == trust_fault(repos@, 0),
{
    let mut i: usize = 0;
    while i < repos.len()
        invariant
            i <= repos@.len(),
            trust_fault(repos@, 0) == trust_fault(repos@, i as int),
        decreases repos@.len() - i,
    {
        if !is_forge_slug(repos[i].as_str()) {
            let mut fault = "[trust] repos takes forge slugs (\"<owner>/<repo>\"); found \"".to_owned();
            fault.append(repos[i].as_str());
            fault.append("\"");
            return Some(fault);
        }
        i += 1;
    }
    None
}

/// What is wrong with a registry.
pub fn check_registry(registry: &Registry, home: Option<&str>) -> (fault: Option<String>)
    ensures
        view_of(fault) == registry_fault(*registry, view_of(home)),
{
    if let Some(fault) = check_keys(&registry.repos) {
        return Some(fault);
    }
    if let Some(fault) = reject_shared_upstreams(&registry.repos) {
        return Some(fault);
    }
    if let Some(fault) = reject_tilde_paths_without_a_home(registry, home) {
        return Some(fault);
    }
    if let Some(fault) = check_entries(&registry.repos) {
        return Some(fault);
    }
    check_trust(&registry.trust.repos)
}

/// What a document in the TOML format holds under a name: the keys of the table, or of the table
/// under `entry` in it, in the order of the document's map. Nothing where the text is no such
/// document or holds no such table.
pub uninterp spec fn table_keys(text: Seq<char>, section: Seq<char>, entry: Option<Seq<char>>) -> Option<
    Seq<Seq<char>>,
>;

/// The views of a list that may be absent.
pub open spec fn texts_of(list: Option<Vec<String>>) -> Option<Seq<Seq<char>>> {
    match list {
        Some(list) => Some(views(list@)),
        None => None,
    }
}

/// `str::parse::<toml::Table>` of the `toml` crate, and of the table the keys of the table under
/// `section`, or of the one under `entry` in that. Parsing reads the text and nothing else, so the
/// same arguments always give the same keys; which texts are documents is not said here.
#[verifier::external_body]
fn keys_at(text: &str, section: &str, entry: Option<&str>) -> (keys: Option<Vec<String>>)
    ensures
        texts_of(keys) == table_keys(text@, section@, view_of(entry)),
{
    let document = text.parse::<toml::Table>().ok()?;
    let table = document.get(section)?.as_table()?;
    let table = match entry {
        Some(name) => table.get(name)?.as_table()?,
        None => table,
    };
    Some(table.keys().cloned().collect())
}

/// What is said of a table that left the registry, by the names under it: its first name, and what
/// replaced it.
pub open spec fn trusted_rejection(names: Option<Seq<Seq<char>>>) -> Option<Seq<char>> {
    match names {
        Some(names) => if names.len() > 0 {
            Some(
                "[trusted."@ + names[0]
                    + "] is no longer a registry table; move it to [trust] repos = [\"<owner>/<repo>\"]"@,
            )
        } else {
            None
        },
        None => None,
    }
}

/// What is said of a table that left the registry.
pub fn deleted_trusted_table(names: Option<&Vec<String>>) -> (rejection: Option<String>)
    ensures
        view_of(rejection) == trusted_rejection(
            match names {
                Some(names) => Some(views(names@)),
                None => None,
            },
        ),
{
    let names = match names {
        Some(names) => names,
        None => return None,
    };
    assert(views(names@).len() == names@.len());
    if names.len() == 0 {
        return None;
    }
    assert(views(names@)[0] == names@[0]@);
    let mut rejection = "[trusted.".to_owned();
    rejection.append(names[0].as_str());
    rejection.append("] is no longer a registry table; move it to [trust] repos = [\"<owner>/<repo>\"]");
    Some(rejection)
}

/// The heading of an entry.
pub open spec fn headings(names: Seq<Seq<char>>) -> Seq<Seq<char>> {
    Seq::new(names.len(), |i: int| "[repos."@ + names[i] + "]"@)
}

/// What is said of entries with a field that left the registry: every one of them by name, in order,
/// and what replaced the field.
pub open spec fn path_rejection(names: Seq<Seq<char>>) -> Option<Seq<char>> {
    if names.len() == 0 {
        None
    } else {
        Some(
            joined(headings(sorted(names, text_rank())), ", "@)
                + " path is no longer a registry field; delete it — knives finds checkouts by their remotes"@,
        )
    }
}

/// What is said of entries with a field that left the registry.
pub fn deleted_path_field(names: Vec<String>) -> (rejection: Option<String>)
    ensures
        view_of(rejection) == path_rejection(views(names@)),
{
    broadcast use group_seqs;

    assert(views(names@).len() == names@.len());
    if names.len() == 0 {
        return None;
    }
    let mut names = names;
    sort_texts(&mut names);
    let mut parts: Vec<String> = Vec::new();
    let ghost all = headings(views(names@));
    let mut i: usize = 0;
    while i < names.len()
        invariant
            i <= names@.len(),
            all == headings(views(names@)),
            views(parts@) == all.take(i as int),
        decreases names@.len() - i,
    {
        proof {
            lemma_take_next(all, i as int);
            assert(views(names@)[i as int] == names@[i as int]@);
        }
        let mut part = "[repos.".to_owned();
        part.append(names[i].as_str());
        part.append("]");
        parts.push(part);
        i += 1;
    }
    let mut rejection = join(&parts, ", ");
    rejection.append(" path is no longer a registry field; delete it — knives finds checkouts by their remotes");
    Some(rejection)
}

/// Whether an entry of a document states a field.
pub open spec fn states(text: Seq<char>, field: Seq<char>) -> spec_fn(Seq<char>) -> bool {
    |name: Seq<char>|
        match table_keys(text, "repos"@, Some(name)) {
            Some(keys) => keys.contains(field),
            None => false,
        }
}

/// The entries of a document that state a field.
pub open spec fn stating(text: Seq<char>, field: Seq<char>) -> Seq<Seq<char>> {
    match table_keys(text, "repos"@, None) {
        Some(names) => names.filter(states(text, field)),
        None => Seq::empty(),
    }
}

/// What is said of a document that is no registry any more.
pub open spec fn rejection_of(text: Seq<char>) -> Option<Seq<char>> {
    let table = trusted_rejection(table_keys(text, "trusted"@, None));
    let field = path_rejection(stating(text, "path"@));
    match (table, field) {
        (Some(a), Some(b)) => Some(a + "; "@ + b),
        (Some(a), None) => Some(a),
        (None, b) => b,
    }
}

fn entries_stating(text: &str, field: &str) -> (names: Vec<String>)
    ensures
        views(names@) == stating(text@, field@),
{
    broadcast use group_seqs;

    let mut names: Vec<String> = Vec::new();
    if let Some(entries) = keys_at(text, "repos", None) {
        let ghost all = views(entries@);
        let mut i: usize = 0;
        while i < entries.len()
            invariant
                i <= entries@.len(),
                all == views(entries@),
                views(names@) == all.take(i as int).filter(states(text@, field@)),
            decreases entries@.len() - i,
        {
            proof {
                lemma_filter_next(all, states(text@, field@), i as int);
                assert(all[i as int] == entries@[i as int]@);
            }
            let stated = match keys_at(text, "repos", Some(entries[i].as_str())) {
                Some(keys) => lists(&keys, field),
                None => false,
            };
            if stated {
                names.push(entries[i].clone());
            }
            i += 1;
        }
    }
    names
}

/// What is said of a document that is no registry any more: a deleted table or field by name, with
/// what replaced it, and both where both remain. Nothing where neither does.
pub fn rejection(text: &str) -> (said: Option<String>)
    ensures
        view_of(said) == rejection_of(text@),
{
    let trusted = keys_at(text, "trusted", None);
    let table = deleted_trusted_table(trusted.as_ref());
    let field = deleted_path_field(entries_stating(text, "path"));
    match (table, field) {
        (Some(table), Some(field)) => {
            let mut both = table;
            both.append("; ");
            both.append(field.as_str());
            Some(both)
        },
        (Some(table), None) => Some(table),
        (None, field) => field,
    }
}

/// What reading the registry's file gave.
#[derive(Debug)]
pub enum RegistryRead {
    /// There is no such file.
    Missing,
    /// The file could not be read.
    Unreadable(String),
    /// The file holds a text that does not decode as a registry.
    Malformed { text: String, error: String },
    /// The file holds a registry.
    Parsed(Registry),
}

/// Whether an entry is another one with its workspaces expanded.
pub open spec fn expanded_entry(
    after: RepoEntry,
    before: RepoEntry,
    config_home: Seq<char>,
    home: Option<Seq<char>>,
) -> bool {
    &&& after.upstream == before.upstream
    &&& after.origin == before.origin
    &&& after.base == before.base
    &&& after.release == before.release
    &&& after.release_branch == before.release_branch
    &&& after.test_count_command == before.test_count_command
    &&& after.consumers@ == before.consumers@
    &&& view_of(after.workspaces) == match before.workspaces {
        Some(path) => Some(expanded(path@, config_home, home)),
        None => None,
    }
}

/// Whether a registry is another one with its paths expanded.
pub open spec fn expanded_registry(
    after: Registry,
    before: Registry,
    config_home: Seq<char>,
    home: Option<Seq<char>>,
) -> bool {
    &&& after.repos@.len() == before.repos@.len()
    &&& forall|i: int|
        0 <= i < after.repos@.len() ==> (#[trigger] after.repos@[i]).0 == before.repos@[i].0 && expanded_entry(
            after.repos@[i].1,
            before.repos@[i].1,
            config_home,
            home,
        )
    &&& after.trust.repos == before.trust.repos
    &&& after.trust.owners == before.trust.owners
    &&& after.trust.roots@.len() == before.trust.roots@.len()
    &&& forall|i: int|
        0 <= i < after.trust.roots@.len() ==> (#[trigger] after.trust.roots@[i])@ == expanded(
            before.trust.roots@[i]@,
            config_home,
            home,
        )
}

fn expand_entries(repos: &mut OrdMap<String, RepoEntry>, config_home: &str, home: Option<&str>)
    ensures
        final(repos)@.len() == old(repos)@.len(),
        forall|i: int|
            0 <= i < final(repos)@.len() ==> (#[trigger] final(repos)@[i]).0 == old(repos)@[i].0
                && expanded_entry(final(repos)@[i].1, old(repos)@[i].1, config_home@, view_of(home)),
{
    let ghost start = repos@;
    let mut i: usize = 0;
    while i < repos.len()
        invariant
            i <= repos@.len(),
            repos@.len() == start.len(),
            forall|j: int|
                0 <= j < i ==> (#[trigger] repos@[j]).0 == start[j].0 && expanded_entry(
                    repos@[j].1,
                    start[j].1,
                    config_home@,
                    view_of(home),
                ),
            forall|j: int| i <= j < repos@.len() ==> #[trigger] repos@[j] == start[j],
        decreases repos@.len() - i,
    {
        assert(repos@[i as int] == start[i as int]);
        let mut entry = repos.value(i).clone();
        if let Some(path) = &repos.value(i).workspaces {
            entry.workspaces = Some(expand_registry_path(path.as_str(), config_home, home));
        }
        assert(expanded_entry(entry, start[i as int].1, config_home@, view_of(home)));
        repos.replace(i, entry);
        i += 1;
    }
}

fn expand_roots(roots: &mut Vec<String>, config_home: &str, home: Option<&str>)
    ensures
        final(roots)@.len() == old(roots)@.len(),
        forall|i: int|
            0 <= i < final(roots)@.len() ==> (#[trigger] final(roots)@[i])@ == expanded(
                old(roots)@[i]@,
                config_home@,
                view_of(home),
            ),
{
    let ghost start = roots@;
    let mut i: usize = 0;
    while i < roots.len()
        invariant
            i <= roots@.len(),
            roots@.len() == start.len(),
            forall|j: int|
                0 <= j < i ==> (#[trigger] roots@[j])@ == expanded(start[j]@, config_home@, view_of(home)),
            forall|j: int| i <= j < roots@.len() ==> #[trigger] roots@[j] == start[j],
        decreases roots@.len() - i,
    {
        assert(roots@[i as int] == start[i as int]);
        let root = expand_registry_path(roots[i].as_str(), config_home, home);
        roots[i] = root;
        i += 1;
    }
}

/// The registry, by what reading its file gave. A missing file is an empty registry, which the
/// commands surface explicitly rather than treating as nothing to do. A registry that can be used
/// comes back with its paths expanded.
pub fn load(path: &str, read: RegistryRead, config_home: &str, home: Option<&str>) -> (registry: Result<
    Registry,
    ConfigError,
>)
    ensures
        match registry {
            Ok(registry) => match read {
                RegistryRead::Missing => registry.repos@.len() == 0 && registry.trust.repos@.len() == 0
                    && registry.trust.roots@.len() == 0 && registry.trust.owners@.len() == 0,
                RegistryRead::Parsed(parsed) => registry_fault(parsed, view_of(home)) is None
                    && expanded_registry(registry, parsed, config_home@, view_of(home)),
                _ => false,
            },
            Err(ConfigError::Read { path: named, source }) => named@ == path@ && match read {
                RegistryRead::Unreadable(error) => source == error,
                _ => false,
            },
            Err(ConfigError::Parse { path: named, source }) => named@ == path@ && match read {
                RegistryRead::Malformed { text, error } => rejection_of(text@) is None && source == error,
                _ => false,
            },
            Err(ConfigError::Invalid { path: named, detail }) => named@ == path@ && match read {
                RegistryRead::Malformed { text, error } => rejection_of(text@) == Some(detail@),
                RegistryRead::Parsed(parsed) => registry_fault(parsed, view_of(home)) == Some(detail@),
                _ => false,
            },
        },
{
    match read {
        RegistryRead::Missing => Ok(Registry::default()),
        RegistryRead::Unreadable(source) => Err(ConfigError::Read { path: path.to_owned(), source }),
        RegistryRead::Malformed { text, error } => match rejection(text.as_str()) {
            Some(detail) => Err(ConfigError::Invalid { path: path.to_owned(), detail }),
            None => Err(ConfigError::Parse { path: path.to_owned(), source: error }),
        },
        RegistryRead::Parsed(registry) => {
            if let Some(detail) = check_registry(&registry, home) {
                return Err(ConfigError::Invalid { path: path.to_owned(), detail });
            }
            let mut registry = registry;
            expand_entries(&mut registry.repos, config_home, home);
            expand_roots(&mut registry.trust.roots, config_home, home);
            Ok(registry)
        },
    }
}

proof fn lemma_key_fault(repos: Seq<(String, RepoEntry)>, from: int)
    requires
        0 <= from,
        forall|i: int| from <= i < repos.len() ==> safe_key((#[trigger] repos[i]).0@),
    ensures
        key_fault(repos, from) is None,
    decreases repos.len() - from,
{
    if from < repos.len() {
        assert(safe_key(repos[from].0@));
        lemma_key_fault(repos, from + 1);
    }
}

proof fn lemma_alone(repos: Seq<(String, RepoEntry)>, at: int, from: int)
    requires
        0 <= from,
        forall|j: int|
            from <= j < repos.len() ==> !same_place(repos[at].1.upstream@, (#[trigger] repos[j]).1.upstream@),
    ensures
        partner(repos, at, from) is None,
    decreases repos.len() - from,
{
    if from < repos.len() {
        assert(!same_place(repos[at].1.upstream@, repos[from].1.upstream@));
        lemma_alone(repos, at, from + 1);
    }
}

proof fn lemma_shared_fault(repos: Seq<(String, RepoEntry)>, from: int)
    requires
        0 <= from,
        forall|i: int, j: int|
            from <= i < j < repos.len() ==> !same_place(
                (#[trigger] repos[i]).1.upstream@,
                (#[trigger] repos[j]).1.upstream@,
            ),
    ensures
        shared_fault(repos, from) is None,
    decreases repos.len() - from,
{
    if from < repos.len() {
        assert forall|j: int| from + 1 <= j < repos.len() implies !same_place(
            repos[from].1.upstream@,
            (#[trigger] repos[j]).1.upstream@,
        ) by {
            let first = repos[from];
        }
        lemma_alone(repos, from, from + 1);
        lemma_shared_fault(repos, from + 1);
    }
}

proof fn lemma_consumer_fault(name: Seq<char>, consumers: Seq<String>, from: int)
    requires
        0 <= from,
        forall|i: int| from <= i < consumers.len() ==> forge_slug(#[trigger] consumers[i]@),
    ensures
        consumer_fault(name, consumers, from) is None,
    decreases consumers.len() - from,
{
    if from < consumers.len() {
        assert(forge_slug(consumers[from]@));
        lemma_consumer_fault(name, consumers, from + 1);
    }
}

proof fn lemma_entries_fault(repos: Seq<(String, RepoEntry)>, from: int)
    requires
        0 <= from,
        forall|i: int| from <= i < repos.len() ==> usable((#[trigger] repos[i]).1),
    ensures
        entries_fault(repos, from) is None,
    decreases repos.len() - from,
{
    if from < repos.len() {
        assert(usable(repos[from].1));
        lemma_consumer_fault(repos[from].0@, repos[from].1.consumers@, 0);
        lemma_entries_fault(repos, from + 1);
    }
}

proof fn lemma_trust_fault(repos: Seq<String>, from: int)
    requires
        0 <= from,
    ensures
        trust_fault(repos, from) is None <==> forall|i: int|
            from <= i < repos.len() ==> forge_slug((#[trigger] repos[i])@),
    decreases repos.len() - from,
{
    if from < repos.len() {
        lemma_trust_fault(repos, from + 1);
        if trust_fault(repos, from) is None {
            assert forall|i: int| from <= i < repos.len() implies forge_slug((#[trigger] repos[i])@) by {}
        }
        if forall|i: int| from <= i < repos.len() ==> forge_slug((#[trigger] repos[i])@) {
            assert(forge_slug(repos[from]@));
        }
    }
}

/// A registry is accepted where nothing speaks against it: its keys are safe, no two entries share an
/// upstream, no path needs a home that is not there, every entry is usable, and what it trusts are slugs.
pub proof fn lemma_good_registry_is_accepted(registry: Registry, home: Option<Seq<char>>)
    requires
        forall|i: int|
            0 <= i < registry.repos@.len() ==> safe_key((#[trigger] registry.repos@[i]).0@) && usable(
                registry.repos@[i].1,
            ),
        forall|i: int, j: int|
            0 <= i < j < registry.repos@.len() ==> !same_place(
                (#[trigger] registry.repos@[i]).1.upstream@,
                (#[trigger] registry.repos@[j]).1.upstream@,
            ),
        home is Some,
        forall|i: int| 0 <= i < registry.trust.repos@.len() ==> forge_slug((#[trigger] registry.trust.repos@[i])@),
    ensures
        registry_fault(registry, home) is None,
{
    lemma_key_fault(registry.repos@, 0);
    lemma_shared_fault(registry.repos@, 0);
    lemma_entries_fault(registry.repos@, 0);
    lemma_trust_fault(registry.trust.repos@, 0);
}

/// What a registry is refused for: a trusted repository that is no slug, and without a home directory a
/// path that begins with a tilde.
pub proof fn lemma_refused_registry(registry: Registry, home: Option<Seq<char>>)
    requires
        registry_fault(registry, home) is None,
    ensures
        forall|i: int| 0 <= i < registry.trust.repos@.len() ==> forge_slug((#[trigger] registry.trust.repos@[i])@),
        home is None ==> forall|i: int|
            0 <= i < registry.repos@.len() && (#[trigger] registry.repos@[i]).1.workspaces is Some
                ==> registry.repos@[i].1.workspaces->0@ != "~"@ && !begins_with(
                registry.repos@[i].1.workspaces->0@,
                "~/"@,
            ),
        home is None ==> forall|i: int|
            0 <= i < registry.trust.roots@.len() ==> (#[trigger] registry.trust.roots@[i])@ != "~"@ && !begins_with(
                registry.trust.roots@[i]@,
                "~/"@,
            ),
{
    lemma_trust_fault(registry.trust.repos@, 0);
    if home is None {
        let lines = registry.repos@.filter_map(homeless_entry());
        let roots = views(registry.trust.roots@).filter_map(homeless_root());
        assert(lines.len() == 0 && roots.len() == 0);
        assert forall|i: int|
            0 <= i < registry.repos@.len() && (#[trigger] registry.repos@[i]).1.workspaces is Some implies registry.repos@[i].1.workspaces->0@
            != "~"@ && !begins_with(registry.repos@[i].1.workspaces->0@, "~/"@) by {
            if let Some(line) = homeless_entry()(registry.repos@[i]) {
                lemma_filter_map_has(registry.repos@, homeless_entry(), line);
                assert(lines.contains(line));
            }
        }
        assert forall|i: int| 0 <= i < registry.trust.roots@.len() implies (#[trigger] registry.trust.roots@[i])@
            != "~"@ && !begins_with(registry.trust.roots@[i]@, "~/"@) by {
            let all = views(registry.trust.roots@);
            assert(all[i] == registry.trust.roots@[i]@);
            if let Some(line) = homeless_root()(all[i]) {
                lemma_filter_map_has(all, homeless_root(), line);
                assert(roots.contains(line));
            }
        }
    }
}

/// What makes a key safe: it is not empty, is neither the directory itself nor the one above it, and holds
/// no slash of either kind.
pub proof fn lemma_safe_key(name: Seq<char>)
    ensures
        safe_key(name) <==> name.len() > 0 && name != seq!['.'] && name != seq!['.', '.'] && !name.contains('/')
            && !name.contains('\\'),
{
    reveal_strlit(".");
    reveal_strlit("..");
    reveal_strlit("/");
    reveal_strlit("\\");
    assert("."@ =~= seq!['.']);
    assert(".."@ =~= seq!['.', '.']);
    lemma_holds_char(name, '/', "/"@);
    lemma_holds_char(name, '\\', "\\"@);
}

proof fn lemma_holds_char(s: Seq<char>, c: char, text: Seq<char>)
    requires
        text.len() == 1,
        text[0] == c,
    ensures
        contains_text(s, text) <==> s.contains(c),
{
    if s.contains(c) {
        let i = choose|i: int| 0 <= i < s.len() && s[i] == c;
        assert(s.subrange(i, i + text.len()) =~= text);
    }
    if contains_text(s, text) {
        let i = choose|i: int|
            #![trigger s.subrange(i, i + text.len())]
            0 <= i <= s.len() - text.len() && s.subrange(i, i + text.len()) == text;
        assert(s.subrange(i, i + text.len())[0] == s[i]);
    }
}

/// A slug is an owner and a repository with one slash between them, neither of which reads as a path.
pub proof fn lemma_forge_slug(value: Seq<char>, owner: Seq<char>, name: Seq<char>)
    ensures
        !owner.contains('/') && !name.contains('/') ==> (forge_slug(owner + seq!['/'] + name) <==> !path_syntax(owner)
            && !path_syntax(name)),
        forge_slug(value) ==> exists|a: Seq<char>, b: Seq<char>|
            value == #[trigger] (a + seq!['/'] + b) && !a.contains('/') && !b.contains('/') && !path_syntax(a)
                && !path_syntax(b),
{
    reveal_strlit("/");
    let whole = owner + seq!['/'] + name;
    lemma_next_at(whole, '/', 0);
    let k = next_at(whole, '/', 0);
    assert(whole[owner.len() as int] == '/');
    if !owner.contains('/') {
        if k < owner.len() {
            assert(owner.contains(owner[k]));
        }
        assert(whole.take(k) =~= owner);
        assert(whole.skip(k + 1) =~= name);
    }
    lemma_holds_char(name, '/', "/"@);
    if forge_slug(value) {
        lemma_next_at(value, '/', 0);
        let at = next_at(value, '/', 0);
        let a = value.take(at);
        let b = value.skip(at + 1);
        lemma_holds_char(b, '/', "/"@);
        if a.contains('/') {
            let i = choose|i: int| 0 <= i < a.len() && a[i] == '/';
            assert(value[i] == '/');
        }
        assert(value =~= a + seq!['/'] + b);
    }
}

/// What was removed from the registry is refused where it stands: a table of trusted repositories that is
/// not empty, and entries that state a path.
pub proof fn lemma_removed_parts(names: Option<Seq<Seq<char>>>, entries: Seq<Seq<char>>)
    ensures
        trusted_rejection(names) is Some <==> names is Some && names->0.len() > 0,
        path_rejection(entries) is Some <==> entries.len() > 0,
{
}

proof fn lemma_consumer_fault_is_a_consumer(name: Seq<char>, consumers: Seq<String>, from: int)
    requires
        0 <= from,
    ensures
        consumer_fault(name, consumers, from) is None <==> forall|i: int|
            from <= i < consumers.len() ==> forge_slug(#[trigger] consumers[i]@),
    decreases consumers.len() - from,
{
    if from < consumers.len() {
        lemma_consumer_fault_is_a_consumer(name, consumers, from + 1);
        if consumer_fault(name, consumers, from) is None {
            assert(forge_slug(consumers[from]@));
        } else if forge_slug(consumers[from]@) {
            assert(exists|i: int| from + 1 <= i < consumers.len() && !forge_slug(#[trigger] consumers[i]@));
        }
    }
}

/// An entry has no fault exactly if no remote of it reads like an option, its workspaces, where it names a
/// place for them, are named, every consumer is a slug, and a release branch of its own has a name that is
/// neither its trunk's nor among the dated ones.
pub proof fn lemma_sound_entry(name: Seq<char>, entry: RepoEntry)
    ensures
        entry_fault(name, entry) is None <==> {
            let trunk = match entry.base {
                Some(base) => base@,
                None => "main"@,
            };
            &&& !begins_with(entry.upstream@, "-"@) && !begins_with(entry.origin@, "-"@)
            &&& entry.release is Some ==> !begins_with(entry.release->0@, "-"@)
            &&& entry.workspaces is Some ==> entry.workspaces->0@.len() > 0
            &&& forall|i: int| 0 <= i < entry.consumers@.len() ==> forge_slug(#[trigger] entry.consumers@[i]@)
            &&& entry.release_branch is Some ==> entry.release_branch->0@.len() > 0 && entry.release_branch->0@ != trunk
                && !begins_with(entry.release_branch->0@, "release/"@)
        },
{
    lemma_consumer_fault_is_a_consumer(name, entry.consumers@, 0);
}

/// An entry is told its first fault: its workspaces come before its remotes, those before its release
/// branch, and that before its consumers. A remote's fault says which remote it is.
pub proof fn lemma_first_fault_of_entry(name: Seq<char>, entry: RepoEntry)
    ensures
        entry.workspaces is Some && entry.workspaces->0@.len() == 0 ==> entry_fault(name, entry) == Some(
            "[repos."@ + name + "] workspaces is empty; name a directory or omit it"@,
        ),
        !(entry.workspaces is Some && entry.workspaces->0@.len() == 0) ==> {
            &&& begins_with(entry.upstream@, "-"@) ==> entry_fault(name, entry) == Some(
                "upstream"@ + " remote "@ + debug_text(entry.upstream@) + " must not start with `-`"@,
            )
            &&& !begins_with(entry.upstream@, "-"@) && begins_with(entry.origin@, "-"@) ==> entry_fault(name, entry)
                == Some("origin"@ + " remote "@ + debug_text(entry.origin@) + " must not start with `-`"@)
            &&& !begins_with(entry.upstream@, "-"@) && !begins_with(entry.origin@, "-"@) ==> {
                let optional = entry.release is Some && begins_with(entry.release->0@, "-"@);
                &&& optional ==> entry_fault(name, entry) == Some(
                    "release"@ + " remote "@ + debug_text(entry.release->0@) + " must not start with `-`"@,
                )
                &&& !optional && entry.release_branch is Some && entry.release_branch->0@.len() == 0 ==> entry_fault(
                    name,
                    entry,
                ) == Some("release_branch is empty; a fixed release scheme needs a branch name"@)
            }
        },
{
}

/// Expanding the paths of a registry changes nothing else of it: names, remotes, branches, commands, consumers
/// and what is trusted stay as they were.
pub proof fn lemma_expanding_changes_paths_only(
    after: Registry,
    before: Registry,
    config_home: Seq<char>,
    home: Option<Seq<char>>,
    i: int,
)
    requires
        expanded_registry(after, before, config_home, home),
        0 <= i < before.repos@.len(),
    ensures
        after.repos@.len() == before.repos@.len() && after.repos@[i].0@ == before.repos@[i].0@,
        after.repos@[i].1.upstream@ == before.repos@[i].1.upstream@,
        after.repos@[i].1.origin@ == before.repos@[i].1.origin@,
        after.repos@[i].1.base == before.repos@[i].1.base,
        after.repos@[i].1.release == before.repos@[i].1.release,
        after.repos@[i].1.release_branch == before.repos@[i].1.release_branch,
        after.repos@[i].1.test_count_command == before.repos@[i].1.test_count_command,
        after.repos@[i].1.consumers@ == before.repos@[i].1.consumers@,
        before.repos@[i].1.workspaces is None ==> after.repos@[i].1.workspaces is None,
        before.repos@[i].1.workspaces matches Some(path) ==> after.repos@[i].1.workspaces is Some
            && after.repos@[i].1.workspaces->0@ == expanded(path@, config_home, home),
        after.trust.repos == before.trust.repos && after.trust.owners == before.trust.owners,
        forall|j: int|
            0 <= j < before.trust.roots@.len() ==> (#[trigger] after.trust.roots@[j])@ == expanded(
                before.trust.roots@[j]@,
                config_home,
                home,
            ),
{
    assert(after.repos@[i].0 == before.repos@[i].0);
}

} // verus!
