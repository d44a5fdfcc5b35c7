//! The registry of managed repositories.
//!
//! Everything user-specific is configuration. No user, organisation, or repository name appears in
//! this crate; remotes are addressed by role.

use vstd::prelude::*;
use vstd::string::*;

use crate::bind::{bare_path, owner_in, remote_slug, slug_of, url_owner, without_git};
use crate::ids::{BranchName, ReleaseScheme, RepoName};
use crate::order::{lookup, OrdMap, Ordered};
use crate::paths::{join_path, joined_path};
use crate::pieces::{split, split_at_char};
use crate::seqs::{group_seqs, lemma_filter_has, lemma_filter_next, lemma_take_next, pointee, view_of, views};

use crate::text::{begins_with, eq_ignore_case, ranks, same, same_ignoring_case, starts_with, strip_prefix};

pub mod loading;

verus! {

/// What a remote is for, rather than what it is called. The release role is optional and falls back
/// to the origin.
#[derive(Debug, Clone, Copy, PartialEq, Eq, PartialOrd, Ord, Hash, Structural)]
pub enum Role {
    /// The repository we contribute to. Fetch only, including pull refs.
    Upstream,
    /// Where our branches get pushed.
    Origin,
    /// Where dated releases get pushed.
    Release,
}

impl Role {
    /// The name of the role.
    pub open spec fn label(self) -> Seq<char> {
        match self {
            Role::Upstream => "upstream"@,
            Role::Origin => "origin"@,
            Role::Release => "release"@,
        }
    }

    /// The name of the role.
    pub fn as_str(&self) -> (label: &'static str)
        ensures
            label@ == self.label(),
    {
        match self {
            Role::Upstream => "upstream",
            Role::Origin => "origin",
            Role::Release => "release",
        }
    }
}

/// One repository as the registry describes it: identity, remotes by role, policy. Where its
/// checkout lives on this machine is not registry content.
#[derive(Debug, PartialEq, Eq)]
pub struct RepoEntry {
    pub upstream: String,
    pub origin: String,
    /// Upstream's trunk: the branch we fork from, measure landed against, and target pull requests
    /// at. `main` where it is not stated.
    pub base: Option<String>,
    pub release: Option<String>,
    pub release_branch: Option<String>,
    /// A command whose output ends in the number of tests, used to check that a release cut did not
    /// drop a branch's tests. Absent means the check is reported as not configured, never as passed.
    pub test_count_command: Option<String>,
    /// Forge slugs of repositories that pin this repository's releases. A list, because a fork can
    /// be consumed by several things at once and they can sit on different releases.
    pub consumers: Vec<String>,
    /// Where this repository's branch workspaces live. Absent, they sit beside the found checkout.
    pub workspaces: Option<String>,
}

impl Clone for RepoEntry {
    fn clone(&self) -> (copy: Self)
        ensures
            copy.upstream == self.upstream,
            copy.origin == self.origin,
            copy.base == self.base,
            copy.release == self.release,
            copy.release_branch == self.release_branch,
            copy.test_count_command == self.test_count_command,
            copy.consumers@ == self.consumers@,
            copy.workspaces == self.workspaces,
    {
        let mut consumers: Vec<String> = Vec::new();
        let mut i: usize = 0;
        while i < self.consumers.len()
            invariant
                i <= self.consumers@.len(),
                consumers@ == self.consumers@.take(i as int),
            decreases self.consumers@.len() - i,
        {
            consumers.push(self.consumers[i].clone());
            i += 1;
            assert(consumers@ =~= self.consumers@.take(i as int));
        }
        assert(consumers@ =~= self.consumers@);
        RepoEntry {
            upstream: self.upstream.clone(),
            origin: self.origin.clone(),
            base: self.base.clone(),
            release: self.release.clone(),
            release_branch: self.release_branch.clone(),
            test_count_command: self.test_count_command.clone(),
            consumers,
            workspaces: self.workspaces.clone(),
        }
    }
}

/// The branch upstream treats as its trunk.
pub open spec fn trunk_of(entry: RepoEntry) -> Seq<char> {
    match entry.base {
        Some(base) => base@,
        None => "main"@,
    }
}

/// Whether release publishing has a remote distinct from the origin.
pub open spec fn split_release(entry: RepoEntry) -> bool {
    match entry.release {
        Some(release) => release@ != entry.origin@,
        None => false,
    }
}

/// How releases are named: one branch that moves where one is stated, dated names otherwise.
pub open spec fn scheme_of(entry: RepoEntry) -> ReleaseScheme {
    match entry.release_branch {
        Some(name) => ReleaseScheme::Fixed(BranchName { text: name }),
        None => ReleaseScheme::Dated,
    }
}

/// The remote role that publishes releases.
pub open spec fn publish_of(entry: RepoEntry) -> Seq<char> {
    if split_release(entry) {
        "release"@
    } else {
        "origin"@
    }
}

/// The remote for a role.
pub open spec fn remote_of(entry: RepoEntry, role: Role) -> Seq<char> {
    match role {
        Role::Upstream => entry.upstream@,
        Role::Origin => entry.origin@,
        Role::Release => match entry.release {
            Some(release) => release@,
            None => entry.origin@,
        },
    }
}

/// The trunk by name on one remote, as a revset writes it.
pub open spec fn pinned_trunk(trunk: Seq<char>, role: Role) -> Seq<char> {
    "remote_bookmarks(exact:\""@ + trunk + "\", exact:\""@ + role.label() + "\")"@
}

/// The commits that must not be rewritten: the trunk, tags, and the trunk by name on every remote.
pub open spec fn immutable_rule(entry: RepoEntry) -> Seq<char> {
    let trunk = trunk_of(entry);
    let pinned = "trunk() | tags() | "@ + pinned_trunk(trunk, Role::Upstream) + " | "@ + pinned_trunk(
        trunk,
        Role::Origin,
    );
    if split_release(entry) {
        pinned + " | "@ + pinned_trunk(trunk, Role::Release)
    } else {
        pinned
    }
}

fn pin_trunk(trunk: &str, role: Role) -> (text: String)
    ensures
        text@ == pinned_trunk(trunk@, role),
{
    let mut text = "remote_bookmarks(exact:\"".to_owned();
    text.append(trunk);
    text.append("\", exact:\"");
    text.append(role.as_str());
    text.append("\")");
    text
}

impl RepoEntry {
    /// An entry with the two required remotes and every option unset.
    pub fn new(upstream: &str, origin: &str) -> (entry: Self)
        ensures
            entry.upstream@ == upstream@,
            entry.origin@ == origin@,
            entry.base is None,
            entry.release is None,
            entry.release_branch is None,
            entry.test_count_command is None,
            entry.consumers@.len() == 0,
            entry.workspaces is None,
    {
        RepoEntry {
            upstream: upstream.to_owned(),
            origin: origin.to_owned(),
            base: None,
            release: None,
            release_branch: None,
            test_count_command: None,
            consumers: Vec::new(),
            workspaces: None,
        }
    }

    /// The remote for a role. Total: every role resolves.
    pub fn remote(&self, role: Role) -> (remote: &str)
        ensures
            remote@ == remote_of(*self, role),
    {
        match role {
            Role::Upstream => self.upstream.as_str(),
            Role::Origin => self.origin.as_str(),
            Role::Release => match &self.release {
                Some(release) => release.as_str(),
                None => self.origin.as_str(),
            },
        }
    }

    /// The branch upstream treats as its trunk: what we fork from, measure landed against, and
    /// target pull requests at.
    pub fn trunk(&self) -> (trunk: &str)
        ensures
            trunk@ == trunk_of(*self),
    {
        match &self.base {
            Some(base) => base.as_str(),
            None => "main",
        }
    }

    /// How releases are named: one branch that moves where one is stated, dated names otherwise.
    pub fn release_scheme(&self) -> (scheme: ReleaseScheme)
        ensures
            scheme == scheme_of(*self),
    {
        match &self.release_branch {
            Some(name) => ReleaseScheme::Fixed(BranchName { text: name.clone() }),
            None => ReleaseScheme::Dated,
        }
    }

    /// The upstream remote's view of the trunk, such as `dev@upstream`.
    ///
    /// Every landed probe and fork point measures against this, never the local trunk: our fork's
    /// trunk answers about the wrong repository.
    pub fn upstream_trunk(&self) -> (trunk: String)
        ensures
            trunk@ == trunk_of(*self) + "@"@ + Role::Upstream.label(),
    {
        let mut trunk = self.trunk().to_owned();
        trunk.append("@");
        trunk.append(Role::Upstream.as_str());
        trunk
    }

    /// The commits this fork must not rewrite: the trunk, tags, and the trunk by name on every
    /// remote: upstream, origin, and the release remote when one is configured.
    ///
    /// Each remote is named: a revset of the trunk's name alone would also match the export of
    /// whatever the local bookmark points at.
    pub fn immutable_heads(&self) -> (rule: String)
        ensures
            rule@ == immutable_rule(*self),
    {
        let trunk = self.trunk();
        let mut rule = "trunk() | tags() | ".to_owned();
        rule.append(pin_trunk(trunk, Role::Upstream).as_str());
        rule.append(" | ");
        rule.append(pin_trunk(trunk, Role::Origin).as_str());
        if self.has_split_release() {
            rule.append(" | ");
            rule.append(pin_trunk(trunk, Role::Release).as_str());
        }
        rule
    }

    /// The branch a pull request from this repository should target: the trunk.
    pub fn default_base(&self) -> (base: &str)
        ensures
            base@ == trunk_of(*self),
    {
        self.trunk()
    }

    /// Whether release publishing has a remote distinct from the origin.
    ///
    /// A configured release address equal to the origin is an explicit spelling of the default
    /// topology, not a second role.
    pub fn has_split_release(&self) -> (r: bool)
        ensures
            r == split_release(*self),
    {
        match &self.release {
            Some(release) => !same(release.as_str(), self.origin.as_str()),
            None => false,
        }
    }

    /// The remote role that publishes releases for this repository.
    pub fn publish_remote(&self) -> (remote: &'static str)
        ensures
            remote@ == publish_of(*self),
    {
        if self.has_split_release() {
            "release"
        } else {
            "origin"
        }
    }
}

/// Which repositories' instructions are read as guidance.
#[derive(Debug, PartialEq, Eq)]
pub struct TrustRules {
    /// Repositories trusted by identity: `owner/repo`, matched against any remote of a checkout,
    /// whatever the case of its letters, `.git` stripped from both sides.
    pub repos: Vec<String>,
    /// Directory subtrees whose repositories are all trusted.
    pub roots: Vec<String>,
    /// Forge owners whose repositories are trusted, matched against every remote of a checkout. The
    /// remotes are what the checkout itself declares; prefer roots when in doubt.
    pub owners: Vec<String>,
}

impl Default for TrustRules {
    /// Nothing is trusted.
    fn default() -> (rules: Self)
        ensures
            rules.repos@.len() == 0,
            rules.roots@.len() == 0,
            rules.owners@.len() == 0,
    {
        TrustRules { repos: Vec::new(), roots: Vec::new(), owners: Vec::new() }
    }
}

/// Whether a component of a path names something: neither nothing nor the directory itself.
pub open spec fn real_component() -> spec_fn(Seq<char>) -> bool {
    |component: Seq<char>| component.len() > 0 && component != "."@
}

/// The components of a path.
pub open spec fn components_of(path: Seq<char>) -> Seq<Seq<char>> {
    split_at_char(path, '/').filter(real_component())
}

/// Whether a path lies in the directory `root`, or is it: component by component, both absolute or
/// both relative.
pub open spec fn lies_in(path: Seq<char>, root: Seq<char>) -> bool {
    let inner = components_of(path);
    let outer = components_of(root);
    begins_with(path, "/"@) == begins_with(root, "/"@) && outer.len() <= inner.len() && inner.take(
        outer.len() as int,
    ) == outer
}

fn components(path: &str) -> (parts: Vec<String>)
    ensures
        views(parts@) == components_of(path@),
{
    broadcast use group_seqs;

    let pieces = split(path, '/');
    let ghost all = views(pieces@);
    let mut parts: Vec<String> = Vec::new();
    let mut i: usize = 0;
    while i < pieces.len()
        invariant
            i <= pieces@.len(),
            all == views(pieces@),
            views(parts@) == all.take(i as int).filter(real_component()),
        decreases pieces@.len() - i,
    {
        proof {
            lemma_filter_next(all, real_component(), i as int);
            assert(all[i as int] == pieces@[i as int]@);
            reveal_strlit("");
            if pieces@[i as int]@.len() == 0 {
                assert(pieces@[i as int]@ =~= ""@);
            }
        }
        if !same(pieces[i].as_str(), "") && !same(pieces[i].as_str(), ".") {
            parts.push(pieces[i].clone());
        }
        i += 1;
    }
    parts
}

/// Whether a path lies in the directory `root`, or is it.
pub fn is_within(path: &str, root: &str) -> (r: bool)
    ensures
        r == lies_in(path@, root@),
{
    let inner = components(path);
    let outer = components(root);
    if starts_with(path, "/") != starts_with(root, "/") || outer.len() > inner.len() {
        return false;
    }
    let ghost deep = components_of(path@);
    let ghost flat = components_of(root@);
    let mut i: usize = 0;
    while i < outer.len()
        invariant
            i <= outer@.len() <= inner@.len(),
            deep == views(inner@),
            flat == views(outer@),
            deep == components_of(path@),
            flat == components_of(root@),
            forall|j: int| 0 <= j < i ==> deep[j] == #[trigger] flat[j],
        decreases outer@.len() - i,
    {
        assert(deep[i as int] == inner@[i as int]@ && flat[i as int] == outer@[i as int]@);
        if !same(inner[i].as_str(), outer[i].as_str()) {
            assert(deep.take(flat.len() as int)[i as int] != flat[i as int]);
            return false;
        }
        i += 1;
    }
    assert(deep.take(flat.len() as int) =~= flat);
    true
}

/// Whether a remote belongs to a trusted owner.
pub open spec fn owned(rules: TrustRules, url: Seq<char>) -> bool {
    match owner_in(url) {
        Some(owner) => exists|i: int|
            0 <= i < rules.owners@.len() && same_ignoring_case((#[trigger] rules.owners@[i])@, owner),
        None => false,
    }
}

/// Whether a remote is a trusted repository.
pub open spec fn listed_repo(rules: TrustRules, url: Seq<char>) -> bool {
    match slug_of(url) {
        Some(slug) => exists|i: int|
            0 <= i < rules.repos@.len() && same_ignoring_case(bare_path((#[trigger] rules.repos@[i])@), slug),
        None => false,
    }
}

/// Whether a remote grants trust.
pub open spec fn grants(rules: TrustRules, url: Seq<char>) -> bool {
    owned(rules, url) || listed_repo(rules, url)
}

impl TrustRules {
    /// Whether nothing is trusted.
    pub fn is_empty(&self) -> (r: bool)
        ensures
            r == (self.repos@.len() == 0 && self.roots@.len() == 0 && self.owners@.len() == 0),
    {
        self.repos.len() == 0 && self.roots.len() == 0 && self.owners.len() == 0
    }

    /// Whether `root` lies in one of the trusted roots. Decided from the paths alone, which both
    /// sides give in canonical form: it needs no remotes.
    pub fn contains_root(&self, root: &str) -> (r: bool)
        ensures
            r == exists|i: int| 0 <= i < self.roots@.len() && lies_in(root@, (#[trigger] self.roots@[i])@),
    {
        let mut i: usize = 0;
        while i < self.roots.len()
            invariant
                i <= self.roots@.len(),
                forall|j: int| 0 <= j < i ==> !lies_in(root@, (#[trigger] self.roots@[j])@),
            decreases self.roots@.len() - i,
        {
            if is_within(root, self.roots[i].as_str()) {
                assert(lies_in(root@, self.roots@[i as int]@));
                return true;
            }
            i += 1;
        }
        false
    }

    fn grants_url(&self, url: &str) -> (r: bool)
        ensures
            r == grants(*self, url@),
    {
        if let Some(owner) = url_owner(url) {
            let mut i: usize = 0;
            while i < self.owners.len()
                invariant
                    i <= self.owners@.len(),
                    owner_in(url@) == Some(owner@),
                    forall|j: int|
                        0 <= j < i ==> !same_ignoring_case((#[trigger] self.owners@[j])@, owner@),
                decreases self.owners@.len() - i,
            {
                if eq_ignore_case(self.owners[i].as_str(), owner.as_str()) {
                    assert(same_ignoring_case(self.owners@[i as int]@, owner@));
                    return true;
                }
                i += 1;
            }
        }
        assert(!owned(*self, url@));
        if let Some(slug) = remote_slug(url) {
            let mut i: usize = 0;
            while i < self.repos.len()
                invariant
                    i <= self.repos@.len(),
                    slug_of(url@) == Some(slug@),
                    forall|j: int|
                        0 <= j < i ==> !same_ignoring_case(bare_path((#[trigger] self.repos@[j])@), slug@),
                decreases self.repos@.len() - i,
            {
                if eq_ignore_case(without_git(self.repos[i].as_str()).as_str(), slug.as_str()) {
                    assert(same_ignoring_case(bare_path(self.repos@[i as int]@), slug@));
                    return true;
                }
                i += 1;
            }
        }
        false
    }

    /// Whether some remote belongs to a trusted owner or is a trusted repository.
    pub fn grants_by_remotes(&self, remotes: &OrdMap<String, String>) -> (r: bool)
        ensures
            r == exists|i: int| 0 <= i < remotes@.len() && grants(*self, (#[trigger] remotes@[i]).1@),
    {
        let mut i: usize = 0;
        while i < remotes.len()
            invariant
                i <= remotes@.len(),
                forall|j: int| 0 <= j < i ==> !grants(*self, (#[trigger] remotes@[j]).1@),
            decreases remotes@.len() - i,
        {
            if self.grants_url(remotes.value(i).as_str()) {
                assert(grants(*self, remotes@[i as int].1@));
                return true;
            }
            i += 1;
        }
        false
    }
}

/// A canonical repository root eligible to provide agent guidance.
#[derive(Debug, PartialEq, Eq)]
pub struct GuidanceRoot {
    pub name: String,
    pub root: String,
}

/// The registry: every managed repository under its name, and what is trusted for guidance.
#[derive(Debug, PartialEq, Eq)]
pub struct Registry {
    pub repos: OrdMap<String, RepoEntry>,
    pub trust: TrustRules,
}

impl Default for Registry {
    /// A registry of nothing.
    fn default() -> (registry: Self)
        ensures
            registry.repos@.len() == 0,
            registry.trust.repos@.len() == 0,
            registry.trust.roots@.len() == 0,
            registry.trust.owners@.len() == 0,
    {
        Registry { repos: OrdMap::new(), trust: TrustRules::default() }
    }
}

/// The names of registered repositories.
pub open spec fn entry_names(repos: Seq<(String, RepoEntry)>) -> Seq<Seq<char>> {
    Seq::new(repos.len(), |i: int| repos[i].0@)
}

impl Registry {
    /// The entry of a repository.
    pub fn get(&self, name: &RepoName) -> (entry: Option<&RepoEntry>)
        ensures
            pointee(entry) == lookup(self.repos@, ranks(name@)),
    {
        assert(name.text.rank() == ranks(name@));
        self.repos.get(&name.text)
    }

    /// Whether no repository is registered.
    pub fn is_empty(&self) -> (r: bool)
        ensures
            r == (self.repos@.len() == 0),
    {
        self.repos.is_empty()
    }

    /// The names of the registered repositories, in order.
    pub fn names(&self) -> (names: Vec<RepoName>)
        ensures
            views(names@) == entry_names(self.repos@),
    {
        broadcast use group_seqs;

        let mut names: Vec<RepoName> = Vec::new();
        let ghost all = entry_names(self.repos@);
        let mut i: usize = 0;
        while i < self.repos.len()
            invariant
                i <= self.repos@.len(),
                all == entry_names(self.repos@),
                views(names@) == all.take(i as int),
            decreases self.repos@.len() - i,
        {
            proof {
                lemma_take_next(all, i as int);
            }
            names.push(RepoName::new(self.repos.key(i).as_str()));
            i += 1;
        }
        names
    }
}

/// What is said where a home directory is needed and there is none.
pub const NO_HOME: &'static str = "HOME is not set; knives scans $HOME for checkouts";

/// A path of the registry with its tilde expanded, and taken from the config home where it is
/// relative. Without a home directory a tilde stays as written.
pub open spec fn expanded(path: Seq<char>, config_home: Seq<char>, home: Option<Seq<char>>) -> Seq<char> {
    if path == "~"@ {
        match home {
            Some(home) => home,
            None => path,
        }
    } else if begins_with(path, "~/"@) {
        match home {
            Some(home) => joined_path(home, path.skip("~/"@.len() as int)),
            None => path,
        }
    } else {
        joined_path(config_home, path)
    }
}

/// Expand a tilde and resolve a relative path of the registry against the config home.
///
/// With no home directory a tilde stays as written; the caller that needs it reports the missing
/// home.
pub fn expand_registry_path(path: &str, config_home: &str, home: Option<&str>) -> (full: String)
    ensures
        full@ == expanded(path@, config_home@, view_of(home)),
{
    if same(path, "~") {
        return match home {
            Some(home) => home.to_owned(),
            None => path.to_owned(),
        };
    }
    if let Some(rest) = strip_prefix(path, "~/") {
        return match home {
            Some(home) => join_path(home, rest.as_str()),
            None => path.to_owned(),
        };
    }
    join_path(config_home, path)
}

/// The home directory: what the environment names, unless that is nothing.
pub open spec fn home_of(variable: Option<Seq<char>>) -> Option<Seq<char>> {
    match variable {
        Some(home) => if home.len() == 0 {
            None
        } else {
            Some(home)
        },
        None => None,
    }
}

/// The home directory by the value of `HOME`: nothing where it is unset or empty.
pub fn home_dir(variable: Option<&str>) -> (home: Option<&str>)
    ensures
        view_of(home) == home_of(view_of(variable)),
{
    match variable {
        Some(home) => {
            proof {
                reveal_strlit("");
                if home@.len() == 0 {
                    assert(home@ =~= ""@);
                }
            }
            if same(home, "") {
                None
            } else {
                Some(home)
            }
        },
        None => None,
    }
}

/// Where the registry lives, by what the environment names.
pub open spec fn config_path(
    own: Option<Seq<char>>,
    xdg: Option<Seq<char>>,
    home: Option<Seq<char>>,
) -> Seq<char> {
    match own {
        Some(own) => joined_path(own, "repos.toml"@),
        None => {
            let base = match xdg {
                Some(xdg) => xdg,
                None => joined_path(
                    match home_of(home) {
                        Some(home) => home,
                        None => "/nonexistent"@,
                    },
                    ".config"@,
                ),
            };
            joined_path(joined_path(base, "knives"@), "repos.toml"@)
        },
    }
}

/// Where the registry lives, by the values of `KNIVES_CONFIG_HOME`, `XDG_CONFIG_HOME` and `HOME`.
///
/// The first wins over the second so that this tool can be pointed elsewhere without moving every
/// other tool's config too. Never the current directory: that would silently relocate the trust set.
pub fn default_config_path(own: Option<&str>, xdg: Option<&str>, home: Option<&str>) -> (path: String)
    ensures
        path@ == config_path(view_of(own), view_of(xdg), view_of(home)),
{
    if let Some(own) = own {
        return join_path(own, "repos.toml");
    }
    let base = match xdg {
        Some(xdg) => xdg.to_owned(),
        None => {
            let home = match home_dir(home) {
                Some(home) => home,
                None => "/nonexistent",
            };
            join_path(home, ".config")
        },
    };
    let directory = join_path(base.as_str(), "knives");
    join_path(directory.as_str(), "repos.toml")
}

/// What a registry entry says by role and by default: the trunk is `main` unless it is stated, the scheme
/// is dated unless a release branch is, and a release goes to a remote of its own exactly if one is stated
/// that is not the origin.
pub proof fn lemma_entry_by_role(entry: RepoEntry)
    ensures
        entry.base is None ==> trunk_of(entry) == "main"@,
        entry.base matches Some(base) ==> trunk_of(entry) == base@,
        scheme_of(entry) is Dated <==> entry.release_branch is None,
        entry.release_branch matches Some(name) ==> scheme_of(entry) is Fixed && scheme_of(entry)->Fixed_0@ == name@,
        publish_of(entry) == "release"@ <==> entry.release is Some && entry.release->0@ != entry.origin@,
        publish_of(entry) == "origin"@ <==> entry.release is None || entry.release->0@ == entry.origin@,
        remote_of(entry, Role::Upstream) == entry.upstream@,
        remote_of(entry, Role::Origin) == entry.origin@,
        remote_of(entry, Role::Release) == (if entry.release is Some {
            entry.release->0@
        } else {
            entry.origin@
        }),
{
    reveal_strlit("release");
    reveal_strlit("origin");
    assert("release"@.len() == 7 && "origin"@.len() == 6);
}

/// The rule of immutable heads pins the trunk on the upstream and on the origin, and on the release remote
/// exactly if the release has one of its own.
pub proof fn lemma_immutable_rule(entry: RepoEntry)
    ensures
        ({
            let both = "trunk() | tags() | "@ + pinned_trunk(trunk_of(entry), Role::Upstream) + " | "@ + pinned_trunk(
                trunk_of(entry),
                Role::Origin,
            );
            let own = entry.release is Some && entry.release->0@ != entry.origin@;
            &&& !own ==> immutable_rule(entry) == both
            &&& own ==> immutable_rule(entry) == both + " | "@ + pinned_trunk(trunk_of(entry), Role::Release)
        }),
{
}

/// What lies in a place: the place itself, what lies in something that lies in it, and nothing that begins
/// at the root where the place does not, or the other way round.
pub proof fn lemma_lies_in(path: Seq<char>, middle: Seq<char>, root: Seq<char>)
    ensures
        lies_in(path, path),
        lies_in(path, middle) && lies_in(middle, root) ==> lies_in(path, root),
        begins_with(path, "/"@) != begins_with(root, "/"@) ==> !lies_in(path, root),
        components_of(path).len() < components_of(root).len() ==> !lies_in(path, root),
{
    let a = components_of(path);
    let b = components_of(middle);
    let c = components_of(root);
    assert(a.take(a.len() as int) =~= a);
    if lies_in(path, middle) && lies_in(middle, root) {
        assert(a.take(c.len() as int) =~= a.take(b.len() as int).take(c.len() as int));
    }
}

/// A remote is trusted exactly if its owner is listed, or its slug is, whatever the case and with or
/// without a `.git` on the list; one that names neither is not.
pub proof fn lemma_granted_remotes(rules: TrustRules, url: Seq<char>)
    ensures
        grants(rules, url) <==> (owner_in(url) is Some && exists|i: int|
            0 <= i < rules.owners@.len() && same_ignoring_case((#[trigger] rules.owners@[i])@, owner_in(url)->0)) || (
        slug_of(url) is Some && exists|i: int|
            0 <= i < rules.repos@.len() && same_ignoring_case(
                bare_path((#[trigger] rules.repos@[i])@),
                slug_of(url)->0,
            )),
        rules.owners@.len() == 0 && rules.repos@.len() == 0 ==> !grants(rules, url),
{
}

/// A path of the registry is taken from the home directory where it begins with a tilde, and else from the
/// registry's own directory.
pub proof fn lemma_expanded_path(path: Seq<char>, rest: Seq<char>, config_home: Seq<char>, home: Seq<char>)
    ensures
        expanded("~"@, config_home, Some(home)) == home,
        expanded("~/"@ + rest, config_home, Some(home)) == joined_path(home, rest),
        path.len() == 0 || path[0] != '~' ==> expanded(path, config_home, Some(home)) == joined_path(config_home, path)
            && expanded(path, config_home, None) == joined_path(config_home, path),
        begins_with(path, "~/"@) ==> expanded(path, config_home, None) == path,
{
    reveal_strlit("~");
    reveal_strlit("~/");
    let whole = "~/"@ + rest;
    assert(whole.take(2) =~= "~/"@);
    assert(whole.skip(2) =~= rest);
    assert(whole.len() >= 2 && "~"@.len() == 1);
    if begins_with(path, "~/"@) {
        assert(path.take(2)[0] == path[0]);
    }
}

/// The registry is looked for where its own variable says, else under the configuration directory, else
/// under the home directory; an empty home is none.
pub proof fn lemma_config_path(own: Seq<char>, xdg: Option<Seq<char>>, home: Option<Seq<char>>)
    ensures
        config_path(Some(own), xdg, home) == joined_path(own, "repos.toml"@),
        xdg matches Some(base) ==> config_path(None, xdg, home) == joined_path(
            joined_path(base, "knives"@),
            "repos.toml"@,
        ),
        xdg is None && home is Some && home->0.len() > 0 ==> config_path(None, xdg, home) == joined_path(
            joined_path(joined_path(home->0, ".config"@), "knives"@),
            "repos.toml"@,
        ),
        home_of(home) is Some <==> home is Some && home->0.len() > 0,
        home_of(home) is Some ==> home_of(home) == home,
{
}

/// The parts of a path that count are those between its slashes that are neither empty nor the directory
/// itself.
pub proof fn lemma_components(path: Seq<char>, part: Seq<char>)
    ensures
        components_of(path).contains(part) <==> split_at_char(path, '/').contains(part) && part.len() > 0 && part != "."@,
{
    lemma_filter_has(split_at_char(path, '/'), real_component(), part);
}

/// What lies in a place begins with the parts of that place, in their order, and both begin at the root or
/// neither does.
pub proof fn lemma_lies_in_begins_alike(path: Seq<char>, root: Seq<char>)
    ensures
        lies_in(path, root) <==> begins_with(path, "/"@) == begins_with(root, "/"@) && components_of(root).len()
            <= components_of(path).len() && forall|i: int|
            0 <= i < components_of(root).len() ==> #[trigger] components_of(root)[i] == components_of(path)[i],
{
    let inner = components_of(path);
    let outer = components_of(root);
    if lies_in(path, root) {
        assert forall|i: int| 0 <= i < outer.len() implies #[trigger] outer[i] == inner[i] by {
            assert(inner.take(outer.len() as int)[i] == inner[i]);
        }
    }
    if outer.len() <= inner.len() && forall|i: int| 0 <= i < outer.len() ==> #[trigger] outer[i] == inner[i] {
        assert(inner.take(outer.len() as int) =~= outer);
    }
}

} // verus!
