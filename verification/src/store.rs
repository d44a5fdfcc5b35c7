//! What is recorded about the branches of one repository: who works on them, which pull request
//! they were stated to be, and what they require.

use vstd::prelude::*;
use vstd::string::*;

use crate::ids::{BranchName, RepoName};
use crate::order::{lookup, OrdMap, Ordered};
use crate::seqs::view_of;
use crate::text::{decimal, decimal_text, lemma_ranks_injective, ranks};

verus! {

/// How the owner of a claim was told apart.
#[derive(Debug, Clone, Copy, PartialEq, Eq, Structural)]
pub enum OwnerKind {
    HarnessSession,
    WorkspaceDerived,
    OsUser,
}

impl OwnerKind {
    /// The name of the kind.
    pub open spec fn label(self) -> Seq<char> {
        match self {
            OwnerKind::HarnessSession => "harness-session"@,
            OwnerKind::WorkspaceDerived => "workspace-derived"@,
            OwnerKind::OsUser => "os-user"@,
        }
    }

    /// The name of the kind.
    pub fn as_str(&self) -> (label: &'static str)
        ensures
            label@ == self.label(),
    {
        match self {
            OwnerKind::HarnessSession => "harness-session",
            OwnerKind::WorkspaceDerived => "workspace-derived",
            OwnerKind::OsUser => "os-user",
        }
    }
}

/// A branch somebody is working on.
#[derive(Debug, PartialEq, Eq)]
pub struct Claim {
    pub repo: String,
    pub branch: String,
    pub owner: String,
    pub kind: OwnerKind,
    pub why: String,
    pub started: String,
    /// The files the work touches.
    pub files: Vec<String>,
}

/// What a claim goes by: its repository and its branch.
pub open spec fn claim_key(claim: Claim) -> Seq<char> {
    claim.repo@ + "/"@ + claim.branch@
}

impl Claim {
    /// What the claim goes by: its repository and its branch.
    pub fn key(&self) -> (key: String)
        ensures
            key@ == claim_key(*self),
    {
        let mut key = self.repo.clone();
        key.append("/");
        key.append(self.branch.as_str());
        key
    }
}

/// A pull request that a branch needs, in this repository or another.
#[derive(Debug, PartialEq, Eq)]
pub struct Requirement {
    pub repo: RepoName,
    pub number: u64,
}

impl Clone for Requirement {
    fn clone(&self) -> (copy: Self)
        ensures
            copy == *self,
    {
        Requirement { repo: self.repo.clone(), number: self.number }
    }
}

impl Requirement {
    /// The requirement as it is written: the repository and the number behind a number sign.
    pub open spec fn text(self) -> Seq<char> {
        self.repo@ + "#"@ + decimal_text(self.number as nat)
    }

    /// The requirement as it is written.
    pub fn to_text(&self) -> (text: String)
        ensures
            text@ == self.text(),
    {
        let mut text = self.repo.text.clone();
        text.append("#");
        text.append(decimal(self.number).as_str());
        text
    }
}

/// What is recorded about the branches of one repository.
pub struct Store {
    /// The pull request a branch was stated to be.
    pub stated: OrdMap<BranchName, u64>,
    /// What a branch requires.
    pub requirements: OrdMap<BranchName, Vec<Requirement>>,
    /// The branches that are meant to stay in the fork.
    pub fork_only: OrdMap<BranchName, bool>,
    /// The claims on branches of this repository.
    pub claims: Vec<Claim>,
}

/// What a branch was recorded to require.
pub open spec fn required(store: Store, branch: Seq<char>) -> Seq<Requirement> {
    match lookup(store.requirements@, ranks(branch)) {
        Some(list) => list@,
        None => Seq::empty(),
    }
}

/// Whether a branch was recorded as staying in the fork.
pub open spec fn stays_in_fork(store: Store, branch: Seq<char>) -> bool {
    lookup(store.fork_only@, ranks(branch)) == Some(true)
}

impl Store {
    /// A store that records nothing.
    pub fn new() -> (store: Self)
        ensures
            store.stated@.len() == 0,
            store.requirements@.len() == 0,
            store.fork_only@.len() == 0,
            store.claims@.len() == 0,
    {
        Store {
            stated: OrdMap::new(),
            requirements: OrdMap::new(),
            fork_only: OrdMap::new(),
            claims: Vec::new(),
        }
    }

    /// The pull request a branch was stated to be.
    pub fn tracked_pull(&self, branch: &BranchName) -> (number: Option<u64>)
        ensures
            number == lookup(self.stated@, ranks(branch@)),
    {
        match self.stated.get(branch) {
            Some(number) => Some(*number),
            None => None,
        }
    }

    /// What a branch was recorded to require.
    pub fn dependencies(&self, branch: &BranchName) -> (list: Vec<Requirement>)
        ensures
            list@ == required(*self, branch@),
    {
        let mut list: Vec<Requirement> = Vec::new();
        if let Some(recorded) = self.requirements.get(branch) {
            let mut i: usize = 0;
            while i < recorded.len()
                invariant
                    i <= recorded@.len(),
                    list@ == recorded@.take(i as int),
                decreases recorded@.len() - i,
            {
                list.push(recorded[i].clone());
                i += 1;
                assert(list@ =~= recorded@.take(i as int));
            }
            assert(list@ =~= recorded@);
        }
        list
    }

    /// Whether a branch was recorded as staying in the fork.
    pub fn is_fork_only(&self, branch: &BranchName) -> (r: bool)
        ensures
            r == stays_in_fork(*self, branch@),
    {
        match self.fork_only.get(branch) {
            Some(recorded) => *recorded,
            None => false,
        }
    }
}

/// What earlier runs saw of the pull requests of one repository.
pub struct PullRecord {
    /// The head of a pull request, under its number as it is written.
    pub heads: OrdMap<String, String>,
    /// The state the forge gave, under the number.
    pub states: OrdMap<u64, String>,
    /// When the newest comment known was written, under the number.
    pub marks: OrdMap<u64, String>,
}

impl PullRecord {
    /// The head recorded of a pull request.
    pub open spec fn head(self, number: u64) -> Option<Seq<char>> {
        view_of(lookup(self.heads@, ranks(decimal_text(number as nat))))
    }

    /// The state recorded of a pull request.
    pub open spec fn state(self, number: u64) -> Option<Seq<char>> {
        view_of(lookup(self.states@, number.rank()))
    }

    /// The comment mark recorded of a pull request.
    pub open spec fn mark(self, number: u64) -> Option<Seq<char>> {
        view_of(lookup(self.marks@, number.rank()))
    }

    /// A record of nothing.
    pub fn new() -> (record: Self)
        ensures
            record.heads@.len() == 0,
            record.states@.len() == 0,
            record.marks@.len() == 0,
    {
        PullRecord { heads: OrdMap::new(), states: OrdMap::new(), marks: OrdMap::new() }
    }

    /// The head recorded of a pull request.
    pub fn pull_head(&self, number: u64) -> (head: Option<&str>)
        ensures
            view_of(head) == self.head(number),
    {
        match self.heads.get(&decimal(number)) {
            Some(head) => Some(head.as_str()),
            None => None,
        }
    }

    /// The state recorded of a pull request.
    pub fn pull_state(&self, number: u64) -> (state: Option<&str>)
        ensures
            view_of(state) == self.state(number),
    {
        match self.states.get(&number) {
            Some(state) => Some(state.as_str()),
            None => None,
        }
    }

    /// The comment mark recorded of a pull request.
    pub fn comment_mark(&self, number: u64) -> (mark: Option<&str>)
        ensures
            view_of(mark) == self.mark(number),
    {
        match self.marks.get(&number) {
            Some(mark) => Some(mark.as_str()),
            None => None,
        }
    }

    /// Records the head of a pull request.
    pub fn record_pull_head(&mut self, number: u64, head: &str)
        ensures
            final(self).states == old(self).states,
            final(self).marks == old(self).marks,
            forall|key: Seq<char>|
                view_of(#[trigger] lookup(final(self).heads@, ranks(key))) == (if key == decimal_text(
                    number as nat,
                ) {
                    Some(head@)
                } else {
                    view_of(lookup(old(self).heads@, ranks(key)))
                }),
    {
        self.heads.insert(decimal(number), head.to_owned());
        proof {
            assert forall|key: Seq<char>|
                view_of(#[trigger] lookup(self.heads@, ranks(key))) == (if key == decimal_text(number as nat) {
                    Some(head@)
                } else {
                    view_of(lookup(old(self).heads@, ranks(key)))
                }) by {
                lemma_ranks_injective(key, decimal_text(number as nat));
            }
        }
    }

    /// Records the state of a pull request.
    pub fn record_pull_state(&mut self, number: u64, state: &str)
        ensures
            final(self).heads == old(self).heads,
            final(self).marks == old(self).marks,
            forall|n: u64| #[trigger]
                final(self).state(n) == (if n == number {
                    Some(state@)
                } else {
                    old(self).state(n)
                }),
    {
        self.states.insert(number, state.to_owned());
        proof {
            assert forall|n: u64| #[trigger]
                self.state(n) == (if n == number {
                    Some(state@)
                } else {
                    old(self).state(n)
                }) by {
                assert(n.rank()[0] == n && number.rank()[0] == number);
            }
        }
    }

    /// Records when the newest comment on a pull request was written.
    pub fn record_comment_mark(&mut self, number: u64, mark: &str)
        ensures
            final(self).heads == old(self).heads,
            final(self).states == old(self).states,
            forall|n: u64| #[trigger]
                final(self).mark(n) == (if n == number {
                    Some(mark@)
                } else {
                    old(self).mark(n)
                }),
    {
        self.marks.insert(number, mark.to_owned());
        proof {
            assert forall|n: u64| #[trigger]
                self.mark(n) == (if n == number {
                    Some(mark@)
                } else {
                    old(self).mark(n)
                }) by {
                assert(n.rank()[0] == n && number.rank()[0] == number);
            }
        }
    }
}

/// A branch stays in the fork exactly if that is stated of it and says so.
pub proof fn lemma_stays_in_fork(store: Store, branch: Seq<char>)
    ensures
        lookup(store.fork_only@, ranks(branch)) is None ==> !stays_in_fork(store, branch),
        lookup(store.fork_only@, ranks(branch)) matches Some(stays) ==> stays_in_fork(store, branch) == stays,
        lookup(store.requirements@, ranks(branch)) is None ==> required(store, branch).len() == 0,
{
}

} // verus!
