//! The pull request half of a hosting service.
//!
//! A trait rather than a concrete client, so that facts can be supplied without a network call.

use std::collections::BTreeMap;

use vstd::prelude::*;
use vstd::string::*;

use crate::ids::BranchName;
use crate::order::{lemma_lex_irreflexive, lex_less, lookup, OrdMap, Ordered};
use crate::pieces::{lemma_next_at, next_at};
use crate::seqs::{
    group_seqs, lemma_filter_has, lemma_filter_map_has, lemma_filter_next, lemma_take_next, view_of, views,
};
use crate::sorting::{
    add_key, distinct_texts, lemma_distinct_texts, lemma_sorted, rank_of, sort, sorted, strictly_ascending,
};
use crate::text::{
    ascii_lower, chars_of, contains_text, decimal, decimal_text, eq_ignore_case, find_text, first_match, lemma_first_match, lemma_ranks_injective, ranks, same,
    same_ignoring_case,
};

pub mod fake;
pub mod github;

verus! {

/// One check of a pull request.
#[derive(Debug, PartialEq, Eq)]
pub struct CheckRun {
    pub name: String,
    /// `None` while unfinished; otherwise `SUCCESS`, `FAILURE`, `SKIPPED`, `CANCELLED`,
    /// `ACTION_REQUIRED` or the like.
    ///
    /// `ACTION_REQUIRED` also stands for a whole workflow the forge refused to start: such a
    /// workflow has no runs at all, so the rollup alone would read green.
    pub conclusion: Option<String>,
}

/// What a check run is.
pub struct CheckRunView {
    pub name: Seq<char>,
    pub conclusion: Option<Seq<char>>,
}

impl View for CheckRun {
    type V = CheckRunView;

    open spec fn view(&self) -> CheckRunView {
        CheckRunView { name: self.name@, conclusion: view_of(self.conclusion) }
    }
}

impl Clone for CheckRun {
    fn clone(&self) -> (copy: Self)
        ensures
            copy == *self,
    {
        CheckRun { name: self.name.clone(), conclusion: self.conclusion.clone() }
    }
}

impl CheckRunView {
    /// Whether the check ran and failed.
    pub open spec fn hard_failure(self) -> bool {
        match self.conclusion {
            Some(conclusion) => same_ignoring_case(conclusion, "FAILURE"@) || same_ignoring_case(
                conclusion,
                "TIMED_OUT"@,
            ) || same_ignoring_case(conclusion, "CANCELLED"@) || same_ignoring_case(
                conclusion,
                "STARTUP_FAILURE"@,
            ) || same_ignoring_case(conclusion, "ERROR"@),
            None => false,
        }
    }

    /// Whether the forge holds the check for someone's action.
    pub open spec fn action_required(self) -> bool {
        match self.conclusion {
            Some(conclusion) => same_ignoring_case(conclusion, "ACTION_REQUIRED"@),
            None => false,
        }
    }
}

impl CheckRun {
    fn hard_failure(&self) -> (r: bool)
        ensures
            r == self@.hard_failure(),
    {
        match &self.conclusion {
            Some(conclusion) => {
                let text = conclusion.as_str();
                eq_ignore_case(text, "FAILURE") || eq_ignore_case(text, "TIMED_OUT") || eq_ignore_case(
                    text,
                    "CANCELLED",
                ) || eq_ignore_case(text, "STARTUP_FAILURE") || eq_ignore_case(text, "ERROR")
            },
            None => false,
        }
    }

    fn action_required(&self) -> (r: bool)
        ensures
            r == self@.action_required(),
    {
        match &self.conclusion {
            Some(conclusion) => eq_ignore_case(conclusion.as_str(), "ACTION_REQUIRED"),
            None => false,
        }
    }
}

/// What the forge's checks say about a pull request.
///
/// Never-ran is kept distinct from failed: an empty rollup on a fresh push is not a failure.
#[derive(Debug, PartialEq, Eq)]
pub struct ChecksSummary {
    pub runs: Vec<CheckRun>,
}

impl View for ChecksSummary {
    type V = Seq<CheckRunView>;

    open spec fn view(&self) -> Seq<CheckRunView> {
        views(self.runs@)
    }
}

impl Clone for ChecksSummary {
    fn clone(&self) -> (copy: Self)
        ensures
            copy.runs@ == self.runs@,
    {
        let mut runs: Vec<CheckRun> = Vec::new();
        let mut i: usize = 0;
        while i < self.runs.len()
            invariant
                i <= self.runs@.len(),
                runs@ == self.runs@.take(i as int),
            decreases self.runs@.len() - i,
        {
            runs.push(self.runs[i].clone());
            i += 1;
            assert(runs@ =~= self.runs@.take(i as int));
        }
        assert(runs@ =~= self.runs@);
        ChecksSummary { runs }
    }
}

impl Default for ChecksSummary {
    fn default() -> (summary: Self)
        ensures
            summary.runs@ == Seq::<CheckRun>::empty(),
    {
        ChecksSummary { runs: Vec::new() }
    }
}

/// The name of a check that failed.
pub open spec fn failed_name() -> spec_fn(CheckRunView) -> Option<Seq<char>> {
    |run: CheckRunView|
        if run.hard_failure() {
            Some(run.name)
        } else {
            None
        }
}

/// The name of a check that is held for action.
pub open spec fn held_name() -> spec_fn(CheckRunView) -> Option<Seq<char>> {
    |run: CheckRunView|
        if run.action_required() {
            Some(run.name)
        } else {
            None
        }
}

/// Whether some check failed.
pub open spec fn some_failed(runs: Seq<CheckRunView>) -> bool {
    exists|i: int| 0 <= i < runs.len() && (#[trigger] runs[i]).hard_failure()
}

/// Whether some check is held for action.
pub open spec fn some_held(runs: Seq<CheckRunView>) -> bool {
    exists|i: int| 0 <= i < runs.len() && (#[trigger] runs[i]).action_required()
}

/// Whether some check has not completed.
pub open spec fn some_pending(runs: Seq<CheckRunView>) -> bool {
    exists|i: int| 0 <= i < runs.len() && (#[trigger] runs[i]).conclusion is None
}

impl ChecksSummary {
    /// Checks that ran and failed, as opposed to ones that never ran.
    pub fn hard_failure_names(&self) -> (names: Vec<String>)
        ensures
            views(names@) == self@.filter_map(failed_name()),
    {
        broadcast use group_seqs;

        let mut names: Vec<String> = Vec::new();
        let mut i: usize = 0;
        while i < self.runs.len()
            invariant
                i <= self.runs@.len(),
                views(names@) == self@.take(i as int).filter_map(failed_name()),
            decreases self.runs@.len() - i,
        {
            proof {
                self@.lemma_filter_map_take_succ(failed_name(), i as int);
                assert(self@[i as int] == self.runs@[i as int]@);
            }
            if self.runs[i].hard_failure() {
                names.push(self.runs[i].name.clone());
            }
            assert(views(names@) =~= self@.take(i + 1).filter_map(failed_name()));
            i += 1;
        }
        names
    }

    /// Checks the forge is holding for someone's action: a whole workflow awaiting a maintainer's
    /// approval, so nothing of it ran, or a check that stopped and asked.
    pub fn action_required_names(&self) -> (names: Vec<String>)
        ensures
            views(names@) == self@.filter_map(held_name()),
    {
        broadcast use group_seqs;

        let mut names: Vec<String> = Vec::new();
        let mut i: usize = 0;
        while i < self.runs.len()
            invariant
                i <= self.runs@.len(),
                views(names@) == self@.take(i as int).filter_map(held_name()),
            decreases self.runs@.len() - i,
        {
            proof {
                self@.lemma_filter_map_take_succ(held_name(), i as int);
                assert(self@[i as int] == self.runs@[i as int]@);
            }
            if self.runs[i].action_required() {
                names.push(self.runs[i].name.clone());
            }
            assert(views(names@) =~= self@.take(i + 1).filter_map(held_name()));
            i += 1;
        }
        names
    }

    /// Whether the rollup is red: a check failed, or one is held for action. Both keep a pull
    /// request from merging on its own, which is what a red row means.
    pub fn failing(&self) -> (r: bool)
        ensures
            r == (some_failed(self@) || some_held(self@)),
    {
        self.has_hard_failure() || self.has_action_required()
    }

    /// Whether a check ran and failed.
    pub fn has_hard_failure(&self) -> (r: bool)
        ensures
            r == some_failed(self@),
    {
        let mut i: usize = 0;
        while i < self.runs.len()
            invariant
                i <= self.runs@.len(),
                forall|j: int| 0 <= j < i ==> !(#[trigger] self@[j]).hard_failure(),
            decreases self.runs@.len() - i,
        {
            assert(self@[i as int] == self.runs@[i as int]@);
            if self.runs[i].hard_failure() {
                return true;
            }
            i += 1;
        }
        false
    }

    /// Whether a check is held for someone's action.
    pub fn has_action_required(&self) -> (r: bool)
        ensures
            r == some_held(self@),
    {
        let mut i: usize = 0;
        while i < self.runs.len()
            invariant
                i <= self.runs@.len(),
                forall|j: int| 0 <= j < i ==> !(#[trigger] self@[j]).action_required(),
            decreases self.runs@.len() - i,
        {
            assert(self@[i as int] == self.runs@[i as int]@);
            if self.runs[i].action_required() {
                return true;
            }
            i += 1;
        }
        false
    }

    /// Whether any returned check has not completed.
    pub fn pending(&self) -> (r: bool)
        ensures
            r == some_pending(self@),
    {
        let mut i: usize = 0;
        while i < self.runs.len()
            invariant
                i <= self.runs@.len(),
                forall|j: int| 0 <= j < i ==> (#[trigger] self@[j]).conclusion is Some,
            decreases self.runs@.len() - i,
        {
            assert(self@[i as int] == self.runs@[i as int]@);
            if self.runs[i].conclusion.is_none() {
                return true;
            }
            i += 1;
        }
        false
    }

    /// Whether the forge ran anything at all. Nothing having run is not a failure.
    pub fn ran(&self) -> (r: bool)
        ensures
            r == (self@.len() > 0),
    {
        self.runs.len() > 0
    }
}

/// The account a repository belongs to.
#[derive(Debug, PartialEq, Eq)]
pub struct Account {
    pub login: String,
}

impl Clone for Account {
    fn clone(&self) -> (copy: Self)
        ensures
            copy == *self,
    {
        Account { login: self.login.clone() }
    }
}

/// The base-branch commit a merged pull request landed as.
#[derive(Debug, PartialEq, Eq)]
pub struct MergeCommit {
    pub oid: String,
}

impl Clone for MergeCommit {
    fn clone(&self) -> (copy: Self)
        ensures
            copy == *self,
    {
        MergeCommit { oid: self.oid.clone() }
    }
}

/// A pull request as the live batch reports it.
#[derive(Debug, PartialEq, Eq)]
pub struct PullRequest {
    pub number: u64,
    pub state: String,
    pub review_decision: String,
    pub head_ref_name: String,
    pub head_ref_oid: String,
    pub updated_at: String,
    pub is_draft: bool,
    pub url: String,
    /// The owner of the repository the branch lives in, absent when the head repository has been
    /// deleted.
    pub head_repository_owner: Option<Account>,
    /// Whether the forge can merge this pull request: `MERGEABLE`, `CONFLICTING`, or `UNKNOWN`
    /// while it is still working it out.
    pub mergeable: Option<String>,
    /// The forge's fuller account of why: `DIRTY`, `BEHIND`, `BLOCKED`, `CLEAN`, `UNSTABLE`.
    pub merge_state_status: Option<String>,
    /// The branch this pull request targets.
    pub base_ref_name: Option<String>,
    /// The commit that landed this pull request on its base branch, present only once merged.
    pub merge_commit: Option<MergeCommit>,
}

/// Whether a state reads as open.
pub open spec fn open_state(state: Seq<char>) -> bool {
    same_ignoring_case(state, "OPEN"@)
}

/// Whether a state reads as merged.
pub open spec fn merged_state(state: Seq<char>) -> bool {
    same_ignoring_case(state, "MERGED"@)
}

/// Whether the forge says the pull request cannot be merged as it stands.
pub open spec fn in_conflict(mergeable: Option<Seq<char>>) -> bool {
    match mergeable {
        Some(text) => same_ignoring_case(text, "CONFLICTING"@),
        None => false,
    }
}

/// The merge facts of a pull request that the forge did not answer.
pub open spec fn unanswered_fields(pull: PullRequest) -> Seq<Seq<char>> {
    (if pull.mergeable is None {
        seq!["mergeable"@]
    } else {
        Seq::empty()
    }) + (if pull.merge_state_status is None {
        seq!["mergeStateStatus"@]
    } else {
        Seq::empty()
    }) + (if pull.base_ref_name is None {
        seq!["baseRefName"@]
    } else {
        Seq::empty()
    })
}

impl Clone for PullRequest {
    fn clone(&self) -> (copy: Self)
        ensures
            copy == *self,
    {
        PullRequest {
            number: self.number,
            state: self.state.clone(),
            review_decision: self.review_decision.clone(),
            head_ref_name: self.head_ref_name.clone(),
            head_ref_oid: self.head_ref_oid.clone(),
            updated_at: self.updated_at.clone(),
            is_draft: self.is_draft,
            url: self.url.clone(),
            head_repository_owner: self.head_repository_owner.clone(),
            mergeable: self.mergeable.clone(),
            merge_state_status: self.merge_state_status.clone(),
            base_ref_name: self.base_ref_name.clone(),
            merge_commit: self.merge_commit.clone(),
        }
    }
}

impl Default for PullRequest {
    /// An open pull request that says nothing else of itself.
    fn default() -> (pull: Self)
        ensures
            pull.number == 0,
            pull.state@ == "OPEN"@,
            pull.review_decision@ == Seq::<char>::empty(),
            pull.head_ref_name@ == Seq::<char>::empty(),
            pull.head_ref_oid@ == "0123456789abcdef0123456789abcdef01234567"@,
            pull.updated_at@ == "2026-01-01T00:00:00Z"@,
            !pull.is_draft,
            pull.url@ == Seq::<char>::empty(),
            pull.head_repository_owner is None,
            pull.mergeable is None,
            pull.merge_state_status is None,
            pull.base_ref_name is None,
            pull.merge_commit is None,
    {
        PullRequest {
            number: 0,
            state: "OPEN".to_owned(),
            review_decision: String::new(),
            head_ref_name: String::new(),
            head_ref_oid: "0123456789abcdef0123456789abcdef01234567".to_owned(),
            updated_at: "2026-01-01T00:00:00Z".to_owned(),
            is_draft: false,
            url: String::new(),
            head_repository_owner: None,
            mergeable: None,
            merge_state_status: None,
            base_ref_name: None,
            merge_commit: None,
        }
    }
}

impl PullRequest {
    /// Whether the forge says this pull request is open.
    pub fn is_open(&self) -> (r: bool)
        ensures
            r == open_state(self.state@),
    {
        eq_ignore_case(self.state.as_str(), "OPEN")
    }

    /// Whether the forge says this pull request merged. Closed-without-merging is not this.
    pub fn is_merged(&self) -> (r: bool)
        ensures
            r == merged_state(self.state@),
    {
        eq_ignore_case(self.state.as_str(), "MERGED")
    }

    /// Whether the forge says this cannot be merged as it stands.
    ///
    /// `UNKNOWN` is not a conflict: the forge computes mergeability asynchronously.
    pub fn conflicting(&self) -> (r: bool)
        ensures
            r == in_conflict(view_of(self.mergeable)),
    {
        match &self.mergeable {
            Some(mergeable) => eq_ignore_case(mergeable.as_str(), "CONFLICTING"),
            None => false,
        }
    }

    /// Required merge facts that the forge did not answer. Callers must report these rather than
    /// interpreting unknown data as a healthy pull request.
    pub fn missing_merge_fields(&self) -> (fields: Vec<&'static str>)
        ensures
            views(fields@) == unanswered_fields(*self),
    {
        broadcast use group_seqs;

        let mut fields: Vec<&'static str> = Vec::new();
        if self.mergeable.is_none() {
            fields.push("mergeable");
        }
        if self.merge_state_status.is_none() {
            fields.push("mergeStateStatus");
        }
        if self.base_ref_name.is_none() {
            fields.push("baseRefName");
        }
        assert(views(fields@) =~= unanswered_fields(*self));
        fields
    }
}

/// A pull request's own diff totals, from the live batch.
#[derive(Debug, Clone, Copy, PartialEq, Eq, Structural)]
pub struct DiffTotals {
    pub additions: u64,
    pub deletions: u64,
    pub changed_files: u64,
}

impl Default for DiffTotals {
    fn default() -> (totals: Self)
        ensures
            totals == (DiffTotals { additions: 0, deletions: 0, changed_files: 0 }),
    {
        DiffTotals { additions: 0, deletions: 0, changed_files: 0 }
    }
}

impl DiffTotals {
    /// Nothing changed by this pull request at all.
    pub fn empty(&self) -> (r: bool)
        ensures
            r == (self.additions == 0 && self.deletions == 0 && self.changed_files == 0),
    {
        self.additions == 0 && self.deletions == 0 && self.changed_files == 0
    }
}

/// A commit as a force-push event names it: the commit and its tree, so that a rewrite without a
/// change of content is told apart from one with it.
#[derive(Debug, PartialEq, Eq)]
pub struct CommitOids {
    pub commit: String,
    pub tree: String,
}

impl Clone for CommitOids {
    fn clone(&self) -> (copy: Self)
        ensures
            copy == *self,
    {
        CommitOids { commit: self.commit.clone(), tree: self.tree.clone() }
    }
}

/// What happened to a head ref or to a pull request.
#[derive(Debug, PartialEq, Eq)]
pub enum TimelineEventKind {
    ForcePush { before: CommitOids, after: CommitOids },
    HeadDeleted,
    HeadRestored,
    Closed,
    Reopened,
    Merged { commit: Option<String> },
}

impl Clone for TimelineEventKind {
    fn clone(&self) -> (copy: Self)
        ensures
            copy == *self,
    {
        match self {
            TimelineEventKind::ForcePush { before, after } => TimelineEventKind::ForcePush {
                before: before.clone(),
                after: after.clone(),
            },
            TimelineEventKind::HeadDeleted => TimelineEventKind::HeadDeleted,
            TimelineEventKind::HeadRestored => TimelineEventKind::HeadRestored,
            TimelineEventKind::Closed => TimelineEventKind::Closed,
            TimelineEventKind::Reopened => TimelineEventKind::Reopened,
            TimelineEventKind::Merged { commit } => TimelineEventKind::Merged { commit: commit.clone() },
        }
    }
}

/// One head-ref or state event from the forge's own log.
#[derive(Debug, PartialEq, Eq)]
pub struct TimelineEvent {
    pub at: String,
    pub kind: TimelineEventKind,
}

impl Clone for TimelineEvent {
    fn clone(&self) -> (copy: Self)
        ensures
            copy == *self,
    {
        TimelineEvent { at: self.at.clone(), kind: self.kind.clone() }
    }
}

/// What one round trip answers about a pull request beyond its list fields.
///
/// A number the forge did not answer for is absent rather than present with defaults: "not
/// consulted" and "nothing to compare" are different facts.
#[derive(Debug, PartialEq, Eq)]
pub struct PullDetails {
    /// Whether the newest review predates the newest commit. `None` means there was nothing to
    /// compare, which must never render as "the review is current".
    pub review_predates_head: Option<bool>,
    /// What the forge's checks say. `None` means the forge reported no rollup at all.
    pub checks: Option<ChecksSummary>,
    /// The pull request's diff totals. `None` means the batch did not answer them.
    pub diff: Option<DiffTotals>,
    /// Whether the head ref no longer exists on the forge.
    pub head_ref_deleted: Option<bool>,
    /// Whether the newest commit's tree equals its one parent tree.
    pub tip_commit_empty: Option<bool>,
    /// The pull request's description. `None` means the batch did not answer it.
    pub body: Option<String>,
    /// How many review threads are still unresolved. `None` means the batch did not answer.
    pub unresolved_review_threads: Option<usize>,
}

impl Default for PullDetails {
    /// The details of a pull request of which nothing was answered.
    fn default() -> (details: Self)
        ensures
            details == (PullDetails {
                review_predates_head: None,
                checks: None,
                diff: None,
                head_ref_deleted: None,
                tip_commit_empty: None,
                body: None,
                unresolved_review_threads: None,
            }),
    {
        PullDetails {
            review_predates_head: None,
            checks: None,
            diff: None,
            head_ref_deleted: None,
            tip_commit_empty: None,
            body: None,
            unresolved_review_threads: None,
        }
    }
}

/// Cheap row for wide lists, the cache, and discovery.
///
/// Carries every list field except the merge state: readers cannot read merge state from a list
/// row because the field does not exist.
#[derive(Debug, PartialEq, Eq)]
pub struct PullSummary {
    pub number: u64,
    pub state: String,
    pub review_decision: String,
    pub head_ref_name: String,
    pub head_ref_oid: String,
    pub updated_at: String,
    pub is_draft: bool,
    pub url: String,
    pub head_repository_owner: Option<Account>,
    pub base_ref_name: Option<String>,
    pub merge_commit: Option<MergeCommit>,
}

impl Clone for PullSummary {
    fn clone(&self) -> (copy: Self)
        ensures
            copy == *self,
    {
        PullSummary {
            number: self.number,
            state: self.state.clone(),
            review_decision: self.review_decision.clone(),
            head_ref_name: self.head_ref_name.clone(),
            head_ref_oid: self.head_ref_oid.clone(),
            updated_at: self.updated_at.clone(),
            is_draft: self.is_draft,
            url: self.url.clone(),
            head_repository_owner: self.head_repository_owner.clone(),
            base_ref_name: self.base_ref_name.clone(),
            merge_commit: self.merge_commit.clone(),
        }
    }
}

impl Default for PullSummary {
    /// A summary that says nothing of its pull request.
    fn default() -> (summary: Self)
        ensures
            summary.number == 0,
            summary.state@ == Seq::<char>::empty(),
            summary.review_decision@ == Seq::<char>::empty(),
            summary.head_ref_name@ == Seq::<char>::empty(),
            summary.head_ref_oid@ == "0123456789abcdef0123456789abcdef01234567"@,
            summary.updated_at@ == "2026-01-01T00:00:00Z"@,
            !summary.is_draft,
            summary.url@ == Seq::<char>::empty(),
            summary.head_repository_owner is None,
            summary.base_ref_name is None,
            summary.merge_commit is None,
    {
        PullSummary {
            number: 0,
            state: String::new(),
            review_decision: String::new(),
            head_ref_name: String::new(),
            head_ref_oid: "0123456789abcdef0123456789abcdef01234567".to_owned(),
            updated_at: "2026-01-01T00:00:00Z".to_owned(),
            is_draft: false,
            url: String::new(),
            head_repository_owner: None,
            base_ref_name: None,
            merge_commit: None,
        }
    }
}

impl Ordered for PullSummary {
    open spec fn rank(&self) -> Seq<int> {
        seq![self.number as int]
    }

    fn precedes(&self, other: &Self) -> (r: bool) {
        proof {
            lemma_lex_irreflexive(self.rank().drop_first());
            assert(self.rank().drop_first() =~= other.rank().drop_first());
        }
        self.number < other.number
    }
}

/// The cheap projection of a live row.
pub open spec fn summary_of(pull: PullRequest) -> PullSummary {
    PullSummary {
        number: pull.number,
        state: pull.state,
        review_decision: pull.review_decision,
        head_ref_name: pull.head_ref_name,
        head_ref_oid: pull.head_ref_oid,
        updated_at: pull.updated_at,
        is_draft: pull.is_draft,
        url: pull.url,
        head_repository_owner: pull.head_repository_owner,
        base_ref_name: pull.base_ref_name,
        merge_commit: pull.merge_commit,
    }
}

impl PullSummary {
    /// The cheap projection of a live row, for merging fetched facts back into the cache.
    pub fn of(pull: &PullRequest) -> (summary: Self)
        ensures
            summary == summary_of(*pull),
    {
        PullSummary {
            number: pull.number,
            state: pull.state.clone(),
            review_decision: pull.review_decision.clone(),
            head_ref_name: pull.head_ref_name.clone(),
            head_ref_oid: pull.head_ref_oid.clone(),
            updated_at: pull.updated_at.clone(),
            is_draft: pull.is_draft,
            url: pull.url.clone(),
            head_repository_owner: pull.head_repository_owner.clone(),
            base_ref_name: pull.base_ref_name.clone(),
            merge_commit: pull.merge_commit.clone(),
        }
    }

    /// Whether the summary reads as open.
    pub fn is_open(&self) -> (r: bool)
        ensures
            r == open_state(self.state@),
    {
        eq_ignore_case(self.state.as_str(), "OPEN")
    }

    /// Whether the summary reads as merged.
    pub fn is_merged(&self) -> (r: bool)
        ensures
            r == merged_state(self.state@),
    {
        eq_ignore_case(self.state.as_str(), "MERGED")
    }

    /// Whether the branch lives in a repository of `owner`.
    pub fn is_from(&self, owner: &str) -> (r: bool)
        ensures
            r == match self.head_repository_owner {
                Some(account) => same_ignoring_case(account.login@, owner@),
                None => false,
            },
    {
        match &self.head_repository_owner {
            Some(account) => eq_ignore_case(account.login.as_str(), owner),
            None => false,
        }
    }
}

/// Everything the live batch answers about one pull request.
#[derive(Debug, PartialEq, Eq)]
pub struct PullFacts {
    /// The full fact row, merge state included.
    pub pull: PullRequest,
    pub details: PullDetails,
    /// Newest comment-or-review timestamp.
    pub newest_comment: Option<String>,
}

/// The forge's own name for this checkout, resolved once per run.
#[derive(Debug, PartialEq, Eq)]
pub struct RepoIdentity {
    /// The owner and the repository with a slash between them.
    pub name_with_owner: String,
    /// The node id that the forge's query language knows the repository by.
    pub id: String,
}

impl Clone for RepoIdentity {
    fn clone(&self) -> (copy: Self)
        ensures
            copy == *self,
    {
        RepoIdentity { name_with_owner: self.name_with_owner.clone(), id: self.id.clone() }
    }
}

impl RepoIdentity {
    /// The owner and the repository, or `ForgeError::Target` when the name has no slash.
    pub fn split(&self) -> (parts: Result<(&str, &str), ForgeError>)
        ensures
            match parts {
                Ok((owner, repo)) => {
                    let k = next_at(self.name_with_owner@, '/', 0);
                    k < self.name_with_owner@.len() && owner@ == self.name_with_owner@.take(k) && repo@
                        == self.name_with_owner@.skip(k + 1)
                },
                Err(error) => next_at(self.name_with_owner@, '/', 0) == self.name_with_owner@.len() && error == (
                ForgeError::Target { named: self.name_with_owner }),
            },
    {
        let name = self.name_with_owner.as_str();
        match split_at(name, '/') {
            Some(parts) => Ok(parts),
            None => Err(ForgeError::Target { named: self.name_with_owner.clone() }),
        }
    }
}

/// What stands before and after the first `c`.
pub fn split_at(s: &str, c: char) -> (parts: Option<(&str, &str)>)
    ensures
        match parts {
            Some((head, tail)) => {
                let k = next_at(s@, c, 0);
                k < s@.len() && head@ == s@.take(k) && tail@ == s@.skip(k + 1)
            },
            None => next_at(s@, c, 0) == s@.len(),
        },
{
    let chars = chars_of(s);
    let mut i: usize = 0;
    while i < chars.len() && chars[i] != c
        invariant
            chars@ == s@,
            i <= chars@.len(),
            next_at(s@, c, 0) == next_at(s@, c, i as int),
        decreases chars@.len() - i,
    {
        i += 1;
    }
    if i == chars.len() {
        return None;
    }
    let head = s.substring_char(0, i);
    let tail = s.substring_char(i + 1, chars.len());
    assert(head@ =~= s@.take(i as int));
    assert(tail@ =~= s@.skip(i + 1));
    Some((head, tail))
}

/// The default branch and current head commit of a consumer repository.
#[derive(Debug, PartialEq, Eq)]
pub struct ConsumerHead {
    pub branch: String,
    pub commit: String,
}

impl Clone for ConsumerHead {
    fn clone(&self) -> (copy: Self)
        ensures
            copy == *self,
    {
        ConsumerHead { branch: self.branch.clone(), commit: self.commit.clone() }
    }
}

/// One row of a sweep.
#[derive(Debug, PartialEq, Eq)]
pub struct SweepEntry {
    pub number: u64,
    pub updated_at: String,
    pub state: String,
}

/// One page of a sweep: the newest-updated pull requests, and whether there are more.
#[derive(Debug, PartialEq, Eq)]
pub struct SweepPage {
    pub entries: Vec<SweepEntry>,
    pub has_next_page: bool,
}

/// Why the forge gave no answer.
///
/// Raised, never swallowed: a report that quietly omits pull request state looks identical to a
/// repository with no pull requests.
#[derive(Debug, PartialEq, Eq)]
pub enum ForgeError {
    /// The forge's command line tool failed.
    Command { command: String, dir: String, code: i32, stderr: String },
    /// The forge named a repository that cannot be split into owner and name.
    Target { named: String },
    /// The forge answered with errors instead of data.
    Query { detail: String },
    /// The forge's command line tool is not there.
    Missing { source: String },
    /// The reply could not be read.
    Parse { source: String },
}

/// An integer in decimal.
pub open spec fn integer_text(n: int) -> Seq<char> {
    if n < 0 {
        "-"@ + decimal_text((-n) as nat)
    } else {
        decimal_text(n as nat)
    }
}

/// An integer in decimal.
pub fn integer(n: i32) -> (text: String)
    ensures
        text@ == integer_text(n as int),
{
    if n < 0 {
        let mut text = "-".to_owned();
        text.append(decimal((-(n as i64)) as u64).as_str());
        text
    } else {
        decimal(n as u64)
    }
}

impl ForgeError {
    /// What the error says.
    pub open spec fn text(self) -> Seq<char> {
        match self {
            ForgeError::Command { command, dir, code, stderr } => command@ + " failed in "@ + dir@ + " (exit "@
                + integer_text(code as int) + "): "@ + stderr@,
            ForgeError::Target { named } => "the forge reported the repository as `"@ + named@
                + "`, which is not `<owner>/<name>`"@,
            ForgeError::Query { detail } => "the forge rejected the query: "@ + detail@,
            ForgeError::Missing { source } => "the forge CLI is not installed: "@ + source@,
            ForgeError::Parse { source } => "could not read the forge's reply: "@ + source@,
        }
    }

    /// What the error says.
    pub fn message(&self) -> (text: String)
        ensures
            text@ == self.text(),
    {
        match self {
            ForgeError::Command { command, dir, code, stderr } => {
                let mut text = command.clone();
                text.append(" failed in ");
                text.append(dir.as_str());
                text.append(" (exit ");
                text.append(integer(*code).as_str());
                text.append("): ");
                text.append(stderr.as_str());
                text
            },
            ForgeError::Target { named } => {
                let mut text = "the forge reported the repository as `".to_owned();
                text.append(named.as_str());
                text.append("`, which is not `<owner>/<name>`");
                text
            },
            ForgeError::Query { detail } => {
                let mut text = "the forge rejected the query: ".to_owned();
                text.append(detail.as_str());
                text
            },
            ForgeError::Missing { source } => {
                let mut text = "the forge CLI is not installed: ".to_owned();
                text.append(source.as_str());
                text
            },
            ForgeError::Parse { source } => {
                let mut text = "could not read the forge's reply: ".to_owned();
                text.append(source.as_str());
                text
            },
        }
    }
}

/// Where the colons and slashes at `from` end.
pub open spec fn after_separators(s: Seq<char>, from: int) -> int
    decreases s.len() - from,
{
    if 0 <= from < s.len() && (s[from] == ':' || s[from] == '/') {
        after_separators(s, from + 1)
    } else {
        from
    }
}

/// The owner segment of a forge remote: what stands between the host, with the separators behind
/// it, and the next slash.
pub open spec fn owner_of(remote: Seq<char>) -> Option<Seq<char>> {
    match first_match(remote, "github.com"@, 0) {
        Some(k) => {
            let start = after_separators(remote, k + "github.com"@.len());
            let end = next_at(remote, '/', start);
            if start < end {
                Some(remote.subrange(start, end))
            } else {
                None
            }
        },
        None => None,
    }
}

/// The owner segment of a forge remote, for `https://` and `git@` forms alike.
pub fn remote_owner(remote: &str) -> (owner: Option<&str>)
    ensures
        view_of(owner) == owner_of(remote@),
{
    let host = "github.com";
    let at = match find_text(remote, host) {
        Some(at) => at,
        None => return None,
    };
    let chars = chars_of(remote);
    let total = chars.len();
    assert(at + host@.len() <= total);
    let after = at + host.unicode_len();
    let mut start: usize = after;
    while start < chars.len() && (chars[start] == ':' || chars[start] == '/')
        invariant
            chars@ == remote@,
            start <= chars@.len(),
            after_separators(remote@, after as int) == after_separators(remote@, start as int),
        decreases chars@.len() - start,
    {
        start += 1;
    }
    let mut end: usize = start;
    while end < chars.len() && chars[end] != '/'
        invariant
            chars@ == remote@,
            start <= end <= chars@.len(),
            next_at(remote@, '/', start as int) == next_at(remote@, '/', end as int),
        decreases chars@.len() - end,
    {
        end += 1;
    }
    if start == end {
        return None;
    }
    Some(remote.substring_char(start, end))
}

/// The elements that differ from the one before them.
pub open spec fn without_repeats(s: Seq<Seq<char>>) -> Seq<Seq<char>>
    decreases s.len(),
{
    if s.len() == 0 {
        s
    } else if s.len() >= 2 && s[s.len() - 2] == s.last() {
        without_repeats(s.drop_last())
    } else {
        without_repeats(s.drop_last()).push(s.last())
    }
}

/// The owner of a remote, where it has one.
pub open spec fn remote_owners() -> spec_fn(Seq<char>) -> Option<Seq<char>> {
    |remote: Seq<char>| owner_of(remote)
}

/// The account names whose full pull-request history is worth fetching.
///
/// Derived from the same remotes that snapshot filtering uses. A name that happens to be an
/// organisation merely returns an empty search.
pub fn search_authors(remotes: &[&str]) -> (authors: Vec<String>)
    ensures
        views(authors@) == without_repeats(views(remotes@).filter_map(remote_owners())),
{
    broadcast use group_seqs;

    let mut owners: Vec<String> = Vec::new();
    let ghost all = views(remotes@);
    let mut i: usize = 0;
    while i < remotes.len()
        invariant
            i <= remotes@.len(),
            all == views(remotes@),
            views(owners@) == all.take(i as int).filter_map(remote_owners()),
        decreases remotes@.len() - i,
    {
        let remote: &str = remotes[i];
        proof {
            all.lemma_filter_map_take_succ(remote_owners(), i as int);
            assert(all[i as int] == remote@);
        }
        if let Some(owner) = remote_owner(remote) {
            owners.push(owner.to_owned());
        }
        assert(views(owners@) =~= all.take(i + 1).filter_map(remote_owners()));
        i += 1;
    }
    let mut authors: Vec<String> = Vec::new();
    let mut k: usize = 0;
    let ghost found = views(owners@);
    while k < owners.len()
        invariant
            k <= owners@.len(),
            found == views(owners@),
            views(authors@) == without_repeats(found.take(k as int)),
        decreases owners@.len() - k,
    {
        proof {
            assert(found.take(k + 1).drop_last() =~= found.take(k as int));
            assert(found.take(k + 1).last() == owners@[k as int]@);
        }
        if k == 0 || !same(owners[k - 1].as_str(), owners[k].as_str()) {
            authors.push(owners[k].clone());
        }
        k += 1;
    }
    authors
}

/// Whether a pull request merged onto `trunk`.
pub open spec fn landed_on(trunk: Seq<char>) -> spec_fn(PullSummary) -> bool {
    |pull: PullSummary| merged_state(pull.state@) && view_of(pull.base_ref_name) == Some(trunk)
}

/// The merged summaries onto `trunk`, in number order.
///
/// Merged means merged: a closed pull request landed nothing, and a merge onto some other base is
/// not on the trunk. A merged pull request whose landing commit the forge did not record stays
/// listed: the caller cannot place it and must say so.
pub fn merged_onto(pulls: &[PullSummary], trunk: &str) -> (merged: Vec<PullSummary>)
    ensures
        merged@ == sorted(pulls@.filter(landed_on(trunk@)), rank_of::<PullSummary>()),
{
    broadcast use group_seqs;

    let mut merged: Vec<PullSummary> = Vec::new();
    let mut i: usize = 0;
    while i < pulls.len()
        invariant
            i <= pulls@.len(),
            merged@ == pulls@.take(i as int).filter(landed_on(trunk@)),
        decreases pulls@.len() - i,
    {
        proof {
            lemma_filter_next(pulls@, landed_on(trunk@), i as int);
        }
        let on_trunk = match &pulls[i].base_ref_name {
            Some(base) => same(base.as_str(), trunk),
            None => false,
        };
        if pulls[i].is_merged() && on_trunk {
            merged.push(pulls[i].clone());
        }
        i += 1;
    }
    sort(&mut merged);
    merged
}

/// The pull request half of a hosting service, asked about the checkout at `repo`.
pub trait Forge {
    /// The forge's own name and node id for this checkout, once per run.
    fn repo_identity(&self, repo: &str) -> Result<RepoIdentity, ForgeError>;

    /// The cheap-field wide lists: the base window and the author-scoped ones, without duplicates.
    fn list_pull_requests(&self, repo: &str, authors: &[String]) -> Result<Vec<PullSummary>, ForgeError>;

    /// One page of the newest-updated pull requests, and whether there are more.
    fn sweep(&self, repo: &str, target: &RepoIdentity) -> Result<SweepPage, ForgeError>;

    /// The live batch: full fact rows by number. Numbers the forge does not know are absent from
    /// the map; any other failure is an error.
    fn pull_facts(
        &self,
        repo: &str,
        target: &RepoIdentity,
        numbers: &[u64],
    ) -> Result<BTreeMap<u64, PullFacts>, ForgeError>;

    /// The bounded head-ref history of one pull request. On demand only, never part of any batch.
    fn pull_timeline(
        &self,
        repo: &str,
        target: &RepoIdentity,
        number: u64,
    ) -> Result<Vec<TimelineEvent>, ForgeError>;
}

/// One branch's pull request summaries, split into the primary and its shadowed history.
#[derive(Debug, PartialEq, Eq)]
pub struct PullIndex {
    /// The pull request summary a reader should look at first for each head branch.
    pub by_branch: OrdMap<BranchName, PullSummary>,
    /// The rest of each branch's pull request summaries, in the forge's freshest-first order. A
    /// head branch accumulates several over its life, and collapsing to one per branch would
    /// discard a closed predecessor with its review history.
    pub prior: OrdMap<BranchName, Vec<PullSummary>>,
}

/// Whether a pull request's head is the branch of that name.
pub open spec fn headed(branch: Seq<char>) -> spec_fn(PullSummary) -> bool {
    |pull: PullSummary| pull.head_ref_name@ == branch
}

/// Where the first open pull request stands, or the length where none is open.
pub open spec fn first_open(pulls: Seq<PullSummary>, from: int) -> int
    decreases pulls.len() - from,
{
    if from >= pulls.len() {
        pulls.len() as int
    } else if open_state(pulls[from].state@) {
        from
    } else {
        first_open(pulls, from + 1)
    }
}

/// Where the primary of a branch's pull requests stands: the first open one, else the first.
pub open spec fn primary_at(pulls: Seq<PullSummary>) -> int {
    if first_open(pulls, 0) < pulls.len() {
        first_open(pulls, 0)
    } else {
        0
    }
}

/// The head branches of pull requests, one for each.
pub open spec fn head_names(pulls: Seq<PullSummary>) -> Seq<Seq<char>> {
    Seq::new(pulls.len(), |i: int| pulls[i].head_ref_name@)
}

/// What the index holds of a branch.
pub open spec fn indexed(index: PullIndex, pulls: Seq<PullSummary>, branch: Seq<char>) -> bool {
    let listed = pulls.filter(headed(branch));
    let primary = lookup(index.by_branch@, ranks(branch));
    let prior = lookup(index.prior@, ranks(branch));
    &&& primary == (if listed.len() > 0 {
        Some(listed[primary_at(listed)])
    } else {
        None
    })
    &&& match prior {
        Some(rest) => listed.len() > 1 && rest@ == listed.remove(primary_at(listed)),
        None => listed.len() <= 1,
    }
}

fn find_primary(pulls: &Vec<PullSummary>) -> (at: usize)
    requires
        pulls@.len() > 0,
    ensures
        at == primary_at(pulls@),
        at < pulls@.len(),
{
    let mut i: usize = 0;
    while i < pulls.len()
        invariant
            i <= pulls@.len(),
            first_open(pulls@, 0) == first_open(pulls@, i as int),
        decreases pulls@.len() - i,
    {
        if pulls[i].is_open() {
            return i;
        }
        i += 1;
    }
    0
}

/// Index pull request summaries by head branch, keeping every shadowed one visible.
///
/// Primary selection is deterministic: an open pull request beats any closed or merged one, and
/// ties keep the forge's own ordering. The rest stay in the order the forge supplied them.
pub fn index_pulls(prs: &[PullSummary]) -> (index: PullIndex)
    ensures
        forall|branch: Seq<char>| #[trigger] indexed(index, prs@, branch),
{
    broadcast use group_seqs;

    let mut names: Vec<String> = Vec::new();
    let ghost all = head_names(prs@);
    let mut i: usize = 0;
    while i < prs.len()
        invariant
            i <= prs@.len(),
            all == head_names(prs@),
            views(names@) == distinct_texts(all.take(i as int)),
        decreases prs@.len() - i,
    {
        assert(all.take(i + 1).drop_last() =~= all.take(i as int));
        add_key(&mut names, prs[i].head_ref_name.as_str());
        i += 1;
    }
    proof {
        lemma_distinct_texts(all);
    }
    let mut by_branch: OrdMap<BranchName, PullSummary> = OrdMap::new();
    let mut prior: OrdMap<BranchName, Vec<PullSummary>> = OrdMap::new();
    let ghost keys = distinct_texts(all);
    let mut k: usize = 0;
    while k < names.len()
        invariant
            k <= names@.len(),
            all == head_names(prs@),
            keys == distinct_texts(all),
            views(names@) == keys,
            strictly_ascending(keys),
            forall|name: Seq<char>|
                #![trigger lookup(by_branch@, ranks(name))]
                #![trigger lookup(prior@, ranks(name))]
                keys.take(k as int).contains(name) ==> indexed(PullIndex { by_branch, prior }, prs@, name),
            forall|name: Seq<char>|
                #![trigger lookup(by_branch@, ranks(name))]
                #![trigger lookup(prior@, ranks(name))]
                !keys.take(k as int).contains(name) ==> lookup(by_branch@, ranks(name)) is None && lookup(
                    prior@,
                    ranks(name),
                ) is None,
        decreases names@.len() - k,
    {
        let name = &names[k];
        assert(keys[k as int] == name@);
        let mut listed: Vec<PullSummary> = Vec::new();
        let mut j: usize = 0;
        while j < prs.len()
            invariant
                j <= prs@.len(),
                listed@ == prs@.take(j as int).filter(headed(name@)),
            decreases prs@.len() - j,
        {
            proof {
                lemma_filter_next(prs@, headed(name@), j as int);
            }
            if same(prs[j].head_ref_name.as_str(), name.as_str()) {
                listed.push(prs[j].clone());
            }
            j += 1;
        }
        let ghost whole = listed@;
        proof {
            lemma_distinct_texts(all);
            assert(prs@.take(j as int) =~= prs@);
            assert(whole == prs@.filter(headed(name@)));
            assert(keys.contains(name@));
            assert(all.contains(name@));
            let at = choose|at: int| 0 <= at < all.len() && all[at] == name@;
            prs@.lemma_filter_contains(headed(name@), at);
            lemma_take_next(keys, k as int);
            assert(whole.contains(prs@[at]));
            assert(whole.len() > 0);
        }
        let primary = find_primary(&listed);
        let ghost before_first = by_branch@;
        let ghost before_prior = prior@;
        let chosen = listed.remove(primary);
        let key = BranchName::new(name.as_str());
        let ghost rank = ranks(name@);
        assert(key.rank() == rank);
        by_branch.insert(key, chosen);
        if listed.len() > 0 {
            let key = BranchName::new(name.as_str());
            assert(key.rank() == rank);
            prior.insert(key, listed);
        }
        proof {
            let index = PullIndex { by_branch, prior };
            assert forall|other: Seq<char>|
                #![trigger lookup(by_branch@, ranks(other))]
                #![trigger lookup(prior@, ranks(other))]
                other != name@ implies lookup(by_branch@, ranks(other)) == lookup(before_first, ranks(other)) && lookup(
                prior@,
                ranks(other),
            ) == lookup(before_prior, ranks(other)) by {
                lemma_ranks_injective(other, name@);
            }
            assert(!keys.take(k as int).contains(name@)) by {
                if keys.take(k as int).contains(name@) {
                    let at = choose|at: int| 0 <= at < k && keys.take(k as int)[at] == name@;
                    assert(keys[at] == keys[k as int]);
                    lemma_lex_irreflexive(rank);
                }
            }
            assert(lookup(before_prior, rank) is None);
            assert(lookup(by_branch@, rank) == Some(whole[primary_at(whole)]));
            assert(indexed(index, prs@, name@));
            assert forall|other: Seq<char>|
                #![trigger lookup(by_branch@, ranks(other))]
                #![trigger lookup(prior@, ranks(other))]
                keys.take(k + 1).contains(other) implies indexed(index, prs@, other) by {
                if other != name@ {
                    let longer = keys.take(k + 1);
                    let at = choose|at: int| 0 <= at < longer.len() && longer[at] == other;
                    assert(keys.take(k as int)[at] == other);
                    assert(lookup(before_first, ranks(other)) == lookup(by_branch@, ranks(other)));
                }
            }
            assert forall|other: Seq<char>|
                #![trigger lookup(by_branch@, ranks(other))]
                #![trigger lookup(prior@, ranks(other))]
                !keys.take(k + 1).contains(other) implies lookup(by_branch@, ranks(other)) is None && lookup(
                prior@,
                ranks(other),
            ) is None by {
                assert(keys.take(k + 1)[k as int] == name@);
                if keys.take(k as int).contains(other) {
                    let at = choose|at: int| 0 <= at < k && keys.take(k as int)[at] == other;
                    assert(keys.take(k + 1)[at] == other);
                }
                assert(lookup(before_first, ranks(other)) is None);
            }
        }
        k += 1;
    }
    let index = PullIndex { by_branch, prior };
    proof {
        assert forall|branch: Seq<char>| #[trigger] indexed(index, prs@, branch) by {
            let listed = prs@.filter(headed(branch));
            let seen = lookup(by_branch@, ranks(branch));
            if !keys.contains(branch) {
                assert(!all.contains(branch));
                if listed.len() > 0 {
                    prs@.lemma_filter_contains_rev(headed(branch), listed[0]);
                    prs@.lemma_filter_pred(headed(branch), 0);
                    let at = choose|at: int| 0 <= at < prs@.len() && prs@[at] == listed[0];
                    assert(all[at] == branch);
                }
            }
        }
    }
    index
}

proof fn lemma_first_open(pulls: Seq<PullSummary>, from: int)
    requires
        0 <= from <= pulls.len(),
    ensures
        from <= first_open(pulls, from) <= pulls.len(),
        first_open(pulls, from) < pulls.len() ==> open_state(pulls[first_open(pulls, from)].state@),
        forall|i: int| from <= i < first_open(pulls, from) ==> !open_state((#[trigger] pulls[i]).state@),
    decreases pulls.len() - from,
{
    if from < pulls.len() && !open_state(pulls[from].state@) {
        lemma_first_open(pulls, from + 1);
    }
}

/// An open pull request beats any settled one: where some pull request of a branch is open, the one a
/// reader looks at first is open, and no earlier one is.
pub proof fn lemma_open_beats_settled(pulls: Seq<PullSummary>, i: int)
    requires
        0 <= i < pulls.len(),
        open_state(pulls[i].state@),
    ensures
        0 <= primary_at(pulls) <= i,
        open_state(pulls[primary_at(pulls)].state@),
        forall|j: int| 0 <= j < primary_at(pulls) ==> !open_state((#[trigger] pulls[j]).state@),
{
    lemma_first_open(pulls, 0);
}

/// No pull request of a branch is lost: each is the one looked at first, or among the prior ones.
pub proof fn lemma_shadowed_stay_visible(pulls: Seq<PullSummary>, i: int)
    requires
        0 <= i < pulls.len(),
    ensures
        0 <= primary_at(pulls) < pulls.len(),
        i == primary_at(pulls) || pulls.remove(primary_at(pulls)).contains(pulls[i]),
{
    lemma_first_open(pulls, 0);
    let at = primary_at(pulls);
    let rest = pulls.remove(at);
    if i < at {
        assert(rest[i] == pulls[i]);
    } else if i > at {
        assert(rest[i - 1] == pulls[i]);
    }
}

/// The conclusions of a check, in whatever case: five of them are failures, one holds it for action, and
/// one that has not concluded is neither.
pub proof fn lemma_conclusions(name: Seq<char>, conclusion: Seq<char>)
    ensures
        ({
            let run = CheckRunView { name, conclusion: Some(conclusion) };
            &&& run.hard_failure() <==> same_ignoring_case(conclusion, "FAILURE"@) || same_ignoring_case(
                conclusion,
                "TIMED_OUT"@,
            ) || same_ignoring_case(conclusion, "CANCELLED"@) || same_ignoring_case(conclusion, "STARTUP_FAILURE"@)
                || same_ignoring_case(conclusion, "ERROR"@)
            &&& run.action_required() <==> same_ignoring_case(conclusion, "ACTION_REQUIRED"@)
            &&& !(run.hard_failure() && run.action_required())
        }),
        !(CheckRunView { name, conclusion: None }).hard_failure(),
        !(CheckRunView { name, conclusion: None }).action_required(),
{
    reveal_strlit("FAILURE");
    reveal_strlit("TIMED_OUT");
    reveal_strlit("CANCELLED");
    reveal_strlit("STARTUP_FAILURE");
    reveal_strlit("ERROR");
    reveal_strlit("ACTION_REQUIRED");
    if same_ignoring_case(conclusion, "STARTUP_FAILURE"@) && same_ignoring_case(conclusion, "ACTION_REQUIRED"@) {
        assert(ascii_lower(conclusion[0]) == ascii_lower("STARTUP_FAILURE"@[0]));
        assert(ascii_lower(conclusion[0]) == ascii_lower("ACTION_REQUIRED"@[0]));
    }
}

/// The names of the failed checks are those of the checks that failed, and those of the held ones of the
/// checks that are held.
pub proof fn lemma_failed_names(runs: Seq<CheckRunView>, name: Seq<char>)
    ensures
        runs.filter_map(failed_name()).contains(name) <==> exists|i: int|
            0 <= i < runs.len() && (#[trigger] runs[i]).hard_failure() && runs[i].name == name,
        runs.filter_map(held_name()).contains(name) <==> exists|i: int|
            0 <= i < runs.len() && (#[trigger] runs[i]).action_required() && runs[i].name == name,
{
    lemma_filter_map_has(runs, failed_name(), name);
    lemma_filter_map_has(runs, held_name(), name);
}

/// What a forge did not answer of a merge is told field by field, and nothing is told of a pull request
/// that has all three.
pub proof fn lemma_unanswered_fields(pull: PullRequest)
    ensures
        pull.mergeable is None ==> unanswered_fields(pull).contains("mergeable"@),
        pull.merge_state_status is None ==> unanswered_fields(pull).contains("mergeStateStatus"@),
        pull.base_ref_name is None ==> unanswered_fields(pull).contains("baseRefName"@),
        unanswered_fields(pull).len() == (if pull.mergeable is None {
            1int
        } else {
            0int
        }) + (if pull.merge_state_status is None {
            1int
        } else {
            0int
        }) + (if pull.base_ref_name is None {
            1int
        } else {
            0int
        }),
{
    let fields = unanswered_fields(pull);
    let a: int = if pull.mergeable is None {
        1
    } else {
        0
    };
    let b: int = if pull.merge_state_status is None {
        1
    } else {
        0
    };
    if pull.mergeable is None {
        assert(fields[0] == "mergeable"@);
    }
    if pull.merge_state_status is None {
        assert(fields[a] == "mergeStateStatus"@);
    }
    if pull.base_ref_name is None {
        assert(fields[a + b] == "baseRefName"@);
    }
}

/// A pull request reads as open, as merged or as conflicting by one word each, in whatever case.
pub proof fn lemma_words_of_pull(state: Seq<char>, mergeable: Option<Seq<char>>)
    ensures
        open_state(state) <==> same_ignoring_case(state, "OPEN"@),
        merged_state(state) <==> same_ignoring_case(state, "MERGED"@),
        !(open_state(state) && merged_state(state)),
        in_conflict(mergeable) <==> mergeable is Some && same_ignoring_case(mergeable->0, "CONFLICTING"@),
{
    reveal_strlit("OPEN");
    reveal_strlit("MERGED");
}

/// A pull request landed on the trunk exactly if it says merged and its base is the trunk; those that did
/// stand in the order of their numbers.
pub proof fn lemma_merged_onto(pulls: Seq<PullSummary>, trunk: Seq<char>, pull: PullSummary)
    ensures
        ({
            let merged = sorted(pulls.filter(landed_on(trunk)), rank_of::<PullSummary>());
            &&& merged.contains(pull) <==> pulls.contains(pull) && same_ignoring_case(pull.state@, "MERGED"@)
                && pull.base_ref_name is Some && pull.base_ref_name->0@ == trunk
            &&& forall|i: int, j: int|
                0 <= i < j < merged.len() ==> (#[trigger] merged[i]).number <= (#[trigger] merged[j]).number
        }),
{
    let found = pulls.filter(landed_on(trunk));
    let rank = rank_of::<PullSummary>();
    let merged = sorted(found, rank);
    lemma_sorted(found, rank);
    lemma_filter_has(pulls, landed_on(trunk), pull);
    assert(merged.contains(pull) <==> found.contains(pull));
    assert forall|i: int, j: int| 0 <= i < j < merged.len() implies (#[trigger] merged[i]).number <= (
    #[trigger] merged[j]).number by {
        assert(!lex_less(rank(merged[j]), rank(merged[i])));
        assert(rank(merged[j])[0] == merged[j].number && rank(merged[i])[0] == merged[i].number);
        if merged[j].number < merged[i].number {
            assert(lex_less(rank(merged[j]), rank(merged[i])));
        }
    }
}

/// What an index tells of a branch: its primary is one of its pull requests, an open one where it has an
/// open one, and none where it has none; the others are its prior ones.
pub proof fn lemma_index_of_branch(index: PullIndex, pulls: Seq<PullSummary>, branch: Seq<char>, i: int)
    requires
        indexed(index, pulls, branch),
        0 <= i < pulls.len(),
        pulls[i].head_ref_name@ == branch,
    ensures
        lookup(index.by_branch@, ranks(branch)) is Some,
        ({
            let primary = lookup(index.by_branch@, ranks(branch))->0;
            let prior = lookup(index.prior@, ranks(branch));
            &&& pulls.contains(primary) && primary.head_ref_name@ == branch
            &&& same_ignoring_case(pulls[i].state@, "OPEN"@) ==> same_ignoring_case(primary.state@, "OPEN"@)
            &&& pulls[i] == primary || prior is Some && prior->0@.contains(pulls[i])
        }),
{
    let listed = pulls.filter(headed(branch));
    pulls.lemma_filter_contains(headed(branch), i);
    let k = choose|k: int| 0 <= k < listed.len() && listed[k] == pulls[i];
    lemma_shadowed_stay_visible(listed, k);
    let at = primary_at(listed);
    assert(listed.contains(listed[at]));
    lemma_filter_has(pulls, headed(branch), listed[at]);
    if same_ignoring_case(pulls[i].state@, "OPEN"@) {
        lemma_open_beats_settled(listed, k);
    }
    if k != at {
        assert(listed.remove(at).contains(listed[k]));
    }
}

/// A branch that heads no pull request has none in an index.
pub proof fn lemma_unheaded_branch_is_not_indexed(index: PullIndex, pulls: Seq<PullSummary>, branch: Seq<char>)
    requires
        indexed(index, pulls, branch),
        forall|i: int| 0 <= i < pulls.len() ==> (#[trigger] pulls[i]).head_ref_name@ != branch,
    ensures
        lookup(index.by_branch@, ranks(branch)) is None,
        lookup(index.prior@, ranks(branch)) is None,
{
    let listed = pulls.filter(headed(branch));
    if listed.len() > 0 {
        assert(listed.contains(listed[0]));
        lemma_filter_has(pulls, headed(branch), listed[0]);
    }
}

/// The summary of a pull request is what it says itself.
pub proof fn lemma_summary_of_pull(pull: PullRequest)
    ensures
        ({
            let summary = summary_of(pull);
            &&& summary.number == pull.number && summary.state == pull.state
            &&& summary.head_ref_name == pull.head_ref_name && summary.head_ref_oid == pull.head_ref_oid
            &&& summary.updated_at == pull.updated_at && summary.is_draft == pull.is_draft
            &&& summary.review_decision == pull.review_decision && summary.url == pull.url
            &&& summary.base_ref_name == pull.base_ref_name && summary.merge_commit == pull.merge_commit
            &&& summary.head_repository_owner == pull.head_repository_owner
        }),
{
}

proof fn lemma_after_separators(s: Seq<char>, from: int)
    requires
        0 <= from <= s.len(),
    ensures
        from <= after_separators(s, from) <= s.len(),
        forall|i: int| from <= i < after_separators(s, from) ==> (#[trigger] s[i] == ':' || s[i] == '/'),
        after_separators(s, from) < s.len() ==> s[after_separators(s, from)] != ':' && s[after_separators(s, from)]
            != '/',
    decreases s.len() - from,
{
    if from < s.len() && (s[from] == ':' || s[from] == '/') {
        lemma_after_separators(s, from + 1);
    }
}

/// The owner that a remote names is what stands behind the forge's host and the colons or slashes after
/// it, up to the next slash; it is not empty and holds no slash. A remote without the host names none.
pub proof fn lemma_owner_of_remote(remote: Seq<char>)
    ensures
        owner_of(remote) is Some ==> contains_text(remote, "github.com"@),
        owner_of(remote) matches Some(owner) ==> owner.len() > 0 && owner[0] != ':' && !owner.contains('/'),
{
    if let Some(k) = first_match(remote, "github.com"@, 0) {
        lemma_first_match(remote, "github.com"@, 0);
        let start = after_separators(remote, k + "github.com"@.len());
        lemma_after_separators(remote, k + "github.com"@.len());
        lemma_next_at(remote, '/', start);
        let end = next_at(remote, '/', start);
        assert(remote.subrange(k, k + "github.com"@.len()) == "github.com"@);
        if start < end {
            let owner = remote.subrange(start, end);
            assert(owner[0] == remote[start]);
            if owner.contains('/') {
                let i = choose|i: int| 0 <= i < owner.len() && owner[i] == '/';
                assert(remote[start + i] == '/');
            }
        }
    }
}

/// Authors are searched for as the remotes name them, one after the other, and two of one name that follow
/// each other count once: none is lost, none is made up, and no two neighbours are the same.
pub proof fn lemma_authors(owners: Seq<Seq<char>>)
    ensures
        forall|owner: Seq<char>| #[trigger] without_repeats(owners).contains(owner) <==> owners.contains(owner),
        owners.len() > 0 ==> without_repeats(owners).len() > 0 && without_repeats(owners).last() == owners.last(),
        forall|i: int|
            0 < i < without_repeats(owners).len() ==> #[trigger] without_repeats(owners)[i] != without_repeats(owners)[i
                - 1],
    decreases owners.len(),
{
    if owners.len() > 0 {
        let rest = owners.drop_last();
        let last = owners.last();
        let kept = without_repeats(rest);
        lemma_authors(rest);
        assert(owners[owners.len() - 1] == last);
        assert forall|owner: Seq<char>| #[trigger] without_repeats(owners).contains(owner) <==> owners.contains(
            owner,
        ) by {
            assert(kept.contains(owner) <==> rest.contains(owner));
            if rest.contains(owner) {
                let i = choose|i: int| 0 <= i < rest.len() && rest[i] == owner;
                assert(owners[i] == owner);
            }
            if owners.contains(owner) && owner != last {
                let i = choose|i: int| 0 <= i < owners.len() && owners[i] == owner;
                assert(rest[i] == owner);
            }
            if owners.len() >= 2 && owners[owners.len() - 2] == last {
                assert(rest[rest.len() - 1] == last);
                assert(rest.contains(last));
            } else {
                let more = kept.push(last);
                assert(more[kept.len() as int] == last);
                if kept.contains(owner) {
                    let i = choose|i: int| 0 <= i < kept.len() && kept[i] == owner;
                    assert(more[i] == owner);
                }
                if more.contains(owner) && owner != last {
                    let i = choose|i: int| 0 <= i < more.len() && more[i] == owner;
                    assert(kept[i] == owner);
                }
            }
        }
    }
}

/// Of pull requests of which none is open the first that the forge lists is the primary one.
pub proof fn lemma_first_settled_is_primary(pulls: Seq<PullSummary>)
    requires
        pulls.len() > 0,
        forall|i: int| 0 <= i < pulls.len() ==> !same_ignoring_case((#[trigger] pulls[i]).state@, "OPEN"@),
    ensures
        primary_at(pulls) == 0,
{
    lemma_first_open(pulls, 0);
    if first_open(pulls, 0) < pulls.len() {
        assert(!same_ignoring_case(pulls[first_open(pulls, 0)].state@, "OPEN"@));
    }
}

} // verus!
