//! One row per branch: what the repository, the forge, the store and the ledger say of it.

use vstd::prelude::*;
use vstd::string::*;

use crate::commands::status::{
    about, notch_of, BranchRow, BranchState, LastNotch, OriginRelation, PriorPull, PriorView, PullCell, PullCellView,
    PushRelation, PushView, RowView,
};
use crate::detect::landed::LandedVerdict;
use crate::detect::stale_parents::{tip_of, BookmarkTips};
use crate::detect::{pull_label, Finding, FindingKind, FindingView, Subject, SubjectView};
use crate::forge::{
    failed_name, held_name, in_conflict, open_state, some_failed, some_held, some_pending, unanswered_fields,
    CheckRunView, ChecksSummary, PullDetails, PullFacts, PullRequest, PullSummary,
};
use crate::ids::{
    is_release_name, pull_number, pull_number_from_bookmark, release_name, short_text, BookmarkRef, BookmarkView,
    BranchName, CommitId, ReleaseScheme, RemoteName,
};
use crate::ledger::Entry;
use crate::order::{lookup, OrdMap};
use crate::seqs::{
    gathered, group_seqs, lemma_filter_map_has, lemma_filter_next, lemma_gathered_next, lemma_take_next, listed, pointee,
    view_of, views,
};
use crate::snapshot::Snapshot;
use crate::store::{stays_in_fork, Store};
use crate::text::{
    ascii_lower, decimal, decimal_text, eq_ignore_case, join, joined, lowercase, lowercase_text, ranks, replace_char, replaced,
    same, same_ignoring_case,
};

verus! {

/// The first pull request with that number.
pub open spec fn numbered_pull(
    index: Seq<(BranchName, PullSummary)>,
    number: u64,
    from: int,
) -> Option<PullSummary>
    decreases index.len() - from,
{
    if from >= index.len() {
        None
    } else if index[from].1.number == number {
        Some(index[from].1)
    } else {
        numbered_pull(index, number, from + 1)
    }
}

/// The pull request a bookmark refers to, by branch name or by fetched-head number.
pub open spec fn summary_for(branch: Seq<char>, index: Seq<(BranchName, PullSummary)>) -> Option<PullSummary> {
    match lookup(index, ranks(branch)) {
        Some(pull) => Some(pull),
        None => match pull_number(branch) {
            Some(number) => numbered_pull(index, number, 0),
            None => None,
        },
    }
}

/// The pull request a bookmark refers to, by branch name or by fetched-head number.
pub fn pull_summary_for<'a>(
    branch: &BranchName,
    index: &'a OrdMap<BranchName, PullSummary>,
) -> (pull: Option<&'a PullSummary>)
    ensures
        pointee(pull) == summary_for(branch@, index@),
{
    if let Some(pull) = index.get(branch) {
        return Some(pull);
    }
    let number = match pull_number_from_bookmark(branch.as_str()) {
        Some(number) => number,
        None => return None,
    };
    assert(lookup(index@, ranks(branch@)) is None);
    let mut i: usize = 0;
    while i < index.len()
        invariant
            i <= index@.len(),
            lookup(index@, ranks(branch@)) is None,
            pull_number(branch@) == Some(number),
            numbered_pull(index@, number, 0) == numbered_pull(index@, number, i as int),
        decreases index@.len() - i,
    {
        if index.value(i).number == number {
            return Some(index.value(i));
        }
        i += 1;
    }
    None
}

/// A shadowed pull request as a row shows it.
pub open spec fn prior_of(pull: PullSummary) -> PriorView {
    PriorView { number: pull.number, state: lowercase_text(pull.state@) }
}

/// The shadowed pull requests of one branch, compacted for its row.
pub open spec fn priors_for(branch: Seq<char>, prior: Seq<(BranchName, Vec<PullSummary>)>) -> Seq<PriorView> {
    match lookup(prior, ranks(branch)) {
        Some(list) => Seq::new(list@.len(), |i: int| prior_of(list@[i])),
        None => Seq::empty(),
    }
}

/// The shadowed pull requests of one branch, compacted for its row.
pub fn prior_pulls_for(
    branch: &BranchName,
    prior: &OrdMap<BranchName, Vec<PullSummary>>,
) -> (pulls: Vec<PriorPull>)
    ensures
        views(pulls@) == priors_for(branch@, prior@),
{
    broadcast use group_seqs;

    let mut pulls: Vec<PriorPull> = Vec::new();
    if let Some(list) = prior.get(branch) {
        let ghost all = priors_for(branch@, prior@);
        let mut i: usize = 0;
        while i < list.len()
            invariant
                i <= list@.len(),
                all == Seq::new(list@.len(), |i: int| prior_of(list@[i])),
                views(pulls@) == all.take(i as int),
            decreases list@.len() - i,
        {
            proof {
                lemma_take_next(all, i as int);
            }
            pulls.push(PriorPull { number: list[i].number, state: lowercase(list[i].state.as_str()) });
            i += 1;
        }
    }
    pulls
}

/// Whether a local branch is one of ours to look after, apart from fetched pull request heads.
pub open spec fn ours(branch: Seq<char>, trunk: Seq<char>, scheme: ReleaseScheme) -> bool {
    !release_name(branch, scheme) && branch != trunk
}

/// The branch of a tip that we maintain, with its commit.
pub open spec fn maintained(trunk: Seq<char>, scheme: ReleaseScheme) -> spec_fn((BookmarkRef, CommitId)) -> Option<
    (BranchName, CommitId),
> {
    |tip: (BookmarkRef, CommitId)|
        match tip.0 {
            BookmarkRef::Local(branch) => if ours(branch@, trunk, scheme) && pull_number(branch@) is None {
                Some((branch, tip.1))
            } else {
                None
            },
            BookmarkRef::Remote { .. } => None,
        }
}

/// Whether a tip is a fetched pull request head.
pub open spec fn fetched_head(trunk: Seq<char>, scheme: ReleaseScheme) -> spec_fn((BookmarkRef, CommitId)) -> bool {
    |tip: (BookmarkRef, CommitId)|
        match tip.0 {
            BookmarkRef::Local(branch) => ours(branch@, trunk, scheme) && pull_number(branch@) is Some,
            BookmarkRef::Remote { .. } => false,
        }
}

/// Branches we maintain apart from the configured trunk, and how many fetched pull request heads
/// were skipped.
pub fn maintained_branches(
    tips: &BookmarkTips,
    trunk: &str,
    scheme: &ReleaseScheme,
) -> (found: (Vec<(BranchName, CommitId)>, usize))
    ensures
        found.0@ == tips@.filter_map(maintained(trunk@, *scheme)),
        found.1 == tips@.filter(fetched_head(trunk@, *scheme)).len(),
{
    broadcast use group_seqs;

    let mut branches: Vec<(BranchName, CommitId)> = Vec::new();
    let mut heads: usize = 0;
    let mut i: usize = 0;
    while i < tips.len()
        invariant
            i <= tips@.len(),
            heads <= i,
            branches@ == tips@.take(i as int).filter_map(maintained(trunk@, *scheme)),
            heads == tips@.take(i as int).filter(fetched_head(trunk@, *scheme)).len(),
        decreases tips@.len() - i,
    {
        proof {
            tips@.lemma_filter_map_take_succ(maintained(trunk@, *scheme), i as int);
            lemma_filter_next(tips@, fetched_head(trunk@, *scheme), i as int);
        }
        if let BookmarkRef::Local(branch) = tips.key(i) {
            if !is_release_name(branch, scheme) && !same(branch.as_str(), trunk) {
                if pull_number_from_bookmark(branch.as_str()).is_some() {
                    heads += 1;
                } else {
                    branches.push((branch.clone(), tips.value(i).clone()));
                }
            }
        }
        assert(branches@ =~= tips@.take(i + 1).filter_map(maintained(trunk@, *scheme)));
        i += 1;
    }
    (branches, heads)
}

/// The live facts of a pull request, where the forge was asked.
pub open spec fn fact_of(snapshot: Option<Snapshot>, number: u64) -> Option<PullFacts> {
    match snapshot {
        Some(snapshot) => snapshot.known(number),
        None => None,
    }
}

fn fact_in<'a>(snapshot: Option<&'a Snapshot>, number: u64) -> (fact: Option<&'a PullFacts>)
    ensures
        pointee(fact) == fact_of(pointee(snapshot), number),
{
    match snapshot {
        Some(snapshot) => snapshot.fact(number),
        None => None,
    }
}

/// What a row shows of the pull request a branch was stated to be.
pub open spec fn stated_cell(stated: Option<u64>, snapshot: Option<Snapshot>) -> Option<PullCellView> {
    match stated {
        Some(number) => {
            let fact = fact_of(snapshot, number);
            Some(
                PullCellView {
                    number,
                    state: match fact {
                        Some(fact) => lowercase_text(fact.pull.state@),
                        None => "unknown"@,
                    },
                    draft: match fact {
                        Some(fact) => fact.pull.is_draft,
                        None => false,
                    },
                    stated: Some(true),
                    activity_at: match fact {
                        Some(fact) => view_of(fact.newest_comment),
                        None => None,
                    },
                    prior: Seq::empty(),
                },
            )
        },
        None => None,
    }
}

/// What a row shows of the pull request a branch was stated to be.
pub fn stated_pull_for(stated: Option<u64>, snapshot: Option<&Snapshot>) -> (cell: Option<PullCell>)
    ensures
        view_of(cell) == stated_cell(stated, pointee(snapshot)),
{
    broadcast use group_seqs;

    let number = match stated {
        Some(number) => number,
        None => return None,
    };
    let cell = match fact_in(snapshot, number) {
        Some(fact) => PullCell {
            number,
            state: lowercase(fact.pull.state.as_str()),
            draft: fact.pull.is_draft,
            stated: Some(true),
            activity_at: fact.newest_comment.clone(),
            prior: Vec::new(),
        },
        None => PullCell {
            number,
            state: "unknown".to_owned(),
            draft: false,
            stated: Some(true),
            activity_at: None,
            prior: Vec::new(),
        },
    };
    Some(cell)
}

/// What a row shows of its pull request: the inferred one where there is one, marked as stated or
/// with the stated one among its shadowed ones; else the stated one.
pub open spec fn cell_of(
    inferred: Option<PullRequest>,
    activity_at: Option<Seq<char>>,
    stated: Option<PullCellView>,
    prior: Seq<PriorView>,
) -> Option<PullCellView> {
    match inferred {
        Some(pull) => Some(
            PullCellView {
                number: pull.number,
                state: lowercase_text(pull.state@),
                draft: pull.is_draft,
                stated: match stated {
                    Some(cell) => if cell.number == pull.number {
                        Some(true)
                    } else {
                        None
                    },
                    None => None,
                },
                activity_at,
                prior: match stated {
                    Some(cell) => if cell.number == pull.number {
                        prior
                    } else {
                        prior.push(PriorView { number: cell.number, state: cell.state })
                    },
                    None => prior,
                },
            },
        ),
        None => match stated {
            Some(cell) => Some(PullCellView { prior, ..cell }),
            None => None,
        },
    }
}

/// What a row shows of its pull request.
pub fn pull_cell(
    inferred: Option<&PullRequest>,
    activity_at: Option<String>,
    stated: Option<PullCell>,
    prior: Vec<PriorPull>,
) -> (cell: Option<PullCell>)
    ensures
        view_of(cell) == cell_of(pointee(inferred), view_of(activity_at), view_of(stated), views(prior@)),
{
    broadcast use group_seqs;

    let mut prior = prior;
    match inferred {
        Some(pull) => {
            let mut marked: Option<bool> = None;
            if let Some(cell) = stated {
                if cell.number == pull.number {
                    marked = Some(true);
                } else {
                    prior.push(PriorPull { number: cell.number, state: cell.state });
                }
            }
            Some(
                PullCell {
                    number: pull.number,
                    state: lowercase(pull.state.as_str()),
                    draft: pull.is_draft,
                    stated: marked,
                    activity_at,
                    prior,
                },
            )
        },
        None => match stated {
            Some(cell) => Some(
                PullCell {
                    number: cell.number,
                    state: cell.state,
                    draft: cell.draft,
                    stated: cell.stated,
                    activity_at: cell.activity_at,
                    prior,
                },
            ),
            None => None,
        },
    }
}

/// Whether the newest review predates the branch head, when there was a review to compare.
pub open spec fn review_predates(details: Option<PullDetails>, pull: Option<PullRequest>) -> Option<bool> {
    match (pull, details) {
        (Some(pull), Some(details)) => if pull.review_decision@.len() == 0 {
            None
        } else {
            details.review_predates_head
        },
        _ => None,
    }
}

/// Whether the newest review predates the branch head, when there was a review to compare.
pub fn review_predates_head_from(
    details: Option<&PullDetails>,
    pull_request: Option<&PullRequest>,
) -> (answer: Option<bool>)
    ensures
        answer == review_predates(pointee(details), pointee(pull_request)),
{
    match (pull_request, details) {
        (Some(pull), Some(details)) => {
            if same(pull.review_decision.as_str(), "") {
                proof {
                    reveal_strlit("");
                }
                None
            } else {
                proof {
                    reveal_strlit("");
                    if pull.review_decision@.len() == 0 {
                        assert(pull.review_decision@ =~= ""@);
                    }
                }
                details.review_predates_head
            }
        },
        _ => None,
    }
}

/// What the forge's checks say, for an open pull request that was consulted.
pub open spec fn checks_of(details: Option<PullDetails>, pull: Option<PullRequest>) -> Option<ChecksSummary> {
    match (pull, details) {
        (Some(pull), Some(details)) => if open_state(pull.state@) {
            details.checks
        } else {
            None
        },
        _ => None,
    }
}

/// What the forge's checks say, for an open pull request that was consulted.
pub fn checks_from<'a>(
    details: Option<&'a PullDetails>,
    pull_request: Option<&PullRequest>,
) -> (checks: Option<&'a ChecksSummary>)
    ensures
        pointee(checks) == checks_of(pointee(details), pointee(pull_request)),
{
    match (pull_request, details) {
        (Some(pull), Some(details)) => {
            if pull.is_open() {
                match &details.checks {
                    Some(checks) => Some(checks),
                    None => None,
                }
            } else {
                None
            }
        },
        _ => None,
    }
}

/// The review column of an open pull request.
pub open spec fn review_text(pull: Option<PullRequest>) -> Option<Seq<char>> {
    match pull {
        Some(pull) => if !open_state(pull.state@) {
            None
        } else if pull.review_decision@.len() == 0 {
            Some("no-review"@)
        } else {
            Some(replaced(lowercase_text(pull.review_decision@), '_', '-'))
        },
        None => None,
    }
}

/// The review column of an open pull request.
pub fn review_cell(pull: Option<&PullRequest>) -> (cell: Option<String>)
    ensures
        view_of(cell) == review_text(pointee(pull)),
{
    let pull = match pull {
        Some(pull) => pull,
        None => return None,
    };
    if !pull.is_open() {
        return None;
    }
    proof {
        reveal_strlit("");
        if pull.review_decision@.len() == 0 {
            assert(pull.review_decision@ =~= ""@);
        }
    }
    if same(pull.review_decision.as_str(), "") {
        Some("no-review".to_owned())
    } else {
        let lowered = lowercase(pull.review_decision.as_str());
        Some(replace_char(lowered.as_str(), '_', '-'))
    }
}

/// The checks column of an open pull request whose checks are known.
pub open spec fn checks_text(pull: Option<PullRequest>, checks: Option<Seq<CheckRunView>>) -> Option<Seq<char>> {
    match (pull, checks) {
        (Some(pull), Some(runs)) => if !open_state(pull.state@) {
            None
        } else if some_failed(runs) {
            Some("failing"@)
        } else if some_held(runs) {
            Some("action-required"@)
        } else if runs.len() == 0 {
            Some("none-ran"@)
        } else if some_pending(runs) {
            Some("pending"@)
        } else {
            Some("ok"@)
        },
        _ => None,
    }
}

/// The checks column. `action-required` is a workflow the forge is holding for approval rather than
/// one that failed; the row is red either way, but a reader deciding whether to fix code or ask a
/// maintainer needs the difference.
pub fn checks_cell(pull: Option<&PullRequest>, checks: Option<&ChecksSummary>) -> (cell: Option<String>)
    ensures
        view_of(cell) == checks_text(pointee(pull), view_of(checks)),
{
    match (pull, checks) {
        (Some(pull), Some(checks)) => {
            if !pull.is_open() {
                None
            } else if checks.has_hard_failure() {
                Some("failing".to_owned())
            } else if checks.has_action_required() {
                Some("action-required".to_owned())
            } else if !checks.ran() {
                Some("none-ran".to_owned())
            } else if checks.pending() {
                Some("pending".to_owned())
            } else {
                Some("ok".to_owned())
            }
        },
        _ => None,
    }
}

/// What may be said of a branch: one answer per state, so that their precedence is explicit.
#[derive(Debug, Clone, Copy, PartialEq, Eq, Structural)]
pub struct BranchStateInput {
    pub fork_only: bool,
    pub divergent: bool,
    pub landed: bool,
    pub conflicted: bool,
    pub checks_failing: bool,
    pub changes_requested: bool,
    pub approved: bool,
    pub draft: bool,
    pub awaiting_review: bool,
    pub merged: bool,
    pub closed: bool,
    pub no_pr: bool,
}

impl Default for BranchStateInput {
    /// Nothing may be said.
    fn default() -> (input: Self)
        ensures
            forall|i: int| 0 <= i < by_precedence(input).len() ==> !(#[trigger] by_precedence(input)[i]).0,
    {
        BranchStateInput {
            fork_only: false,
            divergent: false,
            landed: false,
            conflicted: false,
            checks_failing: false,
            changes_requested: false,
            approved: false,
            draft: false,
            awaiting_review: false,
            merged: false,
            closed: false,
            no_pr: false,
        }
    }
}

/// The states with their answers, the one that decides first in front.
pub open spec fn by_precedence(input: BranchStateInput) -> Seq<(bool, BranchState)> {
    seq![
        (input.fork_only, BranchState::ForkOnly),
        (input.divergent, BranchState::Divergent),
        (input.landed, BranchState::Landed),
        (input.conflicted, BranchState::Conflicted),
        (input.checks_failing, BranchState::ChecksFailing),
        (input.changes_requested, BranchState::ChangesRequested),
        (input.draft, BranchState::Draft),
        (input.approved, BranchState::Approved),
        (input.awaiting_review, BranchState::AwaitingReview),
        (input.merged, BranchState::Merged),
        (input.closed, BranchState::Closed),
        (input.no_pr, BranchState::NoPr),
    ]
}

/// The first state from `from` on whose answer is yes.
pub open spec fn first_yes(answers: Seq<(bool, BranchState)>, from: int) -> BranchState
    decreases answers.len() - from,
{
    if from >= answers.len() {
        BranchState::Unknown
    } else if answers[from].0 {
        answers[from].1
    } else {
        first_yes(answers, from + 1)
    }
}

/// The first state whose answer is yes; unknown where there is none.
pub open spec fn first_state(input: BranchStateInput) -> BranchState {
    first_yes(by_precedence(input), 0)
}

/// Applies the taxonomy of branch states: the first match wins.
pub fn branch_state(input: BranchStateInput) -> (state: BranchState)
    ensures
        state == first_state(input),
{
    proof {
        reveal_with_fuel(first_yes, 13);
    }
    if input.fork_only {
        BranchState::ForkOnly
    } else if input.divergent {
        BranchState::Divergent
    } else if input.landed {
        BranchState::Landed
    } else if input.conflicted {
        BranchState::Conflicted
    } else if input.checks_failing {
        BranchState::ChecksFailing
    } else if input.changes_requested {
        BranchState::ChangesRequested
    } else if input.draft {
        BranchState::Draft
    } else if input.approved {
        BranchState::Approved
    } else if input.awaiting_review {
        BranchState::AwaitingReview
    } else if input.merged {
        BranchState::Merged
    } else if input.closed {
        BranchState::Closed
    } else if input.no_pr {
        BranchState::NoPr
    } else {
        BranchState::Unknown
    }
}

/// What the state of a branch is decided from.
#[derive(Clone, Copy)]
pub struct StateInput<'a> {
    pub fork_only: bool,
    pub divergent: bool,
    pub landed: Option<LandedVerdict>,
    pub pull: Option<&'a PullRequest>,
    pub checks: Option<&'a ChecksSummary>,
    pub forge_answered: bool,
    /// Whether the row shows a pull request at all.
    pub pr: bool,
}

/// What may be said of a branch by its pull request.
pub open spec fn answers_of(
    fork_only: bool,
    divergent: bool,
    landed: Option<LandedVerdict>,
    pull: Option<PullRequest>,
    checks: Option<Seq<CheckRunView>>,
    forge_answered: bool,
    pr: bool,
) -> BranchStateInput {
    let open = pull is Some && open_state(pull->0.state@);
    BranchStateInput {
        fork_only,
        divergent,
        landed: landed == Some(LandedVerdict::InTrunk),
        conflicted: open && in_conflict(view_of(pull->0.mergeable)),
        checks_failing: open && checks is Some && (some_failed(checks->0) || some_held(checks->0)),
        changes_requested: open && same_ignoring_case(pull->0.review_decision@, "CHANGES_REQUESTED"@),
        approved: open && same_ignoring_case(pull->0.review_decision@, "APPROVED"@),
        draft: open && pull->0.is_draft,
        awaiting_review: open,
        merged: pull is Some && same_ignoring_case(pull->0.state@, "MERGED"@),
        closed: pull is Some && same_ignoring_case(pull->0.state@, "CLOSED"@),
        no_pr: forge_answered && !pr,
    }
}

/// The state of a branch. An open pull request whose merge facts the forge did not report leaves it
/// unknown, whatever else is known.
pub open spec fn state_of(
    fork_only: bool,
    divergent: bool,
    landed: Option<LandedVerdict>,
    pull: Option<PullRequest>,
    checks: Option<Seq<CheckRunView>>,
    forge_answered: bool,
    pr: bool,
) -> BranchState {
    if pull is Some && open_state(pull->0.state@) && unanswered_fields(pull->0).len() > 0 {
        BranchState::Unknown
    } else {
        first_state(answers_of(fork_only, divergent, landed, pull, checks, forge_answered, pr))
    }
}

/// The state of a branch.
pub fn state_for(input: StateInput<'_>) -> (state: BranchState)
    ensures
        state == state_of(
            input.fork_only,
            input.divergent,
            input.landed,
            pointee(input.pull),
            view_of(input.checks),
            input.forge_answered,
            input.pr,
        ),
{
    let in_trunk = match input.landed {
        Some(LandedVerdict::InTrunk) => true,
        _ => false,
    };
    let no_pr = input.forge_answered && !input.pr;
    let answers = match input.pull {
        Some(pull) => {
            let open = pull.is_open();
            let missing = pull.missing_merge_fields();
            assert(missing@.len() == views(missing@).len());
            if open && missing.len() > 0 {
                return BranchState::Unknown;
            }
            let failing = match input.checks {
                Some(checks) => checks.failing(),
                None => false,
            };
            BranchStateInput {
                fork_only: input.fork_only,
                divergent: input.divergent,
                landed: in_trunk,
                conflicted: open && pull.conflicting(),
                checks_failing: open && failing,
                changes_requested: open && eq_ignore_case(pull.review_decision.as_str(), "CHANGES_REQUESTED"),
                approved: open && eq_ignore_case(pull.review_decision.as_str(), "APPROVED"),
                draft: open && pull.is_draft,
                awaiting_review: open,
                merged: eq_ignore_case(pull.state.as_str(), "MERGED"),
                closed: eq_ignore_case(pull.state.as_str(), "CLOSED"),
                no_pr,
            }
        },
        None => BranchStateInput {
            fork_only: input.fork_only,
            divergent: input.divergent,
            landed: in_trunk,
            conflicted: false,
            checks_failing: false,
            changes_requested: false,
            approved: false,
            draft: false,
            awaiting_review: false,
            merged: false,
            closed: false,
            no_pr,
        },
    };
    branch_state(answers)
}

/// The flags of a row.
pub open spec fn flags_of(pull: Option<PullRequest>, review_predates_head: Option<bool>) -> Seq<Seq<char>> {
    let behind = match pull {
        Some(pull) => match pull.merge_state_status {
            Some(status) => same_ignoring_case(status@, "BEHIND"@),
            None => false,
        },
        None => false,
    };
    (if behind {
        seq!["behind-base"@]
    } else {
        Seq::empty()
    }) + (if review_predates_head == Some(true) {
        seq!["review-stale"@]
    } else {
        Seq::empty()
    })
}

/// The flags of a row.
pub fn flags_for(pull: Option<&PullRequest>, review_predates_head: Option<bool>) -> (flags: Vec<String>)
    ensures
        views(flags@) == flags_of(pointee(pull), review_predates_head),
{
    broadcast use group_seqs;

    let mut flags: Vec<String> = Vec::new();
    let behind = match pull {
        Some(pull) => match &pull.merge_state_status {
            Some(status) => eq_ignore_case(status.as_str(), "BEHIND"),
            None => false,
        },
        None => false,
    };
    if behind {
        flags.push("behind-base".to_owned());
    }
    let stale = match review_predates_head {
        Some(true) => true,
        _ => false,
    };
    if stale {
        flags.push("review-stale".to_owned());
    }
    assert(views(flags@) =~= flags_of(pointee(pull), review_predates_head));
    flags
}

/// How a branch relates to origin, before origin's tip is named.
#[derive(Clone, Copy, Debug, PartialEq, Eq, Structural)]
pub enum PendingPushRelation {
    UnpushedCommits,
    Behind,
    Diverged,
    Unresolved,
}

/// How a row says that a branch relates to origin.
pub open spec fn push_of(origin_tip: Option<Seq<char>>, relation: Option<PendingPushRelation>) -> Option<PushView> {
    match origin_tip {
        None => Some(PushView::Unpushed),
        Some(origin) => match relation {
            None => None,
            Some(PendingPushRelation::UnpushedCommits) => Some(PushView::UnpushedCommits),
            Some(PendingPushRelation::Behind) => Some(PushView::Behind(short_text(origin))),
            Some(PendingPushRelation::Diverged) => Some(PushView::Diverged(short_text(origin))),
            Some(PendingPushRelation::Unresolved) => Some(PushView::Unresolved(short_text(origin))),
        },
    }
}

/// How a row says that a branch relates to origin.
pub fn push_for(origin_tip: Option<&CommitId>, relation: Option<PendingPushRelation>) -> (push: Option<PushRelation>)
    ensures
        view_of(push) == push_of(view_of(origin_tip), relation),
{
    match origin_tip {
        None => Some(PushRelation::Unpushed),
        Some(origin) => match relation {
            None => None,
            Some(PendingPushRelation::UnpushedCommits) => Some(PushRelation::UnpushedCommits),
            Some(PendingPushRelation::Behind) => Some(PushRelation::Behind(origin.short())),
            Some(PendingPushRelation::Diverged) => Some(PushRelation::Diverged(origin.short())),
            Some(PendingPushRelation::Unresolved) => Some(PushRelation::Unresolved(origin.short())),
        },
    }
}

/// A pull request that the forge did not answer fully, in words.
pub open spec fn missing_text(number: u64) -> spec_fn(Seq<char>) -> Seq<char> {
    |field: Seq<char>| "#"@ + decimal_text(number as nat) + ": forge did not report "@ + field
}

/// What the forge left unanswered about a pull request, in words.
pub open spec fn pull_problems(pull: Option<PullRequest>) -> Seq<Seq<char>> {
    match pull {
        Some(pull) => unanswered_fields(pull).map_values(missing_text(pull.number)),
        None => Seq::empty(),
    }
}

/// The finding of that kind about a pull request.
pub open spec fn about_pull(kind: FindingKind, number: u64, detail: Seq<char>) -> FindingView {
    FindingView { kind, subject: SubjectView::PullRequest(number), detail }
}

/// What is found of the checks of an open pull request: the names of those that failed, else of
/// those that are held for action.
pub open spec fn checks_finding(pull: PullRequest, checks: Option<Seq<CheckRunView>>) -> Option<FindingView> {
    match checks {
        Some(runs) => {
            let label = "#"@ + decimal_text(pull.number as nat);
            let failed = runs.filter_map(failed_name());
            let held = runs.filter_map(held_name());
            if !open_state(pull.state@) {
                None
            } else if failed.len() > 0 {
                Some(
                    about_pull(
                        FindingKind::ChecksFailing,
                        pull.number,
                        label + " has failing checks: "@ + joined(failed, ", "@),
                    ),
                )
            } else if held.len() > 0 {
                Some(
                    about_pull(
                        FindingKind::ChecksFailing,
                        pull.number,
                        label + " has "@ + decimal_text(held.len())
                            + " check(s) held for action (an unapproved workflow runs nothing): "@ + joined(
                            held,
                            ", "@,
                        ),
                    ),
                )
            } else {
                None
            }
        },
        None => None,
    }
}

/// What is found of a pull request that cannot be merged as it stands.
pub open spec fn conflict_finding(pull: PullRequest) -> Option<FindingView> {
    if in_conflict(view_of(pull.mergeable)) {
        Some(
            about_pull(
                FindingKind::Unmergeable,
                pull.number,
                "#"@ + decimal_text(pull.number as nat) + " cannot be merged as it stands"@,
            ),
        )
    } else {
        None
    }
}

/// What is found of a pull request whose newest review predates the head of its branch.
pub open spec fn review_finding(
    branch: Seq<char>,
    pull: PullRequest,
    review_predates_head: Option<bool>,
) -> Option<FindingView> {
    if review_predates_head == Some(true) {
        Some(
            about_pull(
                FindingKind::StaleReview,
                pull.number,
                "the newest review on #"@ + decimal_text(pull.number as nat)
                    + " predates the newest commit on "@ + branch,
            ),
        )
    } else {
        None
    }
}

/// What is found of an open pull request that targets another branch than expected.
pub open spec fn base_finding(pull: PullRequest, expected_base: Seq<char>) -> Option<FindingView> {
    match pull.base_ref_name {
        Some(base) => if open_state(pull.state@) && base@ != expected_base {
            Some(
                about_pull(
                    FindingKind::WrongBase,
                    pull.number,
                    "#"@ + decimal_text(pull.number as nat) + " targets "@ + base@ + ", not "@ + expected_base,
                ),
            )
        } else {
            None
        },
        None => None,
    }
}

/// Everything that is found of the pull request of a branch.
pub open spec fn pull_findings(
    branch: Seq<char>,
    pull: Option<PullRequest>,
    checks: Option<Seq<CheckRunView>>,
    review_predates_head: Option<bool>,
    expected_base: Seq<char>,
) -> Seq<FindingView> {
    match pull {
        Some(pull) => listed(conflict_finding(pull)) + listed(checks_finding(pull, checks)) + listed(
            review_finding(branch, pull, review_predates_head),
        ) + listed(base_finding(pull, expected_base)),
        None => Seq::empty(),
    }
}

/// What the findings about a pull request are made from.
#[derive(Clone, Copy)]
pub struct PullFindingInput<'a> {
    pub branch: &'a BranchName,
    pub pull: Option<&'a PullRequest>,
    pub checks: Option<&'a ChecksSummary>,
    pub review_predates_head: Option<bool>,
    pub expected_base: &'a str,
}

fn checks_detail(pull: &PullRequest, checks: &ChecksSummary) -> (detail: Option<String>)
    requires
        open_state(pull.state@),
    ensures
        match detail {
            Some(text) => checks_finding(*pull, Some(checks@)) == Some(
                about_pull(FindingKind::ChecksFailing, pull.number, text@),
            ),
            None => checks_finding(*pull, Some(checks@)) is None,
        },
{
    let failed = checks.hard_failure_names();
    let held = checks.action_required_names();
    assert(failed@.len() == views(failed@).len() && held@.len() == views(held@).len());
    let mut detail = pull_label(pull.number);
    if failed.len() > 0 {
        detail.append(" has failing checks: ");
        detail.append(join(&failed, ", ").as_str());
        Some(detail)
    } else if held.len() > 0 {
        detail.append(" has ");
        detail.append(decimal(held.len() as u64).as_str());
        detail.append(" check(s) held for action (an unapproved workflow runs nothing): ");
        detail.append(join(&held, ", ").as_str());
        Some(detail)
    } else {
        None
    }
}

fn add_missing(problems: &mut Vec<String>, pull: &PullRequest)
    ensures
        views(final(problems)@) == views(old(problems)@) + pull_problems(Some(*pull)),
{
    broadcast use group_seqs;

    let fields = pull.missing_merge_fields();
    let ghost before = views(problems@);
    let ghost all = pull_problems(Some(*pull));
    let mut i: usize = 0;
    while i < fields.len()
        invariant
            i <= fields@.len(),
            views(fields@) == unanswered_fields(*pull),
            all == unanswered_fields(*pull).map_values(missing_text(pull.number)),
            views(problems@) == before + all.take(i as int),
        decreases fields@.len() - i,
    {
        let mut problem = pull_label(pull.number);
        problem.append(": forge did not report ");
        problem.append(fields[i]);
        proof {
            assert(views(fields@)[i as int] == fields@[i as int]@);
            assert(problem@ == all[i as int]);
            lemma_take_next(all, i as int);
        }
        let ghost earlier = problems@;
        problems.push(problem);
        assert(views(problems@) =~= views(earlier).push(problem@));
        i += 1;
        assert(views(problems@) =~= before + all.take(i as int));
    }
    assert(all.len() == fields@.len());
}

/// Adds what is found of the pull request of a branch, and what the forge left unanswered about it.
pub fn add_pull_findings(problems: &mut Vec<String>, findings: &mut Vec<Finding>, input: PullFindingInput<'_>)
    ensures
        views(final(problems)@) == views(old(problems)@) + pull_problems(pointee(input.pull)),
        views(final(findings)@) == views(old(findings)@) + pull_findings(
            input.branch@,
            pointee(input.pull),
            view_of(input.checks),
            input.review_predates_head,
            input.expected_base@,
        ),
{
    broadcast use group_seqs;

    let pull = match input.pull {
        Some(pull) => pull,
        None => {
            assert(views(problems@) =~= views(problems@) + Seq::<Seq<char>>::empty());
            assert(views(findings@) =~= views(findings@) + Seq::<FindingView>::empty());
            return;
        },
    };
    let ghost start = views(findings@);
    let number = pull.number;
    add_missing(problems, pull);
    if pull.conflicting() {
        let mut detail = pull_label(number);
        detail.append(" cannot be merged as it stands");
        findings.push(Finding::new(FindingKind::Unmergeable, Subject::PullRequest(number), detail));
    }
    let ghost one = start + listed(conflict_finding(*pull));
    assert(views(findings@) =~= one);
    if pull.is_open() {
        if let Some(checks) = input.checks {
            if let Some(detail) = checks_detail(pull, checks) {
                findings.push(Finding::new(FindingKind::ChecksFailing, Subject::PullRequest(number), detail));
            }
        }
    }
    let ghost two = one + listed(checks_finding(*pull, view_of(input.checks)));
    assert(views(findings@) =~= two);
    let stale = match input.review_predates_head {
        Some(true) => true,
        _ => false,
    };
    if stale {
        let mut detail = "the newest review on #".to_owned();
        detail.append(decimal(number).as_str());
        detail.append(" predates the newest commit on ");
        detail.append(input.branch.as_str());
        findings.push(Finding::new(FindingKind::StaleReview, Subject::PullRequest(number), detail));
    }
    let ghost three = two + listed(review_finding(input.branch@, *pull, input.review_predates_head));
    assert(views(findings@) =~= three);
    if pull.is_open() {
        if let Some(base) = &pull.base_ref_name {
            if !same(base.as_str(), input.expected_base) {
                let mut detail = pull_label(number);
                detail.append(" targets ");
                detail.append(base.as_str());
                detail.append(", not ");
                detail.append(input.expected_base);
                findings.push(Finding::new(FindingKind::WrongBase, Subject::PullRequest(number), detail));
            }
        }
    }
    assert(views(findings@) =~= three + listed(base_finding(*pull, input.expected_base@)));
    assert(views(findings@) =~= start + pull_findings(
        input.branch@,
        Some(*pull),
        view_of(input.checks),
        input.review_predates_head,
        input.expected_base@,
    ));
}

/// The bookmark of a branch on origin.
pub open spec fn on_origin(branch: Seq<char>) -> BookmarkView {
    BookmarkView::Remote { branch, remote: "origin"@ }
}

/// The tip of a branch on origin.
pub fn origin_tip<'a>(branch: &BranchName, tips: &'a BookmarkTips) -> (tip: Option<&'a CommitId>)
    ensures
        view_of(tip) == tip_of(tips@, on_origin(branch@)),
{
    let bookmark = BookmarkRef::Remote { branch: branch.clone(), remote: RemoteName::new("origin") };
    assert(bookmark@ == on_origin(branch@));
    tips.get(&bookmark)
}

/// A divergent local branch that needs a row: neither a release cut nor the trunk nor a fetched
/// head.
pub open spec fn divergent_branch(trunk: Seq<char>, scheme: ReleaseScheme) -> spec_fn(
    (BookmarkRef, Vec<CommitId>),
) -> Option<BranchName> {
    |conflict: (BookmarkRef, Vec<CommitId>)|
        match conflict.0 {
            BookmarkRef::Local(branch) => if ours(branch@, trunk, scheme) && pull_number(branch@) is None {
                Some(branch)
            } else {
                None
            },
            BookmarkRef::Remote { .. } => None,
        }
}

/// The locally divergent branches that need rows but have no tip to probe, in the order of the
/// conflicted bookmarks.
pub fn divergent_branches(
    conflicted: &OrdMap<BookmarkRef, Vec<CommitId>>,
    trunk: &str,
    scheme: &ReleaseScheme,
) -> (branches: Vec<BranchName>)
    ensures
        branches@ == conflicted@.filter_map(divergent_branch(trunk@, *scheme)),
{
    broadcast use group_seqs;

    let mut branches: Vec<BranchName> = Vec::new();
    let mut i: usize = 0;
    while i < conflicted.len()
        invariant
            i <= conflicted@.len(),
            branches@ == conflicted@.take(i as int).filter_map(divergent_branch(trunk@, *scheme)),
        decreases conflicted@.len() - i,
    {
        proof {
            conflicted@.lemma_filter_map_take_succ(divergent_branch(trunk@, *scheme), i as int);
        }
        if let BookmarkRef::Local(branch) = conflicted.key(i) {
            if !is_release_name(branch, scheme) && !same(branch.as_str(), trunk)
                && pull_number_from_bookmark(branch.as_str()).is_none() {
                branches.push(branch.clone());
            }
        }
        assert(branches@ =~= conflicted@.take(i + 1).filter_map(divergent_branch(trunk@, *scheme)));
        i += 1;
    }
    branches
}

/// How a branch relates to origin, as far as that could be told.
pub open spec fn pending_of(relation: Result<Option<OriginRelation>, String>) -> Option<PendingPushRelation> {
    match relation {
        Ok(None) => None,
        Ok(Some(OriginRelation::Ahead)) => Some(PendingPushRelation::UnpushedCommits),
        Ok(Some(OriginRelation::Behind)) => Some(PendingPushRelation::Behind),
        Ok(Some(OriginRelation::Diverged)) => Some(PendingPushRelation::Diverged),
        Err(_) => Some(PendingPushRelation::Unresolved),
    }
}

/// What could not be told about a branch and origin, in words.
pub open spec fn relation_problem(
    branch: Seq<char>,
    relation: Result<Option<OriginRelation>, String>,
) -> Option<Seq<char>> {
    match relation {
        Ok(_) => None,
        Err(error) => Some("cannot tell how "@ + branch + " relates to origin: "@ + error@),
    }
}

/// How a branch relates to origin; a relation nobody could establish becomes a problem of its own.
pub fn record_origin_relation(
    problems: &mut Vec<String>,
    branch: &BranchName,
    relation: &Result<Option<OriginRelation>, String>,
) -> (pending: Option<PendingPushRelation>)
    ensures
        pending == pending_of(*relation),
        views(final(problems)@) == views(old(problems)@) + listed(relation_problem(branch@, *relation)),
{
    broadcast use group_seqs;

    let ghost before = views(problems@);
    let pending = match relation {
        Ok(None) => None,
        Ok(Some(OriginRelation::Ahead)) => Some(PendingPushRelation::UnpushedCommits),
        Ok(Some(OriginRelation::Behind)) => Some(PendingPushRelation::Behind),
        Ok(Some(OriginRelation::Diverged)) => Some(PendingPushRelation::Diverged),
        Err(error) => {
            let mut problem = "cannot tell how ".to_owned();
            problem.append(branch.as_str());
            problem.append(" relates to origin: ");
            problem.append(error.as_str());
            problems.push(problem);
            Some(PendingPushRelation::Unresolved)
        },
    };
    assert(views(problems@) =~= before + listed(relation_problem(branch@, *relation)));
    pending
}

/// What every row of a report is made from.
#[derive(Clone, Copy)]
pub struct RowContext<'a> {
    pub store: &'a Store,
    /// What the forge answered; absent where it was not asked.
    pub snapshot: Option<&'a Snapshot>,
    pub notches: &'a [Entry],
    pub expected_base: &'a str,
}

/// What the repository says of one branch.
#[derive(Debug)]
pub enum RowFacts {
    /// A branch with one tip.
    Single {
        tip: CommitId,
        landed: Option<LandedVerdict>,
        origin: Option<CommitId>,
        relation: Result<Option<OriginRelation>, String>,
    },
    /// A branch whose bookmark names several commits.
    Divergent { origin: Option<CommitId> },
}

impl RowFacts {
    /// How the branch relates to origin.
    pub open spec fn push(self) -> Option<PushView> {
        match self {
            RowFacts::Single { origin, relation, .. } => push_of(view_of(origin), pending_of(relation)),
            RowFacts::Divergent { origin } => push_of(view_of(origin), Some(PendingPushRelation::Unresolved)),
        }
    }

    /// What could not be told about the branch.
    pub open spec fn problem(self, branch: Seq<char>) -> Option<Seq<char>> {
        match self {
            RowFacts::Single { relation, .. } => relation_problem(branch, relation),
            RowFacts::Divergent { .. } => None,
        }
    }

    /// Whether the trunk has the branch, as far as it was judged.
    pub open spec fn verdict(self) -> Option<LandedVerdict> {
        match self {
            RowFacts::Single { landed, .. } => landed,
            RowFacts::Divergent { .. } => None,
        }
    }

    /// The abbreviated tip.
    pub open spec fn tip_text(self) -> Option<Seq<char>> {
        match self {
            RowFacts::Single { tip, .. } => Some(short_text(tip@)),
            RowFacts::Divergent { .. } => None,
        }
    }
}

/// The pull request facts of a branch.
pub open spec fn branch_fact(snapshot: Option<Snapshot>, branch: Seq<char>) -> Option<PullFacts> {
    match snapshot {
        Some(snapshot) => match summary_for(branch, snapshot.index.by_branch@) {
            Some(summary) => snapshot.known(summary.number),
            None => None,
        },
        None => None,
    }
}

/// The pull request of facts.
pub open spec fn pull_in(fact: Option<PullFacts>) -> Option<PullRequest> {
    match fact {
        Some(fact) => Some(fact.pull),
        None => None,
    }
}

/// The details of facts.
pub open spec fn details_in(fact: Option<PullFacts>) -> Option<PullDetails> {
    match fact {
        Some(fact) => Some(fact.details),
        None => None,
    }
}

/// When the pull request of facts last saw a comment.
pub open spec fn activity_in(fact: Option<PullFacts>) -> Option<Seq<char>> {
    match fact {
        Some(fact) => view_of(fact.newest_comment),
        None => None,
    }
}

/// The shadowed pull requests that a snapshot has for a branch.
pub open spec fn prior_in(snapshot: Option<Snapshot>, branch: Seq<char>) -> Seq<PriorView> {
    match snapshot {
        Some(snapshot) => priors_for(branch, snapshot.index.prior@),
        None => Seq::empty(),
    }
}

/// What a row shows of the pull request of its branch.
pub open spec fn row_cell(store: Store, snapshot: Option<Snapshot>, branch: Seq<char>) -> Option<PullCellView> {
    let fact = branch_fact(snapshot, branch);
    cell_of(
        pull_in(fact),
        activity_in(fact),
        stated_cell(lookup(store.stated@, ranks(branch)), snapshot),
        prior_in(snapshot, branch),
    )
}

/// What a row says of a branch.
pub open spec fn row_of(context: RowContext, branch: Seq<char>, facts: RowFacts) -> RowView {
    let snapshot = pointee(context.snapshot);
    let fact = branch_fact(snapshot, branch);
    let pull = pull_in(fact);
    let details = details_in(fact);
    let checks = view_of(checks_of(details, pull));
    let pr = row_cell(*context.store, snapshot, branch);
    RowView {
        name: branch,
        state: state_of(
            stays_in_fork(*context.store, branch),
            facts is Divergent,
            facts.verdict(),
            pull,
            checks,
            snapshot is Some,
            pr is Some,
        ),
        tip: facts.tip_text(),
        push: facts.push(),
        pr,
        review: review_text(pull),
        checks: checks_text(pull, checks),
        landed: facts.verdict(),
        flags: flags_of(pull, review_predates(details, pull)),
        claim: None,
        last_seen: None,
        seen: None,
        workspace: None,
        notch: notch_of(context.notches@.filter(about(Some(branch)))),
    }
}

/// What could not be answered about a branch.
pub open spec fn row_problems(context: RowContext, branch: Seq<char>, facts: RowFacts) -> Seq<Seq<char>> {
    pull_problems(pull_in(branch_fact(pointee(context.snapshot), branch))) + listed(facts.problem(branch))
}

/// What is found of the pull request of a branch.
pub open spec fn row_findings(context: RowContext, branch: Seq<char>) -> Seq<FindingView> {
    let fact = branch_fact(pointee(context.snapshot), branch);
    pull_findings(
        branch,
        pull_in(fact),
        view_of(checks_of(details_in(fact), pull_in(fact))),
        review_predates(details_in(fact), pull_in(fact)),
        context.expected_base@,
    )
}

fn fact_for<'a>(snapshot: Option<&'a Snapshot>, branch: &BranchName) -> (fact: Option<&'a PullFacts>)
    ensures
        pointee(fact) == branch_fact(pointee(snapshot), branch@),
{
    match snapshot {
        Some(snapshot) => match pull_summary_for(branch, &snapshot.index.by_branch) {
            Some(summary) => snapshot.fact(summary.number),
            None => None,
        },
        None => None,
    }
}

/// The row of one branch; what is found and what could not be answered on the way is added.
pub fn build_branch_row(
    context: &RowContext<'_>,
    problems: &mut Vec<String>,
    findings: &mut Vec<Finding>,
    branch: &BranchName,
    facts: &RowFacts,
) -> (row: BranchRow)
    ensures
        row@ == row_of(*context, branch@, *facts),
        row.name == *branch,
        views(final(problems)@) == views(old(problems)@) + row_problems(*context, branch@, *facts),
        views(final(findings)@) == views(old(findings)@) + row_findings(*context, branch@),
{
    broadcast use group_seqs;

    let ghost start = views(problems@);
    let fact = fact_for(context.snapshot, branch);
    let (pull, details, activity) = match fact {
        Some(fact) => (Some(&fact.pull), Some(&fact.details), fact.newest_comment.clone()),
        None => (None, None, None),
    };
    assert(pointee(pull) == pull_in(pointee(fact)));
    assert(pointee(details) == details_in(pointee(fact)));
    assert(view_of(activity) == activity_in(pointee(fact)));
    let checks = checks_from(details, pull);
    assert(view_of(checks) == view_of(checks_of(pointee(details), pointee(pull))));
    let review_predates_head = review_predates_head_from(details, pull);
    add_pull_findings(
        problems,
        findings,
        PullFindingInput {
            branch,
            pull,
            checks,
            review_predates_head,
            expected_base: context.expected_base,
        },
    );
    let (divergent, tip, landed, push) = match facts {
        RowFacts::Single { tip, landed, origin, relation } => {
            let pending = record_origin_relation(problems, branch, relation);
            let push = push_for(origin.as_ref(), pending);
            (false, Some(tip.short()), *landed, push)
        },
        RowFacts::Divergent { origin } => {
            let push = push_for(origin.as_ref(), Some(PendingPushRelation::Unresolved));
            (true, None, None, push)
        },
    };
    assert(views(problems@) =~= start + row_problems(*context, branch@, *facts));
    let prior = match context.snapshot {
        Some(snapshot) => prior_pulls_for(branch, &snapshot.index.prior),
        None => Vec::new(),
    };
    let pr = pull_cell(
        pull,
        activity,
        stated_pull_for(context.store.tracked_pull(branch), context.snapshot),
        prior,
    );
    let state = state_for(
        StateInput {
            fork_only: context.store.is_fork_only(branch),
            divergent,
            landed,
            pull,
            checks,
            forge_answered: context.snapshot.is_some(),
            pr: pr.is_some(),
        },
    );
    BranchRow {
        name: branch.clone(),
        state,
        tip,
        push,
        pr,
        review: review_cell(pull),
        checks: checks_cell(pull, checks),
        landed,
        flags: flags_for(pull, review_predates_head),
        claim: None,
        last_seen: None,
        seen: None,
        workspace: None,
        notch: LastNotch::of(context.notches, Some(branch.as_str())),
    }
}

/// A maintained branch, as the probes take it.
#[derive(Debug, PartialEq, Eq)]
pub struct ProbeInput {
    pub branch: BranchName,
    pub tip: CommitId,
    /// Absent when the branch has no origin counterpart to compare against.
    pub origin_tip: Option<CommitId>,
}

/// A maintained branch with what was asked about it.
#[derive(Debug)]
pub struct ProbedBranch {
    pub input: ProbeInput,
    pub verdict: Result<Option<LandedVerdict>, String>,
    pub relation: Result<Option<OriginRelation>, String>,
}

/// What the repository says of a probed branch.
pub open spec fn single(probed: ProbedBranch) -> RowFacts {
    RowFacts::Single {
        tip: probed.input.tip,
        landed: match probed.verdict {
            Ok(landed) => landed,
            Err(_) => None,
        },
        origin: probed.input.origin_tip,
        relation: probed.relation,
    }
}

/// The first refusal to judge a branch, from `from` on.
pub open spec fn first_refusal(probed: Seq<ProbedBranch>, from: int) -> Option<Seq<char>>
    decreases probed.len() - from,
{
    if from >= probed.len() {
        None
    } else {
        match probed[from].verdict {
            Err(error) => Some(error@),
            Ok(_) => first_refusal(probed, from + 1),
        }
    }
}

/// The name of a branch whose landed state could not be judged.
pub open spec fn unjudged_name() -> spec_fn(ProbedBranch) -> Option<Seq<char>> {
    |probed: ProbedBranch|
        if probed.verdict == Ok::<Option<LandedVerdict>, String>(Some(LandedVerdict::Unjudged)) {
            Some(probed.input.branch@)
        } else {
            None
        }
}

/// The rows of probed branches.
pub open spec fn probed_rows(context: RowContext, probed: Seq<ProbedBranch>) -> Seq<RowView> {
    Seq::new(probed.len(), |i: int| row_of(context, probed[i].input.branch@, single(probed[i])))
}

/// What could not be answered about a probed branch.
pub open spec fn probed_problems(context: RowContext) -> spec_fn(ProbedBranch) -> Seq<Seq<char>> {
    |probed: ProbedBranch| row_problems(context, probed.input.branch@, single(probed))
}

/// What is found of the pull request of a probed branch.
pub open spec fn probed_findings(context: RowContext) -> spec_fn(ProbedBranch) -> Seq<FindingView> {
    |probed: ProbedBranch| row_findings(context, probed.input.branch@)
}

/// Rows, and what came up while they were made.
#[derive(Debug)]
pub struct Rows {
    pub rows: Vec<BranchRow>,
    /// The branches whose landed state could not be judged.
    pub unjudged: Vec<String>,
    pub problems: Vec<String>,
    pub findings: Vec<Finding>,
}

fn relation_copy(relation: &Result<Option<OriginRelation>, String>) -> (copy: Result<Option<OriginRelation>, String>)
    ensures
        copy == *relation,
{
    match relation {
        Ok(relation) => Ok(*relation),
        Err(error) => Err(error.clone()),
    }
}

/// The rows of the maintained branches, or the first refusal to judge one of them.
pub fn branch_rows(context: &RowContext<'_>, probed: &Vec<ProbedBranch>) -> (rows: Result<Rows, String>)
    ensures
        match rows {
            Ok(rows) => {
                &&& first_refusal(probed@, 0) is None
                &&& views(rows.rows@) == probed_rows(*context, probed@)
                &&& views(rows.unjudged@) == probed@.filter_map(unjudged_name())
                &&& views(rows.problems@) == gathered(probed@, probed_problems(*context))
                &&& views(rows.findings@) == gathered(probed@, probed_findings(*context))
            },
            Err(error) => first_refusal(probed@, 0) == Some(error@),
        },
{
    broadcast use group_seqs;

    let mut rows: Vec<BranchRow> = Vec::new();
    let mut unjudged: Vec<String> = Vec::new();
    let mut problems: Vec<String> = Vec::new();
    let mut findings: Vec<Finding> = Vec::new();
    let ghost all = probed_rows(*context, probed@);
    let mut i: usize = 0;
    while i < probed.len()
        invariant
            i <= probed@.len(),
            all == probed_rows(*context, probed@),
            first_refusal(probed@, 0) == first_refusal(probed@, i as int),
            views(rows@) == all.take(i as int),
            views(unjudged@) == probed@.take(i as int).filter_map(unjudged_name()),
            views(problems@) == gathered(probed@.take(i as int), probed_problems(*context)),
            views(findings@) == gathered(probed@.take(i as int), probed_findings(*context)),
        decreases probed@.len() - i,
    {
        let branch = &probed[i];
        proof {
            lemma_take_next(all, i as int);
            probed@.lemma_filter_map_take_succ(unjudged_name(), i as int);
            lemma_gathered_next(probed@, probed_problems(*context), i as int);
            lemma_gathered_next(probed@, probed_findings(*context), i as int);
        }
        let landed = match &branch.verdict {
            Ok(landed) => *landed,
            Err(error) => return Err(error.clone()),
        };
        if let Some(LandedVerdict::Unjudged) = landed {
            unjudged.push(branch.input.branch.text.clone());
        }
        assert(views(unjudged@) =~= probed@.take(i + 1).filter_map(unjudged_name()));
        let facts = RowFacts::Single {
            tip: branch.input.tip.clone(),
            landed,
            origin: branch.input.origin_tip.clone(),
            relation: relation_copy(&branch.relation),
        };
        assert(facts == single(probed@[i as int]));
        let row = build_branch_row(context, &mut problems, &mut findings, &branch.input.branch, &facts);
        rows.push(row);
        i += 1;
    }
    Ok(Rows { rows, unjudged, problems, findings })
}

/// What the repository says of a divergent branch.
pub open spec fn several(branch: Seq<char>, tips: Seq<(BookmarkRef, CommitId)>) -> RowFacts {
    RowFacts::Divergent { origin: lookup(tips, crate::ids::bookmark_rank(on_origin(branch))) }
}

/// The rows of divergent branches.
pub open spec fn divergent_views(
    context: RowContext,
    branches: Seq<BranchName>,
    tips: Seq<(BookmarkRef, CommitId)>,
) -> Seq<RowView> {
    Seq::new(branches.len(), |i: int| row_of(context, branches[i]@, several(branches[i]@, tips)))
}

/// What could not be answered about a divergent branch.
pub open spec fn divergent_problems(
    context: RowContext,
    tips: Seq<(BookmarkRef, CommitId)>,
) -> spec_fn(BranchName) -> Seq<Seq<char>> {
    |branch: BranchName| row_problems(context, branch@, several(branch@, tips))
}

/// What is found of the pull request of a divergent branch.
pub open spec fn divergent_findings(context: RowContext) -> spec_fn(BranchName) -> Seq<FindingView> {
    |branch: BranchName| row_findings(context, branch@)
}

/// Rows for divergent local bookmarks.
pub fn divergent_rows(context: &RowContext<'_>, branches: &Vec<BranchName>, tips: &BookmarkTips) -> (rows: Rows)
    ensures
        views(rows.rows@) == divergent_views(*context, branches@, tips@),
        rows.unjudged@.len() == 0,
        views(rows.problems@) == gathered(branches@, divergent_problems(*context, tips@)),
        views(rows.findings@) == gathered(branches@, divergent_findings(*context)),
{
    broadcast use group_seqs;

    let mut rows: Vec<BranchRow> = Vec::new();
    let mut problems: Vec<String> = Vec::new();
    let mut findings: Vec<Finding> = Vec::new();
    let ghost all = divergent_views(*context, branches@, tips@);
    let mut i: usize = 0;
    while i < branches.len()
        invariant
            i <= branches@.len(),
            all == divergent_views(*context, branches@, tips@),
            views(rows@) == all.take(i as int),
            views(problems@) == gathered(branches@.take(i as int), divergent_problems(*context, tips@)),
            views(findings@) == gathered(branches@.take(i as int), divergent_findings(*context)),
        decreases branches@.len() - i,
    {
        let branch = &branches[i];
        proof {
            lemma_take_next(all, i as int);
            lemma_gathered_next(branches@, divergent_problems(*context, tips@), i as int);
            lemma_gathered_next(branches@, divergent_findings(*context), i as int);
        }
        let bookmark = BookmarkRef::Remote { branch: branch.clone(), remote: RemoteName::new("origin") };
        assert(bookmark@ == on_origin(branch@));
        let origin = match tips.get(&bookmark) {
            Some(commit) => Some(commit.clone()),
            None => None,
        };
        let facts = RowFacts::Divergent { origin };
        assert(facts == several(branch@, tips@));
        let row = build_branch_row(context, &mut problems, &mut findings, branch, &facts);
        rows.push(row);
        i += 1;
    }
    Rows { rows, unjudged: Vec::new(), problems, findings }
}

proof fn lemma_first_yes(answers: Seq<(bool, BranchState)>, from: int, k: int)
    requires
        0 <= from <= k < answers.len(),
        answers[k].0,
        forall|i: int| from <= i < k ==> !(#[trigger] answers[i]).0,
    ensures
        first_yes(answers, from) == answers[k].1,
    decreases k - from,
{
    if from < k {
        assert(!answers[from].0);
        lemma_first_yes(answers, from + 1, k);
    }
}

/// A branch has the first state in the order of precedence that holds of it: a later one never hides
/// an earlier one.
pub proof fn lemma_earlier_state_wins(input: BranchStateInput, k: int)
    requires
        0 <= k < by_precedence(input).len(),
        by_precedence(input)[k].0,
        forall|i: int| 0 <= i < k ==> !(#[trigger] by_precedence(input)[i]).0,
    ensures
        first_state(input) == by_precedence(input)[k].1,
{
    lemma_first_yes(by_precedence(input), 0, k);
}

/// An open pull request whose merge fields the forge did not answer leaves the branch's state
/// unknown, whatever else is known of it.
pub proof fn lemma_unanswered_pull_is_unknown(
    fork_only: bool,
    divergent: bool,
    landed: Option<LandedVerdict>,
    pull: PullRequest,
    checks: Option<Seq<CheckRunView>>,
    forge_answered: bool,
    pr: bool,
)
    requires
        open_state(pull.state@),
        unanswered_fields(pull).len() > 0,
    ensures
        state_of(fork_only, divergent, landed, Some(pull), checks, forge_answered, pr) == BranchState::Unknown,
{
}

/// The state of a branch whose pull request is open and answered, state by state. What only the branch
/// knows comes first, then a conflict, then a check that failed or is held, then what the review
/// decided and whether it is a draft: where none of the earlier ones holds, changes are requested
/// exactly if the review decision says so, and the branch is approved exactly if it says that.
pub proof fn lemma_state_of_open_pull(
    fork_only: bool,
    divergent: bool,
    landed: Option<LandedVerdict>,
    pull: PullRequest,
    checks: Option<Seq<CheckRunView>>,
    forge_answered: bool,
    pr: bool,
)
    requires
        same_ignoring_case(pull.state@, "OPEN"@),
        pull.mergeable is Some,
        pull.merge_state_status is Some,
        pull.base_ref_name is Some,
    ensures
        ({
            let state = state_of(fork_only, divergent, landed, Some(pull), checks, forge_answered, pr);
            let decision = pull.review_decision@;
            let conflicting = same_ignoring_case(pull.mergeable->0@, "CONFLICTING"@);
            let failing = checks is Some && exists|i: int|
                0 <= i < checks->0.len() && ((#[trigger] checks->0[i]).hard_failure() || checks->0[i].action_required());
            let elsewhere = !fork_only && !divergent && landed != Some(LandedVerdict::InTrunk);
            let passing = elsewhere && !conflicting && !failing;
            &&& state == BranchState::ForkOnly <==> fork_only
            &&& state == BranchState::Divergent <==> !fork_only && divergent
            &&& state == BranchState::Landed <==> !fork_only && !divergent && landed == Some(LandedVerdict::InTrunk)
            &&& state == BranchState::Conflicted <==> elsewhere && conflicting
            &&& state == BranchState::ChecksFailing <==> elsewhere && !conflicting && failing
            &&& passing ==> (state == BranchState::ChangesRequested <==> same_ignoring_case(
                decision,
                "CHANGES_REQUESTED"@,
            ))
            &&& passing && !pull.is_draft ==> (state == BranchState::Approved <==> same_ignoring_case(
                decision,
                "APPROVED"@,
            ))
            &&& passing && !same_ignoring_case(decision, "CHANGES_REQUESTED"@) ==> (state == BranchState::Draft
                <==> pull.is_draft)
            &&& passing && !pull.is_draft ==> (state == BranchState::AwaitingReview <==> !same_ignoring_case(
                decision,
                "CHANGES_REQUESTED"@,
            ) && !same_ignoring_case(decision, "APPROVED"@))
        }),
{
    reveal_with_fuel(first_yes, 13);
    reveal_strlit("CHANGES_REQUESTED");
    reveal_strlit("APPROVED");
    if let Some(runs) = checks {
        if some_failed(runs) || some_held(runs) {
            let i = choose|i: int|
                0 <= i < runs.len() && ((#[trigger] runs[i]).hard_failure() || runs[i].action_required());
            assert(runs[i].hard_failure() || runs[i].action_required());
        }
    }
}

/// The state of a branch without an open pull request: what only the branch knows comes first, then
/// that its pull request merged or was closed. It has none exactly if the forge answered and the row
/// shows none; where the forge did not answer, nothing is known.
pub proof fn lemma_state_without_open_pull(
    fork_only: bool,
    divergent: bool,
    landed: Option<LandedVerdict>,
    pull: Option<PullRequest>,
    checks: Option<Seq<CheckRunView>>,
    forge_answered: bool,
    pr: bool,
)
    requires
        pull matches Some(found) ==> !same_ignoring_case(found.state@, "OPEN"@),
    ensures
        ({
            let state = state_of(fork_only, divergent, landed, pull, checks, forge_answered, pr);
            let elsewhere = !fork_only && !divergent && landed != Some(LandedVerdict::InTrunk);
            let merged = pull is Some && same_ignoring_case(pull->0.state@, "MERGED"@);
            let closed = pull is Some && same_ignoring_case(pull->0.state@, "CLOSED"@);
            &&& state == BranchState::ForkOnly <==> fork_only
            &&& state == BranchState::Divergent <==> !fork_only && divergent
            &&& state == BranchState::Landed <==> !fork_only && !divergent && landed == Some(LandedVerdict::InTrunk)
            &&& state == BranchState::Merged <==> elsewhere && merged
            &&& state == BranchState::Closed <==> elsewhere && closed
            &&& state == BranchState::NoPr <==> elsewhere && !merged && !closed && forge_answered && !pr
            &&& state == BranchState::Unknown <==> elsewhere && !merged && !closed && (!forge_answered || pr)
        }),
{
    reveal_with_fuel(first_yes, 13);
    reveal_strlit("MERGED");
    reveal_strlit("CLOSED");
    if let Some(found) = pull {
        if same_ignoring_case(found.state@, "MERGED"@) && same_ignoring_case(found.state@, "CLOSED"@) {
            assert(ascii_lower(found.state@[0]) == ascii_lower("MERGED"@[0]));
            assert(ascii_lower(found.state@[0]) == ascii_lower("CLOSED"@[0]));
        }
    }
}

/// An open pull request that lacks whether it can be merged, the state of that, or its base leaves the
/// state unknown, and each one that it lacks is a problem.
pub proof fn lemma_each_unanswered_field_counts(
    fork_only: bool,
    divergent: bool,
    landed: Option<LandedVerdict>,
    pull: PullRequest,
    checks: Option<Seq<CheckRunView>>,
    forge_answered: bool,
    pr: bool,
)
    ensures
        same_ignoring_case(pull.state@, "OPEN"@) && (pull.mergeable is None || pull.merge_state_status is None
            || pull.base_ref_name is None) ==> state_of(
            fork_only,
            divergent,
            landed,
            Some(pull),
            checks,
            forge_answered,
            pr,
        ) == BranchState::Unknown,
        pull_problems(Some(pull)).contains(
            "#"@ + decimal_text(pull.number as nat) + ": forge did not report "@ + "mergeable"@,
        ) || pull.mergeable is Some,
        pull_problems(Some(pull)).contains(
            "#"@ + decimal_text(pull.number as nat) + ": forge did not report "@ + "mergeStateStatus"@,
        ) || pull.merge_state_status is Some,
        pull_problems(Some(pull)).contains(
            "#"@ + decimal_text(pull.number as nat) + ": forge did not report "@ + "baseRefName"@,
        ) || pull.base_ref_name is Some,
        pull_problems(Some(pull)).len() == 0 <==> pull.mergeable is Some && pull.merge_state_status is Some
            && pull.base_ref_name is Some,
{
    let fields = unanswered_fields(pull);
    let said = pull_problems(Some(pull));
    let f = missing_text(pull.number);
    let a: int = if pull.mergeable is None {
        1
    } else {
        0
    };
    let b: int = if pull.merge_state_status is None {
        1
    } else {
        0
    };
    if pull.mergeable is None {
        assert(fields[0] == "mergeable"@);
        assert(said[0] == f("mergeable"@));
    }
    if pull.merge_state_status is None {
        assert(fields[a] == "mergeStateStatus"@);
        assert(said[a] == f("mergeStateStatus"@));
    }
    if pull.base_ref_name is None {
        assert(fields[a + b] == "baseRefName"@);
        assert(said[a + b] == f("baseRefName"@));
    }
}

proof fn lemma_numbered_pull(index: Seq<(BranchName, PullSummary)>, number: u64, from: int)
    requires
        0 <= from,
    ensures
        match numbered_pull(index, number, from) {
            Some(pull) => pull.number == number && exists|i: int|
                from <= i < index.len() && (#[trigger] index[i]).1 == pull,
            None => forall|i: int| from <= i < index.len() ==> (#[trigger] index[i]).1.number != number,
        },
    decreases index.len() - from,
{
    if from < index.len() && index[from].1.number != number {
        lemma_numbered_pull(index, number, from + 1);
    }
}

/// The pull request of a branch is the one indexed under its name; a bookmark of a pull request that is
/// not has the indexed one of its number; any other branch has none.
pub proof fn lemma_pull_of_branch(branch: Seq<char>, index: Seq<(BranchName, PullSummary)>)
    ensures
        lookup(index, ranks(branch)) is Some ==> summary_for(branch, index) == lookup(index, ranks(branch)),
        lookup(index, ranks(branch)) is None && pull_number(branch) is None ==> summary_for(branch, index) is None,
        lookup(index, ranks(branch)) is None && pull_number(branch) is Some ==> {
            let number = pull_number(branch)->0;
            &&& summary_for(branch, index) is Some <==> exists|i: int|
                0 <= i < index.len() && (#[trigger] index[i]).1.number == number
            &&& summary_for(branch, index) matches Some(pull) ==> pull.number == number
        },
{
    if let Some(number) = pull_number(branch) {
        lemma_numbered_pull(index, number, 0);
    }
}

/// What a row shows of a pull request: the one the forge knows, as it knows it, and what was stated
/// beside it. A stated one that is another than the one known is listed as a prior one, and one that the
/// forge says nothing of is unknown.
pub proof fn lemma_cell_of_pull(
    inferred: Option<PullRequest>,
    activity_at: Option<Seq<char>>,
    stated: Option<PullCellView>,
    prior: Seq<PriorView>,
)
    ensures
        cell_of(inferred, activity_at, stated, prior) is Some <==> inferred is Some || stated is Some,
        inferred matches Some(pull) ==> {
            let cell = cell_of(inferred, activity_at, stated, prior)->0;
            let other = stated is Some && stated->0.number != pull.number;
            &&& cell.number == pull.number
            &&& cell.state == lowercase_text(pull.state@)
            &&& cell.draft == pull.is_draft
            &&& cell.activity_at == activity_at
            &&& cell.stated == Some(true) <==> stated is Some && stated->0.number == pull.number
            &&& cell.prior.len() == prior.len() + (if other {
                1int
            } else {
                0int
            })
            &&& other ==> cell.prior.last().number == stated->0.number && cell.prior.last().state == stated->0.state
            &&& forall|i: int| 0 <= i < prior.len() ==> #[trigger] cell.prior[i] == prior[i]
        },
        inferred is None && stated is Some ==> {
            let cell = cell_of(inferred, activity_at, stated, prior)->0;
            cell.number == stated->0.number && cell.state == stated->0.state && cell.stated == stated->0.stated
                && cell.prior == prior
        },
{
}

/// A stated pull request is shown as the forge knows it, and as unknown where it does not.
pub proof fn lemma_stated_pull(number: u64, snapshot: Option<Snapshot>)
    ensures
        stated_cell(None, snapshot) is None,
        stated_cell(Some(number), snapshot) matches Some(cell) && cell.number == number && cell.stated == Some(true),
        snapshot is Some && snapshot->0.facts@.contains_key(number) ==> {
            let cell = stated_cell(Some(number), snapshot)->0;
            let fact = snapshot->0.facts@[number];
            cell.state == lowercase_text(fact.pull.state@) && cell.draft == fact.pull.is_draft && cell.activity_at
                == view_of(fact.newest_comment)
        },
        snapshot is None || !snapshot->0.facts@.contains_key(number) ==> {
            let cell = stated_cell(Some(number), snapshot)->0;
            cell.state == "unknown"@ && !cell.draft && cell.activity_at is None
        },
{
}

/// What a row says of the review of a pull request: nothing unless it is open, that there is none where
/// the decision is empty, else the decision.
pub proof fn lemma_review_of_open_pull(pull: Option<PullRequest>)
    ensures
        review_text(pull) is Some <==> pull is Some && same_ignoring_case(pull->0.state@, "OPEN"@),
        review_text(pull) is Some && pull->0.review_decision@.len() == 0 ==> review_text(pull) == Some("no-review"@),
        review_text(pull) is Some && pull->0.review_decision@.len() > 0 ==> review_text(pull) == Some(
            replaced(lowercase_text(pull->0.review_decision@), '_', '-'),
        ),
{
}

/// What a row says of the checks of an open pull request: a failure before one that is held, that none
/// ran, and one that has not completed before all is well. Of one that is not open it says nothing.
pub proof fn lemma_checks_of_open_pull(pull: Option<PullRequest>, checks: Option<Seq<CheckRunView>>)
    ensures
        checks_text(pull, checks) is Some <==> pull is Some && checks is Some && same_ignoring_case(
            pull->0.state@,
            "OPEN"@,
        ),
        checks_text(pull, checks) matches Some(text) ==> {
            let runs = checks->0;
            let failed = exists|i: int| 0 <= i < runs.len() && (#[trigger] runs[i]).hard_failure();
            let held = exists|i: int| 0 <= i < runs.len() && (#[trigger] runs[i]).action_required();
            let pending = exists|i: int| 0 <= i < runs.len() && (#[trigger] runs[i]).conclusion is None;
            &&& text == "failing"@ <==> failed
            &&& text == "action-required"@ <==> !failed && held
            &&& text == "none-ran"@ <==> runs.len() == 0
            &&& text == "pending"@ <==> !failed && !held && pending
            &&& text == "ok"@ <==> !failed && !held && !pending && runs.len() > 0
        },
{
    reveal_strlit("failing");
    reveal_strlit("action-required");
    reveal_strlit("none-ran");
    reveal_strlit("pending");
    reveal_strlit("ok");
    assert("failing"@.len() == 7 && "action-required"@.len() == 15 && "none-ran"@.len() == 8 && "pending"@.len() == 7
        && "ok"@.len() == 2);
    assert("failing"@ != "pending"@) by {
        assert("failing"@[0] == 'f');
        assert("pending"@[0] == 'p');
    }
    if let (Some(found), Some(runs)) = (pull, checks) {
        if same_ignoring_case(found.state@, "OPEN"@) {
            assert(some_failed(runs) <==> exists|i: int| 0 <= i < runs.len() && (#[trigger] runs[i]).hard_failure());
            assert(some_held(runs) <==> exists|i: int|
                0 <= i < runs.len() && (#[trigger] runs[i]).action_required());
            assert(some_pending(runs) <==> exists|i: int|
                0 <= i < runs.len() && (#[trigger] runs[i]).conclusion is None);
        }
    }
}

/// A row is flagged as behind its base exactly if the forge says that, and as reviewed before its head
/// exactly if the review is known to predate it.
pub proof fn lemma_flags_of_row(pull: Option<PullRequest>, review_predates_head: Option<bool>)
    ensures
        flags_of(pull, review_predates_head).contains("behind-base"@) <==> pull is Some
            && pull->0.merge_state_status is Some && same_ignoring_case(pull->0.merge_state_status->0@, "BEHIND"@),
        flags_of(pull, review_predates_head).contains("review-stale"@) <==> review_predates_head == Some(true),
        flags_of(pull, review_predates_head).len() <= 2,
{
    reveal_strlit("behind-base");
    reveal_strlit("review-stale");
    let flags = flags_of(pull, review_predates_head);
    let behind = pull is Some && pull->0.merge_state_status is Some && same_ignoring_case(
        pull->0.merge_state_status->0@,
        "BEHIND"@,
    );
    if behind {
        assert(flags[0] == "behind-base"@);
    }
    if review_predates_head == Some(true) {
        assert(flags[flags.len() - 1] == "review-stale"@);
    }
    assert("behind-base"@.len() == 11 && "review-stale"@.len() == 12);
}

/// How a branch stands to what was pushed of it: without a tip on the origin it is unpushed, and else it
/// is what the relation of the two says. Two tips of which neither is told to contain the other diverged.
pub proof fn lemma_push_of_branch(
    tip: CommitId,
    landed: Option<LandedVerdict>,
    origin: Option<CommitId>,
    relation: Result<Option<OriginRelation>, String>,
)
    ensures
        ({
            let facts = RowFacts::Single { tip, landed, origin, relation };
            &&& facts.push() == Some(PushView::Unpushed) <==> origin is None
            &&& facts.push() is None <==> origin is Some && relation == Ok::<Option<OriginRelation>, String>(None)
            &&& facts.push() == Some(PushView::UnpushedCommits) <==> origin is Some && relation == Ok::<
                Option<OriginRelation>,
                String,
            >(Some(OriginRelation::Ahead))
            &&& origin is Some ==> (facts.push() == Some(PushView::Behind(short_text(origin->0@))) <==> relation
                == Ok::<Option<OriginRelation>, String>(Some(OriginRelation::Behind)))
            &&& origin is Some ==> (facts.push() == Some(PushView::Diverged(short_text(origin->0@))) <==> relation
                == Ok::<Option<OriginRelation>, String>(Some(OriginRelation::Diverged)))
            &&& origin is Some ==> (facts.push() == Some(PushView::Unresolved(short_text(origin->0@)))
                <==> relation is Err)
            &&& facts.verdict() == landed
            &&& facts.tip_text() == Some(short_text(tip@))
        }),
        relation_problem(tip@, relation) is Some <==> relation is Err,
{
}

/// A branch with several tips has no tip, is judged by nobody, and leaves open how it stands to what was
/// pushed of it.
pub proof fn lemma_divergent_row(origin: Option<CommitId>, branch: Seq<char>)
    ensures
        ({
            let facts = RowFacts::Divergent { origin };
            &&& facts.tip_text() is None
            &&& facts.verdict() is None
            &&& facts.problem(branch) is None
            &&& origin is None ==> facts.push() == Some(PushView::Unpushed)
            &&& origin is Some ==> facts.push() == Some(PushView::Unresolved(short_text(origin->0@)))
        }),
{
}

/// What is found of a pull request, kind by kind: that it cannot be merged, that an open one has a check
/// that failed or is held, that its review predates its head, and that an open one has another base than
/// the expected one.
pub proof fn lemma_findings_of_pull(
    branch: Seq<char>,
    pull: PullRequest,
    checks: Option<Seq<CheckRunView>>,
    review_predates_head: Option<bool>,
    expected_base: Seq<char>,
)
    ensures
        conflict_finding(pull) is Some <==> pull.mergeable is Some && same_ignoring_case(
            pull.mergeable->0@,
            "CONFLICTING"@,
        ),
        conflict_finding(pull) matches Some(finding) ==> finding.kind == FindingKind::Unmergeable && finding.subject
            == SubjectView::PullRequest(pull.number),
        checks_finding(pull, checks) is Some <==> same_ignoring_case(pull.state@, "OPEN"@) && checks is Some && exists|
            i: int,
        |
            0 <= i < checks->0.len() && ((#[trigger] checks->0[i]).hard_failure() || checks->0[i].action_required()),
        checks_finding(pull, checks) matches Some(finding) ==> finding.kind == FindingKind::ChecksFailing
            && finding.subject == SubjectView::PullRequest(pull.number),
        review_finding(branch, pull, review_predates_head) is Some <==> review_predates_head == Some(true),
        review_finding(branch, pull, review_predates_head) matches Some(finding) ==> finding.kind
            == FindingKind::StaleReview && finding.subject == SubjectView::PullRequest(pull.number),
        base_finding(pull, expected_base) is Some <==> same_ignoring_case(pull.state@, "OPEN"@)
            && pull.base_ref_name is Some && pull.base_ref_name->0@ != expected_base,
        base_finding(pull, expected_base) matches Some(finding) ==> finding.kind == FindingKind::WrongBase
            && finding.subject == SubjectView::PullRequest(pull.number) && finding.detail == "#"@ + decimal_text(
            pull.number as nat,
        ) + " targets "@ + pull.base_ref_name->0@ + ", not "@ + expected_base,
        pull_findings(branch, Some(pull), checks, review_predates_head, expected_base).len() == (if conflict_finding(
            pull,
        ) is Some {
            1int
        } else {
            0int
        }) + (if checks_finding(pull, checks) is Some {
            1int
        } else {
            0int
        }) + (if review_finding(branch, pull, review_predates_head) is Some {
            1int
        } else {
            0int
        }) + (if base_finding(pull, expected_base) is Some {
            1int
        } else {
            0int
        }),
        pull_findings(branch, None, checks, review_predates_head, expected_base).len() == 0,
{
    if let Some(runs) = checks {
        let failed = runs.filter_map(failed_name());
        let held = runs.filter_map(held_name());
        if failed.len() > 0 {
            assert(failed.contains(failed[0]));
            lemma_filter_map_has(runs, failed_name(), failed[0]);
        }
        if held.len() > 0 {
            assert(held.contains(held[0]));
            lemma_filter_map_has(runs, held_name(), held[0]);
        }
        assert forall|i: int| 0 <= i < runs.len() && (#[trigger] runs[i]).hard_failure() implies failed.len() > 0 by {
            lemma_filter_map_has(runs, failed_name(), runs[i].name);
            assert(failed_name()(runs[i]) == Some(runs[i].name));
            assert(failed.contains(runs[i].name));
        }
        assert forall|i: int| 0 <= i < runs.len() && (#[trigger] runs[i]).action_required() implies held.len() > 0 by {
            lemma_filter_map_has(runs, held_name(), runs[i].name);
            assert(held_name()(runs[i]) == Some(runs[i].name));
            assert(held.contains(runs[i].name));
        }
    }
}

/// A branch is maintained exactly if it is local and is neither the trunk, nor a release, nor the bookmark
/// of a pull request; the last kind is what counts as a fetched head. With several tips it diverges.
pub proof fn lemma_maintained_branches(
    trunk: Seq<char>,
    scheme: ReleaseScheme,
    tip: (BookmarkRef, CommitId),
    conflict: (BookmarkRef, Vec<CommitId>),
)
    ensures
        maintained(trunk, scheme)(tip) is Some <==> tip.0@ is Local && tip.0@.branch() != trunk && !release_name(
            tip.0@.branch(),
            scheme,
        ) && pull_number(tip.0@.branch()) is None,
        maintained(trunk, scheme)(tip) matches Some(branch) ==> branch.0@ == tip.0@.branch() && branch.1 == tip.1,
        fetched_head(trunk, scheme)(tip) <==> tip.0@ is Local && tip.0@.branch() != trunk && !release_name(
            tip.0@.branch(),
            scheme,
        ) && pull_number(tip.0@.branch()) is Some,
        divergent_branch(trunk, scheme)(conflict) is Some <==> conflict.0@ is Local && conflict.0@.branch() != trunk
            && !release_name(conflict.0@.branch(), scheme) && pull_number(conflict.0@.branch()) is None,
        divergent_branch(trunk, scheme)(conflict) matches Some(branch) ==> branch@ == conflict.0@.branch(),
{
}

/// Whether a review predates the head is asked only of a pull request that has a review decision, and its
/// checks only of one that is open.
pub proof fn lemma_what_details_tell(details: PullDetails, pull: PullRequest)
    ensures
        review_predates(Some(details), Some(pull)) == (if pull.review_decision@.len() > 0 {
            details.review_predates_head
        } else {
            None
        }),
        same_ignoring_case(pull.state@, "OPEN"@) ==> checks_of(Some(details), Some(pull)) == details.checks,
        !same_ignoring_case(pull.state@, "OPEN"@) ==> checks_of(Some(details), Some(pull)) is None,
        review_predates(None, Some(pull)) is None && review_predates(Some(details), None) is None,
        checks_of(None, Some(pull)) is None && checks_of(Some(details), None) is None,
{
}

/// A row tells of a branch what its own facts tell: its state is that of its pull request, of which it
/// shows the review, the checks and the flags, and its landing is its own.
pub proof fn lemma_row_of_branch(context: RowContext, branch: Seq<char>, facts: RowFacts)
    ensures
        ({
            let row = row_of(context, branch, facts);
            let fact = branch_fact(pointee(context.snapshot), branch);
            &&& row.name == branch
            &&& row.landed == facts.verdict()
            &&& row.tip == facts.tip_text()
            &&& row.push == facts.push()
            &&& context.snapshot is None ==> row.review is None && row.checks is None && row.flags.len() == 0
            &&& context.snapshot is None && !stays_in_fork(*context.store, branch) && facts is Single
                && facts.verdict() != Some(LandedVerdict::InTrunk) ==> row.state == BranchState::Unknown
            &&& stays_in_fork(*context.store, branch) && fact is None ==> row.state == BranchState::ForkOnly
            &&& fact is Some && lookup(context.store.stated@, ranks(branch)) is None ==> row.pr is Some
                && row.pr->0.number == fact->0.pull.number
            &&& row.claim is None && row.last_seen is None && row.workspace is None
        }),
{
    reveal_with_fuel(first_yes, 13);
}

} // verus!
