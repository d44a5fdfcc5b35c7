//! Fetch, then classify what happened to each pull request that is followed.

use std::collections::{BTreeMap, BTreeSet};

use vstd::prelude::*;
use vstd::string::*;

use crate::cli::Exit;
use crate::forge::{PullFacts, PullSummary};
use crate::ids::{BranchName, CommitId, RepoName};
use crate::numbered::{at_number, members_in_order, rising};
use crate::order::{
    ascending, lemma_lex_asymmetric, lemma_lex_irreflexive, lemma_lookup_absent, lex_less, lookup, OrdMap, Ordered,
};
use crate::pieces::{lemma_number_round_trip, number_of, number_within, pad, padded, parse_u64};
use crate::seqs::{group_seqs, lemma_take_next, pointee, view_of, views};
use crate::store::{PullRecord, Store};
use crate::text::{
    ascii_lower, decimal, decimal_text, eq_ignore_case, join, joined, lemma_ranks_injective, lowercase, lowercase_text, marked, prefix,
    push_marked, ranks, same,
    same_ignoring_case, shortened, text_precedes,
};

verus! {

broadcast use group_seqs;

/// What happened to a pull request since the last run.
#[derive(Debug, Clone, Copy, PartialEq, Eq, Structural)]
pub enum PullState {
    Unchanged,
    Advanced,
    /// Seen for the first time. A first sighting is recorded silently, like comment marks: the forge
    /// already holds the history, so a pull request that merged months before it was followed is
    /// `New`, not `Merged`.
    New,
    Merged,
    Closed,
    /// Recorded settled last time, open now.
    Reopened,
}

impl PullState {
    /// The name of the state.
    pub open spec fn label(self) -> Seq<char> {
        match self {
            PullState::Unchanged => "unchanged"@,
            PullState::New => "new"@,
            PullState::Advanced => "advanced"@,
            PullState::Merged => "merged"@,
            PullState::Closed => "closed"@,
            PullState::Reopened => "reopened"@,
        }
    }

    /// The name of the state.
    pub fn as_str(self) -> (label: &'static str)
        ensures
            label@ == self.label(),
    {
        match self {
            PullState::Unchanged => "unchanged",
            PullState::New => "new",
            PullState::Advanced => "advanced",
            PullState::Merged => "merged",
            PullState::Closed => "closed",
            PullState::Reopened => "reopened",
        }
    }
}

/// Whether a state of the forge says merged.
pub open spec fn says_merged(state: Seq<char>) -> bool {
    same_ignoring_case(state, "MERGED"@)
}

/// Whether a state of the forge says closed.
pub open spec fn says_closed(state: Seq<char>) -> bool {
    same_ignoring_case(state, "CLOSED"@)
}

/// Whether a state of the forge says open.
pub open spec fn says_open(state: Seq<char>) -> bool {
    same_ignoring_case(state, "OPEN"@)
}

/// What happened to a pull request since the last run, from what was recorded then and what is seen
/// now.
pub open spec fn classified(
    previous_head: Option<Seq<char>>,
    previous_state: Option<Seq<char>>,
    current_head: Seq<char>,
    state: Seq<char>,
) -> PullState {
    let before = match previous_state {
        Some(recorded) => recorded,
        None => "OPEN"@,
    };
    if previous_state is None && previous_head is None {
        PullState::New
    } else if says_merged(state) {
        if says_merged(before) {
            PullState::Unchanged
        } else {
            PullState::Merged
        }
    } else if says_closed(state) {
        if says_closed(before) {
            PullState::Unchanged
        } else {
            PullState::Closed
        }
    } else if says_open(state) && (says_merged(before) || says_closed(before)) {
        PullState::Reopened
    } else if previous_head is Some && previous_head != Some(current_head) {
        PullState::Advanced
    } else {
        PullState::Unchanged
    }
}

/// What happened to a pull request since the last run.
///
/// `previous_state` is the state the forge gave the last time this pull request was looked at;
/// `previous_head` is the head recorded then. Neither recorded means a first sighting, which is
/// always `New`, whatever the forge says now: the forge already holds the history, and replaying a
/// pull request's entire past as one event the moment it is followed would misdate it. A head
/// recorded without a state is a prior sighting while open, so its settling or moving is a
/// transition. After that, the state of the forge wins over head movement, but a settled pull
/// request that was already recorded settled is `Unchanged`: the forge repeats a terminal state on
/// every run, and that repetition is not a new event.
pub fn classify_pull(
    previous_head: Option<&str>,
    previous_state: Option<&str>,
    current_head: &str,
    state: &str,
) -> (what: PullState)
    ensures
        what == classified(view_of(previous_head), view_of(previous_state), current_head@, state@),
{
    let before = match previous_state {
        Some(recorded) => recorded,
        None => {
            if previous_head.is_none() {
                return PullState::New;
            }
            "OPEN"
        },
    };
    let was_merged = eq_ignore_case(before, "MERGED");
    let was_closed = eq_ignore_case(before, "CLOSED");
    if eq_ignore_case(state, "MERGED") {
        if was_merged {
            PullState::Unchanged
        } else {
            PullState::Merged
        }
    } else if eq_ignore_case(state, "CLOSED") {
        if was_closed {
            PullState::Unchanged
        } else {
            PullState::Closed
        }
    } else if eq_ignore_case(state, "OPEN") && (was_merged || was_closed) {
        PullState::Reopened
    } else {
        match previous_head {
            Some(seen) => if same(seen, current_head) {
                PullState::Unchanged
            } else {
                PullState::Advanced
            },
            None => PullState::Unchanged,
        }
    }
}

/// What became of a pull request that is followed.
#[derive(Debug, PartialEq, Eq)]
pub struct Row {
    pub number: u64,
    pub label: String,
    pub state: PullState,
    /// Where the pull request stands with the forge, in lower case, or `unknown` when no forge was
    /// consulted. `state` names the transition since the last run; this names where the pull request
    /// stands now.
    pub forge_state: String,
}

/// What a row says.
pub struct RowView {
    pub number: u64,
    pub label: Seq<char>,
    pub state: PullState,
    pub forge_state: Seq<char>,
}

impl View for Row {
    type V = RowView;

    open spec fn view(&self) -> RowView {
        RowView { number: self.number, label: self.label@, state: self.state, forge_state: self.forge_state@ }
    }
}

/// What a run saw of the pull requests of a repository.
#[derive(Debug, PartialEq, Eq)]
pub struct Report {
    pub repo: String,
    pub rows: Vec<Row>,
    pub notes: Vec<String>,
    pub problems: Vec<String>,
}

impl Default for Report {
    fn default() -> (report: Self)
        ensures
            report.repo@ == ""@,
            report.rows@.len() == 0,
            report.notes@.len() == 0,
            report.problems@.len() == 0,
    {
        Report { repo: "".to_owned(), rows: Vec::new(), notes: Vec::new(), problems: Vec::new() }
    }
}

/// The branch of the last of the pull requests that has the number.
pub open spec fn last_branch(pulls: Seq<PullSummary>, number: u64) -> Option<Seq<char>>
    decreases pulls.len(),
{
    if pulls.len() == 0 {
        None
    } else if pulls.last().number == number {
        Some(pulls.last().head_ref_name@)
    } else {
        last_branch(pulls.drop_last(), number)
    }
}

/// Whether a number stands among recorded heads.
pub open spec fn recorded_number(seen: Seq<(String, String)>, number: u64) -> bool {
    exists|i: int| 0 <= i < seen.len() && #[trigger] number_of(seen[i].0@) == Some(number as nat)
}

/// A number behind a number sign.
pub open spec fn sharp(number: u64) -> Seq<char> {
    "#"@ + decimal_text(number as nat)
}

fn numbered(number: u64) -> (text: String)
    ensures
        text@ == sharp(number),
{
    let mut text = "#".to_owned();
    text.append(decimal(number).as_str());
    text
}

/// What a followed pull request is called: its branch where it is listed, else its number.
pub open spec fn followed_as(
    pulls: Seq<PullSummary>,
    foreign: Set<u64>,
    seen: Seq<(String, String)>,
    number: u64,
) -> Option<Seq<char>> {
    match last_branch(pulls, number) {
        Some(branch) => Some(branch),
        None => if recorded_number(seen, number) {
            Some(sharp(number))
        } else if foreign.contains(number) {
            Some(sharp(number) + " (foreign)"@)
        } else {
            None
        },
    }
}

/// Which pull requests are ours to follow.
///
/// Ours means: a pull request whose head is a branch we carry, plus foreign ones we deliberately
/// carry as release parents, plus anything followed before. Every open pull request on the upstream
/// is not our business and buries the signal.
pub fn tracked_pull_requests(
    pull_requests: &[PullSummary],
    foreign: &BTreeSet<u64>,
    seen: &OrdMap<String, String>,
) -> (followed: OrdMap<u64, String>)
    ensures
        forall|n: u64| #[trigger]
            view_of(lookup(followed@, n.rank())) == followed_as(pull_requests@, foreign@, seen@, n),
{
    let mut followed: OrdMap<u64, String> = OrdMap::new();
    let mut i: usize = 0;
    while i < pull_requests.len()
        invariant
            i <= pull_requests@.len(),
            forall|n: u64| #[trigger]
                view_of(lookup(followed@, n.rank())) == last_branch(pull_requests@.take(i as int), n),
        decreases pull_requests@.len() - i,
    {
        let ghost before = followed@;
        let number = pull_requests[i].number;
        followed.insert(number, pull_requests[i].head_ref_name.clone());
        proof {
            let more = pull_requests@.take(i + 1);
            assert(more.drop_last() =~= pull_requests@.take(i as int));
            assert forall|n: u64| #[trigger] view_of(lookup(followed@, n.rank())) == last_branch(more, n) by {
                assert(n.rank()[0] == n && number.rank()[0] == number);
                assert(view_of(lookup(before, n.rank())) == last_branch(pull_requests@.take(i as int), n));
            }
        }
        i += 1;
    }
    assert(pull_requests@.take(i as int) =~= pull_requests@);
    let mut k: usize = 0;
    while k < seen.len()
        invariant
            k <= seen@.len(),
            forall|n: u64| #[trigger]
                view_of(lookup(followed@, n.rank())) == followed_as(
                    pull_requests@,
                    Set::empty(),
                    seen@.take(k as int),
                    n,
                ),
        decreases seen@.len() - k,
    {
        let ghost before = followed@;
        let ghost upto = seen@.take(k as int);
        let ghost more = seen@.take(k + 1);
        proof {
            lemma_take_next(seen@, k as int);
            assert forall|n: u64| #[trigger] recorded_number(more, n) == (recorded_number(upto, n) || number_of(
                seen@[k as int].0@,
            ) == Some(n as nat)) by {
                if recorded_number(upto, n) {
                    let j = choose|j: int| 0 <= j < upto.len() && #[trigger] number_of(upto[j].0@) == Some(n as nat);
                    assert(more[j] == upto[j]);
                }
                if recorded_number(more, n) {
                    let j = choose|j: int| 0 <= j < more.len() && #[trigger] number_of(more[j].0@) == Some(n as nat);
                    if j < k {
                        assert(number_of(upto[j].0@) == Some(n as nat));
                    }
                }
                assert(more[k as int] == seen@[k as int]);
            }
        }
        match parse_u64(seen.key(k).as_str()) {
            Some(number) => {
                if !followed.contains_key(&number) {
                    followed.insert(number, numbered(number));
                }
                proof {
                    assert forall|n: u64| #[trigger]
                        view_of(lookup(followed@, n.rank())) == followed_as(pull_requests@, Set::empty(), more, n) by {
                        assert(n.rank()[0] == n && number.rank()[0] == number);
                        assert(view_of(lookup(before, n.rank())) == followed_as(
                            pull_requests@,
                            Set::empty(),
                            upto,
                            n,
                        ));
                        assert(recorded_number(more, n) == (recorded_number(upto, n) || n == number));
                    }
                }
            },
            None => {
                proof {
                    assert forall|n: u64| #[trigger]
                        view_of(lookup(followed@, n.rank())) == followed_as(pull_requests@, Set::empty(), more, n) by {
                        assert(number_within(seen@[k as int].0@, u64::MAX as nat) is None);
                        assert(recorded_number(more, n) == recorded_number(upto, n));
                    }
                }
            },
        }
        k += 1;
    }
    assert(seen@.take(k as int) =~= seen@);
    let numbers = members_in_order(foreign);
    let mut m: usize = 0;
    while m < numbers.len()
        invariant
            m <= numbers@.len(),
            forall|n: u64| #[trigger]
                view_of(lookup(followed@, n.rank())) == followed_as(
                    pull_requests@,
                    numbers@.take(m as int).to_set(),
                    seen@,
                    n,
                ),
        decreases numbers@.len() - m,
    {
        let ghost before = followed@;
        let ghost upto = numbers@.take(m as int);
        let ghost more = numbers@.take(m + 1);
        let number = numbers[m];
        proof {
            lemma_take_next(numbers@, m as int);
        }
        if !followed.contains_key(&number) {
            let mut label = numbered(number);
            label.append(" (foreign)");
            followed.insert(number, label);
        }
        proof {
            assert forall|n: u64| #[trigger]
                view_of(lookup(followed@, n.rank())) == followed_as(pull_requests@, more.to_set(), seen@, n) by {
                assert(n.rank()[0] == n && number.rank()[0] == number);
                assert(view_of(lookup(before, n.rank())) == followed_as(pull_requests@, upto.to_set(), seen@, n));
                assert(more.to_set().contains(n) == (upto.to_set().contains(n) || n == number)) by {
                    if upto.contains(n) {
                        let j = choose|j: int| 0 <= j < upto.len() && upto[j] == n;
                        assert(more[j] == n);
                    }
                    if more.contains(n) {
                        let j = choose|j: int| 0 <= j < more.len() && more[j] == n;
                        if j < m {
                            assert(upto[j] == n);
                        }
                    }
                    assert(more[m as int] == number);
                }
            }
        }
        m += 1;
    }
    proof {
        assert(numbers@.take(m as int) =~= numbers@);
        assert forall|n: u64| #[trigger]
            view_of(lookup(followed@, n.rank())) == followed_as(pull_requests@, foreign@, seen@, n) by {
            assert(numbers@.to_set().contains(n) == numbers@.contains(n));
        }
    }
    followed
}

/// The words an event records of a pull request that moved.
pub open spec fn transition(number: u64, state: PullState, head: Seq<char>) -> Option<Seq<char>> {
    match state {
        PullState::Merged => Some(sharp(number) + " merged"@),
        PullState::Closed => Some(sharp(number) + " closed"@),
        PullState::Advanced => Some(sharp(number) + " advanced to "@ + prefix(head, 12)),
        PullState::Reopened => Some(sharp(number) + " reopened"@),
        PullState::Unchanged | PullState::New => None,
    }
}

/// What to record about a pull request that moved, and nothing for one that did not.
///
/// `unchanged` is the absence of an event, and `new` is a first sighting rather than something that
/// happened: recording either would fill a fork's history with one line per pull request per run.
pub fn transition_text(number: u64, state: PullState, head: &str) -> (text: Option<String>)
    ensures
        view_of(text) == transition(number, state, head@),
{
    let mut text = numbered(number);
    match state {
        PullState::Merged => text.append(" merged"),
        PullState::Closed => text.append(" closed"),
        PullState::Advanced => {
            text.append(" advanced to ");
            text.append(shortened(head, 12).as_str());
        },
        PullState::Reopened => text.append(" reopened"),
        PullState::Unchanged => return None,
        PullState::New => return None,
    }
    Some(text)
}

/// What the forge answered about a repository.
pub struct PullAnswers {
    /// The listed pull requests that are ours.
    pub ours: Vec<PullSummary>,
    /// All that were listed.
    pub rows: Vec<PullSummary>,
    /// The live facts of those that were asked about.
    pub facts: BTreeMap<u64, PullFacts>,
    /// Whether the answers could be kept for the next run.
    pub kept: Result<(), String>,
}

/// What came of asking the forge.
pub enum ForgeReach {
    /// There is no forge to ask.
    NotAsked,
    /// The forge could not be asked.
    Failed(String),
    Answered(PullAnswers),
}

/// What an event records.
#[derive(Debug, PartialEq, Eq)]
pub struct Event {
    /// The branch the event is about; absent where no listed pull request has the number.
    pub subject: Option<String>,
    pub text: String,
    /// The pull request the branch was stated to be.
    pub pr: Option<u64>,
}

/// What an event says.
pub struct EventView {
    pub subject: Option<Seq<char>>,
    pub text: Seq<char>,
    pub pr: Option<u64>,
}

impl View for Event {
    type V = EventView;

    open spec fn view(&self) -> EventView {
        EventView { subject: view_of(self.subject), text: self.text@, pr: self.pr }
    }
}

/// What a sighting changes in the record.
#[derive(Debug, PartialEq, Eq)]
pub struct Change {
    pub number: u64,
    pub head: String,
    /// The state of the forge. Absent when no forge was consulted: a state nobody observed is not
    /// recorded over one somebody did.
    pub state: Option<String>,
    pub mark: Option<String>,
}

/// What a change sets.
pub struct ChangeView {
    pub number: u64,
    pub head: Seq<char>,
    pub state: Option<Seq<char>>,
    pub mark: Option<Seq<char>>,
}

impl View for Change {
    type V = ChangeView;

    open spec fn view(&self) -> ChangeView {
        ChangeView {
            number: self.number,
            head: self.head@,
            state: view_of(self.state),
            mark: view_of(self.mark),
        }
    }
}

/// What is seen of one pull request.
#[derive(Debug, PartialEq, Eq)]
pub struct Sighting {
    pub row: Row,
    pub event: Option<Event>,
    pub note: Option<String>,
    pub change: Change,
}

/// What a sighting says.
pub struct SightingView {
    pub row: RowView,
    pub event: Option<EventView>,
    pub note: Option<Seq<char>>,
    pub change: ChangeView,
}

impl View for Sighting {
    type V = SightingView;

    open spec fn view(&self) -> SightingView {
        SightingView {
            row: self.row@,
            event: view_of(self.event),
            note: view_of(self.note),
            change: self.change@,
        }
    }
}

/// What is known when the pull requests are looked at.
#[derive(Clone, Copy)]
pub struct TrackingInput<'a> {
    /// The heads of the fetched pull refs, under their numbers.
    pub heads: &'a BTreeMap<u64, String>,
    /// What the forge answered; absent where there is no forge.
    pub answers: Option<&'a PullAnswers>,
    pub store: &'a Store,
}

/// What is known, as values.
pub struct TrackingView {
    pub heads: Map<u64, String>,
    pub answers: Option<PullAnswers>,
    pub store: Store,
}

impl<'a> View for TrackingInput<'a> {
    type V = TrackingView;

    open spec fn view(&self) -> TrackingView {
        TrackingView { heads: self.heads@, answers: pointee(self.answers), store: *self.store }
    }
}

/// The live facts of a pull request.
pub open spec fn fact_of(input: TrackingView, number: u64) -> Option<PullFacts> {
    match input.answers {
        Some(answers) => if answers.facts@.contains_key(number) {
            Some(answers.facts@[number])
        } else {
            None
        },
        None => None,
    }
}

/// The branch of the first of the pull requests that has the number.
pub open spec fn first_branch(pulls: Seq<PullSummary>, number: u64) -> Option<Seq<char>>
    decreases pulls.len(),
{
    if pulls.len() == 0 {
        None
    } else if pulls[0].number == number {
        Some(pulls[0].head_ref_name@)
    } else {
        first_branch(pulls.skip(1), number)
    }
}

/// The current head of a pull request: the fetched ref, or the live fact when there is no ref.
pub open spec fn current_head(input: TrackingView, number: u64) -> Seq<char> {
    if input.heads.contains_key(number) {
        input.heads[number]@
    } else {
        match fact_of(input, number) {
            Some(fact) => fact.pull.head_ref_oid@,
            None => ""@,
        }
    }
}

/// The state the forge gives a pull request now.
pub open spec fn forge_state(input: TrackingView, number: u64) -> Option<Seq<char>> {
    match fact_of(input, number) {
        Some(fact) => Some(fact.pull.state@),
        None => None,
    }
}

/// What happened to a pull request. Without an answer of the forge the recorded state stands in for
/// its state.
pub open spec fn what_happened(input: TrackingView, record: PullRecord, number: u64) -> PullState {
    let state = match forge_state(input, number) {
        Some(now) => now,
        None => match record.state(number) {
            Some(recorded) => recorded,
            None => "unknown"@,
        },
    };
    classified(record.head(number), record.state(number), current_head(input, number), state)
}

/// When the newest comment on a pull request that is open was written.
pub open spec fn open_comment(input: TrackingView, number: u64) -> Option<Seq<char>> {
    match fact_of(input, number) {
        Some(fact) => if says_open(fact.pull.state@) {
            view_of(fact.newest_comment)
        } else {
            None
        },
        None => None,
    }
}

/// Whether a comment is newer than the recorded mark. The forge writes its moments in one fixed
/// width, so the order of the texts is the order of time.
pub open spec fn newer_comment(input: TrackingView, record: PullRecord, number: u64) -> bool {
    match (open_comment(input, number), record.mark(number)) {
        (Some(newest), Some(mark)) => lex_less(ranks(mark), ranks(newest)),
        _ => false,
    }
}

/// The event of a pull request that moved.
pub open spec fn event_of(input: TrackingView, record: PullRecord, number: u64) -> Option<EventView> {
    match transition(number, what_happened(input, record, number), current_head(input, number)) {
        Some(text) => {
            let subject = match input.answers {
                Some(answers) => first_branch(answers.rows@, number),
                None => None,
            };
            Some(
                EventView {
                    subject,
                    text,
                    pr: match subject {
                        Some(branch) => lookup(input.store.stated@, ranks(branch)),
                        None => None,
                    },
                },
            )
        },
        None => None,
    }
}

/// What is seen of a pull request, or why nothing could be.
pub open spec fn sighted(
    input: TrackingView,
    record: PullRecord,
    number: u64,
    label: Seq<char>,
) -> Result<SightingView, Seq<char>> {
    if input.answers is Some && fact_of(input, number) is None {
        Err("state of "@ + sharp(number) + " unavailable: the forge did not report it"@)
    } else if current_head(input, number) == ""@ {
        Err("could not determine the head of "@ + sharp(number))
    } else {
        Ok(
            SightingView {
                row: RowView {
                    number,
                    label,
                    state: what_happened(input, record, number),
                    forge_state: match forge_state(input, number) {
                        Some(state) => lowercase_text(state),
                        None => "unknown"@,
                    },
                },
                event: event_of(input, record, number),
                note: if newer_comment(input, record, number) {
                    Some(sharp(number) + " has comment activity newer than the last sync"@)
                } else {
                    None
                },
                change: ChangeView {
                    number,
                    head: current_head(input, number),
                    state: forge_state(input, number),
                    mark: if newer_comment(input, record, number) || record.mark(number) is None {
                        open_comment(input, number)
                    } else {
                        None
                    },
                },
            },
        )
    }
}

fn branch_of(pulls: &Vec<PullSummary>, number: u64) -> (branch: Option<String>)
    ensures
        view_of(branch) == first_branch(pulls@, number),
{
    let mut i: usize = 0;
    assert(pulls@.skip(0) =~= pulls@);
    while i < pulls.len()
        invariant
            i <= pulls@.len(),
            first_branch(pulls@, number) == first_branch(pulls@.skip(i as int), number),
        decreases pulls@.len() - i,
    {
        assert(pulls@.skip(i as int)[0] == pulls@[i as int]);
        assert(pulls@.skip(i as int).skip(1) =~= pulls@.skip(i + 1));
        if pulls[i].number == number {
            return Some(pulls[i].head_ref_name.clone());
        }
        i += 1;
    }
    None
}

/// The result as its view.
pub open spec fn sighting_view(result: Result<Sighting, String>) -> Result<SightingView, Seq<char>> {
    match result {
        Ok(sighting) => Ok(sighting@),
        Err(problem) => Err(problem@),
    }
}

fn event(number: u64, what: PullState, head: &str, input: TrackingInput) -> (found: Option<Event>)
    ensures
        view_of(found) == match transition(number, what, head@) {
            Some(text) => {
                let subject = match input.answers {
                    Some(answers) => first_branch(answers.rows@, number),
                    None => None,
                };
                Some(
                    EventView {
                        subject,
                        text,
                        pr: match subject {
                            Some(branch) => lookup(input.store.stated@, ranks(branch)),
                            None => None,
                        },
                    },
                )
            },
            None => None,
        },
{
    let text = match transition_text(number, what, head) {
        Some(text) => text,
        None => return None,
    };
    let subject = match input.answers {
        Some(answers) => branch_of(&answers.rows, number),
        None => None,
    };
    let pr = match &subject {
        Some(branch) => input.store.tracked_pull(&BranchName::new(branch.as_str())),
        None => None,
    };
    Some(Event { subject, text, pr })
}

/// What is seen of a pull request, or why nothing could be.
///
/// A head that neither the pull refs nor the live fact knew is a problem: reporting it as moved would
/// be a fabrication, and because an empty head is never recorded, the false `advanced` would repeat
/// on every run.
pub fn observe(input: TrackingInput, record: &PullRecord, number: u64, label: &str) -> (result: Result<
    Sighting,
    String,
>)
    ensures
        sighting_view(result) == sighted(input@, *record, number, label@),
{
    let fact: Option<&PullFacts> = match input.answers {
        Some(answers) => at_number(&answers.facts, number),
        None => None,
    };
    assert(pointee(fact) == fact_of(input@, number));
    if input.answers.is_some() && fact.is_none() {
        let mut problem = "state of ".to_owned();
        problem.append(numbered(number).as_str());
        problem.append(" unavailable: the forge did not report it");
        return Err(problem);
    }
    let head: &str = match at_number(input.heads, number) {
        Some(head) => head.as_str(),
        None => match fact {
            Some(fact) => fact.pull.head_ref_oid.as_str(),
            None => "",
        },
    };
    assert(head@ == current_head(input@, number));
    if same(head, "") {
        let mut problem = "could not determine the head of ".to_owned();
        problem.append(numbered(number).as_str());
        return Err(problem);
    }
    let now: Option<&str> = match fact {
        Some(fact) => Some(fact.pull.state.as_str()),
        None => None,
    };
    let recorded = record.pull_state(number);
    let state: &str = match now {
        Some(state) => state,
        None => match recorded {
            Some(state) => state,
            None => "unknown",
        },
    };
    let what = classify_pull(record.pull_head(number), recorded, head, state);
    let event = event(number, what, head, input);
    let newest: Option<&String> = match fact {
        Some(fact) => if eq_ignore_case(fact.pull.state.as_str(), "OPEN") {
            fact.newest_comment.as_ref()
        } else {
            None
        },
        None => None,
    };
    let mut note: Option<String> = None;
    let mut mark: Option<String> = None;
    if let Some(newest) = newest {
        match record.comment_mark(number) {
            Some(previous) => {
                if text_precedes(previous, newest.as_str()) {
                    let mut words = numbered(number);
                    words.append(" has comment activity newer than the last sync");
                    note = Some(words);
                    mark = Some(newest.clone());
                }
            },
            None => {
                mark = Some(newest.clone());
            },
        }
    }
    let shown = match now {
        Some(state) => lowercase(state),
        None => "unknown".to_owned(),
    };
    let known = match now {
        Some(state) => Some(state.to_owned()),
        None => None,
    };
    Ok(
        Sighting {
            row: Row { number, label: label.to_owned(), state: what, forge_state: shown },
            event,
            note,
            change: Change { number, head: head.to_owned(), state: known, mark },
        },
    )
}

/// The row of a followed pull request.
pub open spec fn row_seen(input: TrackingView, record: PullRecord) -> spec_fn((u64, String)) -> Option<RowView> {
    |entry: (u64, String)|
        match sighted(input, record, entry.0, entry.1@) {
            Ok(sighting) => Some(sighting.row),
            Err(_) => None,
        }
}

/// Why nothing could be seen of a followed pull request.
pub open spec fn problem_seen(input: TrackingView, record: PullRecord) -> spec_fn((u64, String)) -> Option<
    Seq<char>,
> {
    |entry: (u64, String)|
        match sighted(input, record, entry.0, entry.1@) {
            Ok(_) => None,
            Err(problem) => Some(problem),
        }
}

/// The note on a followed pull request.
pub open spec fn note_seen(input: TrackingView, record: PullRecord) -> spec_fn((u64, String)) -> Option<Seq<char>> {
    |entry: (u64, String)|
        match sighted(input, record, entry.0, entry.1@) {
            Ok(sighting) => sighting.note,
            Err(_) => None,
        }
}

/// The event of a followed pull request.
pub open spec fn event_seen(input: TrackingView, record: PullRecord) -> spec_fn((u64, String)) -> Option<EventView> {
    |entry: (u64, String)|
        match sighted(input, record, entry.0, entry.1@) {
            Ok(sighting) => sighting.event,
            Err(_) => None,
        }
}

/// What a followed pull request changes in the record.
pub open spec fn change_seen(input: TrackingView, record: PullRecord) -> spec_fn((u64, String)) -> Option<
    ChangeView,
> {
    |entry: (u64, String)|
        match sighted(input, record, entry.0, entry.1@) {
            Ok(sighting) => Some(sighting.change),
            Err(_) => None,
        }
}

/// The state recorded of a pull request after some changes.
pub open spec fn state_after(changes: Seq<ChangeView>, number: u64, before: Option<Seq<char>>) -> Option<Seq<char>>
    decreases changes.len(),
{
    if changes.len() == 0 {
        before
    } else if changes.last().number == number && changes.last().state is Some {
        changes.last().state
    } else {
        state_after(changes.drop_last(), number, before)
    }
}

/// The comment mark recorded of a pull request after some changes.
pub open spec fn mark_after(changes: Seq<ChangeView>, number: u64, before: Option<Seq<char>>) -> Option<Seq<char>>
    decreases changes.len(),
{
    if changes.len() == 0 {
        before
    } else if changes.last().number == number && changes.last().mark is Some {
        changes.last().mark
    } else {
        mark_after(changes.drop_last(), number, before)
    }
}

/// The head recorded under a key after some changes.
pub open spec fn head_after(changes: Seq<ChangeView>, key: Seq<char>, before: Option<Seq<char>>) -> Option<Seq<char>>
    decreases changes.len(),
{
    if changes.len() == 0 {
        before
    } else if decimal_text(changes.last().number as nat) == key {
        Some(changes.last().head)
    } else {
        head_after(changes.drop_last(), key, before)
    }
}

/// Whether a record is what some changes make of an earlier one.
pub open spec fn recorded(before: PullRecord, changes: Seq<ChangeView>, after: PullRecord) -> bool {
    &&& forall|n: u64| #[trigger] after.state(n) == state_after(changes, n, before.state(n))
    &&& forall|n: u64| #[trigger] after.mark(n) == mark_after(changes, n, before.mark(n))
    &&& forall|key: Seq<char>|
        view_of(#[trigger] lookup(after.heads@, ranks(key))) == head_after(
            changes,
            key,
            view_of(lookup(before.heads@, ranks(key))),
        )
}

fn record_changes(changes: &Vec<Change>, record: &mut PullRecord)
    ensures
        recorded(*old(record), views(changes@), *final(record)),
{
    let ghost all = views(changes@);
    let mut i: usize = 0;
    while i < changes.len()
        invariant
            i <= changes@.len(),
            all == views(changes@),
            recorded(*old(record), all.take(i as int), *record),
        decreases changes@.len() - i,
    {
        let ghost before = *record;
        let ghost more = all.take(i + 1);
        proof {
            assert(more.drop_last() =~= all.take(i as int));
            assert(more.last() == changes@[i as int]@);
        }
        let number = changes[i].number;
        if let Some(state) = &changes[i].state {
            record.record_pull_state(number, state.as_str());
        }
        let ghost stated = *record;
        assert(forall|n: u64| #[trigger] stated.state(n) == state_after(more, n, old(record).state(n)));
        record.record_pull_head(number, changes[i].head.as_str());
        let ghost headed = *record;
        proof {
            assert forall|key: Seq<char>|
                view_of(#[trigger] lookup(headed.heads@, ranks(key))) == head_after(
                    more,
                    key,
                    view_of(lookup(old(record).heads@, ranks(key))),
                ) by {
                assert(view_of(lookup(before.heads@, ranks(key))) == head_after(
                    all.take(i as int),
                    key,
                    view_of(lookup(old(record).heads@, ranks(key))),
                ));
            }
            assert forall|n: u64| #[trigger] headed.mark(n) == before.mark(n) by {}
        }
        if let Some(mark) = &changes[i].mark {
            record.record_comment_mark(number, mark.as_str());
        }
        proof {
            assert forall|n: u64| #[trigger] record.state(n) == state_after(more, n, old(record).state(n)) by {
                assert(record.state(n) == stated.state(n));
            }
            assert forall|n: u64| #[trigger] record.mark(n) == mark_after(more, n, old(record).mark(n)) by {
                assert(headed.mark(n) == before.mark(n));
                assert(before.mark(n) == mark_after(all.take(i as int), n, old(record).mark(n)));
            }
        }
        i += 1;
    }
}

/// Looks at every followed pull request: what each row, problem and note says goes into the report,
/// and what was seen into the record. Returns the events of those that moved.
pub fn record_tracked_pulls(
    followed: &OrdMap<u64, String>,
    input: TrackingInput,
    record: &mut PullRecord,
    report: &mut Report,
) -> (events: Vec<Event>)
    ensures
        views(events@) == followed@.filter_map(event_seen(input@, *old(record))),
        recorded(*old(record), followed@.filter_map(change_seen(input@, *old(record))), *final(record)),
        final(report).repo == old(report).repo,
        views(final(report).rows@) == views(old(report).rows@) + followed@.filter_map(
            row_seen(input@, *old(record)),
        ),
        views(final(report).notes@) == views(old(report).notes@) + followed@.filter_map(
            note_seen(input@, *old(record)),
        ),
        views(final(report).problems@) == views(old(report).problems@) + followed@.filter_map(
            problem_seen(input@, *old(record)),
        ),
{
    let mut events: Vec<Event> = Vec::new();
    let mut changes: Vec<Change> = Vec::new();
    let ghost all = followed@;
    let ghost before = *record;
    let mut i: usize = 0;
    while i < followed.len()
        invariant
            i <= followed@.len(),
            all == followed@,
            before == *record,
            before == *old(record),
            views(events@) == all.take(i as int).filter_map(event_seen(input@, before)),
            views(changes@) == all.take(i as int).filter_map(change_seen(input@, before)),
            report.repo == old(report).repo,
            views(report.rows@) == views(old(report).rows@) + all.take(i as int).filter_map(row_seen(input@, before)),
            views(report.notes@) == views(old(report).notes@) + all.take(i as int).filter_map(
                note_seen(input@, before),
            ),
            views(report.problems@) == views(old(report).problems@) + all.take(i as int).filter_map(
                problem_seen(input@, before),
            ),
        decreases followed@.len() - i,
    {
        proof {
            all.lemma_filter_map_take_succ(event_seen(input@, before), i as int);
            all.lemma_filter_map_take_succ(change_seen(input@, before), i as int);
            all.lemma_filter_map_take_succ(row_seen(input@, before), i as int);
            all.lemma_filter_map_take_succ(note_seen(input@, before), i as int);
            all.lemma_filter_map_take_succ(problem_seen(input@, before), i as int);
        }
        match observe(input, record, *followed.key(i), followed.value(i).as_str()) {
            Ok(sighting) => {
                report.rows.push(sighting.row);
                if let Some(event) = sighting.event {
                    events.push(event);
                }
                if let Some(note) = sighting.note {
                    report.notes.push(note);
                }
                changes.push(sighting.change);
            },
            Err(problem) => report.problems.push(problem),
        }
        proof {
            assert(views(events@) =~= all.take(i + 1).filter_map(event_seen(input@, before)));
            assert(views(changes@) =~= all.take(i + 1).filter_map(change_seen(input@, before)));
            assert(views(report.rows@) =~= views(old(report).rows@) + all.take(i + 1).filter_map(
                row_seen(input@, before),
            ));
            assert(views(report.notes@) =~= views(old(report).notes@) + all.take(i + 1).filter_map(
                note_seen(input@, before),
            ));
            assert(views(report.problems@) =~= views(old(report).problems@) + all.take(i + 1).filter_map(
                problem_seen(input@, before),
            ));
        }
        i += 1;
    }
    record_changes(&changes, record);
    events
}

/// The numbers to ask the forge about: those that are followed, in order.
pub fn select_tracked_numbers(
    ours: &[PullSummary],
    foreign: &BTreeSet<u64>,
    seen: &OrdMap<String, String>,
) -> (numbers: Vec<u64>)
    ensures
        rising(numbers@),
        forall|n: u64| #[trigger]
            numbers@.contains(n) <==> followed_as(ours@, foreign@, seen@, n) is Some,
{
    let followed = tracked_pull_requests(ours, foreign, seen);
    let count = followed.len();
    let mut numbers: Vec<u64> = Vec::new();
    let mut i: usize = 0;
    while i < count
        invariant
            i <= count,
            count == followed@.len(),
            numbers@.len() == i,
            forall|j: int| 0 <= j < i ==> #[trigger] numbers@[j] == followed@[j].0,
        decreases count - i,
    {
        numbers.push(*followed.key(i));
        i += 1;
    }
    proof {
        assert forall|a: int, b: int| 0 <= a < b < numbers@.len() implies numbers@[a] < numbers@[b] by {
            assert(lex_less(followed@[a].0.rank(), followed@[b].0.rank()));
            assert(followed@[a].0.rank().drop_first() =~= followed@[b].0.rank().drop_first());
            lemma_lex_irreflexive(followed@[a].0.rank().drop_first());
            assert(followed@[a].0.rank()[0] == numbers@[a] && followed@[b].0.rank()[0] == numbers@[b]);
        }
        assert forall|n: u64| #[trigger]
            numbers@.contains(n) <==> followed_as(ours@, foreign@, seen@, n) is Some by {
            lemma_lookup_absent(followed@, n.rank());
            assert(view_of(lookup(followed@, n.rank())) == followed_as(ours@, foreign@, seen@, n));
            if numbers@.contains(n) {
                let j = choose|j: int| 0 <= j < numbers@.len() && numbers@[j] == n;
                assert(followed@[j].0.rank() == n.rank());
            }
            if lookup(followed@, n.rank()) is Some {
                let j = choose|j: int| 0 <= j < followed@.len() && #[trigger] followed@[j].0.rank() == n.rank();
                assert(followed@[j].0.rank()[0] == n.rank()[0]);
                assert(numbers@[j] == n);
            }
        }
    }
    numbers
}

/// What came of fetching a foreign pull request, in words.
pub open spec fn fetched_note() -> spec_fn((u64, Result<CommitId, String>)) -> Option<Seq<char>> {
    |fetch: (u64, Result<CommitId, String>)|
        match fetch.1 {
            Ok(commit) => Some(
                "fetched foreign "@ + sharp(fetch.0) + " as pull/"@ + decimal_text(fetch.0 as nat) + " ("@ + prefix(
                    commit@,
                    12,
                ) + ")"@,
            ),
            Err(_) => None,
        }
}

/// Why a foreign pull request could not be fetched.
pub open spec fn fetch_problem() -> spec_fn((u64, Result<CommitId, String>)) -> Option<Seq<char>> {
    |fetch: (u64, Result<CommitId, String>)|
        match fetch.1 {
            Ok(_) => None,
            Err(error) => Some("could not fetch foreign "@ + sharp(fetch.0) + ": "@ + error@),
        }
}

/// Reports what came of fetching the foreign pull requests we carry as release parents.
///
/// Ours need nothing: we already have the branch. Theirs cannot be a release parent at all without
/// this.
pub fn fetch_foreign(fetches: &Vec<(u64, Result<CommitId, String>)>, report: &mut Report)
    ensures
        final(report).repo == old(report).repo,
        final(report).rows == old(report).rows,
        views(final(report).notes@) == views(old(report).notes@) + fetches@.filter_map(fetched_note()),
        views(final(report).problems@) == views(old(report).problems@) + fetches@.filter_map(fetch_problem()),
{
    let mut i: usize = 0;
    while i < fetches.len()
        invariant
            i <= fetches@.len(),
            report.repo == old(report).repo,
            report.rows == old(report).rows,
            views(report.notes@) == views(old(report).notes@) + fetches@.take(i as int).filter_map(fetched_note()),
            views(report.problems@) == views(old(report).problems@) + fetches@.take(i as int).filter_map(
                fetch_problem(),
            ),
        decreases fetches@.len() - i,
    {
        proof {
            fetches@.lemma_filter_map_take_succ(fetched_note(), i as int);
            fetches@.lemma_filter_map_take_succ(fetch_problem(), i as int);
        }
        let number = fetches[i].0;
        match &fetches[i].1 {
            Ok(commit) => {
                let mut note = "fetched foreign ".to_owned();
                note.append(numbered(number).as_str());
                note.append(" as pull/");
                note.append(decimal(number).as_str());
                note.append(" (");
                note.append(shortened(commit.as_str(), 12).as_str());
                note.append(")");
                report.notes.push(note);
            },
            Err(error) => {
                let mut problem = "could not fetch foreign ".to_owned();
                problem.append(numbered(number).as_str());
                problem.append(": ");
                problem.append(error.as_str());
                report.problems.push(problem);
            },
        }
        proof {
            assert(views(report.notes@) =~= views(old(report).notes@) + fetches@.take(i + 1).filter_map(
                fetched_note(),
            ));
            assert(views(report.problems@) =~= views(old(report).problems@) + fetches@.take(i + 1).filter_map(
                fetch_problem(),
            ));
        }
        i += 1;
    }
}

/// What a run has to go by.
pub struct SyncInput<'a> {
    pub repo: &'a RepoName,
    pub store: &'a Store,
    /// The foreign pull requests we carry as release parents.
    pub foreign: &'a BTreeSet<u64>,
    pub reach: &'a ForgeReach,
    /// The heads of the fetched pull refs, or why they could not be read.
    pub heads: &'a Result<BTreeMap<u64, String>, String>,
    /// What came of fetching each foreign pull request.
    pub fetches: &'a Vec<(u64, Result<CommitId, String>)>,
}

/// What a run did.
pub struct Synced {
    pub report: Report,
    /// The pull requests that were followed, each under what it is called.
    pub followed: OrdMap<u64, String>,
    /// What is to be appended to the ledger.
    pub events: Vec<Event>,
    /// Whether the record is to be saved.
    pub finished: bool,
}

/// The pull requests of ours that the forge listed.
pub open spec fn listed_ours(reach: ForgeReach) -> Seq<PullSummary> {
    match reach {
        ForgeReach::Answered(answers) => answers.ours@,
        _ => Seq::empty(),
    }
}

/// The heads that were read.
pub open spec fn read_heads(heads: Result<BTreeMap<u64, String>, String>) -> Map<u64, String> {
    match heads {
        Ok(found) => found@,
        Err(_) => Map::empty(),
    }
}

/// Why the heads could not be read.
pub open spec fn heads_problem(heads: Result<BTreeMap<u64, String>, String>) -> Seq<Seq<char>> {
    match heads {
        Ok(_) => Seq::empty(),
        Err(error) => seq!["could not read pull refs: "@ + error@],
    }
}

/// What is said first about the forge.
pub open spec fn reach_note(reach: ForgeReach) -> Seq<Seq<char>> {
    match reach {
        ForgeReach::NotAsked => seq!["pull request state was not checked; branch columns are unknown"@],
        _ => Seq::empty(),
    }
}

/// What is said of answers that could not be kept.
pub open spec fn unkept(kept: Result<(), String>) -> Seq<Seq<char>> {
    match kept {
        Ok(_) => Seq::empty(),
        Err(note) => seq![note@],
    }
}

/// What is said of the forge's answers where they could not be kept.
pub open spec fn kept_note(reach: ForgeReach) -> Seq<Seq<char>> {
    match reach {
        ForgeReach::Answered(answers) => unkept(answers.kept),
        _ => Seq::empty(),
    }
}

/// What is known when the pull requests are looked at.
pub open spec fn known_of(
    heads: Result<BTreeMap<u64, String>, String>,
    reach: ForgeReach,
    store: Store,
) -> TrackingView {
    TrackingView {
        heads: read_heads(heads),
        answers: match reach {
            ForgeReach::Answered(answers) => Some(answers),
            _ => None,
        },
        store,
    }
}

/// What is known when the pull requests are looked at, from what a run has to go by.
pub open spec fn tracking_of(input: SyncInput) -> TrackingView {
    known_of(*input.heads, *input.reach, *input.store)
}

/// What the pull requests are looked at with.
pub struct LookInput<'a> {
    pub repo: &'a RepoName,
    pub store: &'a Store,
    /// The foreign pull requests we carry as release parents.
    pub foreign: &'a BTreeSet<u64>,
    pub reach: &'a ForgeReach,
    /// The heads of the fetched pull refs, or why they could not be read.
    pub heads: &'a Result<BTreeMap<u64, String>, String>,
}

/// The first half of a run: classifies what happened to each pull request that is followed, and records
/// what was seen. Its events are to be written before the forge's answers are kept and the foreign pull
/// requests fetched.
pub fn look_at_pulls(input: LookInput, record: &mut PullRecord) -> (synced: Synced)
    ensures
        synced.report.repo@ == input.repo@,
        synced.finished == !(*input.reach is Failed),
        match *input.reach {
            ForgeReach::Failed(error) => {
                &&& *final(record) == *old(record)
                &&& synced.followed@.len() == 0
                &&& synced.events@.len() == 0
                &&& synced.report.rows@.len() == 0
                &&& synced.report.notes@.len() == 0
                &&& views(synced.report.problems@) == seq!["pull request state unavailable: "@ + error@]
            },
            _ => {
                let known = known_of(*input.heads, *input.reach, *input.store);
                &&& ascending(synced.followed@)
                &&& forall|n: u64| #[trigger]
                    view_of(lookup(synced.followed@, n.rank())) == followed_as(
                        listed_ours(*input.reach),
                        input.foreign@,
                        old(record).heads@,
                        n,
                    )
                &&& views(synced.events@) == synced.followed@.filter_map(event_seen(known, *old(record)))
                &&& recorded(
                    *old(record),
                    synced.followed@.filter_map(change_seen(known, *old(record))),
                    *final(record),
                )
                &&& views(synced.report.rows@) == synced.followed@.filter_map(row_seen(known, *old(record)))
                &&& views(synced.report.notes@) == reach_note(*input.reach) + synced.followed@.filter_map(
                    note_seen(known, *old(record)),
                )
                &&& views(synced.report.problems@) == heads_problem(*input.heads) + synced.followed@.filter_map(
                    problem_seen(known, *old(record)),
                )
            },
        },
{
    let mut report = Report {
        repo: input.repo.as_str().to_owned(),
        rows: Vec::new(),
        notes: Vec::new(),
        problems: Vec::new(),
    };
    let nothing: Vec<PullSummary> = Vec::new();
    let answers: Option<&PullAnswers> = match input.reach {
        ForgeReach::Failed(error) => {
            let mut problem = "pull request state unavailable: ".to_owned();
            problem.append(error.as_str());
            report.problems.push(problem);
            assert(views(report.problems@) =~= seq!["pull request state unavailable: "@ + error@]);
            return Synced { report, followed: OrdMap::new(), events: Vec::new(), finished: false };
        },
        ForgeReach::NotAsked => {
            report.notes.push("pull request state was not checked; branch columns are unknown".to_owned());
            None
        },
        ForgeReach::Answered(answers) => Some(answers),
    };
    assert(views(report.notes@) =~= reach_note(*input.reach));
    let ours: &Vec<PullSummary> = match answers {
        Some(answers) => &answers.ours,
        None => &nothing,
    };
    assert(ours@ =~= listed_ours(*input.reach));
    let followed = tracked_pull_requests(ours.as_slice(), input.foreign, &record.heads);
    // Asked for what it says of the order of the keys.
    let _ = followed.len();
    let none: BTreeMap<u64, String> = BTreeMap::new();
    let heads: &BTreeMap<u64, String> = match input.heads {
        Ok(found) => found,
        Err(error) => {
            let mut problem = "could not read pull refs: ".to_owned();
            problem.append(error.as_str());
            report.problems.push(problem);
            &none
        },
    };
    assert(views(report.problems@) =~= heads_problem(*input.heads));
    assert(views(report.rows@) =~= Seq::empty());
    let tracking = TrackingInput { heads, answers, store: input.store };
    assert(tracking@.heads =~= read_heads(*input.heads));
    assert(tracking@ == known_of(*input.heads, *input.reach, *input.store));
    let events = record_tracked_pulls(&followed, tracking, record, &mut report);
    Synced { report, followed, events, finished: true }
}

/// The second half of a run: reports answers that could not be kept, and what came of fetching the
/// foreign pull requests.
pub fn close_run(
    report: &mut Report,
    kept: &Result<(), String>,
    fetches: &Vec<(u64, Result<CommitId, String>)>,
)
    ensures
        final(report).repo == old(report).repo,
        final(report).rows == old(report).rows,
        views(final(report).notes@) == views(old(report).notes@) + unkept(*kept) + fetches@.filter_map(fetched_note()),
        views(final(report).problems@) == views(old(report).problems@) + fetches@.filter_map(fetch_problem()),
{
    let ghost earlier = views(report.notes@);
    if let Err(note) = kept {
        report.notes.push(note.clone());
    }
    assert(views(report.notes@) =~= earlier + unkept(*kept));
    fetch_foreign(fetches, report);
}

/// Classifies what happened to each pull request that is followed, and records what was seen.
///
/// A forge that could not be asked ends the run: nothing is classified and nothing recorded.
pub fn sync_repo(input: SyncInput, record: &mut PullRecord) -> (synced: Synced)
    ensures
        synced.report.repo@ == input.repo@,
        synced.finished == !(*input.reach is Failed),
        match *input.reach {
            ForgeReach::Failed(error) => {
                &&& *final(record) == *old(record)
                &&& synced.followed@.len() == 0
                &&& synced.events@.len() == 0
                &&& synced.report.rows@.len() == 0
                &&& synced.report.notes@.len() == 0
                &&& views(synced.report.problems@) == seq!["pull request state unavailable: "@ + error@]
            },
            _ => {
                &&& ascending(synced.followed@)
                &&& forall|n: u64| #[trigger]
                    view_of(lookup(synced.followed@, n.rank())) == followed_as(
                        listed_ours(*input.reach),
                        input.foreign@,
                        old(record).heads@,
                        n,
                    )
                &&& views(synced.events@) == synced.followed@.filter_map(
                    event_seen(tracking_of(input), *old(record)),
                )
                &&& recorded(
                    *old(record),
                    synced.followed@.filter_map(change_seen(tracking_of(input), *old(record))),
                    *final(record),
                )
                &&& views(synced.report.rows@) == synced.followed@.filter_map(
                    row_seen(tracking_of(input), *old(record)),
                )
                &&& views(synced.report.notes@) == reach_note(*input.reach) + synced.followed@.filter_map(
                    note_seen(tracking_of(input), *old(record)),
                ) + kept_note(*input.reach) + input.fetches@.filter_map(fetched_note())
                &&& views(synced.report.problems@) == heads_problem(*input.heads) + synced.followed@.filter_map(
                    problem_seen(tracking_of(input), *old(record)),
                ) + input.fetches@.filter_map(fetch_problem())
            },
        },
{
    let mut synced = look_at_pulls(
        LookInput {
            repo: input.repo,
            store: input.store,
            foreign: input.foreign,
            reach: input.reach,
            heads: input.heads,
        },
        record,
    );
    match input.reach {
        ForgeReach::Failed(_) => {},
        ForgeReach::NotAsked => close_run(&mut synced.report, &Ok(()), input.fetches),
        ForgeReach::Answered(answers) => close_run(&mut synced.report, &answers.kept, input.fetches),
    }
    synced
}

/// The line of a row.
pub open spec fn row_line(row: RowView) -> Seq<char> {
    "  #"@ + padded(decimal_text(row.number as nat), 6) + " "@ + row.state.label() + " "@ + padded(
        row.forge_state,
        8,
    ) + " "@ + row.label
}

/// The lines of a report.
pub open spec fn report_lines(report: Report) -> Seq<Seq<char>> {
    let notes = marked("! "@, views(report.notes@));
    if report.rows@.len() == 0 {
        notes + seq![report.repo@ + ": no tracked pull requests"@]
    } else {
        notes + seq![
            report.repo@ + ": "@ + decimal_text(report.rows@.len()) + " tracked pull request(s)"@,
        ] + views(report.rows@).map_values(|row: RowView| row_line(row))
    }
}

/// A report in words.
pub fn render(report: &Report) -> (text: String)
    ensures
        text@ == joined(report_lines(*report), "\n"@),
{
    let mut lines: Vec<String> = Vec::new();
    push_marked(&mut lines, "! ", report.notes.as_slice());
    let ghost notes = marked("! "@, views(report.notes@));
    assert(views(lines@) =~= notes);
    if report.rows.len() == 0 {
        let mut line = report.repo.clone();
        line.append(": no tracked pull requests");
        lines.push(line);
        assert(views(lines@) =~= report_lines(*report));
        return join(&lines, "\n");
    }
    let mut head = report.repo.clone();
    head.append(": ");
    head.append(decimal(report.rows.len() as u64).as_str());
    head.append(" tracked pull request(s)");
    lines.push(head);
    let ghost opening = notes + seq![
        report.repo@ + ": "@ + decimal_text(report.rows@.len()) + " tracked pull request(s)"@,
    ];
    assert(views(lines@) =~= opening);
    let ghost rows = views(report.rows@).map_values(|row: RowView| row_line(row));
    let mut k: usize = 0;
    assert(rows.take(0) =~= Seq::empty());
    while k < report.rows.len()
        invariant
            k <= report.rows@.len(),
            rows == views(report.rows@).map_values(|row: RowView| row_line(row)),
            views(lines@) == opening + rows.take(k as int),
        decreases report.rows@.len() - k,
    {
        proof {
            lemma_take_next(rows, k as int);
            assert(views(report.rows@)[k as int] == report.rows@[k as int]@);
        }
        let row = &report.rows[k];
        let mut line = "  #".to_owned();
        line.append(pad(decimal(row.number).as_str(), 6).as_str());
        line.append(" ");
        line.append(row.state.as_str());
        line.append(" ");
        line.append(pad(row.forge_state.as_str(), 8).as_str());
        line.append(" ");
        line.append(row.label.as_str());
        assert(line@ == row_line(row@));
        let ghost earlier = views(lines@);
        lines.push(line);
        assert(views(lines@) =~= opening + rows.take(k + 1));
        k += 1;
    }
    assert(rows.take(k as int) =~= rows);
    assert(views(lines@) =~= report_lines(*report));
    join(&lines, "\n")
}

/// How a run ends. A command that could not answer must not report success, or a script gating on
/// it sees green.
pub fn exit_for(report: &Report) -> (exit: Exit)
    ensures
        exit == (if report.problems@.len() == 0 {
            Exit::Clean
        } else {
            Exit::Incomplete
        }),
{
    if report.problems.len() == 0 {
        Exit::Clean
    } else {
        Exit::Incomplete
    }
}

/// A first sighting is new whatever the forge says: what settled before the pull request was
/// followed is not replayed.
pub proof fn lemma_first_sighting_is_new(head: Seq<char>, state: Seq<char>)
    ensures
        classified(None, None, head, state) == PullState::New,
{
}

/// The forge repeats a terminal state on every run, and the repetition is no event.
pub proof fn lemma_settled_stays_unchanged(
    previous_head: Option<Seq<char>>,
    previous_state: Seq<char>,
    head: Seq<char>,
    state: Seq<char>,
)
    requires
        says_merged(previous_state) && says_merged(state) || says_closed(previous_state) && says_closed(state),
    ensures
        classified(previous_head, Some(previous_state), head, state) == PullState::Unchanged,
{
    reveal_strlit("MERGED");
    reveal_strlit("CLOSED");
    if says_closed(previous_state) && says_closed(state) {
        assert(ascii_lower('M') == 'm' && ascii_lower('C') == 'c');
        assert(ascii_lower(state[0]) == ascii_lower("CLOSED"@[0]));
        assert(ascii_lower("MERGED"@[0]) == 'm');
        assert(!says_merged(state)) by {
            if says_merged(state) {
                assert(ascii_lower(state[0]) == ascii_lower("MERGED"@[0]));
            }
        }
    }
}

/// The state of the forge wins over head movement: a recorded pull request that was not merged and
/// is merged now is merged, wherever its head went.
pub proof fn lemma_forge_state_wins(
    previous_head: Option<Seq<char>>,
    previous_state: Option<Seq<char>>,
    head: Seq<char>,
    state: Seq<char>,
)
    requires
        previous_head is Some || previous_state is Some,
        says_merged(state),
        previous_state is Some ==> !says_merged(previous_state->0),
    ensures
        classified(previous_head, previous_state, head, state) == PullState::Merged,
{
    if previous_state is None {
        reveal_strlit("MERGED");
        reveal_strlit("OPEN");
    }
}

/// What is recorded of one pull request is what was seen of it: no other one touches it.
proof fn lemma_recorded_of_one(
    followed: Seq<(u64, String)>,
    input: TrackingView,
    record: PullRecord,
    at: int,
    upto: int,
)
    requires
        ascending(followed),
        0 <= at < followed.len(),
        0 <= upto <= followed.len(),
        sighted(input, record, followed[at].0, followed[at].1@) is Ok,
    ensures
        ({
            let number = followed[at].0;
            let changes = followed.take(upto).filter_map(change_seen(input, record));
            let change = sighted(input, record, number, followed[at].1@)->Ok_0.change;
            &&& state_after(changes, number, record.state(number)) == (if at < upto && change.state is Some {
                change.state
            } else {
                record.state(number)
            })
            &&& mark_after(changes, number, record.mark(number)) == (if at < upto && change.mark is Some {
                change.mark
            } else {
                record.mark(number)
            })
            &&& head_after(changes, decimal_text(number as nat), record.head(number)) == (if at < upto {
                Some(change.head)
            } else {
                record.head(number)
            })
        }),
    decreases upto,
{
    let f = change_seen(input, record);
    let number = followed[at].0;
    if upto == 0 {
        assert(followed.take(0).filter_map(f) =~= Seq::empty()) by {
            reveal(Seq::filter_map);
        }
    } else {
        let k = upto - 1;
        lemma_recorded_of_one(followed, input, record, at, k);
        followed.lemma_filter_map_take_succ(f, k);
        let before = followed.take(k).filter_map(f);
        let changes = followed.take(upto).filter_map(f);
        match f(followed[k]) {
            Some(change) => {
                assert(changes =~= before.push(change));
                assert(changes.drop_last() =~= before);
                assert(change.number == followed[k].0);
                if k != at {
                    if k < at {
                        lemma_lex_asymmetric(followed[k].0.rank(), followed[at].0.rank());
                    } else {
                        lemma_lex_asymmetric(followed[at].0.rank(), followed[k].0.rank());
                    }
                    assert(followed[k].0 != number);
                    if decimal_text(followed[k].0 as nat) == decimal_text(number as nat) {
                        lemma_number_round_trip(followed[k].0 as nat);
                        lemma_number_round_trip(number as nat);
                    }
                }
            },
            None => {
                assert(changes =~= before);
            },
        }
    }
}

/// A second look at the same answers reports nothing: a pull request that a run saw is unchanged in
/// the next run, writes no event, and has no newer comment.
pub proof fn lemma_second_look_is_silent(
    followed: Seq<(u64, String)>,
    input: TrackingView,
    before: PullRecord,
    after: PullRecord,
    at: int,
)
    requires
        ascending(followed),
        0 <= at < followed.len(),
        sighted(input, before, followed[at].0, followed[at].1@) is Ok,
        recorded(before, followed.filter_map(change_seen(input, before)), after),
    ensures
        ({
            let number = followed[at].0;
            let again = sighted(input, after, number, followed[at].1@);
            &&& again is Ok
            &&& again->Ok_0.row.state == PullState::Unchanged
            &&& again->Ok_0.event is None
            &&& again->Ok_0.note is None
        }),
{
    let number = followed[at].0;
    assert(followed.take(followed.len() as int) =~= followed);
    lemma_recorded_of_one(followed, input, before, at, followed.len() as int);
    let change = sighted(input, before, number, followed[at].1@)->Ok_0.change;
    assert(after.state(number) == state_after(
        followed.filter_map(change_seen(input, before)),
        number,
        before.state(number),
    ));
    assert(after.mark(number) == mark_after(
        followed.filter_map(change_seen(input, before)),
        number,
        before.mark(number),
    ));
    assert(after.head(number) == Some(current_head(input, number)));
    reveal_strlit("OPEN");
    reveal_strlit("MERGED");
    reveal_strlit("CLOSED");
    assert(what_happened(input, after, number) == PullState::Unchanged) by {
        match forge_state(input, number) {
            Some(state) => {
                assert(after.state(number) == Some(state));
                if says_merged(state) || says_closed(state) {
                    assert(!says_open(state));
                }
            },
            None => {
                match after.state(number) {
                    Some(state) => {
                        assert(!(says_open(state) && (says_merged(state) || says_closed(state))));
                    },
                    None => {
                        reveal_strlit("unknown");
                    },
                }
            },
        }
    }
    assert(!newer_comment(input, after, number)) by {
        match open_comment(input, number) {
            Some(newest) => {
                lemma_lex_irreflexive(ranks(newest));
                if before.mark(number) is Some && !newer_comment(input, before, number) {
                    assert(after.mark(number) == before.mark(number));
                } else {
                    assert(after.mark(number) == Some(newest));
                }
            },
            None => {},
        }
    }
}

/// A pull request that was recorded stays followed, listed or not: telling merged from closed is what
/// the next run needs it for.
pub proof fn lemma_recorded_stays_followed(
    pulls: Seq<PullSummary>,
    foreign: Set<u64>,
    record: PullRecord,
    number: u64,
)
    requires
        record.head(number) is Some,
    ensures
        followed_as(pulls, foreign, record.heads@, number) is Some,
{
    let seen = record.heads@;
    let key = decimal_text(number as nat);
    lemma_lookup_absent(seen, ranks(key));
    let i = choose|i: int| 0 <= i < seen.len() && #[trigger] seen[i].0.rank() == ranks(key);
    lemma_ranks_injective(seen[i].0@, key);
    lemma_number_round_trip(number as nat);
    assert(number_of(seen[i].0@) == Some(number as nat));
}

/// What a sighting says of a pull request that was seen before, was not settled then and is not
/// settled now: it advanced exactly if its head is another than the recorded one, and the event says
/// so. An absent answer of the forge changes nothing of that: no sighting replaces the recorded head of
/// an open pull request without its row saying that it advanced.
pub proof fn lemma_moved_head_is_advanced(
    input: TrackingView,
    record: PullRecord,
    number: u64,
    label: Seq<char>,
    head: Seq<char>,
)
    requires
        record.head(number) == Some(head),
        sighted(input, record, number, label) is Ok,
        record.state(number) matches Some(before) ==> !same_ignoring_case(before, "MERGED"@) && !same_ignoring_case(
            before,
            "CLOSED"@,
        ),
        input.answers matches Some(answers) ==> !same_ignoring_case(answers.facts@[number].pull.state@, "MERGED"@)
            && !same_ignoring_case(answers.facts@[number].pull.state@, "CLOSED"@),
    ensures
        ({
            let seen = sighted(input, record, number, label)->Ok_0;
            let now = if input.heads.contains_key(number) {
                input.heads[number]@
            } else {
                input.answers->0.facts@[number].pull.head_ref_oid@
            };
            &&& seen.change.head == now
            &&& now != head ==> seen.row.state == PullState::Advanced
            &&& now == head ==> seen.row.state == PullState::Unchanged
            &&& seen.event is Some <==> now != head
            &&& seen.event matches Some(event) ==> event.text == "#"@ + decimal_text(number as nat)
                + " advanced to "@ + prefix(now, 12)
        }),
{
    reveal_strlit("MERGED");
    reveal_strlit("CLOSED");
    reveal_strlit("OPEN");
    reveal_strlit("unknown");
}

/// What happened to a pull request, case by case. Nothing recorded of it makes it new. Of one that was
/// recorded, a head without a state counting as open: it merged or closed exactly if the forge says so now
/// and did not before, it was reopened exactly if the forge says open and it was settled, it advanced
/// exactly if it is settled neither way, was not reopened and has another head than the recorded one, and
/// else it is unchanged.
pub proof fn lemma_what_happened_case_by_case(
    previous_head: Option<Seq<char>>,
    previous_state: Option<Seq<char>>,
    head: Seq<char>,
    state: Seq<char>,
)
    ensures
        ({
            let what = classified(previous_head, previous_state, head, state);
            let seen = previous_head is Some || previous_state is Some;
            let merged = same_ignoring_case(state, "MERGED"@);
            let closed = same_ignoring_case(state, "CLOSED"@);
            let was_merged = previous_state is Some && same_ignoring_case(previous_state->0, "MERGED"@);
            let was_closed = previous_state is Some && same_ignoring_case(previous_state->0, "CLOSED"@);
            let reopened = same_ignoring_case(state, "OPEN"@) && (was_merged || was_closed);
            let moved = previous_head is Some && previous_head->0 != head;
            &&& what == PullState::New <==> !seen
            &&& what == PullState::Merged <==> seen && merged && !was_merged
            &&& what == PullState::Closed <==> seen && closed && !was_closed
            &&& what == PullState::Reopened <==> seen && reopened
            &&& what == PullState::Advanced <==> seen && !merged && !closed && !reopened && moved
        }),
{
    reveal_strlit("MERGED");
    reveal_strlit("CLOSED");
    reveal_strlit("OPEN");
    if same_ignoring_case(state, "MERGED"@) && same_ignoring_case(state, "CLOSED"@) {
        assert(ascii_lower(state[0]) == ascii_lower("MERGED"@[0]));
        assert(ascii_lower(state[0]) == ascii_lower("CLOSED"@[0]));
    }
}

/// A pull request is sighted exactly if the forge was not asked or knows it, and a head is known of it: the
/// fetched one, else the one the forge reports. What is then seen is of that pull request.
pub proof fn lemma_sighting(input: TrackingView, record: PullRecord, number: u64, label: Seq<char>)
    ensures
        ({
            let known = input.answers is Some && input.answers->0.facts@.contains_key(number);
            let fact = input.answers->0.facts@[number];
            let head = if input.heads.contains_key(number) {
                input.heads[number]@
            } else if known {
                fact.pull.head_ref_oid@
            } else {
                Seq::empty()
            };
            let result = sighted(input, record, number, label);
            &&& result is Ok <==> (input.answers is None || known) && head.len() > 0
            &&& result matches Ok(seen) ==> {
                &&& seen.row.number == number && seen.row.label == label
                &&& seen.change.number == number && seen.change.head == head
                &&& known ==> seen.change.state == Some(fact.pull.state@) && seen.row.forge_state == lowercase_text(
                    fact.pull.state@,
                )
                &&& !known ==> seen.change.state is None && seen.row.forge_state == "unknown"@
                &&& seen.event is Some <==> seen.row.state != PullState::New && seen.row.state != PullState::Unchanged
            }
        }),
{
    reveal_strlit("");
    assert(""@ =~= Seq::empty());
    let head = current_head(input, number);
    if head.len() == 0 {
        assert(head =~= ""@);
    }
}

/// What the row of a pull request says that the forge answered for: it is what happened between the record
/// and that answer.
pub proof fn lemma_answered_sighting(input: TrackingView, record: PullRecord, number: u64, label: Seq<char>)
    requires
        sighted(input, record, number, label) is Ok,
        input.answers is Some,
    ensures
        ({
            let seen = sighted(input, record, number, label)->Ok_0;
            let state = input.answers->0.facts@[number].pull.state@;
            let recorded = record.head(number) is Some || record.state(number) is Some;
            let was_merged = record.state(number) is Some && same_ignoring_case(record.state(number)->0, "MERGED"@);
            let was_closed = record.state(number) is Some && same_ignoring_case(record.state(number)->0, "CLOSED"@);
            &&& !recorded ==> seen.row.state == PullState::New
            &&& recorded && same_ignoring_case(state, "MERGED"@) ==> seen.row.state == (if was_merged {
                PullState::Unchanged
            } else {
                PullState::Merged
            })
            &&& recorded && same_ignoring_case(state, "CLOSED"@) ==> seen.row.state == (if was_closed {
                PullState::Unchanged
            } else {
                PullState::Closed
            })
            &&& recorded && same_ignoring_case(state, "OPEN"@) && (was_merged || was_closed) ==> seen.row.state
                == PullState::Reopened
        }),
{
    let state = input.answers->0.facts@[number].pull.state@;
    lemma_what_happened_case_by_case(record.head(number), record.state(number), current_head(input, number), state);
    reveal_strlit("MERGED");
    reveal_strlit("CLOSED");
    reveal_strlit("OPEN");
    if same_ignoring_case(state, "MERGED"@) && same_ignoring_case(state, "CLOSED"@) {
        assert(ascii_lower(state[0]) == ascii_lower("MERGED"@[0]));
        assert(ascii_lower(state[0]) == ascii_lower("CLOSED"@[0]));
    }
}

/// A pull request that was recorded settled stays as it is while the forge says nothing of it, whether or
/// not its head moved.
pub proof fn lemma_settled_is_silent_without_answer(
    input: TrackingView,
    record: PullRecord,
    number: u64,
    label: Seq<char>,
)
    requires
        sighted(input, record, number, label) is Ok,
        input.answers is None,
        record.state(number) matches Some(before) && (same_ignoring_case(before, "MERGED"@) || same_ignoring_case(
            before,
            "CLOSED"@,
        )),
    ensures
        sighted(input, record, number, label)->Ok_0.row.state == PullState::Unchanged,
        sighted(input, record, number, label)->Ok_0.event is None,
        sighted(input, record, number, label)->Ok_0.change.state is None,
{
    let before = record.state(number)->0;
    lemma_settled_stays_unchanged(record.head(number), before, current_head(input, number), before);
}

/// Comments are noted of a pull request exactly if it is open, has one, and that is later than the mark of
/// the last run; the mark moves to it then, and to the first one that is seen.
pub proof fn lemma_newer_comment_is_noted(input: TrackingView, record: PullRecord, number: u64, label: Seq<char>)
    requires
        sighted(input, record, number, label) is Ok,
    ensures
        ({
            let seen = sighted(input, record, number, label)->Ok_0;
            let fact = input.answers->0.facts@[number];
            let commented = input.answers is Some && same_ignoring_case(fact.pull.state@, "OPEN"@)
                && fact.newest_comment is Some;
            let mark = record.mark(number);
            &&& seen.note is Some <==> commented && mark is Some && lex_less(
                ranks(mark->0),
                ranks(fact.newest_comment->0@),
            )
            &&& seen.note matches Some(note) ==> note == "#"@ + decimal_text(number as nat)
                + " has comment activity newer than the last sync"@
            &&& seen.change.mark is Some <==> commented && (mark is None || lex_less(
                ranks(mark->0),
                ranks(fact.newest_comment->0@),
            ))
            &&& seen.change.mark matches Some(moved) ==> moved == fact.newest_comment->0@
        }),
{
}

/// The words of an event: each kind of movement has its own, and what did not move has none.
pub proof fn lemma_words_of_events(number: u64, head: Seq<char>)
    ensures
        transition(number, PullState::Merged, head) == Some("#"@ + decimal_text(number as nat) + " merged"@),
        transition(number, PullState::Closed, head) == Some("#"@ + decimal_text(number as nat) + " closed"@),
        transition(number, PullState::Reopened, head) == Some("#"@ + decimal_text(number as nat) + " reopened"@),
        transition(number, PullState::Advanced, head) == Some(
            "#"@ + decimal_text(number as nat) + " advanced to "@ + prefix(head, 12),
        ),
        transition(number, PullState::New, head) is None,
        transition(number, PullState::Unchanged, head) is None,
{
}

proof fn lemma_last_branch(pulls: Seq<PullSummary>, number: u64)
    ensures
        match last_branch(pulls, number) {
            Some(branch) => exists|i: int|
                0 <= i < pulls.len() && (#[trigger] pulls[i]).number == number && pulls[i].head_ref_name@ == branch,
            None => forall|i: int| 0 <= i < pulls.len() ==> (#[trigger] pulls[i]).number != number,
        },
    decreases pulls.len(),
{
    if pulls.len() > 0 {
        let rest = pulls.drop_last();
        lemma_last_branch(rest, number);
        assert(pulls[pulls.len() - 1] == pulls.last());
        if pulls.last().number != number {
            match last_branch(pulls, number) {
                Some(branch) => {
                    let i = choose|i: int|
                        0 <= i < rest.len() && (#[trigger] rest[i]).number == number && rest[i].head_ref_name@
                            == branch;
                    assert(pulls[i] == rest[i]);
                },
                None => {
                    assert forall|i: int| 0 <= i < pulls.len() implies (#[trigger] pulls[i]).number != number by {
                        if i < rest.len() {
                            assert(rest[i] == pulls[i]);
                        }
                    }
                },
            }
        }
    }
}

/// A pull request is followed exactly if it is listed, was recorded, or is carried from elsewhere. A listed
/// one is called by its branch, a recorded one by its number, and only one that is neither is called
/// foreign.
pub proof fn lemma_followed_pulls(
    pulls: Seq<PullSummary>,
    foreign: Set<u64>,
    seen: Seq<(String, String)>,
    number: u64,
)
    ensures
        ({
            let listed = exists|i: int| 0 <= i < pulls.len() && (#[trigger] pulls[i]).number == number;
            let recorded = exists|i: int|
                0 <= i < seen.len() && number_of((#[trigger] seen[i]).0@) == Some(number as nat);
            let name = followed_as(pulls, foreign, seen, number);
            &&& name is Some <==> listed || recorded || foreign.contains(number)
            &&& listed ==> exists|i: int|
                0 <= i < pulls.len() && (#[trigger] pulls[i]).number == number && name == Some(
                    pulls[i].head_ref_name@,
                )
            &&& !listed && recorded ==> name == Some("#"@ + decimal_text(number as nat))
            &&& !listed && !recorded && foreign.contains(number) ==> name == Some(
                "#"@ + decimal_text(number as nat) + " (foreign)"@,
            )
        }),
{
    lemma_last_branch(pulls, number);
    if recorded_number(seen, number) {
        let i = choose|i: int| 0 <= i < seen.len() && #[trigger] number_of(seen[i].0@) == Some(number as nat);
        assert(number_of(seen[i].0@) == Some(number as nat));
    }
    if exists|i: int| 0 <= i < seen.len() && number_of((#[trigger] seen[i]).0@) == Some(number as nat) {
        let i = choose|i: int| 0 <= i < seen.len() && number_of((#[trigger] seen[i]).0@) == Some(number as nat);
        assert(number_of(seen[i].0@) == Some(number as nat));
        assert(recorded_number(seen, number));
    }
}

/// What a run records of a pull request that it saw: the head it saw, and the state where the forge gave
/// one; without one the recorded state stays. Of one that it did not see nothing changes.
pub proof fn lemma_run_records_what_it_saw(
    followed: Seq<(u64, String)>,
    input: TrackingView,
    before: PullRecord,
    after: PullRecord,
    at: int,
)
    requires
        ascending(followed),
        0 <= at < followed.len(),
        sighted(input, before, followed[at].0, followed[at].1@) is Ok,
        recorded(before, followed.filter_map(change_seen(input, before)), after),
    ensures
        ({
            let number = followed[at].0;
            let known = input.answers is Some;
            let fact = input.answers->0.facts@[number];
            &&& after.head(number) == Some(
                if input.heads.contains_key(number) {
                    input.heads[number]@
                } else {
                    fact.pull.head_ref_oid@
                },
            )
            &&& known ==> after.state(number) == Some(fact.pull.state@)
            &&& !known ==> after.state(number) == before.state(number)
            &&& !known ==> after.mark(number) == before.mark(number)
        }),
{
    let number = followed[at].0;
    assert(followed.take(followed.len() as int) =~= followed);
    lemma_recorded_of_one(followed, input, before, at, followed.len() as int);
    lemma_sighting(input, before, number, followed[at].1@);
    let changes = followed.filter_map(change_seen(input, before));
    assert(after.state(number) == state_after(changes, number, before.state(number)));
    assert(after.mark(number) == mark_after(changes, number, before.mark(number)));
    assert(after.head(number) == head_after(changes, decimal_text(number as nat), before.head(number)));
}

/// A report has a row or a problem for each pull request that is followed, and never both: as many of the
/// two together as are followed.
pub proof fn lemma_each_followed_pull_is_reported(
    followed: Seq<(u64, String)>,
    input: TrackingView,
    record: PullRecord,
)
    ensures
        followed.filter_map(row_seen(input, record)).len() + followed.filter_map(problem_seen(input, record)).len()
            == followed.len(),
        followed.filter_map(change_seen(input, record)).len() == followed.filter_map(row_seen(input, record)).len(),
    decreases followed.len(),
{
    if followed.len() > 0 {
        lemma_each_followed_pull_is_reported(followed.drop_last(), input, record);
    }
}

/// A fetch of a foreign pull request is noted where it succeeded and is a problem where it failed.
pub proof fn lemma_fetches_are_told(fetch: (u64, Result<CommitId, String>))
    ensures
        fetched_note()(fetch) is Some <==> fetch.1 is Ok,
        fetch_problem()(fetch) is Some <==> fetch.1 is Err,
        fetch.1 matches Ok(commit) ==> fetched_note()(fetch) == Some(
            "fetched foreign #"@ + decimal_text(fetch.0 as nat) + " as pull/"@ + decimal_text(fetch.0 as nat) + " ("@
                + prefix(commit@, 12) + ")"@,
        ),
{
    if fetch.1 is Ok {
        reveal_strlit("fetched foreign ");
        reveal_strlit("fetched foreign #");
        reveal_strlit("#");
        assert("fetched foreign "@ + "#"@ =~= "fetched foreign #"@);
        assert("fetched foreign "@ + sharp(fetch.0) =~= "fetched foreign #"@ + decimal_text(fetch.0 as nat));
    }
}

/// What is known when pull requests are looked at: the heads that could be read, and answers exactly if the
/// forge gave them.
pub proof fn lemma_what_is_known(heads: Result<BTreeMap<u64, String>, String>, reach: ForgeReach, store: Store)
    ensures
        known_of(heads, reach, store).answers is Some <==> reach is Answered,
        heads matches Ok(found) ==> known_of(heads, reach, store).heads == found@,
        heads is Err ==> known_of(heads, reach, store).heads == Map::<u64, String>::empty(),
        heads_problem(heads).len() > 0 <==> heads is Err,
        reach_note(reach).len() > 0 <==> reach is NotAsked,
{
}

proof fn lemma_first_branch(pulls: Seq<PullSummary>, number: u64)
    ensures
        match first_branch(pulls, number) {
            Some(branch) => exists|i: int|
                0 <= i < pulls.len() && (#[trigger] pulls[i]).number == number && pulls[i].head_ref_name@ == branch,
            None => forall|i: int| 0 <= i < pulls.len() ==> (#[trigger] pulls[i]).number != number,
        },
    decreases pulls.len(),
{
    if pulls.len() > 0 && pulls[0].number != number {
        let rest = pulls.skip(1);
        lemma_first_branch(rest, number);
        match first_branch(pulls, number) {
            Some(branch) => {
                let i = choose|i: int|
                    0 <= i < rest.len() && (#[trigger] rest[i]).number == number && rest[i].head_ref_name@ == branch;
                assert(pulls[i + 1] == rest[i]);
            },
            None => {
                assert forall|i: int| 0 <= i < pulls.len() implies (#[trigger] pulls[i]).number != number by {
                    if i > 0 {
                        assert(rest[i - 1] == pulls[i]);
                    }
                }
            },
        }
    }
}

/// An event is about the branch of a pull request of that number which the forge lists, and about none where
/// it lists none or was not asked; it carries the pull request that the branch states.
pub proof fn lemma_event_is_about_the_branch(input: TrackingView, record: PullRecord, number: u64)
    requires
        event_of(input, record, number) is Some,
    ensures
        ({
            let event = event_of(input, record, number)->0;
            let listed = input.answers is Some && exists|i: int|
                0 <= i < input.answers->0.rows@.len() && (#[trigger] input.answers->0.rows@[i]).number == number;
            &&& event.subject is Some <==> listed
            &&& event.subject matches Some(branch) ==> exists|i: int|
                0 <= i < input.answers->0.rows@.len() && (#[trigger] input.answers->0.rows@[i]).number == number
                    && input.answers->0.rows@[i].head_ref_name@ == branch
            &&& event.pr == (if event.subject is Some {
                lookup(input.store.stated@, ranks(event.subject->0))
            } else {
                None
            })
        }),
{
    if let Some(answers) = input.answers {
        lemma_first_branch(answers.rows@, number);
    }
}

/// Each thing that can have happened to a pull request has its own word.
pub proof fn lemma_words_of_rows()
    ensures
        PullState::New.label() == "new"@ && PullState::Unchanged.label() == "unchanged"@,
        PullState::Advanced.label() == "advanced"@ && PullState::Merged.label() == "merged"@,
        PullState::Closed.label() == "closed"@ && PullState::Reopened.label() == "reopened"@,
{
}

} // verus!
