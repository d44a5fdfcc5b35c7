//! Landed verdicts the forge can settle: a merged pull request whose landing commit the upstream
//! trunk contains.
//!
//! A replay cannot recognise a squash merge. Replaying a branch onto a trunk that already carries
//! its squash always conflicts, because the branch's own squash is in the way, so every
//! squash-merged pull request would read like one the maintainer declined; a divergent bookmark is
//! never replayed at all.
//!
//! The forge records where a pull request landed, and the local upstream view says whether the
//! trunk reaches that commit. When it does, and the local branch holds nothing past what the pull
//! request merged, the branch is in the trunk by evidence rather than by replay.

use vstd::prelude::*;
use vstd::string::*;

use crate::commands::status::rows::{pull_summary_for, summary_for};
use crate::commands::status::{BranchRow, BranchState, RowView};
use crate::detect::landed::LandedVerdict;
use crate::detect::stale_parents::BookmarkTips;
use crate::forge::{merged_state, PullIndex, PullSummary};
use crate::graph::CommitGraph;
use crate::ids::{bookmark_rank, short_id, short_text, BookmarkRef, BookmarkView, BranchName, CommitId};
use crate::order::{lookup, OrdMap, Ordered};
use crate::seqs::{group_seqs, view_of, views};
use crate::text::{decimal, decimal_text, same_ignoring_case};

verus! {

/// What the verdicts are settled from.
#[derive(Clone, Copy)]
pub struct MergedLandedInput<'a> {
    pub graph: &'a CommitGraph,
    pub index: &'a PullIndex,
    pub tips: &'a BookmarkTips,
    /// Every commit a divergent bookmark names: those rows have no single tip in `tips`.
    pub conflicted: &'a OrdMap<BookmarkRef, Vec<CommitId>>,
    pub trunk_tip: Option<&'a CommitId>,
}

/// The commits the bookmark of a row names: one for a normal branch, several for a divergent one.
pub open spec fn named_commits(
    branch: Seq<char>,
    tips: Seq<(BookmarkRef, CommitId)>,
    conflicted: Seq<(BookmarkRef, Vec<CommitId>)>,
) -> Seq<CommitId> {
    let rank = bookmark_rank(BookmarkView::Local(branch));
    match lookup(tips, rank) {
        Some(tip) => seq![tip],
        None => match lookup(conflicted, rank) {
            Some(commits) => commits@,
            None => Seq::empty(),
        },
    }
}

/// What the local branch holds relative to the commit the pull request merged.
#[derive(Debug, Clone, Copy, PartialEq, Eq, Structural)]
pub enum LocalContent {
    /// Every local tip is the merged head or an ancestor of it.
    WithinMerged,
    /// Some local tip is not within the merged head: commits past it, or a rewrite of the same
    /// work the head does not reach.
    PastMerged,
}

/// Whether every commit is `head` or an ancestor of it.
pub open spec fn all_within(graph: CommitGraph, commits: Seq<CommitId>, head: Seq<char>) -> bool {
    forall|i: int|
        0 <= i < commits.len() ==> (#[trigger] commits[i])@ == head || graph.reaches(commits[i]@, head)
}

/// What the commits of a branch hold relative to `head`; nothing where there are none.
pub open spec fn content_of(graph: CommitGraph, commits: Seq<CommitId>, head: Seq<char>) -> Option<LocalContent> {
    if commits.len() == 0 {
        None
    } else if all_within(graph, commits, head) {
        Some(LocalContent::WithinMerged)
    } else {
        Some(LocalContent::PastMerged)
    }
}

/// What the commits of a branch hold relative to the merged head.
pub fn local_content(graph: &CommitGraph, local_tips: &Vec<CommitId>, merged_head: &CommitId) -> (content: Option<
    LocalContent,
>)
    ensures
        content == content_of(*graph, local_tips@, merged_head@),
{
    if local_tips.len() == 0 {
        return None;
    }
    let mut i: usize = 0;
    while i < local_tips.len()
        invariant
            i <= local_tips@.len(),
            local_tips@.len() > 0,
            forall|j: int|
                0 <= j < i ==> (#[trigger] local_tips@[j])@ == merged_head@ || graph.reaches(
                    local_tips@[j]@,
                    merged_head@,
                ),
        decreases local_tips@.len() - i,
    {
        if !local_tips[i].same(merged_head) && !graph.is_ancestor(&local_tips[i], merged_head) {
            assert(!all_within(*graph, local_tips@, merged_head@)) by {
                assert(local_tips@[i as int]@ != merged_head@);
            }
            return Some(LocalContent::PastMerged);
        }
        i += 1;
    }
    Some(LocalContent::WithinMerged)
}

/// The commits the bookmark of a row names.
pub fn local_tips(
    branch: &BranchName,
    tips: &BookmarkTips,
    conflicted: &OrdMap<BookmarkRef, Vec<CommitId>>,
) -> (commits: Vec<CommitId>)
    ensures
        commits@ == named_commits(branch@, tips@, conflicted@),
{
    let bookmark = BookmarkRef::Local(branch.clone());
    assert(bookmark.rank() == bookmark_rank(BookmarkView::Local(branch@)));
    let mut commits: Vec<CommitId> = Vec::new();
    if let Some(tip) = tips.get(&bookmark) {
        commits.push(tip.clone());
        assert(commits@ =~= seq![*tip]);
        return commits;
    }
    if let Some(named) = conflicted.get(&bookmark) {
        let mut i: usize = 0;
        while i < named.len()
            invariant
                i <= named@.len(),
                commits@ == named@.take(i as int),
            decreases named@.len() - i,
        {
            commits.push(named[i].clone());
            i += 1;
            assert(commits@ =~= named@.take(i as int));
        }
        assert(commits@ =~= named@);
    }
    commits
}

/// The landing commit of a merged pull request, when the forge recorded one.
pub open spec fn landing_of(summary: PullSummary) -> Option<Seq<char>> {
    match summary.merge_commit {
        Some(merge) => if merged_state(summary.state@) {
            Some(merge.oid@)
        } else {
            None
        },
        None => None,
    }
}

/// The landing commit of a merged pull request, when the forge recorded one.
pub fn merged_landing(summary: &PullSummary) -> (landing: Option<&str>)
    ensures
        view_of(landing) == landing_of(*summary),
{
    if !summary.is_merged() {
        return None;
    }
    match &summary.merge_commit {
        Some(merge) => Some(merge.oid.as_str()),
        None => None,
    }
}

/// What becomes of the verdict of a row.
pub enum Settlement {
    /// The forge has nothing to say about it.
    Untouched,
    /// It stays, and a note says why.
    Noted(Seq<char>),
    /// The branch is in the trunk.
    InTrunk,
}

/// A branch and its pull request, at the head of a note.
pub open spec fn note_head(branch: Seq<char>, number: u64) -> Seq<char> {
    branch + ": #"@ + decimal_text(number as nat)
}

/// How a row was judged that its pull request does not settle, in words.
pub open spec fn other_judgement(row: RowView) -> Seq<char> {
    if row.landed is Some {
        "landed is judged by replay"@
    } else if row.state == BranchState::Divergent {
        "landed cannot be judged until the branch has one tip"@
    } else {
        "landed was not probed"@
    }
}

/// What becomes of the verdict of a row by its pull request.
pub open spec fn settled_by(
    row: RowView,
    summary: PullSummary,
    graph: CommitGraph,
    commits: Seq<CommitId>,
    trunk: Seq<char>,
) -> Settlement {
    match landing_of(summary) {
        None => Settlement::Untouched,
        Some(landing) => match graph.commit(landing) {
            None => Settlement::Noted(
                note_head(row.name, summary.number) + " merged as "@ + short_text(landing)
                    + ", which the local upstream view does not have; `knives sync` fetches it"@,
            ),
            Some(commit) => if !graph.reaches(commit, trunk) {
                Settlement::Untouched
            } else {
                match graph.commit(summary.head_ref_oid@) {
                    None => Settlement::Noted(
                        note_head(row.name, summary.number) + " merged its head "@ + short_text(
                            summary.head_ref_oid@,
                        )
                            + ", which the local repository does not have, so whether the branch holds more than it merged cannot be said; `knives sync` fetches it"@,
                    ),
                    Some(head) => match content_of(graph, commits, head) {
                        None => Settlement::Untouched,
                        Some(LocalContent::WithinMerged) => Settlement::InTrunk,
                        Some(LocalContent::PastMerged) => Settlement::Noted(
                            note_head(row.name, summary.number) + " merged as "@ + short_text(landing)
                                + " and the trunk has it, but the local branch holds a tip the merged head "@
                                + short_text(summary.head_ref_oid@) + " does not reach; "@ + other_judgement(row),
                        ),
                    },
                }
            },
        },
    }
}

/// What becomes of the verdict of a row.
pub open spec fn settlement(row: RowView, input: MergedLandedInput) -> Settlement {
    match input.trunk_tip {
        None => Settlement::Untouched,
        Some(trunk) => if row.landed == Some(LandedVerdict::InTrunk) {
            Settlement::Untouched
        } else {
            match summary_for(row.name, input.index.by_branch@) {
                None => Settlement::Untouched,
                Some(summary) => settled_by(
                    row,
                    summary,
                    *input.graph,
                    named_commits(row.name, input.tips@, input.conflicted@),
                    trunk@,
                ),
            }
        },
    }
}

/// A row once the forge has had its say.
pub open spec fn settled_row(input: MergedLandedInput) -> spec_fn(RowView) -> RowView {
    |row: RowView|
        match settlement(row, input) {
            Settlement::InTrunk => RowView {
                landed: Some(LandedVerdict::InTrunk),
                state: if row.state == BranchState::ForkOnly || row.state == BranchState::Divergent {
                    row.state
                } else {
                    BranchState::Landed
                },
                ..row
            },
            _ => row,
        }
}

/// The note about a row that its pull request does not settle.
pub open spec fn settlement_note(input: MergedLandedInput) -> spec_fn(RowView) -> Option<Seq<char>> {
    |row: RowView|
        match settlement(row, input) {
            Settlement::Noted(note) => Some(note),
            _ => None,
        }
}

/// What becomes of the verdict of a row, as it is carried out.
enum Settled {
    Untouched,
    Noted(String),
    InTrunk,
}

impl View for Settled {
    type V = Settlement;

    closed spec fn view(&self) -> Settlement {
        match self {
            Settled::Untouched => Settlement::Untouched,
            Settled::Noted(note) => Settlement::Noted(note@),
            Settled::InTrunk => Settlement::InTrunk,
        }
    }
}

fn note(branch: &BranchName, number: u64) -> (head: String)
    ensures
        head@ == note_head(branch@, number),
{
    let mut head = branch.text.clone();
    head.append(": #");
    head.append(decimal(number).as_str());
    head
}

fn settle(row: &BranchRow, input: &MergedLandedInput<'_>) -> (settled: Settled)
    ensures
        settled@ == settlement(row@, *input),
{
    let trunk_tip = match input.trunk_tip {
        Some(trunk_tip) => trunk_tip,
        None => return Settled::Untouched,
    };
    if let Some(LandedVerdict::InTrunk) = row.landed {
        return Settled::Untouched;
    }
    let summary = match pull_summary_for(&row.name, &input.index.by_branch) {
        Some(summary) => summary,
        None => return Settled::Untouched,
    };
    let landing = match merged_landing(summary) {
        Some(landing) => landing,
        None => return Settled::Untouched,
    };
    let landing_commit = match input.graph.resolve(landing) {
        Some(commit) => commit,
        None => {
            let mut text = note(&row.name, summary.number);
            text.append(" merged as ");
            text.append(short_id(landing).as_str());
            text.append(", which the local upstream view does not have; `knives sync` fetches it");
            return Settled::Noted(text);
        },
    };
    if !input.graph.is_ancestor(landing_commit, trunk_tip) {
        return Settled::Untouched;
    }
    let merged_head = match input.graph.resolve(summary.head_ref_oid.as_str()) {
        Some(commit) => commit,
        None => {
            let mut text = note(&row.name, summary.number);
            text.append(" merged its head ");
            text.append(short_id(summary.head_ref_oid.as_str()).as_str());
            text.append(
                ", which the local repository does not have, so whether the branch holds more than it merged cannot be said; `knives sync` fetches it",
            );
            return Settled::Noted(text);
        },
    };
    let tips = local_tips(&row.name, input.tips, input.conflicted);
    match local_content(input.graph, &tips, merged_head) {
        Some(LocalContent::WithinMerged) => Settled::InTrunk,
        Some(LocalContent::PastMerged) => {
            let mut text = note(&row.name, summary.number);
            text.append(" merged as ");
            text.append(short_id(landing).as_str());
            text.append(" and the trunk has it, but the local branch holds a tip the merged head ");
            text.append(short_id(summary.head_ref_oid.as_str()).as_str());
            text.append(" does not reach; ");
            if row.landed.is_some() {
                text.append("landed is judged by replay");
            } else if row.state == BranchState::Divergent {
                text.append("landed cannot be judged until the branch has one tip");
            } else {
                text.append("landed was not probed");
            }
            Settled::Noted(text)
        },
        None => Settled::Untouched,
    }
}

/// Settle the verdict of every row whose merged pull request the trunk contains, and say what could
/// not be settled.
///
/// Rows already judged to be in the trunk are left alone. A merged pull request whose landing
/// commit or merged head the local repository lacks is noted rather than guessed at. A branch
/// holding a tip the merged head does not reach keeps its verdict, with a note saying why: the pull
/// request landed, the branch is somewhere else.
pub fn settle_merged_landed(rows: &mut Vec<BranchRow>, input: MergedLandedInput<'_>) -> (notes: Vec<String>)
    ensures
        views(final(rows)@) == views(old(rows)@).map_values(settled_row(input)),
        views(notes@) == views(old(rows)@).filter_map(settlement_note(input)),
        forall|i: int| 0 <= i < old(rows)@.len() ==> (#[trigger] final(rows)@[i]).name == old(rows)@[i].name,
{
    broadcast use group_seqs;

    let mut notes: Vec<String> = Vec::new();
    let ghost start = views(rows@);
    let ghost before = rows@;
    let mut i: usize = 0;
    while i < rows.len()
        invariant
            i <= rows@.len(),
            rows@.len() == before.len(),
            start == views(before),
            forall|j: int| 0 <= j < i ==> (#[trigger] rows@[j])@ == settled_row(input)(start[j]),
            forall|j: int| i <= j < rows@.len() ==> #[trigger] rows@[j] == before[j],
            forall|j: int| 0 <= j < i ==> (#[trigger] rows@[j]).name == before[j].name,
            views(notes@) == start.take(i as int).filter_map(settlement_note(input)),
        decreases rows@.len() - i,
    {
        proof {
            start.lemma_filter_map_take_succ(settlement_note(input), i as int);
            assert(start[i as int] == rows@[i as int]@);
        }
        match settle(&rows[i], &input) {
            Settled::InTrunk => {
                let row = &mut rows[i];
                row.landed = Some(LandedVerdict::InTrunk);
                match row.state {
                    BranchState::ForkOnly | BranchState::Divergent => {},
                    _ => {
                        row.state = BranchState::Landed;
                    },
                }
            },
            Settled::Noted(text) => {
                notes.push(text);
            },
            Settled::Untouched => {},
        }
        assert(views(notes@) =~= start.take(i + 1).filter_map(settlement_note(input)));
        i += 1;
    }
    assert(views(rows@) =~= start.map_values(settled_row(input)));
    notes
}

/// A row that already reads as in the trunk is left as it is, and nothing is noted of it.
pub proof fn lemma_in_trunk_row_is_left(row: RowView, input: MergedLandedInput)
    requires
        row.landed == Some(LandedVerdict::InTrunk),
    ensures
        settled_row(input)(row) == row,
        settlement_note(input)(row) is None,
{
}

/// Settling twice changes nothing more.
pub proof fn lemma_settling_is_final(row: RowView, input: MergedLandedInput)
    ensures
        settled_row(input)(settled_row(input)(row)) == settled_row(input)(row),
{
    if settlement(row, input) is InTrunk {
        lemma_in_trunk_row_is_left(settled_row(input)(row), input);
    }
}

/// When the merge of a pull request settles that a branch is in the trunk: exactly if it says merged, its
/// merge commit is known and inside the trunk, its head is known, and the branch has tips, each of which
/// is the head or inside it.
pub proof fn lemma_settled_exactly_where_merged(
    row: RowView,
    summary: PullSummary,
    graph: CommitGraph,
    commits: Seq<CommitId>,
    trunk: Seq<char>,
)
    ensures
        settled_by(row, summary, graph, commits, trunk) is InTrunk <==> {
            &&& same_ignoring_case(summary.state@, "MERGED"@)
            &&& summary.merge_commit is Some
            &&& graph.commit(summary.merge_commit->0.oid@) is Some
            &&& graph.reaches(graph.commit(summary.merge_commit->0.oid@)->0, trunk)
            &&& graph.commit(summary.head_ref_oid@) is Some
            &&& commits.len() > 0
            &&& forall|i: int|
                0 <= i < commits.len() ==> (#[trigger] commits[i])@ == graph.commit(summary.head_ref_oid@)->0
                    || graph.reaches(commits[i]@, graph.commit(summary.head_ref_oid@)->0)
        },
        !same_ignoring_case(summary.state@, "MERGED"@) || summary.merge_commit is None ==> settled_by(
            row,
            summary,
            graph,
            commits,
            trunk,
        ) is Untouched,
        same_ignoring_case(summary.state@, "MERGED"@) && summary.merge_commit is Some && graph.commit(
            summary.merge_commit->0.oid@,
        ) is None ==> settled_by(row, summary, graph, commits, trunk) is Noted,
{
}

/// A row changes exactly if the merge of its pull request settles it: it then has landed, and its state
/// says so unless the branch stays in the fork or diverges. Nothing else of it changes.
pub proof fn lemma_settled_row(row: RowView, input: MergedLandedInput)
    ensures
        ({
            let after = settled_row(input)(row);
            let settles = settlement(row, input) is InTrunk;
            &&& !settles ==> after == row
            &&& settles ==> after.landed == Some(LandedVerdict::InTrunk)
            &&& settles && row.state != BranchState::ForkOnly && row.state != BranchState::Divergent ==> after.state
                == BranchState::Landed
            &&& settles && (row.state == BranchState::ForkOnly || row.state == BranchState::Divergent)
                ==> after.state == row.state
            &&& after.name == row.name && after.pr == row.pr && after.push == row.push && after.tip == row.tip
        }),
        input.trunk_tip is None ==> settlement(row, input) is Untouched,
        summary_for(row.name, input.index.by_branch@) is None ==> settlement(row, input) is Untouched,
{
}

/// The tips of a branch are its one tip, else the commits of its conflicted bookmark.
pub proof fn lemma_tips_of_branch(
    branch: Seq<char>,
    tips: Seq<(BookmarkRef, CommitId)>,
    conflicted: Seq<(BookmarkRef, Vec<CommitId>)>,
)
    ensures
        ({
            let rank = bookmark_rank(BookmarkView::Local(branch));
            &&& lookup(tips, rank) matches Some(tip) ==> named_commits(branch, tips, conflicted) == seq![tip]
            &&& lookup(tips, rank) is None && lookup(conflicted, rank) is Some ==> named_commits(
                branch,
                tips,
                conflicted,
            ) == lookup(conflicted, rank)->0@
            &&& lookup(tips, rank) is None && lookup(conflicted, rank) is None ==> named_commits(
                branch,
                tips,
                conflicted,
            ).len() == 0
        }),
{
}

/// What the merge of a pull request leaves open is noted: that its merge commit or its head is not here, and
/// that the branch holds more than was merged. A merge that the trunk does not have, and a branch without a
/// local tip, leave the row and say nothing.
pub proof fn lemma_what_a_merge_leaves_open(
    row: RowView,
    summary: PullSummary,
    graph: CommitGraph,
    commits: Seq<CommitId>,
    trunk: Seq<char>,
)
    requires
        same_ignoring_case(summary.state@, "MERGED"@),
        summary.merge_commit is Some,
        graph.commit(summary.merge_commit->0.oid@) is Some,
    ensures
        ({
            let settled = settled_by(row, summary, graph, commits, trunk);
            let inside = graph.reaches(graph.commit(summary.merge_commit->0.oid@)->0, trunk);
            let head = graph.commit(summary.head_ref_oid@);
            let within = forall|i: int|
                0 <= i < commits.len() ==> (#[trigger] commits[i])@ == head->0 || graph.reaches(commits[i]@, head->0);
            &&& !inside ==> settled is Untouched
            &&& inside && head is None ==> settled is Noted
            &&& inside && head is Some && commits.len() == 0 ==> settled is Untouched
            &&& inside && head is Some && commits.len() > 0 && !within ==> settled is Noted
        }),
{
}

} // verus!
