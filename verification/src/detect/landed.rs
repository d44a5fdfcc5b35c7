//! Whether a branch's content is already upstream.

use vstd::prelude::*;

verus! {

/// What happened when the branch was replayed onto the upstream trunk.
#[derive(Debug, Clone, Copy, PartialEq, Eq, Structural)]
pub enum RebaseOutcome {
    /// No diff remains: the content is already there.
    Empty,
    /// The replay conflicted.
    Conflicted,
    /// A clean, non-empty replay: still carrying real work.
    CleanNonEmpty,
}

/// What a replay says of the trunk.
#[derive(Debug, Clone, Copy, PartialEq, Eq, Structural)]
pub enum LandedVerdict {
    /// Replaying the branch onto the trunk produced nothing, so the trunk already has this content.
    InTrunk,
    /// Replaying it conflicts with the trunk. Named for what was observed: a branch declined
    /// upstream, whose files unrelated work then touched, conflicts just as well.
    ConflictsWithTrunk,
    /// Replaying it applies cleanly and is not empty, so the trunk does not have it.
    NotInTrunk,
    /// The local bookmark does not match its origin tip, so the replay would be of content the
    /// pull request does not contain.
    Unjudged,
}

impl LandedVerdict {
    /// The label of the verdict.
    pub open spec fn label(self) -> Seq<char> {
        match self {
            LandedVerdict::InTrunk => "in-trunk"@,
            LandedVerdict::ConflictsWithTrunk => "conflicts-with-trunk"@,
            LandedVerdict::NotInTrunk => "not-in-trunk"@,
            LandedVerdict::Unjudged => "landed?"@,
        }
    }

    /// The label of the verdict. The last is short: it shares a line with everything else about
    /// the branch.
    pub fn as_str(&self) -> (label: &'static str)
        ensures
            label@ == self.label(),
    {
        match self {
            LandedVerdict::InTrunk => "in-trunk",
            LandedVerdict::ConflictsWithTrunk => "conflicts-with-trunk",
            LandedVerdict::NotInTrunk => "not-in-trunk",
            LandedVerdict::Unjudged => "landed?",
        }
    }
}

/// No two verdicts share a label.
pub proof fn lemma_verdict_labels_distinct(a: LandedVerdict, b: LandedVerdict)
    ensures
        a.label() == b.label() ==> a == b,
{
    reveal_strlit("in-trunk");
    reveal_strlit("conflicts-with-trunk");
    reveal_strlit("not-in-trunk");
    reveal_strlit("landed?");
    if a.label() == b.label() {
        assert(a.label().len() == b.label().len());
    }
}

/// What the trunk has of a branch whose replay ended in `outcome`.
pub open spec fn landed(outcome: RebaseOutcome) -> LandedVerdict {
    match outcome {
        RebaseOutcome::Empty => LandedVerdict::InTrunk,
        RebaseOutcome::Conflicted => LandedVerdict::ConflictsWithTrunk,
        RebaseOutcome::CleanNonEmpty => LandedVerdict::NotInTrunk,
    }
}

/// Classify a branch by what replaying it onto the trunk produced.
///
/// Ancestry cannot answer this: a squash merge creates a new commit, so the branch never becomes
/// an ancestor of the trunk even though its content is there.
pub fn classify_landed(outcome: RebaseOutcome) -> (verdict: LandedVerdict)
    ensures
        verdict == landed(outcome),
{
    match outcome {
        RebaseOutcome::Empty => LandedVerdict::InTrunk,
        RebaseOutcome::Conflicted => LandedVerdict::ConflictsWithTrunk,
        RebaseOutcome::CleanNonEmpty => LandedVerdict::NotInTrunk,
    }
}

/// A replay judges a branch: in the trunk exactly if nothing is left of it, in conflict with the trunk
/// exactly if it conflicts, and else not in the trunk. It never leaves a branch unjudged.
pub proof fn lemma_verdict_of_replay(outcome: RebaseOutcome)
    ensures
        landed(outcome) == LandedVerdict::InTrunk <==> outcome == RebaseOutcome::Empty,
        landed(outcome) == LandedVerdict::ConflictsWithTrunk <==> outcome == RebaseOutcome::Conflicted,
        landed(outcome) == LandedVerdict::NotInTrunk <==> outcome == RebaseOutcome::CleanNonEmpty,
        landed(outcome) != LandedVerdict::Unjudged,
{
}

} // verus!
