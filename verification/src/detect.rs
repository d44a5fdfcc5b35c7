//! Pure detectors.
//!
//! Nothing in this module or its children touches a repository, a process, or the network. Every
//! detector is a function from parsed values to findings.

use vstd::prelude::*;
use vstd::string::*;

use crate::ids::{short_text, BookmarkRef, BookmarkView, BranchName, ChangeId, CommitId, SHORT_LENGTH};
use crate::text::{decimal, decimal_text, shortened};

pub mod divergence;
pub mod double_checkout;
pub mod double_cut;
pub mod landed;
pub mod overlap;
pub mod pull_state;
pub mod stale_parents;
pub mod superseded;

verus! {

/// What kind of fact a finding reports.
#[derive(Debug, Clone, Copy, PartialEq, Eq, PartialOrd, Ord, Hash, Structural)]
pub enum FindingKind {
    DoubleCheckout,
    DoubleCut,
    StaleParent,
    Divergence,
    StaleReview,
    ClaimOverlap,
    BranchOverlap,
    UnmetDependency,
    Unmergeable,
    WrongBase,
    ChecksFailing,
    CarriedElsewhere,
    MixedBase,
    SupersededBase,
    StackedHistory,
    ImmutableHeadsRule,
    EmptyDiff,
    DeletedHeadRef,
    EmptyTipCommit,
    RemoteDrift,
    UnconfiguredRemote,
    ZombieBranch,
    ReleaseDrift,
    OrphanCommit,
}

impl FindingKind {
    /// The stable label of the kind.
    pub open spec fn label(self) -> Seq<char> {
        match self {
            FindingKind::DoubleCheckout => "double-checkout"@,
            FindingKind::DoubleCut => "double-cut"@,
            FindingKind::StaleParent => "stale-parent"@,
            FindingKind::Divergence => "divergence"@,
            FindingKind::StaleReview => "stale-review"@,
            FindingKind::ClaimOverlap => "claim-overlap"@,
            FindingKind::BranchOverlap => "branch-overlap"@,
            FindingKind::UnmetDependency => "unmet-dependency"@,
            FindingKind::Unmergeable => "unmergeable"@,
            FindingKind::WrongBase => "wrong-base"@,
            FindingKind::ChecksFailing => "checks-failing"@,
            FindingKind::CarriedElsewhere => "carried-elsewhere"@,
            FindingKind::MixedBase => "mixed-base"@,
            FindingKind::SupersededBase => "superseded-base"@,
            FindingKind::StackedHistory => "stacked-history"@,
            FindingKind::ImmutableHeadsRule => "immutable-heads-rule"@,
            FindingKind::EmptyDiff => "empty-diff"@,
            FindingKind::DeletedHeadRef => "deleted-head-ref"@,
            FindingKind::EmptyTipCommit => "empty-tip-commit"@,
            FindingKind::RemoteDrift => "remote-drift"@,
            FindingKind::UnconfiguredRemote => "unconfigured-remote"@,
            FindingKind::ZombieBranch => "zombie-branch"@,
            FindingKind::ReleaseDrift => "release-drift"@,
            FindingKind::OrphanCommit => "orphan-commit"@,
        }
    }

    /// The stable label of the kind.
    pub fn as_str(&self) -> (label: &'static str)
        ensures
            label@ == self.label(),
    {
        match self {
            FindingKind::DoubleCheckout => "double-checkout",
            FindingKind::DoubleCut => "double-cut",
            FindingKind::StaleParent => "stale-parent",
            FindingKind::Divergence => "divergence",
            FindingKind::StaleReview => "stale-review",
            FindingKind::ClaimOverlap => "claim-overlap",
            FindingKind::BranchOverlap => "branch-overlap",
            FindingKind::UnmetDependency => "unmet-dependency",
            FindingKind::Unmergeable => "unmergeable",
            FindingKind::WrongBase => "wrong-base",
            FindingKind::ChecksFailing => "checks-failing",
            FindingKind::CarriedElsewhere => "carried-elsewhere",
            FindingKind::MixedBase => "mixed-base",
            FindingKind::SupersededBase => "superseded-base",
            FindingKind::StackedHistory => "stacked-history",
            FindingKind::ImmutableHeadsRule => "immutable-heads-rule",
            FindingKind::EmptyDiff => "empty-diff",
            FindingKind::DeletedHeadRef => "deleted-head-ref",
            FindingKind::EmptyTipCommit => "empty-tip-commit",
            FindingKind::RemoteDrift => "remote-drift",
            FindingKind::UnconfiguredRemote => "unconfigured-remote",
            FindingKind::ZombieBranch => "zombie-branch",
            FindingKind::ReleaseDrift => "release-drift",
            FindingKind::OrphanCommit => "orphan-commit",
        }
    }
}

/// What a finding is about.
///
/// An id of each kind is its own variant, so that a change id is never compared against a commit
/// id and a branch name is never abbreviated like one.
#[derive(Debug, PartialEq, Eq, PartialOrd, Ord)]
pub enum Subject {
    Change(ChangeId),
    Commit(CommitId),
    Branch(BranchName),
    Bookmark(BookmarkRef),
    PullRequest(u64),
    File(String),
}

/// What a subject is, without the strings that hold it.
pub enum SubjectView {
    Change(Seq<char>),
    Commit(Seq<char>),
    Branch(Seq<char>),
    Bookmark(BookmarkView),
    PullRequest(u64),
    File(Seq<char>),
}

impl View for Subject {
    type V = SubjectView;

    open spec fn view(&self) -> SubjectView {
        match self {
            Subject::Change(id) => SubjectView::Change(id@),
            Subject::Commit(id) => SubjectView::Commit(id@),
            Subject::Branch(name) => SubjectView::Branch(name@),
            Subject::Bookmark(reference) => SubjectView::Bookmark(reference@),
            Subject::PullRequest(number) => SubjectView::PullRequest(*number),
            Subject::File(path) => SubjectView::File(path@),
        }
    }
}

impl Clone for Subject {
    fn clone(&self) -> (copy: Self)
        ensures
            copy == *self,
    {
        match self {
            Subject::Change(id) => Subject::Change(id.clone()),
            Subject::Commit(id) => Subject::Commit(id.clone()),
            Subject::Branch(name) => Subject::Branch(name.clone()),
            Subject::Bookmark(reference) => Subject::Bookmark(reference.clone()),
            Subject::PullRequest(number) => Subject::PullRequest(*number),
            Subject::File(path) => Subject::File(path.clone()),
        }
    }
}

impl SubjectView {
    /// The subject in full.
    pub open spec fn text(self) -> Seq<char> {
        match self {
            SubjectView::Change(id) => id,
            SubjectView::Commit(id) => id,
            SubjectView::Branch(name) => name,
            SubjectView::Bookmark(reference) => reference.text(),
            SubjectView::PullRequest(number) => "#"@ + decimal_text(number as nat),
            SubjectView::File(path) => path,
        }
    }

    /// The subject with ids abbreviated; a branch name or a path is never cut.
    pub open spec fn short(self) -> Seq<char> {
        match self {
            SubjectView::Change(id) => short_text(id),
            SubjectView::Commit(id) => short_text(id),
            _ => self.text(),
        }
    }
}

/// A number sign and the number of a pull request.
pub fn pull_label(number: u64) -> (label: String)
    ensures
        label@ == "#"@ + decimal_text(number as nat),
{
    let mut label = "#".to_owned();
    label.append(decimal(number).as_str());
    label
}

impl Subject {
    /// Short enough to scan. Only identifiers are abbreviated: a truncated branch name or file
    /// path is wrong, not merely terse.
    pub fn short(&self) -> (text: String)
        ensures
            text@ == self@.short(),
    {
        match self {
            Subject::Change(id) => shortened(id.as_str(), SHORT_LENGTH),
            Subject::Commit(id) => shortened(id.as_str(), SHORT_LENGTH),
            _ => self.to_text(),
        }
    }

    /// The subject in full.
    pub fn to_text(&self) -> (text: String)
        ensures
            text@ == self@.text(),
    {
        match self {
            Subject::Change(id) => id.text.clone(),
            Subject::Commit(id) => id.text.clone(),
            Subject::Branch(name) => name.text.clone(),
            Subject::Bookmark(reference) => reference.to_text(),
            Subject::PullRequest(number) => pull_label(*number),
            Subject::File(path) => path.clone(),
        }
    }
}

/// Something observed about a repository. Not a recommendation: it reports what is, and lets the
/// reader decide.
#[derive(Debug, PartialEq, Eq)]
pub struct Finding {
    pub kind: FindingKind,
    pub subject: Subject,
    pub detail: String,
}

/// What a finding says.
pub struct FindingView {
    pub kind: FindingKind,
    pub subject: SubjectView,
    pub detail: Seq<char>,
}

impl View for Finding {
    type V = FindingView;

    open spec fn view(&self) -> FindingView {
        FindingView { kind: self.kind, subject: self.subject@, detail: self.detail@ }
    }
}

impl Clone for Finding {
    fn clone(&self) -> (copy: Self)
        ensures
            copy == *self,
    {
        Finding { kind: self.kind, subject: self.subject.clone(), detail: self.detail.clone() }
    }
}

impl Finding {
    /// The finding of that kind about `subject`.
    pub fn new(kind: FindingKind, subject: Subject, detail: String) -> (finding: Self)
        ensures
            finding == (Finding { kind, subject, detail }),
    {
        Finding { kind, subject, detail }
    }
}

/// No two kinds share a label.
pub proof fn lemma_labels_distinct(a: FindingKind, b: FindingKind)
    ensures
        a.label() == b.label() ==> a == b,
{
    reveal_strlit("double-checkout");
    reveal_strlit("double-cut");
    reveal_strlit("stale-parent");
    reveal_strlit("divergence");
    reveal_strlit("stale-review");
    reveal_strlit("claim-overlap");
    reveal_strlit("branch-overlap");
    reveal_strlit("unmet-dependency");
    reveal_strlit("unmergeable");
    reveal_strlit("wrong-base");
    reveal_strlit("checks-failing");
    reveal_strlit("carried-elsewhere");
    reveal_strlit("mixed-base");
    reveal_strlit("superseded-base");
    reveal_strlit("stacked-history");
    reveal_strlit("immutable-heads-rule");
    reveal_strlit("empty-diff");
    reveal_strlit("deleted-head-ref");
    reveal_strlit("empty-tip-commit");
    reveal_strlit("remote-drift");
    reveal_strlit("unconfigured-remote");
    reveal_strlit("zombie-branch");
    reveal_strlit("release-drift");
    reveal_strlit("orphan-commit");
    if a.label() == b.label() && a != b {
        assert(a.label().len() == b.label().len());
        assert(a.label()[0] == b.label()[0]);
        assert(a.label()[3] == b.label()[3]);
        assert(a.label()[6] == b.label()[6]);
        assert(a.label()[8] == b.label()[8]);
    }
}

} // verus!
