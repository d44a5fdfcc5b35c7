//! What the status of a repository is: one row per branch, every finding, and what could not be
//! answered.

use vstd::prelude::*;
use vstd::string::*;

use crate::cli::Exit;
use crate::detect::landed::LandedVerdict;
use crate::detect::{Finding, FindingKind, FindingView, Subject, SubjectView};
use crate::ids::{short_id, short_text, BranchName};
use crate::ledger::{Entry, Kind};
use crate::order::Ordered;
use crate::pieces::{words, words_of};
use crate::seqs::{group_seqs, lemma_filter_map_has, lemma_filter_next, lemma_take_next, pointee, view_of, views};
use crate::store::OwnerKind;
use crate::text::{
    begins_with, chars_of, decimal, decimal_text, join, joined, prefix, ranks, same, shortened, strip_prefix,
    text_precedes,
};

pub mod claims;
pub mod dependencies;
pub mod gathering;
pub mod merged;
pub mod overlap;
pub mod phases;
pub mod releases;
pub mod render;
pub mod rows;

verus! {

/// A shadowed pull request, compact enough for a row.
#[derive(Debug, PartialEq, Eq)]
pub struct PriorPull {
    pub number: u64,
    pub state: String,
}

/// What a shadowed pull request is.
pub struct PriorView {
    pub number: u64,
    pub state: Seq<char>,
}

impl View for PriorPull {
    type V = PriorView;

    open spec fn view(&self) -> PriorView {
        PriorView { number: self.number, state: self.state@ }
    }
}

/// The pull request of a row.
#[derive(Debug, PartialEq, Eq)]
pub struct PullCell {
    pub number: u64,
    pub state: String,
    pub draft: bool,
    pub stated: Option<bool>,
    /// When the newest review or comment landed. The review column carries the forge's decision,
    /// and a comment-only review leaves that decision empty; this is how a reader sees that the
    /// pull request moved since they last looked.
    pub activity_at: Option<String>,
    pub prior: Vec<PriorPull>,
}

/// What the pull request of a row is.
pub struct PullCellView {
    pub number: u64,
    pub state: Seq<char>,
    pub draft: bool,
    pub stated: Option<bool>,
    pub activity_at: Option<Seq<char>>,
    pub prior: Seq<PriorView>,
}

impl View for PullCell {
    type V = PullCellView;

    open spec fn view(&self) -> PullCellView {
        PullCellView {
            number: self.number,
            state: self.state@,
            draft: self.draft,
            stated: self.stated,
            activity_at: view_of(self.activity_at),
            prior: views(self.prior@),
        }
    }
}

/// Who works on the branch of a row.
#[derive(Debug, PartialEq, Eq)]
pub struct ClaimCell {
    pub id: String,
    pub kind: OwnerKind,
    pub since: String,
    pub why: String,
}

/// What the claim of a row is.
pub struct ClaimView {
    pub id: Seq<char>,
    pub kind: OwnerKind,
    pub since: Seq<char>,
    pub why: Seq<char>,
}

impl View for ClaimCell {
    type V = ClaimView;

    open spec fn view(&self) -> ClaimView {
        ClaimView { id: self.id@, kind: self.kind, since: self.since@, why: self.why@ }
    }
}

/// Where a branch stands.
#[derive(Debug, Clone, Copy, PartialEq, Eq, Structural)]
pub enum BranchState {
    ForkOnly,
    Divergent,
    Landed,
    Conflicted,
    ChecksFailing,
    ChangesRequested,
    Approved,
    Draft,
    AwaitingReview,
    Merged,
    Closed,
    NoPr,
    Unknown,
}

impl BranchState {
    /// The name of the state.
    pub open spec fn label(self) -> Seq<char> {
        match self {
            BranchState::ForkOnly => "fork-only"@,
            BranchState::Divergent => "divergent"@,
            BranchState::Landed => "landed"@,
            BranchState::Conflicted => "conflicted"@,
            BranchState::ChecksFailing => "checks-failing"@,
            BranchState::ChangesRequested => "changes-requested"@,
            BranchState::Approved => "approved"@,
            BranchState::Draft => "draft"@,
            BranchState::AwaitingReview => "awaiting-review"@,
            BranchState::Merged => "merged"@,
            BranchState::Closed => "closed"@,
            BranchState::NoPr => "no-pr"@,
            BranchState::Unknown => "unknown"@,
        }
    }

    /// The name of the state.
    pub fn as_str(&self) -> (label: &'static str)
        ensures
            label@ == self.label(),
    {
        match self {
            BranchState::ForkOnly => "fork-only",
            BranchState::Divergent => "divergent",
            BranchState::Landed => "landed",
            BranchState::Conflicted => "conflicted",
            BranchState::ChecksFailing => "checks-failing",
            BranchState::ChangesRequested => "changes-requested",
            BranchState::Approved => "approved",
            BranchState::Draft => "draft",
            BranchState::AwaitingReview => "awaiting-review",
            BranchState::Merged => "merged",
            BranchState::Closed => "closed",
            BranchState::NoPr => "no-pr",
            BranchState::Unknown => "unknown",
        }
    }
}

/// How a local branch relates to the same branch on origin.
#[derive(Debug, Clone, Copy, PartialEq, Eq, Structural)]
pub enum OriginRelation {
    Ahead,
    Behind,
    Diverged,
}

/// How a local branch does not cleanly match origin.
#[derive(Debug, PartialEq, Eq)]
pub enum PushRelation {
    Unpushed,
    UnpushedCommits,
    Behind(String),
    Diverged(String),
    Unresolved(String),
}

/// What a push relation is.
pub enum PushView {
    Unpushed,
    UnpushedCommits,
    Behind(Seq<char>),
    Diverged(Seq<char>),
    Unresolved(Seq<char>),
}

impl View for PushRelation {
    type V = PushView;

    open spec fn view(&self) -> PushView {
        match self {
            PushRelation::Unpushed => PushView::Unpushed,
            PushRelation::UnpushedCommits => PushView::UnpushedCommits,
            PushRelation::Behind(origin) => PushView::Behind(origin@),
            PushRelation::Diverged(origin) => PushView::Diverged(origin@),
            PushRelation::Unresolved(origin) => PushView::Unresolved(origin@),
        }
    }
}

impl PushView {
    /// The name of the relation.
    pub open spec fn label(self) -> Seq<char> {
        match self {
            PushView::Unpushed => "unpushed"@,
            PushView::UnpushedCommits => "unpushed-commits"@,
            PushView::Behind(_) => "behind"@,
            PushView::Diverged(_) => "diverged"@,
            PushView::Unresolved(_) => "unresolved"@,
        }
    }

    /// Where origin stands, where the relation says so.
    pub open spec fn origin_tip(self) -> Option<Seq<char>> {
        match self {
            PushView::Behind(origin) => Some(origin),
            PushView::Diverged(origin) => Some(origin),
            PushView::Unresolved(origin) => Some(origin),
            _ => None,
        }
    }
}

impl PushRelation {
    /// The name of the relation.
    pub fn label(&self) -> (label: &'static str)
        ensures
            label@ == self@.label(),
    {
        match self {
            PushRelation::Unpushed => "unpushed",
            PushRelation::UnpushedCommits => "unpushed-commits",
            PushRelation::Behind(_) => "behind",
            PushRelation::Diverged(_) => "diverged",
            PushRelation::Unresolved(_) => "unresolved",
        }
    }

    /// Where origin stands, where the relation says so.
    pub fn origin_tip(&self) -> (tip: Option<&str>)
        ensures
            view_of(tip) == self@.origin_tip(),
    {
        match self {
            PushRelation::Behind(origin) => Some(origin.as_str()),
            PushRelation::Diverged(origin) => Some(origin.as_str()),
            PushRelation::Unresolved(origin) => Some(origin.as_str()),
            _ => None,
        }
    }
}

/// Why a claim has no sighting.
#[derive(Debug, Clone, Copy, PartialEq, Eq, Structural)]
pub enum SeenWindow {
    NoneSinceClaim,
    NoneWithinWindow,
}

/// The most relevant ledger entry for one row, and how many entries there are.
#[derive(Debug, PartialEq, Eq)]
pub struct LastNotch {
    pub ts: String,
    pub kind: Kind,
    pub text: String,
    pub disposition: Option<String>,
    /// The subject's tip when the entry was written, abbreviated. A past-tense entry stays true at
    /// its anchor and may be stale at today's tip.
    pub anchor: Option<String>,
    pub count: usize,
}

/// What the ledger entry of a row is.
pub struct NotchView {
    pub ts: Seq<char>,
    pub kind: Kind,
    pub text: Seq<char>,
    pub disposition: Option<Seq<char>>,
    pub anchor: Option<Seq<char>>,
    pub count: nat,
}

impl View for LastNotch {
    type V = NotchView;

    open spec fn view(&self) -> NotchView {
        NotchView {
            ts: self.ts@,
            kind: self.kind,
            text: self.text@,
            disposition: view_of(self.disposition),
            anchor: view_of(self.anchor),
            count: self.count as nat,
        }
    }
}

/// One branch of the report.
#[derive(Debug, PartialEq, Eq)]
pub struct BranchRow {
    pub name: BranchName,
    pub state: BranchState,
    /// The abbreviated commit id; absent when the bookmark is divergent.
    pub tip: Option<String>,
    /// Present only when the local branch does not cleanly match origin.
    pub push: Option<PushRelation>,
    pub pr: Option<PullCell>,
    pub review: Option<String>,
    pub checks: Option<String>,
    pub landed: Option<LandedVerdict>,
    pub flags: Vec<String>,
    pub claim: Option<ClaimCell>,
    pub last_seen: Option<String>,
    pub seen: Option<SeenWindow>,
    pub workspace: Option<String>,
    pub notch: Option<LastNotch>,
}

/// What a row says.
pub struct RowView {
    pub name: Seq<char>,
    pub state: BranchState,
    pub tip: Option<Seq<char>>,
    pub push: Option<PushView>,
    pub pr: Option<PullCellView>,
    pub review: Option<Seq<char>>,
    pub checks: Option<Seq<char>>,
    pub landed: Option<LandedVerdict>,
    pub flags: Seq<Seq<char>>,
    pub claim: Option<ClaimView>,
    pub last_seen: Option<Seq<char>>,
    pub seen: Option<SeenWindow>,
    pub workspace: Option<Seq<char>>,
    pub notch: Option<NotchView>,
}

impl View for BranchRow {
    type V = RowView;

    open spec fn view(&self) -> RowView {
        RowView {
            name: self.name@,
            state: self.state,
            tip: view_of(self.tip),
            push: view_of(self.push),
            pr: view_of(self.pr),
            review: view_of(self.review),
            checks: view_of(self.checks),
            landed: self.landed,
            flags: views(self.flags@),
            claim: view_of(self.claim),
            last_seen: view_of(self.last_seen),
            seen: self.seen,
            workspace: view_of(self.workspace),
            notch: view_of(self.notch),
        }
    }
}

impl Ordered for BranchRow {
    open spec fn rank(&self) -> Seq<int> {
        ranks(self.name@)
    }

    fn precedes(&self, other: &Self) -> (r: bool) {
        let r = text_precedes(self.name.text.as_str(), other.name.text.as_str());
        assert(self.rank() == ranks(self.name.text@) && other.rank() == ranks(other.name.text@));
        r
    }
}

/// A row that says nothing but the name of its branch.
pub open spec fn bare_row(name: Seq<char>) -> RowView {
    RowView {
        name,
        state: BranchState::Unknown,
        tip: None,
        push: None,
        pr: None,
        review: None,
        checks: None,
        landed: None,
        flags: Seq::empty(),
        claim: None,
        last_seen: None,
        seen: None,
        workspace: None,
        notch: None,
    }
}

impl BranchRow {
    /// A row that says nothing but the name of its branch.
    pub fn bare(name: BranchName) -> (row: Self)
        ensures
            row@ == bare_row(name@),
            row.name == name,
    {
        let row = BranchRow {
            name,
            state: BranchState::Unknown,
            tip: None,
            push: None,
            pr: None,
            review: None,
            checks: None,
            landed: None,
            flags: Vec::new(),
            claim: None,
            last_seen: None,
            seen: None,
            workspace: None,
            notch: None,
        };
        assert(row@.flags =~= Seq::<Seq<char>>::empty());
        row
    }
}

/// Whether the forge was asked, and how long it took.
#[derive(Debug, Clone, Copy, PartialEq, Eq, Structural)]
pub struct ForgeStatus {
    pub consulted: bool,
    pub elapsed_ms: u64,
}

impl Default for ForgeStatus {
    fn default() -> (status: Self)
        ensures
            status == (ForgeStatus { consulted: false, elapsed_ms: 0 }),
    {
        ForgeStatus { consulted: false, elapsed_ms: 0 }
    }
}

/// One subject and the one-line fact about it.
#[derive(Debug, PartialEq, Eq)]
pub struct GroupedFinding {
    pub subject: String,
    pub detail: String,
}

/// What a grouped finding says.
pub struct ItemView {
    pub subject: Seq<char>,
    pub detail: Seq<char>,
}

impl View for GroupedFinding {
    type V = ItemView;

    open spec fn view(&self) -> ItemView {
        ItemView { subject: self.subject@, detail: self.detail@ }
    }
}

/// Every finding of one kind, in detector order.
#[derive(Debug, PartialEq, Eq)]
pub struct FindingGroup {
    pub kind: FindingKind,
    pub items: Vec<GroupedFinding>,
}

/// What a group of findings says.
pub struct GroupView {
    pub kind: FindingKind,
    pub items: Seq<ItemView>,
}

impl View for FindingGroup {
    type V = GroupView;

    open spec fn view(&self) -> GroupView {
        GroupView { kind: self.kind, items: views(self.items@) }
    }
}

/// The subjects of grouped findings.
pub open spec fn subjects_of(items: Seq<ItemView>) -> Seq<Seq<char>> {
    Seq::new(items.len(), |i: int| items[i].subject)
}

impl FindingGroup {
    /// The subjects of the group, in order.
    pub fn subjects(&self) -> (subjects: Vec<&str>)
        ensures
            views(subjects@) == subjects_of(self@.items),
    {
        let mut subjects: Vec<&str> = Vec::new();
        let mut i: usize = 0;
        while i < self.items.len()
            invariant
                i <= self.items@.len(),
                views(subjects@) == subjects_of(self@.items).take(i as int),
            decreases self.items@.len() - i,
        {
            let subject = self.items[i].subject.as_str();
            let ghost before = subjects@;
            subjects.push(subject);
            i += 1;
            assert(views(subjects@) =~= views(before).push(subject@));
            assert(views(subjects@) =~= subjects_of(self@.items).take(i as int));
        }
        assert(subjects_of(self@.items).take(i as int) =~= subjects_of(self@.items));
        subjects
    }
}

/// The repository-level part of its ledger: facts about the repository rather than a branch, which
/// therefore have no row to carry them.
#[derive(Debug, PartialEq, Eq)]
pub struct RepoNotches {
    pub count: usize,
    pub last: LastNotch,
}

/// The status of a repository. The order of the fields is the order of presentation.
#[derive(Debug, PartialEq, Eq)]
pub struct Report {
    pub repo: String,
    pub trunk: String,
    pub newest_release: Option<String>,
    pub forge: ForgeStatus,
    pub problems: Vec<String>,
    pub branches: Vec<BranchRow>,
    pub findings: Vec<FindingGroup>,
    pub releases: Vec<String>,
    pub repo_notches: Option<RepoNotches>,
    pub other_workspaces: Vec<String>,
    pub notes: Vec<String>,
}

impl Default for Report {
    /// A report with nothing in it.
    fn default() -> (report: Self)
        ensures
            report.repo@ == Seq::<char>::empty(),
            report.trunk@ == Seq::<char>::empty(),
            report.newest_release is None,
            report.forge == (ForgeStatus { consulted: false, elapsed_ms: 0 }),
            report.problems@.len() == 0,
            report.branches@.len() == 0,
            report.findings@.len() == 0,
            report.releases@.len() == 0,
            report.repo_notches is None,
            report.other_workspaces@.len() == 0,
            report.notes@.len() == 0,
    {
        Report {
            repo: String::new(),
            trunk: String::new(),
            newest_release: None,
            forge: ForgeStatus::default(),
            problems: Vec::new(),
            branches: Vec::new(),
            findings: Vec::new(),
            releases: Vec::new(),
            repo_notches: None,
            other_workspaces: Vec::new(),
            notes: Vec::new(),
        }
    }
}

/// How the report ends the command: what could not be answered outranks what was found.
pub open spec fn exit_of(problems: nat, findings: nat) -> Exit {
    if problems > 0 {
        Exit::Incomplete
    } else if findings > 0 {
        Exit::Findings
    } else {
        Exit::Clean
    }
}

/// Findings mean act; problems mean we could not answer. A command that reports a problem in its
/// text and still ends well lets a gate go green on a broken forge login.
pub fn exit_for(report: &Report) -> (exit: Exit)
    ensures
        exit == exit_of(report.problems@.len(), report.findings@.len()),
{
    if report.problems.len() > 0 {
        return Exit::Incomplete;
    }
    if report.findings.len() == 0 {
        Exit::Clean
    } else {
        Exit::Findings
    }
}

/// How much of an entry's text a report carries.
pub const NOTCH_LENGTH: usize = 120;

/// A text cut to its first characters, with an ellipsis where anything was cut.
pub open spec fn capped(text: Seq<char>, limit: nat) -> Seq<char> {
    if text.len() > limit {
        prefix(text, limit).push('…')
    } else {
        text
    }
}

/// A text cut to its first characters, with an ellipsis where anything was cut.
pub fn cap(text: &str, limit: usize) -> (out: String)
    ensures
        out@ == capped(text@, limit as nat),
{
    let chars = chars_of(text);
    if chars.len() > limit {
        let mut out = shortened(text, limit);
        out.push('…');
        out
    } else {
        text.to_owned()
    }
}

/// An entry's text on one line, its white space collapsed, and cut where it is long.
pub open spec fn collapsed(text: Seq<char>) -> Seq<char> {
    capped(joined(words_of(text), " "@), NOTCH_LENGTH as nat)
}

/// An entry's text on one line, its white space collapsed, and cut where it is long.
pub fn collapsed_notch_text(text: &str) -> (line: String)
    ensures
        line@ == collapsed(text@),
{
    let line = join(&words(text), " ");
    cap(line.as_str(), NOTCH_LENGTH)
}

/// The entries about a subject: a branch, or the repository where there is none.
pub open spec fn about(subject: Option<Seq<char>>) -> spec_fn(Entry) -> bool {
    |entry: Entry| view_of(entry.subject) == subject
}

/// The last entry that somebody wrote down.
pub open spec fn last_note(entries: Seq<Entry>) -> Option<Entry>
    decreases entries.len(),
{
    if entries.len() == 0 {
        None
    } else if entries.last().kind == Kind::Note {
        Some(entries.last())
    } else {
        last_note(entries.drop_last())
    }
}

/// What a row shows of one of `count` entries.
pub open spec fn notch_from(entry: Entry, count: nat) -> NotchView {
    NotchView {
        ts: entry.ts@,
        kind: entry.kind,
        text: collapsed(entry.text@),
        disposition: view_of(entry.disposition),
        anchor: match entry.anchor {
            Some(anchor) => Some(short_text(anchor@)),
            None => None,
        },
        count,
    }
}

/// What a row shows of its entries: the newest that somebody wrote down, else the newest.
pub open spec fn notch_of(entries: Seq<Entry>) -> Option<NotchView> {
    if entries.len() == 0 {
        None
    } else {
        match last_note(entries) {
            Some(note) => Some(notch_from(note, entries.len())),
            None => Some(notch_from(entries.last(), entries.len())),
        }
    }
}

fn text_is(value: &Option<String>, wanted: Option<&str>) -> (r: bool)
    ensures
        r == (view_of(*value) == view_of(wanted)),
{
    match (value, wanted) {
        (Some(a), Some(b)) => same(a.as_str(), b),
        (None, None) => true,
        _ => false,
    }
}

impl LastNotch {
    /// What a row shows of the entries about a subject: the newest that somebody wrote down, else
    /// the newest.
    pub fn of(entries: &[Entry], subject: Option<&str>) -> (notch: Option<Self>)
        ensures
            view_of(notch) == notch_of(entries@.filter(about(view_of(subject)))),
    {
        broadcast use group_seqs;

        let ghost chosen = about(view_of(subject));
        let mut count: usize = 0;
        let mut newest: Option<usize> = None;
        let mut newest_note: Option<usize> = None;
        let mut i: usize = 0;
        while i < entries.len()
            invariant
                i <= entries@.len(),
                count <= i,
                chosen == about(view_of(subject)),
                count == entries@.take(i as int).filter(chosen).len(),
                match newest {
                    Some(at) => at < entries@.len() && count > 0 && entries@[at as int] == entries@.take(
                        i as int,
                    ).filter(chosen).last(),
                    None => count == 0,
                },
                match newest_note {
                    Some(at) => at < entries@.len() && last_note(entries@.take(i as int).filter(chosen)) == Some(
                        entries@[at as int],
                    ),
                    None => last_note(entries@.take(i as int).filter(chosen)) is None,
                },
            decreases entries@.len() - i,
        {
            let ghost shorter = entries@.take(i as int).filter(chosen);
            proof {
                lemma_filter_next(entries@, chosen, i as int);
                assert(shorter.push(entries@[i as int]).drop_last() =~= shorter);
            }
            if text_is(&entries[i].subject, subject) {
                count += 1;
                newest = Some(i);
                if entries[i].kind == Kind::Note {
                    newest_note = Some(i);
                }
            }
            i += 1;
        }
        let at = match newest_note {
            Some(at) => at,
            None => match newest {
                Some(at) => at,
                None => return None,
            },
        };
        let entry = &entries[at];
        let anchor = match &entry.anchor {
            Some(anchor) => Some(short_id(anchor.as_str())),
            None => None,
        };
        let notch = LastNotch {
            ts: entry.ts.clone(),
            kind: entry.kind,
            text: collapsed_notch_text(entry.text.as_str()),
            disposition: entry.disposition.clone(),
            anchor,
            count,
        };
        Some(notch)
    }
}

/// Where a status run spent its time, in milliseconds.
///
/// Not a part of the report: it measures the run rather than describing the repository.
#[derive(Debug, Clone, Copy, PartialEq, Eq, Structural)]
pub struct Timings {
    /// Opening the repository and reading its bookmark tips.
    pub repository: u64,
    /// Gathering stale-copy, workspace, divergent-change, and conflicted-bookmark findings.
    pub health: u64,
    /// Detecting visible changes that exist as multiple commits.
    pub divergent_changes: u64,
    /// Scanning releases for stale parents.
    pub releases: u64,
    /// Preparing maintained branches, references, claims, and forge inputs.
    pub setup: u64,
    /// Everything that was asked of the forge. Forge and probes overlap, so `total` is wall time
    /// rather than a sum.
    pub forge: u64,
    /// Replaying branches onto the upstream trunk.
    pub probes: u64,
    /// Comparing each local branch tip to its origin counterpart.
    pub origin_relations: u64,
    /// Constructing rows for conflicted local bookmarks.
    pub divergent_rows: u64,
    /// Finding branches carried by another branch.
    pub carried_findings: u64,
    /// Comparing each maintained branch's changed paths for overlap.
    pub touching: u64,
    /// Loading claims, workspaces, and claim overlap findings.
    pub claims: u64,
    /// Final local finding folds and forge-cache persistence.
    pub report: u64,
    pub total: u64,
}

impl Default for Timings {
    /// No time spent.
    fn default() -> (timings: Self)
        ensures
            forall|i: int| 0 <= i < spent(timings).len() ==> (#[trigger] spent(timings)[i]).1 == 0,
    {
        Timings {
            repository: 0,
            health: 0,
            divergent_changes: 0,
            releases: 0,
            setup: 0,
            forge: 0,
            probes: 0,
            origin_relations: 0,
            divergent_rows: 0,
            carried_findings: 0,
            touching: 0,
            claims: 0,
            report: 0,
            total: 0,
        }
    }
}

/// The phases by name, with the time each took.
pub open spec fn spent(timings: Timings) -> Seq<(Seq<char>, u64)> {
    seq![
        ("repository-open"@, timings.repository),
        ("health"@, timings.health),
        ("divergent-changes"@, timings.divergent_changes),
        ("releases"@, timings.releases),
        ("setup"@, timings.setup),
        ("forge"@, timings.forge),
        ("probes"@, timings.probes),
        ("origin-relations"@, timings.origin_relations),
        ("divergent-rows"@, timings.divergent_rows),
        ("carried-findings"@, timings.carried_findings),
        ("touching"@, timings.touching),
        ("claims"@, timings.claims),
        ("report"@, timings.report),
        ("total"@, timings.total),
    ]
}

/// Phases in words: each with its time behind it.
pub open spec fn phases_text(phases: Seq<(Seq<char>, u64)>) -> Seq<char>
    decreases phases.len(),
{
    if phases.len() == 0 {
        Seq::empty()
    } else {
        phases_text(phases.drop_last()) + " "@ + phases.last().0 + " "@ + decimal_text(phases.last().1 as nat)
            + "ms"@
    }
}

fn add_phase(line: &mut String, phase: &str, time: u64)
    ensures
        final(line)@ == old(line)@ + (" "@ + phase@ + " "@ + decimal_text(time as nat) + "ms"@),
{
    let ghost before = line@;
    line.append(" ");
    line.append(phase);
    line.append(" ");
    line.append(decimal(time).as_str());
    line.append("ms");
    assert(line@ =~= before + (" "@ + phase@ + " "@ + decimal_text(time as nat) + "ms"@));
}

proof fn lemma_phase_added(line: Seq<char>, head: Seq<char>, phases: Seq<(Seq<char>, u64)>, n: int)
    requires
        0 <= n < phases.len(),
        line == head + phases_text(phases.take(n)),
    ensures
        line + (" "@ + phases[n].0 + " "@ + decimal_text(phases[n].1 as nat) + "ms"@) == head + phases_text(
            phases.take(n + 1),
        ),
{
    let next = phases.take(n + 1);
    assert(next.drop_last() =~= phases.take(n));
    assert(next.last() == phases[n]);
    let said = " "@ + phases[n].0 + " "@ + decimal_text(phases[n].1 as nat) + "ms"@;
    assert(phases_text(next) =~= phases_text(phases.take(n)) + said);
    assert(line + said =~= head + phases_text(next));
}

impl Timings {
    /// The run on one line: every phase with its time.
    pub fn line(&self, repo: &str) -> (line: String)
        ensures
            line@ == "timing "@ + repo@ + ":"@ + phases_text(spent(*self)),
    {
        let ghost phases = spent(*self);
        let ghost head = "timing "@ + repo@ + ":"@;
        let mut line = "timing ".to_owned();
        line.append(repo);
        line.append(":");
        proof {
            assert(phases.take(0) =~= Seq::<(Seq<char>, u64)>::empty());
            assert(line@ =~= head + phases_text(phases.take(0)));
            lemma_phase_added(line@, head, phases, 0);
        }
        add_phase(&mut line, "repository-open", self.repository);
        proof {
            lemma_phase_added(line@, head, phases, 1);
        }
        add_phase(&mut line, "health", self.health);
        proof {
            lemma_phase_added(line@, head, phases, 2);
        }
        add_phase(&mut line, "divergent-changes", self.divergent_changes);
        proof {
            lemma_phase_added(line@, head, phases, 3);
        }
        add_phase(&mut line, "releases", self.releases);
        proof {
            lemma_phase_added(line@, head, phases, 4);
        }
        add_phase(&mut line, "setup", self.setup);
        proof {
            lemma_phase_added(line@, head, phases, 5);
        }
        add_phase(&mut line, "forge", self.forge);
        proof {
            lemma_phase_added(line@, head, phases, 6);
        }
        add_phase(&mut line, "probes", self.probes);
        proof {
            lemma_phase_added(line@, head, phases, 7);
        }
        add_phase(&mut line, "origin-relations", self.origin_relations);
        proof {
            lemma_phase_added(line@, head, phases, 8);
        }
        add_phase(&mut line, "divergent-rows", self.divergent_rows);
        proof {
            lemma_phase_added(line@, head, phases, 9);
        }
        add_phase(&mut line, "carried-findings", self.carried_findings);
        proof {
            lemma_phase_added(line@, head, phases, 10);
        }
        add_phase(&mut line, "touching", self.touching);
        proof {
            lemma_phase_added(line@, head, phases, 11);
        }
        add_phase(&mut line, "claims", self.claims);
        proof {
            lemma_phase_added(line@, head, phases, 12);
        }
        add_phase(&mut line, "report", self.report);
        proof {
            lemma_phase_added(line@, head, phases, 13);
            assert(phases.take(14) =~= phases);
        }
        add_phase(&mut line, "total", self.total);
        line
    }
}

/// Whether phase timings were asked for: whether `KNIVES_TIMING` has a value.
pub fn timing_enabled(variable: Option<&str>) -> (r: bool)
    ensures
        r == (variable is Some),
{
    variable.is_some()
}

/// One sentence naming every branch that could not be judged.
pub open spec fn unjudged_text(branches: Seq<Seq<char>>) -> Option<Seq<char>> {
    if branches.len() == 0 {
        None
    } else {
        Some(
            "cannot tell whether "@ + (if branches.len() == 1 {
                "1 branch"@
            } else {
                decimal_text(branches.len()) + " branches"@
            })
                + " landed, because local differs from origin there, so replaying would judge content the pull request does not contain: "@
                + joined(branches, ", "@) + ". Fetch or push, then run status again"@,
        )
    }
}

/// One sentence naming every branch that could not be judged: one problem per branch would repeat
/// the same explanation with only a name changed.
pub fn unjudged_note(branches: &Vec<String>) -> (note: Option<String>)
    ensures
        view_of(note) == unjudged_text(views(branches@)),
{
    assert(views(branches@).len() == branches@.len());
    if branches.len() == 0 {
        return None;
    }
    let mut note = "cannot tell whether ".to_owned();
    if branches.len() == 1 {
        note.append("1 branch");
    } else {
        let mut count = decimal(branches.len() as u64);
        count.append(" branches");
        note.append(count.as_str());
    }
    note.append(
        " landed, because local differs from origin there, so replaying would judge content the pull request does not contain: ",
    );
    note.append(join(branches, ", ").as_str());
    note.append(". Fetch or push, then run status again");
    Some(note)
}

/// The note about fetched pull request heads that have no row.
pub open spec fn heads_note(count: nat) -> Option<Seq<char>> {
    if count > 0 {
        Some(decimal_text(count) + " fetched pull request head(s) not listed"@)
    } else {
        None
    }
}

/// The note about fetched pull request heads that have no row.
pub fn note_fetched_heads(count: usize) -> (note: Option<String>)
    ensures
        view_of(note) == heads_note(count as nat),
{
    if count == 0 {
        return None;
    }
    let mut note = decimal(count as u64);
    note.append(" fetched pull request head(s) not listed");
    Some(note)
}

/// The rule that the repository's own configuration states about rewriting.
#[derive(Debug, PartialEq, Eq)]
pub struct StatedRule {
    pub rule: String,
    pub written_by_knives: bool,
}

/// What is found of a stated rule that is not the entry's. Absence is not reported: a rule nobody
/// stated is nobody's decision to disagree with.
pub open spec fn rule_finding(rule: Seq<char>, stated: Option<StatedRule>, path: Seq<char>) -> Option<FindingView> {
    match stated {
        Some(stated) => if stated.rule@ == rule {
            None
        } else {
            Some(
                FindingView {
                    kind: FindingKind::ImmutableHeadsRule,
                    subject: SubjectView::File(path),
                    detail: "repo config states immutable_heads() = `"@ + stated.rule@ + (
                    if stated.written_by_knives {
                        "`, written by an earlier `knives start`; this entry's rule is `"@ + rule
                            + "`, which the next `knives start` writes"@
                    } else {
                        "`; a managed fork runs under `"@ + rule
                            + "`, which `knives start` writes where none is stated"@
                    }),
                },
            )
        },
        None => None,
    }
}

/// What is found of a stated rule that is not the entry's.
pub fn immutable_heads_finding(rule: &str, stated: Option<&StatedRule>, path: &str) -> (finding: Option<Finding>)
    ensures
        view_of(finding) == rule_finding(rule@, pointee(stated), path@),
{
    let stated = match stated {
        Some(stated) => stated,
        None => return None,
    };
    if same(stated.rule.as_str(), rule) {
        return None;
    }
    let mut detail = "repo config states immutable_heads() = `".to_owned();
    detail.append(stated.rule.as_str());
    if stated.written_by_knives {
        let mut rest = "`, written by an earlier `knives start`; this entry's rule is `".to_owned();
        rest.append(rule);
        rest.append("`, which the next `knives start` writes");
        detail.append(rest.as_str());
    } else {
        let mut rest = "`; a managed fork runs under `".to_owned();
        rest.append(rule);
        rest.append("`, which `knives start` writes where none is stated");
        detail.append(rest.as_str());
    }
    Some(Finding::new(FindingKind::ImmutableHeadsRule, Subject::File(path.to_owned()), detail))
}

/// What follows a text in a longer one.
pub open spec fn behind(text: Seq<char>, start: Seq<char>) -> Option<Seq<char>> {
    if begins_with(text, start) {
        Some(text.skip(start.len() as int))
    } else {
        None
    }
}

/// How a grouped finding names its subject. A finding about a relationship names the counterpart
/// too, because the lone branch or path does not identify the action.
pub open spec fn grouped_text(finding: FindingView) -> Seq<char> {
    let subject = finding.subject.short();
    let counterpart = match finding.kind {
        FindingKind::BranchOverlap => behind(finding.detail, subject + " is touched by "@),
        FindingKind::CarriedElsewhere => behind(finding.detail, subject + "'s tip is also reachable from "@),
        _ => None,
    };
    match counterpart {
        Some(counterpart) => subject + ": "@ + counterpart,
        None => subject,
    }
}

/// How a grouped finding names its subject.
pub fn grouped_subject(finding: &Finding) -> (text: String)
    ensures
        text@ == grouped_text(finding@),
{
    let subject = finding.subject.short();
    let mut start = subject.clone();
    let counterpart = match finding.kind {
        FindingKind::BranchOverlap => {
            start.append(" is touched by ");
            strip_prefix(finding.detail.as_str(), start.as_str())
        },
        FindingKind::CarriedElsewhere => {
            start.append("'s tip is also reachable from ");
            strip_prefix(finding.detail.as_str(), start.as_str())
        },
        _ => None,
    };
    match counterpart {
        Some(counterpart) => {
            let mut text = subject;
            text.append(": ");
            text.append(counterpart.as_str());
            text
        },
        None => subject,
    }
}

/// The kinds of findings, in the order in which they first occur.
pub open spec fn kinds_of(findings: Seq<FindingView>) -> Seq<FindingKind>
    decreases findings.len(),
{
    if findings.len() == 0 {
        Seq::empty()
    } else {
        let rest = kinds_of(findings.drop_last());
        if rest.contains(findings.last().kind) {
            rest
        } else {
            rest.push(findings.last().kind)
        }
    }
}

/// What is kept of a finding of that kind.
pub open spec fn item_of(kind: FindingKind) -> spec_fn(FindingView) -> Option<ItemView> {
    |finding: FindingView|
        if finding.kind == kind {
            Some(ItemView { subject: grouped_text(finding), detail: finding.detail })
        } else {
            None
        }
}

/// Findings by kind: the kinds in the order in which they first occur, and every finding of a kind
/// in its order.
pub open spec fn groups_of(findings: Seq<FindingView>) -> Seq<GroupView> {
    let kinds = kinds_of(findings);
    Seq::new(
        kinds.len(),
        |i: int| GroupView { kind: kinds[i], items: findings.filter_map(item_of(kinds[i])) },
    )
}

fn has_kind(kinds: &Vec<FindingKind>, kind: FindingKind) -> (r: bool)
    ensures
        r == kinds@.contains(kind),
{
    let mut i: usize = 0;
    while i < kinds.len()
        invariant
            i <= kinds@.len(),
            forall|j: int| 0 <= j < i ==> #[trigger] kinds@[j] != kind,
        decreases kinds@.len() - i,
    {
        if kinds[i] == kind {
            assert(kinds@[i as int] == kind);
            return true;
        }
        i += 1;
    }
    false
}

fn kinds_in(findings: &Vec<Finding>) -> (kinds: Vec<FindingKind>)
    ensures
        kinds@ == kinds_of(views(findings@)),
{
    broadcast use group_seqs;

    let mut kinds: Vec<FindingKind> = Vec::new();
    let ghost all = views(findings@);
    let mut i: usize = 0;
    while i < findings.len()
        invariant
            i <= findings@.len(),
            all == views(findings@),
            kinds@ == kinds_of(all.take(i as int)),
        decreases findings@.len() - i,
    {
        proof {
            assert(all.take(i + 1).drop_last() =~= all.take(i as int));
            assert(all.take(i + 1).last() == findings@[i as int]@);
        }
        if !has_kind(&kinds, findings[i].kind) {
            kinds.push(findings[i].kind);
        }
        i += 1;
    }
    kinds
}

fn items_in(findings: &Vec<Finding>, kind: FindingKind) -> (items: Vec<GroupedFinding>)
    ensures
        views(items@) == views(findings@).filter_map(item_of(kind)),
{
    broadcast use group_seqs;

    let mut items: Vec<GroupedFinding> = Vec::new();
    let ghost all = views(findings@);
    let mut i: usize = 0;
    while i < findings.len()
        invariant
            i <= findings@.len(),
            all == views(findings@),
            views(items@) == all.take(i as int).filter_map(item_of(kind)),
        decreases findings@.len() - i,
    {
        proof {
            all.lemma_filter_map_take_succ(item_of(kind), i as int);
            assert(all[i as int] == findings@[i as int]@);
        }
        if findings[i].kind == kind {
            items.push(
                GroupedFinding { subject: grouped_subject(&findings[i]), detail: findings[i].detail.clone() },
            );
        }
        assert(views(items@) =~= all.take(i + 1).filter_map(item_of(kind)));
        i += 1;
    }
    items
}

/// Groups findings by kind once every detector has reported.
///
/// Every finding keeps its subject and its detail: a reader who asks for detail on the ninth finding
/// is not asking for the first eight.
pub fn group_findings(findings: &Vec<Finding>) -> (groups: Vec<FindingGroup>)
    ensures
        views(groups@) == groups_of(views(findings@)),
{
    broadcast use group_seqs;

    let kinds = kinds_in(findings);
    let ghost all = groups_of(views(findings@));
    let mut groups: Vec<FindingGroup> = Vec::new();
    let mut i: usize = 0;
    while i < kinds.len()
        invariant
            i <= kinds@.len(),
            kinds@ == kinds_of(views(findings@)),
            all == groups_of(views(findings@)),
            views(groups@) == all.take(i as int),
        decreases kinds@.len() - i,
    {
        proof {
            lemma_take_next(all, i as int);
        }
        let group = FindingGroup { kind: kinds[i], items: items_in(findings, kinds[i]) };
        assert(group@ == all[i as int]);
        groups.push(group);
        i += 1;
    }
    groups
}

/// What could not be answered outranks what was found: a report with a problem is never clean.
pub proof fn lemma_problem_is_incomplete(problems: nat, findings: nat)
    requires
        problems > 0,
    ensures
        exit_of(problems, findings) == Exit::Incomplete,
{
}

proof fn lemma_kinds(findings: Seq<FindingView>)
    ensures
        kinds_of(findings).no_duplicates(),
        forall|i: int| 0 <= i < findings.len() ==> kinds_of(findings).contains((#[trigger] findings[i]).kind),
    decreases findings.len(),
{
    if findings.len() > 0 {
        let rest = findings.drop_last();
        lemma_kinds(rest);
        let kinds = kinds_of(rest);
        let last = findings.last().kind;
        assert forall|i: int| 0 <= i < findings.len() implies kinds_of(findings).contains(
            (#[trigger] findings[i]).kind,
        ) by {
            if i < rest.len() {
                assert(rest[i] == findings[i]);
                let k = choose|k: int| 0 <= k < kinds.len() && kinds[k] == findings[i].kind;
                assert(kinds_of(findings)[k] == findings[i].kind);
            } else if !kinds.contains(last) {
                assert(kinds_of(findings)[kinds.len() as int] == last);
            }
        }
    }
}

/// Grouping loses no finding: each stands, subject and detail, in the one group of its kind.
pub proof fn lemma_groups_keep_every_finding(findings: Seq<FindingView>, i: int)
    requires
        0 <= i < findings.len(),
    ensures
        kinds_of(findings).no_duplicates(),
        exists|g: int|
            0 <= g < groups_of(findings).len() && (#[trigger] groups_of(findings)[g]).kind == findings[i].kind
                && groups_of(findings)[g].items.contains(
                ItemView { subject: grouped_text(findings[i]), detail: findings[i].detail },
            ),
{
    lemma_kinds(findings);
    let kinds = kinds_of(findings);
    let g = choose|g: int| 0 <= g < kinds.len() && kinds[g] == findings[i].kind;
    lemma_item_kept(findings, findings[i].kind, i);
    assert(groups_of(findings)[g].kind == findings[i].kind);
}

proof fn lemma_item_kept(findings: Seq<FindingView>, kind: FindingKind, i: int)
    requires
        0 <= i < findings.len(),
        findings[i].kind == kind,
    ensures
        findings.filter_map(item_of(kind)).contains(
            ItemView { subject: grouped_text(findings[i]), detail: findings[i].detail },
        ),
    decreases findings.len(),
{
    let item = ItemView { subject: grouped_text(findings[i]), detail: findings[i].detail };
    let rest = findings.drop_last();
    let n = rest.len() as int;
    findings.lemma_filter_map_take_succ(item_of(kind), n);
    assert(findings.take(n) =~= rest);
    assert(findings.take(n + 1) =~= findings);
    let whole = findings.filter_map(item_of(kind));
    if i < n {
        lemma_item_kept(rest, kind, i);
        let k = choose|k: int| 0 <= k < rest.filter_map(item_of(kind)).len() && rest.filter_map(item_of(kind))[k] == item;
        assert(whole[k] == item);
    } else {
        assert(whole[whole.len() - 1] == item);
    }
}

/// A capped text has at most one character more than the limit: the sign that something was cut.
pub proof fn lemma_capped_is_short(text: Seq<char>, limit: nat)
    ensures
        capped(text, limit).len() <= limit + 1,
        text.len() <= limit ==> capped(text, limit) == text,
{
}

/// How a run ends: incomplete exactly if there is a problem, with findings exactly if there is none of those
/// and one of these, and clean exactly if there is neither.
pub proof fn lemma_exit_of_status(problems: nat, findings: nat)
    ensures
        exit_of(problems, findings) == Exit::Incomplete <==> problems > 0,
        exit_of(problems, findings) == Exit::Findings <==> problems == 0 && findings > 0,
        exit_of(problems, findings) == Exit::Clean <==> problems == 0 && findings == 0,
{
}

proof fn lemma_last_note(entries: Seq<Entry>, i: int)
    requires
        0 <= i < entries.len(),
        entries[i].kind == Kind::Note,
        forall|j: int| i < j < entries.len() ==> (#[trigger] entries[j]).kind != Kind::Note,
    ensures
        last_note(entries) == Some(entries[i]),
    decreases entries.len(),
{
    let last = entries.len() - 1;
    assert(entries[last] == entries.last());
    if i < last {
        let rest = entries.drop_last();
        assert forall|j: int| i < j < rest.len() implies (#[trigger] rest[j]).kind != Kind::Note by {
            assert(rest[j] == entries[j]);
        }
        lemma_last_note(rest, i);
    }
}

proof fn lemma_no_note(entries: Seq<Entry>)
    requires
        forall|j: int| 0 <= j < entries.len() ==> (#[trigger] entries[j]).kind != Kind::Note,
    ensures
        last_note(entries) is None,
    decreases entries.len(),
{
    if entries.len() > 0 {
        let rest = entries.drop_last();
        assert(entries[entries.len() - 1] == entries.last());
        assert forall|j: int| 0 <= j < rest.len() implies (#[trigger] rest[j]).kind != Kind::Note by {
            assert(rest[j] == entries[j]);
        }
        lemma_no_note(rest);
    }
}

/// The notch that is shown of some entries is the last note among them, whatever events follow it; it counts
/// all of them.
pub proof fn lemma_notch_is_the_last_note(entries: Seq<Entry>, i: int)
    requires
        0 <= i < entries.len(),
        entries[i].kind == Kind::Note,
        forall|j: int| i < j < entries.len() ==> (#[trigger] entries[j]).kind != Kind::Note,
    ensures
        notch_of(entries) matches Some(notch) && notch.ts == entries[i].ts@ && notch.kind == Kind::Note && notch.text
            == collapsed(entries[i].text@) && notch.disposition == view_of(entries[i].disposition) && notch.count
            == entries.len() && (notch.anchor is Some <==> entries[i].anchor is Some),
{
    lemma_last_note(entries, i);
}

/// Where there is no note the notch is the last entry, and where there is no entry there is none.
pub proof fn lemma_notch_without_notes(entries: Seq<Entry>)
    requires
        forall|j: int| 0 <= j < entries.len() ==> (#[trigger] entries[j]).kind != Kind::Note,
    ensures
        entries.len() == 0 ==> notch_of(entries) is None,
        entries.len() > 0 ==> (notch_of(entries) matches Some(notch) && notch.ts == entries.last().ts@ && notch.kind
            == entries.last().kind && notch.text == collapsed(entries.last().text@) && notch.count == entries.len()),
{
    lemma_no_note(entries);
}

/// A stated rule is found exactly if it is another than the entry's; where none is stated nothing is found.
pub proof fn lemma_other_rule_is_found(rule: Seq<char>, stated: Option<StatedRule>, path: Seq<char>)
    ensures
        rule_finding(rule, stated, path) is Some <==> stated is Some && stated->0.rule@ != rule,
        rule_finding(rule, stated, path) matches Some(finding) ==> finding.kind == FindingKind::ImmutableHeadsRule
            && finding.subject == SubjectView::File(path),
{
}

/// Branches that could not be judged are told exactly if there are some, and heads that were fetched are
/// noted exactly if there are some.
pub proof fn lemma_counts_are_told(branches: Seq<Seq<char>>, count: nat)
    ensures
        unjudged_text(branches) is Some <==> branches.len() > 0,
        heads_note(count) is Some <==> count > 0,
        heads_note(count) matches Some(note) ==> note == decimal_text(count)
            + " fetched pull request head(s) not listed"@,
{
}

/// A group holds what was found of its kind and nothing else, and there is a group for each kind that was
/// found and for no other.
pub proof fn lemma_groups_hold_their_kind(findings: Seq<FindingView>, g: int, item: ItemView)
    requires
        0 <= g < groups_of(findings).len(),
    ensures
        groups_of(findings)[g].items.contains(item) <==> exists|i: int|
            0 <= i < findings.len() && (#[trigger] findings[i]).kind == groups_of(findings)[g].kind && item.detail
                == findings[i].detail && item.subject == grouped_text(findings[i]),
        groups_of(findings)[g].items.len() > 0,
{
    let kind = groups_of(findings)[g].kind;
    lemma_filter_map_has(findings, item_of(kind), item);
    if groups_of(findings)[g].items.contains(item) {
        let i = choose|i: int| 0 <= i < findings.len() && item_of(kind)(#[trigger] findings[i]) == Some(item);
        assert(findings[i].kind == kind);
    }
    if exists|i: int|
        0 <= i < findings.len() && (#[trigger] findings[i]).kind == kind && item.detail == findings[i].detail
            && item.subject == grouped_text(findings[i]) {
        let i = choose|i: int|
            0 <= i < findings.len() && (#[trigger] findings[i]).kind == kind && item.detail == findings[i].detail
                && item.subject == grouped_text(findings[i]);
        assert(item_of(kind)(findings[i]) == Some(item));
    }
    lemma_kind_is_found(findings, kind);
    let k = choose|k: int| 0 <= k < findings.len() && (#[trigger] findings[k]).kind == kind;
    lemma_item_kept(findings, kind, k);
}

proof fn lemma_kind_is_found(findings: Seq<FindingView>, kind: FindingKind)
    requires
        kinds_of(findings).contains(kind),
    ensures
        exists|k: int| 0 <= k < findings.len() && (#[trigger] findings[k]).kind == kind,
    decreases findings.len(),
{
    if findings.len() > 0 {
        let rest = findings.drop_last();
        let before = kinds_of(rest);
        if findings.last().kind == kind {
            assert(findings[findings.len() - 1].kind == kind);
        } else {
            let i = choose|i: int| 0 <= i < kinds_of(findings).len() && kinds_of(findings)[i] == kind;
            assert(before[i] == kind);
            assert(before.contains(kind));
            lemma_kind_is_found(rest, kind);
            let k = choose|k: int| 0 <= k < rest.len() && (#[trigger] rest[k]).kind == kind;
            assert(findings[k] == rest[k]);
        }
    }
}

/// Each state of a branch has its own word.
pub proof fn lemma_words_of_states()
    ensures
        BranchState::ForkOnly.label() == "fork-only"@ && BranchState::Divergent.label() == "divergent"@,
        BranchState::Landed.label() == "landed"@ && BranchState::Conflicted.label() == "conflicted"@,
        BranchState::ChecksFailing.label() == "checks-failing"@ && BranchState::ChangesRequested.label()
            == "changes-requested"@,
        BranchState::Approved.label() == "approved"@ && BranchState::Draft.label() == "draft"@,
        BranchState::AwaitingReview.label() == "awaiting-review"@ && BranchState::Merged.label() == "merged"@,
        BranchState::Closed.label() == "closed"@ && BranchState::NoPr.label() == "no-pr"@
            && BranchState::Unknown.label() == "unknown"@,
{
}

/// A text is cut only where it is longer than allowed, and then begins as it did and shows that it was cut.
pub proof fn lemma_cut_text_begins_alike(text: Seq<char>, limit: nat)
    ensures
        text.len() > limit ==> capped(text, limit).len() == limit + 1 && capped(text, limit).take(limit as int)
            == text.take(limit as int) && capped(text, limit).last() == '…',
        text.len() <= limit ==> capped(text, limit) == text,
{
    if text.len() > limit {
        assert(capped(text, limit).take(limit as int) =~= text.take(limit as int));
    }
}

/// What a finding is listed under: its subject, and beside it who else touches the file or carries the branch
/// where its detail tells that in its own words.
pub proof fn lemma_grouped_under_subject(kind: FindingKind, subject: SubjectView, others: Seq<char>, detail: Seq<char>)
    ensures
        kind != FindingKind::BranchOverlap && kind != FindingKind::CarriedElsewhere ==> grouped_text(
            (FindingView { kind, subject, detail }),
        ) == subject.short(),
        grouped_text(
            (FindingView {
                kind: FindingKind::BranchOverlap,
                subject,
                detail: subject.short() + " is touched by "@ + others,
            }),
        ) == subject.short() + ": "@ + others,
        grouped_text(
            (FindingView {
                kind: FindingKind::CarriedElsewhere,
                subject,
                detail: subject.short() + "'s tip is also reachable from "@ + others,
            }),
        ) == subject.short() + ": "@ + others,
{
    let touched = subject.short() + " is touched by "@;
    let carried = subject.short() + "'s tip is also reachable from "@;
    assert((touched + others).take(touched.len() as int) =~= touched);
    assert((touched + others).skip(touched.len() as int) =~= others);
    assert((carried + others).take(carried.len() as int) =~= carried);
    assert((carried + others).skip(carried.len() as int) =~= others);
}

/// A notch is shown in one line: its words with a space between each two, cut behind a hundred and twenty
/// characters.
pub proof fn lemma_collapsed_text(text: Seq<char>)
    ensures
        collapsed(text).len() <= 121,
        joined(words_of(text), " "@).len() <= 120 ==> collapsed(text) == joined(words_of(text), " "@),
        joined(words_of(text), " "@).len() > 120 ==> collapsed(text).take(120) == joined(words_of(text), " "@).take(
            120,
        ),
{
    lemma_capped_is_short(joined(words_of(text), " "@), 120);
    lemma_cut_text_begins_alike(joined(words_of(text), " "@), 120);
}

} // verus!
