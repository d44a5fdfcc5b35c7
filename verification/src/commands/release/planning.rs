//! The release in hand, and what it does not carry.

use vstd::prelude::*;
use vstd::string::*;

use crate::commands::release::cutting::upstream_name;
use crate::commands::release::members::{in_trunk, trunk_tip};
use crate::commands::release::Plan;
use crate::config::{publish_of, scheme_of, trunk_of, RepoEntry};
use crate::consumer_pins::ConsumerScan;
use crate::detect::stale_parents::{stale_parents, staleness, BookmarkTips, ParentView, ReleaseParent};
use crate::detect::superseded::{bookmark_texts, written};
use crate::detect::{Finding, FindingKind, FindingView, Subject, SubjectView};
use crate::graph::CommitGraph;
use crate::ids::{
    is_release_name, release_name, short_text, BookmarkRef, BookmarkView, CommitId, ReleaseScheme, RepoName,
};
use crate::order::{lookup, OrdMap};
use crate::pins::Pin;
use crate::release_model::{carried, carried_from_tips, newest_position, newest_release, MemberEvidence};
use crate::seqs::{
    gathered, group_seqs, lemma_filter_has, lemma_filter_next, lemma_gathered_next, view_of, views,
};
use crate::text::{marked, push_marked, ranks, same};

verus! {

broadcast use group_seqs;

/// Whether a release lacks the upstream trunk, in words.
pub open spec fn lag_text(graph: CommitGraph, release: Option<Seq<char>>, trunk: Seq<char>) -> Option<Seq<char>> {
    match (graph.commit(trunk), release) {
        (Some(tip), Some(name)) => match graph.commit(name) {
            Some(commit) => if graph.reaches(tip, commit) {
                None
            } else {
                Some(name + " does not contain the upstream trunk ("@ + short_text(tip) + ")"@)
            },
            None => None,
        },
        _ => None,
    }
}

/// Whether the release in hand lacks the upstream trunk.
///
/// Stated as a fact, not an instruction: a release that does not contain the current trunk is a
/// normal thing to have, and whether to move it is a judgment. It matters when a pull request has
/// merged upstream, because until the release contains the commit that merge landed in, dropping the
/// local branch removes the change from the release too.
pub fn trunk_lag(graph: &CommitGraph, release: Option<&str>, upstream_trunk: &str) -> (text: Option<String>)
    ensures
        view_of(text) == lag_text(*graph, view_of(release), upstream_trunk@),
{
    let tip = match graph.resolve(upstream_trunk) {
        Some(tip) => tip,
        None => return None,
    };
    let name = match release {
        Some(name) => name,
        None => return None,
    };
    let commit = match graph.resolve(name) {
        Some(commit) => commit,
        None => return None,
    };
    if graph.is_ancestor(tip, commit) {
        return None;
    }
    let mut text = name.to_owned();
    text.append(" does not contain the upstream trunk (");
    text.append(tip.short().as_str());
    text.append(")");
    Some(text)
}

/// Whether the trunk reaches a commit.
pub open spec fn reaching(graph: CommitGraph, trunk: Seq<char>) -> spec_fn(Seq<char>) -> bool {
    |commit: Seq<char>| graph.reaches(commit, trunk)
}

/// Whether every other one of the bases is an ancestor of this one.
pub open spec fn contains_all(graph: CommitGraph, bases: Seq<Seq<char>>) -> spec_fn(Seq<char>) -> bool {
    |base: Seq<char>|
        forall|i: int| 0 <= i < bases.len() ==> bases[i] == base || #[trigger] graph.reaches(bases[i], base)
}

/// The commit every member of a release forks from.
pub open spec fn base_of(
    parents: Seq<Seq<char>>,
    graph: CommitGraph,
    trunk: Seq<char>,
    common: Option<Seq<char>>,
) -> Option<Seq<char>> {
    let bases = parents.filter(reaching(graph, trunk));
    let newest = bases.filter(contains_all(graph, bases));
    if newest.len() > 0 {
        Some(newest[0])
    } else if bases.len() > 0 {
        None
    } else {
        common
    }
}

fn is_newest(graph: &CommitGraph, bases: &Vec<CommitId>, base: &CommitId) -> (r: bool)
    ensures
        r == contains_all(*graph, views(bases@))(base@),
{
    let ghost all = views(bases@);
    let mut i: usize = 0;
    while i < bases.len()
        invariant
            i <= bases@.len(),
            all == views(bases@),
            forall|j: int| 0 <= j < i ==> all[j] == base@ || #[trigger] graph.reaches(all[j], base@),
        decreases bases@.len() - i,
    {
        assert(all[i as int] == bases@[i as int]@);
        if !bases[i].same(base) && !graph.is_ancestor(&bases[i], base) {
            assert(!(all[i as int] == base@ || graph.reaches(all[i as int], base@)));
            return false;
        }
        i += 1;
    }
    true
}

/// The commit every member of a release forks from.
///
/// A release may carry its base as a trunk-reachable parent; when it also contains older bases, the
/// shared base is the newest: the one every other trunk-reachable parent is an ancestor of. A release
/// that names no base among its parents forks where every member and the trunk last agree: `common`.
/// Trunk-reachable parents that do not contain each other mean histories that criss-cross, and
/// guessing a base there would misattribute content.
pub fn shared_base(
    parents: &[CommitId],
    graph: &CommitGraph,
    trunk_tip: &CommitId,
    common: Option<&CommitId>,
) -> (base: Option<CommitId>)
    ensures
        view_of(base) == base_of(views(parents@), *graph, trunk_tip@, view_of(common)),
{
    let mut bases: Vec<CommitId> = Vec::new();
    let ghost all = views(parents@);
    let mut i: usize = 0;
    while i < parents.len()
        invariant
            i <= parents@.len(),
            all == views(parents@),
            views(bases@) == all.take(i as int).filter(reaching(*graph, trunk_tip@)),
        decreases parents@.len() - i,
    {
        proof {
            lemma_filter_next(all, reaching(*graph, trunk_tip@), i as int);
            assert(all[i as int] == parents@[i as int]@);
        }
        if graph.is_ancestor(&parents[i], trunk_tip) {
            bases.push(parents[i].clone());
        }
        i += 1;
    }
    let ghost found = views(bases@);
    let ghost newest = contains_all(*graph, found);
    assert(found.len() == bases@.len());
    let mut k: usize = 0;
    while k < bases.len()
        invariant
            k <= bases@.len(),
            found == views(bases@),
            found == all.filter(reaching(*graph, trunk_tip@)),
            all == views(parents@),
            newest == contains_all(*graph, found),
            found.take(k as int).filter(newest).len() == 0,
        decreases bases@.len() - k,
    {
        proof {
            lemma_filter_next(found, newest, k as int);
            assert(found[k as int] == bases@[k as int]@);
        }
        if is_newest(graph, &bases, &bases[k]) {
            proof {
                lemma_first_kept(found, newest, k as int);
            }
            return Some(bases[k].clone());
        }
        k += 1;
    }
    if bases.len() > 0 {
        return None;
    }
    match common {
        Some(commit) => Some(commit.clone()),
        None => None,
    }
}

/// The first element that a filter keeps is the first of what it keeps.
proof fn lemma_first_kept<A>(s: Seq<A>, keep: spec_fn(A) -> bool, k: int)
    requires
        0 <= k < s.len(),
        keep(s[k]),
        s.take(k).filter(keep).len() == 0,
    ensures
        s.filter(keep).len() > 0,
        s.filter(keep)[0] == s[k],
    decreases s.len(),
{
    reveal(Seq::filter);
    let rest = s.drop_last();
    if k < s.len() - 1 {
        assert(rest.take(k) =~= s.take(k));
        assert(rest[k] == s[k]);
        lemma_first_kept(rest, keep, k);
    } else {
        assert(s.take(k) =~= rest);
    }
}

/// The commit of a local branch that is no release cut.
pub open spec fn work_tip(scheme: ReleaseScheme) -> spec_fn((BookmarkRef, CommitId)) -> Option<Seq<char>> {
    |tip: (BookmarkRef, CommitId)|
        if tip.0@ is Local && !release_name(tip.0@.branch(), scheme) {
            Some(tip.1@)
        } else {
            None
        }
}

/// The commits of a divergent local branch that is no release cut.
pub open spec fn work_targets(scheme: ReleaseScheme) -> spec_fn((BookmarkRef, Vec<CommitId>)) -> Seq<Seq<char>> {
    |conflict: (BookmarkRef, Vec<CommitId>)|
        if conflict.0@ is Local && !release_name(conflict.0@.branch(), scheme) {
            views(conflict.1@)
        } else {
            Seq::empty()
        }
}

fn push_commits(keep: &mut Vec<CommitId>, commits: &Vec<CommitId>)
    ensures
        views(final(keep)@) == views(old(keep)@) + views(commits@),
{
    let ghost before = views(keep@);
    let ghost all = views(commits@);
    let mut i: usize = 0;
    assert(before + all.take(0) =~= before);
    while i < commits.len()
        invariant
            i <= commits@.len(),
            all == views(commits@),
            views(keep@) == before + all.take(i as int),
        decreases commits@.len() - i,
    {
        let ghost earlier = keep@;
        keep.push(commits[i].clone());
        assert(views(keep@) =~= views(earlier).push(commits@[i as int]@));
        assert(views(keep@) =~= before + all.take(i + 1));
        i += 1;
    }
    assert(all.take(i as int) =~= all);
}

/// What a recut keeps reachable: the commits that count as work.
///
/// Every tip of a local branch that is no release; every commit a divergent one names, because it has
/// no single tip but each target is still bookmarked work; the previous release's own parents, which
/// the cut carries verbatim; and the upstream trunk.
pub fn cut_keepers(
    tips: &BookmarkTips,
    conflicted: &Vec<(BookmarkRef, Vec<CommitId>)>,
    previous_parents: &Vec<CommitId>,
    trunk: &CommitId,
    scheme: &ReleaseScheme,
) -> (keep: Vec<CommitId>)
    ensures
        views(keep@) == tips@.filter_map(work_tip(*scheme)) + gathered(conflicted@, work_targets(*scheme)) + views(
            previous_parents@,
        ) + seq![trunk@],
{
    let mut keep: Vec<CommitId> = Vec::new();
    let mut i: usize = 0;
    while i < tips.len()
        invariant
            i <= tips@.len(),
            views(keep@) == tips@.take(i as int).filter_map(work_tip(*scheme)),
        decreases tips@.len() - i,
    {
        proof {
            tips@.lemma_filter_map_take_succ(work_tip(*scheme), i as int);
        }
        if let BookmarkRef::Local(branch) = tips.key(i) {
            if !is_release_name(branch, scheme) {
                keep.push(tips.value(i).clone());
            }
        }
        assert(views(keep@) =~= tips@.take(i + 1).filter_map(work_tip(*scheme)));
        i += 1;
    }
    let ghost local = views(keep@);
    let mut k: usize = 0;
    assert(local + gathered(conflicted@.take(0), work_targets(*scheme)) =~= local);
    while k < conflicted.len()
        invariant
            k <= conflicted@.len(),
            views(keep@) == local + gathered(conflicted@.take(k as int), work_targets(*scheme)),
        decreases conflicted@.len() - k,
    {
        proof {
            lemma_gathered_next(conflicted@, work_targets(*scheme), k as int);
        }
        if let BookmarkRef::Local(branch) = &conflicted[k].0 {
            if !is_release_name(branch, scheme) {
                push_commits(&mut keep, &conflicted[k].1);
            }
        }
        assert(views(keep@) =~= local + gathered(conflicted@.take(k + 1), work_targets(*scheme)));
        k += 1;
    }
    push_commits(&mut keep, previous_parents);
    let ghost earlier = keep@;
    keep.push(trunk.clone());
    assert(views(keep@) =~= views(earlier).push(trunk@));
    assert(views(keep@) =~= tips@.filter_map(work_tip(*scheme)) + gathered(conflicted@, work_targets(*scheme))
        + views(previous_parents@) + seq![trunk@]);
    keep
}

/// The first local one of several bookmarks.
pub open spec fn first_local(bookmarks: Seq<BookmarkView>) -> Option<Seq<char>>
    decreases bookmarks.len(),
{
    if bookmarks.len() == 0 {
        None
    } else if bookmarks[0] is Local {
        Some(bookmarks[0].branch())
    } else {
        first_local(bookmarks.skip(1))
    }
}

/// The name that a finding uses for a release parent.
pub open spec fn parent_name(parent: ParentView) -> Seq<char> {
    match first_local(parent.bookmarks) {
        Some(branch) => branch,
        None => short_text(parent.commit),
    }
}

/// The name that a stacked-history finding uses for one release parent: its local bookmark when one
/// still holds it, otherwise the bare commit. A parent that has been renamed or lost its bookmark is
/// still a real member.
pub fn parent_label(parent: &ReleaseParent) -> (label: String)
    ensures
        label@ == parent_name(parent@),
{
    let ghost all = parent@.bookmarks;
    let mut i: usize = 0;
    assert(all.skip(0) =~= all);
    while i < parent.bookmarks.len()
        invariant
            i <= parent.bookmarks@.len(),
            all == parent@.bookmarks,
            first_local(all) == first_local(all.skip(i as int)),
        decreases parent.bookmarks@.len() - i,
    {
        assert(all.skip(i as int)[0] == parent.bookmarks@[i as int]@);
        assert(all.skip(i as int).skip(1) =~= all.skip(i + 1));
        if let BookmarkRef::Local(branch) = &parent.bookmarks[i] {
            return branch.text.clone();
        }
        i += 1;
    }
    parent.commit.short()
}

/// What is known of a local branch beside the release.
#[derive(Debug, PartialEq, Eq)]
pub struct BranchStanding {
    /// What is found where its history carries a release merge.
    pub stacked: Option<Finding>,
    /// Whether the trunk already has the whole branch, tip included.
    pub landed: bool,
    /// The parents of the release that the branch continues.
    pub parents: Vec<CommitId>,
    /// What ties the branch to them.
    pub evidence: MemberEvidence,
}

/// What a standing says.
pub struct StandingView {
    pub stacked: Option<FindingView>,
    pub landed: bool,
    pub parents: Seq<Seq<char>>,
    pub evidence: MemberEvidence,
}

impl StandingView {
    /// The first of the parents that the branch continues.
    pub open spec fn parent(self) -> Option<Seq<char>> {
        if self.parents.len() > 0 {
            Some(self.parents[0])
        } else {
            None
        }
    }
}

impl View for BranchStanding {
    type V = StandingView;

    open spec fn view(&self) -> StandingView {
        StandingView {
            stacked: view_of(self.stacked),
            landed: self.landed,
            parents: views(self.parents@),
            evidence: self.evidence,
        }
    }
}

/// What is known of a branch. One of which nothing is known continues no parent.
pub open spec fn standing_of(standings: Seq<(String, BranchStanding)>, branch: Seq<char>) -> StandingView {
    match lookup(standings, ranks(branch)) {
        Some(standing) => standing@,
        None => StandingView {
            stacked: None,
            landed: false,
            parents: Seq::empty(),
            evidence: MemberEvidence::Succession,
        },
    }
}

/// What the notes on local branches go by.
#[derive(Clone, Copy)]
pub struct LocalBranchNotes<'a> {
    /// The release as it is written.
    pub reference: &'a str,
    pub release: &'a CommitId,
    pub graph: &'a CommitGraph,
    /// Whether any trunk is known to measure a stacked history against.
    pub trunks_known: bool,
    pub standings: &'a OrdMap<String, BranchStanding>,
}

/// What the notes go by, as values.
pub struct NotesView {
    pub reference: Seq<char>,
    pub release: Seq<char>,
    pub graph: CommitGraph,
    pub trunks_known: bool,
    pub standings: Seq<(String, BranchStanding)>,
}

impl<'a> View for LocalBranchNotes<'a> {
    type V = NotesView;

    open spec fn view(&self) -> NotesView {
        NotesView {
            reference: self.reference@,
            release: self.release@,
            graph: *self.graph,
            trunks_known: self.trunks_known,
            standings: self.standings@,
        }
    }
}

/// What is said of a branch that a cut will not carry.
pub open spec fn uncarried_text(branch: Seq<char>, reference: Seq<char>, standing: StandingView) -> Seq<char> {
    if standing.landed {
        match standing.parent() {
            None => branch + " is not in "@ + reference
                + ": the trunk already has it, merged after the release's base; `knives release rebase` onto a trunk that has it brings it in"@,
            Some(parent) => branch + " was released as "@ + short_text(parent) + " in "@ + reference
                + " and the trunk now has the whole branch, tip included; `knives release rebase` retires the landed parent and brings the rest in"@,
        }
    } else {
        match standing.parent() {
            None => branch + " is not in "@ + reference + "; `knives release include "@ + branch + "` adds it"@,
            Some(parent) => match standing.evidence {
                MemberEvidence::Succession => branch + " has advanced past its parent in "@ + reference
                    + "; `knives release advance "@ + branch + "` moves it"@,
                MemberEvidence::Record => branch + " was released as "@ + short_text(parent) + " in "@ + reference
                    + " and has since been rebased outside jj; `knives release advance "@ + branch
                    + "` moves it through that record"@,
                MemberEvidence::LandedRecord => branch + "'s released parent "@ + short_text(parent) + " in "@
                    + reference
                    + " has landed upstream and the branch kept going; `knives release advance "@ + branch
                    + "` moves it, `knives release rebase` retires the landed parent"@,
            },
        }
    }
}

/// What the plan says of a local branch: nothing where the release carries it.
pub open spec fn branch_note(input: NotesView) -> spec_fn((String, CommitId)) -> Option<Seq<char>> {
    |branch: (String, CommitId)|
        {
            let standing = standing_of(input.standings, branch.0@);
            if input.graph.reaches(branch.1@, input.release) {
                None
            } else if input.graph.reaches(input.release, branch.1@) {
                Some(
                    branch.0@ + " is stacked on "@ + input.reference
                        + " rather than the trunk; rebase it off the trunk before including it"@,
                )
            } else if input.trunks_known && standing.stacked is Some {
                Some(standing.stacked->0.detail + "; rebase it off the trunk before including it"@)
            } else {
                Some(uncarried_text(branch.0@, input.reference, standing))
            }
        }
}

fn uncarried(branch: &str, reference: &str, standing: &BranchStanding) -> (note: String)
    ensures
        note@ == uncarried_text(branch@, reference@, standing@),
{
    let mut note = branch.to_owned();
    if standing.landed {
        if standing.parents.len() == 0 {
            note.append(" is not in ");
            note.append(reference);
            note.append(
                ": the trunk already has it, merged after the release's base; `knives release rebase` onto a trunk that has it brings it in",
            );
        } else {
            note.append(" was released as ");
            note.append(standing.parents[0].short().as_str());
            note.append(" in ");
            note.append(reference);
            note.append(
                " and the trunk now has the whole branch, tip included; `knives release rebase` retires the landed parent and brings the rest in",
            );
        }
        return note;
    }
    if standing.parents.len() == 0 {
        note.append(" is not in ");
        note.append(reference);
        note.append("; `knives release include ");
        note.append(branch);
        note.append("` adds it");
        return note;
    }
    match standing.evidence {
        MemberEvidence::Succession => {
            note.append(" has advanced past its parent in ");
            note.append(reference);
            note.append("; `knives release advance ");
            note.append(branch);
            note.append("` moves it");
        },
        MemberEvidence::Record => {
            note.append(" was released as ");
            note.append(standing.parents[0].short().as_str());
            note.append(" in ");
            note.append(reference);
            note.append(" and has since been rebased outside jj; `knives release advance ");
            note.append(branch);
            note.append("` moves it through that record");
        },
        MemberEvidence::LandedRecord => {
            note.append("'s released parent ");
            note.append(standing.parents[0].short().as_str());
            note.append(" in ");
            note.append(reference);
            note.append(" has landed upstream and the branch kept going; `knives release advance ");
            note.append(branch);
            note.append("` moves it, `knives release rebase` retires the landed parent");
        },
    }
    note
}

fn note_on(input: LocalBranchNotes, branch: &String, tip: &CommitId) -> (note: Option<String>)
    ensures
        view_of(note) == branch_note(input@)((*branch, *tip)),
{
    if input.graph.is_ancestor(tip, input.release) {
        return None;
    }
    if input.graph.is_ancestor(input.release, tip) {
        let mut note = branch.clone();
        note.append(" is stacked on ");
        note.append(input.reference);
        note.append(" rather than the trunk; rebase it off the trunk before including it");
        return Some(note);
    }
    let nothing = BranchStanding {
        stacked: None,
        landed: false,
        parents: Vec::new(),
        evidence: MemberEvidence::Succession,
    };
    let standing: &BranchStanding = match input.standings.get(branch) {
        Some(standing) => standing,
        None => &nothing,
    };
    assert(standing@ == standing_of(input.standings@, branch@));
    if input.trunks_known {
        if let Some(finding) = &standing.stacked {
            let mut note = finding.detail.clone();
            note.append("; rebase it off the trunk before including it");
            return Some(note);
        }
    }
    Some(uncarried(branch.as_str(), input.reference, standing))
}

/// One note per local branch a cut will not carry.
///
/// Membership is the release's parent set, and a branch joins or moves only through a stated
/// `include` or `advance`. Saying so is what keeps "it exists locally" from silently meaning "it
/// ships". Each note names the verb that would actually take the branch. A branch built on top of the
/// release descends from every member, which ancestry alone reads as advanced, but neither verb would
/// take it: carrying it would put the cut in its own successor's ancestry.
pub fn local_branch_notes(input: LocalBranchNotes, branches: &Vec<(String, CommitId)>) -> (notes: Vec<String>)
    ensures
        views(notes@) == branches@.filter_map(branch_note(input@)),
{
    let mut notes: Vec<String> = Vec::new();
    let mut i: usize = 0;
    while i < branches.len()
        invariant
            i <= branches@.len(),
            views(notes@) == branches@.take(i as int).filter_map(branch_note(input@)),
        decreases branches@.len() - i,
    {
        proof {
            branches@.lemma_filter_map_take_succ(branch_note(input@), i as int);
        }
        if let Some(note) = note_on(input, &branches[i].0, &branches[i].1) {
            notes.push(note);
        }
        assert(views(notes@) =~= branches@.take(i + 1).filter_map(branch_note(input@)));
        i += 1;
    }
    notes
}

/// What is said where no consumer is known.
pub open spec fn no_consumers(slugs: nat, locals: nat) -> Seq<Seq<char>> {
    if slugs == 0 && locals == 0 {
        seq![
            "no consumers recorded; if a lockfile pins this fork, add `consumers = [...]` to the registry entry or pass --consumer"@,
        ]
    } else {
        Seq::empty()
    }
}

/// The pins that a consumer's scan found.
pub open spec fn pins_found() -> spec_fn((String, ConsumerScan)) -> Seq<Pin> {
    |consumer: (String, ConsumerScan)| consumer.1@.pins
}

/// The notes that a consumer's scan made.
pub open spec fn notes_made() -> spec_fn((String, ConsumerScan)) -> Seq<Seq<char>> {
    |consumer: (String, ConsumerScan)| consumer.1@.notes
}

/// The problems that a consumer's scan met.
pub open spec fn problems_met() -> spec_fn((String, ConsumerScan)) -> Seq<Seq<char>> {
    |consumer: (String, ConsumerScan)| consumer.1@.problems
}

/// The problems that the scan of a checkout met, each behind the checkout's name.
pub open spec fn named_problems() -> spec_fn((String, ConsumerScan)) -> Seq<Seq<char>> {
    |consumer: (String, ConsumerScan)| marked(consumer.0@ + ": "@, consumer.1@.problems)
}

/// Adds what the consumers pin.
///
/// Every consumer, not one: they can sit on different releases, so a plan that saw only the first
/// would call a release unpinned while something else was frozen on it. No consumer at all is an
/// answer, not a gap. The scan of a checkout speaks of one checkout; the plan may hold several, so its
/// problems name which.
pub fn add_consumer_pins(
    plan: &mut Plan,
    slugs: Vec<(String, ConsumerScan)>,
    locals: Vec<(String, ConsumerScan)>,
)
    ensures
        final(plan).repo == old(plan).repo,
        final(plan).base_findings == old(plan).base_findings,
        final(plan).release == old(plan).release,
        final(plan).parents == old(plan).parents,
        final(plan).stale == old(plan).stale,
        final(plan).pins@ == old(plan).pins@ + gathered(slugs@, pins_found()) + gathered(locals@, pins_found()),
        views(final(plan).notes@) == views(old(plan).notes@) + no_consumers(slugs@.len(), locals@.len())
            + gathered(slugs@, notes_made()) + gathered(locals@, notes_made()),
        views(final(plan).problems@) == views(old(plan).problems@) + gathered(slugs@, problems_met()) + gathered(
            locals@,
            named_problems(),
        ),
{
    if slugs.len() == 0 && locals.len() == 0 {
        plan.notes.push(
            "no consumers recorded; if a lockfile pins this fork, add `consumers = [...]` to the registry entry or pass --consumer".to_owned(),
        );
    }
    let ghost remote = slugs@;
    let ghost near = locals@;
    let ghost pins = plan.pins@;
    let ghost notes = views(plan.notes@);
    let ghost problems = views(plan.problems@);
    assert(notes =~= views(old(plan).notes@) + no_consumers(remote.len(), near.len()));
    assert(pins + gathered(remote.take(0), pins_found()) =~= pins);
    assert(notes + gathered(remote.take(0), notes_made()) =~= notes);
    assert(problems + gathered(remote.take(0), problems_met()) =~= problems);
    for consumer in it: slugs
        invariant
            it.seq() == remote,
            plan.repo == old(plan).repo,
            plan.base_findings == old(plan).base_findings,
            plan.release == old(plan).release,
            plan.parents == old(plan).parents,
            plan.stale == old(plan).stale,
            plan.pins@ == pins + gathered(remote.take(it.index()), pins_found()),
            views(plan.notes@) == notes + gathered(remote.take(it.index()), notes_made()),
            views(plan.problems@) == problems + gathered(remote.take(it.index()), problems_met()),
    {
        let ghost i = it.index();
        proof {
            lemma_gathered_next(remote, pins_found(), i);
            lemma_gathered_next(remote, notes_made(), i);
            lemma_gathered_next(remote, problems_met(), i);
        }
        let mut scan = consumer.1;
        plan.pins.append(&mut scan.pins);
        plan.notes.append(&mut scan.notes);
        plan.problems.append(&mut scan.problems);
        proof {
            assert(plan.pins@ =~= pins + gathered(remote.take(i + 1), pins_found()));
            assert(views(plan.notes@) =~= notes + gathered(remote.take(i + 1), notes_made()));
            assert(views(plan.problems@) =~= problems + gathered(remote.take(i + 1), problems_met()));
        }
    }
    assert(remote.take(remote.len() as int) =~= remote);
    let ghost pins = plan.pins@;
    let ghost notes = views(plan.notes@);
    let ghost problems = views(plan.problems@);
    assert(pins + gathered(near.take(0), pins_found()) =~= pins);
    assert(notes + gathered(near.take(0), notes_made()) =~= notes);
    assert(problems + gathered(near.take(0), named_problems()) =~= problems);
    for consumer in it: locals
        invariant
            it.seq() == near,
            plan.repo == old(plan).repo,
            plan.base_findings == old(plan).base_findings,
            plan.release == old(plan).release,
            plan.parents == old(plan).parents,
            plan.stale == old(plan).stale,
            plan.pins@ == pins + gathered(near.take(it.index()), pins_found()),
            views(plan.notes@) == notes + gathered(near.take(it.index()), notes_made()),
            views(plan.problems@) == problems + gathered(near.take(it.index()), named_problems()),
    {
        let ghost i = it.index();
        proof {
            lemma_gathered_next(near, pins_found(), i);
            lemma_gathered_next(near, notes_made(), i);
            lemma_gathered_next(near, named_problems(), i);
        }
        let mut mark = consumer.0;
        mark.append(": ");
        let mut scan = consumer.1;
        plan.pins.append(&mut scan.pins);
        plan.notes.append(&mut scan.notes);
        push_marked(&mut plan.problems, mark.as_str(), scan.problems.as_slice());
        proof {
            assert(plan.pins@ =~= pins + gathered(near.take(i + 1), pins_found()));
            assert(views(plan.notes@) =~= notes + gathered(near.take(i + 1), notes_made()));
            assert(views(plan.problems@) =~= problems + gathered(near.take(i + 1), named_problems()));
        }
    }
    assert(near.take(near.len() as int) =~= near);
}

/// A parent of the release in hand.
#[derive(Debug, PartialEq, Eq)]
pub struct PlanParent {
    pub parent: ReleaseParent,
    /// What is found where its history carries a release merge.
    pub stacked: Option<Finding>,
}

/// What a parent is.
pub struct PlanParentView {
    pub parent: ParentView,
    pub stacked: Option<FindingView>,
}

impl View for PlanParent {
    type V = PlanParentView;

    open spec fn view(&self) -> PlanParentView {
        PlanParentView { parent: self.parent@, stacked: view_of(self.stacked) }
    }
}

/// What is known when a release is planned.
pub struct PlanInput<'a> {
    pub repo: &'a RepoName,
    pub entry: &'a RepoEntry,
    pub tips: &'a BookmarkTips,
    /// What is found of release names that stand at two contents.
    pub double_cuts: Vec<Finding>,
    pub double_notes: Vec<String>,
    /// The parents of the newest release.
    pub parents: &'a Vec<PlanParent>,
    pub graph: &'a CommitGraph,
    /// Where every parent and the trunk last agree.
    pub common: Option<&'a CommitId>,
    /// Whether any trunk is known to measure a stacked history against.
    pub trunks_known: bool,
    /// What is known of the local branches.
    pub standings: &'a OrdMap<String, BranchStanding>,
    /// The registered consumers, and what was found of each.
    pub slugs: Vec<(String, ConsumerScan)>,
    /// The consumers given as checkouts, and what was found in each.
    pub locals: Vec<(String, ConsumerScan)>,
}

/// Whether a parent is a member: the trunk does not reach it.
pub open spec fn is_member(graph: CommitGraph, trunk: Option<Seq<char>>) -> spec_fn(PlanParentView) -> bool {
    |parent: PlanParentView| !in_trunk(graph, trunk, parent.parent.commit)
}

/// The commits of the parents.
pub open spec fn parent_commits(parents: Seq<PlanParentView>) -> Seq<Seq<char>> {
    Seq::new(parents.len(), |i: int| parents[i].parent.commit)
}

/// What the parents are as release parents.
pub open spec fn bare_parents(parents: Seq<PlanParentView>) -> Seq<ParentView> {
    Seq::new(parents.len(), |i: int| parents[i].parent)
}

/// The shared base of a release, where the trunk is known.
pub open spec fn plan_base(
    parents: Seq<PlanParentView>,
    graph: CommitGraph,
    trunk: Option<Seq<char>>,
    common: Option<Seq<char>>,
) -> Option<Seq<char>> {
    match trunk {
        Some(tip) => base_of(parent_commits(parents), graph, tip, common),
        None => None,
    }
}

/// What is found of a parent that is an older base.
pub open spec fn older_base(
    graph: CommitGraph,
    trunk: Option<Seq<char>>,
    base: Option<Seq<char>>,
) -> spec_fn(PlanParentView) -> Option<FindingView> {
    |parent: PlanParentView|
        if in_trunk(graph, trunk, parent.parent.commit) && base is Some && base->0 != parent.parent.commit {
            Some(
                FindingView {
                    kind: FindingKind::SupersededBase,
                    subject: SubjectView::Commit(parent.parent.commit),
                    detail: "parent "@ + short_text(parent.parent.commit) + " is an older upstream base superseded by "@
                        + short_text(base->0) + "; `knives release rebase` self-heals this"@,
                },
            )
        } else {
            None
        }
}

/// What is found of a member stacked on a release merge.
pub open spec fn stacked_member(trunks_known: bool) -> spec_fn(PlanParentView) -> Option<FindingView> {
    |parent: PlanParentView|
        if trunks_known {
            parent.stacked
        } else {
            None
        }
}

/// The parents as a plan lists them.
pub open spec fn listed_parents(parents: Seq<PlanParentView>) -> Seq<(Seq<char>, Seq<Seq<char>>)> {
    Seq::new(parents.len(), |i: int| (parents[i].parent.commit, written(parents[i].parent.bookmarks)))
}

/// What the parents of a plan say.
pub open spec fn plan_parents(parents: Seq<(CommitId, Vec<String>)>) -> Seq<(Seq<char>, Seq<Seq<char>>)> {
    Seq::new(parents.len(), |i: int| (parents[i].0@, views(parents[i].1@)))
}

/// What is said where there is no release yet.
pub open spec fn no_release(scheme: ReleaseScheme) -> Seq<char> {
    match scheme {
        ReleaseScheme::Dated => "no dated release found; the first cut has nothing to repair"@,
        ReleaseScheme::Fixed(fixed) => "fixed release branch "@ + fixed@
            + " has no cut yet; the first cut has nothing to repair"@,
    }
}

fn list_parents(parents: &Vec<PlanParent>) -> (list: Vec<(CommitId, Vec<String>)>)
    ensures
        plan_parents(list@) == listed_parents(views(parents@)),
{
    let mut list: Vec<(CommitId, Vec<String>)> = Vec::new();
    let ghost all = listed_parents(views(parents@));
    let mut i: usize = 0;
    assert(plan_parents(list@) =~= all.take(0));
    while i < parents.len()
        invariant
            i <= parents@.len(),
            all == listed_parents(views(parents@)),
            plan_parents(list@) == all.take(i as int),
        decreases parents@.len() - i,
    {
        let names = bookmark_texts(parents[i].parent.bookmarks.as_slice());
        let commit = parents[i].parent.commit.clone();
        assert(views(parents@)[i as int] == parents@[i as int]@);
        assert(all[i as int] == (commit@, views(names@)));
        let ghost before = plan_parents(list@);
        list.push((commit, names));
        assert(plan_parents(list@) =~= before.push((commit@, views(names@))));
        assert(plan_parents(list@) =~= all.take(i + 1));
        i += 1;
    }
    assert(all.take(i as int) =~= all);
    list
}

fn commits_of_parents(parents: &Vec<PlanParent>) -> (commits: Vec<CommitId>)
    ensures
        views(commits@) == parent_commits(views(parents@)),
{
    let mut commits: Vec<CommitId> = Vec::new();
    let ghost all = parent_commits(views(parents@));
    let mut i: usize = 0;
    assert(views(commits@) =~= all.take(0));
    while i < parents.len()
        invariant
            i <= parents@.len(),
            all == parent_commits(views(parents@)),
            views(commits@) == all.take(i as int),
        decreases parents@.len() - i,
    {
        let commit = parents[i].parent.commit.clone();
        assert(views(parents@)[i as int] == parents@[i as int]@);
        assert(all[i as int] == commit@);
        let ghost earlier = commits@;
        commits.push(commit);
        assert(views(commits@) =~= views(earlier).push(commit@));
        assert(views(commits@) =~= all.take(i + 1));
        i += 1;
    }
    assert(all.take(i as int) =~= all);
    commits
}

/// What is found of the parents of a release, and those that are members.
struct Sorted {
    bases: Vec<Finding>,
    stacked: Vec<Finding>,
    members: Vec<ReleaseParent>,
}

fn sort_parents(
    parents: &Vec<PlanParent>,
    graph: &CommitGraph,
    trunk: Option<&CommitId>,
    base: Option<&CommitId>,
    trunks_known: bool,
) -> (found: Sorted)
    ensures
        ({
            let all = views(parents@);
            let members = all.filter(is_member(*graph, view_of(trunk)));
            &&& views(found.bases@) == all.filter_map(older_base(*graph, view_of(trunk), view_of(base)))
            &&& views(found.stacked@) == members.filter_map(stacked_member(trunks_known))
            &&& views(found.members@) == bare_parents(members)
        }),
{
    let mut bases: Vec<Finding> = Vec::new();
    let mut stacked: Vec<Finding> = Vec::new();
    let mut members: Vec<ReleaseParent> = Vec::new();
    let ghost all = views(parents@);
    let ghost tip = view_of(trunk);
    let ghost older = older_base(*graph, tip, view_of(base));
    let ghost member = is_member(*graph, tip);
    let ghost on_merge = stacked_member(trunks_known);
    let mut i: usize = 0;
    assert(bare_parents(all.take(0).filter(member)) =~= Seq::empty());
    assert(all.take(0).filter(member).filter_map(on_merge) =~= Seq::empty());
    while i < parents.len()
        invariant
            i <= parents@.len(),
            all == views(parents@),
            tip == view_of(trunk),
            older == older_base(*graph, tip, view_of(base)),
            member == is_member(*graph, tip),
            on_merge == stacked_member(trunks_known),
            views(bases@) == all.take(i as int).filter_map(older),
            views(stacked@) == all.take(i as int).filter(member).filter_map(on_merge),
            views(members@) == bare_parents(all.take(i as int).filter(member)),
        decreases parents@.len() - i,
    {
        let parent = &parents[i].parent;
        let ghost before = all.take(i as int).filter(member);
        proof {
            all.lemma_filter_map_take_succ(older, i as int);
            lemma_filter_next(all, member, i as int);
            assert(all[i as int] == parents@[i as int]@);
            let more = before.push(all[i as int]);
            more.lemma_filter_map_take_succ(on_merge, before.len() as int);
            assert(more.take(before.len() as int) =~= before);
            assert(more.take(before.len() as int + 1) =~= more);
            assert(bare_parents(more) =~= bare_parents(before).push(parent@));
        }
        let landed = match trunk {
            Some(tip) => graph.is_ancestor(&parent.commit, tip),
            None => false,
        };
        if !landed {
            if trunks_known {
                if let Some(finding) = &parents[i].stacked {
                    stacked.push(finding.clone());
                }
            }
            members.push(parent.clone());
        } else if let Some(base) = base {
            if !base.same(&parent.commit) {
                let mut detail = "parent ".to_owned();
                detail.append(parent.commit.short().as_str());
                detail.append(" is an older upstream base superseded by ");
                detail.append(base.short().as_str());
                detail.append("; `knives release rebase` self-heals this");
                bases.push(
                    Finding::new(FindingKind::SupersededBase, Subject::Commit(parent.commit.clone()), detail),
                );
            }
        }
        proof {
            assert(views(bases@) =~= all.take(i + 1).filter_map(older));
            assert(views(stacked@) =~= all.take(i + 1).filter(member).filter_map(on_merge));
            assert(views(members@) =~= bare_parents(all.take(i + 1).filter(member)));
        }
        i += 1;
    }
    Sorted { bases, stacked, members }
}

/// The branches that the notes of a plan speak of.
pub open spec fn plan_branches(input: PlanInput) -> Seq<(String, CommitId)> {
    input.tips@.filter_map(carried(trunk_of(*input.entry), scheme_of(*input.entry)))
}

/// What a plan says of a release that is there.
pub open spec fn plans_release(plan: Plan, input: PlanInput, reference: BookmarkView, commit: Seq<char>) -> bool {
    let parents = views(input.parents@);
    let trunk = input.graph.commit(upstream_name(*input.entry));
    let base = plan_base(parents, *input.graph, trunk, view_of(input.common));
    let members = parents.filter(is_member(*input.graph, trunk));
    &&& view_of(plan.release) == Some(reference.text())
    &&& views(plan.base_findings@) == views(input.double_cuts@) + parents.filter_map(
        older_base(*input.graph, trunk, base),
    ) + members.filter_map(stacked_member(input.trunks_known))
    &&& views(plan.stale@) == gathered(bare_parents(members), staleness(input.tips@))
    &&& plan_parents(plan.parents@) == listed_parents(parents)
    &&& plan.pins@ == gathered(input.slugs@, pins_found()) + gathered(input.locals@, pins_found())
    &&& views(plan.problems@) == gathered(input.slugs@, problems_met()) + gathered(input.locals@, named_problems())
    &&& views(plan.notes@) == views(input.double_notes@) + plan_branches(input).filter_map(
        branch_note(
            NotesView {
                reference: reference.text(),
                release: commit,
                graph: *input.graph,
                trunks_known: input.trunks_known,
                standings: input.standings@,
            },
        ),
    ) + no_consumers(input.slugs@.len(), input.locals@.len()) + gathered(input.slugs@, notes_made()) + gathered(
        input.locals@,
        notes_made(),
    )
}

/// The release in hand and what it does not carry.
pub fn plan(input: PlanInput) -> (plan: Plan)
    ensures
        plan.repo@ == input.repo@,
        match newest_position(input.tips@, scheme_of(*input.entry), publish_of(*input.entry)) {
            None => {
                &&& plan.release is None
                &&& views(plan.base_findings@) == views(input.double_cuts@)
                &&& views(plan.notes@) == views(input.double_notes@).push(no_release(scheme_of(*input.entry)))
                &&& plan.parents@.len() == 0
                &&& plan.stale@.len() == 0
                &&& plan.pins@.len() == 0
                &&& plan.problems@.len() == 0
            },
            Some((reference, commit)) => plans_release(plan, input, reference, commit),
        },
{
    let scheme = input.entry.release_scheme();
    let mut plan = Plan {
        repo: input.repo.as_str().to_owned(),
        base_findings: input.double_cuts,
        release: None,
        parents: Vec::new(),
        stale: Vec::new(),
        pins: Vec::new(),
        notes: input.double_notes,
        problems: Vec::new(),
    };
    let (reference, commit) = match newest_release(input.tips, &scheme, input.entry.publish_remote()) {
        Some(tip) => tip,
        None => {
            let note = match &scheme {
                ReleaseScheme::Dated => "no dated release found; the first cut has nothing to repair".to_owned(),
                ReleaseScheme::Fixed(fixed) => {
                    let mut note = "fixed release branch ".to_owned();
                    note.append(fixed.as_str());
                    note.append(" has no cut yet; the first cut has nothing to repair");
                    note
                },
            };
            plan.notes.push(note);
            assert(views(plan.notes@) =~= views(input.double_notes@).push(no_release(scheme)));
            return plan;
        },
    };
    let written = reference.to_text();
    let trunk_name = input.entry.upstream_trunk();
    let trunk = input.graph.resolve(trunk_name.as_str());
    let base: Option<CommitId> = match trunk {
        Some(tip) => shared_base(commits_of_parents(input.parents).as_slice(), input.graph, tip, input.common),
        None => None,
    };
    let base_ref: Option<&CommitId> = match &base {
        Some(commit) => Some(commit),
        None => None,
    };
    let mut sorted = sort_parents(input.parents, input.graph, trunk, base_ref, input.trunks_known);
    let ghost doubles = views(plan.base_findings@);
    let ghost older = views(sorted.bases@);
    let ghost on_merge = views(sorted.stacked@);
    plan.base_findings.append(&mut sorted.bases);
    plan.base_findings.append(&mut sorted.stacked);
    assert(views(plan.base_findings@) =~= doubles + older + on_merge);
    plan.stale = stale_parents(sorted.members.as_slice(), input.tips);
    let branches = carried_from_tips(input.tips, input.entry.trunk(), &scheme);
    let about = LocalBranchNotes {
        reference: written.as_str(),
        release: &commit,
        graph: input.graph,
        trunks_known: input.trunks_known,
        standings: input.standings,
    };
    let mut notes = local_branch_notes(about, &branches);
    let ghost said = views(notes@);
    plan.notes.append(&mut notes);
    assert(views(plan.notes@) =~= views(input.double_notes@) + said);
    assert(said == plan_branches(input).filter_map(branch_note(about@)));
    plan.parents = list_parents(input.parents);
    plan.release = Some(reference.to_text());
    assert(views(plan.problems@) =~= Seq::empty());
    add_consumer_pins(&mut plan, input.slugs, input.locals);
    proof {
        assert(views(plan.problems@) =~= gathered(input.slugs@, problems_met()) + gathered(
            input.locals@,
            named_problems(),
        ));
        assert(plan.pins@ =~= gathered(input.slugs@, pins_found()) + gathered(input.locals@, pins_found()));
    }
    plan
}

/// A release lags the trunk exactly if both are known and the trunk's tip is no ancestor of it.
pub proof fn lemma_lag_is_a_missing_trunk(graph: CommitGraph, release: Option<Seq<char>>, trunk: Seq<char>)
    ensures
        lag_text(graph, release, trunk) is Some <==> release is Some && graph.commit(trunk) is Some && graph.commit(
            release->0,
        ) is Some && !graph.reaches(graph.commit(trunk)->0, graph.commit(release->0)->0),
        lag_text(graph, release, trunk) matches Some(text) ==> text == release->0
            + " does not contain the upstream trunk ("@ + short_text(graph.commit(trunk)->0) + ")"@,
{
}

/// The shared base of a release is the parent inside the trunk that contains every other such parent.
/// Where some parents are inside the trunk and none contains the others there is none, and where no
/// parent is inside the trunk it is the ancestor that they have in common.
pub proof fn lemma_shared_base(
    parents: Seq<Seq<char>>,
    graph: CommitGraph,
    trunk: Seq<char>,
    common: Option<Seq<char>>,
)
    ensures
        (forall|i: int| 0 <= i < parents.len() ==> !graph.reaches(#[trigger] parents[i], trunk)) ==> base_of(
            parents,
            graph,
            trunk,
            common,
        ) == common,
        (exists|i: int| 0 <= i < parents.len() && graph.reaches(#[trigger] parents[i], trunk)) && base_of(
            parents,
            graph,
            trunk,
            common,
        ) is Some ==> {
            let base = base_of(parents, graph, trunk, common)->0;
            &&& parents.contains(base)
            &&& graph.reaches(base, trunk)
            &&& forall|i: int|
                0 <= i < parents.len() && graph.reaches(#[trigger] parents[i], trunk) ==> parents[i] == base
                    || graph.reaches(parents[i], base)
        },
        forall|k: int|
            0 <= k < parents.len() && graph.reaches(#[trigger] parents[k], trunk) && (forall|i: int|
                0 <= i < parents.len() && graph.reaches(#[trigger] parents[i], trunk) ==> parents[i] == parents[k]
                    || graph.reaches(parents[i], parents[k])) ==> base_of(parents, graph, trunk, common) is Some,
{
    let inside = reaching(graph, trunk);
    let bases = parents.filter(inside);
    let newest = bases.filter(contains_all(graph, bases));
    if forall|i: int| 0 <= i < parents.len() ==> !graph.reaches(#[trigger] parents[i], trunk) {
        if bases.len() > 0 {
            lemma_filter_has(parents, inside, bases[0]);
            assert(bases.contains(bases[0]));
            let i = choose|i: int| 0 <= i < parents.len() && parents[i] == bases[0];
            assert(!graph.reaches(parents[i], trunk));
        }
        if newest.len() > 0 {
            lemma_filter_has(bases, contains_all(graph, bases), newest[0]);
            assert(newest.contains(newest[0]));
        }
    }
    if exists|i: int| 0 <= i < parents.len() && graph.reaches(#[trigger] parents[i], trunk) {
        let k = choose|k: int| 0 <= k < parents.len() && graph.reaches(#[trigger] parents[k], trunk);
        lemma_filter_has(parents, inside, parents[k]);
        assert(parents.contains(parents[k]));
        assert(bases.contains(parents[k]));
        if newest.len() > 0 {
            let base = newest[0];
            assert(newest.contains(base));
            lemma_filter_has(bases, contains_all(graph, bases), base);
            lemma_filter_has(parents, inside, base);
            assert forall|i: int| 0 <= i < parents.len() && graph.reaches(#[trigger] parents[i], trunk) implies parents[i]
                == base || graph.reaches(parents[i], base) by {
                lemma_filter_has(parents, inside, parents[i]);
                assert(parents.contains(parents[i]));
                let j = choose|j: int| 0 <= j < bases.len() && bases[j] == parents[i];
                assert(bases[j] == base || graph.reaches(bases[j], base));
            }
        }
    }
    assert forall|k: int|
        0 <= k < parents.len() && graph.reaches(#[trigger] parents[k], trunk) && (forall|i: int|
            0 <= i < parents.len() && graph.reaches(#[trigger] parents[i], trunk) ==> parents[i] == parents[k]
                || graph.reaches(parents[i], parents[k])) implies base_of(parents, graph, trunk, common) is Some by {
        let base = parents[k];
        assert(parents.contains(base));
        lemma_filter_has(parents, inside, base);
        assert forall|j: int| 0 <= j < bases.len() implies bases[j] == base || #[trigger] graph.reaches(bases[j], base) by {
            assert(bases.contains(bases[j]));
            lemma_filter_has(parents, inside, bases[j]);
            let i = choose|i: int| 0 <= i < parents.len() && parents[i] == bases[j];
            assert(graph.reaches(parents[i], trunk));
        }
        lemma_filter_has(bases, contains_all(graph, bases), base);
        let at = choose|at: int| 0 <= at < newest.len() && newest[at] == base;
        assert(newest.len() > 0);
    }
}

/// What is noted of a branch against a release: nothing exactly if the release contains its tip. One that
/// contains the release is stacked on it, and one whose history is known to be stacked is told so.
pub proof fn lemma_note_on_branch(input: NotesView, branch: String, tip: CommitId)
    ensures
        ({
            let note = branch_note(input)((branch, tip));
            let standing = standing_of(input.standings, branch@);
            let outside = !input.graph.reaches(tip@, input.release);
            let above = input.graph.reaches(input.release, tip@);
            let stacked = input.trunks_known && standing.stacked is Some;
            &&& note is None <==> !outside
            &&& outside && above ==> note == Some(
                branch@ + " is stacked on "@ + input.reference
                    + " rather than the trunk; rebase it off the trunk before including it"@,
            )
            &&& outside && !above && stacked ==> note == Some(
                standing.stacked->0.detail + "; rebase it off the trunk before including it"@,
            )
            &&& outside && !above && !stacked && standing.landed && standing.parents.len() == 0 ==> note == Some(
                branch@ + " is not in "@ + input.reference
                    + ": the trunk already has it, merged after the release's base; `knives release rebase` onto a trunk that has it brings it in"@,
            )
            &&& outside && !above && !stacked && !standing.landed && standing.parents.len() == 0 ==> note == Some(
                branch@ + " is not in "@ + input.reference + "; `knives release include "@ + branch@ + "` adds it"@,
            )
            &&& outside && !above && !stacked && !standing.landed && standing.parents.len() > 0
                && standing.evidence is Succession ==> note == Some(
                branch@ + " has advanced past its parent in "@ + input.reference + "; `knives release advance "@
                    + branch@ + "` moves it"@,
            )
        }),
{
}

/// The commits a cut keeps of a tip: a local branch that is no release, and nothing else.
pub proof fn lemma_kept_tips(scheme: ReleaseScheme, tip: (BookmarkRef, CommitId), conflict: (BookmarkRef, Vec<CommitId>))
    ensures
        work_tip(scheme)(tip) == (if tip.0 is Local && !release_name(tip.0@.branch(), scheme) {
            Some(tip.1@)
        } else {
            None
        }),
        conflict.0 is Local && !release_name(conflict.0@.branch(), scheme) ==> work_targets(scheme)(conflict)
            == views(conflict.1@),
        conflict.0 is Remote || release_name(conflict.0@.branch(), scheme) ==> work_targets(scheme)(conflict).len()
            == 0,
{
}

/// A parent inside the trunk is an older base exactly if the shared base is known and is another commit;
/// a parent outside it is a member and never one.
pub proof fn lemma_older_base(
    graph: CommitGraph,
    trunk: Option<Seq<char>>,
    base: Option<Seq<char>>,
    parent: PlanParentView,
)
    ensures
        is_member(graph, trunk)(parent) <==> trunk is None || !graph.reaches(parent.parent.commit, trunk->0),
        older_base(graph, trunk, base)(parent) is Some <==> trunk is Some && graph.reaches(
            parent.parent.commit,
            trunk->0,
        ) && base is Some && base->0 != parent.parent.commit,
        older_base(graph, trunk, base)(parent) matches Some(finding) ==> finding.kind == FindingKind::SupersededBase
            && finding.subject == SubjectView::Commit(parent.parent.commit),
{
}

/// That no consumer is recorded is said exactly if there is none of either kind.
pub proof fn lemma_no_consumers_is_said(slugs: nat, locals: nat)
    ensures
        no_consumers(slugs, locals).len() > 0 <==> slugs == 0 && locals == 0,
{
}

proof fn lemma_first_local(bookmarks: Seq<BookmarkView>)
    ensures
        match first_local(bookmarks) {
            Some(branch) => exists|i: int|
                0 <= i < bookmarks.len() && #[trigger] bookmarks[i] == BookmarkView::Local(branch) && forall|j: int|
                    0 <= j < i ==> !(#[trigger] bookmarks[j] is Local),
            None => forall|i: int| 0 <= i < bookmarks.len() ==> !(#[trigger] bookmarks[i] is Local),
        },
    decreases bookmarks.len(),
{
    if bookmarks.len() > 0 && !(bookmarks[0] is Local) {
        let rest = bookmarks.skip(1);
        lemma_first_local(rest);
        match first_local(bookmarks) {
            Some(branch) => {
                let i = choose|i: int|
                    0 <= i < rest.len() && #[trigger] rest[i] == BookmarkView::Local(branch) && forall|j: int|
                        0 <= j < i ==> !(#[trigger] rest[j] is Local);
                assert(bookmarks[i + 1] == rest[i]);
                assert forall|j: int| 0 <= j < i + 1 implies !(#[trigger] bookmarks[j] is Local) by {
                    if j > 0 {
                        assert(rest[j - 1] == bookmarks[j]);
                    }
                }
            },
            None => {
                assert forall|i: int| 0 <= i < bookmarks.len() implies !(#[trigger] bookmarks[i] is Local) by {
                    if i > 0 {
                        assert(rest[i - 1] == bookmarks[i]);
                    }
                }
            },
        }
    }
}

/// A parent is called by the first local bookmark that holds it, and by its commit where none does.
pub proof fn lemma_parent_is_called_by_its_branch(parent: ParentView)
    ensures
        (exists|i: int| 0 <= i < parent.bookmarks.len() && #[trigger] parent.bookmarks[i] is Local) ==> exists|i: int|
            0 <= i < parent.bookmarks.len() && #[trigger] parent.bookmarks[i] == BookmarkView::Local(
                parent_name(parent),
            ) && forall|j: int| 0 <= j < i ==> !(#[trigger] parent.bookmarks[j] is Local),
        (forall|i: int| 0 <= i < parent.bookmarks.len() ==> !(#[trigger] parent.bookmarks[i] is Local))
            ==> parent_name(parent) == short_text(parent.commit),
{
    lemma_first_local(parent.bookmarks);
}

/// What is noted of a branch that was released and is not in the release as it is now: by the record where it
/// was rewritten, by the landing of what was released, and that all of it landed where the trunk has it all.
pub proof fn lemma_note_on_released_branch(input: NotesView, branch: String, tip: CommitId)
    requires
        !input.graph.reaches(tip@, input.release),
        !input.graph.reaches(input.release, tip@),
        !(input.trunks_known && standing_of(input.standings, branch@).stacked is Some),
        standing_of(input.standings, branch@).parents.len() > 0,
    ensures
        ({
            let note = branch_note(input)((branch, tip));
            let standing = standing_of(input.standings, branch@);
            let parent = short_text(standing.parents[0]);
            &&& standing.landed ==> note == Some(
                branch@ + " was released as "@ + parent + " in "@ + input.reference
                    + " and the trunk now has the whole branch, tip included; `knives release rebase` retires the landed parent and brings the rest in"@,
            )
            &&& !standing.landed && standing.evidence is Record ==> note == Some(
                branch@ + " was released as "@ + parent + " in "@ + input.reference
                    + " and has since been rebased outside jj; `knives release advance "@ + branch@
                    + "` moves it through that record"@,
            )
            &&& !standing.landed && standing.evidence is LandedRecord ==> note == Some(
                branch@ + "'s released parent "@ + parent + " in "@ + input.reference
                    + " has landed upstream and the branch kept going; `knives release advance "@ + branch@
                    + "` moves it, `knives release rebase` retires the landed parent"@,
            )
        }),
{
}

/// A member stacked on a release merge is found exactly if one is told of it and every trunk is known.
pub proof fn lemma_stacked_member_is_found(parent: PlanParentView, trunks_known: bool)
    ensures
        stacked_member(trunks_known)(parent) is Some <==> trunks_known && parent.stacked is Some,
        stacked_member(trunks_known)(parent) is Some ==> stacked_member(trunks_known)(parent) == parent.stacked,
{
}

} // verus!
