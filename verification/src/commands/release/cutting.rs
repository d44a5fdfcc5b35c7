//! A cut: what it is made of, what it says of itself, and whether it is safe to name.

use vstd::prelude::*;
use vstd::string::*;

use crate::commands::wip::{workspace_for, workspace_of};
use crate::config::{scheme_of, trunk_of, RepoEntry, Role};
use crate::detect::landed::RebaseOutcome;
use crate::detect::stale_parents::BookmarkTips;
use crate::graph::CommitGraph;
use crate::ids::{BookmarkRef, CommitId, holds_commit, ReleaseScheme, short_text};
use crate::order::{lookup, OrdMap};
use crate::release_model::{carried, carried_from_tips, RecordedCut};
use crate::seqs::{
    group_seqs, lemma_filter_has, lemma_filter_map_has, lemma_filter_next, lemma_once, once, view_of, views,
};
use crate::text::{decimal, decimal_text, join, joined, lists, ranks, same};

verus! {

broadcast use group_seqs;

/// A cut that has been checked but not yet made.
#[derive(Debug, PartialEq, Eq)]
pub struct Cut {
    pub name: String,
    pub parents: Vec<CommitId>,
    /// Where each parent came from: the branch holding it, the trunk it descends from, or its own id
    /// when nothing else names it. Records provenance and pins nothing.
    pub provenance: Vec<(CommitId, String)>,
}

/// The commits of what is carried, one for each.
pub open spec fn carried_commits(carried: Seq<(String, CommitId)>) -> Seq<Seq<char>> {
    Seq::new(carried.len(), |i: int| carried[i].1@)
}

/// Where each parent came from.
pub open spec fn origins(carried: Seq<(String, CommitId)>) -> Seq<(Seq<char>, Seq<char>)> {
    Seq::new(carried.len(), |i: int| (carried[i].1@, carried[i].0@))
}

/// What a provenance says.
pub open spec fn provenance_views(provenance: Seq<(CommitId, String)>) -> Seq<(Seq<char>, Seq<char>)> {
    Seq::new(provenance.len(), |i: int| (provenance[i].0@, provenance[i].1@))
}

/// The lines of a cut's message.
pub open spec fn message_lines(name: Seq<char>, provenance: Seq<(Seq<char>, Seq<char>)>) -> Seq<Seq<char>> {
    seq!["release: "@ + name, ""@] + Seq::new(
        provenance.len(),
        |i: int| "parent "@ + provenance[i].0 + " from "@ + provenance[i].1,
    )
}

impl Cut {
    /// The cut for `carried`. A commit two bookmarks hold, a branch and an anchor left at its tip, is
    /// one parent, named twice in provenance.
    pub fn from_carried(name: String, carried: &[(String, CommitId)]) -> (cut: Self)
        ensures
            cut.name == name,
            views(cut.parents@) == once(carried_commits(carried@)),
            provenance_views(cut.provenance@) == origins(carried@),
    {
        let mut parents: Vec<CommitId> = Vec::new();
        let mut provenance: Vec<(CommitId, String)> = Vec::new();
        let ghost all = carried_commits(carried@);
        let ghost named = origins(carried@);
        let mut i: usize = 0;
        assert(provenance_views(provenance@) =~= named.take(0));
        while i < carried.len()
            invariant
                i <= carried@.len(),
                all == carried_commits(carried@),
                named == origins(carried@),
                views(parents@) == once(all.take(i as int)),
                provenance_views(provenance@) == named.take(i as int),
            decreases carried@.len() - i,
        {
            proof {
                assert(all.take(i + 1).drop_last() =~= all.take(i as int));
                assert(all.take(i + 1).last() == carried@[i as int].1@);
                lemma_once(all.take(i as int));
            }
            if !holds_commit(parents.as_slice(), &carried[i].1) {
                let ghost earlier = parents@;
                parents.push(carried[i].1.clone());
                assert(views(parents@) =~= views(earlier).push(carried@[i as int].1@));
            }
            let ghost before = provenance_views(provenance@);
            provenance.push((carried[i].1.clone(), carried[i].0.clone()));
            assert(provenance_views(provenance@) =~= before.push((carried@[i as int].1@, carried@[i as int].0@)));
            assert(provenance_views(provenance@) =~= named.take(i + 1));
            i += 1;
        }
        assert(named.take(i as int) =~= named);
        Cut { name, parents, provenance }
    }

    /// The message a cut carries, provenance included.
    pub fn message(&self) -> (text: String)
        ensures
            text@ == joined(message_lines(self.name@, provenance_views(self.provenance@)), "\n"@),
    {
        let mut lines: Vec<String> = Vec::new();
        let ghost all = message_lines(self.name@, provenance_views(self.provenance@));
        let mut head = "release: ".to_owned();
        head.append(self.name.as_str());
        lines.push(head);
        lines.push("".to_owned());
        assert(views(lines@) =~= all.take(2));
        let mut i: usize = 0;
        let count = self.provenance.len();
        while i < count
            invariant
                i <= count,
                count == self.provenance@.len(),
                all == message_lines(self.name@, provenance_views(self.provenance@)),
                views(lines@) == all.take(i + 2),
            decreases count - i,
        {
            let mut line = "parent ".to_owned();
            line.append(self.provenance[i].0.as_str());
            line.append(" from ");
            line.append(self.provenance[i].1.as_str());
            assert(line@ == all[i + 2]);
            let ghost earlier = lines@;
            lines.push(line);
            assert(views(lines@) =~= views(earlier).push(line@));
            assert(views(lines@) =~= all.take(i + 3));
            i += 1;
        }
        assert(all.take(i + 2) =~= all);
        join(&lines, "\n")
    }
}

/// The first branch of what is carried that stands at the commit.
pub open spec fn holder(carried: Seq<(String, CommitId)>, commit: Seq<char>) -> Option<Seq<char>>
    decreases carried.len(),
{
    if carried.len() == 0 {
        None
    } else if carried[0].1@ == commit {
        Some(carried[0].0@)
    } else {
        holder(carried.skip(1), commit)
    }
}

/// The upstream trunk as it is written.
pub open spec fn upstream_name(entry: RepoEntry) -> Seq<char> {
    trunk_of(entry) + "@"@ + Role::Upstream.label()
}

/// What names a parent: the branch holding it, the trunk it descends from, or its own id.
pub open spec fn source_of(
    commit: Seq<char>,
    branches: Seq<(String, CommitId)>,
    trunk: Seq<char>,
    graph: CommitGraph,
) -> Seq<char> {
    match holder(branches, commit) {
        Some(branch) => branch,
        None => match graph.commit(trunk) {
            Some(tip) => if graph.reaches(commit, tip) {
                trunk
            } else {
                short_text(commit)
            },
            None => short_text(commit),
        },
    }
}

fn find_holder(branches: &Vec<(String, CommitId)>, commit: &CommitId) -> (branch: Option<String>)
    ensures
        view_of(branch) == holder(branches@, commit@),
{
    let mut i: usize = 0;
    assert(branches@.skip(0) =~= branches@);
    while i < branches.len()
        invariant
            i <= branches@.len(),
            holder(branches@, commit@) == holder(branches@.skip(i as int), commit@),
        decreases branches@.len() - i,
    {
        assert(branches@.skip(i as int)[0] == branches@[i as int]);
        assert(branches@.skip(i as int).skip(1) =~= branches@.skip(i + 1));
        if branches[i].1.same(commit) {
            return Some(branches[i].0.clone());
        }
        i += 1;
    }
    None
}

/// What names each parent, and the parent.
pub open spec fn sources(
    parents: Seq<Seq<char>>,
    branches: Seq<(String, CommitId)>,
    trunk: Seq<char>,
    graph: CommitGraph,
) -> Seq<(Seq<char>, Seq<char>)> {
    Seq::new(parents.len(), |i: int| (source_of(parents[i], branches, trunk, graph), parents[i]))
}

/// What sources say.
pub open spec fn source_views(found: Seq<(String, CommitId)>) -> Seq<(Seq<char>, Seq<char>)> {
    Seq::new(found.len(), |i: int| (found[i].0@, found[i].1@))
}

/// Names each parent for the release description: the branch holding it, the trunk it descends from,
/// or its own id when nothing else does.
pub fn parent_sources(
    tips: &BookmarkTips,
    graph: &CommitGraph,
    entry: &RepoEntry,
    parents: &[CommitId],
) -> (found: Vec<(String, CommitId)>)
    ensures
        source_views(found@) == sources(
            views(parents@),
            tips@.filter_map(carried(trunk_of(*entry), scheme_of(*entry))),
            upstream_name(*entry),
            *graph,
        ),
{
    let branches = carried_from_tips(tips, entry.trunk(), &entry.release_scheme());
    let trunk = entry.upstream_trunk();
    let tip = graph.resolve(trunk.as_str());
    let ghost all = sources(views(parents@), branches@, trunk@, *graph);
    let mut found: Vec<(String, CommitId)> = Vec::new();
    let mut i: usize = 0;
    assert(source_views(found@) =~= all.take(0));
    while i < parents.len()
        invariant
            i <= parents@.len(),
            view_of(tip) == graph.commit(trunk@),
            all == sources(views(parents@), branches@, trunk@, *graph),
            source_views(found@) == all.take(i as int),
        decreases parents@.len() - i,
    {
        let commit = &parents[i];
        let source = match find_holder(&branches, commit) {
            Some(branch) => branch,
            None => {
                let landed = match tip {
                    Some(tip) => graph.is_ancestor(commit, tip),
                    None => false,
                };
                if landed {
                    trunk.clone()
                } else {
                    commit.short()
                }
            },
        };
        assert(all[i as int] == (source@, commit@));
        let ghost before = source_views(found@);
        found.push((source, commit.clone()));
        assert(source_views(found@) =~= before.push((source@, commit@)));
        assert(source_views(found@) =~= all.take(i + 1));
        i += 1;
    }
    assert(all.take(i as int) =~= all);
    found
}

/// The description of a release after a write.
///
/// A cut's message from the parents' provenance, so that an edited or rebased release reads exactly
/// like a fresh cut, then what the write changed as its own paragraph.
pub fn composition_message(name: &str, provenance: &[(String, CommitId)], delta: &str) -> (text: String)
    ensures
        text@ == joined(message_lines(name@, origins(provenance@)), "\n"@) + "\n\n"@ + delta@,
{
    let mut text = Cut::from_carried(name.to_owned(), provenance).message();
    text.append("\n\n");
    text.append(delta);
    text
}

/// The checks after construction that determine whether a cut is safe to name.
#[derive(Debug, PartialEq, Eq)]
pub struct CutAudit {
    pub missing: Vec<String>,
    pub unexplained: Vec<String>,
    pub inconclusive: Vec<String>,
    /// Members the cut diverges from exactly as the previous release already did: a recorded
    /// conflict resolution, published and deliberate. Reported, never refused: the audit charges a
    /// cut only with divergence it introduces.
    pub carried: Vec<String>,
}

impl Default for CutAudit {
    fn default() -> (audit: Self)
        ensures
            audit.missing@.len() == 0,
            audit.unexplained@.len() == 0,
            audit.inconclusive@.len() == 0,
            audit.carried@.len() == 0,
    {
        CutAudit { missing: Vec::new(), unexplained: Vec::new(), inconclusive: Vec::new(), carried: Vec::new() }
    }
}

impl CutAudit {
    /// Whether the cut is safe to name: no member is missing, and no change is unexplained.
    pub fn passed(&self) -> (r: bool)
        ensures
            r == (self.missing@.len() == 0 && self.unexplained@.len() == 0),
    {
        self.missing.len() == 0 && self.unexplained.len() == 0
    }
}

/// A member and what was learned by replaying it.
#[derive(Debug, PartialEq, Eq)]
pub struct AuditedMember {
    pub name: String,
    /// What replaying its content onto the cut gave.
    pub replay: RebaseOutcome,
    /// What replaying its content onto the previous release gave, where there is one.
    pub before: RebaseOutcome,
    /// The files it changes against the previous release, where there is one.
    pub changed: Vec<String>,
}

/// What changed since the previous release.
#[derive(Debug, PartialEq, Eq)]
pub struct Drift {
    /// The files that differ between the previous release and the cut.
    pub drifted: Vec<String>,
    /// The files that the trunk changes against the previous release.
    pub trunk_changed: Vec<String>,
}

/// What a cut is audited against.
#[derive(Debug, Clone, Copy)]
pub struct AuditContext<'a> {
    /// Whether the cut itself has unresolved conflicts.
    pub conflicted: bool,
    /// What changed since the previous release; absent where there is none.
    pub previous: Option<&'a Drift>,
}

/// What an audit says of a member.
pub enum Standing {
    Present,
    Inconclusive,
    Carried,
    Missing,
}

/// What an audit says of a member. An empty replay means its content is present. A conflicted one
/// answers nothing where the cut itself is conflicted. Divergence that the previous release already
/// carried is a recorded resolution, and anything else is a loss.
pub open spec fn standing(member: AuditedMember, conflicted: bool, has_previous: bool) -> Standing {
    if member.replay == RebaseOutcome::Empty {
        Standing::Present
    } else if member.replay == RebaseOutcome::Conflicted && conflicted {
        Standing::Inconclusive
    } else if has_previous && member.before != RebaseOutcome::Empty {
        Standing::Carried
    } else {
        Standing::Missing
    }
}

/// The names of the members that stand so.
pub open spec fn standing_as(
    wanted: Standing,
    conflicted: bool,
    has_previous: bool,
) -> spec_fn(AuditedMember) -> Option<Seq<char>> {
    |member: AuditedMember|
        if standing(member, conflicted, has_previous) == wanted {
            Some(member.name@)
        } else {
            None
        }
}

/// Whether some member or the trunk explains a change of the file.
pub open spec fn explained(file: Seq<char>, members: Seq<AuditedMember>, drift: Drift) -> bool {
    views(drift.trunk_changed@).contains(file) || exists|i: int|
        0 <= i < members.len() && #[trigger] views(members[i].changed@).contains(file)
}

/// The files whose change nothing explains.
pub open spec fn unexplained_files(members: Seq<AuditedMember>, previous: Option<Drift>) -> Seq<Seq<char>> {
    match previous {
        None => Seq::empty(),
        Some(drift) => views(drift.drifted@).filter(|file: Seq<char>| !explained(file, members, drift)),
    }
}

fn is_explained(file: &str, members: &[AuditedMember], drift: &Drift) -> (r: bool)
    ensures
        r == explained(file@, members@, *drift),
{
    if lists(&drift.trunk_changed, file) {
        return true;
    }
    let mut i: usize = 0;
    while i < members.len()
        invariant
            i <= members@.len(),
            forall|j: int| 0 <= j < i ==> !(#[trigger] views(members@[j].changed@).contains(file@)),
        decreases members@.len() - i,
    {
        if lists(&members[i].changed, file) {
            return true;
        }
        i += 1;
    }
    false
}

fn unexplained(members: &[AuditedMember], drift: &Drift) -> (files: Vec<String>)
    ensures
        views(files@) == unexplained_files(members@, Some(*drift)),
{
    let mut files: Vec<String> = Vec::new();
    let ghost all = views(drift.drifted@);
    let ghost keep = |file: Seq<char>| !explained(file, members@, *drift);
    let mut i: usize = 0;
    while i < drift.drifted.len()
        invariant
            i <= drift.drifted@.len(),
            all == views(drift.drifted@),
            keep == (|file: Seq<char>| !explained(file, members@, *drift)),
            views(files@) == all.take(i as int).filter(keep),
        decreases drift.drifted@.len() - i,
    {
        proof {
            lemma_filter_next(all, keep, i as int);
            assert(all[i as int] == drift.drifted@[i as int]@);
        }
        if !is_explained(drift.drifted[i].as_str(), members, drift) {
            files.push(drift.drifted[i].clone());
        }
        i += 1;
    }
    files
}

/// What an option of a drift points at.
pub open spec fn drift_of(previous: Option<&Drift>) -> Option<Drift> {
    match previous {
        Some(drift) => Some(*drift),
        None => None,
    }
}

/// Verifies that a cut actually contains what it merged.
///
/// For each member the diff from the trunk to its tip is replayed onto the cut. An empty replay means
/// its hunks are present; a clean, non-empty replay means the cut silently lacks them. Changes from
/// the previous release that no member and no trunk explains are drift that the merge invented.
pub fn audit_cut(members: &[AuditedMember], context: AuditContext) -> (audit: CutAudit)
    ensures
        ({
            let conflicted = context.conflicted;
            let has_previous = context.previous is Some;
            &&& views(audit.missing@) == members@.filter_map(standing_as(Standing::Missing, conflicted, has_previous))
            &&& views(audit.inconclusive@) == members@.filter_map(
                standing_as(Standing::Inconclusive, conflicted, has_previous),
            )
            &&& views(audit.carried@) == members@.filter_map(standing_as(Standing::Carried, conflicted, has_previous))
            &&& views(audit.unexplained@) == unexplained_files(members@, drift_of(context.previous))
        }),
{
    let mut audit = CutAudit::default();
    let conflicted = context.conflicted;
    let has_previous = context.previous.is_some();
    let ghost missing = standing_as(Standing::Missing, conflicted, has_previous);
    let ghost inconclusive = standing_as(Standing::Inconclusive, conflicted, has_previous);
    let ghost carried = standing_as(Standing::Carried, conflicted, has_previous);
    let mut i: usize = 0;
    assert(views(audit.missing@) =~= Seq::empty());
    assert(views(audit.inconclusive@) =~= Seq::empty());
    assert(views(audit.carried@) =~= Seq::empty());
    while i < members.len()
        invariant
            i <= members@.len(),
            missing == standing_as(Standing::Missing, conflicted, has_previous),
            inconclusive == standing_as(Standing::Inconclusive, conflicted, has_previous),
            carried == standing_as(Standing::Carried, conflicted, has_previous),
            audit.unexplained@.len() == 0,
            views(audit.missing@) == members@.take(i as int).filter_map(missing),
            views(audit.inconclusive@) == members@.take(i as int).filter_map(inconclusive),
            views(audit.carried@) == members@.take(i as int).filter_map(carried),
        decreases members@.len() - i,
    {
        proof {
            members@.lemma_filter_map_take_succ(missing, i as int);
            members@.lemma_filter_map_take_succ(inconclusive, i as int);
            members@.lemma_filter_map_take_succ(carried, i as int);
        }
        let member = &members[i];
        if member.replay == RebaseOutcome::Empty {
        } else if member.replay == RebaseOutcome::Conflicted && conflicted {
            audit.inconclusive.push(member.name.clone());
        } else if has_previous && member.before != RebaseOutcome::Empty {
            audit.carried.push(member.name.clone());
        } else {
            audit.missing.push(member.name.clone());
        }
        proof {
            assert(views(audit.missing@) =~= members@.take(i + 1).filter_map(missing));
            assert(views(audit.inconclusive@) =~= members@.take(i + 1).filter_map(inconclusive));
            assert(views(audit.carried@) =~= members@.take(i + 1).filter_map(carried));
        }
        i += 1;
    }
    match context.previous {
        Some(drift) => {
            audit.unexplained = unexplained(members, drift);
        },
        None => {
            assert(views(audit.unexplained@) =~= Seq::empty());
        },
    }
    audit
}

/// A workspace none of the branches lives in. The default one always stays: reaping it would delete
/// the checkout somebody is standing in.
pub open spec fn abandoned(branches: Seq<Seq<char>>) -> spec_fn(Seq<char>) -> bool {
    |workspace: Seq<char>|
        workspace != "default"@ && !(exists|i: int|
            0 <= i < branches.len() && workspace == #[trigger] workspace_of(branches[i]))
}

/// Workspaces with no branch left among `branches`.
///
/// They are cheap to create, which is why they accumulate; nothing else reaps them. What counts as
/// left is the caller's list, so a cut can decide whether a branch it did not carry still has a
/// bookmark holding it.
pub fn workspaces_to_clean(workspaces: &[String], branches: &[String]) -> (found: Vec<String>)
    ensures
        views(found@) == views(workspaces@).filter(abandoned(views(branches@))),
{
    let mut found: Vec<String> = Vec::new();
    let ghost all = views(workspaces@);
    let ghost keep = abandoned(views(branches@));
    let mut i: usize = 0;
    while i < workspaces.len()
        invariant
            i <= workspaces@.len(),
            all == views(workspaces@),
            keep == abandoned(views(branches@)),
            views(found@) == all.take(i as int).filter(keep),
        decreases workspaces@.len() - i,
    {
        proof {
            lemma_filter_next(all, keep, i as int);
            assert(all[i as int] == workspaces@[i as int]@);
        }
        if !same(workspaces[i].as_str(), "default") && !houses(workspaces[i].as_str(), branches) {
            found.push(workspaces[i].clone());
        }
        i += 1;
    }
    found
}

fn houses(workspace: &str, branches: &[String]) -> (r: bool)
    ensures
        r == exists|i: int|
            0 <= i < branches@.len() && workspace@ == #[trigger] workspace_of(views(branches@)[i]),
{
    let mut i: usize = 0;
    while i < branches.len()
        invariant
            i <= branches@.len(),
            forall|j: int| 0 <= j < i ==> workspace@ != #[trigger] workspace_of(views(branches@)[j]),
        decreases branches@.len() - i,
    {
        let name = workspace_for(branches[i].as_str());
        if same(workspace, name.as_str()) {
            assert(workspace@ == workspace_of(views(branches@)[i as int]));
            return true;
        }
        i += 1;
    }
    false
}

/// Why a cut that came out with other parents than asked for is refused.
pub open spec fn parent_refusal(name: Seq<char>, made: nat, asked: nat) -> Seq<char> {
    "cut "@ + name + " came out with "@ + decimal_text(made) + " parents, expected "@ + decimal_text(asked)
        + "; refusing to name it"@
}

/// Whether a candidate has exactly the parents asked for.
///
/// The guard catches a silent failure: a cut that dropped a parent looks exactly like one that did
/// not, until work goes missing downstream.
pub fn candidate_cut(request: &Cut, parent_count: usize) -> (checked: Result<(), String>)
    ensures
        match checked {
            Ok(_) => parent_count == request.parents@.len(),
            Err(refusal) => parent_count != request.parents@.len() && refusal@ == parent_refusal(
                request.name@,
                parent_count as nat,
                request.parents@.len(),
            ),
        },
{
    if parent_count == request.parents.len() {
        return Ok(());
    }
    let mut refusal = "cut ".to_owned();
    refusal.append(request.name.as_str());
    refusal.append(" came out with ");
    refusal.append(decimal(parent_count as u64).as_str());
    refusal.append(" parents, expected ");
    refusal.append(decimal(request.parents.len() as u64).as_str());
    refusal.append("; refusing to name it");
    Err(refusal)
}

/// Where a bookmark may move.
#[derive(Debug, Clone, Copy, PartialEq, Eq, Structural)]
pub enum BookmarkMotion {
    /// Only to a descendant of where it stands.
    ForwardOnly,
    Anywhere,
}

/// How a cut is published: in one operation that makes it and points its name at it.
#[derive(Debug, PartialEq, Eq)]
pub struct Publication {
    pub name: String,
    pub motion: BookmarkMotion,
    /// What the operation is called.
    pub operation: String,
}

/// Whether a publication is that of a cut of the name under the scheme.
pub open spec fn publishes(publication: Publication, name: Seq<char>, scheme: ReleaseScheme) -> bool {
    &&& publication.name@ == name
    &&& publication.motion == (if scheme is Dated {
        BookmarkMotion::ForwardOnly
    } else {
        BookmarkMotion::Anywhere
    })
    &&& publication.operation@ == "knives: cut "@ + name
}

/// How a cut is published.
///
/// Dated cuts retain ordinary bookmark-movement protection because each name records a new release.
/// Fixed cuts deliberately move their existing release name, which may already exist on the remote.
pub fn publish_cut(name: &str, scheme: &ReleaseScheme) -> (publication: Publication)
    ensures
        publishes(publication, name@, *scheme),
{
    let motion = match scheme {
        ReleaseScheme::Dated => BookmarkMotion::ForwardOnly,
        ReleaseScheme::Fixed(_) => BookmarkMotion::Anywhere,
    };
    let mut operation = "knives: cut ".to_owned();
    operation.append(name);
    Publication { name: name.to_owned(), motion, operation }
}

/// Names a fresh cut without an audit: checks its parents, then says how it is published.
pub fn cut(request: &Cut, scheme: &ReleaseScheme, parent_count: usize) -> (publication: Result<Publication, String>)
    ensures
        match publication {
            Ok(publication) => parent_count == request.parents@.len() && publishes(
                publication,
                request.name@,
                *scheme,
            ),
            Err(refusal) => parent_count != request.parents@.len() && refusal@ == parent_refusal(
                request.name@,
                parent_count as nat,
                request.parents@.len(),
            ),
        },
{
    match candidate_cut(request, parent_count) {
        Ok(_) => Ok(publish_cut(request.name.as_str(), scheme)),
        Err(refusal) => Err(refusal),
    }
}

/// A recorded member whose carry check answered nothing either way.
#[derive(Debug, PartialEq, Eq)]
pub struct Unverified {
    /// Carried into the new cut event's evidence, so that the next gate rechecks it.
    pub commit: CommitId,
    /// The branch still holding the commit when one does.
    pub name: String,
}

impl View for Unverified {
    type V = (Seq<char>, Seq<char>);

    open spec fn view(&self) -> (Seq<char>, Seq<char>) {
        (self.commit@, self.name@)
    }
}

/// How a candidate cut relates to the previous cut's recorded composition.
#[derive(Debug, PartialEq, Eq)]
pub struct CompositionCheck {
    /// Recorded members whose content the candidate does not carry.
    pub dropped: Vec<String>,
    /// Members whose replay conflicted while the candidate itself is conflicted: unanswerable either
    /// way, exactly as the audit reports it.
    pub inconclusive: Vec<Unverified>,
}

impl Default for CompositionCheck {
    fn default() -> (check: Self)
        ensures
            check.dropped@.len() == 0,
            check.inconclusive@.len() == 0,
    {
        CompositionCheck { dropped: Vec::new(), inconclusive: Vec::new() }
    }
}

/// What the composition gate compares: the candidate against the members that the previous cut's
/// ledger event recorded.
#[derive(Clone, Copy)]
pub struct CompositionDelta<'a> {
    pub recorded: &'a RecordedCut,
    /// The candidate's parents.
    pub parents: &'a [CommitId],
    /// What every current member forks from. A recorded member that is an ancestor of it entered the
    /// candidate through the base.
    pub base: &'a CommitId,
    /// The upstream trunk tip. A member reachable from it but not from the base or any parent landed
    /// upstream past what the candidate ships: the trunk carries it, this cut does not.
    pub trunk: &'a CommitId,
    pub tips: &'a BookmarkTips,
    pub graph: &'a CommitGraph,
    /// Whether the candidate itself has unresolved conflicts.
    pub conflicted: bool,
    /// What replaying each member from its own fork point onto the candidate gave.
    pub replays: &'a OrdMap<CommitId, RebaseOutcome>,
}

/// The fork point that a member is replayed from: what it shares with the trunk, or the trunk where
/// they share nothing.
pub fn replay_base(common: Option<&CommitId>, trunk: &CommitId) -> (base: CommitId)
    ensures
        base@ == (match common {
            Some(commit) => commit@,
            None => trunk@,
        }),
{
    match common {
        Some(commit) => commit.clone(),
        None => trunk.clone(),
    }
}

/// The first local branch that stands at the commit.
pub open spec fn local_holder(tips: Seq<(BookmarkRef, CommitId)>, commit: Seq<char>) -> Option<Seq<char>>
    decreases tips.len(),
{
    if tips.len() == 0 {
        None
    } else if tips[0].0@ is Local && tips[0].1@ == commit {
        Some(tips[0].0@.branch())
    } else {
        local_holder(tips.skip(1), commit)
    }
}

/// A member as it is named: the branch holding it and its commit, or its commit alone.
pub open spec fn member_name(tips: Seq<(BookmarkRef, CommitId)>, commit: Seq<char>) -> Seq<char> {
    match local_holder(tips, commit) {
        Some(branch) => branch + "@"@ + short_text(commit),
        None => short_text(commit),
    }
}

/// A member as it is named: the branch holding it and its commit, or its commit alone.
pub fn recorded_member_name(commit: &CommitId, tips: &BookmarkTips) -> (name: String)
    ensures
        name@ == member_name(tips@, commit@),
{
    let mut i: usize = 0;
    assert(tips@.skip(0) =~= tips@);
    while i < tips.len()
        invariant
            i <= tips@.len(),
            local_holder(tips@, commit@) == local_holder(tips@.skip(i as int), commit@),
        decreases tips@.len() - i,
    {
        assert(tips@.skip(i as int)[0] == tips@[i as int]);
        assert(tips@.skip(i as int).skip(1) =~= tips@.skip(i + 1));
        if let BookmarkRef::Local(branch) = tips.key(i) {
            if tips.value(i).same(commit) {
                let mut name = branch.text.clone();
                name.append("@");
                name.append(commit.short().as_str());
                return name;
            }
        }
        i += 1;
    }
    commit.short()
}

/// What became of a recorded member.
pub enum Fate {
    Carried,
    Dropped(Seq<char>),
    Unanswered(Seq<char>, Seq<char>),
}

/// Whether the candidate reaches a member through its base or one of its parents.
pub open spec fn entered(delta: CompositionDelta, member: Seq<char>) -> bool {
    delta.graph.reaches(member, delta.base@) || exists|i: int|
        0 <= i < delta.parents@.len() && #[trigger] delta.graph.reaches(member, delta.parents@[i]@)
}

/// What became of a recorded member. One that nothing verifies is dropped: unverifiable must not read
/// as carried.
pub open spec fn fate(delta: CompositionDelta, member: Seq<char>) -> Fate {
    if views(delta.parents@).contains(member) {
        Fate::Carried
    } else if delta.graph.commit(member) is None {
        Fate::Dropped(short_text(member) + " (not known to this repository)"@)
    } else if entered(delta, member) {
        Fate::Carried
    } else if delta.graph.reaches(member, delta.trunk@) {
        Fate::Dropped(member_name(delta.tips@, member))
    } else {
        match lookup(delta.replays@, ranks(member)) {
            Some(RebaseOutcome::Empty) => Fate::Carried,
            Some(RebaseOutcome::Conflicted) => if delta.conflicted {
                Fate::Unanswered(member, member_name(delta.tips@, member))
            } else {
                Fate::Dropped(member_name(delta.tips@, member))
            },
            _ => Fate::Dropped(member_name(delta.tips@, member)),
        }
    }
}

/// The name of a recorded member that was dropped.
pub open spec fn dropped_member(delta: CompositionDelta) -> spec_fn(Seq<char>) -> Option<Seq<char>> {
    |member: Seq<char>|
        match fate(delta, member) {
            Fate::Dropped(name) => Some(name),
            _ => None,
        }
}

/// A recorded member of which nothing could be said.
pub open spec fn unanswered_member(delta: CompositionDelta) -> spec_fn(Seq<char>) -> Option<(Seq<char>, Seq<char>)> {
    |member: Seq<char>|
        match fate(delta, member) {
            Fate::Unanswered(commit, name) => Some((commit, name)),
            _ => None,
        }
}

fn has_entered(delta: CompositionDelta, member: &CommitId) -> (r: bool)
    ensures
        r == entered(delta, member@),
{
    if delta.graph.is_ancestor(member, delta.base) {
        return true;
    }
    let mut i: usize = 0;
    while i < delta.parents.len()
        invariant
            i <= delta.parents@.len(),
            !delta.graph.reaches(member@, delta.base@),
            forall|j: int| 0 <= j < i ==> !(#[trigger] delta.graph.reaches(member@, delta.parents@[j]@)),
        decreases delta.parents@.len() - i,
    {
        if delta.graph.is_ancestor(member, &delta.parents[i]) {
            return true;
        }
        i += 1;
    }
    false
}

/// Whether only a replay can tell what became of a recorded member.
pub open spec fn needs_replay(delta: CompositionDelta, member: Seq<char>) -> bool {
    !views(delta.parents@).contains(member) && delta.graph.commit(member) is Some && !entered(delta, member)
        && !delta.graph.reaches(member, delta.trunk@)
}

/// Whether only a replay can tell what became of a recorded member: it is known, and neither identity
/// nor ancestry accounts for it.
pub fn rests_on_replay(delta: CompositionDelta, member: &CommitId) -> (r: bool)
    ensures
        r == needs_replay(delta, member@),
{
    !holds_commit(delta.parents, member) && delta.graph.resolve(member.as_str()).is_some() && !has_entered(
        delta,
        member,
    ) && !delta.graph.is_ancestor(member, delta.trunk)
}

/// Recorded members of the previous cut that the candidate does not carry.
///
/// Identity and ancestry account for a member that is still a parent, was advanced past, or entered
/// through the candidate's base; the replay of its content accounts for one that landed upstream as a
/// squash. A member the trunk reaches but the candidate does not is dropped without a replay: its
/// fork point degenerates to the member itself, and that replay would read empty without consulting
/// the candidate at all.
pub fn uncarried_recorded_members(delta: CompositionDelta) -> (check: CompositionCheck)
    ensures
        views(check.dropped@) == views(delta.recorded.members@).filter_map(dropped_member(delta)),
        views(check.inconclusive@) == views(delta.recorded.members@).filter_map(unanswered_member(delta)),
{
    let mut check = CompositionCheck::default();
    let ghost all = views(delta.recorded.members@);
    let members = &delta.recorded.members;
    let mut i: usize = 0;
    assert(views(check.dropped@) =~= Seq::empty());
    assert(views(check.inconclusive@) =~= Seq::empty());
    while i < members.len()
        invariant
            i <= members@.len(),
            *members == delta.recorded.members,
            all == views(delta.recorded.members@),
            views(check.dropped@) == all.take(i as int).filter_map(dropped_member(delta)),
            views(check.inconclusive@) == all.take(i as int).filter_map(unanswered_member(delta)),
        decreases members@.len() - i,
    {
        proof {
            all.lemma_filter_map_take_succ(dropped_member(delta), i as int);
            all.lemma_filter_map_take_succ(unanswered_member(delta), i as int);
            assert(all[i as int] == members@[i as int]@);
        }
        let member = &members[i];
        if holds_commit(delta.parents, member) {
        } else if delta.graph.resolve(member.as_str()).is_none() {
            let mut name = member.short();
            name.append(" (not known to this repository)");
            check.dropped.push(name);
        } else if has_entered(delta, member) {
        } else if delta.graph.is_ancestor(member, delta.trunk) {
            check.dropped.push(recorded_member_name(member, delta.tips));
        } else {
            let replay: Option<RebaseOutcome> = match delta.replays.get(member) {
                Some(outcome) => Some(*outcome),
                None => None,
            };
            match replay {
                Some(RebaseOutcome::Empty) => {},
                Some(RebaseOutcome::Conflicted) => {
                    if delta.conflicted {
                        check.inconclusive.push(
                            Unverified { commit: member.clone(), name: recorded_member_name(member, delta.tips) },
                        );
                    } else {
                        check.dropped.push(recorded_member_name(member, delta.tips));
                    }
                },
                _ => {
                    check.dropped.push(recorded_member_name(member, delta.tips));
                },
            }
        }
        proof {
            assert(views(check.dropped@) =~= all.take(i + 1).filter_map(dropped_member(delta)));
            assert(views(check.inconclusive@) =~= all.take(i + 1).filter_map(unanswered_member(delta)));
        }
        i += 1;
    }
    check
}

/// A member that is still a parent of the candidate is never reported.
pub proof fn lemma_parent_is_carried(delta: CompositionDelta, member: Seq<char>)
    requires
        views(delta.parents@).contains(member),
    ensures
        fate(delta, member) is Carried,
{
}

/// A member that this repository does not know is never read as carried, unless it is a parent.
pub proof fn lemma_unknown_is_dropped(delta: CompositionDelta, member: Seq<char>)
    requires
        delta.graph.commit(member) is None,
        !views(delta.parents@).contains(member),
    ensures
        fate(delta, member) is Dropped,
{
}

/// The default workspace is never cleaned, whatever branches are left.
pub proof fn lemma_default_workspace_stays(workspaces: Seq<Seq<char>>, branches: Seq<Seq<char>>)
    ensures
        !workspaces.filter(abandoned(branches)).contains("default"@),
{
    broadcast use vstd::seq_lib::group_filter_ensures;

    let found = workspaces.filter(abandoned(branches));
    if found.contains("default"@) {
        let i = choose|i: int| 0 <= i < found.len() && found[i] == "default"@;
        assert(abandoned(branches)(found[i]));
    }
}

/// A workspace that a branch lives in is never cleaned.
pub proof fn lemma_housed_workspace_stays(workspaces: Seq<Seq<char>>, branches: Seq<Seq<char>>, branch: Seq<char>)
    requires
        branches.contains(branch),
    ensures
        !workspaces.filter(abandoned(branches)).contains(workspace_of(branch)),
{
    broadcast use vstd::seq_lib::group_filter_ensures;

    let found = workspaces.filter(abandoned(branches));
    let k = choose|k: int| 0 <= k < branches.len() && branches[k] == branch;
    assert(workspace_of(branch) == workspace_of(branches[k]));
    if found.contains(workspace_of(branch)) {
        let i = choose|i: int| 0 <= i < found.len() && found[i] == workspace_of(branch);
        assert(abandoned(branches)(found[i]));
    }
}

/// An audit sorts every member whose content is not simply present into one bucket and no other.
pub proof fn lemma_one_bucket(member: AuditedMember, conflicted: bool, has_previous: bool)
    ensures
        member.replay == RebaseOutcome::Empty <==> standing(member, conflicted, has_previous) is Present,
        member.replay == RebaseOutcome::Conflicted && conflicted <==> standing(
            member,
            conflicted,
            has_previous,
        ) is Inconclusive,
        !has_previous ==> !(standing(member, conflicted, has_previous) is Carried),
{
}

/// A cut has every carried commit as a parent, and none of them twice.
pub proof fn lemma_cut_parents(carried: Seq<(String, CommitId)>)
    ensures
        once(carried_commits(carried)).no_duplicates(),
        forall|i: int| 0 <= i < carried.len() ==> once(carried_commits(carried)).contains((#[trigger] carried[i]).1@),
{
    let all = carried_commits(carried);
    lemma_once(all);
    assert forall|i: int| 0 <= i < carried.len() implies once(all).contains((#[trigger] carried[i]).1@) by {
        assert(all[i] == carried[i].1@);
        assert(all.contains(carried[i].1@));
    }
}

/// Which members an audit names, and where. A member whose content the cut holds is named nowhere.
/// One whose replay is conflicted in a conflicted cut is inconclusive. Any other one is carried where
/// there is a previous release that did not hold it whole either, and missing where there is none or
/// it did: a member that the previous release held whole and the cut does not is missing, whether or
/// not the cut has conflicts.
pub proof fn lemma_audit_names_losses(
    members: Seq<AuditedMember>,
    conflicted: bool,
    has_previous: bool,
    name: Seq<char>,
)
    ensures
        members.filter_map(standing_as(Standing::Missing, conflicted, has_previous)).contains(name) <==> exists|i: int|
            0 <= i < members.len() && (#[trigger] members[i]).name@ == name && members[i].replay
                != RebaseOutcome::Empty && !(conflicted && members[i].replay == RebaseOutcome::Conflicted) && (
            !has_previous || members[i].before == RebaseOutcome::Empty),
        members.filter_map(standing_as(Standing::Carried, conflicted, has_previous)).contains(name) <==> exists|i: int|
            0 <= i < members.len() && (#[trigger] members[i]).name@ == name && members[i].replay
                != RebaseOutcome::Empty && !(conflicted && members[i].replay == RebaseOutcome::Conflicted)
                && has_previous && members[i].before != RebaseOutcome::Empty,
        members.filter_map(standing_as(Standing::Inconclusive, conflicted, has_previous)).contains(name) <==> exists|
            i: int,
        |
            0 <= i < members.len() && (#[trigger] members[i]).name@ == name && conflicted && members[i].replay
                == RebaseOutcome::Conflicted,
{
    lemma_filter_map_has(members, standing_as(Standing::Missing, conflicted, has_previous), name);
    lemma_filter_map_has(members, standing_as(Standing::Carried, conflicted, has_previous), name);
    lemma_filter_map_has(members, standing_as(Standing::Inconclusive, conflicted, has_previous), name);
}

/// The members whose replay onto the cut leaves something.
pub open spec fn left_over() -> spec_fn(AuditedMember) -> bool {
    |member: AuditedMember| member.replay != RebaseOutcome::Empty
}

/// An audit names every member whose replay onto the cut leaves something once, and no other: as many
/// are missing, carried and inconclusive together as there are such members.
pub proof fn lemma_audit_names_each_once(members: Seq<AuditedMember>, conflicted: bool, has_previous: bool)
    ensures
        members.filter_map(standing_as(Standing::Missing, conflicted, has_previous)).len() + members.filter_map(
            standing_as(Standing::Carried, conflicted, has_previous),
        ).len() + members.filter_map(standing_as(Standing::Inconclusive, conflicted, has_previous)).len()
            == members.filter(left_over()).len(),
    decreases members.len(),
{
    reveal(Seq::filter);
    if members.len() > 0 {
        lemma_audit_names_each_once(members.drop_last(), conflicted, has_previous);
    }
}

/// A change since the previous release is unexplained exactly if neither the trunk nor any member
/// makes it; without a previous release no change is.
pub proof fn lemma_unexplained_is_nobodys(
    members: Seq<AuditedMember>,
    previous: Option<Drift>,
    file: Seq<char>,
)
    ensures
        unexplained_files(members, previous).contains(file) <==> previous is Some && views(
            previous->0.drifted@,
        ).contains(file) && !views(previous->0.trunk_changed@).contains(file) && (forall|i: int|
            0 <= i < members.len() ==> !views((#[trigger] members[i]).changed@).contains(file)),
{
    if let Some(drift) = previous {
        let nobodys = |path: Seq<char>| !explained(path, members, drift);
        lemma_filter_has(views(drift.drifted@), nobodys, file);
        if forall|i: int| 0 <= i < members.len() ==> !views((#[trigger] members[i]).changed@).contains(file) {
            assert forall|i: int| 0 <= i < members.len() implies !(#[trigger] views(members[i].changed@).contains(
                file,
            )) by {
                let member = members[i];
            }
        }
        if !explained(file, members, drift) {
            assert forall|i: int| 0 <= i < members.len() implies !views((#[trigger] members[i]).changed@).contains(
                file,
            ) by {
                assert(!views(members[i].changed@).contains(file));
            }
        }
    }
}

/// What becomes of a recorded member. It is carried where it is a parent; where the repository knows it
/// and it is an ancestor of the base or of a parent; and where it is known, not in the trunk, and its
/// replay is empty. It is unanswered exactly if its replay is all that could tell and is conflicted in a
/// conflicted cut. In every other case it is dropped: one that only the trunk holds too.
pub proof fn lemma_fate_of_recorded_member(delta: CompositionDelta, member: Seq<char>)
    ensures
        ({
            let parent = exists|i: int| 0 <= i < delta.parents@.len() && (#[trigger] delta.parents@[i])@ == member;
            let known = lookup(delta.graph.resolved@, ranks(member)) is Some;
            let inside = delta.graph.reaches(member, delta.base@) || exists|i: int|
                0 <= i < delta.parents@.len() && delta.graph.reaches(member, (#[trigger] delta.parents@[i])@);
            let trunk_only = !inside && delta.graph.reaches(member, delta.trunk@);
            let replay = lookup(delta.replays@, ranks(member));
            let carried = parent || known && (inside || !trunk_only && replay == Some(RebaseOutcome::Empty));
            let unanswered = !parent && known && !inside && !trunk_only && delta.conflicted && replay == Some(
                RebaseOutcome::Conflicted,
            );
            &&& fate(delta, member) is Carried <==> carried
            &&& unanswered_member(delta)(member) == (if unanswered {
                Some((member, member_name(delta.tips@, member)))
            } else {
                None
            })
            &&& dropped_member(delta)(member) is Some <==> !carried && !unanswered
            &&& !carried && !unanswered && known ==> dropped_member(delta)(member) == Some(
                member_name(delta.tips@, member),
            )
            &&& !parent && !known ==> dropped_member(delta)(member) == Some(
                short_text(member) + " (not known to this repository)"@,
            )
            &&& needs_replay(delta, member) <==> !parent && known && !inside && !trunk_only
        }),
{
    let parents = views(delta.parents@);
    if parents.contains(member) {
        let i = choose|i: int| 0 <= i < parents.len() && parents[i] == member;
        assert(delta.parents@[i]@ == member);
    }
    if exists|i: int| 0 <= i < delta.parents@.len() && (#[trigger] delta.parents@[i])@ == member {
        let i = choose|i: int| 0 <= i < delta.parents@.len() && (#[trigger] delta.parents@[i])@ == member;
        assert(parents[i] == member);
    }
    if exists|i: int| 0 <= i < delta.parents@.len() && #[trigger] delta.graph.reaches(member, delta.parents@[i]@) {
        let i = choose|i: int|
            0 <= i < delta.parents@.len() && #[trigger] delta.graph.reaches(member, delta.parents@[i]@);
        assert(delta.graph.reaches(member, delta.parents@[i]@));
    }
}

proof fn lemma_local_holder(tips: Seq<(BookmarkRef, CommitId)>, commit: Seq<char>)
    ensures
        local_holder(tips, commit) is Some <==> exists|i: int|
            0 <= i < tips.len() && (#[trigger] tips[i]).0@ is Local && tips[i].1@ == commit,
        local_holder(tips, commit) matches Some(branch) ==> exists|i: int|
            0 <= i < tips.len() && (#[trigger] tips[i]).0@ is Local && tips[i].1@ == commit && tips[i].0@.branch()
                == branch,
    decreases tips.len(),
{
    if tips.len() > 0 {
        let rest = tips.skip(1);
        lemma_local_holder(rest, commit);
        if tips[0].0@ is Local && tips[0].1@ == commit {
        } else {
            if let Some(branch) = local_holder(rest, commit) {
                let i = choose|i: int|
                    0 <= i < rest.len() && (#[trigger] rest[i]).0@ is Local && rest[i].1@ == commit
                        && rest[i].0@.branch() == branch;
                assert(tips[i + 1] == rest[i]);
            }
            if exists|i: int| 0 <= i < tips.len() && (#[trigger] tips[i]).0@ is Local && tips[i].1@ == commit {
                let i = choose|i: int|
                    0 <= i < tips.len() && (#[trigger] tips[i]).0@ is Local && tips[i].1@ == commit;
                assert(rest[i - 1] == tips[i]);
            }
        }
    }
}

/// A recorded member is named by a local branch that stands at it, and by its commit alone where no
/// local branch does.
pub proof fn lemma_member_name_is_local(tips: Seq<(BookmarkRef, CommitId)>, commit: Seq<char>)
    ensures
        (exists|i: int| 0 <= i < tips.len() && (#[trigger] tips[i]).0@ is Local && tips[i].1@ == commit) ==> exists|
            i: int,
        |
            0 <= i < tips.len() && (#[trigger] tips[i]).0@ is Local && tips[i].1@ == commit && member_name(tips, commit)
                == tips[i].0@.branch() + "@"@ + short_text(commit),
        !(exists|i: int| 0 <= i < tips.len() && (#[trigger] tips[i]).0@ is Local && tips[i].1@ == commit)
            ==> member_name(tips, commit) == short_text(commit),
{
    lemma_local_holder(tips, commit);
}

proof fn lemma_holder(carried: Seq<(String, CommitId)>, commit: Seq<char>)
    ensures
        match holder(carried, commit) {
            Some(branch) => exists|i: int|
                0 <= i < carried.len() && (#[trigger] carried[i]).1@ == commit && carried[i].0@ == branch && forall|
                    j: int,
                |
                    0 <= j < i ==> (#[trigger] carried[j]).1@ != commit,
            None => forall|i: int| 0 <= i < carried.len() ==> (#[trigger] carried[i]).1@ != commit,
        },
    decreases carried.len(),
{
    if carried.len() > 0 && carried[0].1@ != commit {
        let rest = carried.skip(1);
        lemma_holder(rest, commit);
        match holder(carried, commit) {
            Some(branch) => {
                let i = choose|i: int|
                    0 <= i < rest.len() && (#[trigger] rest[i]).1@ == commit && rest[i].0@ == branch && forall|j: int|
                        0 <= j < i ==> (#[trigger] rest[j]).1@ != commit;
                assert(carried[i + 1] == rest[i]);
                assert forall|j: int| 0 <= j < i + 1 implies (#[trigger] carried[j]).1@ != commit by {
                    if j > 0 {
                        assert(rest[j - 1] == carried[j]);
                    }
                }
            },
            None => {
                assert forall|i: int| 0 <= i < carried.len() implies (#[trigger] carried[i]).1@ != commit by {
                    if i > 0 {
                        assert(rest[i - 1] == carried[i]);
                    }
                }
            },
        }
    }
}

/// A parent's source is the first carried branch that stands at it, else the trunk where the trunk
/// contains it, else its own id.
pub proof fn lemma_source_of_parent(
    commit: Seq<char>,
    branches: Seq<(String, CommitId)>,
    trunk: Seq<char>,
    graph: CommitGraph,
)
    ensures
        ({
            let source = source_of(commit, branches, trunk, graph);
            let held = exists|i: int| 0 <= i < branches.len() && (#[trigger] branches[i]).1@ == commit;
            let tip = lookup(graph.resolved@, ranks(trunk));
            &&& held ==> exists|i: int|
                0 <= i < branches.len() && (#[trigger] branches[i]).1@ == commit && branches[i].0@ == source && forall|
                    j: int,
                |
                    0 <= j < i ==> (#[trigger] branches[j]).1@ != commit
            &&& !held && tip is Some && graph.reaches(commit, tip->0@) ==> source == trunk
            &&& !held && !(tip is Some && graph.reaches(commit, tip->0@)) ==> source == short_text(commit)
        }),
{
    lemma_holder(branches, commit);
}

/// A workspace is cleaned exactly if it is listed, is not the default one, and is none that a branch
/// lives in.
pub proof fn lemma_cleaned_workspaces(workspaces: Seq<Seq<char>>, branches: Seq<Seq<char>>, workspace: Seq<char>)
    ensures
        workspaces.filter(abandoned(branches)).contains(workspace) <==> workspaces.contains(workspace) && workspace
            != "default"@ && forall|i: int|
            0 <= i < branches.len() ==> workspace_of(#[trigger] branches[i]) != workspace,
{
    lemma_filter_has(workspaces, abandoned(branches), workspace);
    if abandoned(branches)(workspace) {
        assert forall|i: int| 0 <= i < branches.len() implies workspace_of(#[trigger] branches[i]) != workspace by {
            let lives = workspace_of(branches[i]);
        }
    }
}

/// The bookmark of a dated cut moves only forward, and that of a fixed one anywhere.
pub proof fn lemma_only_dated_cuts_move_forward(publication: Publication, name: Seq<char>, scheme: ReleaseScheme)
    requires
        publishes(publication, name, scheme),
    ensures
        publication.motion == BookmarkMotion::ForwardOnly <==> scheme == ReleaseScheme::Dated,
        publication.motion == BookmarkMotion::Anywhere <==> scheme is Fixed,
        publication.name@ == name,
        publication.operation@ == "knives: cut "@ + name,
{
}

} // verus!
