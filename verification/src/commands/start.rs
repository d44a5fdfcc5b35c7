//! Claim a branch and open a workspace on its tip, or on the release's shared base for a new one.

use vstd::prelude::*;
use vstd::string::*;

use crate::commands::wip::{workspace_for, workspace_of};
use crate::config::{publish_of, RepoEntry, Role};
use crate::detect::stale_parents::{tip_of, BookmarkTips};
use crate::ids::{
    short_text, BookmarkRef, BookmarkView, BranchName, ChangeId, CommitId, RemoteName, RepoName, WorkspaceName,
};

use crate::paths::{directory, directory_of, join_path, joined_path};
use crate::seqs::{group_seqs, view_of, views};
use crate::store::Claim;
use crate::text::{decimal, decimal_text, join, joined};

verus! {

broadcast use group_seqs;

/// Where a new workspace goes: a sibling of the repository, named for the branch with its slashes
/// flattened.
///
/// Workspaces are cheap to create because tracked content is small even in a large checkout.
pub fn workspace_path(repo: &str, branch: &BranchName) -> (path: String)
    ensures
        path@ == joined_path(directory_of(repo@), workspace_of(branch@)),
{
    join_path(directory(repo).as_str(), workspace_for(branch.as_str()).as_str())
}

/// What is decided of a claim on the branch.
#[derive(Debug, Clone, Copy, PartialEq, Eq, Structural)]
pub enum ClaimDecision {
    /// Both sides are anonymous, so they can never match.
    RefuseAnonymous,
    RefuseHeld,
    /// The claim is ours, by identity or because we stand in its workspace.
    Resume { possession: bool },
    Take,
}

/// What a start does.
#[derive(Debug, PartialEq, Eq)]
pub enum StartStep {
    /// Seize the claim that is held.
    Force { reason: String },
    Refuse { anonymous: bool },
    Resume { possession: bool },
    Take { reason: String },
}

/// What a start is to do.
pub enum StepView {
    Force(Seq<char>),
    Refuse(bool),
    Resume(bool),
    Take(Seq<char>),
    /// A claim cannot be seized without a reason.
    Unreasoned,
}

/// What a start does, from what was asked for and what was decided of the claim.
pub open spec fn step_of(force: bool, held: bool, why: Option<&str>, decision: ClaimDecision) -> StepView {
    if force && held {
        match why {
            Some(reason) => StepView::Force(reason@),
            None => StepView::Unreasoned,
        }
    } else {
        match decision {
            ClaimDecision::RefuseAnonymous => StepView::Refuse(true),
            ClaimDecision::RefuseHeld => StepView::Refuse(false),
            ClaimDecision::Resume { possession } => StepView::Resume(possession),
            ClaimDecision::Take => StepView::Take(
                match why {
                    Some(reason) => reason@,
                    None => "started work"@,
                },
            ),
        }
    }
}

/// What a start does, from what was asked for and what was decided of the claim.
pub fn decide_start(
    force: bool,
    held: bool,
    why: Option<&str>,
    decision: ClaimDecision,
) -> (step: Result<StartStep, String>)
    ensures
        match step {
            Ok(StartStep::Force { reason }) => step_of(force, held, why, decision) == StepView::Force(reason@),
            Ok(StartStep::Refuse { anonymous }) => step_of(force, held, why, decision) == StepView::Refuse(anonymous),
            Ok(StartStep::Resume { possession }) => step_of(force, held, why, decision) == StepView::Resume(
                possession,
            ),
            Ok(StartStep::Take { reason }) => step_of(force, held, why, decision) == StepView::Take(reason@),
            Err(error) => step_of(force, held, why, decision) is Unreasoned && error@ == "--force requires --why"@,
        },
{
    if force && held {
        return match why {
            Some(reason) => Ok(StartStep::Force { reason: reason.to_owned() }),
            None => Err("--force requires --why".to_owned()),
        };
    }
    match decision {
        ClaimDecision::RefuseAnonymous => Ok(StartStep::Refuse { anonymous: true }),
        ClaimDecision::RefuseHeld => Ok(StartStep::Refuse { anonymous: false }),
        ClaimDecision::Resume { possession } => Ok(StartStep::Resume { possession }),
        ClaimDecision::Take => {
            let reason = match why {
                Some(reason) => reason,
                None => "started work",
            };
            Ok(StartStep::Take { reason: reason.to_owned() })
        },
    }
}

/// A claim is never seized unless force was asked for and a reason given.
pub proof fn lemma_seizing_needs_force_and_reason(force: bool, held: bool, why: Option<&str>, decision: ClaimDecision)
    ensures
        step_of(force, held, why, decision) is Force ==> force && held && why is Some,
{
}

/// Where a branch that may already exist has its tip.
#[derive(Debug, PartialEq, Eq)]
pub enum BranchTip {
    Local(CommitId),
    /// Not tracked locally; pushed by someone else to one of our remotes.
    Remote(RemoteName, CommitId),
    /// The local bookmark names several commits.
    Divergent(Vec<CommitId>),
    /// Nothing of ours names it: a new branch.
    Unknown,
}

/// What a tip is.
pub enum BranchTipView {
    Local(Seq<char>),
    Remote(Seq<char>, Seq<char>),
    Divergent(Seq<Seq<char>>),
    Unknown,
}

impl View for BranchTip {
    type V = BranchTipView;

    open spec fn view(&self) -> BranchTipView {
        match self {
            BranchTip::Local(commit) => BranchTipView::Local(commit@),
            BranchTip::Remote(remote, commit) => BranchTipView::Remote(remote@, commit@),
            BranchTip::Divergent(commits) => BranchTipView::Divergent(views(commits@)),
            BranchTip::Unknown => BranchTipView::Unknown,
        }
    }
}

/// The commits that a divergent local bookmark names.
pub open spec fn targets_of(conflicted: Seq<(BookmarkRef, Vec<CommitId>)>, branch: Seq<char>) -> Option<Seq<Seq<char>>>
    decreases conflicted.len(),
{
    if conflicted.len() == 0 {
        None
    } else if conflicted[0].0@ == BookmarkView::Local(branch) {
        Some(views(conflicted[0].1@))
    } else {
        targets_of(conflicted.skip(1), branch)
    }
}

/// Where a branch is on one remote.
pub open spec fn on_remote(
    tips: Seq<(BookmarkRef, CommitId)>,
    branch: Seq<char>,
    remote: Seq<char>,
) -> Option<Seq<char>> {
    tip_of(tips, BookmarkView::Remote { branch, remote })
}

/// Where a branch that may already exist has its tip.
pub open spec fn found_tip(
    tips: Seq<(BookmarkRef, CommitId)>,
    conflicted: Seq<(BookmarkRef, Vec<CommitId>)>,
    branch: Seq<char>,
    entry: RepoEntry,
) -> BranchTipView {
    let origin = Role::Origin.label();
    let publish = publish_of(entry);
    match tip_of(tips, BookmarkView::Local(branch)) {
        Some(commit) => BranchTipView::Local(commit),
        None => match targets_of(conflicted, branch) {
            Some(targets) => BranchTipView::Divergent(targets),
            None => match on_remote(tips, branch, origin) {
                Some(commit) => BranchTipView::Remote(origin, commit),
                None => match on_remote(tips, branch, publish) {
                    Some(commit) => BranchTipView::Remote(publish, commit),
                    None => BranchTipView::Unknown,
                },
            },
        },
    }
}

fn copies(commits: &Vec<CommitId>) -> (copy: Vec<CommitId>)
    ensures
        views(copy@) == views(commits@),
{
    let mut copy: Vec<CommitId> = Vec::new();
    let mut i: usize = 0;
    while i < commits.len()
        invariant
            i <= commits@.len(),
            views(copy@) == views(commits@).take(i as int),
        decreases commits@.len() - i,
    {
        let ghost earlier = copy@;
        copy.push(commits[i].clone());
        assert(views(copy@) =~= views(earlier).push(commits@[i as int]@));
        assert(views(copy@) =~= views(commits@).take(i + 1));
        i += 1;
    }
    copy
}

/// Where a branch that may already exist has its tip: locally, or on one of our remotes.
///
/// Upstream is somebody else's repository: a name that exists only there is one of their branches,
/// and a fork branch that happens to share the name is new here.
pub fn branch_tip(
    tips: &BookmarkTips,
    conflicted: &Vec<(BookmarkRef, Vec<CommitId>)>,
    branch: &BranchName,
    entry: &RepoEntry,
) -> (tip: BranchTip)
    ensures
        tip@ == found_tip(tips@, conflicted@, branch@, *entry),
{
    let local = BookmarkRef::Local(branch.clone());
    assert(local@ == BookmarkView::Local(branch@));
    if let Some(commit) = tips.get(&local) {
        return BranchTip::Local(commit.clone());
    }
    let mut i: usize = 0;
    assert(conflicted@.skip(0) =~= conflicted@);
    while i < conflicted.len()
        invariant
            i <= conflicted@.len(),
            local@ == BookmarkView::Local(branch@),
            tip_of(tips@, BookmarkView::Local(branch@)) is None,
            targets_of(conflicted@, branch@) == targets_of(conflicted@.skip(i as int), branch@),
        decreases conflicted@.len() - i,
    {
        assert(conflicted@.skip(i as int)[0] == conflicted@[i as int]);
        assert(conflicted@.skip(i as int).skip(1) =~= conflicted@.skip(i + 1));
        if conflicted[i].0.same(&local) {
            return BranchTip::Divergent(copies(&conflicted[i].1));
        }
        i += 1;
    }
    let origin = RemoteName::new(Role::Origin.as_str());
    let at_origin = BookmarkRef::Remote { branch: branch.clone(), remote: origin.clone() };
    assert(at_origin@ == (BookmarkView::Remote { branch: branch@, remote: origin@ }));
    if let Some(commit) = tips.get(&at_origin) {
        return BranchTip::Remote(origin, commit.clone());
    }
    let publish = RemoteName::new(entry.publish_remote());
    let published = BookmarkRef::Remote { branch: branch.clone(), remote: publish.clone() };
    assert(published@ == (BookmarkView::Remote { branch: branch@, remote: publish@ }));
    if let Some(commit) = tips.get(&published) {
        return BranchTip::Remote(publish, commit.clone());
    }
    BranchTip::Unknown
}

/// Where a new workspace's working copy is put, or why it is not.
#[derive(Debug, PartialEq, Eq)]
pub enum WorkspaceBase {
    At { revision: String, label: String },
    /// The branch's local bookmark names several commits, so there is no one tip to continue from.
    Divergent(Vec<CommitId>),
}

/// What a base is.
pub enum BaseView {
    At(Seq<char>, Seq<char>),
    Divergent(Seq<Seq<char>>),
}

impl View for WorkspaceBase {
    type V = BaseView;

    open spec fn view(&self) -> BaseView {
        match self {
            WorkspaceBase::At { revision, label } => BaseView::At(revision@, label@),
            WorkspaceBase::Divergent(tips) => BaseView::Divergent(views(tips@)),
        }
    }
}

/// Where a new workspace's working copy is put.
pub open spec fn base_for(
    tip: BranchTipView,
    branch: Seq<char>,
    shared: Option<Seq<char>>,
    upstream_trunk: Seq<char>,
) -> BaseView {
    match tip {
        BranchTipView::Local(commit) => BaseView::At(commit, branch + "'s tip"@),
        BranchTipView::Remote(remote, commit) => BaseView::At(commit, branch + "'s tip at "@ + remote),
        BranchTipView::Divergent(tips) => BaseView::Divergent(tips),
        BranchTipView::Unknown => match shared {
            Some(commit) => BaseView::At(commit, "the release's shared base"@),
            None => BaseView::At(upstream_trunk, "the fetched upstream trunk"@),
        },
    }
}

/// Where a new workspace's working copy is put.
///
/// A branch that already exists is continued from its tip, so that the next commit is the branch's
/// next commit. A new branch starts from the release's shared base, the point every member forks
/// from; without one, from the fetched upstream trunk. Never from wherever somebody stands: a
/// workspace on a release could otherwise silently inherit the release merge as a parent.
pub fn create_workspace(
    tip: BranchTip,
    branch: &BranchName,
    shared: Option<&CommitId>,
    upstream_trunk: &str,
) -> (base: WorkspaceBase)
    ensures
        base@ == base_for(tip@, branch@, view_of(shared), upstream_trunk@),
{
    match tip {
        BranchTip::Local(commit) => {
            let mut label = branch.text.clone();
            label.append("'s tip");
            WorkspaceBase::At { revision: commit.text, label }
        },
        BranchTip::Remote(remote, commit) => {
            let mut label = branch.text.clone();
            label.append("'s tip at ");
            label.append(remote.as_str());
            WorkspaceBase::At { revision: commit.text, label }
        },
        BranchTip::Divergent(tips) => WorkspaceBase::Divergent(tips),
        BranchTip::Unknown => match shared {
            Some(commit) => WorkspaceBase::At {
                revision: commit.text.clone(),
                label: "the release's shared base".to_owned(),
            },
            None => WorkspaceBase::At {
                revision: upstream_trunk.to_owned(),
                label: "the fetched upstream trunk".to_owned(),
            },
        },
    }
}

/// A branch that exists locally is continued from its tip, wherever else it stands and whatever the
/// shared base is.
pub proof fn lemma_existing_branch_is_continued(
    tips: Seq<(BookmarkRef, CommitId)>,
    conflicted: Seq<(BookmarkRef, Vec<CommitId>)>,
    branch: Seq<char>,
    entry: RepoEntry,
    shared: Option<Seq<char>>,
    upstream_trunk: Seq<char>,
)
    requires
        tip_of(tips, BookmarkView::Local(branch)) is Some,
    ensures
        base_for(found_tip(tips, conflicted, branch, entry), branch, shared, upstream_trunk) == BaseView::At(
            tip_of(tips, BookmarkView::Local(branch))->0,
            branch + "'s tip"@,
        ),
{
}

/// A branch that nothing of ours names is new: it starts from the shared base where there is one, even
/// where upstream has a branch of the same name.
pub proof fn lemma_new_branch_starts_at_shared_base(
    tips: Seq<(BookmarkRef, CommitId)>,
    conflicted: Seq<(BookmarkRef, Vec<CommitId>)>,
    branch: Seq<char>,
    entry: RepoEntry,
    shared: Seq<char>,
    upstream_trunk: Seq<char>,
)
    requires
        tip_of(tips, BookmarkView::Local(branch)) is None,
        targets_of(conflicted, branch) is None,
        on_remote(tips, branch, Role::Origin.label()) is None,
        on_remote(tips, branch, publish_of(entry)) is None,
    ensures
        base_for(found_tip(tips, conflicted, branch, entry), branch, Some(shared), upstream_trunk) == BaseView::At(
            shared,
            "the release's shared base"@,
        ),
{
}

/// The ids, each abbreviated.
pub open spec fn shorts(commits: Seq<Seq<char>>) -> Seq<Seq<char>> {
    Seq::new(commits.len(), |i: int| short_text(commits[i]))
}

/// The refusal for a divergent branch: which tips, and how to pick one.
///
/// Nothing was claimed, so a plain start afterwards is the way back.
pub fn divergent_refusal_line(branch: &BranchName, tips: &[CommitId]) -> (line: String)
    ensures
        line@ == branch@ + " is divergent ("@ + decimal_text(tips@.len()) + " tips: "@ + joined(
            shorts(views(tips@)),
            ", "@,
        ) + "); `jj bookmark set "@ + branch@
            + " -r <commit> --allow-backwards` on the one to continue, then start again"@,
{
    let mut listed: Vec<String> = Vec::new();
    let ghost all = shorts(views(tips@));
    let mut i: usize = 0;
    assert(views(listed@) =~= all.take(0));
    while i < tips.len()
        invariant
            i <= tips@.len(),
            all == shorts(views(tips@)),
            views(listed@) == all.take(i as int),
        decreases tips@.len() - i,
    {
        let text = tips[i].short();
        assert(text@ == all[i as int]);
        let ghost earlier = listed@;
        listed.push(text);
        assert(views(listed@) =~= views(earlier).push(text@));
        assert(views(listed@) =~= all.take(i + 1));
        i += 1;
    }
    assert(all.take(i as int) =~= all);
    let mut line = branch.text.clone();
    line.append(" is divergent (");
    line.append(decimal(tips.len() as u64).as_str());
    line.append(" tips: ");
    line.append(join(&listed, ", ").as_str());
    line.append("); `jj bookmark set ");
    line.append(branch.as_str());
    line.append(" -r <commit> --allow-backwards` on the one to continue, then start again");
    line
}

/// The change that a workspace's working copy is.
pub open spec fn change_of(workspaces: Seq<(WorkspaceName, ChangeId)>, workspace: Seq<char>) -> Option<Seq<char>>
    decreases workspaces.len(),
{
    if workspaces.len() == 0 {
        None
    } else if workspaces[0].0@ == workspace {
        Some(workspaces[0].1@)
    } else {
        change_of(workspaces.skip(1), workspace)
    }
}

/// The change that a workspace's working copy is, or why there is none.
pub fn workspace_change(
    workspaces: &Vec<(WorkspaceName, ChangeId)>,
    workspace: &WorkspaceName,
) -> (change: Result<String, String>)
    ensures
        match change {
            Ok(text) => change_of(workspaces@, workspace@) == Some(text@),
            Err(error) => change_of(workspaces@, workspace@) is None && error@ == "workspace "@ + workspace@
                + " has no working copy"@,
        },
{
    let mut i: usize = 0;
    assert(workspaces@.skip(0) =~= workspaces@);
    while i < workspaces.len()
        invariant
            i <= workspaces@.len(),
            change_of(workspaces@, workspace@) == change_of(workspaces@.skip(i as int), workspace@),
        decreases workspaces@.len() - i,
    {
        assert(workspaces@.skip(i as int)[0] == workspaces@[i as int]);
        assert(workspaces@.skip(i as int).skip(1) =~= workspaces@.skip(i + 1));
        if workspaces[i].0.same(workspace) {
            return Ok(workspaces[i].1.text.clone());
        }
        i += 1;
    }
    let mut error = "workspace ".to_owned();
    error.append(workspace.as_str());
    error.append(" has no working copy");
    Err(error)
}

/// How a lost workspace is rebuilt.
pub open spec fn rebuild_hint(branch: Seq<char>) -> Seq<char> {
    "; `knives start "@ + branch + " --force --why \"…\"` rebuilds it"@
}

/// The workspace line for a claim being resumed. `change` is absent where the workspace is not there.
pub fn resume_workspace_notice(
    destination: &str,
    change: Option<&Result<String, String>>,
    workspace: &WorkspaceName,
    branch: &BranchName,
) -> (notice: String)
    ensures
        notice@ == (match change {
            None => "workspace missing at "@ + destination@ + rebuild_hint(branch@),
            Some(Ok(text)) => "workspace "@ + destination@ + " at "@ + text@,
            Some(Err(error)) => "workspace "@ + destination@ + " is present but not registered as "@ + workspace@
                + " ("@ + error@ + ")"@ + rebuild_hint(branch@),
        }),
{
    let mut hint = "; `knives start ".to_owned();
    hint.append(branch.as_str());
    hint.append(" --force --why \"…\"` rebuilds it");
    match change {
        None => {
            let mut notice = "workspace missing at ".to_owned();
            notice.append(destination);
            notice.append(hint.as_str());
            notice
        },
        Some(Ok(text)) => {
            let mut notice = "workspace ".to_owned();
            notice.append(destination);
            notice.append(" at ");
            notice.append(text.as_str());
            notice
        },
        Some(Err(error)) => {
            let mut notice = "workspace ".to_owned();
            notice.append(destination);
            notice.append(" is present but not registered as ");
            notice.append(workspace.as_str());
            notice.append(" (");
            notice.append(error.as_str());
            notice.append(")");
            notice.append(hint.as_str());
            notice
        },
    }
}

/// The workspace line for a claim being seized: the workspace that is there, or the one just created
/// on `created`'s revision and label.
pub fn workspace_notice(
    destination: &str,
    change: &str,
    left_as_is: bool,
    created: Option<(&str, &str)>,
) -> (notice: String)
    ensures
        notice@ == (match created {
            Some((revision, label)) => "created missing workspace "@ + destination@ + " at "@ + change@ + " based on "@
                + revision@ + " ("@ + label@ + ")"@,
            None => "workspace "@ + destination@ + " at "@ + change@ + (if left_as_is {
                "; left as-is"@
            } else {
                ""@
            }),
        }),
{
    match created {
        Some((revision, label)) => {
            let mut notice = "created missing workspace ".to_owned();
            notice.append(destination);
            notice.append(" at ");
            notice.append(change);
            notice.append(" based on ");
            notice.append(revision);
            notice.append(" (");
            notice.append(label);
            notice.append(")");
            notice
        },
        None => {
            let mut notice = "workspace ".to_owned();
            notice.append(destination);
            notice.append(" at ");
            notice.append(change);
            if left_as_is {
                notice.append("; left as-is");
            } else {
                notice.append("");
            }
            notice
        },
    }
}

/// The refusal of a branch somebody else holds. `context` says who holds it.
pub fn refuse_claim(branch: &BranchName, context: &str, anonymous: bool) -> (line: String)
    ensures
        line@ == (if anonymous {
            "both sides are anonymous identities, so they can never match; "@
        } else {
            ""@
        }) + context@ + "\nuse `knives start "@ + branch@ + " --force --why \"…\"` to seize the claim"@,
{
    let mut line = if anonymous {
        "both sides are anonymous identities, so they can never match; ".to_owned()
    } else {
        "".to_owned()
    };
    line.append(context);
    line.append("\nuse `knives start ");
    line.append(branch.as_str());
    line.append(" --force --why \"…\"` to seize the claim");
    line
}

/// The refusal to adopt a workspace that is not the branch's own.
pub fn foreign_refusal_line(destination: &str, error: &str) -> (line: String)
    ensures
        line@ == "cannot adopt "@ + destination@ + ": "@ + error@
            + "; move the foreign workspace or choose a different branch"@,
{
    let mut line = "cannot adopt ".to_owned();
    line.append(destination);
    line.append(": ");
    line.append(error);
    line.append("; move the foreign workspace or choose a different branch");
    line
}

/// The workspace line for a claim being taken: the workspace that was adopted, or the one just created
/// on `created`'s revision and label.
pub fn taken_workspace_notice(destination: &str, change: &str, created: Option<(&str, &str)>) -> (notice: String)
    ensures
        notice@ == (match created {
            Some((revision, label)) => "workspace "@ + destination@ + " at "@ + change@ + " based on "@ + revision@
                + " ("@ + label@ + ")"@,
            None => "adopted existing workspace "@ + destination@ + " at "@ + change@ + "; left as-is"@,
        }),
{
    match created {
        Some((revision, label)) => {
            let mut notice = "workspace ".to_owned();
            notice.append(destination);
            notice.append(" at ");
            notice.append(change);
            notice.append(" based on ");
            notice.append(revision);
            notice.append(" (");
            notice.append(label);
            notice.append(")");
            notice
        },
        None => {
            let mut notice = "adopted existing workspace ".to_owned();
            notice.append(destination);
            notice.append(" at ");
            notice.append(change);
            notice.append("; left as-is");
            notice
        },
    }
}

/// What is said at the end of a seizure. `context` says who held the claim.
pub fn seized_lines(context: &str, notice: &str) -> (lines: String)
    ensures
        lines@ == "seized "@ + context@ + "\n"@ + notice@,
{
    let mut lines = "seized ".to_owned();
    lines.append(context);
    lines.append("\n");
    lines.append(notice);
    lines
}

/// What is said at the end of a resumption. `context` says who holds the claim.
pub fn resumed_lines(event: &str, context: &str, notice: &str) -> (lines: String)
    ensures
        lines@ == event@ + "\n"@ + context@ + "\n"@ + notice@,
{
    let mut lines = event.to_owned();
    lines.append("\n");
    lines.append(context);
    lines.append("\n");
    lines.append(notice);
    lines
}

/// What is said at the end of a claim that was taken.
pub fn claimed_lines(notice: &str, repo: &RepoName, branch: &BranchName, owner: &str) -> (lines: String)
    ensures
        lines@ == notice@ + "\nclaimed "@ + repo@ + "/"@ + branch@ + " for "@ + owner@,
{
    let mut lines = notice.to_owned();
    lines.append("\nclaimed ");
    lines.append(repo.as_str());
    lines.append("/");
    lines.append(branch.as_str());
    lines.append(" for ");
    lines.append(owner);
    lines
}

/// What the ledger records of a claim that was seized. `last_seen` says when its owner was last seen.
pub fn force_claim(previous: &Claim, last_seen: &str, reason: &str) -> (event: String)
    ensures
        event@ == "seized from "@ + previous.owner@ + " ("@ + previous.kind.label() + ", claimed "@ + previous.started@
            + ", last seen "@ + last_seen@ + "): "@ + reason@,
{
    let mut event = "seized from ".to_owned();
    event.append(previous.owner.as_str());
    event.append(" (");
    event.append(previous.kind.as_str());
    event.append(", claimed ");
    event.append(previous.started.as_str());
    event.append(", last seen ");
    event.append(last_seen);
    event.append("): ");
    event.append(reason);
    event
}

/// What the ledger records of a claim that was resumed.
pub fn resume_claim(possession: bool) -> (event: &'static str)
    ensures
        event@ == (if possession {
            "resumed via workspace possession"@
        } else {
            "resumed"@
        }),
{
    if possession {
        "resumed via workspace possession"
    } else {
        "resumed"
    }
}

/// What the ledger records of a claim that was taken.
pub fn take_claim(reason: &str, adopted: bool) -> (event: String)
    ensures
        event@ == "claimed: "@ + reason@ + (if adopted {
            " (adopted existing workspace)"@
        } else {
            ""@
        }),
{
    let mut event = "claimed: ".to_owned();
    event.append(reason);
    if adopted {
        event.append(" (adopted existing workspace)");
    } else {
        event.append("");
    }
    event
}

/// What starting work does: it seizes a claim exactly if it is forced, the branch is held and a reason is
/// given, and is refused for want of a reason exactly if only that is missing. Else it does what the claim
/// decides, and the reason given, or a plain one, goes with a claim that is taken.
pub proof fn lemma_step_of_start(force: bool, held: bool, why: Option<&str>, decision: ClaimDecision)
    ensures
        ({
            let step = step_of(force, held, why, decision);
            let forced = force && held;
            &&& step is Force <==> forced && why is Some
            &&& step is Unreasoned <==> forced && why is None
            &&& step == StepView::Refuse(true) <==> !forced && decision is RefuseAnonymous
            &&& step == StepView::Refuse(false) <==> !forced && decision is RefuseHeld
            &&& step == StepView::Resume(true) <==> !forced && decision == (ClaimDecision::Resume { possession: true })
            &&& step == StepView::Resume(false) <==> !forced && decision == (ClaimDecision::Resume { possession: false })
            &&& step is Take <==> !forced && decision is Take
            &&& step matches StepView::Force(reason) ==> reason == why->0@
            &&& step matches StepView::Take(reason) ==> reason == (if why is Some {
                why->0@
            } else {
                "started work"@
            })
        }),
{
}

/// Where a branch stands: locally first, then in a conflict, then on the origin, then where releases are
/// published; a branch that stands nowhere is unknown.
pub proof fn lemma_where_a_branch_stands(
    tips: Seq<(BookmarkRef, CommitId)>,
    conflicted: Seq<(BookmarkRef, Vec<CommitId>)>,
    branch: Seq<char>,
    entry: RepoEntry,
)
    ensures
        ({
            let found = found_tip(tips, conflicted, branch, entry);
            let local = tip_of(tips, BookmarkView::Local(branch));
            let targets = targets_of(conflicted, branch);
            let origin = tip_of(tips, (BookmarkView::Remote { branch, remote: "origin"@ }));
            let published = tip_of(tips, (BookmarkView::Remote { branch, remote: publish_of(entry) }));
            &&& local is Some ==> found == BranchTipView::Local(local->0)
            &&& local is None && targets is Some ==> found == BranchTipView::Divergent(targets->0)
            &&& local is None && targets is None && origin is Some ==> found == BranchTipView::Remote(
                "origin"@,
                origin->0,
            )
            &&& local is None && targets is None && origin is None && published is Some ==> found
                == BranchTipView::Remote(publish_of(entry), published->0)
            &&& local is None && targets is None && origin is None && published is None ==> found
                == BranchTipView::Unknown
        }),
{
}

/// Where work on a branch starts: at its own tip wherever it has one, nowhere while it has several, and for
/// a new branch at the release's shared base, or at the upstream trunk where there is none.
pub proof fn lemma_where_work_starts(
    tip: BranchTipView,
    branch: Seq<char>,
    shared: Option<Seq<char>>,
    upstream_trunk: Seq<char>,
)
    ensures
        ({
            let base = base_for(tip, branch, shared, upstream_trunk);
            &&& tip matches BranchTipView::Local(commit) ==> base is At && base->At_0 == commit
            &&& tip matches BranchTipView::Remote(_, commit) ==> base is At && base->At_0 == commit
            &&& base is Divergent <==> tip is Divergent
            &&& tip is Unknown && shared is Some ==> base is At && base->At_0 == shared->0
            &&& tip is Unknown && shared is None ==> base is At && base->At_0 == upstream_trunk
        }),
{
}

proof fn lemma_change_of(workspaces: Seq<(WorkspaceName, ChangeId)>, workspace: Seq<char>)
    ensures
        match change_of(workspaces, workspace) {
            Some(change) => exists|i: int|
                0 <= i < workspaces.len() && (#[trigger] workspaces[i]).0@ == workspace && workspaces[i].1@ == change,
            None => forall|i: int| 0 <= i < workspaces.len() ==> (#[trigger] workspaces[i]).0@ != workspace,
        },
    decreases workspaces.len(),
{
    if workspaces.len() > 0 && workspaces[0].0@ != workspace {
        let rest = workspaces.skip(1);
        lemma_change_of(rest, workspace);
        match change_of(workspaces, workspace) {
            Some(change) => {
                let i = choose|i: int|
                    0 <= i < rest.len() && (#[trigger] rest[i]).0@ == workspace && rest[i].1@ == change;
                assert(workspaces[i + 1] == rest[i]);
            },
            None => {
                assert forall|i: int| 0 <= i < workspaces.len() implies (#[trigger] workspaces[i]).0@ != workspace by {
                    if i > 0 {
                        assert(rest[i - 1] == workspaces[i]);
                    }
                }
            },
        }
    }
}

/// The change of a workspace is that of a workspace of its name, and there is none exactly if there is no
/// such workspace.
pub proof fn lemma_change_of_workspace(workspaces: Seq<(WorkspaceName, ChangeId)>, workspace: Seq<char>)
    ensures
        change_of(workspaces, workspace) is Some <==> exists|i: int|
            0 <= i < workspaces.len() && (#[trigger] workspaces[i]).0@ == workspace,
        change_of(workspaces, workspace) matches Some(change) ==> exists|i: int|
            0 <= i < workspaces.len() && (#[trigger] workspaces[i]).0@ == workspace && workspaces[i].1@ == change,
{
    lemma_change_of(workspaces, workspace);
}

proof fn lemma_targets_of(conflicted: Seq<(BookmarkRef, Vec<CommitId>)>, branch: Seq<char>)
    ensures
        targets_of(conflicted, branch) is Some <==> exists|i: int|
            0 <= i < conflicted.len() && (#[trigger] conflicted[i]).0@ == BookmarkView::Local(branch),
    decreases conflicted.len(),
{
    if conflicted.len() > 0 && conflicted[0].0@ != BookmarkView::Local(branch) {
        let rest = conflicted.skip(1);
        lemma_targets_of(rest, branch);
        if exists|i: int| 0 <= i < rest.len() && (#[trigger] rest[i]).0@ == BookmarkView::Local(branch) {
            let i = choose|i: int| 0 <= i < rest.len() && (#[trigger] rest[i]).0@ == BookmarkView::Local(branch);
            assert(conflicted[i + 1] == rest[i]);
        }
        if exists|i: int| 0 <= i < conflicted.len() && (#[trigger] conflicted[i]).0@ == BookmarkView::Local(branch) {
            let i = choose|i: int|
                0 <= i < conflicted.len() && (#[trigger] conflicted[i]).0@ == BookmarkView::Local(branch);
            assert(rest[i - 1] == conflicted[i]);
        }
    }
}

/// A branch is in conflict exactly if its own local bookmark is among the conflicted ones: a remote one of
/// the same name is not.
pub proof fn lemma_only_a_local_conflict_counts(conflicted: Seq<(BookmarkRef, Vec<CommitId>)>, branch: Seq<char>)
    ensures
        targets_of(conflicted, branch) is Some <==> exists|i: int|
            0 <= i < conflicted.len() && (#[trigger] conflicted[i]).0@ == BookmarkView::Local(branch),
{
    lemma_targets_of(conflicted, branch);
}

} // verus!
