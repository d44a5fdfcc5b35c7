use knives::commands::start::{
    branch_tip, claimed_lines, create_workspace, decide_start, divergent_refusal_line, force_claim,
    foreign_refusal_line, refuse_claim, resume_claim, resume_workspace_notice, resumed_lines, seized_lines, take_claim,
    taken_workspace_notice, workspace_change, workspace_notice, workspace_path, BranchTip, ClaimDecision, StartStep,
    WorkspaceBase,
};
use knives::config::RepoEntry;
use knives::detect::stale_parents::BookmarkTips;
use knives::ids::{BookmarkRef, BranchName, ChangeId, CommitId, RemoteName, RepoName, WorkspaceName};
use knives::order::OrdMap;
use knives::store::{Claim, OwnerKind};

#[test]
fn a_workspace_is_a_sibling_named_for_the_branch() {
    let path = workspace_path("/home/u/forks/work/default", &BranchName::new("feat/alpha"));
    assert_eq!(path, "/home/u/forks/work/feat-alpha");
}

#[test]
fn slashes_in_a_branch_name_do_not_create_nested_directories() {
    // `feat/a/b` must not become three directories deep, or the workspace
    // lands somewhere nobody looks.
    let path = workspace_path("/repos/x/default", &BranchName::new("feat/a/b"));
    assert_eq!(path.rsplit('/').next(), Some("feat-a-b"));
    assert_eq!(path, "/repos/x/feat-a-b");
}

#[test]
fn seizing_a_claim_needs_force_and_a_reason() {
    assert_eq!(
        decide_start(true, true, None, ClaimDecision::RefuseHeld).unwrap_err(),
        "--force requires --why"
    );
    assert_eq!(
        decide_start(true, true, Some("gone"), ClaimDecision::RefuseHeld).unwrap(),
        StartStep::Force {
            reason: "gone".to_owned()
        }
    );
    assert_eq!(
        decide_start(false, true, Some("gone"), ClaimDecision::RefuseHeld).unwrap(),
        StartStep::Refuse { anonymous: false }
    );
    assert_eq!(
        decide_start(false, true, None, ClaimDecision::RefuseAnonymous).unwrap(),
        StartStep::Refuse { anonymous: true }
    );
    assert_eq!(
        decide_start(false, true, None, ClaimDecision::Resume { possession: true }).unwrap(),
        StartStep::Resume { possession: true }
    );
    assert_eq!(
        decide_start(true, false, None, ClaimDecision::Take).unwrap(),
        StartStep::Take {
            reason: "started work".to_owned()
        }
    );
}

fn remote(name: &str, remote: &str) -> BookmarkRef {
    BookmarkRef::Remote {
        branch: BranchName::new(name),
        remote: RemoteName::new(remote),
    }
}

#[test]
fn a_branch_is_found_locally_then_on_our_remotes_and_never_upstream() {
    let entry = RepoEntry {
        release: Some("r".to_owned()),
        ..RepoEntry::new("u", "o")
    };
    let branch = BranchName::new("feat/a");
    let nothing = Vec::new();
    let mut tips: BookmarkTips = OrdMap::new();
    tips.insert(remote("feat/a", "upstream"), CommitId::new("theirs"));
    assert_eq!(branch_tip(&tips, &nothing, &branch, &entry), BranchTip::Unknown);
    tips.insert(remote("feat/a", "release"), CommitId::new("published"));
    assert_eq!(
        branch_tip(&tips, &nothing, &branch, &entry),
        BranchTip::Remote(RemoteName::new("release"), CommitId::new("published"))
    );
    tips.insert(remote("feat/a", "origin"), CommitId::new("pushed"));
    assert_eq!(
        branch_tip(&tips, &nothing, &branch, &entry),
        BranchTip::Remote(RemoteName::new("origin"), CommitId::new("pushed"))
    );
    let divergent = vec![(
        BookmarkRef::Local(branch.clone()),
        vec![CommitId::new("one"), CommitId::new("two")],
    )];
    assert_eq!(
        branch_tip(&tips, &divergent, &branch, &entry),
        BranchTip::Divergent(vec![CommitId::new("one"), CommitId::new("two")])
    );
    tips.insert(BookmarkRef::Local(branch.clone()), CommitId::new("local"));
    assert_eq!(
        branch_tip(&tips, &divergent, &branch, &entry),
        BranchTip::Local(CommitId::new("local"))
    );
}

#[test]
fn a_new_branch_starts_at_the_shared_base_or_the_fetched_trunk() {
    let branch = BranchName::new("feat/a");
    let base = CommitId::new("base");
    assert_eq!(
        create_workspace(BranchTip::Unknown, &branch, Some(&base), "main@upstream"),
        WorkspaceBase::At {
            revision: "base".to_owned(),
            label: "the release's shared base".to_owned()
        }
    );
    assert_eq!(
        create_workspace(BranchTip::Unknown, &branch, None, "main@upstream"),
        WorkspaceBase::At {
            revision: "main@upstream".to_owned(),
            label: "the fetched upstream trunk".to_owned()
        }
    );
    assert_eq!(
        create_workspace(BranchTip::Local(CommitId::new("tip")), &branch, Some(&base), "main@upstream"),
        WorkspaceBase::At {
            revision: "tip".to_owned(),
            label: "feat/a's tip".to_owned()
        }
    );
    assert_eq!(
        create_workspace(
            BranchTip::Remote(RemoteName::new("origin"), CommitId::new("tip")),
            &branch,
            Some(&base),
            "main@upstream"
        ),
        WorkspaceBase::At {
            revision: "tip".to_owned(),
            label: "feat/a's tip at origin".to_owned()
        }
    );
}

#[test]
fn a_divergent_branch_is_refused_with_its_tips_and_the_way_back() {
    let tips = vec![CommitId::new("0123456789abcdef"), CommitId::new("two")];
    let branch = BranchName::new("feat/a");
    assert_eq!(
        create_workspace(BranchTip::Divergent(tips), &branch, None, "main@upstream"),
        WorkspaceBase::Divergent(vec![CommitId::new("0123456789abcdef"), CommitId::new("two")])
    );
    assert_eq!(
        divergent_refusal_line(
            &branch,
            &[CommitId::new("0123456789abcdef"), CommitId::new("two")]
        ),
        "feat/a is divergent (2 tips: 0123456789ab, two); `jj bookmark set feat/a -r <commit> --allow-backwards` on \
         the one to continue, then start again"
    );
}

#[test]
fn a_workspace_without_a_working_copy_is_an_error() {
    let workspaces = vec![(WorkspaceName::new("feat-a"), ChangeId::new("zzz"))];
    assert_eq!(
        workspace_change(&workspaces, &WorkspaceName::new("feat-a")),
        Ok("zzz".to_owned())
    );
    assert_eq!(
        workspace_change(&workspaces, &WorkspaceName::new("feat-b")),
        Err("workspace feat-b has no working copy".to_owned())
    );
}

#[test]
fn the_workspace_lines_say_where_it_is_and_how_it_is_rebuilt() {
    let workspace = WorkspaceName::new("feat-a");
    let branch = BranchName::new("feat/a");
    assert_eq!(
        resume_workspace_notice("/w", None, &workspace, &branch),
        "workspace missing at /w; `knives start feat/a --force --why \"…\"` rebuilds it"
    );
    assert_eq!(
        resume_workspace_notice("/w", Some(&Ok("zzz".to_owned())), &workspace, &branch),
        "workspace /w at zzz"
    );
    assert_eq!(
        resume_workspace_notice("/w", Some(&Err("lost".to_owned())), &workspace, &branch),
        "workspace /w is present but not registered as feat-a (lost); `knives start feat/a --force --why \"…\"` \
         rebuilds it"
    );
    assert_eq!(workspace_notice("/w", "zzz", true, None), "workspace /w at zzz; left as-is");
    assert_eq!(workspace_notice("/w", "zzz", false, None), "workspace /w at zzz");
    assert_eq!(
        workspace_notice("/w", "zzz", true, Some(("base", "the release's shared base"))),
        "created missing workspace /w at zzz based on base (the release's shared base)"
    );
}

#[test]
fn the_ledger_says_how_a_claim_changed_hands() {
    let claim = Claim {
        repo: "demo".to_owned(),
        branch: "feat/a".to_owned(),
        owner: "ann".to_owned(),
        kind: OwnerKind::HarnessSession,
        why: "fixing".to_owned(),
        started: "2026-08-01T00:00:00Z".to_owned(),
        files: Vec::new(),
    };
    assert_eq!(
        force_claim(&claim, "never", "gone home"),
        "seized from ann (harness-session, claimed 2026-08-01T00:00:00Z, last seen never): gone home"
    );
    assert_eq!(resume_claim(true), "resumed via workspace possession");
    assert_eq!(resume_claim(false), "resumed");
    assert_eq!(take_claim("fixing", false), "claimed: fixing");
    assert_eq!(take_claim("fixing", true), "claimed: fixing (adopted existing workspace)");
    assert_eq!(
        refuse_claim(&BranchName::new("feat/a"), "held by ann", false),
        "held by ann\nuse `knives start feat/a --force --why \"…\"` to seize the claim"
    );
    assert_eq!(
        refuse_claim(&BranchName::new("feat/a"), "held by ann", true),
        "both sides are anonymous identities, so they can never match; held by ann\nuse `knives start feat/a --force \
         --why \"…\"` to seize the claim"
    );
}

#[test]
fn a_start_ends_by_saying_what_was_opened_and_who_holds_it() {
    let adopted = taken_workspace_notice("/w/feat-a", "qpv", None);
    assert_eq!(adopted, "adopted existing workspace /w/feat-a at qpv; left as-is");
    let created = taken_workspace_notice("/w/feat-a", "qpv", Some(("abc", "feat/a's tip")));
    assert_eq!(created, "workspace /w/feat-a at qpv based on abc (feat/a's tip)");
    assert_eq!(
        claimed_lines(&created, &RepoName::new("demo"), &BranchName::new("feat/a"), "ann"),
        "workspace /w/feat-a at qpv based on abc (feat/a's tip)\nclaimed demo/feat/a for ann"
    );
    assert_eq!(seized_lines("held by bob", "workspace"), "seized held by bob\nworkspace");
    assert_eq!(
        resumed_lines("resumed", "held by ann", "workspace"),
        "resumed\nheld by ann\nworkspace"
    );
    assert_eq!(
        foreign_refusal_line("/w/feat-a", "another repository"),
        "cannot adopt /w/feat-a: another repository; move the foreign workspace or choose a different branch"
    );
}
