use knives::commands::wip::{overlaps, workspace_for};
use knives::detect::divergence::divergent_changes;
use knives::detect::double_checkout::double_checkout;
use knives::detect::double_cut::same_name_disagreements;
use knives::detect::landed::{classify_landed, LandedVerdict, RebaseOutcome};
use knives::detect::overlap::branch_overlaps;
use knives::detect::pull_state::{pull_state_findings, PullState};
use knives::detect::stale_parents::{stale_parents, BookmarkTips, ReleaseParent};
use knives::detect::superseded::carried_elsewhere;
use knives::detect::{FindingKind, Subject};
use knives::forge::{DiffTotals, PullDetails};
use knives::ids::{BookmarkRef, BranchName, ChangeId, CommitId, ReleaseScheme, RemoteName, WorkspaceName};
use knives::order::OrdMap;

fn touched(pairs: &[(&str, &[&str])]) -> OrdMap<String, Vec<String>> {
    let mut map: OrdMap<String, Vec<String>> = OrdMap::new();
    for (key, texts) in pairs {
        map.insert((*key).to_owned(), texts.iter().map(|text| (*text).to_owned()).collect());
    }
    map
}

fn expected_label(kind: FindingKind) -> &'static str {
    match kind {
        FindingKind::DoubleCheckout => "double-checkout",
        FindingKind::StaleParent => "stale-parent",
        FindingKind::Divergence => "divergence",
        FindingKind::StaleReview => "stale-review",
        FindingKind::ClaimOverlap => "claim-overlap",
        FindingKind::BranchOverlap => "branch-overlap",
        FindingKind::UnmetDependency => "unmet-dependency",
        FindingKind::Unmergeable => "unmergeable",
        FindingKind::WrongBase => "wrong-base",
        FindingKind::ChecksFailing => "checks-failing",
        FindingKind::CarriedElsewhere => "carried-elsewhere",
        FindingKind::MixedBase => "mixed-base",
        FindingKind::SupersededBase => "superseded-base",
        FindingKind::EmptyDiff => "empty-diff",
        FindingKind::DoubleCut => "double-cut",
        FindingKind::DeletedHeadRef => "deleted-head-ref",
        FindingKind::EmptyTipCommit => "empty-tip-commit",
        FindingKind::RemoteDrift => "remote-drift",
        FindingKind::UnconfiguredRemote => "unconfigured-remote",
        FindingKind::ZombieBranch => "zombie-branch",
        FindingKind::ReleaseDrift => "release-drift",
        FindingKind::OrphanCommit => "orphan-commit",
        FindingKind::StackedHistory => "stacked-history",
        FindingKind::ImmutableHeadsRule => "immutable-heads-rule",
    }
}

#[test]
fn every_kind_renders_a_stable_label() {
    // Given: the full set of kinds a report can contain
    // Add every new FindingKind here; expected_label cannot make this array exhaustive.
    let kinds = [
        FindingKind::DoubleCheckout,
        FindingKind::StaleParent,
        FindingKind::Divergence,
        FindingKind::StaleReview,
        FindingKind::ClaimOverlap,
        FindingKind::BranchOverlap,
        FindingKind::UnmetDependency,
        FindingKind::Unmergeable,
        FindingKind::WrongBase,
        FindingKind::ChecksFailing,
        FindingKind::CarriedElsewhere,
        FindingKind::MixedBase,
        FindingKind::SupersededBase,
        FindingKind::EmptyDiff,
        FindingKind::DoubleCut,
        FindingKind::DeletedHeadRef,
        FindingKind::EmptyTipCommit,
        FindingKind::RemoteDrift,
        FindingKind::UnconfiguredRemote,
        FindingKind::ZombieBranch,
        FindingKind::ReleaseDrift,
        FindingKind::OrphanCommit,
        FindingKind::StackedHistory,
        FindingKind::ImmutableHeadsRule,
    ];
    // When: each is rendered
    let labels: Vec<String> = kinds
        .into_iter()
        .map(|kind| {
            let expected = expected_label(kind);
            assert_eq!(kind.as_str(), expected);
            expected.to_owned()
        })
        .collect();
    // Then: every label is distinct, so a reader can tell them apart
    let mut unique = labels.clone();
    unique.sort_unstable();
    unique.dedup();
    assert_eq!(unique.len(), labels.len());
}

fn changed(change: &str, commit: &str) -> (ChangeId, CommitId) {
    (ChangeId::new(change), CommitId::new(commit))
}

#[test]
fn no_finding_when_each_change_has_one_commit() {
    let rows = [changed("aaaa", "1111"), changed("bbbb", "2222")];
    assert!(divergent_changes(&rows).is_empty());
}

#[test]
fn a_change_on_two_commits_names_both() {
    // Given: one change id carried by two commits
    let rows = [
        changed("aaaa", "1111"),
        changed("aaaa", "2222"),
        changed("bbbb", "3333"),
    ];
    // When: the detector runs
    let findings = divergent_changes(&rows);
    // Then: exactly the divergent change is reported, with both commits
    assert_eq!(findings.len(), 1);
    assert_eq!(findings[0].kind, FindingKind::Divergence);
    assert_eq!(findings[0].subject.to_text(), "aaaa");
    assert!(findings[0].detail.contains("1111"));
    assert!(findings[0].detail.contains("2222"));
}

fn checked_out(workspace: &str, change: &str) -> (WorkspaceName, ChangeId) {
    (WorkspaceName::new(workspace), ChangeId::new(change))
}

#[test]
fn no_finding_when_every_workspace_is_on_its_own_change() {
    // Given: two workspaces on distinct changes
    let rows = [checked_out("default", "aaaaaaaa"), checked_out("other", "bbbbbbbb")];
    // When / Then: nothing to report
    assert!(double_checkout(&rows).is_empty());
}

#[test]
fn a_shared_change_names_both_workspaces_and_carries_a_remedy() {
    // Given: two workspaces on one change
    let rows = [checked_out("default", "qxtmtnqn"), checked_out("terminal", "qxtmtnqn")];
    // When: the detector runs
    let findings = double_checkout(&rows);
    // Then: one finding, naming both, with a fix
    assert_eq!(findings.len(), 1);
    assert_eq!(findings[0].kind, FindingKind::DoubleCheckout);
    assert_eq!(findings[0].subject.to_text(), "qxtmtnqn");
    assert!(findings[0].detail.contains("default"));
    assert!(findings[0].detail.contains("terminal"));
}

#[test]
fn one_finding_per_shared_change_not_one_per_pair() {
    // Given: three workspaces on one change, which is three pairs
    let rows = [checked_out("a", "x"), checked_out("b", "x"), checked_out("c", "x"), checked_out("d", "y")];
    // When: the detector runs
    let findings = double_checkout(&rows);
    // Then: the change is reported once, not three times
    let subjects: Vec<String> = findings.iter().map(|f| f.subject.to_text()).collect();
    assert_eq!(subjects, ["x".to_owned()]);
}

fn local(name: &str) -> BookmarkRef {
    BookmarkRef::Local(BranchName::new(name))
}

fn remote(name: &str, remote: &str) -> BookmarkRef {
    BookmarkRef::Remote {
        branch: BranchName::new(name),
        remote: RemoteName::new(remote),
    }
}

fn tips(entries: Vec<(BookmarkRef, &str)>) -> BookmarkTips {
    let mut tips: BookmarkTips = OrdMap::new();
    for (reference, commit) in entries {
        tips.insert(reference, CommitId::new(commit));
    }
    tips
}

#[test]
fn one_release_name_at_two_commits_keeps_every_ref() {
    let name = "release/2026-08-30";
    let local_ref = local(name);
    let origin_ref = remote(name, "origin");
    let found = same_name_disagreements(
        &tips(vec![
            (local_ref.clone(), "aaaaaaaa"),
            (origin_ref.clone(), "bbbbbbbb"),
        ]),
        &ReleaseScheme::Dated,
    );

    assert_eq!(
        found,
        vec![(
            BranchName::new(name),
            vec![
                (local_ref, CommitId::new("aaaaaaaa")),
                (origin_ref, CommitId::new("bbbbbbbb")),
            ],
        ),]
    );
}

#[test]
fn agreeing_release_refs_are_not_a_disagreement() {
    assert!(
        same_name_disagreements(
            &tips(vec![
                (local("release/2026-08-30"), "aaaaaaaa"),
                (remote("release/2026-08-30", "origin"), "aaaaaaaa"),
            ]),
            &ReleaseScheme::Dated,
        )
        .is_empty()
    );
}

#[test]
fn a_release_ref_on_an_untrusted_remote_never_counts() {
    assert!(
        same_name_disagreements(
            &tips(vec![
                (local("release/2026-08-30"), "aaaaaaaa"),
                (remote("release/2026-08-30", "origin"), "aaaaaaaa"),
                (remote("release/2026-08-30", "upstream"), "bbbbbbbb"),
            ]),
            &ReleaseScheme::Dated,
        )
        .is_empty()
    );
}

#[test]
fn a_fixed_scheme_groups_its_configured_branch() {
    let fixed = "integration";
    let local_ref = local(fixed);
    let release_ref = remote(fixed, "release");
    let found = same_name_disagreements(
        &tips(vec![
            (local_ref.clone(), "aaaaaaaa"),
            (release_ref.clone(), "bbbbbbbb"),
            (local("release/2026-08-30"), "cccccccc"),
            (remote("release/2026-08-30", "origin"), "dddddddd"),
        ]),
        &ReleaseScheme::Fixed(BranchName::new(fixed)),
    );

    assert_eq!(
        found,
        vec![(
            BranchName::new(fixed),
            vec![
                (local_ref, CommitId::new("aaaaaaaa")),
                (release_ref, CommitId::new("bbbbbbbb")),
            ],
        ),]
    );
}

#[test]
fn an_empty_replay_means_the_trunk_already_has_it() {
    assert_eq!(
        classify_landed(RebaseOutcome::Empty),
        LandedVerdict::InTrunk
    );
}

#[test]
fn a_conflicted_replay_says_only_that_it_conflicts() {
    assert_eq!(
        classify_landed(RebaseOutcome::Conflicted),
        LandedVerdict::ConflictsWithTrunk
    );
}

#[test]
fn a_clean_non_empty_replay_means_the_trunk_lacks_it() {
    assert_eq!(
        classify_landed(RebaseOutcome::CleanNonEmpty),
        LandedVerdict::NotInTrunk
    );
}

#[test]
fn each_verdict_renders_a_distinct_label() {
    let labels = [
        LandedVerdict::InTrunk.as_str(),
        LandedVerdict::ConflictsWithTrunk.as_str(),
        LandedVerdict::NotInTrunk.as_str(),
    ];
    let mut unique = labels.to_vec();
    unique.sort_unstable();
    unique.dedup();
    assert_eq!(unique.len(), 3);
}

#[test]
fn one_file_touched_by_two_branches_is_one_finding_naming_both() {
    // Given: two branches change one shared file and one exclusive file
    let touching = touched(&[
        ("feat/a", &["src/lib.rs", "README.md"]),
        ("feat/b", &["src/lib.rs"]),
    ]);
    // When: overlaps are detected
    let findings = branch_overlaps(&touching);
    // Then: the shared file names both branches exactly once
    assert_eq!(
        findings.len(),
        1,
        "one per file, not per pair: {findings:?}"
    );
    let finding = findings.first().expect("the shared file must be reported");
    assert!(finding.detail.contains("src/lib.rs"));
    assert!(finding.detail.contains("feat/a"));
    assert!(finding.detail.contains("feat/b"));
}

#[test]
fn three_branches_on_one_file_stay_one_finding() {
    // Given: three branches change one file
    let touching = touched(&[
        ("feat/a", &["src/lib.rs"]),
        ("feat/b", &["src/lib.rs"]),
        ("feat/c", &["src/lib.rs"]),
    ]);
    // When: overlaps are detected
    let findings = branch_overlaps(&touching);
    // Then: the file remains one fact, while all branches are named
    assert_eq!(findings.len(), 1);
    let finding = findings.first().expect("the shared file must be reported");
    assert!(finding.detail.contains("feat/a"));
    assert!(finding.detail.contains("feat/b"));
    assert!(finding.detail.contains("feat/c"));
}

#[test]
fn files_touched_by_one_branch_are_not_findings() {
    // Given: distinct files touched by distinct branches
    let touching = touched(&[("feat/a", &["src/lib.rs"]), ("feat/b", &["src/main.rs"])]);
    // When: overlaps are detected
    let findings = branch_overlaps(&touching);
    // Then: neither file is reported
    assert!(findings.is_empty());
}

fn details(
    diff: Option<DiffTotals>,
    head_gone: Option<bool>,
    tip_empty: Option<bool>,
) -> PullDetails {
    PullDetails {
        diff,
        head_ref_deleted: head_gone,
        tip_commit_empty: tip_empty,
        ..PullDetails::default()
    }
}

#[test]
fn an_open_pull_with_an_answered_empty_diff_is_a_finding() {
    // Given: an open pull request the facts batch answered with zero changes
    let details = details(Some(DiffTotals::default()), Some(false), Some(false));

    // When: present-state incidents are detected
    let findings = pull_state_findings(&[PullState {
        number: 7,
        open: true,
        details: &details,
    }]);

    // Then: its empty diff is reported against that pull request
    let finding = findings.first().expect("the empty diff must be reported");
    assert_eq!(findings.len(), 1);
    assert_eq!(finding.kind, FindingKind::EmptyDiff);
    assert_eq!(finding.subject, Subject::PullRequest(7));
}

#[test]
fn unanswered_fields_and_closed_pulls_produce_nothing() {
    // Given: unanswered facts and a closed pull with every incident signal
    let unanswered = details(None, None, None);
    let closed = details(Some(DiffTotals::default()), Some(true), Some(true));

    // When: present-state incidents are detected
    let findings = pull_state_findings(&[
        PullState {
            number: 7,
            open: true,
            details: &unanswered,
        },
        PullState {
            number: 8,
            open: false,
            details: &closed,
        },
    ]);

    // Then: absent facts are not interpreted as incidents and closed pull state is ignored
    assert!(
        findings.is_empty(),
        "None is not-consulted and closed pulls carry no incident: {findings:?}"
    );
}

#[test]
fn deleted_head_and_empty_tip_are_their_own_findings() {
    // Given: an open pull with content but a deleted head and an empty tip
    let details = details(
        Some(DiffTotals {
            additions: 3,
            deletions: 1,
            changed_files: 1,
        }),
        Some(true),
        Some(true),
    );

    // When: present-state incidents are detected
    let kinds: Vec<_> = pull_state_findings(&[PullState {
        number: 9,
        open: true,
        details: &details,
    }])
    .into_iter()
    .map(|finding| finding.kind)
    .collect();

    // Then: both independent facts are retained in their stable order
    assert_eq!(
        kinds,
        vec![FindingKind::DeletedHeadRef, FindingKind::EmptyTipCommit]
    );
}

#[test]
fn findings_preserve_pull_order_and_order_incidents_within_a_pull() {
    // Given: two open pull requests in reported row order with overlapping incidents
    let first = details(Some(DiffTotals::default()), Some(true), Some(true));
    let second = details(
        Some(DiffTotals {
            additions: 1,
            deletions: 0,
            changed_files: 1,
        }),
        Some(false),
        Some(true),
    );

    // When: present-state incidents are detected
    let findings = pull_state_findings(&[
        PullState {
            number: 12,
            open: true,
            details: &first,
        },
        PullState {
            number: 3,
            open: true,
            details: &second,
        },
    ]);

    // Then: each pull's facts are grouped in report order and have one stable incident order
    let subjects: Vec<_> = findings
        .iter()
        .map(|finding| finding.subject.clone())
        .collect();
    let kinds: Vec<_> = findings.iter().map(|finding| finding.kind).collect();
    assert_eq!(
        subjects,
        vec![
            Subject::PullRequest(12),
            Subject::PullRequest(12),
            Subject::PullRequest(12),
            Subject::PullRequest(3),
        ]
    );
    assert_eq!(
        kinds,
        vec![
            FindingKind::EmptyDiff,
            FindingKind::DeletedHeadRef,
            FindingKind::EmptyTipCommit,
            FindingKind::EmptyTipCommit,
        ]
    );
}

fn parent(commit: &str, bookmarks: Vec<BookmarkRef>) -> ReleaseParent {
    ReleaseParent {
        commit: CommitId::new(commit),
        bookmarks,
    }
}

#[test]
fn no_finding_when_every_parent_holds_its_bookmark() {
    let parents = [parent("0700338c", vec![local("feat/beta")])];
    let tips = tips(vec![(local("feat/beta"), "0700338c")]);
    assert!(stale_parents(&parents, &tips).is_empty());
}

#[test]
fn a_parent_with_no_bookmark_is_stale() {
    // Given: a parent nothing points at
    let parents = [parent("876dc2d6", vec![])];
    let tips = tips(vec![(local("feat/alpha"), "118d0fcf")]);
    // When / Then: reported, saying why
    let findings = stale_parents(&parents, &tips);
    assert_eq!(findings.len(), 1);
    assert_eq!(findings[0].subject.to_text(), "876dc2d6");
    assert!(findings[0].detail.contains("no bookmark"));
}

#[test]
fn a_parent_whose_bookmark_moved_reports_where_it_went() {
    let parents = [parent("876dc2d6", vec![local("feat/alpha")])];
    let tips = tips(vec![(local("feat/alpha"), "118d0fcf")]);
    let findings = stale_parents(&parents, &tips);
    assert_eq!(findings.len(), 1);
    assert!(findings[0].detail.contains("118d0fcf"));
}

#[test]
fn a_remote_ref_holds_a_parent_when_the_remote_still_points_at_it() {
    // A release cut from remote refs is genuinely held by them. Treating
    // remote refs as never-holding reported every such parent as stale.
    let parents = [parent("72193319", vec![remote("release/dated", "origin")])];
    let tips = tips(vec![(remote("release/dated", "origin"), "72193319")]);
    assert!(stale_parents(&parents, &tips).is_empty());
}

#[test]
fn a_local_bookmark_moving_does_not_excuse_a_stale_remote_ref() {
    // Local and remote are separate keys: the local tip matching some other
    // commit must not make a parent look held.
    let parents = [parent("876dc2d6", vec![remote("feat/alpha", "origin")])];
    let tips = tips(vec![
        (local("feat/alpha"), "876dc2d6"),
        (remote("feat/alpha", "origin"), "118d0fcf"),
    ]);
    assert_eq!(stale_parents(&parents, &tips).len(), 1);
}

#[test]
fn a_tip_reachable_from_another_reference_is_reported_with_its_carriers() {
    // Given: a branch and an upstream bookmark whose history reaches its tip
    let branch = BranchName::new("feat/alpha");
    let carrier = BookmarkRef::Remote {
        branch: BranchName::new("maintainer/rework"),
        remote: RemoteName::new("upstream"),
    };

    // When: the carrier is classified
    let finding = carried_elsewhere(&branch, &[carrier]).expect("a carrier is a finding");

    // Then: the fact names the carrier without interpreting why it is reachable
    assert_eq!(finding.kind, FindingKind::CarriedElsewhere);
    assert!(
        finding.detail.contains("maintainer/rework@upstream"),
        "{}",
        finding.detail
    );
}

#[test]
fn no_carriers_is_not_a_finding() {
    // Given: a branch with no other reachable bookmark
    let branch = BranchName::new("feat/alpha");

    // When: its empty carrier set is classified
    let finding = carried_elsewhere(&branch, &[]);

    // Then: absence of a carrier creates no finding
    assert!(finding.is_none());
}

#[test]
fn two_claims_on_one_file_are_reported_with_both_holders() {
    let findings = overlaps(&touched(&[("src/x.rs", &["one on r/a", "two on r/b"])]));
    assert_eq!(findings.len(), 1);
    assert_eq!(findings[0].kind, FindingKind::ClaimOverlap);
    assert!(findings[0].detail.contains("one on r/a"));
    assert!(findings[0].detail.contains("two on r/b"));
}

#[test]
fn a_file_only_one_claim_touches_is_not_a_finding() {
    assert!(overlaps(&touched(&[("src/x.rs", &["one on r/a"])])).is_empty());
}

#[test]
fn a_workspace_name_is_derived_from_the_branch() {
    // `knives start` flattens slashes, so the mapping needs no storage.
    assert_eq!(workspace_for("feat/alpha"), "feat-alpha");
    assert_eq!(workspace_for("feat/a/b"), "feat-a-b");
}

#[test]
fn a_branch_that_lists_a_file_twice_is_one_branch() {
    assert!(branch_overlaps(&touched(&[("feat/a", &["x", "x"])])).is_empty());
    let findings = branch_overlaps(&touched(&[("feat/b", &["x"]), ("feat/a", &["y", "x", "x"])]));
    assert_eq!(findings.len(), 1);
    assert_eq!(findings[0].detail, "x is touched by feat/a, feat/b");
}

#[test]
fn a_holder_that_is_listed_twice_is_one_holder() {
    assert!(overlaps(&touched(&[("x", &["one", "one"])])).is_empty());
    let findings = overlaps(&touched(&[("x", &["two", "one", "two"])]));
    assert_eq!(findings.len(), 1);
    assert_eq!(findings[0].detail, "x is being changed by 2: two, one");
}

#[test]
fn a_commit_that_is_listed_twice_is_one_commit() {
    let row = |change: &str, commit: &str| (ChangeId::new(change), CommitId::new(commit));
    assert!(divergent_changes(&[row("x", "a"), row("x", "a")]).is_empty());
    let findings = divergent_changes(&[row("x", "b"), row("x", "a"), row("x", "b")]);
    assert_eq!(findings.len(), 1);
    assert!(findings[0].detail.starts_with("change x exists as 2 commits (a, b);"));
}

#[test]
fn divergence_does_not_depend_on_the_order_of_the_rows() {
    let row = |change: &str, commit: &str| (ChangeId::new(change), CommitId::new(commit));
    let forwards = divergent_changes(&[row("x", "b"), row("w", "c"), row("x", "a"), row("w", "d"), row("v", "e")]);
    let backwards = divergent_changes(&[row("v", "e"), row("w", "d"), row("x", "a"), row("w", "c"), row("x", "b")]);
    assert_eq!(forwards.len(), 2);
    assert!(forwards[0].detail.starts_with("change w exists as 2 commits (c, d);"));
    assert_eq!(forwards, backwards);
}

#[test]
fn a_workspace_that_is_listed_twice_is_one_workspace() {
    let row = |name: &str, change: &str| (WorkspaceName::new(name), ChangeId::new(change));
    assert!(double_checkout(&[row("a", "x"), row("a", "x")]).is_empty());
    let findings = double_checkout(&[row("b", "x"), row("a", "x"), row("b", "x")]);
    assert_eq!(findings.len(), 1);
    assert_eq!(findings[0].detail, "workspaces a, b all have @ on change x");
}
