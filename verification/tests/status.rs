use std::collections::BTreeMap;

use knives::cli::Exit;
use knives::commands::status::claims::{
    add_workspaces, claim_last_seen, fold_claims, notches_from_ledger, ClaimFoldInput, ObservedClaim,
};
use knives::commands::status::dependencies::{needs, repos_to_ask, unmet_dependencies, DependencyContext};
use knives::commands::status::gathering::{gather, StatusInput};
use knives::commands::status::merged::{local_content, settle_merged_landed, LocalContent, MergedLandedInput};
use knives::commands::status::overlap::{add_branch_overlap_findings, path_question, BranchFiles};
use knives::commands::status::phases::{
    chunk_length, conflicted_bookmark_findings, forge_phase, landed_verdict, probe_inputs, probe_one,
    relation_to_origin, select_status_numbers, ProbeStep,
};
use knives::commands::status::releases::releases_to_scan;
use knives::commands::status::render::{branch_table, finding_lines, render, Ages, FindingSummary};
use knives::commands::status::rows::{
    add_pull_findings, branch_rows, branch_state, maintained_branches, record_origin_relation, review_cell, state_for,
    BranchStateInput, PendingPushRelation, ProbeInput, ProbedBranch, PullFindingInput, RowContext, StateInput,
};
use knives::commands::status::{
    cap, exit_for, group_findings, immutable_heads_finding, timing_enabled, unjudged_note, BranchRow, BranchState,
    ClaimCell, FindingGroup, GroupedFinding, LastNotch, OriginRelation, PullCell, PushRelation, Report, SeenWindow,
    StatedRule, Timings,
};
use knives::config::{Registry, RepoEntry};
use knives::detect::landed::{LandedVerdict, RebaseOutcome};
use knives::detect::stale_parents::BookmarkTips;
use knives::detect::{Finding, FindingKind, Subject};
use knives::forge::{
    index_pulls, CheckRun, ChecksSummary, MergeCommit, PullDetails, PullFacts, PullRequest, PullSummary,
};
use knives::forge_cache::landed_key;
use knives::graph::CommitGraph;
use knives::ids::{BookmarkRef, BranchName, ChangeId, CommitId, ReleaseScheme, RemoteName, RepoName, WorkspaceName};
use knives::ledger::{Entry, Kind};
use knives::order::OrdMap;
use knives::seen::{LastSeen, Seen};
use knives::snapshot::Snapshot;
use knives::store::{Claim, OwnerKind, Requirement, Store};

fn local(name: &str) -> BookmarkRef {
    BookmarkRef::Local(BranchName::new(name))
}

fn remote(name: &str, remote: &str) -> BookmarkRef {
    BookmarkRef::Remote {
        branch: BranchName::new(name),
        remote: RemoteName::new(remote),
    }
}

fn tips(entries: &[(BookmarkRef, &str)]) -> BookmarkTips {
    let mut tips: BookmarkTips = OrdMap::new();
    for (reference, commit) in entries {
        tips.insert(reference.clone(), CommitId::new(commit));
    }
    tips
}

#[test]
fn findings_group_by_kind_in_first_seen_order_and_keep_every_subject() {
    let mut findings = vec![Finding::new(
        FindingKind::WrongBase,
        Subject::PullRequest(1),
        "first".to_owned(),
    )];
    findings.extend((0..30).map(|number| {
        Finding::new(
            FindingKind::Divergence,
            Subject::Branch(BranchName::new(&format!("feat/{number}"))),
            format!("feat/{number} is on two commits"),
        )
    }));

    let groups = group_findings(&findings);

    // Every subject and its detail survive grouping: the one-line text view
    // truncates, the machine output and --verbose do not.
    assert_eq!(groups.len(), 2, "was: {groups:?}");
    assert_eq!(groups[0].kind, FindingKind::WrongBase);
    assert_eq!(groups[1].kind, FindingKind::Divergence);
    assert_eq!(groups[1].items.len(), 30);
    assert_eq!(groups[1].items[0].subject, "feat/0");
    assert_eq!(groups[1].items[29].detail, "feat/29 is on two commits");
    let text = render(
        &Report {
            findings: groups,
            ..Report::default()
        },
        false,
        &OrdMap::new(),
    );
    assert!(
        text.contains("feat/7, and 22 more") && !text.contains("feat/8"),
        "the one-line view caps at eight subjects: {text}"
    );
}

#[test]
fn a_timing_line_names_every_phase_it_measured() {
    let timings = Timings {
        repository: 4,
        health: 10,
        divergent_changes: 11,
        releases: 12,
        setup: 5,
        forge: 3400,
        probes: 8100,
        origin_relations: 16,
        divergent_rows: 17,
        carried_findings: 18,
        touching: 19,
        claims: 20,
        report: 6,
        total: 11_600,
    };
    let line = timings.line("a-repo");
    for phase in [
        "repository-open 4ms",
        "health 10ms",
        "divergent-changes 11ms",
        "releases 12ms",
        "setup 5ms",
        "forge 3400ms",
        "probes 8100ms",
        "origin-relations 16ms",
        "divergent-rows 17ms",
        "carried-findings 18ms",
        "touching 19ms",
        "claims 20ms",
        "report 6ms",
        "total 11600ms",
    ] {
        assert!(line.contains(phase), "was: {line}");
    }
    assert!(timing_enabled(Some("1")));
    assert!(!timing_enabled(None));
}

#[test]
fn a_ledger_that_cannot_be_read_is_an_unanswered_question_not_an_absence() {
    let (entries, problem) = notches_from_ledger(Some(Err("not a ledger entry".to_owned())));
    assert!(entries.is_empty());
    let report = Report {
        problems: problem.into_iter().collect(),
        ..Report::default()
    };
    assert_eq!(exit_for(&report), Exit::Incomplete);
    let (entries, problem) = notches_from_ledger(None);
    assert!(entries.is_empty() && problem.is_none());
}

fn claim(branch: &str, owner: &str, files: &[&str]) -> Claim {
    Claim {
        repo: "demo".to_owned(),
        branch: branch.to_owned(),
        owner: owner.to_owned(),
        kind: OwnerKind::HarnessSession,
        why: "status model".to_owned(),
        started: "2026-08-01T00:00:00Z".to_owned(),
        files: files.iter().map(|file| (*file).to_owned()).collect(),
    }
}

fn owner_seen(owner: &str, at: &str) -> Seen {
    let mut sightings: OrdMap<String, String> = OrdMap::new();
    sightings.insert(owner.to_owned(), at.to_owned());
    let mut seen = Seen::default();
    seen.owners.insert(OwnerKind::HarnessSession, sightings);
    seen
}

#[test]
fn activity_errors_keep_sidecar_observations_and_mark_unsighted_claims_within_window() {
    let claim = claim("feat/alpha", "session", &[]);
    assert_eq!(
        claim_last_seen(&claim, None, &Seen::default()),
        LastSeen::NoneWithinWindow
    );
    assert!(matches!(
        claim_last_seen(&claim, None, &owner_seen("session", "2026-08-30T09:15:00Z")),
        LastSeen::At(_)
    ));
}

#[test]
fn a_sighting_that_names_no_moment_is_not_one() {
    let claim = claim("feat/alpha", "session", &[]);
    assert_eq!(
        claim_last_seen(&claim, None, &owner_seen("session", "yesterday")),
        LastSeen::NoneWithinWindow
    );
    assert_eq!(
        claim_last_seen(&claim, Some(&LastSeen::NoneSinceClaim), &owner_seen("session", "2026-08-30T09:15:00Z")),
        LastSeen::NoneSinceClaim
    );
}

#[test]
fn the_later_sighting_of_owner_and_workspace_counts() {
    let claim = claim("feat/alpha", "session", &[]);
    let mut seen = owner_seen("session", "2026-08-30T09:15:00+02:00");
    seen.workspaces
        .insert("demo/feat-alpha".to_owned(), "2026-08-30T07:20:00Z".to_owned());
    assert_eq!(
        claim_last_seen(&claim, None, &seen),
        LastSeen::At("2026-08-30T07:20:00Z".to_owned())
    );
}

fn note(subject: Option<&str>, text: &str) -> Entry {
    Entry {
        ts: "2026-08-15T22:14:01Z".to_owned(),
        owner: "ses_fff688".to_owned(),
        subject: subject.map(ToOwned::to_owned),
        kind: Kind::Note,
        disposition: Some("ruled-out".to_owned()),
        text: text.to_owned(),
        evidence: Vec::new(),
        anchor: None,
        pr: None,
        parents: Vec::new(),
    }
}

#[test]
fn report_notch_text_is_collapsed_and_capped_at_120_characters() {
    let note = note(Some("feat/alpha"), &format!("first\n{}", "x".repeat(140)));

    let last = LastNotch::of(&[note], Some("feat/alpha")).expect("a notch");

    assert!(!last.text.contains('\n'), "was: {}", last.text);
    assert_eq!(last.text.chars().count(), 121, "was: {}", last.text);
    assert!(last.text.ends_with('…'), "was: {}", last.text);
    assert_eq!(cap("short", 120), "short");
}

#[test]
fn release_scanning_selects_the_newest_local_and_origin_releases() {
    let map = tips(&[
        (local("release/2026-07-17.5"), "aaa"),
        (local("release/2026-07-28"), "bbb"),
        (remote("release/2026-07-20", "origin"), "ccc"),
        (remote("release/2026-07-29", "origin"), "ddd"),
    ]);

    let (chosen, skipped) = releases_to_scan(&map, &ReleaseScheme::Dated, "origin");
    let names: Vec<String> = chosen.iter().map(|(reference, _)| reference.to_text()).collect();

    assert_eq!(
        names,
        vec!["release/2026-07-28", "release/2026-07-29@origin"]
    );
    assert_eq!(skipped, 2);
}

#[test]
fn fixed_release_scanning_uses_only_the_local_and_publish_remote_positions() {
    let fixed = ReleaseScheme::Fixed(BranchName::new("integration"));
    let map = tips(&[
        (local("integration"), "aaa"),
        (remote("integration", "origin"), "bbb"),
        (remote("integration", "release"), "ccc"),
    ]);

    let (chosen, skipped) = releases_to_scan(&map, &fixed, "origin");
    let names: Vec<String> = chosen.iter().map(|(reference, _)| reference.to_text()).collect();

    assert_eq!(names, vec!["integration", "integration@origin"]);
    assert_eq!(skipped, 0);
}

#[test]
fn a_branch_without_a_single_tip_is_noted_but_does_not_make_status_incomplete() {
    let row = BranchRow::bare(BranchName::new("feat/divergent"));
    assert_eq!(path_question("main@upstream", &row), None);
    let compared = add_branch_overlap_findings(vec![BranchFiles {
        branch: row.name.clone(),
        files: None,
    }]);
    assert!(compared.notes.iter().any(|note| note.contains("no single tip")));
    let report = Report {
        branches: vec![row],
        notes: compared.notes,
        problems: compared.problems,
        ..Report::default()
    };
    assert_ne!(exit_for(&report), Exit::Incomplete);
}

#[test]
fn a_branch_whose_path_diff_errors_is_unanswered() {
    let compared = add_branch_overlap_findings(vec![BranchFiles {
        branch: BranchName::new("feat/unresolvable"),
        files: Some(Err("not a repository".to_owned())),
    }]);
    let report = Report {
        problems: compared.problems,
        ..Report::default()
    };
    assert_eq!(exit_for(&report), Exit::Incomplete);
}

#[test]
fn problems_and_grouped_findings_drive_the_existing_exit_contract() {
    let blocked = Report {
        problems: vec!["pull request state unavailable".to_owned()],
        ..Report::default()
    };
    assert_eq!(exit_for(&blocked), Exit::Incomplete);

    let dirty = Report {
        findings: vec![FindingGroup {
            kind: FindingKind::Divergence,
            items: vec![GroupedFinding {
                subject: "feat/a".to_owned(),
                detail: "feat/a is on two commits".to_owned(),
            }],
        }],
        ..Report::default()
    };
    assert_eq!(exit_for(&dirty), Exit::Findings);
    assert_eq!(exit_for(&Report::default()), Exit::Clean);
}

#[test]
fn status_uses_a_newly_open_primary_from_the_completed_snapshot() {
    // A warm cache can still attach a branch to a closed primary when a new
    // open pull request for that branch appeared after the cache watermark.
    let branch = BranchName::new("feat/alpha");
    let closed = PullRequest {
        number: 7,
        state: "CLOSED".to_owned(),
        head_ref_name: "feat/alpha".to_owned(),
        updated_at: "2026-08-01T00:00:00Z".to_owned(),
        ..PullRequest::default()
    };
    let open = PullRequest {
        number: 8,
        state: "OPEN".to_owned(),
        head_ref_name: "feat/alpha".to_owned(),
        updated_at: "2026-08-02T00:00:00Z".to_owned(),
        ..PullRequest::default()
    };
    let snapshot = Snapshot {
        index: index_pulls(&[PullSummary::of(&closed), PullSummary::of(&open)]),
        facts: BTreeMap::from([(8, fact(open))]),
    };
    assert_eq!(
        snapshot.index.by_branch.get(&branch).map(|pull| pull.number),
        Some(8),
        "the current open pull request is primary"
    );
    let store = Store::new();
    let rows = branch_rows(
        &RowContext {
            store: &store,
            snapshot: Some(&snapshot),
            notches: &[],
            expected_base: "main",
        },
        &vec![ProbedBranch {
            input: ProbeInput {
                branch,
                tip: CommitId::new("test-commit"),
                origin_tip: Some(CommitId::new("origin-commit")),
            },
            verdict: Ok(None),
            relation: Ok(None),
        }],
    )
    .expect("assemble status report");
    assert_eq!(
        rows.rows[0].pr.as_ref().map(|pull| pull.number),
        Some(8),
        "the report shows the current open pull request this run"
    );
    assert_eq!(
        rows.rows[0].pr.as_ref().map(|pull| pull.prior.len()),
        Some(1),
        "the closed one stays visible beside it"
    );
}

fn fact(pull: PullRequest) -> PullFacts {
    PullFacts {
        pull,
        details: PullDetails::default(),
        newest_comment: None,
    }
}

#[test]
fn a_branch_behind_origin_is_not_judged_against_the_trunk() {
    // The probe replays the local bookmark. When local is behind origin it replays
    // stale content, which comes back clean and reads as already in the trunk.
    let note = unjudged_note(&vec!["feat/alpha".to_owned(), "feat/beta".to_owned()]);
    let note = note.expect("two unjudgeable branches must be reported");
    assert!(note.contains("2 branches"), "was: {note}");
    assert!(note.contains("feat/alpha") && note.contains("feat/beta"));
    assert!(
        unjudged_note(&Vec::new()).is_none(),
        "nothing to say when all were judged"
    );
}

fn new_row(name: &str) -> BranchRow {
    BranchRow {
        name: BranchName::new(name),
        state: BranchState::Unknown,
        tip: None,
        push: None,
        pr: None,
        review: None,
        checks: None,
        landed: None,
        flags: Vec::new(),
        claim: None,
        last_seen: None,
        seen: None,
        workspace: None,
        notch: None,
    }
}

fn report_with(row: BranchRow) -> Report {
    Report {
        repo: "demo".to_owned(),
        trunk: "main".to_owned(),
        branches: vec![row],
        ..Report::default()
    }
}

fn ages(list: &[(&str, &str)]) -> Ages {
    let mut ages: Ages = OrdMap::new();
    for (at, age) in list {
        ages.insert((*at).to_owned(), (*age).to_owned());
    }
    ages
}

#[test]
fn problems_render_before_the_branch_table() {
    let report = Report {
        repo: "demo".to_owned(),
        trunk: "main".to_owned(),
        problems: vec!["forge unavailable".to_owned()],
        branches: vec![new_row("feat/alpha")],
        ..Report::default()
    };

    let rendered = render(&report, false, &OrdMap::new());

    assert!(
        rendered.find("UNANSWERED") < rendered.find("branches"),
        "was: {rendered}"
    );
}

#[test]
fn a_claimed_row_carries_owner_kind_and_age() {
    let mut row = new_row("feat/alpha");
    row.claim = Some(ClaimCell {
        id: "abcdefghijklmnop".to_owned(),
        kind: OwnerKind::HarnessSession,
        since: "2026-08-01T00:00:00Z".to_owned(),
        why: "status model".to_owned(),
    });
    row.last_seen = Some("2026-08-30T09:15:00Z".to_owned());

    let rendered = render(&report_with(row), false, &ages(&[("2026-08-30T09:15:00Z", "now")]));

    assert!(
        rendered.contains("abcdefghijkl/harness-session"),
        "was: {rendered}"
    );
    assert!(rendered.contains("now"), "was: {rendered}");
}

#[test]
fn findings_render_one_line_per_kind_with_count() {
    let lines = finding_lines(
        &vec![FindingSummary {
            kind: FindingKind::ChecksFailing,
            count: 3,
            subjects: vec!["#11".to_owned(), "#12".to_owned()],
            details: vec![
                "#11 has failing checks: build".to_owned(),
                "#12 has failing checks: lint".to_owned(),
            ],
        }],
        false,
    );
    let lines: Vec<&String> = lines.iter().filter(|line| line.contains("checks-failing")).collect();
    assert_eq!(lines.len(), 1);
    assert!(lines[0].contains('3'), "was: {}", lines[0]);
    assert!(
        lines[0].contains("#11, #12, and 1 more"),
        "was: {}",
        lines[0]
    );
}

#[test]
fn a_behind_row_renders_origin_and_relation() {
    let mut row = new_row("feat/alpha");
    row.push = Some(PushRelation::Behind("0123456789ab".to_owned()));

    let rendered = render(&report_with(row), false, &OrdMap::new());

    assert!(
        rendered.contains("origin=0123456789ab (behind)"),
        "was: {rendered}"
    );
}

#[test]
fn an_origin_relation_serializes_as_a_relation_and_tip() {
    let push = PushRelation::Behind("0123456789ab".to_owned());
    assert_eq!(push.label(), "behind");
    assert_eq!(push.origin_tip(), Some("0123456789ab"));
    assert_eq!(PushRelation::Unpushed.origin_tip(), None);
}

#[test]
fn a_covered_claim_renders_none_since_claim() {
    let mut row = new_row("feat/alpha");
    row.claim = Some(ClaimCell {
        id: "owner".to_owned(),
        kind: OwnerKind::OsUser,
        since: "2026-08-01T00:00:00Z".to_owned(),
        why: "status model".to_owned(),
    });
    row.seen = Some(SeenWindow::NoneSinceClaim);

    let rendered = render(&report_with(row), false, &OrdMap::new());
    let line = rendered
        .lines()
        .find(|line| line.contains("feat/alpha"))
        .expect("branch line");
    assert_eq!(
        line.split_whitespace().nth(9),
        Some("none-since-claim"),
        "was: {line}"
    );
}

#[test]
fn an_exhausted_window_renders_none_within_window() {
    let mut row = new_row("feat/alpha");
    row.claim = Some(ClaimCell {
        id: "owner".to_owned(),
        kind: OwnerKind::OsUser,
        since: "2026-08-01T00:00:00Z".to_owned(),
        why: "status model".to_owned(),
    });
    row.seen = Some(SeenWindow::NoneWithinWindow);

    let rendered = render(&report_with(row), false, &OrdMap::new());
    let line = rendered
        .lines()
        .find(|line| line.contains("feat/alpha"))
        .expect("branch line");
    assert_eq!(
        line.split_whitespace().nth(9),
        Some("none-within-window"),
        "was: {line}"
    );
}

#[test]
fn branch_rows_render_as_an_aligned_table_with_the_new_columns() {
    let mut full = new_row("feat/alpha");
    full.state = BranchState::Approved;
    full.tip = Some("0123456789ab".to_owned());
    full.pr = Some(PullCell {
        number: 1128,
        state: "open".to_owned(),
        draft: false,
        stated: None,
        activity_at: None,
        prior: Vec::new(),
    });
    full.review = Some("approved".to_owned());
    full.checks = Some("ok".to_owned());
    full.landed = Some(LandedVerdict::InTrunk);
    let lines = branch_table(&vec![full, new_row("fix/a-much-longer-branch-name")], &OrdMap::new());

    assert_eq!(lines.len(), 3, "was: {lines:?}");
    assert!(lines[0].contains("state") && lines[0].contains("claim"));
    assert!(lines[1].contains("#1128"), "was: {}", lines[1]);
    assert!(lines[2].contains("pushed"), "was: {}", lines[2]);
}

#[test]
fn the_notch_cell_keeps_its_age_and_masked_count() {
    let mut row = new_row("feat/log-queue");
    row.notch = Some(LastNotch {
        ts: "2026-08-30T09:15:00Z".to_owned(),
        kind: Kind::Note,
        text: "superseded by #1157".to_owned(),
        disposition: None,
        anchor: Some("1a2b3c4d5e6f".to_owned()),
        count: 2,
    });

    let rendered = render(&report_with(row), false, &ages(&[("2026-08-30T09:15:00Z", "now")]));

    assert!(
        rendered.contains("\"superseded by #1157\" (now @1a2b3c4d5e6f)+1"),
        "was: {rendered}"
    );
}

#[test]
fn verbose_findings_expand_subjects_without_detail_prose() {
    let lines = finding_lines(
        &vec![FindingSummary {
            kind: FindingKind::ChecksFailing,
            count: 2,
            subjects: vec!["#1".to_owned(), "#2".to_owned()],
            details: vec![
                "#1 has failing checks".to_owned(),
                "#2 has failing checks".to_owned(),
            ],
        }],
        true,
    );
    let rendered = lines.join("\n");

    assert!(rendered.contains("checks-failing  #1"), "was: {rendered}");
    assert!(rendered.contains("checks-failing  #2"), "was: {rendered}");
}

fn input() -> BranchStateInput {
    BranchStateInput::default()
}

fn state_input<'a>(pull: Option<&'a PullRequest>, pr: Option<&PullCell>) -> StateInput<'a> {
    StateInput {
        fork_only: false,
        divergent: false,
        landed: None,
        pull,
        checks: None,
        forge_answered: true,
        pr: pr.is_some(),
    }
}

#[test]
fn branch_state_precedence_is_first_match_wins() {
    let mut case = input();
    case.fork_only = true;
    case.divergent = true;
    assert_eq!(branch_state(case), BranchState::ForkOnly);

    let mut case = input();
    case.divergent = true;
    case.landed = true;
    assert_eq!(branch_state(case), BranchState::Divergent);

    let mut case = input();
    case.landed = true;
    case.conflicted = true;
    assert_eq!(branch_state(case), BranchState::Landed);

    let mut case = input();
    case.conflicted = true;
    case.checks_failing = true;
    assert_eq!(branch_state(case), BranchState::Conflicted);

    let mut case = input();
    case.checks_failing = true;
    case.changes_requested = true;
    assert_eq!(branch_state(case), BranchState::ChecksFailing);

    let mut case = input();
    case.changes_requested = true;
    case.approved = true;
    assert_eq!(branch_state(case), BranchState::ChangesRequested);

    let mut case = input();
    case.approved = true;
    case.draft = true;
    assert_eq!(branch_state(case), BranchState::Draft);

    let mut case = input();
    case.draft = true;
    case.awaiting_review = true;
    assert_eq!(branch_state(case), BranchState::Draft);

    let mut case = input();
    case.awaiting_review = true;
    case.merged = true;
    assert_eq!(branch_state(case), BranchState::AwaitingReview);

    let mut case = input();
    case.merged = true;
    case.closed = true;
    assert_eq!(branch_state(case), BranchState::Merged);

    let mut case = input();
    case.closed = true;
    case.no_pr = true;
    assert_eq!(branch_state(case), BranchState::Closed);

    let mut case = input();
    case.no_pr = true;
    assert_eq!(branch_state(case), BranchState::NoPr);

    assert_eq!(branch_state(input()), BranchState::Unknown);
}

#[test]
fn missing_merge_facts_make_an_open_pull_unknown_and_report_problems() {
    let pull = PullRequest {
        number: 7,
        ..PullRequest::default()
    };
    let mut problems = Vec::new();
    let mut findings = Vec::new();
    add_pull_findings(
        &mut problems,
        &mut findings,
        PullFindingInput {
            branch: &BranchName::new("feat/alpha"),
            pull: Some(&pull),
            checks: None,
            review_predates_head: None,
            expected_base: "main",
        },
    );

    assert_eq!(
        state_for(state_input(Some(&pull), None)),
        BranchState::Unknown
    );
    assert_eq!(problems.len(), 3, "problems: {problems:?}");
    assert!(
        findings
            .iter()
            .all(|finding| finding.kind != FindingKind::WrongBase),
        "unknown base must not be silently treated as the expected base: {findings:?}"
    );
}

#[test]
fn terminal_pull_states_outrank_review_decisions_and_draft() {
    let approved_closed = PullRequest {
        state: "CLOSED".to_owned(),
        review_decision: "APPROVED".to_owned(),
        ..PullRequest::default()
    };
    assert_eq!(
        state_for(state_input(Some(&approved_closed), None)),
        BranchState::Closed
    );

    let closed_draft = PullRequest {
        state: "CLOSED".to_owned(),
        is_draft: true,
        ..PullRequest::default()
    };
    assert_eq!(
        state_for(state_input(Some(&closed_draft), None)),
        BranchState::Closed
    );
}

#[test]
fn a_tracked_unavailable_pull_is_not_no_pr() {
    let stated_unavailable = Some(PullCell {
        number: 42,
        state: "unknown".to_owned(),
        draft: false,
        stated: Some(true),
        activity_at: None,
        prior: Vec::new(),
    });
    assert_eq!(
        state_for(state_input(None, stated_unavailable.as_ref())),
        BranchState::Unknown
    );
}

#[test]
fn the_trunk_exclusion_follows_the_repo_entry_not_the_name_main() {
    let map = tips(&[
        (local("dev"), "aaa"),
        (local("main"), "bbb"),
        (local("feat/alpha"), "ccc"),
    ]);
    let (branches, _) = maintained_branches(&map, "dev", &ReleaseScheme::Dated);
    let names: Vec<String> = branches
        .iter()
        .map(|(branch, _)| branch.as_str().to_owned())
        .collect();
    assert!(!names.contains(&"dev".to_owned()), "was: {names:?}");
    assert!(names.contains(&"main".to_owned()), "was: {names:?}");
    assert!(names.contains(&"feat/alpha".to_owned()));
}

#[test]
fn an_unresolved_origin_relation_records_its_branch() {
    let mut problems = Vec::new();
    let branch = BranchName::new("feat/alpha");
    let relation = record_origin_relation(&mut problems, &branch, &Err("missing".to_owned()));

    assert_eq!(relation, Some(PendingPushRelation::Unresolved));
    assert!(problems
        .iter()
        .any(|problem| problem.contains("cannot tell how feat/alpha relates to origin")));
}

#[test]
fn the_relation_to_origin_is_asked_of_both_tips() {
    let tip = CommitId::new("tip");
    let origin = CommitId::new("origin");
    let lost: Result<bool, String> = Err("missing".to_owned());
    assert_eq!(relation_to_origin(&tip, None, &lost, &lost), Ok(None));
    assert_eq!(relation_to_origin(&tip, Some(&tip), &lost, &lost), Ok(None));
    assert_eq!(
        relation_to_origin(&tip, Some(&origin), &Ok(true), &lost),
        Ok(Some(OriginRelation::Ahead))
    );
    assert_eq!(
        relation_to_origin(&tip, Some(&origin), &Ok(false), &Ok(true)),
        Ok(Some(OriginRelation::Behind))
    );
    assert_eq!(
        relation_to_origin(&tip, Some(&origin), &Ok(false), &Ok(false)),
        Ok(Some(OriginRelation::Diverged))
    );
    assert_eq!(
        relation_to_origin(&tip, Some(&origin), &Ok(false), &lost),
        Err("missing".to_owned())
    );
}

#[test]
fn a_kept_verdict_answers_without_a_replay_and_a_lagging_branch_is_not_judged() {
    let trunk = CommitId::new("trunk");
    let input = |origin: Option<&str>| ProbeInput {
        branch: BranchName::new("feat/a"),
        tip: CommitId::new("tip"),
        origin_tip: origin.map(CommitId::new),
    };
    let mut kept: OrdMap<String, LandedVerdict> = OrdMap::new();
    kept.insert(landed_key(&CommitId::new("tip"), &trunk), LandedVerdict::InTrunk);
    match probe_one(&input(Some("tip")), true, Some(&trunk), Some(&kept)) {
        ProbeStep::Answered(result) => assert_eq!(result.verdict, Ok(Some(LandedVerdict::InTrunk))),
        ProbeStep::Replay { .. } => panic!("the kept verdict answers"),
    }
    match probe_one(&input(Some("elsewhere")), true, Some(&trunk), Some(&kept)) {
        ProbeStep::Answered(result) => assert_eq!(result.verdict, Ok(Some(LandedVerdict::Unjudged))),
        ProbeStep::Replay { .. } => panic!("a branch that is not where origin is cannot be judged"),
    }
    let key = match probe_one(&input(Some("tip")), true, Some(&trunk), None) {
        ProbeStep::Replay { key } => key,
        ProbeStep::Answered(_) => panic!("nothing is kept"),
    };
    let result = landed_verdict(key, Ok(RebaseOutcome::CleanNonEmpty));
    assert_eq!(result.verdict, Ok(Some(LandedVerdict::NotInTrunk)));
    assert!(result.landed.is_some());
    assert_eq!(chunk_length(10, 4), 3);
    assert_eq!(chunk_length(3, 8), 1);
    assert_eq!(chunk_length(5, 0), 5);
}

#[test]
fn a_pull_request_of_ours_that_the_batch_did_not_answer_is_a_problem() {
    let branch = BranchName::new("feat/a");
    let snapshot = Snapshot {
        index: index_pulls(&[PullSummary {
            number: 7,
            head_ref_name: "feat/a".to_owned(),
            ..PullSummary::default()
        }]),
        facts: BTreeMap::new(),
    };
    assert_eq!(forge_phase(Some(&snapshot), None, &vec![branch.clone()]).len(), 1);
    assert_eq!(
        forge_phase(None, Some(&"boom".to_owned()), &Vec::new()),
        vec!["pull request state unavailable: boom".to_owned()]
    );
    assert!(forge_phase(None, None, &vec![branch.clone()]).is_empty());
    assert_eq!(
        select_status_numbers(&snapshot.index, &vec![branch], &vec![3, 9]),
        vec![7, 3, 9]
    );
}

#[test]
fn a_review_decision_reads_in_lower_case_with_dashes() {
    let pull = PullRequest {
        review_decision: "CHANGES_REQUESTED".to_owned(),
        ..PullRequest::default()
    };
    assert_eq!(review_cell(Some(&pull)).as_deref(), Some("changes-requested"));
    assert_eq!(
        review_cell(Some(&PullRequest::default())).as_deref(),
        Some("no-review")
    );
    assert_eq!(review_cell(None), None);
}

#[test]
fn an_open_pull_request_is_charged_with_every_trouble_it_has() {
    let pull = PullRequest {
        number: 7,
        mergeable: Some("CONFLICTING".to_owned()),
        merge_state_status: Some("DIRTY".to_owned()),
        base_ref_name: Some("dev".to_owned()),
        ..PullRequest::default()
    };
    let checks = ChecksSummary {
        runs: vec![CheckRun {
            name: "build".to_owned(),
            conclusion: Some("FAILURE".to_owned()),
        }],
    };
    let mut problems = Vec::new();
    let mut findings = Vec::new();
    add_pull_findings(
        &mut problems,
        &mut findings,
        PullFindingInput {
            branch: &BranchName::new("feat/alpha"),
            pull: Some(&pull),
            checks: Some(&checks),
            review_predates_head: Some(true),
            expected_base: "main",
        },
    );
    assert!(problems.is_empty());
    let kinds: Vec<FindingKind> = findings.iter().map(|finding| finding.kind).collect();
    assert_eq!(
        kinds,
        vec![
            FindingKind::Unmergeable,
            FindingKind::ChecksFailing,
            FindingKind::StaleReview,
            FindingKind::WrongBase
        ]
    );
    assert_eq!(findings[3].detail, "#7 targets dev, not main");
}

#[test]
fn a_stated_rule_that_differs_is_a_finding_that_says_who_wrote_it() {
    let stated = |rule: &str, written_by_knives: bool| StatedRule {
        rule: rule.to_owned(),
        written_by_knives,
    };
    assert!(immutable_heads_finding("trunk()", None, "/c").is_none());
    assert!(immutable_heads_finding("trunk()", Some(&stated("trunk()", false)), "/c").is_none());
    let ours = immutable_heads_finding("trunk()", Some(&stated("tags()", true)), "/c").expect("a finding");
    assert!(ours.detail.contains("written by an earlier `knives start`"));
    let theirs = immutable_heads_finding("trunk()", Some(&stated("tags()", false)), "/c").expect("a finding");
    assert!(theirs.detail.contains("a managed fork runs under `trunk()`"));
}

#[test]
fn a_divergent_bookmark_names_every_commit_it_is_on() {
    let mut conflicted: OrdMap<BookmarkRef, Vec<CommitId>> = OrdMap::new();
    conflicted.insert(
        local("feat/a"),
        vec![CommitId::new("0123456789abcdef"), CommitId::new("two")],
    );
    let findings = conflicted_bookmark_findings(&conflicted);
    assert_eq!(findings.len(), 1);
    assert_eq!(findings[0].kind, FindingKind::Divergence);
    assert!(findings[0].detail.contains("0123456789ab") && findings[0].detail.contains("two"));
}

fn merged_pull(head: &str, landing: Option<&str>) -> PullSummary {
    PullSummary {
        number: 7,
        state: "MERGED".to_owned(),
        head_ref_name: "feat/a".to_owned(),
        head_ref_oid: head.to_owned(),
        base_ref_name: Some("main".to_owned()),
        merge_commit: landing.map(|oid| MergeCommit { oid: oid.to_owned() }),
        ..PullSummary::default()
    }
}

#[test]
fn a_merged_pull_request_settles_its_branch_only_within_the_merged_head() {
    let mut graph = CommitGraph::new();
    for name in ["landing", "head", "tip", "trunk"] {
        graph.resolved.insert(name.to_owned(), CommitId::new(name));
    }
    graph.ancestry.push((CommitId::new("landing"), CommitId::new("trunk")));
    let trunk = CommitId::new("trunk");
    let tip_map = tips(&[(local("feat/a"), "tip")]);
    let no_conflicts: OrdMap<BookmarkRef, Vec<CommitId>> = OrdMap::new();
    let index = index_pulls(&[merged_pull("head", Some("landing"))]);

    let mut rows = vec![new_row("feat/a")];
    let notes = settle_merged_landed(
        &mut rows,
        MergedLandedInput {
            graph: &graph,
            index: &index,
            tips: &tip_map,
            conflicted: &no_conflicts,
            trunk_tip: Some(&trunk),
        },
    );
    assert_eq!(rows[0].landed, None, "a tip past the merged head is not settled");
    assert_eq!(notes.len(), 1);

    graph.ancestry.push((CommitId::new("tip"), CommitId::new("head")));
    let notes = settle_merged_landed(
        &mut rows,
        MergedLandedInput {
            graph: &graph,
            index: &index,
            tips: &tip_map,
            conflicted: &no_conflicts,
            trunk_tip: Some(&trunk),
        },
    );
    assert!(notes.is_empty());
    assert_eq!(rows[0].landed, Some(LandedVerdict::InTrunk));
    assert_eq!(rows[0].state, BranchState::Landed);
    assert_eq!(
        local_content(&graph, &vec![CommitId::new("tip")], &CommitId::new("head")),
        Some(LocalContent::WithinMerged)
    );
}

#[test]
fn a_required_pull_request_is_unmet_until_it_merges() {
    let mut store = Store::new();
    store.requirements.insert(
        BranchName::new("feat/a"),
        vec![
            Requirement {
                repo: RepoName::new("demo"),
                number: 7,
            },
            Requirement {
                repo: RepoName::new("other"),
                number: 8,
            },
            Requirement {
                repo: RepoName::new("stranger"),
                number: 9,
            },
        ],
    );
    let found = needs(&vec![BranchName::new("feat/a")], &store);
    let mut registry = Registry::default();
    registry.repos.insert("demo".to_owned(), RepoEntry::new("u", "o"));
    registry.repos.insert("other".to_owned(), RepoEntry::new("u2", "o2"));
    let snapshot = Snapshot {
        index: index_pulls(&[]),
        facts: BTreeMap::from([(
            7,
            fact(PullRequest {
                number: 7,
                state: "OPEN".to_owned(),
                ..PullRequest::default()
            }),
        )]),
    };
    let mut answers: OrdMap<RepoName, Result<BTreeMap<u64, PullFacts>, String>> = OrdMap::new();
    answers.insert(RepoName::new("other"), Err("unreachable".to_owned()));
    let demo = RepoName::new("demo");
    let context = || DependencyContext {
        repo: &demo,
        registry: &registry,
        snapshot: Some(&snapshot),
        answers: Some(&answers),
    };
    let (findings, problems) = unmet_dependencies(&found, context());
    assert_eq!(findings.len(), 1);
    assert_eq!(findings[0].detail, "feat/a requires demo#7, which is open");
    assert_eq!(
        problems,
        vec![
            "cannot check whether feat/a still needs other#8: unreachable".to_owned(),
            "feat/a requires stranger#9, whose repo is not in the registry".to_owned(),
        ]
    );
    assert_eq!(repos_to_ask(&found, context()), vec![RepoName::new("other")]);
}

#[test]
fn a_merged_requirement_is_passed_over_in_silence() {
    let mut store = Store::new();
    store.requirements.insert(
        BranchName::new("feat/a"),
        vec![Requirement {
            repo: RepoName::new("demo"),
            number: 7,
        }],
    );
    let found = needs(&vec![BranchName::new("feat/a")], &store);
    let mut registry = Registry::default();
    registry.repos.insert("demo".to_owned(), RepoEntry::new("u", "o"));
    let demo = RepoName::new("demo");
    let told = |state: &str| {
        let snapshot = Snapshot {
            index: index_pulls(&[]),
            facts: BTreeMap::from([(
                7,
                fact(PullRequest {
                    number: 7,
                    state: state.to_owned(),
                    ..PullRequest::default()
                }),
            )]),
        };
        let (findings, problems) = unmet_dependencies(
            &found,
            DependencyContext {
                repo: &demo,
                registry: &registry,
                snapshot: Some(&snapshot),
                answers: None,
            },
        );
        (findings.len(), problems.len())
    };
    assert_eq!(told("MERGED"), (0, 0));
    assert_eq!(told("CLOSED"), (1, 0));
    assert_eq!(told("OPEN"), (1, 0));
}

#[test]
fn claims_and_workspaces_are_folded_into_their_rows() {
    let mut rows = vec![new_row("feat/alpha"), new_row("feat/beta")];
    let fold = fold_claims(
        &mut rows,
        &ClaimFoldInput {
            claims: vec![
                ObservedClaim {
                    claim: claim("feat/alpha", "one", &["src/x.rs"]),
                    observed: Some(LastSeen::NoneSinceClaim),
                },
                ObservedClaim {
                    claim: claim("feat/gone", "two", &["src/x.rs"]),
                    observed: None,
                },
            ],
            activity_error: Some("walk failed".to_owned()),
            workspaces: Ok(vec![WorkspaceName::new("feat-beta"), WorkspaceName::new("scratch")]),
            seen: Seen::default(),
        },
    );
    assert_eq!(rows[0].claim.as_ref().map(|cell| cell.id.as_str()), Some("one"));
    assert_eq!(rows[0].seen, Some(SeenWindow::NoneSinceClaim));
    assert_eq!(rows[1].claim, None);
    assert_eq!(rows[1].workspace.as_deref(), Some("feat-beta"));
    assert_eq!(fold.other_workspaces, vec!["scratch".to_owned()]);
    assert_eq!(fold.findings.len(), 1);
    assert_eq!(fold.findings[0].kind, FindingKind::ClaimOverlap);
    assert!(fold.problems.iter().any(|problem| problem.contains("walk failed")));
    assert!(add_workspaces(&mut rows, &Vec::new()).is_empty());
}

#[test]
fn a_whole_status_run_reports_rows_findings_and_notes() {
    let name = RepoName::new("demo");
    let entry = RepoEntry::new("u", "o");
    let store = Store::new();
    let tip_map = tips(&[
        (local("feat/a"), "aaaa"),
        (remote("feat/a", "origin"), "aaaa"),
        (local("main"), "mmmm"),
        (local("release/2026-08-01"), "rrrr"),
    ]);
    let snapshot = Snapshot {
        index: index_pulls(&[PullSummary {
            number: 7,
            head_ref_name: "feat/a".to_owned(),
            ..PullSummary::default()
        }]),
        facts: BTreeMap::from([(
            7,
            fact(PullRequest {
                number: 7,
                head_ref_name: "feat/a".to_owned(),
                mergeable: Some("MERGEABLE".to_owned()),
                merge_state_status: Some("CLEAN".to_owned()),
                base_ref_name: Some("main".to_owned()),
                ..PullRequest::default()
            }),
        )]),
    };
    let (maintained, _) = maintained_branches(&tip_map, "main", &ReleaseScheme::Dated);
    let probed: Vec<ProbedBranch> = probe_inputs(&maintained, &tip_map)
        .into_iter()
        .map(|input| ProbedBranch {
            input,
            verdict: Ok(Some(LandedVerdict::NotInTrunk)),
            relation: Ok(None),
        })
        .collect();
    let claims = ClaimFoldInput {
        claims: Vec::new(),
        activity_error: None,
        workspaces: Ok(Vec::new()),
        seen: Seen::default(),
    };
    let notches = vec![note(None, "repo level"), note(Some("feat/a"), "branch level")];
    let report = gather(
        StatusInput {
            name: &name,
            entry: &entry,
            context: RowContext {
                store: &store,
                snapshot: Some(&snapshot),
                notches: &notches,
                expected_base: "main",
            },
            forge_error: None,
            elapsed_ms: 12,
            ledger_problem: None,
            remote_notes: &vec!["a remote note".to_owned()],
            tips: &tip_map,
            conflicted: &OrdMap::new(),
            parents: &OrdMap::new(),
            successors: &OrdMap::new(),
            double_cuts: &Vec::new(),
            double_cut_notes: &Vec::new(),
            immutable: &Ok(None),
            config_path: "/c",
            stale: None,
            workspaces: &Vec::new(),
            changes: &vec![
                (ChangeId::new("zzz"), CommitId::new("1111")),
                (ChangeId::new("zzz"), CommitId::new("2222")),
            ],
            probed: &probed,
            trunk_tip: None,
            graph: &CommitGraph::new(),
            carriers: &OrdMap::new(),
            stacked: &OrdMap::new(),
            claims: &claims,
            registry: None,
            answers: None,
            unsaved: None,
        },
        vec![BranchFiles {
            branch: BranchName::new("feat/a"),
            files: Some(Ok(vec!["src/lib.rs".to_owned()])),
        }],
    )
    .expect("a report");
    assert_eq!(report.repo, "demo");
    assert_eq!(report.newest_release.as_deref(), Some("release/2026-08-01"));
    assert!(report.forge.consulted);
    assert_eq!(report.branches.len(), 1);
    assert_eq!(report.branches[0].state, BranchState::AwaitingReview);
    assert_eq!(report.branches[0].notch.as_ref().map(|notch| notch.text.as_str()), Some("branch level"));
    assert_eq!(report.repo_notches.as_ref().map(|notches| notches.count), Some(1));
    assert!(report.notes.contains(&"a remote note".to_owned()));
    assert!(report.findings.iter().any(|group| group.kind == FindingKind::Divergence));
    assert_eq!(exit_for(&report), Exit::Findings);
}
