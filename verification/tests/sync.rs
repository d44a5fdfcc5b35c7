use std::collections::{BTreeMap, BTreeSet};

use knives::cli::Exit;
use knives::commands::sync::{
    classify_pull, exit_for, fetch_foreign, observe, render, select_tracked_numbers, sync_repo, tracked_pull_requests,
    transition_text, ForgeReach, PullAnswers, PullState, Report, Row, SyncInput, Synced, TrackingInput,
};
use knives::forge::{PullDetails, PullFacts, PullRequest, PullSummary};
use knives::ids::{BranchName, CommitId, RepoName};
use knives::order::OrdMap;
use knives::store::{PullRecord, Store};

fn test_pull(number: u64, branch: &str) -> PullRequest {
    PullRequest {
        number,
        head_ref_name: branch.to_owned(),
        head_ref_oid: "aaaa".to_owned(),
        ..PullRequest::default()
    }
}

/// What a forge that knows these pull requests and comments answers.
fn answered(pulls: &[PullRequest], comments: &[(u64, &str)]) -> ForgeReach {
    let mut facts: BTreeMap<u64, PullFacts> = BTreeMap::new();
    for pull in pulls {
        let newest_comment = comments
            .iter()
            .find(|(number, _)| *number == pull.number)
            .map(|(_, at)| (*at).to_owned());
        facts.insert(
            pull.number,
            PullFacts {
                pull: pull.clone(),
                details: PullDetails::default(),
                newest_comment,
            },
        );
    }
    ForgeReach::Answered(PullAnswers {
        ours: pulls.iter().map(PullSummary::of).collect(),
        rows: pulls.iter().map(PullSummary::of).collect(),
        facts,
        kept: Ok(()),
    })
}

fn run(reach: &ForgeReach, record: &mut PullRecord) -> Synced {
    sync_repo(
        SyncInput {
            repo: &RepoName::new("test-repo"),
            store: &Store::new(),
            foreign: &BTreeSet::new(),
            reach,
            heads: &Ok(BTreeMap::new()),
            fetches: &Vec::new(),
        },
        record,
    )
}

fn first_state(synced: &Synced) -> Option<PullState> {
    synced.report.rows.first().map(|row| row.state)
}

#[test]
fn forge_state_wins_over_head_movement() {
    // Given: a pull request whose head moved AND which merged
    // Then: merged, because calling it advanced keeps us carrying landed work
    assert_eq!(
        classify_pull(Some("a"), Some("OPEN"), "b", "MERGED"),
        PullState::Merged
    );
    assert_eq!(
        classify_pull(Some("a"), Some("OPEN"), "b", "CLOSED"),
        PullState::Closed
    );
}

#[test]
fn a_moved_head_on_an_open_pull_request_is_advanced() {
    assert_eq!(
        classify_pull(Some("a"), Some("OPEN"), "b", "OPEN"),
        PullState::Advanced
    );
}

#[test]
fn an_unmoved_head_is_unchanged() {
    assert_eq!(
        classify_pull(Some("a"), Some("OPEN"), "a", "OPEN"),
        PullState::Unchanged
    );
}

#[test]
fn a_first_sighting_is_new_rather_than_unchanged() {
    // Calling it unchanged made a first run against an empty state file read as
    // "nothing moved since last time", which is indistinguishable from a no-op.
    assert_eq!(classify_pull(None, None, "a", "OPEN"), PullState::New);
    assert_eq!(
        classify_pull(Some("a"), Some("OPEN"), "a", "OPEN"),
        PullState::Unchanged
    );
    assert_eq!(
        classify_pull(Some("a"), Some("OPEN"), "b", "OPEN"),
        PullState::Advanced
    );
}

#[test]
fn a_first_sighting_is_new_even_when_the_forge_already_settled_it() {
    // A pull request that merged months before tracking started must not
    // replay as a "merged" event the moment sync first sees it.
    assert_eq!(classify_pull(None, None, "a", "MERGED"), PullState::New);
    assert_eq!(classify_pull(None, None, "a", "CLOSED"), PullState::New);
}

#[test]
fn a_settled_pull_recorded_settled_before_is_unchanged() {
    // The forge repeats a terminal state on every run; that repetition is
    // not a new event, and comparing case-insensitively tolerates whatever
    // casing a previously recorded state happens to carry.
    assert_eq!(
        classify_pull(Some("a"), Some("MERGED"), "a", "merged"),
        PullState::Unchanged
    );
    assert_eq!(
        classify_pull(Some("a"), Some("closed"), "a", "CLOSED"),
        PullState::Unchanged
    );
}

#[test]
fn state_matching_is_case_insensitive() {
    assert_eq!(
        classify_pull(Some("a"), Some("OPEN"), "a", "merged"),
        PullState::Merged
    );
}

#[test]
fn a_settled_pull_that_opens_again_is_reopened() {
    assert_eq!(
        classify_pull(Some("a"), Some("CLOSED"), "b", "OPEN"),
        PullState::Reopened
    );
}

#[test]
fn unchanged_and_new_pulls_have_no_transition_event() {
    // A first sighting and no movement are not facts this run observed.
    assert_eq!(transition_text(12, PullState::Unchanged, "head-12"), None);
    assert_eq!(transition_text(13, PullState::New, "head-13"), None);
}

#[test]
fn every_movement_has_its_own_transition_event() {
    assert_eq!(
        transition_text(12, PullState::Advanced, "0123456789abcdef"),
        Some("#12 advanced to 0123456789ab".to_owned())
    );
    assert_eq!(transition_text(12, PullState::Merged, "a"), Some("#12 merged".to_owned()));
    assert_eq!(transition_text(12, PullState::Closed, "a"), Some("#12 closed".to_owned()));
    assert_eq!(transition_text(12, PullState::Reopened, "a"), Some("#12 reopened".to_owned()));
}

#[test]
fn a_row_serializes_both_the_transition_and_the_forge_state() {
    // `state` names what changed since the last sync; `forge_state` names
    // where the pull request stands now.
    let row = Row {
        number: 1234,
        label: "feat/foo".to_owned(),
        state: PullState::Unchanged,
        forge_state: "merged".to_owned(),
    };
    assert_eq!(row.state.as_str(), "unchanged");
    assert_eq!(row.forge_state, "merged");
}

#[test]
fn a_report_with_a_problem_does_not_exit_zero() {
    let blocked = Report {
        problems: vec!["forge unavailable".to_owned()],
        ..Report::default()
    };
    assert_eq!(exit_for(&blocked), Exit::Incomplete);
}

#[test]
fn an_informational_note_alone_still_exits_zero() {
    // Notes describe; problems mean the command could not answer.
    let chatty = Report {
        notes: vec!["nothing tracked yet".to_owned()],
        ..Report::default()
    };
    assert_eq!(exit_for(&chatty), Exit::Clean);
}

#[test]
fn cache_write_failure_is_a_note_and_does_not_make_sync_incomplete() {
    // A cache write happens after the live batch; losing it must not change
    // the successful run into an incomplete one.
    let pull = PullRequest {
        number: 7,
        head_ref_name: "feat/alpha".to_owned(),
        head_ref_oid: "aaaa".to_owned(),
        ..PullRequest::default()
    };
    let reach = match answered(&[pull], &[]) {
        ForgeReach::Answered(answers) => ForgeReach::Answered(PullAnswers {
            kept: Err("forge cache not saved: not a directory".to_owned()),
            ..answers
        }),
        other => other,
    };
    let synced = run(&reach, &mut PullRecord::new());
    assert!(synced
        .report
        .notes
        .iter()
        .any(|note| note.starts_with("forge cache not saved:")));
    assert!(synced.report.problems.is_empty());
    assert_eq!(exit_for(&synced.report), Exit::Clean);
    assert!(synced.finished);
}

#[test]
fn every_listed_pull_request_is_tracked_even_with_no_local_bookmark() {
    let pull_requests: Vec<PullSummary> = vec![
        PullSummary::of(&test_pull(1, "feat/checked-out")),
        PullSummary::of(&test_pull(2, "feat/pushed-only")),
    ];
    let foreign: BTreeSet<u64> = BTreeSet::new();

    let followed = tracked_pull_requests(&pull_requests, &foreign, &OrdMap::new());

    let mut numbers: Vec<u64> = Vec::new();
    for i in 0..followed.len() {
        numbers.push(*followed.key(i));
    }
    assert_eq!(numbers, vec![1, 2], "followed the wrong set");
}

#[test]
fn a_previously_tracked_number_stays_tracked_after_it_closes() {
    // It is absent from the list, and telling merged from closed is exactly
    // what the next step needs to do.
    let mut seen: OrdMap<String, String> = OrdMap::new();
    seen.insert("99".to_owned(), "aaaa".to_owned());
    let followed = tracked_pull_requests(&[], &BTreeSet::new(), &seen);
    assert!(followed.contains_key(&99));
}

#[test]
fn a_foreign_parent_is_tracked_without_a_listed_pull_request() {
    let foreign: BTreeSet<u64> = std::iter::once(4677).collect();
    let followed = tracked_pull_requests(&[], &foreign, &OrdMap::new());
    assert!(followed.get(&4677).expect("followed").contains("foreign"));
}

#[test]
fn the_numbers_to_ask_about_are_every_followed_one_in_order() {
    let mut seen: OrdMap<String, String> = OrdMap::new();
    seen.insert("99".to_owned(), "aaaa".to_owned());
    seen.insert("not a number".to_owned(), "aaaa".to_owned());
    seen.insert("7".to_owned(), "bbbb".to_owned());
    let foreign: BTreeSet<u64> = std::iter::once(50).collect();
    assert_eq!(
        select_tracked_numbers(&[PullSummary::of(&test_pull(120, "feat/a"))], &foreign, &seen),
        vec![7, 50, 99, 120]
    );
}

#[test]
fn pull_request_list_failure_is_incomplete_not_informational() {
    let mut record = PullRecord::new();
    record.record_pull_state(42, "OPEN");
    let synced = run(
        &ForgeReach::Failed("gh pr list failed in /repo (exit 1): unavailable".to_owned()),
        &mut record,
    );
    assert!(synced
        .report
        .problems
        .iter()
        .any(|problem| problem.contains("pull request state unavailable")));
    assert!(synced.report.notes.is_empty());
    assert_eq!(exit_for(&synced.report), Exit::Incomplete);
    assert!(!synced.finished);
    assert_eq!(record.pull_state(42), Some("OPEN"));
}

#[test]
fn pull_ref_failure_is_incomplete_not_informational() {
    let mut record = PullRecord::new();
    let synced = sync_repo(
        SyncInput {
            repo: &RepoName::new("test-repo"),
            store: &Store::new(),
            foreign: &BTreeSet::new(),
            reach: &answered(&[], &[]),
            heads: &Err("no such remote".to_owned()),
            fetches: &Vec::new(),
        },
        &mut record,
    );
    assert!(synced
        .report
        .problems
        .iter()
        .any(|problem| problem.contains("could not read pull refs")));
    assert!(synced.report.notes.is_empty());
    assert_eq!(exit_for(&synced.report), Exit::Incomplete);
}

#[test]
fn no_github_skips_forge_queries_and_reports_the_unknown_state() {
    let synced = run(&ForgeReach::NotAsked, &mut PullRecord::new());
    assert!(synced
        .report
        .notes
        .iter()
        .any(|note| note.contains("pull request state was not checked")));
    assert!(synced.report.problems.is_empty());
}

#[test]
fn comment_activity_reports_once_and_mark_persists() {
    // First sync: PR #42 with comment activity
    let mut record = PullRecord::new();
    record.record_comment_mark(42, "2026-07-29T10:00:00Z");
    let first = run(
        &answered(&[test_pull(42, "feat/alpha")], &[(42, "2026-07-30T10:00:00Z")]),
        &mut record,
    );
    // Verify: comment activity note appears with exact message
    assert!(first
        .report
        .notes
        .iter()
        .any(|n| n.contains("42") && n.contains("comment activity")));
    // Verify: mark was recorded
    assert_eq!(record.comment_mark(42), Some("2026-07-30T10:00:00Z"));

    // Second sync: no new activity
    let second = run(
        &answered(&[test_pull(42, "feat/alpha")], &[(42, "2026-07-29T10:00:00Z")]),
        &mut record,
    );
    assert!(!second.report.notes.iter().any(|n| n.contains("comment activity")));
    assert_eq!(record.comment_mark(42), Some("2026-07-30T10:00:00Z"));
}

#[test]
fn comment_batch_failure_is_incomplete_and_does_not_classify_rows() {
    let synced = run(
        &ForgeReach::Failed("the forge rejected the query: comment fetch failed".to_owned()),
        &mut PullRecord::new(),
    );
    assert!(synced
        .report
        .problems
        .iter()
        .any(|problem| problem.contains("pull request state unavailable")));
    assert!(synced.report.rows.is_empty());
    assert_eq!(exit_for(&synced.report), Exit::Incomplete);
}

#[test]
fn first_sync_records_comment_activity_without_a_note() {
    // Given: a previously unseen open pull request with an existing comment
    let mut record = PullRecord::new();
    // When: the first sync observes the historical comment
    let synced = run(
        &answered(&[test_pull(42, "feat/alpha")], &[(42, "2026-07-30T10:00:00Z")]),
        &mut record,
    );
    // Then: its timestamp is remembered without announcing old activity
    assert_eq!(record.comment_mark(42), Some("2026-07-30T10:00:00Z"));
    assert!(!synced
        .report
        .notes
        .iter()
        .any(|note| note.contains("comment activity")));
}

#[test]
fn a_closed_pull_request_does_not_record_comment_activity() {
    let mut pull = test_pull(42, "feat/alpha");
    pull.state = "CLOSED".to_owned();
    let mut record = PullRecord::new();
    // A first sighting of a closed pull is `New`, not `Closed`. Seed a prior
    // open state so this sync observes the open-to-closed transition.
    record.record_pull_state(42, "OPEN");
    let synced = run(&answered(&[pull], &[(42, "2026-07-30T10:00:00Z")]), &mut record);
    assert_eq!(first_state(&synced), Some(PullState::Closed));
    assert_eq!(record.comment_mark(42), None);
    assert!(!synced
        .report
        .notes
        .iter()
        .any(|note| note.contains("comment activity")));
}

#[test]
fn a_first_sighting_of_an_already_merged_pull_is_new_with_no_ledger_event() {
    let mut pull = test_pull(42, "feat/alpha");
    pull.state = "MERGED".to_owned();
    let mut record = PullRecord::new();
    let synced = run(&answered(&[pull], &[]), &mut record);
    assert_eq!(first_state(&synced), Some(PullState::New));
    assert!(synced.events.is_empty(), "a first sighting must not write a ledger event");
    assert_eq!(record.pull_state(42), Some("MERGED"));
}

#[test]
fn a_second_sync_of_an_already_merged_pull_is_unchanged_with_no_ledger_event() {
    let mut pull = test_pull(42, "feat/alpha");
    pull.state = "MERGED".to_owned();
    let mut record = PullRecord::new();
    let reach = answered(&[pull], &[]);
    run(&reach, &mut record);
    let synced = run(&reach, &mut record);
    assert_eq!(first_state(&synced), Some(PullState::Unchanged));
    assert!(
        synced.events.is_empty(),
        "a settled pull that repeats settled must not write a second event"
    );
}

#[test]
fn a_pull_request_that_merges_between_syncs_writes_one_merged_event() {
    let mut record = PullRecord::new();
    run(&answered(&[test_pull(42, "feat/alpha")], &[]), &mut record);
    let mut merged = test_pull(42, "feat/alpha");
    merged.state = "MERGED".to_owned();
    let synced = run(&answered(&[merged], &[]), &mut record);
    assert_eq!(first_state(&synced), Some(PullState::Merged));
    assert_eq!(synced.events.len(), 1);
    assert_eq!(
        synced.events.first().map(|event| event.text.as_str()),
        Some("#42 merged")
    );
}

#[test]
fn an_open_pull_requests_moved_head_is_advanced() {
    let mut record = PullRecord::new();
    run(&answered(&[test_pull(42, "feat/alpha")], &[]), &mut record);
    let mut moved = test_pull(42, "feat/alpha");
    moved.head_ref_oid = "bbbb".to_owned();
    let synced = run(&answered(&[moved], &[]), &mut record);
    assert_eq!(first_state(&synced), Some(PullState::Advanced));
    assert_eq!(record.pull_head(42), Some("bbbb"));
}

#[test]
fn an_event_names_the_branch_and_the_pull_request_stated_for_it() {
    let mut record = PullRecord::new();
    record.record_pull_head(42, "0000");
    record.record_pull_state(42, "OPEN");
    let mut store = Store::new();
    store.stated.insert(BranchName::new("feat/alpha"), 43);
    let reach = answered(&[test_pull(42, "feat/alpha")], &[]);
    let synced = sync_repo(
        SyncInput {
            repo: &RepoName::new("test-repo"),
            store: &store,
            foreign: &BTreeSet::new(),
            reach: &reach,
            heads: &Ok(BTreeMap::from([(42, "ffffffffffffffff".to_owned())])),
            fetches: &Vec::new(),
        },
        &mut record,
    );
    assert_eq!(synced.events.len(), 1);
    assert_eq!(synced.events[0].subject.as_deref(), Some("feat/alpha"));
    assert_eq!(synced.events[0].text, "#42 advanced to ffffffffffff");
    assert_eq!(synced.events[0].pr, Some(43));
    // The fetched ref outranks the live fact.
    assert_eq!(record.pull_head(42), Some("ffffffffffffffff"));
}

#[test]
fn a_pull_request_the_forge_does_not_report_is_a_problem() {
    let mut record = PullRecord::new();
    record.record_pull_head(7, "aaaa");
    let synced = run(&answered(&[], &[]), &mut record);
    assert_eq!(
        synced.report.problems,
        vec!["state of #7 unavailable: the forge did not report it".to_owned()]
    );
    assert!(synced.report.rows.is_empty());
}

#[test]
fn a_pull_request_without_any_head_is_a_problem() {
    let record = PullRecord::new();
    let seen = observe(
        TrackingInput {
            heads: &BTreeMap::new(),
            answers: None,
            store: &Store::new(),
        },
        &record,
        7,
        "(foreign)",
    );
    assert_eq!(seen.err(), Some("could not determine the head of #7".to_owned()));
}

#[test]
fn fetched_foreign_pull_requests_are_notes_and_failures_are_problems() {
    let mut report = Report::default();
    fetch_foreign(
        &vec![
            (10, Ok(CommitId::new("0123456789abcdef"))),
            (11, Err("no such ref".to_owned())),
        ],
        &mut report,
    );
    assert_eq!(
        report.notes,
        vec!["fetched foreign #10 as pull/10 (0123456789ab)".to_owned()]
    );
    assert_eq!(
        report.problems,
        vec!["could not fetch foreign #11: no such ref".to_owned()]
    );
}

#[test]
fn a_report_renders_its_notes_and_then_a_line_for_each_row() {
    let report = Report {
        repo: "demo".to_owned(),
        rows: vec![Row {
            number: 42,
            label: "feat/alpha".to_owned(),
            state: PullState::Merged,
            forge_state: "merged".to_owned(),
        }],
        notes: vec!["a note".to_owned()],
        problems: Vec::new(),
    };
    assert_eq!(
        render(&report),
        "! a note\ndemo: 1 tracked pull request(s)\n  #42     merged merged   feat/alpha"
    );
    assert_eq!(
        render(&Report {
            repo: "demo".to_owned(),
            ..Report::default()
        }),
        "demo: no tracked pull requests"
    );
}

#[test]
fn the_state_is_shown_in_lower_case_whatever_letters_the_forge_uses() {
    let mut pull = test_pull(42, "feat/alpha");
    pull.state = "ÖPEN".to_owned();
    let synced = run(&answered(&[pull], &[]), &mut PullRecord::new());
    assert_eq!(synced.report.rows[0].forge_state, "öpen");
}
