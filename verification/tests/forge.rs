use std::collections::BTreeMap;

use knives::forge::fake::FakeForge;
use knives::forge::{
    index_pulls, merged_onto, remote_owner, Account, CheckRun, ChecksSummary, DiffTotals, Forge, ForgeError, MergeCommit,
    PullRequest, PullSummary, RepoIdentity, TimelineEvent, TimelineEventKind,
};
use knives::ids::BranchName;
use knives::order::OrdMap;

fn branches(pulls: Vec<(&str, PullRequest)>) -> OrdMap<BranchName, PullRequest> {
    let mut map: OrdMap<BranchName, PullRequest> = OrdMap::new();
    for (branch, pull) in pulls {
        map.insert(BranchName::new(branch), pull);
    }
    map
}

const HOST: &str = "github.com";

#[test]
fn an_owner_is_read_from_either_remote_form() {
    let https = format!("https://{HOST}/our-org/some-repo.git");
    let ssh = format!("git@{HOST}:our-org/some-repo.git");
    assert_eq!(remote_owner(&https), Some("our-org"));
    assert_eq!(remote_owner(&ssh), Some("our-org"));
    assert_eq!(remote_owner("https://example.invalid/x/y"), None);
}


#[test]
fn fixture_default_has_a_parseable_timestamp_and_hex_oid() {
    let fixture = PullRequest::default();

    assert!(
        fixture.updated_at.parse::<jiff::Timestamp>().is_ok(),
        "fixture timestamp is not parseable: {}",
        fixture.updated_at
    );
    assert_eq!(
        fixture.head_ref_oid.len(),
        40,
        "fixture OID has an unexpected length: {}",
        fixture.head_ref_oid
    );
    assert!(
        fixture
            .head_ref_oid
            .bytes()
            .all(|byte| byte.is_ascii_hexdigit()),
        "fixture OID is not ASCII hexadecimal: {}",
        fixture.head_ref_oid
    );
}

#[test]
fn an_open_pull_summary_beats_a_closed_one_whatever_the_list_order() {
    let summary =
        |number: u64, state: &str, branch: &str, base: &str, oid: Option<&str>| PullSummary {
            number,
            state: state.to_owned(),
            head_ref_name: branch.to_owned(),
            base_ref_name: Some(base.to_owned()),
            merge_commit: oid.map(|oid| MergeCommit {
                oid: oid.to_owned(),
            }),
            ..PullSummary::default()
        };
    let branch = BranchName::new("feat/alpha");

    // A closed duplicate listed first cannot hide the first open submission;
    // every shadow stays in the order the forge supplied it.
    let closed_first = [
        summary(9, "CLOSED", "feat/alpha", "main", None),
        summary(7, "OPEN", "feat/alpha", "main", None),
        summary(6, "OPEN", "feat/alpha", "main", None),
        summary(8, "CLOSED", "feat/alpha", "main", None),
    ];
    let indexed = index_pulls(&closed_first);
    assert_eq!(indexed.by_branch.get(&branch).expect("a primary").number, 7);
    assert_eq!(
        indexed
            .prior
            .get(&branch)
            .expect("shadows")
            .iter()
            .map(|summary| summary.number)
            .collect::<Vec<_>>(),
        vec![9, 6, 8]
    );

    // The usual freshest-first order produces the same primary.
    let open_first = [
        summary(7, "OPEN", "feat/alpha", "main", None),
        summary(9, "CLOSED", "feat/alpha", "main", None),
    ];
    let indexed = index_pulls(&open_first);
    assert_eq!(indexed.by_branch.get(&branch).expect("a primary").number, 7);
    assert_eq!(indexed.prior.get(&branch).expect("shadows")[0].number, 9);

    // With no open summary, the first closed summary remains the primary.
    let indexed = index_pulls(&[summary(9, "CLOSED", "feat/alpha", "main", None)]);
    assert_eq!(indexed.by_branch.get(&branch).expect("a primary").number, 9);
    assert!(indexed.prior.is_empty());
}

#[test]
fn only_merged_pull_request_summaries_onto_the_trunk_are_returned_in_number_order() {
    let summary =
        |number: u64, state: &str, branch: &str, base: &str, oid: Option<&str>| PullSummary {
            number,
            state: state.to_owned(),
            head_ref_name: branch.to_owned(),
            base_ref_name: Some(base.to_owned()),
            merge_commit: oid.map(|oid| MergeCommit {
                oid: oid.to_owned(),
            }),
            ..PullSummary::default()
        };
    let pulls = [
        summary(5, "merged", "e", "main", Some("e5")),
        summary(9, "MERGED", "a", "main", Some("a9")),
        summary(2, "OPEN", "b", "main", None),
        summary(3, "CLOSED", "c", "main", None),
        summary(4, "MERGED", "d", "dev", Some("d4")),
        summary(6, "MERGED", "f", "main", None),
    ];

    let merged = merged_onto(&pulls, "main");
    let brief: Vec<(u64, &str, Option<&str>)> = merged
        .iter()
        .map(|summary| {
            (
                summary.number,
                summary.head_ref_name.as_str(),
                summary
                    .merge_commit
                    .as_ref()
                    .map(|commit| commit.oid.as_str()),
            )
        })
        .collect();

    assert_eq!(
        brief,
        vec![(5, "e", Some("e5")), (6, "f", None), (9, "a", Some("a9")),],
        "case-insensitive state, trunk base only, sorted by number"
    );
}

#[test]
fn summaries_copy_only_the_cheap_projection_and_preserve_its_behavior() {
    let pull = PullRequest {
        number: 7,
        state: "MERGED".to_owned(),
        review_decision: "APPROVED".to_owned(),
        head_ref_name: "feat/a".to_owned(),
        head_ref_oid: "aa".to_owned(),
        updated_at: "2026-08-01T00:00:00Z".to_owned(),
        is_draft: false,
        url: "u".to_owned(),
        head_repository_owner: Some(Account {
            login: "our-org".to_owned(),
        }),
        mergeable: Some("CONFLICTING".to_owned()),
        merge_state_status: Some("DIRTY".to_owned()),
        base_ref_name: Some("main".to_owned()),
        merge_commit: Some(MergeCommit {
            oid: "bb".to_owned(),
        }),
    };
    let summary = PullSummary::of(&pull);
    assert!(summary.is_merged());
    assert!(!summary.is_open());
    assert!(summary.is_from("OUR-ORG"));
    assert_eq!(summary.merge_commit, pull.merge_commit);
}

#[test]
fn the_fake_sweep_is_newest_first_and_reports_overflow() {
    let pull_requests = branches(vec![
        (
            "feat/older",
            PullRequest {
                number: 7,
                updated_at: "2026-08-01T00:00:00Z".to_owned(),
                ..PullRequest::default()
            },
        ),
        (
            "feat/newer",
            PullRequest {
                number: 9,
                updated_at: "2026-08-02T00:00:00Z".to_owned(),
                ..PullRequest::default()
            },
        ),
    ]);
    let fake = FakeForge {
        pull_requests,
        sweep_overflows: true,
        ..FakeForge::default()
    };
    let target = RepoIdentity {
        name_with_owner: "fake-owner/fake-repo".to_owned(),
        id: "FAKEID".to_owned(),
    };

    let sweep = fake.sweep("/tmp", &target).expect("sweep");

    assert!(sweep.has_next_page);
    assert_eq!(
        sweep
            .entries
            .iter()
            .map(|entry| entry.number)
            .collect::<Vec<_>>(),
        vec![9, 7]
    );
}

#[test]
fn fake_facts_answer_the_universe_the_vanished_and_nothing_else() {
    let pull = PullRequest {
        number: 7,
        state: "OPEN".to_owned(),
        head_ref_name: "feat/known".to_owned(),
        ..PullRequest::default()
    };
    let fake = FakeForge {
        pull_requests: branches(vec![("feat/known", pull)]),
        vanished_states: BTreeMap::from([(8, "CLOSED".to_owned())]),
        newest_comments: BTreeMap::from([(7, "2026-08-03T00:00:00Z".to_owned())]),
        ..FakeForge::default()
    };
    let target = RepoIdentity {
        name_with_owner: "fake-owner/fake-repo".to_owned(),
        id: "FAKEID".to_owned(),
    };

    let facts = fake
        .pull_facts("/tmp", &target, &[7, 8, 9])
        .expect("facts");

    assert_eq!(facts[&7].pull.head_ref_name, "feat/known");
    assert_eq!(
        facts[&7].newest_comment.as_deref(),
        Some("2026-08-03T00:00:00Z")
    );
    assert_eq!(facts[&8].pull.state, "CLOSED");
    assert!(!facts.contains_key(&9));
}

#[test]
fn fake_timeline_answers_configured_events_and_leaves_other_numbers_empty() {
    let event = TimelineEvent {
        at: "2026-08-30T22:43:13Z".to_owned(),
        kind: TimelineEventKind::HeadDeleted,
    };
    let fake = FakeForge {
        timeline: BTreeMap::from([(7, vec![event.clone()])]),
        ..FakeForge::default()
    };
    let target = RepoIdentity {
        name_with_owner: "fake-owner/fake-repo".to_owned(),
        id: "FAKEID".to_owned(),
    };

    assert_eq!(
        fake.pull_timeline("/tmp", &target, 7)
            .expect("configured timeline"),
        vec![event]
    );
    assert!(
        fake.pull_timeline("/tmp", &target, 8)
            .expect("unconfigured timeline")
            .is_empty()
    );
}

fn target() -> RepoIdentity {
    RepoIdentity {
        name_with_owner: "fake-owner/fake-repo".to_owned(),
        id: "FAKEID".to_owned(),
    }
}

#[test]
fn a_fake_that_is_told_to_fail_answers_with_errors() {
    let fake = FakeForge {
        fail_identity: true,
        fail_list: true,
        fail_sweep: true,
        fail_facts: true,
        fail_timeline: true,
        fail_consumer_head: true,
        fail_file_at: true,
        ..FakeForge::default()
    };
    assert!(fake.repo_identity("/tmp").is_err());
    assert!(fake.list_pull_requests("/tmp", &[]).is_err());
    assert!(fake.sweep("/tmp", &target()).is_err());
    assert!(fake.pull_facts("/tmp", &target(), &[7]).is_err());
    assert!(fake.pull_timeline("/tmp", &target(), 7).is_err());
    assert!(fake.consumer_head("a/b").is_err());
    assert!(fake.file_at("a/b", "c", "uv.lock").is_err());
}

#[test]
fn every_forge_error_says_what_happened() {
    assert_eq!(
        ForgeError::Command {
            command: "gh pr list".to_owned(),
            dir: "/repo".to_owned(),
            code: -1,
            stderr: "unavailable".to_owned(),
        }
        .message(),
        "gh pr list failed in /repo (exit -1): unavailable"
    );
    assert_eq!(
        ForgeError::Target {
            named: "odd".to_owned()
        }
        .message(),
        "the forge reported the repository as `odd`, which is not `<owner>/<name>`"
    );
    assert_eq!(
        ForgeError::Query {
            detail: "no".to_owned()
        }
        .message(),
        "the forge rejected the query: no"
    );
    assert_eq!(
        ForgeError::Missing {
            source: "gone".to_owned()
        }
        .message(),
        "the forge CLI is not installed: gone"
    );
    assert_eq!(
        ForgeError::Parse {
            source: "eof".to_owned()
        }
        .message(),
        "could not read the forge's reply: eof"
    );
}

#[test]
fn checks_tell_failures_that_need_a_fix_from_those_that_need_a_person() {
    let run = |name: &str, conclusion: Option<&str>| CheckRun {
        name: name.to_owned(),
        conclusion: conclusion.map(ToOwned::to_owned),
    };
    let checks = ChecksSummary {
        runs: vec![
            run("build", Some("FAILURE")),
            run("deploy", Some("ACTION_REQUIRED")),
            run("lint", Some("SUCCESS")),
            run("slow", None),
        ],
    };
    assert_eq!(checks.hard_failure_names(), vec!["build".to_owned()]);
    assert_eq!(checks.action_required_names(), vec!["deploy".to_owned()]);
    assert!(checks.failing() && checks.has_hard_failure() && checks.has_action_required());
    assert!(checks.pending() && checks.ran());
    let none = ChecksSummary::default();
    assert!(!none.failing() && !none.pending() && !none.ran());
    assert!(DiffTotals::default().empty());
}
