use knives::forge::github::{
    author_list_args, check_run, consumer_head_query, dedupe_by_number, fact_batches, file_args, file_reply,
    identity_args, is_absent, parse_consumer_head, parse_identity, query_args,
    parse_pull_facts, parse_pull_timeline, parse_sweep, pull_facts_query, pull_timeline_query, summary_fields,
    summary_list_args, sweep_query, CheckPayload, ConsumerHeadEnvelope, ContextPage, FactsEnvelope, FactsPayload,
    HeadRef, IdentityPayload, NormalizedCheckState, ParentTrees, QueryFailure, RollupHolder, SweepEnvelope,
    TimelineCommit, TimelineEnvelope, TimelineEventPayload, TimelineNode, FACTS_BATCH_CHUNK_SIZE,
};
use knives::forge::{
    Account, CommitOids, ConsumerHead, DiffTotals, ForgeError, PullRequest, PullSummary, RepoIdentity, SweepEntry,
    SweepPage, TimelineEvent, TimelineEventKind,
};

fn texts(list: &[&str]) -> Vec<String> {
    list.iter().map(|text| (*text).to_owned()).collect()
}

fn pull(number: u64, branch: &str) -> PullRequest {
    PullRequest {
        number,
        state: "OPEN".to_owned(),
        head_ref_name: branch.to_owned(),
        head_ref_oid: "aa".to_owned(),
        updated_at: "2026-08-01T00:00:00Z".to_owned(),
        mergeable: None,
        merge_state_status: None,
        base_ref_name: None,
        ..PullRequest::default()
    }
}

/// A payload that answers nothing beyond the row itself.
fn payload(number: u64) -> FactsPayload {
    FactsPayload {
        pull: pull(number, "feat/a"),
        additions: None,
        deletions: None,
        changed_files: None,
        head_ref: HeadRef::Missing,
        reviews: None,
        commits: None,
        rollup: None,
        comments: None,
    }
}

fn reply(payloads: Vec<Option<FactsPayload>>) -> FactsEnvelope {
    FactsEnvelope {
        repository: Some(payloads),
        errors: Vec::new(),
    }
}

fn with_rollup(number: u64, tip: RollupHolder) -> FactsEnvelope {
    reply(vec![Some(FactsPayload {
        rollup: Some(vec![tip]),
        ..payload(number)
    })])
}

fn tip_of(tree: &str, has_next_page: bool, parents: &[&str]) -> RollupHolder {
    RollupHolder {
        tree: Some(tree.to_owned()),
        parents: Some(ParentTrees {
            has_next_page,
            trees: parents.iter().map(|tree| Some((*tree).to_owned())).collect(),
        }),
        contexts: None,
    }
}

fn tip_with_checks(has_next_page: bool, runs: Vec<CheckPayload>) -> RollupHolder {
    RollupHolder {
        tree: None,
        parents: None,
        contexts: Some(ContextPage { has_next_page, runs }),
    }
}

fn run(name: &str, conclusion: Option<&str>) -> CheckPayload {
    CheckPayload::CheckRun {
        name: name.to_owned(),
        conclusion: conclusion.map(ToOwned::to_owned),
    }
}

fn status(context: &str, state: &str) -> CheckPayload {
    CheckPayload::StatusContext {
        context: context.to_owned(),
        state: state.to_owned(),
    }
}

fn failure(kind: &str, alias: &str, message: &str) -> QueryFailure {
    QueryFailure {
        message: message.to_owned(),
        kind: kind.to_owned(),
        path: vec![Some("repository".to_owned()), Some(alias.to_owned())],
    }
}

#[test]
fn a_sweep_page_reports_order_and_continuation() {
    let page = parse_sweep(SweepEnvelope {
        pulls: Some(SweepPage {
            entries: vec![
                SweepEntry {
                    number: 9,
                    updated_at: "2026-08-02T00:00:00Z".to_owned(),
                    state: "OPEN".to_owned(),
                },
                SweepEntry {
                    number: 7,
                    updated_at: "2026-08-01T00:00:00Z".to_owned(),
                    state: "MERGED".to_owned(),
                },
            ],
            has_next_page: true,
        }),
        errors: Vec::new(),
    })
    .expect("sweep page parses");
    assert!(page.has_next_page);
    assert_eq!(page.entries[0].number, 9, "newest-updated first");
    assert_eq!(page.entries[1].state, "MERGED");
}

#[test]
fn a_sweep_reply_with_errors_or_nothing_is_no_answer() {
    let refused = parse_sweep(SweepEnvelope {
        pulls: None,
        errors: vec![failure("RATE_LIMITED", "p7", "rate limited")],
    })
    .expect_err("errors");
    assert!(refused.message().contains("rate limited"));
    assert!(parse_sweep(SweepEnvelope {
        pulls: None,
        errors: Vec::new(),
    })
    .is_err());
}

#[test]
fn null_merge_facts_remain_explicitly_unknown() {
    // A null merge fact is an incomplete forge answer, not an empty string that
    // downstream status logic could mistake for non-conflicting or on-base.
    let facts = parse_pull_facts(&reply(vec![Some(payload(134))]), &[134]).expect("null merge facts decode");
    let pull = &facts[&134].pull;
    assert_eq!(pull.mergeable, None);
    assert_eq!(pull.merge_state_status, None);
    assert_eq!(pull.base_ref_name, None);
}

#[test]
fn facts_carry_the_full_row_the_details_and_the_newest_comment() {
    let full = FactsPayload {
        pull: PullRequest {
            review_decision: "APPROVED".to_owned(),
            head_repository_owner: Some(Account {
                login: "our-org".to_owned(),
            }),
            base_ref_name: Some("main".to_owned()),
            mergeable: Some("CONFLICTING".to_owned()),
            merge_state_status: Some("DIRTY".to_owned()),
            ..pull(7, "feat/a")
        },
        reviews: Some(vec![Some("2026-08-02T00:00:00Z".to_owned())]),
        commits: Some(texts(&["2026-08-01T12:00:00Z"])),
        rollup: Some(Vec::new()),
        comments: Some(texts(&["2026-07-30T00:00:00Z"])),
        ..payload(7)
    };
    let facts = parse_pull_facts(&reply(vec![Some(full)]), &[7]).expect("facts parse");
    let fact = &facts[&7];
    assert_eq!(fact.pull.mergeable.as_deref(), Some("CONFLICTING"));
    assert_eq!(
        fact.pull
            .head_repository_owner
            .as_ref()
            .map(|owner| owner.login.as_str()),
        Some("our-org")
    );
    assert_eq!(
        fact.details.review_predates_head,
        Some(false),
        "review is newer than the head"
    );
    assert_eq!(
        fact.newest_comment.as_deref(),
        Some("2026-08-02T00:00:00Z"),
        "the review outranks the older comment"
    );
}

#[test]
fn facts_carry_diff_totals_head_ref_presence_and_tip_emptiness() {
    let full = FactsPayload {
        additions: Some(0),
        deletions: Some(0),
        changed_files: Some(0),
        head_ref: HeadRef::Deleted,
        rollup: Some(vec![tip_of("same", false, &["same"])]),
        ..payload(7)
    };
    let facts = parse_pull_facts(&reply(vec![Some(full)]), &[7]).expect("facts parse");
    let details = &facts[&7].details;
    assert_eq!(
        details.diff,
        Some(DiffTotals {
            additions: 0,
            deletions: 0,
            changed_files: 0
        }),
        "an answered zero diff is a fact, not an absence"
    );
    assert_eq!(
        details.head_ref_deleted,
        Some(true),
        "headRef null means the ref is gone"
    );
    assert_eq!(details.tip_commit_empty, Some(true));
}

fn tip_emptiness(tip: RollupHolder) -> Option<bool> {
    parse_pull_facts(&with_rollup(7, tip), &[7]).expect("facts parse")[&7]
        .details
        .tip_commit_empty
}

#[test]
fn facts_do_not_mistake_zero_line_rename_for_an_empty_tip() {
    assert_eq!(tip_emptiness(tip_of("renamed", false, &["original"])), Some(false));
}

#[test]
fn facts_do_not_mistake_a_merge_tip_for_an_empty_tip() {
    assert_eq!(tip_emptiness(tip_of("merged", false, &["left", "right"])), Some(false));
}

#[test]
fn facts_do_not_mistake_a_root_tip_for_an_empty_tip() {
    assert_eq!(tip_emptiness(tip_of("root", false, &[])), Some(false));
}

#[test]
fn facts_do_not_guess_about_an_octopus_tip() {
    assert_eq!(tip_emptiness(tip_of("octopus", true, &["one", "two"])), Some(false));
}

#[test]
fn facts_missing_the_new_fields_answer_none_not_zero() {
    // A forge that refused the fields must read as "not answered", never as
    // "empty diff".
    let facts = parse_pull_facts(&reply(vec![Some(payload(7))]), &[7]).expect("facts parse");
    let details = &facts[&7].details;
    assert_eq!(details.diff, None);
    assert_eq!(details.head_ref_deleted, None);
    assert_eq!(details.tip_commit_empty, None);
}

#[test]
fn a_failing_check_is_distinct_from_an_empty_rollup_in_facts() {
    let tip = tip_with_checks(false, vec![run("build", Some("FAILURE")), run("lint", Some("SUCCESS"))]);
    let facts = parse_pull_facts(&with_rollup(11, tip), &[11]).expect("facts parse");
    let checks = facts[&11].details.checks.as_ref().expect("consulted");
    assert!(checks.failing(), "a FAILURE conclusion is failing");
    assert_eq!(checks.hard_failure_names(), vec!["build".to_owned()]);
    assert!(checks.ran());
}

#[test]
fn a_null_check_run_conclusion_is_pending_in_facts() {
    let tip = tip_with_checks(false, vec![run("live-build", None)]);
    let facts = parse_pull_facts(&with_rollup(4908, tip), &[4908]).expect("facts parse");
    let checks = facts[&4908].details.checks.as_ref().expect("consulted");
    assert!(checks.ran(), "the returned check has started");
    assert!(checks.pending(), "a null conclusion is still running");
    assert!(!checks.failing(), "a running check is not failing");
}

#[test]
fn pending_legacy_status_contexts_serialize_as_unfinished_check_runs() {
    let tip = tip_with_checks(
        false,
        vec![status("legacy-pending", "PENDING"), status("legacy-expected", "EXPECTED")],
    );
    let facts = parse_pull_facts(&with_rollup(4909, tip), &[4909]).expect("facts parse");
    let checks = facts[&4909].details.checks.as_ref().expect("consulted");
    assert!(checks.pending(), "the status contexts are unfinished");
    assert!(!checks.failing(), "the status contexts are not failing");
    let shown: Vec<(&str, Option<&str>)> = checks
        .runs
        .iter()
        .map(|run| (run.name.as_str(), run.conclusion.as_deref()))
        .collect();
    assert_eq!(shown, vec![("legacy-pending", None), ("legacy-expected", None)]);
}

#[test]
fn an_error_status_context_is_failing_in_facts() {
    let tip = tip_with_checks(false, vec![status("legacy-ci", "ERROR")]);
    let facts = parse_pull_facts(&with_rollup(11, tip), &[11]).expect("facts parse");
    let checks = facts[&11].details.checks.as_ref().expect("consulted");
    assert!(checks.failing(), "an ERROR state is failing");
    assert_eq!(checks.hard_failure_names(), vec!["legacy-ci".to_owned()]);
}

#[test]
fn an_empty_rollup_is_consulted_while_an_absent_facts_alias_is_not() {
    let tip = RollupHolder {
        tree: None,
        parents: None,
        contexts: None,
    };
    let envelope = reply(vec![
        Some(FactsPayload {
            rollup: Some(vec![tip]),
            ..payload(12)
        }),
        None,
    ]);
    let facts = parse_pull_facts(&envelope, &[12, 13]).expect("facts parse");
    let checks = facts[&12].details.checks.as_ref().expect("consulted");
    assert!(!checks.failing(), "an absent rollup is not a failure");
    assert!(!checks.ran(), "an absent rollup means nothing ran");
    assert!(
        !facts.contains_key(&13),
        "a number the reply did not carry is not consulted, not empty"
    );
}

#[test]
fn a_facts_reply_with_neither_errors_nor_a_repository_answers_nothing_loudly() {
    let envelope = FactsEnvelope {
        repository: None,
        errors: Vec::new(),
    };
    let error = parse_pull_facts(&envelope, &[7]).expect_err("a reply about nothing is not an answer");
    assert!(matches!(&error, ForgeError::Query { .. }));
    assert!(error.message().contains("neither errors nor a repository"));
}

#[test]
fn a_facts_rollup_with_more_than_one_page_of_contexts_is_unavailable() {
    let tip = tip_with_checks(true, vec![run("green", Some("SUCCESS"))]);
    let error = parse_pull_facts(&with_rollup(7, tip), &[7])
        .expect_err("a paginated check rollup must not render as complete");
    assert!(matches!(&error, ForgeError::Query { .. }));
    assert!(error.message().contains("#7"));
    assert!(error.message().contains("more than 100"));
}

#[test]
fn facts_keep_stale_current_and_incomparable_reviews_distinct_in_any_node_order() {
    let reviewed = |number: u64, reviews: &[&str], commits: &[&str]| {
        Some(FactsPayload {
            reviews: Some(reviews.iter().map(|at| Some((*at).to_owned())).collect()),
            commits: Some(texts(commits)),
            ..payload(number)
        })
    };
    let envelope = reply(vec![
        reviewed(1, &["2026-07-01T00:00:00Z"], &["2026-07-02T00:00:00Z"]),
        reviewed(2, &["2026-07-03T00:00:00Z"], &["2026-07-02T00:00:00Z"]),
        reviewed(3, &[], &["2026-07-02T00:00:00Z"]),
        reviewed(
            4,
            &["2026-07-01T00:00:00Z", "2026-07-05T00:00:00Z"],
            &["2026-07-02T00:00:00Z", "2026-07-04T00:00:00Z"],
        ),
    ]);
    let facts = parse_pull_facts(&envelope, &[1, 2, 3, 4]).expect("facts parse");
    assert_eq!(facts[&1].details.review_predates_head, Some(true));
    assert_eq!(facts[&2].details.review_predates_head, Some(false));
    assert_eq!(facts[&3].details.review_predates_head, None);
    assert_eq!(
        facts[&4].details.review_predates_head,
        Some(false),
        "the newest review and commit decide it, not the first listed nodes"
    );
}

#[test]
fn a_not_found_alias_is_absent_and_does_not_fail_the_batch() {
    let envelope = FactsEnvelope {
        repository: Some(vec![Some(payload(7)), None]),
        errors: vec![failure("NOT_FOUND", "p300", "not found")],
    };
    let facts = parse_pull_facts(&envelope, &[7, 300]).expect("a missing asked alias is tolerated");
    assert!(facts.contains_key(&7));
    assert!(!facts.contains_key(&300));
}

#[test]
fn any_other_error_fails_the_whole_batch() {
    let envelope = FactsEnvelope {
        repository: Some(vec![None]),
        errors: vec![failure("RATE_LIMITED", "p7", "rate limited")],
    };
    let error = parse_pull_facts(&envelope, &[7]).expect_err("only asked NOT_FOUND aliases are tolerated");
    assert!(matches!(error, ForgeError::Query { .. }));
    assert!(error.message().contains("rate limited"));
    let unasked = FactsEnvelope {
        repository: Some(vec![None]),
        errors: vec![failure("NOT_FOUND", "p8", "not found")],
    };
    assert!(parse_pull_facts(&unasked, &[7]).is_err());
}

#[test]
fn the_newest_comment_is_the_max_of_comments_and_reviews() {
    let both = FactsPayload {
        reviews: Some(vec![Some("2026-08-02T00:00:00Z".to_owned()), None]),
        comments: Some(texts(&["2026-08-03T00:00:00Z"])),
        ..payload(7)
    };
    let facts = parse_pull_facts(&reply(vec![Some(both)]), &[7]).expect("facts parse");
    assert_eq!(facts[&7].newest_comment.as_deref(), Some("2026-08-03T00:00:00Z"));
}

#[test]
fn consumer_head_query_parses_the_default_branch_and_commit() {
    let head = parse_consumer_head(ConsumerHeadEnvelope {
        default_branch_ref: Some(ConsumerHead {
            branch: "main".to_owned(),
            commit: "aaaaaaaaaaaaaaaaaaaaaaaaaaaaaaaaaaaaaaaa".to_owned(),
        }),
        errors: Vec::new(),
    })
    .expect("consumer head parses");

    assert_eq!(head.branch, "main");
    assert_eq!(head.commit, "aaaaaaaaaaaaaaaaaaaaaaaaaaaaaaaaaaaaaaaa");
    let query = consumer_head_query();
    assert!(query.contains("defaultBranchRef"), "was: {query}");
    assert!(query.contains("target { oid }"), "was: {query}");
    assert!(parse_consumer_head(ConsumerHeadEnvelope {
        default_branch_ref: None,
        errors: Vec::new(),
    })
    .is_err());
}

#[test]
fn a_repo_identity_exposes_and_splits_the_forges_own_name() {
    let identity = parse_identity(IdentityPayload {
        name_with_owner: "our-org/some-repo".to_owned(),
        id: "R_kgDOxyz".to_owned(),
    });
    assert_eq!(
        identity.split().expect("owner/repo"),
        ("our-org", "some-repo")
    );

    let error = RepoIdentity {
        name_with_owner: "bare".to_owned(),
        id: "R_kgDOxyz".to_owned(),
    }
    .split()
    .expect_err("an unsplittable identity cannot be queried");
    assert!(matches!(error, ForgeError::Target { .. }));
}

#[test]
fn cache_list_contract_omits_live_merge_state_fields() {
    let args = summary_list_args();
    assert_eq!(
        &args,
        &[
            "pr",
            "list",
            "--state",
            "all",
            "--limit",
            "300",
            "--json",
            "number,state,reviewDecision,headRefName,headRefOid,updatedAt,isDraft,url,\
             headRepositoryOwner,baseRefName,mergeCommit"
        ]
    );
    assert!(!summary_fields().contains("mergeable"));
    assert!(!summary_fields().contains("mergeStateStatus"));
}

#[test]
fn facts_batches_30_numbers_into_four_bounded_queries() {
    let numbers: Vec<u64> = (1..=30).collect();
    let sizes: Vec<usize> = numbers
        .chunks(FACTS_BATCH_CHUNK_SIZE)
        .map(<[u64]>::len)
        .collect();

    assert_eq!(sizes, [8, 8, 8, 6]);
    let batches = fact_batches(&numbers);
    assert_eq!(batches.iter().map(Vec::len).collect::<Vec<_>>(), [8, 8, 8, 6]);
    assert_eq!(batches.concat(), numbers);
}

#[test]
fn live_queries_request_the_required_fact_and_sweep_shapes() {
    let sweep = sweep_query();
    assert!(
        sweep.contains("orderBy: {field: UPDATED_AT, direction: DESC}"),
        "was: {sweep}"
    );
    assert!(sweep.contains("first: 100"), "was: {sweep}");
    let facts = pull_facts_query(&[7, 300]);
    assert!(facts.contains("p7: pullRequest(number: 7)"), "was: {facts}");
    assert!(
        facts.contains("p300: pullRequest(number: 300)"),
        "was: {facts}"
    );
    assert!(facts.contains("mergeable"), "was: {facts}");
    assert!(facts.contains("mergeStateStatus"), "was: {facts}");
    assert!(facts.contains("comments(last: 1)"), "was: {facts}");
    assert!(pull_timeline_query(88).contains("pullRequest(number: 88)"));
}

fn node(typename: &str, payload: TimelineEventPayload) -> TimelineNode {
    TimelineNode {
        typename: Some(typename.to_owned()),
        payload: Ok(payload),
    }
}

fn history(nodes: Vec<TimelineNode>) -> TimelineEnvelope {
    TimelineEnvelope {
        nodes: Some(nodes),
        errors: Vec::new(),
    }
}

fn commit(oid: &str, tree: &str) -> Option<TimelineCommit> {
    Some(TimelineCommit {
        oid: oid.to_owned(),
        tree: Some(tree.to_owned()),
    })
}

#[test]
fn a_force_push_carries_before_and_after_commit_and_tree_oids() {
    let envelope = history(vec![node(
        "HeadRefForcePushedEvent",
        TimelineEventPayload::ForcePush {
            at: "2026-08-30T22:41:02Z".to_owned(),
            before: commit(
                "aaaaaaaaaaaaaaaaaaaaaaaaaaaaaaaaaaaaaaaa",
                "bbbbbbbbbbbbbbbbbbbbbbbbbbbbbbbbbbbbbbbb",
            ),
            after: commit(
                "cccccccccccccccccccccccccccccccccccccccc",
                "dddddddddddddddddddddddddddddddddddddddd",
            ),
        },
    )]);
    let events = parse_pull_timeline(&envelope, 7).expect("timeline parses");
    assert_eq!(
        events,
        vec![TimelineEvent {
            at: "2026-08-30T22:41:02Z".to_owned(),
            kind: TimelineEventKind::ForcePush {
                before: CommitOids {
                    commit: "aaaaaaaaaaaaaaaaaaaaaaaaaaaaaaaaaaaaaaaa".to_owned(),
                    tree: "bbbbbbbbbbbbbbbbbbbbbbbbbbbbbbbbbbbbbbbb".to_owned(),
                },
                after: CommitOids {
                    commit: "cccccccccccccccccccccccccccccccccccccccc".to_owned(),
                    tree: "dddddddddddddddddddddddddddddddddddddddd".to_owned(),
                },
            },
        }]
    );
}

#[test]
fn delete_and_restore_events_keep_the_forges_chronological_order() {
    let envelope = history(vec![
        node(
            "HeadRefDeletedEvent",
            TimelineEventPayload::HeadDeleted {
                at: "2026-08-30T22:43:13Z".to_owned(),
            },
        ),
        node(
            "HeadRefRestoredEvent",
            TimelineEventPayload::HeadRestored {
                at: "2026-08-30T22:44:11Z".to_owned(),
            },
        ),
    ]);
    let events = parse_pull_timeline(&envelope, 7).expect("timeline parses");
    assert_eq!(
        events,
        vec![
            TimelineEvent {
                at: "2026-08-30T22:43:13Z".to_owned(),
                kind: TimelineEventKind::HeadDeleted,
            },
            TimelineEvent {
                at: "2026-08-30T22:44:11Z".to_owned(),
                kind: TimelineEventKind::HeadRestored,
            },
        ]
    );
}

#[test]
fn an_unknown_timeline_event_type_rejects_the_whole_history() {
    let envelope = history(vec![TimelineNode {
        typename: Some("NewForgeTimelineEvent".to_owned()),
        payload: Err("unknown variant".to_owned()),
    }]);
    let error = parse_pull_timeline(&envelope, 7).expect_err("unknown event must not disappear");
    assert!(matches!(error, ForgeError::Query { .. }));
    assert!(error.message().contains("NewForgeTimelineEvent"));
}

#[test]
fn a_timeline_node_without_a_type_or_that_cannot_be_read_rejects_the_whole_history() {
    let untyped = history(vec![TimelineNode {
        typename: None,
        payload: Err("missing field".to_owned()),
    }]);
    assert_eq!(
        parse_pull_timeline(&untyped, 7).expect_err("no type"),
        ForgeError::Query {
            detail: "a pull timeline event had no __typename".to_owned()
        }
    );
    let unread = history(vec![TimelineNode {
        typename: Some("MergedEvent".to_owned()),
        payload: Err("missing field".to_owned()),
    }]);
    assert_eq!(
        parse_pull_timeline(&unread, 7).expect_err("unread"),
        ForgeError::Parse {
            source: "missing field".to_owned()
        }
    );
}

#[test]
fn a_force_push_with_a_garbage_collected_before_commit_keeps_the_event() {
    let envelope = history(vec![node(
        "HeadRefForcePushedEvent",
        TimelineEventPayload::ForcePush {
            at: "2026-08-30T22:41:02Z".to_owned(),
            before: None,
            after: commit(
                "cccccccccccccccccccccccccccccccccccccccc",
                "dddddddddddddddddddddddddddddddddddddddd",
            ),
        },
    )]);
    let events = parse_pull_timeline(&envelope, 7).expect("missing before commit is historical");
    assert_eq!(
        events,
        vec![TimelineEvent {
            at: "2026-08-30T22:41:02Z".to_owned(),
            kind: TimelineEventKind::ForcePush {
                before: CommitOids {
                    commit: "unknown".to_owned(),
                    tree: "unknown".to_owned(),
                },
                after: CommitOids {
                    commit: "cccccccccccccccccccccccccccccccccccccccc".to_owned(),
                    tree: "dddddddddddddddddddddddddddddddddddddddd".to_owned(),
                },
            },
        }]
    );
}

#[test]
fn an_absent_pull_timeline_names_the_requested_number() {
    let envelope = TimelineEnvelope {
        nodes: None,
        errors: Vec::new(),
    };
    let error = parse_pull_timeline(&envelope, 88).expect_err("a null pull request is unavailable");
    assert!(matches!(error, ForgeError::Query { .. }));
    assert!(error.message().contains("#88"));
}

#[test]
fn check_payloads_normalize_to_one_shape() {
    assert_eq!(
        NormalizedCheckState::from_status_context("PENDING".to_owned()),
        NormalizedCheckState::Unfinished
    );
    assert_eq!(
        NormalizedCheckState::from_status_context("SUCCESS".to_owned()).into_conclusion(),
        Some("SUCCESS".to_owned())
    );
    assert_eq!(
        NormalizedCheckState::from_check_run(None),
        NormalizedCheckState::Unfinished
    );
    assert_eq!(check_run(&run("build", Some("FAILURE"))).name, "build");
}

#[test]
fn the_first_row_of_a_number_stays() {
    let row = |number: u64, state: &str| PullSummary {
        number,
        state: state.to_owned(),
        ..PullSummary::default()
    };
    let rows = dedupe_by_number(&vec![row(9, "OPEN"), row(7, "OPEN"), row(9, "CLOSED")]);
    let shown: Vec<(u64, &str)> = rows.iter().map(|row| (row.number, row.state.as_str())).collect();
    assert_eq!(shown, vec![(9, "OPEN"), (7, "OPEN")]);
}

#[test]
fn the_tool_is_asked_in_these_words() {
    assert_eq!(
        author_list_args("ann"),
        texts(&[
            "pr",
            "list",
            "--state",
            "all",
            "--limit",
            "300",
            "--search",
            "author:ann",
            "--json",
            summary_fields(),
        ])
    );
    assert_eq!(identity_args(), ["repo", "view", "--json", "nameWithOwner,id"]);
    assert_eq!(
        query_args("o", "n", "query { x }"),
        texts(&["api", "graphql", "-f", "owner=o", "-f", "name=n", "-f", "query=query { x }"])
    );
    assert_eq!(
        file_args("o/n", "abc", "uv.lock"),
        texts(&[
            "api",
            "repos/o/n/contents/uv.lock?ref=abc",
            "-H",
            "Accept: application/vnd.github.raw",
        ])
    );
}

#[test]
fn only_a_reply_of_404_means_that_a_file_is_absent() {
    let failed = |stderr: &str| ForgeError::Command {
        command: "gh api".to_owned(),
        dir: "/x".to_owned(),
        code: 1,
        stderr: stderr.to_owned(),
    };
    let query = || ForgeError::Query {
        detail: "HTTP 404".to_owned(),
    };
    assert!(is_absent(&failed("gh: Not Found (HTTP 404)")));
    assert!(!is_absent(&failed("gh: Bad credentials (HTTP 401)")));
    assert!(!is_absent(&query()));
    assert!(matches!(file_reply(Ok("text".to_owned())), Ok(Some(text)) if text == "text"));
    assert!(matches!(file_reply(Err(failed("HTTP 404"))), Ok(None)));
    assert!(matches!(file_reply(Err(failed("HTTP 500"))), Err(ForgeError::Command { .. })));
    assert!(matches!(file_reply(Err(query())), Err(ForgeError::Query { .. })));
}
