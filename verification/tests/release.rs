use knives::cli::Exit;
use knives::commands::release::counting::{check_test_count, parse_test_count, TestCountCheck};
use knives::commands::release::cutting::{
    audit_cut, candidate_cut, composition_message, cut, parent_sources, publish_cut, recorded_member_name, replay_base,
    rests_on_replay, uncarried_recorded_members, workspaces_to_clean, AuditContext, AuditedMember, BookmarkMotion, CompositionDelta, Cut,
    CutAudit, Drift, Unverified,
};
use knives::commands::release::members::{gather_members, member_label, render_members, MemberRow, MembersInput, MembersReport};
use knives::commands::release::planning::{
    cut_keepers, parent_label, plan, shared_base, trunk_lag, BranchStanding, PlanInput, PlanParent,
};
use knives::commands::release::superseded::{
    live_dated_release, orphaned_commits, our_dated_release_commits, reap_operation, reap_superseded, reap_targets,
    standing_on, stranded_commits, superseded_dated_releases, OrphanedCommitInput, ReapInput, ReapOutcome, Refusal,
};
use knives::commands::release::{
    conflict_guidance, cut_name, exit_for, previous_position, render, repair_effect, Plan, RepairEffect,
};
use knives::config::RepoEntry;
use knives::consumer_pins::ConsumerScan;
use knives::detect::landed::RebaseOutcome;
use knives::detect::stale_parents::{BookmarkTips, ReleaseParent};
use knives::detect::{Finding, FindingKind, Subject};
use knives::graph::CommitGraph;
use knives::ids::{BookmarkRef, BranchName, CommitId, ReleaseScheme, RemoteName, RepoName};
use knives::ledger::{Entry, Kind};
use knives::order::OrdMap;
use knives::pins::{Pin, PinKind};
use knives::release_model::{carried_from_tips, last_recorded_cut, MemberEvidence, RecordedCut};

fn local(name: &str, commit: &str) -> (BookmarkRef, CommitId) {
    (BookmarkRef::Local(BranchName::new(name)), CommitId::new(commit))
}

fn remote(name: &str, remote: &str, commit: &str) -> (BookmarkRef, CommitId) {
    (
        BookmarkRef::Remote {
            branch: BranchName::new(name),
            remote: RemoteName::new(remote),
        },
        CommitId::new(commit),
    )
}

fn tips(list: Vec<(BookmarkRef, CommitId)>) -> BookmarkTips {
    let mut tips: BookmarkTips = OrdMap::new();
    for (reference, commit) in list {
        tips.insert(reference, commit);
    }
    tips
}

fn graph(names: &[(&str, &str)], ancestry: &[(&str, &str)]) -> CommitGraph {
    let mut graph = CommitGraph::new();
    for (name, commit) in names {
        graph.resolved.insert((*name).to_owned(), CommitId::new(commit));
    }
    for (a, b) in ancestry {
        graph.ancestry.push((CommitId::new(a), CommitId::new(b)));
    }
    graph
}

fn superseded_names(tips: &BookmarkTips) -> Vec<String> {
    superseded_dated_releases(tips, "release")
        .iter()
        .map(|(reference, _)| reference.to_text())
        .collect()
}

#[test]
fn a_dated_cut_requires_a_name_and_a_fixed_cut_supplies_its_own() {
    let dated = ReleaseScheme::Dated;
    let fixed = ReleaseScheme::Fixed(BranchName::new("integration"));
    assert!(cut_name(&dated, None).is_err());
    assert_eq!(
        cut_name(&dated, Some("release/2026-08-03")).unwrap(),
        "release/2026-08-03"
    );
    assert_eq!(cut_name(&fixed, None).unwrap(), "integration");
    assert_eq!(cut_name(&fixed, Some("integration")).unwrap(), "integration");
    // A stray dated name under the fixed scheme would silently fork the
    // naming; refusing is the only answer that cannot lose a cut.
    assert!(cut_name(&fixed, Some("release/2026-08-03")).is_err());
}

#[test]
fn a_refused_cut_name_says_what_to_do() {
    assert_eq!(
        cut_name(&ReleaseScheme::Dated, None).unwrap_err(),
        "a dated release cut needs a name, e.g. release/2026-08-03"
    );
    assert_eq!(
        cut_name(&ReleaseScheme::Fixed(BranchName::new("integration")), Some("other")).unwrap_err(),
        "this repo cuts the fixed release branch integration; drop the name or use integration"
    );
}

#[test]
fn every_ref_of_a_superseded_dated_name_is_enumerated_on_any_remote_but_upstream() {
    // Given: two dated cuts with refs scattered across remotes, upstream's own
    // semver branch, and a work branch.
    let tips = tips(vec![
        local("release/2026-08-04", "aaa"),
        remote("release/2026-08-04", "release", "aaa"),
        remote("release/2026-08-04", "publish2", "aaa"),
        remote("release/2026-08-04", "git", "aaa"),
        local("release/2026-08-05", "bbb"),
        remote("release/2026-08-05", "release", "bbb"),
        remote("release/0.3.190", "upstream", "ccc"),
        remote("release/2026-07-01", "upstream", "ddd"),
        local("feat/x", "eee"),
    ]);

    // Then: only the older dated name, on every remote except upstream and git.
    assert_eq!(
        superseded_names(&tips),
        vec![
            "release/2026-08-04".to_owned(),
            "release/2026-08-04@publish2".to_owned(),
            "release/2026-08-04@release".to_owned(),
        ]
    );
}

#[test]
fn an_upstream_dated_ref_never_votes_on_which_cut_is_newest() {
    let tips = tips(vec![
        local("release/2026-08-05", "aaa"),
        remote("release/2026-08-05", "release", "aaa"),
        remote("release/2026-09-01", "upstream", "bbb"),
        local("release/2026-08-04", "ccc"),
    ]);
    assert_eq!(superseded_names(&tips), vec!["release/2026-08-04".to_owned()]);
}

#[test]
fn a_third_remotes_dated_ref_never_votes_on_which_cut_is_newest() {
    let tips = tips(vec![
        local("release/2026-08-05", "aaa"),
        remote("release/2026-08-05", "release", "aaa"),
        remote("release/2026-09-01", "publish2", "bbb"),
    ]);
    assert_eq!(
        superseded_names(&tips),
        vec!["release/2026-09-01@publish2".to_owned()]
    );
}

#[test]
fn superseded_refs_are_sorted_by_name_before_ref_kind() {
    // Given: two superseded names, each represented locally and on a remote.
    let tips = tips(vec![
        local("release/2026-08-04", "aaa"),
        remote("release/2026-08-04", "release", "aaa"),
        local("release/2026-08-03", "bbb"),
        remote("release/2026-08-03", "release", "bbb"),
        local("release/2026-08-05", "ccc"),
    ]);

    // Then: refs for each dated name remain adjacent.
    assert_eq!(
        superseded_names(&tips),
        vec![
            "release/2026-08-03".to_owned(),
            "release/2026-08-03@release".to_owned(),
            "release/2026-08-04".to_owned(),
            "release/2026-08-04@release".to_owned(),
        ]
    );
}

#[test]
fn the_newest_dated_name_is_never_superseded_even_when_only_remote() {
    // The newest cut may exist only as a remote ref in a fresh clone.
    let tips = tips(vec![
        local("release/2026-08-04", "aaa"),
        remote("release/2026-08-05.2", "release", "bbb"),
    ]);
    assert_eq!(superseded_names(&tips), vec!["release/2026-08-04".to_owned()]);
}

#[test]
fn nothing_is_superseded_where_no_ref_of_ours_votes() {
    let tips = tips(vec![remote("release/2026-08-04", "publish2", "aaa")]);
    assert!(superseded_names(&tips).is_empty());
    assert!(live_dated_release(&tips, "release").is_none());
}

#[test]
fn the_live_cut_is_the_local_ref_when_there_is_one() {
    let both = tips(vec![
        local("release/2026-08-05", "aaa"),
        remote("release/2026-08-05", "release", "bbb"),
        local("release/2026-08-04", "ccc"),
    ]);
    assert_eq!(
        live_dated_release(&both, "release"),
        Some((BranchName::new("release/2026-08-05"), CommitId::new("aaa")))
    );
    let remote_only = tips(vec![
        remote("release/2026-08-05", "origin", "bbb"),
        remote("release/2026-08-05", "release", "ddd"),
    ]);
    assert_eq!(
        live_dated_release(&remote_only, "release"),
        Some((BranchName::new("release/2026-08-05"), CommitId::new("ddd")))
    );
}

#[test]
fn dated_release_commits_are_listed_once_and_only_from_refs_of_ours() {
    let tips = tips(vec![
        local("release/2026-08-04", "bbb"),
        remote("release/2026-08-04", "release", "bbb"),
        local("release/2026-08-05", "aaa"),
        remote("release/2026-08-06", "publish2", "ccc"),
        local("release/next", "ddd"),
    ]);
    assert_eq!(
        our_dated_release_commits(&tips, "release"),
        vec![CommitId::new("aaa"), CommitId::new("bbb")]
    );
}

#[test]
fn the_orphan_question_leaves_out_release_machinery() {
    let with_releases = tips(vec![local("release/2026-08-04", "rrr"), local("feat/x", "xxx")]);
    let keep = vec![CommitId::new("k1"), CommitId::new("k2")];
    let previous = CommitId::new("ppp");
    assert_eq!(
        orphaned_commits(OrphanedCommitInput {
            previous: &previous,
            keep: &keep,
            tips: &with_releases,
            publish_remote: "release",
        }),
        "::( ppp:: ) ~ ::(k1|k2) ~ ppp ~ (rrr) ~ (empty() & description(exact:\"\"))"
    );
    let without = tips(vec![local("feat/x", "xxx")]);
    assert_eq!(
        orphaned_commits(OrphanedCommitInput {
            previous: &previous,
            keep: &keep,
            tips: &without,
            publish_remote: "release",
        }),
        "::( ppp:: ) ~ ::(k1|k2) ~ ppp ~ (none()) ~ (empty() & description(exact:\"\"))"
    );
}

fn reap_tips() -> BookmarkTips {
    tips(vec![
        local("release/2026-08-05", "live"),
        local("release/2026-08-04", "old4"),
        remote("release/2026-08-04", "release", "old4b"),
        local("release/2026-08-03", "old3"),
    ])
}

fn no_outcome() -> ReapOutcome {
    ReapOutcome {
        abandoned: Vec::new(),
        refused: Vec::new(),
    }
}

#[test]
fn what_stands_on_a_cut_leaves_out_the_cut_and_parked_working_copies() {
    assert_eq!(
        standing_on(&CommitId::new("abc")),
        "(descendants(abc) ~ abc) ~ (empty() & description(exact:\"\"))"
    );
}

#[test]
fn reap_targets_list_every_commit_of_every_superseded_name() {
    let targets = reap_targets(&reap_tips(), "release");
    assert_eq!(
        targets,
        vec![
            ("release/2026-08-03".to_owned(), vec![CommitId::new("old3")]),
            (
                "release/2026-08-04".to_owned(),
                vec![CommitId::new("old4"), CommitId::new("old4b")]
            ),
        ]
    );
    assert_eq!(
        reap_operation(&targets),
        "knives: reap release/2026-08-03, release/2026-08-04"
    );
}

#[test]
fn a_conflicted_live_cut_keeps_every_superseded_cut() {
    let report = reap_superseded(ReapInput {
        tips: &reap_tips(),
        publish_remote: "release",
        live_conflicted: true,
        descendants: &OrdMap::new(),
        outcome: no_outcome(),
    });
    assert!(report.reaped.is_empty());
    assert_eq!(report.kept.len(), 2);
    assert_eq!(
        report.kept[0],
        (
            "release/2026-08-03".to_owned(),
            "the live cut release/2026-08-05 still carries conflicts; a superseded cut is the record of \
             their last resolution"
                .to_owned()
        )
    );
}

#[test]
fn a_cut_with_local_descendants_is_kept_and_names_at_most_three() {
    let mut descendants: OrdMap<CommitId, Vec<CommitId>> = OrdMap::new();
    descendants.insert(
        CommitId::new("old4b"),
        vec![
            CommitId::new("d1d1d1d1d1d1d1d1"),
            CommitId::new("d2"),
            CommitId::new("d3"),
            CommitId::new("d4"),
        ],
    );
    let report = reap_superseded(ReapInput {
        tips: &reap_tips(),
        publish_remote: "release",
        live_conflicted: false,
        descendants: &descendants,
        outcome: ReapOutcome {
            abandoned: vec!["release/2026-08-03".to_owned()],
            refused: Vec::new(),
        },
    });
    assert_eq!(report.reaped, vec!["release/2026-08-03".to_owned()]);
    assert_eq!(
        report.kept,
        vec![(
            "release/2026-08-04".to_owned(),
            "has local descendant(s): d1d1d1d1d1d1, d2, d3".to_owned()
        )]
    );
}

#[test]
fn a_pinned_commit_is_forgotten_only_and_another_refusal_is_a_note() {
    let report = reap_superseded(ReapInput {
        tips: &reap_tips(),
        publish_remote: "release",
        live_conflicted: false,
        descendants: &OrdMap::new(),
        outcome: ReapOutcome {
            abandoned: Vec::new(),
            refused: vec![
                (
                    "release/2026-08-03".to_owned(),
                    Refusal::Immutable {
                        commit: "old3".to_owned(),
                        pin: "tag v1".to_owned(),
                    },
                ),
                (
                    "release/2026-08-04".to_owned(),
                    Refusal::Other("jj failed".to_owned()),
                ),
            ],
        },
    });
    assert_eq!(
        report.forgotten_only,
        vec![(
            "release/2026-08-03".to_owned(),
            "old3 still pinned by tag v1".to_owned()
        )]
    );
    assert_eq!(
        report.notes,
        vec!["release/2026-08-04: refs forgotten, commit not abandoned: jj failed".to_owned()]
    );
    assert!(report.kept.is_empty());
}

#[test]
fn a_reap_report_never_names_more_than_was_chosen() {
    let report = reap_superseded(ReapInput {
        tips: &reap_tips(),
        publish_remote: "release",
        live_conflicted: false,
        descendants: &OrdMap::new(),
        outcome: ReapOutcome {
            abandoned: vec![
                "release/2026-08-03".to_owned(),
                "release/2026-08-04".to_owned(),
                "release/2026-08-05".to_owned(),
            ],
            refused: vec![
                (
                    "release/2026-08-04".to_owned(),
                    Refusal::Immutable {
                        commit: "old4".to_owned(),
                        pin: "tag v1".to_owned(),
                    },
                ),
                ("main".to_owned(), Refusal::Other("jj failed".to_owned())),
            ],
        },
    });
    assert_eq!(report.reaped, vec!["release/2026-08-03".to_owned()]);
    assert_eq!(
        report.forgotten_only,
        vec![(
            "release/2026-08-04".to_owned(),
            "old4 still pinned by tag v1".to_owned()
        )]
    );
    assert!(report.notes.is_empty());
    assert!(report.kept.is_empty());
}

#[test]
fn a_stranded_commit_is_never_the_previous_cut_a_keeper_or_a_release() {
    let listed = reap_tips();
    let previous = CommitId::new("prev");
    let keep = [CommitId::new("kept")];
    let answer: Vec<CommitId> = ["work", "prev", "kept", "old4", "more"]
        .iter()
        .map(|id| CommitId::new(id))
        .collect();
    let found = stranded_commits(
        OrphanedCommitInput {
            previous: &previous,
            keep: &keep,
            tips: &listed,
            publish_remote: "release",
        },
        &answer,
    );
    assert_eq!(found, vec![CommitId::new("work"), CommitId::new("more")]);
}

fn pin(kind: PinKind) -> Pin {
    Pin {
        file: "pyproject.toml".to_owned(),
        line: 1,
        reference: "release/2026-07-28".to_owned(),
        kind,
        locked: None,
        on_scheme: true,
        source: String::new(),
    }
}

#[test]
fn one_following_consumer_means_repair_in_place() {
    // A needless dated name burns the name and forces a re-pin nobody wanted.
    let pins = vec![pin(PinKind::Frozen), pin(PinKind::Follows)];
    assert_eq!(
        repair_effect(&pins, &BranchName::new("release/2026-07-28")),
        RepairEffect::RepairInPlace
    );
}

#[test]
fn all_frozen_means_a_new_dated_name() {
    assert_eq!(
        repair_effect(&[pin(PinKind::Frozen)], &BranchName::new("release/2026-07-28")),
        RepairEffect::NewDatedName
    );
}

#[test]
fn nothing_pinning_it_leaves_the_choice_open() {
    assert_eq!(
        repair_effect(&[], &BranchName::new("release/2026-07-28")),
        RepairEffect::Unpinned
    );
}

#[test]
fn a_pin_frozen_on_another_release_does_not_freeze_this_one() {
    let pins = [pin(PinKind::Frozen)];
    assert_eq!(
        repair_effect(&pins, &BranchName::new("release/2026-08-31")),
        RepairEffect::Unpinned
    );
    assert_eq!(
        repair_effect(&pins, BookmarkRef::parse("release/2026-07-28@release").branch()),
        RepairEffect::NewDatedName,
        "the publish remote's view of the same release is the same release"
    );
}

#[test]
fn an_off_scheme_pin_alone_leaves_the_repair_choice_open() {
    // A consumer pinned at its own tag is not consuming releases: repairing in
    // place cannot reach it and a new dated name would not either.
    let mut off_scheme = pin(PinKind::Frozen);
    off_scheme.on_scheme = false;
    off_scheme.reference = "acme-pin-0.4.47.dev7".to_owned();
    assert_eq!(
        repair_effect(&[off_scheme], &BranchName::new("acme-pin-0.4.47.dev7")),
        RepairEffect::Unpinned
    );
}

#[test]
fn carried_branches_excludes_the_configured_trunk_not_the_name_main() {
    // A fork of a dev-trunk upstream may carry a branch literally named main;
    // that branch is work, and dev is the one that is not.
    let tips = tips(vec![local("dev", "aaa"), local("main", "bbb"), local("feat/x", "ccc")]);
    let names: Vec<String> = carried_from_tips(&tips, "dev", &ReleaseScheme::Dated)
        .into_iter()
        .map(|(branch, _)| branch)
        .collect();
    assert!(!names.contains(&"dev".to_owned()));
    assert!(names.contains(&"main".to_owned()));
}

#[test]
fn a_fixed_release_branch_is_a_cut_not_carried_cargo() {
    // Given: a fixed integration cut alongside the configured trunk and feature work.
    let fixed = ReleaseScheme::Fixed(BranchName::new("integration"));
    let tips = tips(vec![
        local("integration", "aaa"),
        local("feat/x", "bbb"),
        local("dev", "ccc"),
    ]);
    // When: the next cut's carried branches are gathered.
    let carried = carried_from_tips(&tips, "dev", &fixed);
    // Then: only the feature is cargo; the fixed branch advances in place.
    assert_eq!(carried, vec![("feat/x".to_owned(), CommitId::new("bbb"))]);
}

fn sample() -> Cut {
    Cut {
        name: "release/2026-07-30".to_owned(),
        parents: vec![CommitId::new("aaaa"), CommitId::new("bbbb")],
        provenance: vec![
            (CommitId::new("aaaa"), "pull/10/head".to_owned()),
            (CommitId::new("bbbb"), "feat/beta".to_owned()),
        ],
    }
}

#[test]
fn the_message_records_where_every_parent_came_from() {
    // So a later sync knows what to check, including for a parent that was
    // never our branch.
    let message = sample().message();
    assert!(message.contains("release/2026-07-30"));
    assert!(message.contains("parent aaaa from pull/10/head"));
    assert!(message.contains("parent bbbb from feat/beta"));
    assert_eq!(
        message,
        "release: release/2026-07-30\n\nparent aaaa from pull/10/head\nparent bbbb from feat/beta"
    );
}

#[test]
fn a_commit_held_twice_is_one_parent_named_twice() {
    let cut = Cut::from_carried(
        "release/2026-07-30".to_owned(),
        &[
            ("feat/a".to_owned(), CommitId::new("aaaa")),
            ("keep/a".to_owned(), CommitId::new("aaaa")),
            ("feat/b".to_owned(), CommitId::new("bbbb")),
        ],
    );
    assert_eq!(cut.parents, vec![CommitId::new("aaaa"), CommitId::new("bbbb")]);
    assert_eq!(cut.provenance.len(), 3);
    assert_eq!(
        composition_message(
            "r",
            &[("feat/a".to_owned(), CommitId::new("aaaa"))],
            "dropped feat/c"
        ),
        "release: r\n\nparent aaaa from feat/a\n\ndropped feat/c"
    );
}

#[test]
fn workspaces_for_dropped_branches_are_identified() {
    let workspaces = vec![
        "default".to_owned(),
        "feat-alpha".to_owned(),
        "feat-beta".to_owned(),
    ];
    let carried = vec!["feat/beta".to_owned()];
    assert_eq!(
        workspaces_to_clean(&workspaces, &carried),
        vec!["feat-alpha".to_owned()]
    );
}

#[test]
fn the_default_workspace_is_never_reaped() {
    // Reaping it would delete the checkout the operator is standing in.
    let workspaces = vec!["default".to_owned()];
    assert!(workspaces_to_clean(&workspaces, &[]).is_empty());
}

fn cut_event(subject: &str, created: &str, members: &[&str]) -> Entry {
    let mut evidence = vec![created.to_owned()];
    evidence.extend(members.iter().map(|sha| (*sha).to_owned()));
    Entry {
        ts: "2026-08-15T00:00:00Z".to_owned(),
        owner: "an-agent".to_owned(),
        subject: Some(subject.to_owned()),
        kind: Kind::Event,
        disposition: None,
        text: format!("cut {subject} as {created} with {} parent(s)", members.len()),
        evidence,
        anchor: None,
        pr: None,
        parents: Vec::new(),
    }
}

#[test]
fn the_newest_cut_event_is_the_recorded_composition() {
    // Given: two cut events; the newer one is the composition in hand.
    let entries = vec![
        cut_event("release/2026-08-14", "aaaa", &["1111", "2222", "3333"]),
        cut_event("release/2026-08-15", "bbbb", &["1111", "2222"]),
    ];
    // When/Then: the newest wins, and evidence splits into created + members.
    let recorded = last_recorded_cut(&entries, None).expect("a recorded cut");
    assert_eq!(recorded.commit, CommitId::new("bbbb"));
    assert_eq!(
        recorded.members,
        vec![CommitId::new("1111"), CommitId::new("2222")]
    );
    let named = last_recorded_cut(&entries, Some("release/2026-08-14")).expect("a recorded cut");
    assert_eq!(named.commit, CommitId::new("aaaa"));
}

#[test]
fn a_note_or_foreign_prose_is_never_a_recorded_cut() {
    // Given: a note whose prose merely resembles a cut event, and an event
    // about something else entirely.
    let mut note = cut_event("release/2026-08-15", "aaaa", &["1111"]);
    note.kind = Kind::Note;
    let mut other = cut_event("feat/alpha", "bbbb", &["2222"]);
    other.text = "synced feat/alpha".to_owned();
    // When/Then: neither reads as a recorded composition.
    assert_eq!(last_recorded_cut(&[note, other], None), None);
}

#[test]
fn a_cut_event_without_member_evidence_is_not_a_baseline() {
    // A cut always records created + members; anything thinner cannot say
    // what the previous composition was and must not pretend to.
    let thin = cut_event("release/2026-08-15", "aaaa", &[]);
    assert_eq!(last_recorded_cut(std::slice::from_ref(&thin), None), None);
    assert_eq!(last_recorded_cut(&[thin], None), None);
}

#[test]
fn a_merged_total_below_one_branch_is_a_dropped_suite() {
    // Silent failure: everything compiles, the suite passes, there is just
    // less of it.
    assert_eq!(
        TestCountCheck::compare(40, 55),
        TestCountCheck::Dropped {
            merged: 40,
            branch: 55
        }
    );
    assert!(TestCountCheck::compare(40, 55).render().contains("BELOW"));
}

#[test]
fn an_equal_or_greater_total_is_kept() {
    assert!(matches!(
        TestCountCheck::compare(55, 55),
        TestCountCheck::Kept { .. }
    ));
    assert!(matches!(
        TestCountCheck::compare(90, 55),
        TestCountCheck::Kept { .. }
    ));
    assert_eq!(
        TestCountCheck::compare(90, 55).render(),
        "  test count: 90 merged against 55 on one branch, kept"
    );
}

#[test]
fn an_unconfigured_check_never_renders_as_passed() {
    // Not looking must not read as looking and finding nothing wrong.
    let text = TestCountCheck::NotConfigured.render();
    assert!(text.contains("not checked"));
    assert!(!text.contains("kept"));
}

#[test]
fn a_count_is_read_from_the_last_number_a_runner_prints() {
    assert_eq!(
        parse_test_count("test result: ok. 115 passed; 0 failed"),
        Some(0)
    );
    assert_eq!(parse_test_count("Ran 19 tests"), Some(19));
    assert_eq!(parse_test_count("no numbers here"), None);
    assert_eq!(parse_test_count("7 then 99999999999999999999999"), None);
    assert_eq!(parse_test_count("4294967295"), Some(4294967295));
    assert_eq!(parse_test_count("4294967296"), None);
    assert_eq!(parse_test_count(""), None);
}

#[test]
fn a_test_count_is_checked_only_where_it_is_configured_and_read_on_both_sides() {
    let mut entry = RepoEntry::new("u", "o");
    assert_eq!(
        check_test_count(&entry, Some("10 passed"), Some("9 passed")),
        TestCountCheck::NotConfigured
    );
    entry.test_count_command = Some("count".to_owned());
    assert_eq!(
        check_test_count(&entry, Some("10 passed"), Some("9 passed")),
        TestCountCheck::Kept {
            merged: 10,
            branch: 9
        }
    );
    assert_eq!(
        check_test_count(&entry, None, Some("9 passed")),
        TestCountCheck::NotConfigured
    );
    assert_eq!(
        check_test_count(&entry, Some("8 passed"), Some("9 passed")),
        TestCountCheck::Dropped {
            merged: 8,
            branch: 9
        }
    );
}

#[test]
fn consumer_notes_render_with_the_alert_prefix() {
    let plan = Plan {
        notes: vec!["consumer checkout is 1 commit behind its origin/main".to_owned()],
        ..Plan::default()
    };

    assert_eq!(
        render(&plan, ""),
        "! consumer checkout is 1 commit behind its origin/main"
    );
}

#[test]
fn a_clean_cut_says_so_rather_than_staying_silent() {
    assert!(conflict_guidance(&[]).contains("no conflicts"));
}

#[test]
fn conflicts_are_named_with_the_shape_of_their_resolution() {
    let text = conflict_guidance(&["infra/lib/config.py".to_owned()]);
    assert!(text.contains("infra/lib/config.py"));
    assert!(text.contains("union"));
    assert!(text.contains("every loader"));
}

fn row(commit: &str, held_by: &[&str], advanced: &[&str], base_parent: bool) -> MemberRow {
    MemberRow {
        commit: CommitId::new(commit),
        held_by: held_by.iter().map(ToString::to_string).collect(),
        advanced: advanced.iter().map(ToString::to_string).collect(),
        base_parent,
    }
}

fn report(audit: Option<CutAudit>) -> MembersReport {
    MembersReport {
        repo: "demo".to_owned(),
        release: "release/2026-08-30".to_owned(),
        commit: CommitId::new("rrrrrrrrrrrrrrrr"),
        parent_count: 4,
        members: vec![
            row("aaaaaaaaaaaaaaaa", &["feat/alpha"], &[], false),
            row(
                "bbbbbbbbbbbbbbbb",
                &[],
                &["feat/beta advanced to cccccccccccc"],
                false,
            ),
            row("dddddddddddddddd", &[], &[], false),
            row("eeeeeeeeeeeeeeee", &["main@upstream"], &[], true),
        ],
        audit,
        notes: Vec::new(),
        problems: Vec::new(),
    }
}

#[test]
fn members_render_holders_advances_bare_bases_and_audit_buckets() {
    let audit = CutAudit {
        carried: vec!["feat/alpha@aaaaaaaaaaaa".to_owned()],
        missing: vec!["dddddddddddd".to_owned()],
        unexplained: vec!["Cargo.lock".to_owned()],
        inconclusive: Vec::new(),
    };

    let expected = [
        "release/2026-08-30 @ rrrrrrrrrrrr — 4 parents\n",
        "- aaaaaaaaaaaa feat/alpha\n",
        "- bbbbbbbbbbbb feat/beta advanced to cccccccccccc\n",
        "- dddddddddddd bare commit — nothing holds it\n",
        "- eeeeeeeeeeee main@upstream (base parent)\n",
        "  feat/alpha@aaaaaaaaaaaa: diverges where the previous release already did (a recorded resolution); carried forward\n",
        "  feat/beta@bbbbbbbbbbbb: carried (replay empty)\n",
        "  !! dddddddddddd: the cut tree is missing or diverges from the member's content\n",
        "  !! Cargo.lock: changed between the previous release and this cut with no member or trunk explaining it",
    ]
    .concat();
    assert_eq!(render_members(&report(Some(audit))), expected);
}

#[test]
fn members_report_serializes_the_jj_parent_count() {
    let report = report(None);
    assert_eq!(report.parent_count, 4);
    assert!(report.audit.is_none());
}

#[test]
fn audit_labels_keep_two_parents_advanced_by_one_branch_distinct() {
    let report = MembersReport {
        repo: "demo".to_owned(),
        release: "release/2026-08-30".to_owned(),
        commit: CommitId::new("rrrrrrrrrrrrrrrr"),
        parent_count: 2,
        members: vec![
            row(
                "aaaaaaaaaaaaaaaa",
                &[],
                &["feat/shared advanced to ssssssssssss"],
                false,
            ),
            row(
                "bbbbbbbbbbbbbbbb",
                &[],
                &["feat/shared advanced to ssssssssssss"],
                false,
            ),
        ],
        audit: Some(CutAudit {
            missing: vec!["feat/shared@aaaaaaaaaaaa".to_owned()],
            unexplained: Vec::new(),
            inconclusive: Vec::new(),
            carried: Vec::new(),
        }),
        notes: Vec::new(),
        problems: Vec::new(),
    };

    let rendered = render_members(&report);
    assert!(rendered.contains(
        "!! feat/shared@aaaaaaaaaaaa: the cut tree is missing or diverges from the member's content"
    ));
    assert!(rendered.contains("feat/shared@bbbbbbbbbbbb: carried (replay empty)"));
}

#[test]
fn members_render_holders_and_advances_together() {
    let report = MembersReport {
        repo: "demo".to_owned(),
        release: "release/2026-08-30".to_owned(),
        commit: CommitId::new("rrrrrrrrrrrrrrrr"),
        parent_count: 1,
        members: vec![row(
            "aaaaaaaaaaaaaaaa",
            &["keep/alpha"],
            &["feat/alpha advanced to bbbbbbbbbbbb"],
            false,
        )],
        audit: None,
        notes: Vec::new(),
        problems: Vec::new(),
    };

    assert!(render_members(&report)
        .contains("- aaaaaaaaaaaa keep/alpha, feat/alpha advanced to bbbbbbbbbbbb"));
}

#[test]
fn member_labels_name_the_holder_the_successor_or_the_commit() {
    assert_eq!(
        member_label(&row("aaaaaaaaaaaaaaaa", &["feat/a", "keep/a"], &[], false)),
        "feat/a@aaaaaaaaaaaa"
    );
    assert_eq!(
        member_label(&row("aaaaaaaaaaaaaaaa", &[], &["feat/b advanced to x"], false)),
        "feat/b@aaaaaaaaaaaa"
    );
    assert_eq!(member_label(&row("aaaaaaaaaaaaaaaa", &[], &["odd"], false)), "aaaaaaaaaaaa");
}

fn parent(commit: &str, bookmarks: Vec<BookmarkRef>) -> ReleaseParent {
    ReleaseParent {
        commit: CommitId::new(commit),
        bookmarks,
    }
}

fn members_of(
    parents: &Vec<ReleaseParent>,
    trunk: &Result<CommitId, String>,
    graph: &CommitGraph,
    successors: &OrdMap<CommitId, Vec<(String, CommitId)>>,
    verify: bool,
    replays: &OrdMap<CommitId, RebaseOutcome>,
) -> MembersReport {
    gather_members(MembersInput {
        repo: "/tmp/repo",
        entry: &RepoEntry::new("u", "o"),
        name: "release/2026-08-30",
        commit: &CommitId::new("rrrrrrrrrrrrrrrr"),
        parents,
        trunk,
        graph,
        successors,
        verify,
        conflicted: false,
        replays,
    })
}

#[test]
fn member_parent_count_ignores_parent_shaped_commit_message_prose() {
    // The count is of the repository's parents; no message is read for it.
    let parents = vec![
        parent("aaaa", vec![BookmarkRef::Local(BranchName::new("feat/alpha"))]),
        parent("bbbb", vec![BookmarkRef::Local(BranchName::new("feat/beta"))]),
    ];
    let members = members_of(
        &parents,
        &Err("no such remote".to_owned()),
        &CommitGraph::new(),
        &OrdMap::new(),
        false,
        &OrdMap::new(),
    );
    assert_eq!(members.parent_count, 2);
    assert_eq!(
        members.problems,
        vec!["cannot resolve upstream trunk main@upstream: no such remote".to_owned()]
    );
}

#[test]
fn a_release_bookmark_does_not_make_a_bare_parent_advanced() {
    // The only bookmark is the release's own, on the parent's child, so no branch can have continued it.
    let listed = tips(vec![local("release/2026-08-30", "cut")]);
    assert!(carried_from_tips(&listed, "main", &ReleaseScheme::Dated).is_empty());
    let members = members_of(
        &vec![parent("aaaaaaaaaaaaaaaa", Vec::new())],
        &Ok(CommitId::new("tttt")),
        &CommitGraph::new(),
        &OrdMap::new(),
        false,
        &OrdMap::new(),
    );
    assert_eq!(members.members.len(), 1);
    assert!(members.members[0].held_by.is_empty());
    assert!(members.members[0].advanced.is_empty());
    assert!(render_members(&members).contains("bare commit — nothing holds it"));
}

#[test]
fn a_local_release_bookmark_is_no_carried_branch() {
    let listed = tips(vec![
        local("release/2026-08-30", "cut"),
        local("feat/alpha", "aaaa"),
        local("main", "tttt"),
        remote("feat/beta", "origin", "bbbb"),
    ]);
    assert_eq!(
        carried_from_tips(&listed, "main", &ReleaseScheme::Dated),
        vec![("feat/alpha".to_owned(), CommitId::new("aaaa"))]
    );
    let fixed = ReleaseScheme::Fixed(BranchName::new("feat/alpha"));
    assert_eq!(
        carried_from_tips(&listed, "main", &fixed),
        vec![("release/2026-08-30".to_owned(), CommitId::new("cut"))]
    );
}

#[test]
fn verified_members_are_audited_and_the_base_is_not() {
    let mut replays: OrdMap<CommitId, RebaseOutcome> = OrdMap::new();
    replays.insert(CommitId::new("aaaa"), RebaseOutcome::Empty);
    replays.insert(CommitId::new("bbbb"), RebaseOutcome::CleanNonEmpty);
    let mut successors: OrdMap<CommitId, Vec<(String, CommitId)>> = OrdMap::new();
    successors.insert(
        CommitId::new("bbbb"),
        vec![("feat/b".to_owned(), CommitId::new("cccccccccccccccc"))],
    );
    let members = members_of(
        &vec![
            parent("aaaa", vec![BookmarkRef::Local(BranchName::new("feat/a"))]),
            parent("bbbb", Vec::new()),
            parent("base", Vec::new()),
        ],
        &Ok(CommitId::new("tttt")),
        &graph(&[], &[("base", "tttt")]),
        &successors,
        true,
        &replays,
    );
    assert_eq!(
        members.members[1].advanced,
        vec!["feat/b advanced to cccccccccccc".to_owned()]
    );
    assert!(members.members[2].base_parent);
    let audit = members.audit.expect("an audit");
    assert_eq!(audit.missing, vec!["feat/b@bbbb".to_owned()]);
    assert!(audit.inconclusive.is_empty());
    assert!(!audit.passed());
}

fn audited(name: &str, replay: RebaseOutcome, before: RebaseOutcome, changed: &[&str]) -> AuditedMember {
    AuditedMember {
        name: name.to_owned(),
        replay,
        before,
        changed: changed.iter().map(ToString::to_string).collect(),
    }
}

#[test]
fn an_audit_charges_a_cut_only_with_divergence_it_introduces() {
    let members = [
        audited("present", RebaseOutcome::Empty, RebaseOutcome::Empty, &["a.rs"]),
        audited("lost", RebaseOutcome::CleanNonEmpty, RebaseOutcome::Empty, &[]),
        audited("resolved", RebaseOutcome::CleanNonEmpty, RebaseOutcome::Conflicted, &[]),
        audited("stuck", RebaseOutcome::Conflicted, RebaseOutcome::Empty, &[]),
    ];
    let drift = Drift {
        drifted: vec!["a.rs".to_owned(), "b.rs".to_owned(), "c.rs".to_owned()],
        trunk_changed: vec!["b.rs".to_owned()],
    };
    let audit = audit_cut(
        &members,
        AuditContext {
            conflicted: true,
            previous: Some(&drift),
        },
    );
    assert_eq!(audit.missing, vec!["lost".to_owned()]);
    assert_eq!(audit.carried, vec!["resolved".to_owned()]);
    assert_eq!(audit.inconclusive, vec!["stuck".to_owned()]);
    assert_eq!(audit.unexplained, vec!["c.rs".to_owned()]);
    assert!(!audit.passed());

    let clean = audit_cut(
        &members,
        AuditContext {
            conflicted: false,
            previous: None,
        },
    );
    assert_eq!(
        clean.missing,
        vec!["lost".to_owned(), "resolved".to_owned(), "stuck".to_owned()]
    );
    assert!(clean.unexplained.is_empty());
    assert!(CutAudit::default().passed());
}

#[test]
fn a_cut_that_lost_a_parent_is_refused_and_motion_follows_the_scheme() {
    assert_eq!(
        candidate_cut(&sample(), 1).unwrap_err(),
        "cut release/2026-07-30 came out with 1 parents, expected 2; refusing to name it"
    );
    assert!(candidate_cut(&sample(), 2).is_ok());
    let dated = publish_cut("release/2026-07-30", &ReleaseScheme::Dated);
    assert_eq!(dated.motion, BookmarkMotion::ForwardOnly);
    assert_eq!(dated.operation, "knives: cut release/2026-07-30");
    let fixed = cut(
        &sample(),
        &ReleaseScheme::Fixed(BranchName::new("integration")),
        2,
    )
    .unwrap();
    assert_eq!(fixed.motion, BookmarkMotion::Anywhere);
    assert!(cut(&sample(), &ReleaseScheme::Dated, 3).is_err());
}

#[test]
fn recorded_members_are_carried_dropped_or_unanswered() {
    let recorded = RecordedCut {
        commit: CommitId::new("prev"),
        members: ["parent", "unknown", "entered", "landed", "squashed", "gone", "stuck"]
            .iter()
            .map(|id| CommitId::new(id))
            .collect(),
    };
    let names: Vec<(&str, &str)> = ["parent", "entered", "landed", "squashed", "gone", "stuck"]
        .iter()
        .map(|id| (*id, *id))
        .collect();
    let graph = graph(
        &names,
        &[("entered", "base"), ("landed", "trunk")],
    );
    let mut replays: OrdMap<CommitId, RebaseOutcome> = OrdMap::new();
    replays.insert(CommitId::new("squashed"), RebaseOutcome::Empty);
    replays.insert(CommitId::new("gone"), RebaseOutcome::CleanNonEmpty);
    replays.insert(CommitId::new("stuck"), RebaseOutcome::Conflicted);
    let tips = tips(vec![local("feat/gone", "gone"), remote("feat/x", "origin", "landed")]);
    let parents = [CommitId::new("parent")];
    let base = CommitId::new("base");
    let trunk = CommitId::new("trunk");
    let delta = CompositionDelta {
        recorded: &recorded,
        parents: &parents,
        base: &base,
        trunk: &trunk,
        tips: &tips,
        graph: &graph,
        conflicted: true,
        replays: &replays,
    };
    let replayed: Vec<&str> = recorded
        .members
        .iter()
        .filter(|member| rests_on_replay(delta, member))
        .map(|member| member.as_str())
        .collect();
    assert_eq!(replayed, vec!["squashed", "gone", "stuck"]);
    let check = uncarried_recorded_members(delta);
    assert_eq!(
        check.dropped,
        vec![
            "unknown (not known to this repository)".to_owned(),
            "landed".to_owned(),
            "feat/gone@gone".to_owned(),
        ]
    );
    assert_eq!(
        check.inconclusive,
        vec![Unverified {
            commit: CommitId::new("stuck"),
            name: "stuck".to_owned()
        }]
    );
    assert_eq!(recorded_member_name(&CommitId::new("gone"), &tips), "feat/gone@gone");
    assert_eq!(replay_base(None, &trunk), trunk);
    assert_eq!(replay_base(Some(&base), &trunk), base);
}

#[test]
fn parents_are_named_by_branch_trunk_or_id() {
    let tips = tips(vec![local("feat/a", "aaaa"), local("main", "tttt")]);
    let graph = graph(&[("main@upstream", "tttt")], &[("base", "tttt")]);
    let entry = RepoEntry::new("u", "o");
    assert_eq!(
        parent_sources(
            &tips,
            &graph,
            &entry,
            &[
                CommitId::new("aaaa"),
                CommitId::new("base"),
                CommitId::new("0123456789abcdef")
            ]
        ),
        vec![
            ("feat/a".to_owned(), CommitId::new("aaaa")),
            ("main@upstream".to_owned(), CommitId::new("base")),
            ("0123456789ab".to_owned(), CommitId::new("0123456789abcdef")),
        ]
    );
}

#[test]
fn the_previous_fixed_position_is_read_where_it_was_published() {
    let mut entry = RepoEntry::new("u", "o");
    let graph = graph(&[("integration@origin", "aaaa"), ("integration", "bbbb")], &[]);
    assert_eq!(previous_position(&graph, &entry), None);
    entry.release_branch = Some("integration".to_owned());
    assert_eq!(
        previous_position(&graph, &entry),
        Some(("integration@origin".to_owned(), CommitId::new("aaaa")))
    );
}

#[test]
fn a_release_without_the_trunk_says_so() {
    let names = [("main@upstream", "0123456789abcdef"), ("release/x", "rrrr")];
    let behind = graph(&names, &[]);
    assert_eq!(
        trunk_lag(&behind, Some("release/x"), "main@upstream"),
        Some("release/x does not contain the upstream trunk (0123456789ab)".to_owned())
    );
    let current = graph(&names, &[("0123456789abcdef", "rrrr")]);
    assert_eq!(trunk_lag(&current, Some("release/x"), "main@upstream"), None);
    assert_eq!(trunk_lag(&behind, None, "main@upstream"), None);
    assert_eq!(trunk_lag(&behind, Some("release/y"), "main@upstream"), None);
}

#[test]
fn the_shared_base_is_the_newest_trunk_parent_or_the_common_ancestor() {
    let trunk = CommitId::new("trunk");
    let parents = [CommitId::new("old"), CommitId::new("new"), CommitId::new("member")];
    let nested = graph(&[], &[("old", "trunk"), ("new", "trunk"), ("old", "new")]);
    assert_eq!(shared_base(&parents, &nested, &trunk, None), Some(CommitId::new("new")));
    let crossed = graph(&[], &[("old", "trunk"), ("new", "trunk")]);
    assert_eq!(
        shared_base(&parents, &crossed, &trunk, Some(&CommitId::new("fork"))),
        None
    );
    let flat = CommitGraph::new();
    assert_eq!(
        shared_base(&parents, &flat, &trunk, Some(&CommitId::new("fork"))),
        Some(CommitId::new("fork"))
    );
}

#[test]
fn keepers_are_work_tips_divergent_targets_previous_parents_and_the_trunk() {
    let tips = tips(vec![
        local("feat/a", "aaaa"),
        local("release/2026-08-04", "rrrr"),
        remote("feat/b", "origin", "bbbb"),
    ]);
    let conflicted = vec![
        (
            BookmarkRef::Local(BranchName::new("feat/d")),
            vec![CommitId::new("d1"), CommitId::new("d2")],
        ),
        (
            BookmarkRef::Local(BranchName::new("release/2026-08-03")),
            vec![CommitId::new("x1")],
        ),
    ];
    let keep = cut_keepers(
        &tips,
        &conflicted,
        &vec![CommitId::new("p1")],
        &CommitId::new("tttt"),
        &ReleaseScheme::Dated,
    );
    let names: Vec<&str> = keep.iter().map(CommitId::as_str).collect();
    assert_eq!(names, vec!["aaaa", "d1", "d2", "p1", "tttt"]);
}

#[test]
fn a_parent_goes_by_its_local_bookmark_or_its_commit() {
    assert_eq!(
        parent_label(&parent(
            "0123456789abcdef",
            vec![
                BookmarkRef::parse("feat/a@origin"),
                BookmarkRef::Local(BranchName::new("feat/a"))
            ]
        )),
        "feat/a"
    );
    assert_eq!(
        parent_label(&parent("0123456789abcdef", vec![BookmarkRef::parse("feat/a@origin")])),
        "0123456789ab"
    );
}

fn standing(parents: &[&str], landed: bool, evidence: MemberEvidence) -> BranchStanding {
    BranchStanding {
        stacked: None,
        landed,
        parents: parents.iter().map(|id| CommitId::new(id)).collect(),
        evidence,
    }
}

#[test]
fn a_plan_names_every_branch_that_a_cut_will_not_carry() {
    let tips = tips(vec![
        local("release/2026-08-05", "rrrr"),
        local("feat/carried", "c1"),
        local("feat/new", "n1"),
        local("feat/advanced", "a2"),
        local("feat/recorded", "e2"),
        local("feat/landed", "l2"),
        local("feat/in-trunk", "t2"),
        local("feat/on-top", "o1"),
        local("main", "m1"),
    ]);
    let graph = graph(
        &[("main@upstream", "trunk")],
        &[("c1", "rrrr"), ("rrrr", "o1"), ("oldbase", "trunk"), ("newbase", "trunk"), ("oldbase", "newbase")],
    );
    let mut standings: OrdMap<String, BranchStanding> = OrdMap::new();
    standings.insert("feat/advanced".to_owned(), standing(&["a1"], false, MemberEvidence::Succession));
    standings.insert("feat/recorded".to_owned(), standing(&["e1"], false, MemberEvidence::Record));
    standings.insert("feat/landed".to_owned(), standing(&["l1"], false, MemberEvidence::LandedRecord));
    standings.insert("feat/in-trunk".to_owned(), standing(&[], true, MemberEvidence::Succession));
    let parents = vec![
        PlanParent {
            parent: parent("c1", vec![BookmarkRef::Local(BranchName::new("feat/carried"))]),
            stacked: Some(Finding::new(
                FindingKind::StackedHistory,
                Subject::Branch(BranchName::new("feat/carried")),
                "feat/carried carries a release merge".to_owned(),
            )),
        },
        PlanParent {
            parent: parent("oldbase", Vec::new()),
            stacked: None,
        },
        PlanParent {
            parent: parent("newbase", Vec::new()),
            stacked: None,
        },
    ];
    let entry = RepoEntry::new("u", "o");
    let plan = plan(PlanInput {
        repo: &RepoName::new("demo"),
        entry: &entry,
        tips: &tips,
        double_cuts: Vec::new(),
        double_notes: vec!["one note".to_owned()],
        parents: &parents,
        graph: &graph,
        common: None,
        trunks_known: true,
        standings: &standings,
        slugs: vec![(
            "acme/app".to_owned(),
            ConsumerScan {
                pins: vec![pin(PinKind::Frozen)],
                notes: Vec::new(),
                problems: Vec::new(),
            },
        )],
        locals: vec![(
            "/tmp/app".to_owned(),
            ConsumerScan {
                pins: Vec::new(),
                notes: Vec::new(),
                problems: vec!["could not read uv.lock: denied".to_owned()],
            },
        )],
    });
    assert_eq!(plan.release.as_deref(), Some("release/2026-08-05"));
    assert_eq!(
        plan.notes,
        vec![
            "one note".to_owned(),
            "feat/advanced has advanced past its parent in release/2026-08-05; `knives release advance feat/advanced` moves it".to_owned(),
            "feat/in-trunk is not in release/2026-08-05: the trunk already has it, merged after the release's base; `knives release rebase` onto a trunk that has it brings it in".to_owned(),
            "feat/landed's released parent l1 in release/2026-08-05 has landed upstream and the branch kept going; `knives release advance feat/landed` moves it, `knives release rebase` retires the landed parent".to_owned(),
            "feat/new is not in release/2026-08-05; `knives release include feat/new` adds it".to_owned(),
            "feat/on-top is stacked on release/2026-08-05 rather than the trunk; rebase it off the trunk before including it".to_owned(),
            "feat/recorded was released as e1 in release/2026-08-05 and has since been rebased outside jj; `knives release advance feat/recorded` moves it through that record".to_owned(),
        ]
    );
    assert_eq!(
        plan.base_findings
            .iter()
            .map(|finding| (finding.kind, finding.detail.clone()))
            .collect::<Vec<_>>(),
        vec![
            (
                FindingKind::SupersededBase,
                "parent oldbase is an older upstream base superseded by newbase; `knives release rebase` self-heals this".to_owned()
            ),
            (
                FindingKind::StackedHistory,
                "feat/carried carries a release merge".to_owned()
            ),
        ]
    );
    assert!(plan.stale.is_empty());
    assert_eq!(plan.pins.len(), 1);
    assert_eq!(
        plan.problems,
        vec!["/tmp/app: could not read uv.lock: denied".to_owned()]
    );
    assert_eq!(exit_for(&plan), Exit::Incomplete);
    let text = render(&plan, "    the pins");
    assert!(text.contains("demo: release/2026-08-05\n  3 parent(s), 1 stacked on a prior merge"));
    assert!(text.contains("  pinned by:\n    the pins\n  pinned-ness unknown"));
}

#[test]
fn a_plan_without_a_release_says_what_the_first_cut_has_to_repair() {
    let entry = RepoEntry::new("u", "o");
    let empty = plan(PlanInput {
        repo: &RepoName::new("demo"),
        entry: &entry,
        tips: &OrdMap::new(),
        double_cuts: Vec::new(),
        double_notes: Vec::new(),
        parents: &Vec::new(),
        graph: &CommitGraph::new(),
        common: None,
        trunks_known: false,
        standings: &OrdMap::new(),
        slugs: Vec::new(),
        locals: Vec::new(),
    });
    assert_eq!(
        empty.notes,
        vec!["no dated release found; the first cut has nothing to repair".to_owned()]
    );
    assert_eq!(exit_for(&empty), Exit::Clean);
    assert_eq!(empty.release, None);
}

#[test]
fn a_plan_renders_its_verdict_on_editing_the_release() {
    let plan = Plan {
        repo: "demo".to_owned(),
        release: Some("release/2026-07-28@release".to_owned()),
        parents: vec![
            (CommitId::new("0123456789abcdef"), vec!["feat/a".to_owned(), "keep/a".to_owned()]),
            (CommitId::new("ffff"), Vec::new()),
        ],
        pins: vec![pin(PinKind::Frozen)],
        ..Plan::default()
    };
    assert_eq!(
        render(&plan, "    uv.lock"),
        "demo: release/2026-07-28@release\n  2 parent(s), flat\n    0123456789ab  feat/a, keep/a\n    ffff  no \
         bookmark\n  every parent is still its branch tip\n  pinned by:\n    uv.lock\n  every pin of this release is \
         frozen: editing it reaches nobody; the next cut needs a new dated suffix\n  planning by default. `knives \
         release cut [name]` names a new cut of this composition verbatim; `include`, `drop` and `advance` edit it. \
         Nothing here ever pushes."
    );
    assert_eq!(exit_for(&plan), Exit::Clean);
    let stale = Plan {
        stale: vec![Finding::new(
            FindingKind::StaleParent,
            Subject::Commit(CommitId::new("aaaa")),
            "parent aaaa moved".to_owned(),
        )],
        ..Plan::default()
    };
    assert_eq!(exit_for(&stale), Exit::Findings);
}
