use knives::cli::Exit;
use knives::commands::repos::{
    exit_for, gather, newest_release, pin_lag, render, GatherInput, ReleaseState, RepoFacts, Report, TrustedRow,
};
use knives::config::{Registry, RepoEntry};
use knives::consumer_pins::{
    cache_entry, consumer_head, files_found, pin_source, scan_consumer_for, scan_consumer_slug_with_heads,
    ConsumerHeadMemo, ConsumerScan, FileRead, LocalOutcome, LocalRead, OriginTrunk, PinSource, SlugScan,
};
use knives::detect::stale_parents::BookmarkTips;
use knives::forge::fake::{ConsumerFile, FakeForge};
use knives::forge::{ConsumerHead, ForgeError};
use knives::forge_cache::ConsumerCache;
use knives::ids::{BookmarkRef, BranchName, CommitId, RemoteName};
use knives::order::OrdMap;
use knives::pins::{pin_files, Pin, PinKind};

fn entry(release: Option<&str>) -> RepoEntry {
    RepoEntry {
        release: release.map(ToOwned::to_owned),
        ..RepoEntry::new("u", "o")
    }
}

fn registry(names: &[(&str, Option<&str>)]) -> Registry {
    let mut registry = Registry::default();
    for (name, release) in names {
        registry.repos.insert((*name).to_owned(), entry(*release));
    }
    registry
}

/// What a listing knows of repositories that cannot be opened.
fn unopened(registry: &Registry) -> OrdMap<String, ReleaseState> {
    let mut states: OrdMap<String, ReleaseState> = OrdMap::new();
    for i in 0..registry.repos.len() {
        states.insert(
            registry.repos.key(i).clone(),
            ReleaseState {
                path: "/tmp/a-repo".to_owned(),
                newest: None,
                repo: None,
                scans: Vec::new(),
            },
        );
    }
    states
}

fn listing(registry: &Registry, states: &OrdMap<String, ReleaseState>, config_path: &str) -> Report {
    gather(GatherInput {
        registry,
        states,
        trusted: Vec::new(),
        config_path,
    })
}

fn pinned(reference: &str, kind: PinKind, locked: Option<&str>) -> ConsumerScan {
    ConsumerScan {
        pins: vec![Pin {
            file: "uv.lock".to_owned(),
            line: 1,
            reference: reference.to_owned(),
            kind,
            locked: locked.map(ToOwned::to_owned),
            on_scheme: true,
            source: String::new(),
        }],
        notes: Vec::new(),
        problems: Vec::new(),
    }
}

fn remote(branch: &str, remote: &str) -> BookmarkRef {
    BookmarkRef::Remote {
        branch: BranchName::new(branch),
        remote: RemoteName::new(remote),
    }
}

fn tips(list: &[(BookmarkRef, &str)]) -> BookmarkTips {
    let mut tips: BookmarkTips = OrdMap::new();
    for (reference, commit) in list {
        tips.insert(reference.clone(), CommitId::new(commit));
    }
    tips
}

#[test]
fn a_fixed_release_uses_its_publish_remote_when_origin_also_has_the_branch() {
    // Given: a split-release repo whose fixed branch exists at both origin and release.
    let mut entry = entry(Some("https://forge.invalid/release/repo"));
    entry.release_branch = Some("integration".to_owned());
    let tips = tips(&[
        (remote("integration", "origin"), "origin-position"),
        (remote("integration", "release"), "publish-position"),
    ]);

    // When: repos selects the fixed release position.
    let newest = newest_release(&tips, &entry);

    // Then: only the publish remote is reported.
    assert_eq!(newest, Some("integration@release".to_owned()));
}

#[test]
fn a_fixed_release_ignores_an_origin_only_branch() {
    // Given: a split-release repo whose fixed branch exists ONLY at origin,
    // which is not its publish remote.
    let mut entry = entry(Some("https://forge.invalid/release/repo"));
    entry.release_branch = Some("integration".to_owned());
    let tips = tips(&[(remote("integration", "origin"), "origin-position")]);

    // When: repos selects the fixed release position.
    let newest = newest_release(&tips, &entry);

    // Then: origin is not the publish remote, so no release is cut here.
    assert_eq!(newest, None);
}

#[test]
fn a_fixed_release_prefers_its_local_branch_over_its_publish_remote() {
    // Given: a fixed release branch has both local and publish-remote positions.
    let mut entry = entry(Some("https://forge.invalid/release/repo"));
    entry.release_branch = Some("integration".to_owned());
    let tips = tips(&[
        (BookmarkRef::Local(BranchName::new("integration")), "local-position"),
        (remote("integration", "release"), "publish-position"),
    ]);

    // When: repos selects the fixed release position.
    let newest = newest_release(&tips, &entry);

    // Then: the local branch wins without applying a release ordering.
    assert_eq!(newest, Some("integration".to_owned()));
}

#[test]
fn repos_are_listed_one_per_line_sorted_by_name() {
    // Given: two repos out of order
    let registry = registry(&[("beta", None), ("alpha", None)]);
    // When: gathered and rendered
    let out = render(&listing(&registry, &unopened(&registry), "/tmp/repos.toml"));
    // Then: alphabetical, one per line, plus the trailing consumer note
    let lines: Vec<&str> = out.lines().collect();
    assert_eq!(lines.len(), 3);
    assert!(lines[0].starts_with("alpha"));
    assert!(lines[1].starts_with("beta"));
    assert_eq!(lines[0], "alpha  /tmp/a-repo  newest=none");
    assert_eq!(lines[1], "beta   /tmp/a-repo  newest=none");
}

#[test]
fn each_consumer_is_reported_separately() {
    // Consumers can sit on different releases, so one being current says nothing about
    // another. Collapsing them into a single verdict hid exactly that.
    let entry = RepoEntry {
        consumers: vec!["acme/current".to_owned(), "acme/behind".to_owned()],
        ..RepoEntry::new(
            "https://forge.invalid/up/sandbox-runner",
            "https://forge.invalid/o/sandbox-runner",
        )
    };
    let lag = pin_lag(
        &entry,
        Some("release/2026-07-28@origin"),
        None,
        &vec![
            (
                "acme/current".to_owned(),
                pinned("release/2026-07-28", PinKind::Frozen, None),
            ),
            (
                "acme/behind".to_owned(),
                pinned("release/2026-07-20", PinKind::Frozen, None),
            ),
        ],
    )
    .lag
    .expect("one consumer is behind");

    assert!(lag.contains("acme/behind pins release/2026-07-20"), "was: {lag}");
    assert!(
        !lag.contains("acme/current"),
        "the current consumer must not be reported as behind: {lag}"
    );
}

#[test]
fn a_consumer_that_could_not_be_read_is_not_judged() {
    let mut unread = ConsumerScan::default();
    unread.problems.push("acme/unread: forge unreachable".to_owned());
    let lag = pin_lag(
        &entry(None),
        Some("release/2026-07-28"),
        None,
        &vec![
            ("acme/unread".to_owned(), unread),
            ("acme/none".to_owned(), ConsumerScan::default()),
        ],
    );
    assert_eq!(lag.lag.as_deref(), Some("newest is release/2026-07-28; acme/none pins no release of this repo"));
    assert_eq!(lag.problems, vec!["acme/unread: forge unreachable".to_owned()]);
}

fn fixed_entry() -> RepoEntry {
    RepoEntry {
        release_branch: Some("integration".to_owned()),
        consumers: vec!["acme/consumer".to_owned()],
        ..RepoEntry::new(
            "https://forge.invalid/up/sandbox-runner",
            "https://forge.invalid/o/sandbox-runner",
        )
    }
}

#[test]
fn a_fixed_branch_pin_without_a_lock_is_current() {
    let pin_lag = pin_lag(
        &fixed_entry(),
        None,
        None,
        &vec![(
            "acme/consumer".to_owned(),
            pinned("integration", PinKind::Follows, None),
        )],
    );
    assert_eq!(pin_lag.lag, None);
    assert!(pin_lag.problems.is_empty(), "problems: {:?}", pin_lag.problems);
}

#[test]
fn a_fixed_locked_pin_without_a_repo_reports_a_comparison_note() {
    let pin_lag = pin_lag(
        &fixed_entry(),
        None,
        None,
        &vec![(
            "acme/consumer".to_owned(),
            pinned("integration", PinKind::Follows, Some("548aaafb")),
        )],
    );
    assert_eq!(pin_lag.lag, None);
    assert!(pin_lag.notes.iter().any(|note| note.contains("could not compare")));
}

#[test]
fn a_fixed_locked_pin_is_behind_only_inside_the_moved_branch() {
    let scans = vec![(
        "acme/consumer".to_owned(),
        pinned("integration", PinKind::Follows, Some("548aaafb")),
    )];
    let mut facts = RepoFacts {
        tip: Some(CommitId::new("tip")),
        resolved: OrdMap::new(),
        in_tip: OrdMap::new(),
    };
    let unknown = pin_lag(&fixed_entry(), None, Some(&facts), &scans);
    assert_eq!(
        unknown.notes,
        vec!["could not compare 548aaafb with integration: commit unavailable".to_owned()]
    );
    facts.resolved.insert("548aaafb".to_owned(), CommitId::new("548aaafbffff"));
    facts.in_tip.insert(CommitId::new("548aaafbffff"), true);
    let behind = pin_lag(&fixed_entry(), None, Some(&facts), &scans);
    assert_eq!(
        behind.lag.as_deref(),
        Some("acme/consumer pins integration at 548aaafb")
    );
    facts.in_tip.insert(CommitId::new("548aaafbffff"), false);
    assert_eq!(pin_lag(&fixed_entry(), None, Some(&facts), &scans).lag, None);
    facts.tip = None;
    assert_eq!(
        pin_lag(&fixed_entry(), None, Some(&facts), &scans).notes,
        vec!["could not compare 548aaafb with integration: local branch unavailable".to_owned()]
    );
}

#[test]
fn fixed_pin_comparison_notes_are_rendered_below_the_repository() {
    let mut registry = Registry::default();
    registry.repos.insert("sandbox-runner".to_owned(), fixed_entry());
    let mut states: OrdMap<String, ReleaseState> = OrdMap::new();
    states.insert(
        "sandbox-runner".to_owned(),
        ReleaseState {
            path: "/tmp/repo".to_owned(),
            newest: None,
            repo: None,
            scans: vec![(
                "acme/consumer".to_owned(),
                pinned("integration", PinKind::Follows, Some("548aaafb")),
            )],
        },
    );
    let report = listing(&registry, &states, "/tmp/repos.toml");
    let rendered = render(&report);
    assert_eq!(exit_for(&report), Exit::Clean);
    assert!(rendered.contains("\n  ! could not compare"), "was: {rendered}");
}

const COMMIT: &str = "aaaaaaaaaaaaaaaaaaaaaaaaaaaaaaaa";

#[test]
fn a_cached_forge_failure_marks_the_repository_listing_incomplete() {
    let consumer = "acme/consumer";
    let mut entry = entry(None);
    entry.origin = "https://forge.invalid/o/tool.git".to_owned();
    entry.consumers = vec![consumer.to_owned()];
    let mut registry = Registry::default();
    registry.repos.insert("tool".to_owned(), entry);
    let mut priming_forge = FakeForge::default();
    priming_forge.heads.insert(
        consumer.to_owned(),
        ConsumerHead {
            branch: "main".to_owned(),
            commit: COMMIT.to_owned(),
        },
    );
    priming_forge.files.push(ConsumerFile {
        slug: consumer.to_owned(),
        commit: COMMIT.to_owned(),
        path: "uv.lock".to_owned(),
        text: "tool = { git = \"https://forge.invalid/o/tool.git?rev=release%2F2026-08-05#112233445566\" }\n".to_owned(),
    });
    let head = priming_forge.consumer_head(consumer);
    let reads = read_all(&priming_forge, consumer, &head);
    let cache = cache_entry(consumer, head.as_ref().unwrap(), &reads, "2026-08-05T00:00:00Z").expect("a cache entry");
    let first = scan_consumer_slug_with_heads(
        SlugScan {
            slug: consumer,
            head: &head,
            cache: None,
            reads: &reads,
            written: &Ok(()),
        },
        pinned("release/2026-08-05", PinKind::Frozen, Some("112233445566")),
    );
    let mut states: OrdMap<String, ReleaseState> = OrdMap::new();
    states.insert("tool".to_owned(), state_with(consumer, first));
    assert_eq!(exit_for(&listing(&registry, &states, "/tmp/repos.toml")), Exit::Clean);

    let unavailable = FakeForge {
        fail_consumer_head: true,
        ..FakeForge::default()
    };
    let head = unavailable.consumer_head(consumer);
    let second = scan_consumer_slug_with_heads(
        SlugScan {
            slug: consumer,
            head: &head,
            cache: Some(&cache),
            reads: &Vec::new(),
            written: &Ok(()),
        },
        pinned("release/2026-08-05", PinKind::Frozen, Some("112233445566")),
    );
    let mut states: OrdMap<String, ReleaseState> = OrdMap::new();
    states.insert("tool".to_owned(), state_with(consumer, second));
    let report = listing(&registry, &states, "/tmp/repos.toml");
    let rendered = render(&report);
    assert!(rendered.contains("? acme/consumer: forge unreachable:"));
    assert!(rendered.contains("fake consumer head failed"));
    assert!(rendered.contains("! acme/consumer: forge unreachable; pins answered from cache at aaaaaaaaaaaa"));
    assert_eq!(exit_for(&report), Exit::Incomplete);
}

fn state_with(consumer: &str, scan: ConsumerScan) -> ReleaseState {
    ReleaseState {
        path: "/tmp/tool".to_owned(),
        newest: Some("release/2026-08-05@origin".to_owned()),
        repo: None,
        scans: vec![(consumer.to_owned(), scan)],
    }
}

fn read_all(forge: &FakeForge, slug: &str, head: &Result<ConsumerHead, ForgeError>) -> Vec<FileRead> {
    let mut reads = Vec::new();
    for file in pin_files() {
        reads.push(FileRead {
            file: file.to_owned(),
            text: forge.file_at(slug, &head.as_ref().unwrap().commit, file),
        });
    }
    reads
}

#[test]
fn a_split_release_remote_is_shown() {
    let registry = registry(&[("split", Some("r"))]);
    let report = listing(&registry, &unopened(&registry), "/tmp/repos.toml");
    assert!(render(&report).contains("release-remote=r"));
}

#[test]
fn the_release_column_is_omitted_when_it_defaults_to_origin() {
    let registry = registry(&[("simple", None)]);
    let report = listing(&registry, &unopened(&registry), "/tmp/repos.toml");
    assert!(!render(&report).contains("release-remote="));
}

#[test]
fn an_empty_registry_reports_where_to_add_entries() {
    // Printing nothing would be indistinguishable from a broken command.
    let out = render(&listing(&Registry::default(), &OrdMap::new(), "/tmp/somewhere/repos.toml"));
    assert!(out.contains("no repos configured"));
    assert!(out.contains("/tmp/somewhere/repos.toml"));
}

#[test]
fn an_empty_registry_gathers_a_note_pointing_at_the_config_path() {
    // The report carries the same note independent of rendering.
    let report = listing(&Registry::default(), &OrdMap::new(), "/tmp/somewhere/repos.toml");
    assert!(report.repos.is_empty());
    assert!(report
        .notes
        .iter()
        .any(|note| note.contains("no repos configured") && note.contains("/tmp/somewhere/repos.toml")));
}

#[test]
fn a_gathered_report_serializes_release_state_and_trusted_entries() {
    let mut sandbox = entry(None);
    sandbox.origin = "https://forge.invalid/o/sandbox-runner".to_owned();
    sandbox.consumers = vec!["acme/behind".to_owned()];
    let mut registry = Registry::default();
    registry.repos.insert("sandbox-runner".to_owned(), sandbox);
    let mut states: OrdMap<String, ReleaseState> = OrdMap::new();
    states.insert(
        "sandbox-runner".to_owned(),
        ReleaseState {
            path: "/tmp/repo".to_owned(),
            newest: Some("release/2026-07-28@origin".to_owned()),
            repo: None,
            scans: vec![(
                "acme/behind".to_owned(),
                pinned("release/2026-07-20", PinKind::Frozen, None),
            )],
        },
    );
    let report = gather(GatherInput {
        registry: &registry,
        states: &states,
        trusted: vec![TrustedRow {
            name: "legacy".to_owned(),
            path: "/tmp/legacy".to_owned(),
        }],
        config_path: "/tmp/repos.toml",
    });
    assert_eq!(
        report.repos[0].newest_release.as_deref(),
        Some("release/2026-07-28@origin")
    );
    assert!(report.repos[0]
        .behind
        .as_deref()
        .is_some_and(|behind| behind.contains("acme/behind pins release/2026-07-20")));
    assert_eq!(report.trusted[0].name, "legacy");
    assert!(render(&report).contains("trusted (instructions read, not maintained):\n  legacy  /tmp/legacy"));
}

const CONSUMER: &str = "acme/consumer";

fn lockfile(reference: &str) -> String {
    format!(
        "tool = {{ git = \"https://github.com/acme/tool.git?rev={}#0123456789abcdef\" }}\n",
        reference.replace('/', "%2F")
    )
}

fn forge(commit: &str, lock: &str) -> FakeForge {
    let mut forge = FakeForge::default();
    forge.heads.insert(
        CONSUMER.to_owned(),
        ConsumerHead {
            branch: "main".to_owned(),
            commit: commit.to_owned(),
        },
    );
    forge.files.push(ConsumerFile {
        slug: CONSUMER.to_owned(),
        commit: commit.to_owned(),
        path: "uv.lock".to_owned(),
        text: lock.to_owned(),
    });
    forge
}

/// The lock file a scan reads, how many files were asked for, and the cache after it.
fn scan_once(forge: &FakeForge, cache: Option<ConsumerCache>) -> (Option<String>, usize, Option<ConsumerCache>) {
    let mut memo = ConsumerHeadMemo::new();
    let head = consumer_head(&mut memo, CONSUMER, forge.consumer_head(CONSUMER));
    match pin_source(&head, cache.as_ref()) {
        PinSource::Cache | PinSource::StaleCache => {
            let cache = cache.expect("a cache");
            (cache.files.get(&"uv.lock".to_owned()).cloned(), 0, Some(cache))
        }
        PinSource::Forge => {
            let reads = read_all(forge, CONSUMER, &head);
            let written = cache_entry(CONSUMER, head.as_ref().unwrap(), &reads, "2026-08-01T00:00:00Z");
            let lock = files_found(&reads).get(&"uv.lock".to_owned()).cloned();
            (lock, reads.len(), written)
        }
        PinSource::Nowhere => (None, 0, None),
    }
}

#[test]
fn a_same_commit_consumer_scan_serves_lock_files_from_the_cache_with_zero_content_calls() {
    let initial = forge("aaaaaaaaaaaaaaaa", &lockfile("release/2026-08-01"));
    let (first, calls, cache) = scan_once(&initial, None);
    assert_eq!(first, Some(lockfile("release/2026-08-01")));
    assert_eq!(calls, pin_files().len());

    let cached = forge("aaaaaaaaaaaaaaaa", &lockfile("release/2026-08-02"));
    let (second, calls, _) = scan_once(&cached, cache);
    assert_eq!(calls, 0);
    assert_eq!(second, Some(lockfile("release/2026-08-01")));
}

#[test]
fn a_new_commit_refetches_pin_files_and_rewrites_the_cache() {
    let initial = forge("aaaaaaaaaaaaaaaa", &lockfile("release/2026-08-01"));
    let (_, _, cache) = scan_once(&initial, None);

    let advanced = forge("bbbbbbbbbbbbbbbb", &lockfile("release/2026-08-02"));
    let (lock, calls, cache) = scan_once(&advanced, cache);
    assert_eq!(calls, pin_files().len());
    assert_eq!(lock, Some(lockfile("release/2026-08-02")));

    let cached = forge("bbbbbbbbbbbbbbbb", &lockfile("release/2026-08-03"));
    let (lock, calls, _) = scan_once(&cached, cache);
    assert_eq!(calls, 0);
    assert_eq!(lock, Some(lockfile("release/2026-08-02")));
}

#[test]
fn a_forge_failure_with_no_cache_is_a_problem_not_an_empty_success() {
    let forge = FakeForge {
        fail_consumer_head: true,
        ..FakeForge::default()
    };
    let head = forge.consumer_head(CONSUMER);
    assert_eq!(pin_source(&head, None), PinSource::Nowhere);
    let scan = scan_consumer_slug_with_heads(
        SlugScan {
            slug: CONSUMER,
            head: &head,
            cache: None,
            reads: &Vec::new(),
            written: &Ok(()),
        },
        ConsumerScan::default(),
    );
    assert!(scan.pins.is_empty());
    assert_eq!(scan.notes, Vec::<String>::new());
    assert_eq!(scan.problems.len(), 1);
}

#[test]
fn a_known_head_is_never_asked_for_again() {
    let mut memo = ConsumerHeadMemo::new();
    let answer = |commit: &str| {
        Ok(ConsumerHead {
            branch: "main".to_owned(),
            commit: commit.to_owned(),
        })
    };
    let failed = Err(ForgeError::Query {
        detail: "no".to_owned(),
    });
    assert!(consumer_head(&mut memo, CONSUMER, failed).is_err());
    assert!(memo.known(CONSUMER).is_none());
    assert_eq!(consumer_head(&mut memo, CONSUMER, answer("one")).unwrap().commit, "one");
    assert_eq!(consumer_head(&mut memo, CONSUMER, answer("two")).unwrap().commit, "one");
    assert_eq!(consumer_head(&mut memo, "acme/other", answer("two")).unwrap().commit, "two");
}

#[test]
fn an_unread_file_is_a_problem_and_is_never_cached() {
    let head = Ok(ConsumerHead {
        branch: "main".to_owned(),
        commit: "0123".to_owned(),
    });
    let reads = vec![FileRead {
        file: "uv.lock".to_owned(),
        text: Err(ForgeError::Query {
            detail: "denied".to_owned(),
        }),
    }];
    assert!(cache_entry(CONSUMER, head.as_ref().unwrap(), &reads, "now").is_none());
    let scan = scan_consumer_slug_with_heads(
        SlugScan {
            slug: CONSUMER,
            head: &head,
            cache: None,
            reads: &reads,
            written: &Err("full disk".to_owned()),
        },
        ConsumerScan::default(),
    );
    assert_eq!(
        scan.problems,
        vec!["could not read uv.lock at acme/consumer@0123: the forge rejected the query: denied".to_owned()]
    );
    assert!(scan.notes.is_empty());
    let written = scan_consumer_slug_with_heads(
        SlugScan {
            slug: CONSUMER,
            head: &head,
            cache: None,
            reads: &Vec::new(),
            written: &Err("full disk".to_owned()),
        },
        ConsumerScan::default(),
    );
    assert_eq!(
        written.notes,
        vec!["acme/consumer: could not write consumer cache: full disk".to_owned()]
    );
}

#[test]
fn a_local_checkout_says_where_its_pins_were_read() {
    let read = |behind: u64| {
        vec![
            LocalRead {
                name: "uv.lock".to_owned(),
                outcome: LocalOutcome::Scanned {
                    scan: pinned("release/2026-08-01", PinKind::Frozen, None),
                    behind,
                },
            },
            LocalRead {
                name: "pyproject.toml".to_owned(),
                outcome: LocalOutcome::Absent,
            },
        ]
    };
    let trunk = OriginTrunk::Reference("origin/main".to_owned());
    let current = scan_consumer_for("/c", &trunk, read(0));
    assert_eq!(current.pins.len(), 1);
    assert!(current.notes.is_empty());
    assert_eq!(
        scan_consumer_for("/c", &trunk, read(3)).notes,
        vec!["/c checkout is 3 commit(s) behind its origin/main".to_owned()]
    );
    assert_eq!(
        scan_consumer_for("/c", &OriginTrunk::Missing, read(3)).notes,
        vec!["/c: no origin trunk resolved; pins read from the working copy".to_owned()]
    );
    assert_eq!(
        scan_consumer_for("/c", &OriginTrunk::NotRepository, Vec::new()).notes,
        vec!["/c: not a repository; pins read from the working copy".to_owned()]
    );
    let failed = scan_consumer_for(
        "/c",
        &OriginTrunk::Failed("broken".to_owned()),
        vec![LocalRead {
            name: "uv.lock".to_owned(),
            outcome: LocalOutcome::Failed("denied".to_owned()),
        }],
    );
    assert_eq!(
        failed.problems,
        vec![
            "could not read uv.lock: denied".to_owned(),
            "could not resolve origin trunk: broken".to_owned()
        ]
    );
    assert_eq!(
        failed.notes,
        vec!["/c: could not resolve its origin trunk (broken); pins read from the working copy".to_owned()]
    );
}
