use std::collections::BTreeMap;

use knives::detect::landed::LandedVerdict;
use knives::forge::{PullDetails, PullFacts, PullRequest, PullSummary, RepoIdentity};
use knives::forge_cache::{
    cache_path, cache_root, consumer_cache_path, has_path_syntax, is_rfc3339_utc, landed_key, load, load_consumer_cache,
    merge_warm, replace_cold, CacheFile, ConsumerCache, CONSUMER_SCHEMA_VERSION, PACKAGE_VERSION, PROBE_SCHEMA,
    SCHEMA_VERSION,
};
use knives::ids::CommitId;
use knives::order::OrdMap;

fn identity() -> RepoIdentity {
    RepoIdentity {
        name_with_owner: "owner/repo".to_owned(),
        id: "repo-node-id".to_owned(),
    }
}

fn summary(number: u64, updated_at: &str) -> PullSummary {
    PullSummary {
        number,
        head_ref_name: format!("branch-at-{updated_at}"),
        updated_at: updated_at.to_owned(),
        ..PullSummary::default()
    }
}

fn facts(number: u64, updated_at: &str) -> PullFacts {
    let summary = summary(number, updated_at);
    PullFacts {
        pull: PullRequest {
            number: summary.number,
            state: summary.state,
            review_decision: summary.review_decision,
            head_ref_name: summary.head_ref_name,
            head_ref_oid: summary.head_ref_oid,
            updated_at: summary.updated_at,
            is_draft: summary.is_draft,
            url: summary.url,
            head_repository_owner: summary.head_repository_owner,
            mergeable: Some("MERGEABLE".to_owned()),
            merge_state_status: Some("CLEAN".to_owned()),
            base_ref_name: summary.base_ref_name,
            merge_commit: summary.merge_commit,
        },
        details: PullDetails::default(),
        newest_comment: None,
    }
}

fn cache(identity: &RepoIdentity, pulls: BTreeMap<u64, PullSummary>) -> CacheFile {
    CacheFile {
        schema_version: SCHEMA_VERSION,
        name_with_owner: identity.name_with_owner.clone(),
        repo_id: identity.id.clone(),
        watermark: String::new(),
        pulls,
        landed: OrdMap::new(),
    }
}

fn consumer_cache(slug: &str) -> ConsumerCache {
    let mut files: OrdMap<String, String> = OrdMap::new();
    files.insert("uv.lock".to_owned(), "pin = \"release\"".to_owned());
    ConsumerCache {
        schema: CONSUMER_SCHEMA_VERSION,
        slug: slug.to_owned(),
        branch: "main".to_owned(),
        commit: "aaaaaaaaaaaaaaaaaaaaaaaaaaaaaaaaaaaaaaaa".to_owned(),
        fetched_at: "2026-08-31T12:34:56Z".to_owned(),
        files,
    }
}

#[test]
fn a_consumer_cache_round_trips_only_for_the_matching_slug_and_schema() {
    let slug = "owner/repo";
    assert_eq!(
        consumer_cache_path("/cache", slug).as_deref(),
        Some("/cache/consumers/owner/repo.json")
    );
    assert!(
        consumer_cache_path("/cache", "../repo").is_none()
            && consumer_cache_path("/cache", "owner/.repo").is_none()
            && consumer_cache_path("/cache", "owner/repo/extra").is_none()
    );
    assert_eq!(
        load_consumer_cache(Some(consumer_cache(slug)), slug),
        Some(consumer_cache(slug))
    );
    assert!(
        load_consumer_cache(Some(consumer_cache(slug)), "other/repo").is_none(),
        "a cache cannot answer for another consumer"
    );
    let stale_schema = ConsumerCache {
        schema: CONSUMER_SCHEMA_VERSION + 1,
        ..consumer_cache(slug)
    };
    assert!(
        load_consumer_cache(Some(stale_schema), slug).is_none(),
        "a changed schema requires a refetch"
    );
    assert!(load_consumer_cache(None, slug).is_none());
}

#[test]
fn a_missing_or_corrupt_or_foreign_file_loads_as_none() {
    let repo = identity();
    let dotted_name = RepoIdentity {
        name_with_owner: "owner/repo.backup".to_owned(),
        id: "dotted-repo-node-id".to_owned(),
    };
    assert_eq!(
        cache_path("/cache", &dotted_name).as_deref(),
        Some("/cache/forge/owner/repo.backup.json"),
        "the whole repository segment remains part of the cache file name"
    );
    assert!(load(None, &repo).is_none(), "missing or corrupt cache is a cold read");
    let cases = [
        (
            "wrong schema",
            CacheFile {
                schema_version: SCHEMA_VERSION + 1,
                ..cache(&repo, BTreeMap::new())
            },
        ),
        (
            "different forge name",
            CacheFile {
                name_with_owner: "other/repo".to_owned(),
                ..cache(&repo, BTreeMap::new())
            },
        ),
        (
            "different forge id",
            CacheFile {
                repo_id: "other-node-id".to_owned(),
                ..cache(&repo, BTreeMap::new())
            },
        ),
    ];
    for (description, foreign) in cases {
        assert!(load(Some(foreign), &repo).is_none(), "{description}");
    }
}

#[test]
fn a_cache_with_a_non_timestamp_watermark_loads_as_none() {
    let repo = identity();
    let file = CacheFile {
        watermark: "~".to_owned(),
        ..cache(&repo, BTreeMap::from([(1, summary(1, "2026-01-02T00:00:00Z"))]))
    };
    assert!(
        load(Some(file), &repo).is_none(),
        "a malformed watermark must force a cold reseed"
    );
}

#[test]
fn a_cache_with_a_non_timestamp_row_loads_as_none() {
    let repo = identity();
    let file = cache(&repo, BTreeMap::from([(1, summary(1, "~"))]));
    assert!(
        load(Some(file), &repo).is_none(),
        "a malformed row timestamp must force a cold reseed"
    );
}

#[test]
fn a_cache_with_rfc3339_utc_timestamps_loads() {
    let repo = identity();
    let file = || CacheFile {
        watermark: "2026-01-03T00:00:00Z".to_owned(),
        ..cache(&repo, BTreeMap::from([(1, summary(1, "2026-01-02T00:00:00Z"))]))
    };
    assert_eq!(load(Some(file()), &repo), Some(file()));
}

#[test]
fn a_newer_file_row_survives_the_merge_and_an_equal_one_loses_to_the_fetch() {
    let repo = identity();
    let read = cache(
        &repo,
        BTreeMap::from([
            (1, summary(1, "2026-01-03T00:00:00Z")),
            (2, summary(2, "2026-01-02T00:00:00Z")),
        ]),
    );
    let mut equal_timestamp_fetch = facts(2, "2026-01-02T00:00:00Z");
    equal_timestamp_fetch.pull.head_ref_oid = "fresh-oid-at-same-timestamp".to_owned();
    let fetched = BTreeMap::from([
        (1, facts(1, "2026-01-01T00:00:00Z")),
        (2, equal_timestamp_fetch),
    ]);

    let merged = merge_warm(read, &fetched, "2026-01-04T00:00:00Z");

    assert_eq!(
        merged.pulls.get(&1).map(|pull| pull.head_ref_name.as_str()),
        Some("branch-at-2026-01-03T00:00:00Z"),
        "a newer row in the read file wins"
    );
    assert_eq!(
        merged.pulls.get(&2).map(|pull| pull.head_ref_oid.as_str()),
        Some("fresh-oid-at-same-timestamp"),
        "an equal timestamp belongs to this run's fresh fetch"
    );
}

#[test]
fn the_watermark_pairs_with_the_rows_from_the_same_read() {
    let repo = identity();
    let mut read = cache(&repo, BTreeMap::from([(1, summary(1, "2026-01-01T00:00:00Z"))]));
    read.watermark = "2026-01-03T00:00:00Z".to_owned();
    let fetched = BTreeMap::from([
        (2, facts(2, "2026-01-02T00:00:00Z")),
        (3, facts(3, "2026-01-04T00:00:00Z")),
    ]);

    let merged = merge_warm(read, &fetched, "2026-01-05T00:00:00Z");

    assert_eq!(merged.watermark, "2026-01-05T00:00:00Z");
    assert!(merged.pulls.contains_key(&1), "unfetched read row remains");
    assert!(merged.pulls.contains_key(&2), "fetched row is added");
    assert!(merged.pulls.contains_key(&3), "every fetched row is added");

    let mut later_read = cache(&repo, BTreeMap::new());
    later_read.watermark = "2026-01-06T00:00:00Z".to_owned();
    let later_watermark = merge_warm(later_read, &BTreeMap::new(), "2026-01-05T00:00:00Z");
    assert_eq!(
        later_watermark.watermark, "2026-01-06T00:00:00Z",
        "a watermark from the same read remains when the sweep is older"
    );
}

#[test]
fn a_cold_replacement_strands_no_stale_row() {
    let repo = identity();
    let landed = || {
        let mut landed: OrdMap<String, LandedVerdict> = OrdMap::new();
        landed.insert("tip:trunk:v:1".to_owned(), LandedVerdict::InTrunk);
        landed
    };
    let replacement = replace_cold(
        &repo,
        &[
            summary(17, "2026-01-02T00:00:00Z"),
            summary(19, "2026-01-04T00:00:00Z"),
        ],
        landed(),
    );

    assert_eq!(replacement.pulls.len(), 2);
    assert!(
        !replacement.pulls.contains_key(&4000),
        "old rows cannot survive a reseed"
    );
    assert_eq!(replacement.watermark, "2026-01-04T00:00:00Z");
    assert_eq!(replacement.landed, landed(), "the landed section is preserved");
}

#[test]
fn a_landed_key_changes_with_the_knives_version_and_probe_schema() {
    let key = landed_key(&CommitId::new("tip"), &CommitId::new("trunk"));

    assert!(key.contains(PACKAGE_VERSION));
    assert!(key.contains(&PROBE_SCHEMA.to_string()));
    assert_eq!(key, "tip:trunk:0.1.0:1");
}

#[test]
fn a_timestamp_has_the_utc_shape_and_names_a_real_moment() {
    assert!(is_rfc3339_utc("2026-01-03T00:00:00Z"));
    assert!(is_rfc3339_utc("2026-01-03T00:00:00.25Z"));
    assert!(!is_rfc3339_utc("2026-01-03T00:00:00+00:00"), "no other zone");
    assert!(!is_rfc3339_utc("2026-02-30T00:00:00Z"), "no such day");
    assert!(!is_rfc3339_utc("2026-01-03T25:00:00Z"), "no such hour");
    assert!(!is_rfc3339_utc(""));
}

#[test]
fn the_cache_lives_where_the_user_keeps_caches() {
    assert_eq!(cache_root(Some("/x"), Some("/home/u")).as_deref(), Some("/x/knives"));
    assert_eq!(
        cache_root(None, Some("/home/u")).as_deref(),
        Some("/home/u/.cache/knives")
    );
    assert_eq!(cache_root(None, None), None);
    let nameless = RepoIdentity {
        name_with_owner: "repo".to_owned(),
        id: "x".to_owned(),
    };
    assert_eq!(cache_path("/cache", &nameless), None);
    assert!(has_path_syntax("~u") && has_path_syntax("") && has_path_syntax("a\\b") && has_path_syntax("/a"));
    assert!(!has_path_syntax("repo"));
}
