//! The per-upstream forge cache. Discovery data only: no fact in this file is ever surfaced in a
//! report without a live fetch in the same run.

use std::collections::BTreeMap;

use vstd::prelude::*;
use vstd::string::*;

use crate::detect::landed::LandedVerdict;
use crate::forge::{summary_of, PullFacts, PullSummary, RepoIdentity};
use crate::ids::{digits_between, CommitId};
use crate::moments::{is_timestamp, parse_moment};
use crate::numbered::{at_number, numbers_of, rising, set_number};
use crate::order::{lemma_lex_asymmetric, lemma_lex_irreflexive, lemma_lex_transitive, lex_less, OrdMap};
use crate::paths::{join_path, joined_path};
use crate::pieces::{is_digit, lemma_next_at, next_at, split_once};
use crate::pins::{is_pin_file, pin_file_names};
use crate::seqs::view_of;
use crate::text::{
    begins_with, chars_of, contains_text, decimal, decimal_text, ranks, same, slice_text, starts_with, text_precedes,
};

verus! {

/// The layout of the cache file.
pub const SCHEMA_VERSION: u32 = 1;

/// Bump when the landed probe's semantics change; part of every landed key.
pub const PROBE_SCHEMA: u32 = 1;

/// The version of this package; part of every landed key.
pub const PACKAGE_VERSION: &'static str = "0.1.0";

/// The layout of a consumer's cache file.
pub const CONSUMER_SCHEMA_VERSION: u32 = 1;

/// What the cache holds of one upstream.
#[derive(Debug, PartialEq, Eq)]
pub struct CacheFile {
    pub schema_version: u32,
    pub name_with_owner: String,
    pub repo_id: String,
    /// The newest update observed by the completing fetch. Empty = refresh everything.
    pub watermark: String,
    pub pulls: BTreeMap<u64, PullSummary>,
    pub landed: OrdMap<String, LandedVerdict>,
}

/// Where caches are kept: the cache directory the environment names, else `.cache` under the home
/// directory, then `knives`.
pub open spec fn cache_home(xdg: Option<Seq<char>>, home: Option<Seq<char>>) -> Option<Seq<char>> {
    match (xdg, home) {
        (Some(base), _) => Some(joined_path(base, "knives"@)),
        (None, Some(home)) => Some(joined_path(joined_path(home, ".cache"@), "knives"@)),
        (None, None) => None,
    }
}

/// Where caches are kept, from the values of `XDG_CACHE_HOME` and `HOME`. `None` only when both are
/// unset.
pub fn cache_root(xdg: Option<&str>, home: Option<&str>) -> (root: Option<String>)
    ensures
        view_of(root) == cache_home(view_of(xdg), view_of(home)),
{
    match (xdg, home) {
        (Some(base), _) => Some(join_path(base, "knives")),
        (None, Some(home)) => Some(join_path(join_path(home, ".cache").as_str(), "knives")),
        (None, None) => None,
    }
}

/// The file of a repository under `root` and `kind`: owner and repository are separate segments.
pub open spec fn file_under(
    root: Seq<char>,
    kind: Seq<char>,
    owner: Seq<char>,
    repo: Seq<char>,
) -> Seq<char> {
    joined_path(joined_path(joined_path(root, kind), owner), repo + ".json"@)
}

fn cache_file(root: &str, kind: &str, owner: &str, repo: &str) -> (path: String)
    ensures
        path@ == file_under(root@, kind@, owner@, repo@),
{
    let mut name = repo.to_owned();
    name.append(".json");
    join_path(join_path(join_path(root, kind).as_str(), owner).as_str(), name.as_str())
}

/// `<root>/forge/<owner>/<repo>.json`. `None` where the identity has no slash.
pub fn cache_path(root: &str, identity: &RepoIdentity) -> (path: Option<String>)
    ensures
        view_of(path) == ({
            let name = identity.name_with_owner@;
            let k = next_at(name, '/', 0);
            if k < name.len() {
                Some(file_under(root@, "forge"@, name.take(k), name.skip(k + 1)))
            } else {
                None
            }
        }),
{
    match identity.split() {
        Ok((owner, repo)) => Some(cache_file(root, "forge", owner, repo)),
        Err(_) => None,
    }
}

/// Whether a text is a date: four, two and two digits with dashes between.
pub open spec fn date_shape(s: Seq<char>) -> bool {
    s.len() == 10 && digits_between(s, 0, 4) && s[4] == '-' && digits_between(s, 5, 7) && s[7] == '-'
        && digits_between(s, 8, 10)
}

/// Whether a text is a time of day: two, two and two digits with colons between.
pub open spec fn clock_shape(s: Seq<char>) -> bool {
    s.len() == 8 && digits_between(s, 0, 2) && s[2] == ':' && digits_between(s, 3, 5) && s[5] == ':'
        && digits_between(s, 6, 8)
}

/// Whether a text is a time of day with or without a fraction of the second.
pub open spec fn time_shape(s: Seq<char>) -> bool {
    let k = next_at(s, '.', 0);
    clock_shape(s.take(k)) && (k < s.len() ==> k + 1 < s.len() && digits_between(s, k + 1, s.len() as int))
}

/// Whether a text has the shape of a UTC timestamp: a date, `T`, a time of day, and `Z`.
pub open spec fn utc_shape(value: Seq<char>) -> bool {
    let body = value.take(value.len() - 1);
    let k = next_at(body, 'T', 0);
    value.len() > 0 && value.last() == 'Z' && k < body.len() && date_shape(body.take(k)) && time_shape(
        body.skip(k + 1),
    )
}

fn digits_in(chars: &Vec<char>, from: usize, to: usize) -> (r: bool)
    requires
        from <= to <= chars@.len(),
    ensures
        r == digits_between(chars@, from as int, to as int),
{
    let mut i: usize = from;
    while i < to
        invariant
            from <= i <= to <= chars@.len(),
            digits_between(chars@, from as int, i as int),
        decreases to - i,
    {
        if chars[i] < '0' || '9' < chars[i] {
            assert(!is_digit(chars@[i as int]));
            return false;
        }
        i += 1;
    }
    true
}

fn is_date(text: &str) -> (r: bool)
    ensures
        r == date_shape(text@),
{
    let s = chars_of(text);
    s.len() == 10 && digits_in(&s, 0, 4) && s[4] == '-' && digits_in(&s, 5, 7) && s[7] == '-' && digits_in(&s, 8, 10)
}

fn is_clock(text: &str) -> (r: bool)
    ensures
        r == clock_shape(text@),
{
    let s = chars_of(text);
    s.len() == 8 && digits_in(&s, 0, 2) && s[2] == ':' && digits_in(&s, 3, 5) && s[5] == ':' && digits_in(&s, 6, 8)
}

fn is_time(text: &str) -> (r: bool)
    ensures
        r == time_shape(text@),
{
    match split_once(text, '.') {
        Some((clock, fraction)) => {
            let digits = chars_of(fraction.as_str());
            let all = digits_in(&digits, 0, digits.len());
            proof {
                let k = next_at(text@, '.', 0);
                lemma_next_at(text@, '.', 0);
                assert(fraction@ == text@.skip(k + 1));
                if all {
                    assert forall|i: int| k + 1 <= i < text@.len() implies is_digit(#[trigger] text@[i]) by {
                        assert(is_digit(fraction@[i - k - 1]));
                    }
                }
                if digits_between(text@, k + 1, text@.len() as int) {
                    assert forall|i: int| 0 <= i < fraction@.len() implies is_digit(#[trigger] fraction@[i]) by {
                        assert(is_digit(text@[i + k + 1]));
                    }
                }
            }
            is_clock(clock.as_str()) && digits.len() > 0 && all
        },
        None => {
            assert(text@.take(text@.len() as int) =~= text@);
            is_clock(text)
        },
    }
}

/// Whether a text has the shape of a UTC timestamp.
pub fn has_utc_shape(value: &str) -> (r: bool)
    ensures
        r == utc_shape(value@),
{
    let chars = chars_of(value);
    if chars.len() == 0 || chars[chars.len() - 1] != 'Z' {
        return false;
    }
    let body = slice_text(&chars, 0, chars.len() - 1);
    assert(body@ =~= value@.take(value@.len() - 1));
    match split_once(body.as_str(), 'T') {
        Some((date, time)) => is_date(date.as_str()) && is_time(time.as_str()),
        None => false,
    }
}

/// Whether a text is a UTC timestamp: it has the shape of one, and it names a point in time.
pub open spec fn utc_timestamp(value: Seq<char>) -> bool {
    utc_shape(value) && is_timestamp(value)
}

/// Whether a text is a UTC timestamp.
pub fn is_rfc3339_utc(value: &str) -> (r: bool)
    ensures
        r == utc_timestamp(value@),
{
    has_utc_shape(value) && parse_moment(value).is_some()
}

/// Whether every pull request of the cache was updated at a UTC timestamp.
pub open spec fn rows_dated(pulls: Map<u64, PullSummary>) -> bool {
    forall|n: u64| pulls.contains_key(n) ==> utc_timestamp((#[trigger] pulls[n]).updated_at@)
}

/// Whether a cache can answer for a repository: its layout is known, it is that repository's, and
/// every discovery timestamp in it is one.
pub open spec fn warm(file: CacheFile, identity: RepoIdentity) -> bool {
    &&& file.schema_version == SCHEMA_VERSION
    &&& file.name_with_owner@ == identity.name_with_owner@
    &&& file.repo_id@ == identity.id@
    &&& file.watermark@.len() == 0 || utc_timestamp(file.watermark@)
    &&& rows_dated(file.pulls@)
}

fn all_dated(pulls: &BTreeMap<u64, PullSummary>) -> (r: bool)
    ensures
        r == rows_dated(pulls@),
{
    let numbers = numbers_of(pulls);
    let mut i: usize = 0;
    while i < numbers.len()
        invariant
            i <= numbers@.len(),
            forall|n: u64| #[trigger] numbers@.contains(n) <==> pulls@.contains_key(n),
            forall|j: int| 0 <= j < i ==> utc_timestamp(pulls@[#[trigger] numbers@[j]].updated_at@),
        decreases numbers@.len() - i,
    {
        assert(numbers@.contains(numbers@[i as int]));
        match at_number(pulls, numbers[i]) {
            Some(pull) => {
                if !is_rfc3339_utc(pull.updated_at.as_str()) {
                    assert(!utc_timestamp(pulls@[numbers@[i as int]].updated_at@));
                    return false;
                }
            },
            None => {},
        }
        i += 1;
    }
    assert forall|n: u64| pulls@.contains_key(n) implies utc_timestamp((#[trigger] pulls@[n]).updated_at@) by {
        assert(numbers@.contains(n));
        let j = choose|j: int| 0 <= j < numbers@.len() && numbers@[j] == n;
        assert(utc_timestamp(pulls@[numbers@[j]].updated_at@));
    }
    true
}

/// The cache that was read, where it can answer for the repository; `None` where nothing could be
/// read or a warm read would be unsafe. Cache loss is never an error.
pub fn load(read: Option<CacheFile>, identity: &RepoIdentity) -> (file: Option<CacheFile>)
    ensures
        file == (match read {
            Some(found) => if warm(found, *identity) {
                Some(found)
            } else {
                None
            },
            None => None,
        }),
{
    match read {
        Some(found) => {
            if found.schema_version == SCHEMA_VERSION && same(
                found.name_with_owner.as_str(),
                identity.name_with_owner.as_str(),
            ) && same(found.repo_id.as_str(), identity.id.as_str()) && (found.watermark.as_str().is_empty()
                || is_rfc3339_utc(found.watermark.as_str())) && all_dated(&found.pulls) {
                Some(found)
            } else {
                None
            }
        },
        None => None,
    }
}

/// The key a verdict is cached under: it changes with either commit, with the version of this
/// package and with the semantics of the probe.
pub open spec fn key_of(tip: Seq<char>, trunk: Seq<char>) -> Seq<char> {
    tip + ":"@ + trunk + ":"@ + PACKAGE_VERSION@ + ":"@ + decimal_text(PROBE_SCHEMA as nat)
}

/// The key a verdict is cached under.
pub fn landed_key(tip: &CommitId, trunk: &CommitId) -> (key: String)
    ensures
        key@ == key_of(tip@, trunk@),
{
    let mut key = tip.text.clone();
    key.append(":");
    key.append(trunk.as_str());
    key.append(":");
    key.append(PACKAGE_VERSION);
    key.append(":");
    key.append(decimal(PROBE_SCHEMA as u64).as_str());
    key
}

/// Whether a cached row was updated after the fetched one.
pub open spec fn newer_read(read: Map<u64, PullSummary>, number: u64, fresh: PullSummary) -> bool {
    read.contains_key(number) && lex_less(ranks(fresh.updated_at@), ranks(read[number].updated_at@))
}

/// What a warm merge holds under a number: the fetched row, unless the cached one is newer.
pub open spec fn merged_row(
    read: Map<u64, PullSummary>,
    fetched: Map<u64, PullFacts>,
    number: u64,
) -> Option<PullSummary> {
    if fetched.contains_key(number) && !newer_read(read, number, summary_of(fetched[number].pull)) {
        Some(summary_of(fetched[number].pull))
    } else if read.contains_key(number) {
        Some(read[number])
    } else {
        None
    }
}

/// The later of two timestamps.
pub open spec fn later_of(a: Seq<char>, b: Seq<char>) -> Seq<char> {
    if lex_less(ranks(a), ranks(b)) {
        b
    } else {
        a
    }
}

/// Warm merge against the state read at open (never a second read): per number the newer update
/// wins, an equal one keeps this run's fetched row; the watermark is the later of the one read and
/// the sweep's.
pub fn merge_warm(
    read: CacheFile,
    fetched: &BTreeMap<u64, PullFacts>,
    sweep_max: &str,
) -> (merged: CacheFile)
    ensures
        merged.schema_version == read.schema_version,
        merged.name_with_owner == read.name_with_owner,
        merged.repo_id == read.repo_id,
        merged.watermark@ == later_of(read.watermark@, sweep_max@),
        merged.landed == read.landed,
        forall|n: u64|
            match #[trigger] merged_row(read.pulls@, fetched@, n) {
                Some(row) => merged.pulls@.contains_key(n) && merged.pulls@[n] == row,
                None => !merged.pulls@.contains_key(n),
            },
{
    let CacheFile { schema_version, name_with_owner, repo_id, watermark, pulls, landed } = read;
    let ghost start = pulls@;
    let mut pulls = pulls;
    let numbers = numbers_of(fetched);
    let mut i: usize = 0;
    while i < numbers.len()
        invariant
            i <= numbers@.len(),
            rising(numbers@),
            forall|n: u64| #[trigger] numbers@.contains(n) <==> fetched@.contains_key(n),
            forall|n: u64|
                numbers@.take(i as int).contains(n) ==> match #[trigger] merged_row(start, fetched@, n) {
                    Some(row) => pulls@.contains_key(n) && pulls@[n] == row,
                    None => !pulls@.contains_key(n),
                },
            forall|n: u64|
                !numbers@.take(i as int).contains(n) ==> (#[trigger] pulls@.contains_key(n)
                    == start.contains_key(n)) && (start.contains_key(n) ==> pulls@[n] == start[n]),
        decreases numbers@.len() - i,
    {
        let number = numbers[i];
        let ghost before = pulls@;
        assert(numbers@.contains(number));
        assert(!numbers@.take(i as int).contains(number)) by {
            if numbers@.take(i as int).contains(number) {
                let j = choose|j: int| 0 <= j < i && numbers@.take(i as int)[j] == number;
                assert(numbers@[j] < numbers@[i as int]);
            }
        }
        match at_number(fetched, number) {
            Some(facts) => {
                let fresh = PullSummary::of(&facts.pull);
                let newer = match at_number(&pulls, number) {
                    Some(cached) => text_precedes(fresh.updated_at.as_str(), cached.updated_at.as_str()),
                    None => false,
                };
                assert(newer == newer_read(start, number, summary_of(facts.pull)));
                if !newer {
                    set_number(&mut pulls, number, fresh);
                }
            },
            None => {},
        }
        proof {
            let shorter = numbers@.take(i as int);
            let longer = numbers@.take(i + 1);
            assert forall|n: u64| longer.contains(n) implies match #[trigger] merged_row(start, fetched@, n) {
                Some(row) => pulls@.contains_key(n) && pulls@[n] == row,
                None => !pulls@.contains_key(n),
            } by {
                let j = choose|j: int| 0 <= j < longer.len() && longer[j] == n;
                if j < i {
                    assert(shorter[j] == n);
                    assert(shorter.contains(n));
                    assert(n != number);
                } else {
                    assert(n == number);
                }
            }
            assert forall|n: u64| !longer.contains(n) implies (#[trigger] pulls@.contains_key(n)
                == start.contains_key(n)) && (start.contains_key(n) ==> pulls@[n] == start[n]) by {
                assert(longer[i as int] == number);
                assert(n != number);
                if shorter.contains(n) {
                    let j = choose|j: int| 0 <= j < shorter.len() && shorter[j] == n;
                    assert(longer[j] == n);
                }
                assert(before.contains_key(n) == start.contains_key(n));
            }
        }
        i += 1;
    }
    proof {
        assert(numbers@.take(i as int) =~= numbers@);
        assert forall|n: u64|
            match #[trigger] merged_row(start, fetched@, n) {
                Some(row) => pulls@.contains_key(n) && pulls@[n] == row,
                None => !pulls@.contains_key(n),
            } by {
            if !numbers@.contains(n) {
                assert(pulls@.contains_key(n) == start.contains_key(n));
            }
        }
    }
    let watermark = if text_precedes(watermark.as_str(), sweep_max) {
        sweep_max.to_owned()
    } else {
        watermark
    };
    CacheFile { schema_version, name_with_owner, repo_id, watermark, pulls, landed }
}

/// When the rows were updated, one for each.
pub open spec fn update_times(rows: Seq<PullSummary>) -> Seq<Seq<char>> {
    Seq::new(rows.len(), |i: int| rows[i].updated_at@)
}

/// The last row with that number.
pub open spec fn last_row(rows: Seq<PullSummary>, number: u64) -> Option<PullSummary>
    decreases rows.len(),
{
    if rows.len() == 0 {
        None
    } else if rows.last().number == number {
        Some(rows.last())
    } else {
        last_row(rows.drop_last(), number)
    }
}

/// The latest of the timestamps, empty where there are none.
pub open spec fn latest(times: Seq<Seq<char>>) -> Seq<char>
    decreases times.len(),
{
    if times.len() == 0 {
        Seq::empty()
    } else if times.len() == 1 {
        times[0]
    } else {
        later_of(latest(times.drop_last()), times.last())
    }
}

/// Cold replacement: the fetched rows are the map, so that no stale row can be stranded; the
/// watermark is the latest update over the rows; the landed verdicts are carried over.
pub fn replace_cold(
    identity: &RepoIdentity,
    rows: &[PullSummary],
    landed: OrdMap<String, LandedVerdict>,
) -> (file: CacheFile)
    ensures
        file.schema_version == SCHEMA_VERSION,
        file.name_with_owner == identity.name_with_owner,
        file.repo_id == identity.id,
        file.watermark@ == latest(update_times(rows@)),
        file.landed == landed,
        forall|n: u64|
            match #[trigger] last_row(rows@, n) {
                Some(row) => file.pulls@.contains_key(n) && file.pulls@[n] == row,
                None => !file.pulls@.contains_key(n),
            },
{
    let mut watermark = String::new();
    let mut pulls: BTreeMap<u64, PullSummary> = BTreeMap::new();
    let ghost times = update_times(rows@);
    let mut i: usize = 0;
    assert(times.take(0) =~= Seq::empty());
    assert(rows@.take(0) =~= Seq::empty());
    while i < rows.len()
        invariant
            i <= rows@.len(),
            times == update_times(rows@),
            watermark@ == latest(times.take(i as int)),
            forall|n: u64|
                match #[trigger] last_row(rows@.take(i as int), n) {
                    Some(row) => pulls@.contains_key(n) && pulls@[n] == row,
                    None => !pulls@.contains_key(n),
                },
        decreases rows@.len() - i,
    {
        proof {
            let next = times.take(i + 1);
            assert(next.drop_last() =~= times.take(i as int));
            assert(next.last() == rows@[i as int].updated_at@);
            assert(rows@.take(i + 1).drop_last() =~= rows@.take(i as int));
        }
        if i == 0 || text_precedes(watermark.as_str(), rows[i].updated_at.as_str()) {
            watermark = rows[i].updated_at.clone();
        }
        set_number(&mut pulls, rows[i].number, rows[i].clone());
        proof {
            assert forall|n: u64|
                match #[trigger] last_row(rows@.take(i + 1), n) {
                    Some(row) => pulls@.contains_key(n) && pulls@[n] == row,
                    None => !pulls@.contains_key(n),
                } by {
                let earlier = last_row(rows@.take(i as int), n);
            }
        }
        i += 1;
    }
    assert(times.take(i as int) =~= times);
    assert(rows@.take(i as int) =~= rows@);
    CacheFile {
        schema_version: SCHEMA_VERSION,
        name_with_owner: identity.name_with_owner.clone(),
        repo_id: identity.id.clone(),
        watermark,
        pulls,
        landed,
    }
}

/// Cached pin-file contents for one consumer at one exact default-branch head.
#[derive(Debug, PartialEq, Eq)]
pub struct ConsumerCache {
    pub schema: u32,
    pub slug: String,
    pub branch: String,
    pub commit: String,
    pub fetched_at: String,
    pub files: OrdMap<String, String>,
}

/// Whether a segment cannot stand as one component of a path.
pub open spec fn path_syntax(segment: Seq<char>) -> bool {
    segment.len() == 0 || begins_with(segment, "/"@) || begins_with(segment, "~"@) || begins_with(segment, "."@)
        || contains_text(segment, "\\"@)
}

pub fn has_path_syntax(segment: &str) -> (r: bool)
    ensures
        r == path_syntax(segment@),
{
    segment.is_empty() || starts_with(segment, "/") || starts_with(segment, "~") || starts_with(segment, ".")
        || crate::text::contains(segment, "\\")
}

/// `<root>/consumers/<owner>/<repo>.json`, for a slug of exactly two plain segments.
pub fn consumer_cache_path(root: &str, slug: &str) -> (path: Option<String>)
    ensures
        view_of(path) == ({
            let k = next_at(slug@, '/', 0);
            let owner = slug@.take(k);
            let repository = slug@.skip(k + 1);
            if k < slug@.len() && !path_syntax(owner) && !path_syntax(repository) && !contains_text(
                repository,
                "/"@,
            ) {
                Some(file_under(root@, "consumers"@, owner, repository))
            } else {
                None
            }
        }),
{
    match split_once(slug, '/') {
        Some((owner, repository)) => {
            if has_path_syntax(owner.as_str()) || has_path_syntax(repository.as_str()) || crate::text::contains(
                repository.as_str(),
                "/",
            ) {
                None
            } else {
                Some(cache_file(root, "consumers", owner.as_str(), repository.as_str()))
            }
        },
        None => None,
    }
}

/// Whether every cached file is one that consumers pin dependencies in.
pub open spec fn only_pin_files(files: Seq<(String, String)>) -> bool {
    forall|i: int| 0 <= i < files.len() ==> pin_file_names().contains((#[trigger] files[i]).0@)
}

/// Whether a consumer's cache can answer for a slug.
pub open spec fn warm_consumer(cache: ConsumerCache, slug: Seq<char>) -> bool {
    &&& cache.schema == CONSUMER_SCHEMA_VERSION
    &&& cache.slug@ == slug
    &&& cache.branch@.len() > 0
    &&& cache.commit@.len() > 0
    &&& utc_timestamp(cache.fetched_at@)
    &&& only_pin_files(cache.files@)
}

fn pins_only(files: &OrdMap<String, String>) -> (r: bool)
    ensures
        r == only_pin_files(files@),
{
    let mut i: usize = 0;
    while i < files.len()
        invariant
            i <= files@.len(),
            forall|j: int| 0 <= j < i ==> pin_file_names().contains((#[trigger] files@[j]).0@),
        decreases files@.len() - i,
    {
        if !is_pin_file(files.key(i).as_str()) {
            assert(!pin_file_names().contains(files@[i as int].0@));
            return false;
        }
        i += 1;
    }
    true
}

/// The consumer cache that was read, where it can answer for the slug.
pub fn load_consumer_cache(read: Option<ConsumerCache>, slug: &str) -> (cache: Option<ConsumerCache>)
    ensures
        cache == (match read {
            Some(found) => if warm_consumer(found, slug@) {
                Some(found)
            } else {
                None
            },
            None => None,
        }),
{
    match read {
        Some(found) => {
            if found.schema == CONSUMER_SCHEMA_VERSION && same(found.slug.as_str(), slug)
                && !found.branch.as_str().is_empty() && !found.commit.as_str().is_empty() && is_rfc3339_utc(
                found.fetched_at.as_str(),
            ) && pins_only(&found.files) {
                Some(found)
            } else {
                None
            }
        },
        None => None,
    }
}

/// A warm merge loses no row and invents none: it holds a number exactly where one of its sides does.
pub proof fn lemma_merge_keeps_every_number(read: Map<u64, PullSummary>, fetched: Map<u64, PullFacts>, number: u64)
    ensures
        merged_row(read, fetched, number) is Some <==> read.contains_key(number) || fetched.contains_key(number),
{
}

/// The newer update of a row wins, and of two equal ones this run's.
pub proof fn lemma_newer_update_wins(read: Map<u64, PullSummary>, fetched: Map<u64, PullFacts>, number: u64)
    requires
        read.contains_key(number),
        fetched.contains_key(number),
    ensures
        ({
            let fresh = summary_of(fetched[number].pull);
            let kept = merged_row(read, fetched, number)->0;
            &&& !lex_less(ranks(kept.updated_at@), ranks(fresh.updated_at@))
            &&& !lex_less(ranks(kept.updated_at@), ranks(read[number].updated_at@))
            &&& fresh.updated_at@ == read[number].updated_at@ ==> kept == fresh
        }),
{
    let fresh = ranks(summary_of(fetched[number].pull).updated_at@);
    let cached = ranks(read[number].updated_at@);
    lemma_lex_irreflexive(fresh);
    lemma_lex_irreflexive(cached);
    if lex_less(fresh, cached) {
        lemma_lex_asymmetric(fresh, cached);
    }
}

/// The watermark of a warm merge never recedes.
pub proof fn lemma_watermark_never_recedes(read: Seq<char>, swept: Seq<char>)
    ensures
        !lex_less(ranks(later_of(read, swept)), ranks(read)),
        !lex_less(ranks(later_of(read, swept)), ranks(swept)),
{
    lemma_lex_irreflexive(ranks(read));
    lemma_lex_irreflexive(ranks(swept));
    if lex_less(ranks(read), ranks(swept)) {
        lemma_lex_asymmetric(ranks(read), ranks(swept));
    }
}

/// Which row a merged cache has of a number: the fetched one, unless the one that was read was updated
/// later; what was not fetched stays as it was read.
pub proof fn lemma_merged_row(read: Map<u64, PullSummary>, fetched: Map<u64, PullFacts>, number: u64)
    ensures
        fetched.contains_key(number) && !read.contains_key(number) ==> merged_row(read, fetched, number) == Some(
            summary_of(fetched[number].pull),
        ),
        !fetched.contains_key(number) && read.contains_key(number) ==> merged_row(read, fetched, number) == Some(
            read[number],
        ),
        fetched.contains_key(number) && read.contains_key(number) ==> merged_row(read, fetched, number) == Some(
            if lex_less(ranks(fetched[number].pull.updated_at@), ranks(read[number].updated_at@)) {
                read[number]
            } else {
                summary_of(fetched[number].pull)
            },
        ),
{
}

/// A cache is used exactly if it has the schema at hand, is of the same repository by name and by id, and
/// every moment in it is one: its watermark, where it has one, and that of each row.
pub proof fn lemma_warm_cache(file: CacheFile, identity: RepoIdentity)
    ensures
        warm(file, identity) <==> file.schema_version == 1 && file.name_with_owner@
            == identity.name_with_owner@ && file.repo_id@ == identity.id@ && (file.watermark@.len() == 0
            || utc_timestamp(file.watermark@)) && forall|n: u64|
            file.pulls@.contains_key(n) ==> utc_timestamp((#[trigger] file.pulls@[n]).updated_at@),
{
}

/// A consumer's cache is used exactly if it has the schema at hand, is of that consumer, names a branch and
/// a commit, tells when it was fetched, and holds no file that pins nothing.
pub proof fn lemma_warm_consumer_cache(cache: ConsumerCache, slug: Seq<char>)
    ensures
        warm_consumer(cache, slug) <==> cache.schema == 1 && cache.slug@ == slug
            && cache.branch@.len() > 0 && cache.commit@.len() > 0 && utc_timestamp(cache.fetched_at@) && forall|i: int|
            0 <= i < cache.files@.len() ==> (#[trigger] cache.files@[i]).0@ == "uv.lock"@ || cache.files@[i].0@
                == "pyproject.toml"@,
{
    let names = pin_file_names();
    assert(names[0] == "uv.lock"@ && names[1] == "pyproject.toml"@);
    assert forall|name: Seq<char>| #[trigger] names.contains(name) <==> name == "uv.lock"@ || name
        == "pyproject.toml"@ by {
        if names.contains(name) {
            let k = choose|k: int| 0 <= k < names.len() && names[k] == name;
        }
    }
    if only_pin_files(cache.files@) {
        assert forall|i: int| 0 <= i < cache.files@.len() implies (#[trigger] cache.files@[i]).0@ == "uv.lock"@
            || cache.files@[i].0@ == "pyproject.toml"@ by {
            assert(names.contains(cache.files@[i].0@));
        }
    }
}

/// The shape of a moment: a date of ten characters, a `T`, a clock of eight, a `Z` at the end. A fraction
/// of a second may stand before the `Z`, behind a point, and has a digit at least.
pub proof fn lemma_utc_shape(value: Seq<char>)
    requires
        utc_shape(value),
    ensures
        value.len() == 20 || value.len() > 21,
        value.last() == 'Z',
        value[4] == '-' && value[7] == '-' && value[10] == 'T' && value[13] == ':' && value[16] == ':',
        is_digit(value[0]) && is_digit(value[5]) && is_digit(value[8]) && is_digit(value[11]) && is_digit(value[14])
            && is_digit(value[17]),
        value.len() > 21 ==> value[19] == '.' && is_digit(value[20]),
{
    let body = value.take(value.len() - 1);
    let k = next_at(body, 'T', 0);
    lemma_next_at(body, 'T', 0);
    let date = body.take(k);
    let time = body.skip(k + 1);
    assert(date.len() == k);
    assert(k == 10);
    let point = next_at(time, '.', 0);
    lemma_next_at(time, '.', 0);
    let clock = time.take(point);
    assert(point == 8);
    assert(date[4] == value[4] && date[7] == value[7] && date[0] == value[0] && date[5] == value[5] && date[8]
        == value[8]);
    assert(clock[0] == value[11] && clock[2] == value[13] && clock[3] == value[14] && clock[5] == value[16] && clock[6]
        == value[17]);
    if point < time.len() {
        assert(time[point] == value[19]);
        assert(time[9] == value[20]);
    }
}

/// What makes a segment unfit for a path: that it is empty, begins with a slash, a tilde or a point, or
/// holds a backslash.
pub proof fn lemma_path_syntax(segment: Seq<char>)
    ensures
        segment.len() == 0 ==> path_syntax(segment),
        segment.len() > 0 && (segment[0] == '/' || segment[0] == '~' || segment[0] == '.') ==> path_syntax(segment),
        segment.contains('\\') ==> path_syntax(segment),
        segment.len() > 0 && segment[0] != '/' && segment[0] != '~' && segment[0] != '.' && !segment.contains('\\')
            ==> !path_syntax(segment),
{
    reveal_strlit("/");
    reveal_strlit("~");
    reveal_strlit(".");
    reveal_strlit("\\");
    if segment.len() > 0 {
        assert(segment.take(1)[0] == segment[0]);
        if segment[0] == '/' {
            assert(segment.take(1) =~= "/"@);
        }
        if segment[0] == '~' {
            assert(segment.take(1) =~= "~"@);
        }
        if segment[0] == '.' {
            assert(segment.take(1) =~= "."@);
        }
    }
    if segment.contains('\\') {
        let i = choose|i: int| 0 <= i < segment.len() && segment[i] == '\\';
        assert(segment.subrange(i, i + "\\"@.len()) =~= "\\"@);
    }
    if contains_text(segment, "\\"@) {
        let i = choose|i: int|
            #![trigger segment.subrange(i, i + "\\"@.len())]
            0 <= i <= segment.len() - "\\"@.len() && segment.subrange(i, i + "\\"@.len()) == "\\"@;
        assert(segment.subrange(i, i + 1)[0] == segment[i]);
        assert(segment[i] == '\\');
    }
}

proof fn lemma_last_row(rows: Seq<PullSummary>, number: u64)
    ensures
        match last_row(rows, number) {
            Some(row) => row.number == number && exists|i: int|
                0 <= i < rows.len() && #[trigger] rows[i] == row && forall|j: int|
                    i < j < rows.len() ==> (#[trigger] rows[j]).number != number,
            None => forall|i: int| 0 <= i < rows.len() ==> (#[trigger] rows[i]).number != number,
        },
    decreases rows.len(),
{
    if rows.len() > 0 && rows.last().number != number {
        let rest = rows.drop_last();
        lemma_last_row(rest, number);
        match last_row(rows, number) {
            Some(row) => {
                let i = choose|i: int|
                    0 <= i < rest.len() && #[trigger] rest[i] == row && forall|j: int|
                        i < j < rest.len() ==> (#[trigger] rest[j]).number != number;
                assert(rows[i] == row);
                assert forall|j: int| i < j < rows.len() implies (#[trigger] rows[j]).number != number by {
                    if j < rest.len() {
                        assert(rest[j] == rows[j]);
                    }
                }
            },
            None => {
                assert forall|i: int| 0 <= i < rows.len() implies (#[trigger] rows[i]).number != number by {
                    if i < rest.len() {
                        assert(rest[i] == rows[i]);
                    }
                }
            },
        }
    } else if rows.len() > 0 {
        assert(rows[rows.len() - 1] == rows.last());
    }
}

/// A cache that is filled anew has every number that was listed, each with its last row, and its watermark
/// is one of the moments and none of them is later.
pub proof fn lemma_cold_cache(rows: Seq<PullSummary>, number: u64)
    ensures
        last_row(rows, number) is Some <==> exists|i: int| 0 <= i < rows.len() && (#[trigger] rows[i]).number == number,
        last_row(rows, number) matches Some(row) ==> row.number == number && rows.contains(row),
        rows.len() > 0 ==> update_times(rows).contains(latest(update_times(rows))),
        forall|i: int|
            0 <= i < rows.len() ==> !lex_less(
                ranks(latest(update_times(rows))),
                ranks((#[trigger] rows[i]).updated_at@),
            ),
{
    lemma_last_row(rows, number);
    let times = update_times(rows);
    lemma_latest_time(times);
    assert forall|i: int| 0 <= i < rows.len() implies !lex_less(
        ranks(latest(times)),
        ranks((#[trigger] rows[i]).updated_at@),
    ) by {
        assert(times[i] == rows[i].updated_at@);
    }
}

proof fn lemma_latest_time(times: Seq<Seq<char>>)
    ensures
        times.len() > 0 ==> times.contains(latest(times)),
        forall|i: int| 0 <= i < times.len() ==> !lex_less(ranks(latest(times)), ranks(#[trigger] times[i])),
    decreases times.len(),
{
    if times.len() == 1 {
        assert(times[0] == latest(times));
        lemma_lex_irreflexive(ranks(times[0]));
    } else if times.len() > 1 {
        let rest = times.drop_last();
        lemma_latest_time(rest);
        let best = latest(rest);
        let last = times.last();
        lemma_lex_irreflexive(ranks(last));
        assert(times[times.len() - 1] == last);
        let k = choose|k: int| 0 <= k < rest.len() && rest[k] == best;
        assert(times[k] == best);
        assert forall|i: int| 0 <= i < times.len() implies !lex_less(
            ranks(latest(times)),
            ranks(#[trigger] times[i]),
        ) by {
            if i < rest.len() {
                assert(rest[i] == times[i]);
                if lex_less(ranks(best), ranks(last)) {
                    if lex_less(ranks(last), ranks(times[i])) {
                        lemma_lex_transitive(ranks(best), ranks(last), ranks(times[i]));
                    }
                }
            }
        }
    }
}

/// A kept verdict is keyed by both tips: two branches, or two trunks, of ids without a colon never share a
/// key.
pub proof fn lemma_keys_differ(tip: Seq<char>, trunk: Seq<char>, other_tip: Seq<char>, other_trunk: Seq<char>)
    requires
        !tip.contains(':') && !trunk.contains(':') && !other_tip.contains(':') && !other_trunk.contains(':'),
        key_of(tip, trunk) == key_of(other_tip, other_trunk),
    ensures
        tip == other_tip && trunk == other_trunk,
{
    reveal_strlit(":");
    let tail = ":"@ + PACKAGE_VERSION@ + ":"@ + decimal_text(PROBE_SCHEMA as nat);
    let a = key_of(tip, trunk);
    let b = key_of(other_tip, other_trunk);
    assert(a =~= tip + ":"@ + trunk + tail);
    assert(b =~= other_tip + ":"@ + other_trunk + tail);
    assert(a[tip.len() as int] == ':');
    assert(b[other_tip.len() as int] == ':');
    if tip.len() < other_tip.len() {
        assert(other_tip[tip.len() as int] == ':');
        assert(other_tip.contains(':'));
    }
    if other_tip.len() < tip.len() {
        assert(tip[other_tip.len() as int] == ':');
        assert(tip.contains(':'));
    }
    assert(tip =~= a.take(tip.len() as int));
    assert(other_tip =~= b.take(tip.len() as int));
    let n = tip.len() as int + 1;
    assert(trunk =~= a.subrange(n, a.len() - tail.len()));
    assert(other_trunk =~= b.subrange(n, b.len() - tail.len()));
}

/// Where caches are kept: under the cache directory where one is stated, else under the one in the home
/// directory, and nowhere without either.
pub proof fn lemma_cache_home(xdg: Option<Seq<char>>, home: Option<Seq<char>>)
    ensures
        xdg matches Some(base) ==> cache_home(xdg, home) == Some(joined_path(base, "knives"@)),
        xdg is None && home is Some ==> cache_home(xdg, home) == Some(
            joined_path(joined_path(home->0, ".cache"@), "knives"@),
        ),
        xdg is None && home is None ==> cache_home(xdg, home) is None,
{
}

} // verus!
