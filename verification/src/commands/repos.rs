//! What is being maintained.
//!
//! Deliberately separate from what is being worked on right now.

use vstd::prelude::*;
use vstd::string::*;

use crate::cli::Exit;
use crate::columns::{length, widest};
use crate::config::{publish_of, remote_of, scheme_of, split_release, Registry, RepoEntry, Role};
use crate::consumer_pins::ConsumerScan;
use crate::detect::stale_parents::BookmarkTips;
use crate::ids::{parsed_bookmark, BookmarkRef, BranchName, CommitId, ReleaseScheme};
use crate::order::{lookup, OrdMap};
use crate::pieces::{pad, padded};
use crate::pins::Pin;
use crate::release_model::newest_position;
use crate::seqs::{
    gathered, group_seqs, lemma_filter_has, lemma_filter_map_has, lemma_filter_next, lemma_gathered_has,
    lemma_gathered_next, pointee, view_of, views,
};
use crate::sorting::{add_key, distinct_texts};
use crate::text::{join, joined, marked, push_marked, ranks, same};

verus! {

broadcast use group_seqs;

/// The release reference that represents a repository's newest publishable state.
pub open spec fn newest_text(tips: Seq<(BookmarkRef, CommitId)>, entry: RepoEntry) -> Option<Seq<char>> {
    match newest_position(tips, scheme_of(entry), publish_of(entry)) {
        Some((reference, _)) => Some(reference.text()),
        None => None,
    }
}

/// Selects the release reference that represents a repository's newest publishable state.
///
/// Fixed releases use only their local bookmark and its counterpart on the publish remote, because
/// treating the remotes as interchangeable reported a position that was never published as newest.
pub fn newest_release(tips: &BookmarkTips, entry: &RepoEntry) -> (newest: Option<String>)
    ensures
        view_of(newest) == newest_text(tips@, *entry),
{
    match crate::release_model::newest_release(tips, &entry.release_scheme(), entry.publish_remote()) {
        Some((reference, _)) => Some(reference.to_text()),
        None => None,
    }
}

/// What a repository says of the commits its consumers lock.
#[derive(Debug)]
pub struct RepoFacts {
    /// Where the fixed release branch stands locally.
    pub tip: Option<CommitId>,
    /// The commit each locked id stands for, where it is known.
    pub resolved: OrdMap<String, CommitId>,
    /// Whether a commit is an ancestor of the tip; absent where that could not be answered.
    pub in_tip: OrdMap<CommitId, bool>,
}

/// How far behind a consumer's pin is from the newest release we cut.
///
/// Nobody runs a command to answer a question they have not thought of, so this is reported beside
/// the release state.
#[derive(Debug, PartialEq, Eq)]
pub struct PinLag {
    pub lag: Option<String>,
    pub notes: Vec<String>,
    pub problems: Vec<String>,
}

impl Default for PinLag {
    fn default() -> (lag: Self)
        ensures
            lag.lag is None,
            lag.notes@.len() == 0,
            lag.problems@.len() == 0,
    {
        PinLag { lag: None, notes: Vec::new(), problems: Vec::new() }
    }
}

/// The pins that are on the axis of our releases.
pub open spec fn on_scheme() -> spec_fn(Pin) -> bool {
    |pin: Pin| pin.on_scheme
}

/// What the pins name, one for each.
pub open spec fn references(pins: Seq<Pin>) -> Seq<Seq<char>> {
    Seq::new(pins.len(), |i: int| pins[i].reference@)
}

/// What is said of a consumer that pins nothing of ours.
pub open spec fn pins_nothing(consumer: Seq<char>) -> Seq<char> {
    consumer + " pins no release of this repo"@
}

/// What is said of a consumer's pins against the newest dated cut: nothing where one of them is at it.
pub open spec fn dated_behind(newest: Seq<char>) -> spec_fn((String, ConsumerScan)) -> Seq<Seq<char>> {
    |consumer: (String, ConsumerScan)|
        {
            let pins = consumer.1.pins@.filter(on_scheme());
            if consumer.1.problems@.len() > 0 {
                Seq::empty()
            } else if pins.len() == 0 {
                seq![pins_nothing(consumer.0@)]
            } else if references(pins).contains(newest) {
                Seq::empty()
            } else {
                seq![consumer.0@ + " pins "@ + joined(distinct_texts(references(pins)), ", "@)]
            }
        }
}

/// The notes that a consumer's scan made.
pub open spec fn scan_notes() -> spec_fn((String, ConsumerScan)) -> Seq<Seq<char>> {
    |consumer: (String, ConsumerScan)| consumer.1@.notes
}

/// The problems that a consumer's scan met.
pub open spec fn scan_problems() -> spec_fn((String, ConsumerScan)) -> Seq<Seq<char>> {
    |consumer: (String, ConsumerScan)| consumer.1@.problems
}

/// How a locked pin compares with a branch that moves.
pub enum Comparison {
    Current,
    Behind,
    Unknown(Seq<char>),
}

/// How a pin compares with a branch that moves. One without a lock follows the branch.
pub open spec fn comparison(pin: Pin, fixed: Seq<char>, repo: Option<RepoFacts>) -> Comparison {
    match pin.locked {
        None => Comparison::Current,
        Some(locked) => {
            let unanswered = "could not compare "@ + locked@ + " with "@ + fixed;
            match repo {
                None => Comparison::Unknown(unanswered + ": repository unavailable"@),
                Some(facts) => match facts.tip {
                    None => Comparison::Unknown(unanswered + ": local branch unavailable"@),
                    Some(tip) => match lookup(facts.resolved@, ranks(locked@)) {
                        None => Comparison::Unknown(unanswered + ": commit unavailable"@),
                        Some(commit) => match lookup(facts.in_tip@, ranks(commit@)) {
                            None => Comparison::Unknown(unanswered),
                            Some(inside) => if inside && commit@ != tip@ {
                                Comparison::Behind
                            } else {
                                Comparison::Current
                            },
                        },
                    },
                },
            }
        },
    }
}

/// What is said of a pin that is behind a branch that moves.
pub open spec fn fixed_pin_behind(
    consumer: Seq<char>,
    fixed: Seq<char>,
    repo: Option<RepoFacts>,
) -> spec_fn(Pin) -> Option<Seq<char>> {
    |pin: Pin|
        match comparison(pin, fixed, repo) {
            Comparison::Behind => Some(consumer + " pins "@ + fixed + " at "@ + pin.locked->0@),
            _ => None,
        }
}

/// What is said of a pin that could not be compared.
pub open spec fn fixed_pin_note(fixed: Seq<char>, repo: Option<RepoFacts>) -> spec_fn(Pin) -> Option<Seq<char>> {
    |pin: Pin|
        match comparison(pin, fixed, repo) {
            Comparison::Unknown(note) => Some(note),
            _ => None,
        }
}

/// What is said of a consumer's pins against a branch that moves.
pub open spec fn fixed_behind(
    fixed: Seq<char>,
    repo: Option<RepoFacts>,
) -> spec_fn((String, ConsumerScan)) -> Seq<Seq<char>> {
    |consumer: (String, ConsumerScan)|
        {
            let pins = consumer.1.pins@.filter(on_scheme());
            if consumer.1.problems@.len() > 0 {
                Seq::empty()
            } else if pins.len() == 0 {
                seq![pins_nothing(consumer.0@)]
            } else {
                pins.filter_map(fixed_pin_behind(consumer.0@, fixed, repo))
            }
        }
}

/// The notes on a consumer's pins against a branch that moves.
pub open spec fn fixed_notes(
    fixed: Seq<char>,
    repo: Option<RepoFacts>,
) -> spec_fn((String, ConsumerScan)) -> Seq<Seq<char>> {
    |consumer: (String, ConsumerScan)|
        consumer.1@.notes + (if consumer.1.problems@.len() > 0 {
            Seq::empty()
        } else {
            consumer.1.pins@.filter(on_scheme()).filter_map(fixed_pin_note(fixed, repo))
        })
}

fn push_texts(out: &mut Vec<String>, texts: &Vec<String>)
    ensures
        views(final(out)@) == views(old(out)@) + views(texts@),
{
    let ghost before = views(out@);
    let ghost all = views(texts@);
    let mut i: usize = 0;
    assert(before + all.take(0) =~= before);
    while i < texts.len()
        invariant
            i <= texts@.len(),
            all == views(texts@),
            views(out@) == before + all.take(i as int),
        decreases texts@.len() - i,
    {
        let ghost earlier = out@;
        out.push(texts[i].clone());
        assert(views(out@) =~= views(earlier).push(texts@[i as int]@));
        assert(views(out@) =~= before + all.take(i + 1));
        i += 1;
    }
    assert(all.take(i as int) =~= all);
}

/// What the pins on our releases name, each once and in order, and whether any of them is `newest`.
fn pinned_names(pins: &Vec<Pin>, newest: &str) -> (found: (Vec<String>, bool, bool))
    ensures
        ({
            let ours = pins@.filter(on_scheme());
            &&& views(found.0@) == distinct_texts(references(ours))
            &&& found.1 == (ours.len() == 0)
            &&& found.2 == references(ours).contains(newest@)
        }),
{
    let mut names: Vec<String> = Vec::new();
    let mut none = true;
    let mut current = false;
    let mut i: usize = 0;
    assert(references(pins@.take(0).filter(on_scheme())) =~= Seq::empty());
    while i < pins.len()
        invariant
            i <= pins@.len(),
            views(names@) == distinct_texts(references(pins@.take(i as int).filter(on_scheme()))),
            none == (pins@.take(i as int).filter(on_scheme()).len() == 0),
            current == references(pins@.take(i as int).filter(on_scheme())).contains(newest@),
        decreases pins@.len() - i,
    {
        let ghost before = pins@.take(i as int).filter(on_scheme());
        proof {
            lemma_filter_next(pins@, on_scheme(), i as int);
        }
        if pins[i].on_scheme {
            proof {
                let more = references(before.push(pins@[i as int]));
                assert(more.drop_last() =~= references(before));
                assert(more.last() == pins@[i as int].reference@);
                assert(more =~= references(before).push(pins@[i as int].reference@));
                assert(more.contains(newest@) == (references(before).contains(newest@) || pins@[i as int].reference@
                    == newest@)) by {
                    if references(before).contains(newest@) {
                        let j = choose|j: int| 0 <= j < references(before).len() && references(before)[j] == newest@;
                        assert(more[j] == newest@);
                    }
                    if more.contains(newest@) {
                        let j = choose|j: int| 0 <= j < more.len() && more[j] == newest@;
                        if j < before.len() {
                            assert(references(before)[j] == newest@);
                        }
                    }
                    assert(more[before.len() as int] == pins@[i as int].reference@);
                }
            }
            add_key(&mut names, pins[i].reference.as_str());
            none = false;
            if same(pins[i].reference.as_str(), newest) {
                current = true;
            }
        }
        i += 1;
    }
    (names, none, current)
}

/// What is said of consumers against the newest dated cut.
pub open spec fn dated_lag(
    newest: Option<Seq<char>>,
    scans: Seq<(String, ConsumerScan)>,
) -> (Option<Seq<char>>, Seq<Seq<char>>, Seq<Seq<char>>) {
    match newest {
        None => (None, Seq::empty(), Seq::empty()),
        Some(reference) => {
            let branch = parsed_bookmark(reference).branch();
            let behind = gathered(scans, dated_behind(branch));
            (
                if behind.len() == 0 {
                    None
                } else {
                    Some("newest is "@ + branch + "; "@ + joined(behind, "; "@))
                },
                gathered(scans, scan_notes()),
                gathered(scans, scan_problems()),
            )
        },
    }
}

/// What is said of consumers against a branch that moves.
pub open spec fn fixed_lag(
    fixed: Seq<char>,
    repo: Option<RepoFacts>,
    scans: Seq<(String, ConsumerScan)>,
) -> (Option<Seq<char>>, Seq<Seq<char>>, Seq<Seq<char>>) {
    let behind = gathered(scans, fixed_behind(fixed, repo));
    (
        if behind.len() == 0 {
            None
        } else {
            Some(joined(behind, "; "@))
        },
        gathered(scans, fixed_notes(fixed, repo)),
        gathered(scans, scan_problems()),
    )
}

/// What a pin lag says.
pub open spec fn lag_view(lag: PinLag) -> (Option<Seq<char>>, Seq<Seq<char>>, Seq<Seq<char>>) {
    (view_of(lag.lag), views(lag.notes@), views(lag.problems@))
}

/// The consumers against the newest dated cut.
///
/// The newest release arrives qualified with the remote it was seen on, while a pin names only the
/// branch. Reported per consumer, because they can sit on different releases: one consumer being
/// current says nothing about another.
fn dated_pin_lag(newest: Option<&str>, scans: &Vec<(String, ConsumerScan)>) -> (lag: PinLag)
    ensures
        lag_view(lag) == dated_lag(view_of(newest), scans@),
{
    let reference = match newest {
        Some(reference) => reference,
        None => {
            let lag = PinLag::default();
            assert(lag_view(lag) =~= dated_lag(None, scans@));
            return lag;
        },
    };
    let bookmark = BookmarkRef::parse(reference);
    let branch = bookmark.branch().as_str();
    let mut behind: Vec<String> = Vec::new();
    let mut notes: Vec<String> = Vec::new();
    let mut problems: Vec<String> = Vec::new();
    let mut i: usize = 0;
    while i < scans.len()
        invariant
            i <= scans@.len(),
            views(behind@) == gathered(scans@.take(i as int), dated_behind(branch@)),
            views(notes@) == gathered(scans@.take(i as int), scan_notes()),
            views(problems@) == gathered(scans@.take(i as int), scan_problems()),
        decreases scans@.len() - i,
    {
        proof {
            lemma_gathered_next(scans@, dated_behind(branch@), i as int);
            lemma_gathered_next(scans@, scan_notes(), i as int);
            lemma_gathered_next(scans@, scan_problems(), i as int);
        }
        let scan = &scans[i].1;
        let ghost before = views(behind@);
        push_texts(&mut notes, &scan.notes);
        push_texts(&mut problems, &scan.problems);
        if scan.problems.len() == 0 {
            let (names, none, current) = pinned_names(&scan.pins, branch);
            if none {
                let mut line = scans[i].0.clone();
                line.append(" pins no release of this repo");
                behind.push(line);
                assert(views(behind@) =~= before + seq![line@]);
            } else if !current {
                let mut line = scans[i].0.clone();
                line.append(" pins ");
                line.append(join(&names, ", ").as_str());
                behind.push(line);
                assert(views(behind@) =~= before + seq![line@]);
            }
        }
        assert(views(behind@) =~= gathered(scans@.take(i + 1), dated_behind(branch@)));
        i += 1;
    }
    assert(views(behind@).len() == behind@.len());
    let lag = if behind.len() == 0 {
        None
    } else {
        let mut text = "newest is ".to_owned();
        text.append(branch);
        text.append("; ");
        text.append(join(&behind, "; ").as_str());
        Some(text)
    };
    PinLag { lag, notes, problems }
}

/// What is said of one pin against a branch that moves: that it is behind, or that it could not be
/// compared.
fn compare_pin(
    consumer: &str,
    pin: &Pin,
    fixed: &str,
    repo: Option<&RepoFacts>,
) -> (said: (Option<String>, Option<String>))
    ensures
        view_of(said.0) == fixed_pin_behind(consumer@, fixed@, pointee(repo))(*pin),
        view_of(said.1) == fixed_pin_note(fixed@, pointee(repo))(*pin),
{
    let locked = match &pin.locked {
        Some(locked) => locked,
        None => return (None, None),
    };
    let mut unanswered = "could not compare ".to_owned();
    unanswered.append(locked.as_str());
    unanswered.append(" with ");
    unanswered.append(fixed);
    let facts = match repo {
        Some(facts) => facts,
        None => {
            unanswered.append(": repository unavailable");
            return (None, Some(unanswered));
        },
    };
    let tip = match &facts.tip {
        Some(tip) => tip,
        None => {
            unanswered.append(": local branch unavailable");
            return (None, Some(unanswered));
        },
    };
    let commit = match facts.resolved.get(locked) {
        Some(commit) => commit,
        None => {
            unanswered.append(": commit unavailable");
            return (None, Some(unanswered));
        },
    };
    match facts.in_tip.get(commit) {
        Some(inside) => {
            if *inside && !commit.same(tip) {
                let mut line = consumer.to_owned();
                line.append(" pins ");
                line.append(fixed);
                line.append(" at ");
                line.append(locked.as_str());
                (Some(line), None)
            } else {
                (None, None)
            }
        },
        None => (None, Some(unanswered)),
    }
}

fn compare_pins(
    consumer: &str,
    pins: &Vec<Pin>,
    fixed: &str,
    repo: Option<&RepoFacts>,
    behind: &mut Vec<String>,
    notes: &mut Vec<String>,
) -> (none: bool)
    ensures
        ({
            let ours = pins@.filter(on_scheme());
            let facts = pointee(repo);
            &&& none == (ours.len() == 0)
            &&& views(final(behind)@) == views(old(behind)@) + ours.filter_map(
                fixed_pin_behind(consumer@, fixed@, facts),
            )
            &&& views(final(notes)@) == views(old(notes)@) + ours.filter_map(fixed_pin_note(fixed@, facts))
        }),
{
    let ghost facts = pointee(repo);
    let ghost is_behind = fixed_pin_behind(consumer@, fixed@, facts);
    let ghost is_unknown = fixed_pin_note(fixed@, facts);
    let ghost behind_before = views(behind@);
    let ghost notes_before = views(notes@);
    let mut none = true;
    let mut i: usize = 0;
    assert(behind_before + pins@.take(0).filter(on_scheme()).filter_map(is_behind) =~= behind_before);
    assert(notes_before + pins@.take(0).filter(on_scheme()).filter_map(is_unknown) =~= notes_before);
    while i < pins.len()
        invariant
            i <= pins@.len(),
            facts == pointee(repo),
            is_behind == fixed_pin_behind(consumer@, fixed@, facts),
            is_unknown == fixed_pin_note(fixed@, facts),
            none == (pins@.take(i as int).filter(on_scheme()).len() == 0),
            views(behind@) == behind_before + pins@.take(i as int).filter(on_scheme()).filter_map(is_behind),
            views(notes@) == notes_before + pins@.take(i as int).filter(on_scheme()).filter_map(is_unknown),
        decreases pins@.len() - i,
    {
        let ghost before = pins@.take(i as int).filter(on_scheme());
        proof {
            lemma_filter_next(pins@, on_scheme(), i as int);
            let more = before.push(pins@[i as int]);
            let n = before.len() as int;
            more.lemma_filter_map_take_succ(is_behind, n);
            more.lemma_filter_map_take_succ(is_unknown, n);
            assert(more.take(n) =~= before);
            assert(more.take(n + 1) =~= more);
        }
        if pins[i].on_scheme {
            none = false;
            let (late, unknown) = compare_pin(consumer, &pins[i], fixed, repo);
            if let Some(line) = late {
                behind.push(line);
            }
            if let Some(note) = unknown {
                notes.push(note);
            }
        }
        proof {
            assert(views(behind@) =~= behind_before + pins@.take(i + 1).filter(on_scheme()).filter_map(is_behind));
            assert(views(notes@) =~= notes_before + pins@.take(i + 1).filter(on_scheme()).filter_map(is_unknown));
        }
        i += 1;
    }
    none
}

/// The consumers against a branch that moves.
fn fixed_pin_lag(
    fixed: &BranchName,
    repo: Option<&RepoFacts>,
    scans: &Vec<(String, ConsumerScan)>,
) -> (lag: PinLag)
    ensures
        lag_view(lag) == fixed_lag(fixed@, pointee(repo), scans@),
{
    let ghost facts = pointee(repo);
    let mut behind: Vec<String> = Vec::new();
    let mut notes: Vec<String> = Vec::new();
    let mut problems: Vec<String> = Vec::new();
    let mut i: usize = 0;
    while i < scans.len()
        invariant
            i <= scans@.len(),
            facts == pointee(repo),
            views(behind@) == gathered(scans@.take(i as int), fixed_behind(fixed@, facts)),
            views(notes@) == gathered(scans@.take(i as int), fixed_notes(fixed@, facts)),
            views(problems@) == gathered(scans@.take(i as int), scan_problems()),
        decreases scans@.len() - i,
    {
        proof {
            lemma_gathered_next(scans@, fixed_behind(fixed@, facts), i as int);
            lemma_gathered_next(scans@, fixed_notes(fixed@, facts), i as int);
            lemma_gathered_next(scans@, scan_problems(), i as int);
        }
        let scan = &scans[i].1;
        let ghost before = views(behind@);
        let ghost noted = views(notes@);
        push_texts(&mut notes, &scan.notes);
        push_texts(&mut problems, &scan.problems);
        if scan.problems.len() == 0 {
            let none = compare_pins(
                scans[i].0.as_str(),
                &scan.pins,
                fixed.as_str(),
                repo,
                &mut behind,
                &mut notes,
            );
            if none {
                let mut line = scans[i].0.clone();
                line.append(" pins no release of this repo");
                proof {
                    let ours = scan.pins@.filter(on_scheme());
                    assert(ours =~= Seq::empty());
                    assert(views(behind@) =~= before);
                }
                behind.push(line);
                assert(views(behind@) =~= before + seq![line@]);
            }
        }
        proof {
            assert(views(behind@) =~= gathered(scans@.take(i + 1), fixed_behind(fixed@, facts)));
            assert(views(notes@) =~= gathered(scans@.take(i + 1), fixed_notes(fixed@, facts)));
        }
        i += 1;
    }
    assert(views(behind@).len() == behind@.len());
    let lag = if behind.len() == 0 {
        None
    } else {
        Some(join(&behind, "; "))
    };
    PinLag { lag, notes, problems }
}

/// What is said of the consumers of a repository.
pub open spec fn lag_of(
    entry: RepoEntry,
    newest: Option<Seq<char>>,
    repo: Option<RepoFacts>,
    scans: Seq<(String, ConsumerScan)>,
) -> (Option<Seq<char>>, Seq<Seq<char>>, Seq<Seq<char>>) {
    match scheme_of(entry) {
        ReleaseScheme::Dated => dated_lag(newest, scans),
        ReleaseScheme::Fixed(fixed) => fixed_lag(fixed@, repo, scans),
    }
}

/// How far behind the consumers of a repository are. `scans` holds each consumer and what was found
/// of its pins.
pub fn pin_lag(
    entry: &RepoEntry,
    newest: Option<&str>,
    repo: Option<&RepoFacts>,
    scans: &Vec<(String, ConsumerScan)>,
) -> (lag: PinLag)
    ensures
        lag_view(lag) == lag_of(*entry, view_of(newest), pointee(repo), scans@),
{
    match &entry.release_scheme() {
        ReleaseScheme::Dated => dated_pin_lag(newest, scans),
        ReleaseScheme::Fixed(fixed) => fixed_pin_lag(fixed, repo, scans),
    }
}

/// What a listing knows of one repository.
#[derive(Debug)]
pub struct ReleaseState {
    /// Where it is checked out, as it is shown.
    pub path: String,
    pub newest: Option<String>,
    /// What it says of the commits its consumers lock; absent where it could not be opened.
    pub repo: Option<RepoFacts>,
    /// Its consumers, and what was found of each.
    pub scans: Vec<(String, ConsumerScan)>,
}

/// What a listing reports: release and consumer state by repository, trusted mounts, and notes on
/// the registry.
#[derive(Debug, PartialEq, Eq)]
pub struct Report {
    pub repos: Vec<RepoRow>,
    pub trusted: Vec<TrustedRow>,
    pub notes: Vec<String>,
    pub config_path: String,
}

/// One maintained repository: its release position and how far its consumers lag it.
#[derive(Debug, PartialEq, Eq)]
pub struct RepoRow {
    pub name: String,
    pub path: String,
    pub release_remote: Option<String>,
    pub newest_release: Option<String>,
    pub behind: Option<String>,
    pub notes: Vec<String>,
    pub problems: Vec<String>,
}

/// What a row says.
pub struct RepoView {
    pub name: Seq<char>,
    pub path: Seq<char>,
    pub release_remote: Option<Seq<char>>,
    pub newest_release: Option<Seq<char>>,
    pub behind: Option<Seq<char>>,
    pub notes: Seq<Seq<char>>,
    pub problems: Seq<Seq<char>>,
}

impl View for RepoRow {
    type V = RepoView;

    open spec fn view(&self) -> RepoView {
        RepoView {
            name: self.name@,
            path: self.path@,
            release_remote: view_of(self.release_remote),
            newest_release: view_of(self.newest_release),
            behind: view_of(self.behind),
            notes: views(self.notes@),
            problems: views(self.problems@),
        }
    }
}

/// A trusted but unmaintained mount: instructions are read, nothing here is pinned or released.
#[derive(Debug, PartialEq, Eq)]
pub struct TrustedRow {
    pub name: String,
    pub path: String,
}

impl View for TrustedRow {
    type V = (Seq<char>, Seq<char>);

    open spec fn view(&self) -> (Seq<char>, Seq<char>) {
        (self.name@, self.path@)
    }
}

/// What one listing reads.
pub struct GatherInput<'a> {
    pub registry: &'a Registry,
    /// What is known of each registered repository.
    pub states: &'a OrdMap<String, ReleaseState>,
    pub trusted: Vec<TrustedRow>,
    pub config_path: &'a str,
}

/// The row of a registered repository.
pub open spec fn repo_row(states: Seq<(String, ReleaseState)>) -> spec_fn((String, RepoEntry)) -> RepoView {
    |registered: (String, RepoEntry)|
        {
            let entry = registered.1;
            let state = lookup(states, ranks(registered.0@));
            let newest = match state {
                Some(state) => view_of(state.newest),
                None => None,
            };
            let repo = match state {
                Some(state) => state.repo,
                None => None,
            };
            let scans = match state {
                Some(state) => state.scans@,
                None => Seq::empty(),
            };
            let lag = lag_of(entry, newest, repo, scans);
            RepoView {
                name: registered.0@,
                path: match state {
                    Some(state) => state.path@,
                    None => ""@,
                },
                release_remote: if split_release(entry) {
                    Some(remote_of(entry, Role::Release))
                } else {
                    None
                },
                newest_release: newest,
                behind: lag.0,
                notes: lag.1,
                problems: lag.2,
            }
        }
}

/// What a listing notes on the registry. Saying where to add entries beats saying nothing; a registry
/// of trusted mounts alone is a real configuration, not an empty one.
pub open spec fn registry_notes(repos: nat, trusted: nat, config_path: Seq<char>) -> Seq<Seq<char>> {
    if repos > 0 {
        seq!["pin state lives in consumers: record them as `consumers = [...]` in the registry"@]
    } else if trusted == 0 {
        seq!["no repos configured; add entries to "@ + config_path]
    } else {
        Seq::empty()
    }
}

fn row_for(name: &String, entry: &RepoEntry, states: &OrdMap<String, ReleaseState>) -> (row: RepoRow)
    ensures
        row@ == repo_row(states@)((*name, *entry)),
{
    let nobody: Vec<(String, ConsumerScan)> = Vec::new();
    let state = states.get(name);
    let newest: Option<&str> = match state {
        Some(state) => match &state.newest {
            Some(newest) => Some(newest.as_str()),
            None => None,
        },
        None => None,
    };
    let repo: Option<&RepoFacts> = match state {
        Some(state) => state.repo.as_ref(),
        None => None,
    };
    let scans: &Vec<(String, ConsumerScan)> = match state {
        Some(state) => &state.scans,
        None => &nobody,
    };
    let lag = pin_lag(entry, newest, repo, scans);
    let path = match state {
        Some(state) => state.path.clone(),
        None => "".to_owned(),
    };
    let release_remote = if entry.has_split_release() {
        Some(entry.remote(Role::Release).to_owned())
    } else {
        None
    };
    let newest_release = match newest {
        Some(newest) => Some(newest.to_owned()),
        None => None,
    };
    assert(scans@ =~= match lookup(states@, ranks(name@)) {
        Some(state) => state.scans@,
        None => Seq::empty(),
    });
    RepoRow {
        name: name.clone(),
        path,
        release_remote,
        newest_release,
        behind: lag.lag,
        notes: lag.notes,
        problems: lag.problems,
    }
}

/// Collects release state and consumer pin lag for every registered repository.
pub fn gather(input: GatherInput) -> (report: Report)
    ensures
        views(report.repos@) == input.registry.repos@.map_values(repo_row(input.states@)),
        report.trusted == input.trusted,
        views(report.notes@) == registry_notes(
            input.registry.repos@.len(),
            input.trusted@.len(),
            input.config_path@,
        ),
        report.config_path@ == input.config_path@,
{
    let registered = &input.registry.repos;
    let ghost all = registered@.map_values(repo_row(input.states@));
    let mut repos: Vec<RepoRow> = Vec::new();
    let mut i: usize = 0;
    assert(views(repos@) =~= all.take(0));
    while i < registered.len()
        invariant
            i <= registered@.len(),
            all == registered@.map_values(repo_row(input.states@)),
            views(repos@) == all.take(i as int),
        decreases registered@.len() - i,
    {
        let row = row_for(registered.key(i), registered.value(i), input.states);
        assert(row@ == all[i as int]);
        let ghost earlier = repos@;
        repos.push(row);
        assert(views(repos@) =~= views(earlier).push(row@));
        assert(views(repos@) =~= all.take(i + 1));
        i += 1;
    }
    assert(all.take(i as int) =~= all);
    assert(views(repos@).len() == repos@.len());
    let mut notes: Vec<String> = Vec::new();
    if repos.len() == 0 {
        if input.trusted.len() == 0 {
            let mut note = "no repos configured; add entries to ".to_owned();
            note.append(input.config_path);
            notes.push(note);
        }
    } else {
        notes.push("pin state lives in consumers: record them as `consumers = [...]` in the registry".to_owned());
    }
    assert(views(notes@) =~= registry_notes(registered@.len(), input.trusted@.len(), input.config_path@));
    Report { repos, trusted: input.trusted, notes, config_path: input.config_path.to_owned() }
}

/// The names of the trusted mounts.
pub open spec fn trusted_names(trusted: Seq<(Seq<char>, Seq<char>)>) -> Seq<Seq<char>> {
    Seq::new(trusted.len(), |i: int| trusted[i].0)
}

/// The trusted mounts, listed apart from what is maintained.
pub open spec fn trusted_text(trusted: Seq<(Seq<char>, Seq<char>)>) -> Seq<Seq<char>> {
    if trusted.len() == 0 {
        Seq::empty()
    } else {
        seq!["trusted (instructions read, not maintained):"@] + Seq::new(
            trusted.len(),
            |i: int| "  "@ + padded(trusted[i].0, widest(trusted_names(trusted))) + "  "@ + trusted[i].1,
        )
    }
}

/// The trusted mounts, listed apart from what is maintained.
///
/// Shown because a registry entry nothing ever prints is one nobody can debug; kept under their own
/// heading because they are not answers to what is being maintained.
fn trusted_lines(trusted: &Vec<TrustedRow>) -> (lines: Vec<String>)
    ensures
        views(lines@) == trusted_text(views(trusted@)),
{
    let ghost all = views(trusted@);
    assert(all.len() == trusted@.len());
    if trusted.len() == 0 {
        return Vec::new();
    }
    let ghost names = trusted_names(all);
    let mut width: usize = 0;
    let mut i: usize = 0;
    assert(names.take(0) =~= Seq::empty());
    while i < trusted.len()
        invariant
            i <= trusted@.len(),
            all == views(trusted@),
            names == trusted_names(all),
            width == widest(names.take(i as int)),
        decreases trusted@.len() - i,
    {
        proof {
            assert(names.take(i + 1).drop_last() =~= names.take(i as int));
            assert(names.take(i + 1).last() == trusted@[i as int].name@);
        }
        let here = length(trusted[i].name.as_str());
        if here > width {
            width = here;
        }
        i += 1;
    }
    assert(names.take(i as int) =~= names);
    let ghost text = trusted_text(all);
    let mut lines: Vec<String> = Vec::new();
    lines.push("trusted (instructions read, not maintained):".to_owned());
    assert(views(lines@) =~= text.take(1));
    let count = trusted.len();
    let mut k: usize = 0;
    while k < count
        invariant
            k <= count,
            count == trusted@.len(),
            all == views(trusted@),
            all.len() > 0,
            text == trusted_text(all),
            width == widest(trusted_names(all)),
            views(lines@) == text.take(k + 1),
        decreases count - k,
    {
        let mut line = "  ".to_owned();
        line.append(pad(trusted[k].name.as_str(), width).as_str());
        line.append("  ");
        line.append(trusted[k].path.as_str());
        assert(line@ == text[k + 1]);
        let ghost earlier = lines@;
        lines.push(line);
        assert(views(lines@) =~= views(earlier).push(line@));
        assert(views(lines@) =~= text.take(k + 2));
        k += 1;
    }
    assert(text.take(k + 1) =~= text);
    lines
}

/// The names of the repositories.
pub open spec fn repo_names(repos: Seq<RepoView>) -> Seq<Seq<char>> {
    Seq::new(repos.len(), |i: int| repos[i].name)
}

/// The line of a repository.
pub open spec fn repo_line(repo: RepoView, width: nat) -> Seq<char> {
    padded(repo.name, width) + "  "@ + repo.path + (match repo.release_remote {
        Some(remote) => "  release-remote="@ + remote,
        None => ""@,
    }) + (match repo.newest_release {
        Some(newest) => "  newest="@ + newest,
        None => "  newest=none"@,
    }) + (match repo.behind {
        Some(behind) => "  BEHIND: "@ + behind,
        None => ""@,
    })
}

/// The lines of a repository.
pub open spec fn repo_lines(width: nat) -> spec_fn(RepoView) -> Seq<Seq<char>> {
    |repo: RepoView|
        seq![repo_line(repo, width)] + marked("  ! "@, repo.notes) + marked("  ? "@, repo.problems)
}

/// A listing in words.
pub open spec fn report_text(report: Report) -> Seq<char> {
    let repos = views(report.repos@);
    let trusted = views(report.trusted@);
    if repos.len() == 0 {
        if trusted.len() == 0 {
            if report.notes@.len() > 0 {
                report.notes@[0]@
            } else {
                ""@
            }
        } else {
            joined(trusted_text(trusted), "\n"@)
        }
    } else {
        joined(
            gathered(repos, repo_lines(widest(repo_names(repos)))) + trusted_text(trusted) + views(report.notes@),
            "\n"@,
        )
    }
}

fn line_of(repo: &RepoRow, width: usize) -> (line: String)
    ensures
        line@ == repo_line(repo@, width as nat),
{
    let mut line = pad(repo.name.as_str(), width);
    line.append("  ");
    line.append(repo.path.as_str());
    let mut part = "".to_owned();
    if let Some(remote) = &repo.release_remote {
        part = "  release-remote=".to_owned();
        part.append(remote.as_str());
    }
    line.append(part.as_str());
    let mut part = "  newest=none".to_owned();
    if let Some(newest) = &repo.newest_release {
        part = "  newest=".to_owned();
        part.append(newest.as_str());
    }
    line.append(part.as_str());
    let mut part = "".to_owned();
    if let Some(behind) = &repo.behind {
        part = "  BEHIND: ".to_owned();
        part.append(behind.as_str());
    }
    line.append(part.as_str());
    line
}

/// A listing in words.
pub fn render(report: &Report) -> (text: String)
    ensures
        text@ == report_text(*report),
{
    let ghost all = views(report.repos@);
    assert(all.len() == report.repos@.len());
    assert(views(report.trusted@).len() == report.trusted@.len());
    if report.repos.len() == 0 {
        if report.trusted.len() == 0 {
            if report.notes.len() > 0 {
                return report.notes[0].clone();
            }
            return "".to_owned();
        }
        return join(&trusted_lines(&report.trusted), "\n");
    }
    let ghost names = repo_names(all);
    let mut width: usize = 0;
    let mut i: usize = 0;
    assert(names.take(0) =~= Seq::empty());
    while i < report.repos.len()
        invariant
            i <= report.repos@.len(),
            all == views(report.repos@),
            names == repo_names(all),
            width == widest(names.take(i as int)),
        decreases report.repos@.len() - i,
    {
        proof {
            assert(names.take(i + 1).drop_last() =~= names.take(i as int));
            assert(names.take(i + 1).last() == report.repos@[i as int].name@);
        }
        let here = length(report.repos[i].name.as_str());
        if here > width {
            width = here;
        }
        i += 1;
    }
    assert(names.take(i as int) =~= names);
    let ghost f = repo_lines(width as nat);
    let mut lines: Vec<String> = Vec::new();
    let mut k: usize = 0;
    while k < report.repos.len()
        invariant
            k <= report.repos@.len(),
            all == views(report.repos@),
            f == repo_lines(width as nat),
            views(lines@) == gathered(all.take(k as int), f),
        decreases report.repos@.len() - k,
    {
        let repo = &report.repos[k];
        proof {
            lemma_gathered_next(all, f, k as int);
            assert(all[k as int] == repo@);
        }
        let ghost before = views(lines@);
        let line = line_of(repo, width);
        lines.push(line);
        assert(views(lines@) =~= before + seq![line@]);
        push_marked(&mut lines, "  ! ", repo.notes.as_slice());
        push_marked(&mut lines, "  ? ", repo.problems.as_slice());
        assert(views(lines@) =~= before + f(repo@));
        k += 1;
    }
    push_texts(&mut lines, &trusted_lines(&report.trusted));
    push_texts(&mut lines, &report.notes);
    join(&lines, "\n")
}

/// How a listing ends. A repository whose pin state could not be compared leaves it incomplete: the
/// command's central question went unanswered there.
pub fn exit_for(report: &Report) -> (exit: Exit)
    ensures
        exit == (if exists|i: int| 0 <= i < report.repos@.len() && (#[trigger] report.repos@[i]).problems@.len() > 0 {
            Exit::Incomplete
        } else {
            Exit::Clean
        }),
{
    let mut i: usize = 0;
    while i < report.repos.len()
        invariant
            i <= report.repos@.len(),
            forall|j: int| 0 <= j < i ==> (#[trigger] report.repos@[j]).problems@.len() == 0,
        decreases report.repos@.len() - i,
    {
        if report.repos[i].problems.len() > 0 {
            return Exit::Incomplete;
        }
        i += 1;
    }
    Exit::Clean
}

/// A consumer whose pins could not be read is never called behind or current: only its problems are
/// reported.
pub proof fn lemma_unread_consumer_is_not_judged(
    consumer: (String, ConsumerScan),
    newest: Seq<char>,
    fixed: Seq<char>,
    repo: Option<RepoFacts>,
)
    requires
        consumer.1.problems@.len() > 0,
    ensures
        dated_behind(newest)(consumer).len() == 0,
        fixed_behind(fixed, repo)(consumer).len() == 0,
{
}

/// Each consumer is judged on its own: what is said of one does not depend on another.
pub proof fn lemma_consumers_are_judged_apart(
    before: Seq<(String, ConsumerScan)>,
    after: Seq<(String, ConsumerScan)>,
    newest: Seq<char>,
)
    ensures
        gathered(before + after, dated_behind(newest)) == gathered(before, dated_behind(newest)) + gathered(
            after,
            dated_behind(newest),
        ),
    decreases after.len(),
{
    let f = dated_behind(newest);
    if after.len() == 0 {
        assert(before + after =~= before);
        assert(gathered(before, f) + gathered(after, f) =~= gathered(before, f));
    } else {
        assert((before + after).drop_last() =~= before + after.drop_last());
        assert((before + after).last() == after.last());
        lemma_consumers_are_judged_apart(before, after.drop_last(), newest);
        assert(gathered(before, f) + gathered(after.drop_last(), f) + f(after.last()) =~= gathered(before, f)
            + gathered(after, f));
    }
}

/// A pin is behind a branch that moves exactly if the commit it is locked to resolves to one that is
/// inside the branch's tip and is not the tip itself. A pin that resolves to the tip is never behind,
/// and neither is one without a lock.
pub proof fn lemma_behind_is_strictly_inside(consumer: Seq<char>, fixed: Seq<char>, repo: Option<RepoFacts>, pin: Pin)
    ensures
        fixed_pin_behind(consumer, fixed, repo)(pin) is Some <==> pin.locked is Some && repo is Some
            && repo->0.tip is Some && lookup(repo->0.resolved@, ranks(pin.locked->0@)) is Some && lookup(
            repo->0.in_tip@,
            ranks(lookup(repo->0.resolved@, ranks(pin.locked->0@))->0@),
        ) == Some(true) && lookup(repo->0.resolved@, ranks(pin.locked->0@))->0@ != repo->0.tip->0@,
        fixed_pin_behind(consumer, fixed, repo)(pin) matches Some(line) ==> line == consumer + " pins "@ + fixed
            + " at "@ + pin.locked->0@,
{
}

/// What is not known of a locked pin is said, and nothing is said of one that is known: it could not be
/// compared exactly if the repository, its branch, the commit or the commit's place is missing.
pub proof fn lemma_unknown_pin_is_noted(consumer: Seq<char>, fixed: Seq<char>, repo: Option<RepoFacts>, pin: Pin)
    ensures
        fixed_pin_note(fixed, repo)(pin) is Some <==> pin.locked is Some && (repo is None || repo->0.tip is None
            || lookup(repo->0.resolved@, ranks(pin.locked->0@)) is None || lookup(
            repo->0.in_tip@,
            ranks(lookup(repo->0.resolved@, ranks(pin.locked->0@))->0@),
        ) is None),
        !(fixed_pin_note(fixed, repo)(pin) is Some && fixed_pin_behind(consumer, fixed, repo)(pin) is Some),
{
}

/// What is said of a consumer against the newest dated cut: nothing where its pins could not be read, that
/// it pins none of our releases where none is one, nothing where one of them is the newest, and else what it
/// does pin. A pin off our releases counts for nothing.
pub proof fn lemma_consumer_against_dated_cut(newest: Seq<char>, consumer: (String, ConsumerScan))
    ensures
        ({
            let said = dated_behind(newest)(consumer);
            let pins = consumer.1.pins@;
            let read = consumer.1.problems@.len() == 0;
            let some = exists|i: int| 0 <= i < pins.len() && (#[trigger] pins[i]).on_scheme;
            let current = exists|i: int|
                0 <= i < pins.len() && (#[trigger] pins[i]).on_scheme && pins[i].reference@ == newest;
            &&& said.len() > 0 <==> read && !current
            &&& read && !some ==> said == seq![consumer.0@ + " pins no release of this repo"@]
            &&& said.len() <= 1
        }),
{
    let pins = consumer.1.pins@;
    let ours = pins.filter(on_scheme());
    let names = references(ours);
    if ours.len() > 0 {
        assert(ours.contains(ours[0]));
        lemma_filter_has(pins, on_scheme(), ours[0]);
        let i = choose|i: int| 0 <= i < pins.len() && pins[i] == ours[0];
        assert(pins[i].on_scheme);
    }
    if names.contains(newest) {
        let k = choose|k: int| 0 <= k < names.len() && names[k] == newest;
        assert(ours.contains(ours[k]));
        lemma_filter_has(pins, on_scheme(), ours[k]);
        let i = choose|i: int| 0 <= i < pins.len() && pins[i] == ours[k];
        assert(pins[i].on_scheme && pins[i].reference@ == newest);
    }
    assert forall|i: int| 0 <= i < pins.len() && (#[trigger] pins[i]).on_scheme implies ours.len() > 0 && names.contains(
        pins[i].reference@,
    ) by {
        pins.lemma_filter_contains(on_scheme(), i);
        let k = choose|k: int| 0 <= k < ours.len() && ours[k] == pins[i];
        assert(names[k] == pins[i].reference@);
    }
}

/// What is said of a consumer against a branch that moves: nothing where its pins could not be read, that it
/// pins none of our releases where none is one, and else a line for each of its pins on our releases that is
/// behind and for no other.
pub proof fn lemma_consumer_against_moving_branch(
    fixed: Seq<char>,
    repo: Option<RepoFacts>,
    consumer: (String, ConsumerScan),
)
    ensures
        ({
            let said = fixed_behind(fixed, repo)(consumer);
            let pins = consumer.1.pins@;
            let some = exists|i: int| 0 <= i < pins.len() && (#[trigger] pins[i]).on_scheme;
            let late = exists|i: int|
                0 <= i < pins.len() && (#[trigger] pins[i]).on_scheme && fixed_pin_behind(consumer.0@, fixed, repo)(
                    pins[i],
                ) is Some;
            &&& said.len() > 0 <==> consumer.1.problems@.len() == 0 && (!some || late)
            &&& consumer.1.problems@.len() == 0 && !some ==> said == seq![
                consumer.0@ + " pins no release of this repo"@,
            ]
        }),
{
    let pins = consumer.1.pins@;
    let ours = pins.filter(on_scheme());
    let f = fixed_pin_behind(consumer.0@, fixed, repo);
    let lines = ours.filter_map(f);
    if ours.len() > 0 {
        assert(ours.contains(ours[0]));
        lemma_filter_has(pins, on_scheme(), ours[0]);
        let i = choose|i: int| 0 <= i < pins.len() && pins[i] == ours[0];
        assert(pins[i].on_scheme);
    }
    if lines.len() > 0 {
        assert(lines.contains(lines[0]));
        lemma_filter_map_has(ours, f, lines[0]);
        let k = choose|k: int| 0 <= k < ours.len() && f(#[trigger] ours[k]) == Some(lines[0]);
        assert(ours.contains(ours[k]));
        lemma_filter_has(pins, on_scheme(), ours[k]);
        let i = choose|i: int| 0 <= i < pins.len() && pins[i] == ours[k];
        assert(pins[i].on_scheme && f(pins[i]) is Some);
    }
    assert forall|i: int| 0 <= i < pins.len() && (#[trigger] pins[i]).on_scheme implies ours.contains(pins[i]) by {
        pins.lemma_filter_contains(on_scheme(), i);
    }
    assert forall|i: int|
        0 <= i < pins.len() && (#[trigger] pins[i]).on_scheme && f(pins[i]) is Some implies lines.len() > 0 by {
        let k = choose|k: int| 0 <= k < ours.len() && ours[k] == pins[i];
        lemma_filter_map_has(ours, f, f(pins[i])->0);
        assert(f(ours[k]) == Some(f(pins[i])->0));
        assert(lines.contains(f(pins[i])->0));
    }
}

/// A lag is told exactly if something is said of some consumer. Without a dated cut nothing is told at all;
/// the notes and problems of the scans are told else, whatever is behind.
pub proof fn lemma_lag_is_told(
    newest: Seq<char>,
    fixed: Seq<char>,
    repo: Option<RepoFacts>,
    scans: Seq<(String, ConsumerScan)>,
)
    ensures
        dated_lag(None, scans) == (None::<Seq<char>>, Seq::<Seq<char>>::empty(), Seq::<Seq<char>>::empty()),
        dated_lag(Some(newest), scans).0 is Some <==> exists|i: int|
            0 <= i < scans.len() && dated_behind(parsed_bookmark(newest).branch())(#[trigger] scans[i]).len() > 0,
        fixed_lag(fixed, repo, scans).0 is Some <==> exists|i: int|
            0 <= i < scans.len() && fixed_behind(fixed, repo)(#[trigger] scans[i]).len() > 0,
        dated_lag(Some(newest), scans).2 == gathered(scans, scan_problems()),
        fixed_lag(fixed, repo, scans).2 == gathered(scans, scan_problems()),
{
    lemma_gathered_len(scans, dated_behind(parsed_bookmark(newest).branch()));
    lemma_gathered_len(scans, fixed_behind(fixed, repo));
}

proof fn lemma_gathered_len(scans: Seq<(String, ConsumerScan)>, f: spec_fn((String, ConsumerScan)) -> Seq<Seq<char>>)
    ensures
        gathered(scans, f).len() > 0 <==> exists|i: int| 0 <= i < scans.len() && f(#[trigger] scans[i]).len() > 0,
{
    let all = gathered(scans, f);
    if all.len() > 0 {
        assert(all.contains(all[0]));
        lemma_gathered_has(scans, f, all[0]);
        let i = choose|i: int| 0 <= i < scans.len() && f(#[trigger] scans[i]).contains(all[0]);
        assert(f(scans[i]).len() > 0);
    }
    assert forall|i: int| 0 <= i < scans.len() && f(#[trigger] scans[i]).len() > 0 implies all.len() > 0 by {
        let line = f(scans[i])[0];
        assert(f(scans[i]).contains(line));
        lemma_gathered_has(scans, f, line);
        assert(all.contains(line));
    }
}

/// A listing says where to add repositories exactly if it has none and no trusted mount either, and how
/// consumers are recorded exactly if it has one.
pub proof fn lemma_notes_on_registry(repos: nat, trusted: nat, config_path: Seq<char>)
    ensures
        repos > 0 ==> registry_notes(repos, trusted, config_path) == seq![
            "pin state lives in consumers: record them as `consumers = [...]` in the registry"@,
        ],
        repos == 0 && trusted == 0 ==> registry_notes(repos, trusted, config_path) == seq![
            "no repos configured; add entries to "@ + config_path,
        ],
        repos == 0 && trusted > 0 ==> registry_notes(repos, trusted, config_path).len() == 0,
{
}

/// A repository's row names its release remote exactly if its releases have one of their own, and tells of
/// its own state alone.
pub proof fn lemma_row_of_repository(states: Seq<(String, ReleaseState)>, registered: (String, RepoEntry))
    ensures
        ({
            let row = repo_row(states)(registered);
            let entry = registered.1;
            let state = lookup(states, ranks(registered.0@));
            &&& row.name == registered.0@
            &&& row.release_remote is Some <==> entry.release is Some && entry.release->0@ != entry.origin@
            &&& row.release_remote matches Some(remote) ==> remote == entry.release->0@
            &&& state is None ==> row.behind is None && row.newest_release is None && row.problems.len() == 0
            &&& state is Some ==> row.newest_release == view_of(state->0.newest) && row.path == state->0.path@
            &&& state is Some && entry.release_branch is None ==> row.behind == dated_lag(
                view_of(state->0.newest),
                state->0.scans@,
            ).0
            &&& state is Some && entry.release_branch is Some ==> row.behind == fixed_lag(
                entry.release_branch->0@,
                state->0.repo,
                state->0.scans@,
            ).0
        }),
{
}

/// Against a branch that moves a consumer's own notes are always told, and of its pins something only where
/// the consumer could be read without a problem.
pub proof fn lemma_notes_against_moving_branch(
    fixed: Seq<char>,
    repo: Option<RepoFacts>,
    consumer: (String, ConsumerScan),
)
    ensures
        ({
            let notes = fixed_notes(fixed, repo)(consumer);
            let own = consumer.1@.notes;
            &&& notes.len() >= own.len() && notes.take(own.len() as int) == own
            &&& consumer.1.problems@.len() > 0 ==> notes == own
            &&& consumer.1.problems@.len() == 0 ==> notes.skip(own.len() as int) == consumer.1.pins@.filter(
                on_scheme(),
            ).filter_map(fixed_pin_note(fixed, repo))
        }),
{
    let notes = fixed_notes(fixed, repo)(consumer);
    let own = consumer.1@.notes;
    assert(notes.take(own.len() as int) =~= own);
    let pins = consumer.1.pins@.filter(on_scheme()).filter_map(fixed_pin_note(fixed, repo));
    if consumer.1.problems@.len() == 0 {
        assert(notes.skip(own.len() as int) =~= pins);
    } else {
        assert(notes =~= own);
    }
}

/// Trusted mounts are listed under a heading of their own exactly if there are any, each with its path.
pub proof fn lemma_trusted_are_listed_apart(trusted: Seq<(Seq<char>, Seq<char>)>)
    ensures
        trusted.len() == 0 ==> trusted_text(trusted).len() == 0,
        trusted.len() > 0 ==> {
            &&& trusted_text(trusted).len() == trusted.len() + 1
            &&& trusted_text(trusted)[0] == "trusted (instructions read, not maintained):"@
            &&& forall|i: int|
                0 <= i < trusted.len() ==> trusted_text(trusted)[i + 1] == "  "@ + padded(
                    (#[trigger] trusted[i]).0,
                    widest(trusted_names(trusted)),
                ) + "  "@ + trusted[i].1
        },
{
}

/// A repository's line names its newest release or that there is none, and tells a remote for releases and a
/// lag exactly if there is one.
pub proof fn lemma_line_of_repository(repo: RepoView, width: nat)
    ensures
        ({
            let start = padded(repo.name, width) + "  "@ + repo.path;
            let bare = repo.release_remote is None && repo.behind is None;
            &&& bare && repo.newest_release is None ==> repo_line(repo, width) == start + "  newest=none"@
            &&& bare && repo.newest_release is Some ==> repo_line(repo, width) == start + "  newest="@
                + repo.newest_release->0
            &&& repo.release_remote is Some && repo.newest_release is Some && repo.behind is Some ==> repo_line(
                repo,
                width,
            ) == start + "  release-remote="@ + repo.release_remote->0 + ("  newest="@ + repo.newest_release->0) + (
            "  BEHIND: "@ + repo.behind->0)
            &&& repo.release_remote is None && repo.newest_release is Some && repo.behind is Some ==> repo_line(
                repo,
                width,
            ) == start + ("  newest="@ + repo.newest_release->0) + ("  BEHIND: "@ + repo.behind->0)
        }),
{
    reveal_strlit("");
    let start = padded(repo.name, width) + "  "@ + repo.path;
    assert(start + ""@ =~= start);
    if repo.newest_release is None {
        assert(start + ""@ + "  newest=none"@ + ""@ =~= start + "  newest=none"@);
    } else {
        let newest = "  newest="@ + repo.newest_release->0;
        assert(start + ""@ + newest + ""@ =~= start + "  newest="@ + repo.newest_release->0);
        if repo.release_remote is Some {
            assert(start + ("  release-remote="@ + repo.release_remote->0) =~= start + "  release-remote="@
                + repo.release_remote->0);
        }
    }
}

} // verus!
