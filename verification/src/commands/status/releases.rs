//! Which releases are looked at, and which of their parents their branches have moved off.

use vstd::prelude::*;
use vstd::string::*;

use crate::detect::stale_parents::{stale_parents, staleness, BookmarkTips, ReleaseParent};
use crate::detect::{Finding, FindingView, Subject, SubjectView};
use crate::ids::{our_release, short_text, BookmarkRef, BookmarkView, CommitId, ReleaseScheme};
use crate::order::{lex_less, lookup, OrdMap};
use crate::release_model::{
    bookmark_of, fixed_positions, lemma_newest, newest, newest_of, newest_position, newest_release, our_releases, positions_of,
    release_order, releases_of, tip_order, tip_view, tip_views,
};
use crate::seqs::{
    gathered, group_seqs, lemma_filter_has, lemma_filter_next, lemma_gathered_next, lemma_take_next, view_of, views,
};
use crate::text::{decimal, decimal_text, join, joined, ranks};

verus! {

/// Whether a tip is held on that side: locally, or on a remote.
pub open spec fn on_side(local: bool) -> spec_fn((BookmarkRef, CommitId)) -> bool {
    |tip: (BookmarkRef, CommitId)| (tip.0@ is Local) == local
}

/// Whether a tip is the newest of its side.
pub open spec fn newest_on_a_side(releases: Seq<(BookmarkRef, CommitId)>) -> spec_fn((BookmarkRef, CommitId)) -> bool {
    |tip: (BookmarkRef, CommitId)|
        bookmark_of(newest_of(releases.filter(on_side(true)))) == Some(tip.0@) || bookmark_of(
            newest_of(releases.filter(on_side(false))),
        ) == Some(tip.0@)
}

/// The releases that are looked at.
pub open spec fn scanned(
    tips: Seq<(BookmarkRef, CommitId)>,
    scheme: ReleaseScheme,
    publish_remote: Seq<char>,
) -> Seq<(BookmarkView, Seq<char>)> {
    match scheme {
        ReleaseScheme::Dated => {
            let all = tips.filter(releases_of(scheme, publish_remote));
            tip_views(all.filter(newest_on_a_side(all)))
        },
        ReleaseScheme::Fixed(branch) => fixed_positions(tips, branch@, publish_remote),
    }
}

/// How many releases are not looked at.
pub open spec fn skipped(
    tips: Seq<(BookmarkRef, CommitId)>,
    scheme: ReleaseScheme,
    publish_remote: Seq<char>,
) -> int {
    match scheme {
        ReleaseScheme::Dated => tips.filter(releases_of(scheme, publish_remote)).len() - scanned(
            tips,
            scheme,
            publish_remote,
        ).len(),
        ReleaseScheme::Fixed(_) => 0,
    }
}

/// The newest dated release of each side is always looked at, and every release that is not looked at
/// is counted.
pub proof fn lemma_newest_is_scanned(tips: Seq<(BookmarkRef, CommitId)>, publish_remote: Seq<char>, local: bool)
    ensures
        ({
            let all = tips.filter(releases_of(ReleaseScheme::Dated, publish_remote));
            let chosen = scanned(tips, ReleaseScheme::Dated, publish_remote);
            let side = all.filter(on_side(local));
            &&& side.len() > 0 ==> chosen.contains(tip_view(newest_of(side)->0))
            &&& chosen.len() + skipped(tips, ReleaseScheme::Dated, publish_remote) == all.len()
        }),
{
    let all = tips.filter(releases_of(ReleaseScheme::Dated, publish_remote));
    let side = all.filter(on_side(local));
    if side.len() > 0 {
        lemma_newest(side);
        let best = newest_of(side)->0;
        let chosen = all.filter(newest_on_a_side(all));
        all.lemma_filter_contains_rev(on_side(local), best);
        let k = choose|i: int| 0 <= i < all.len() && all[i] == best;
        all.lemma_filter_contains(newest_on_a_side(all), k);
        let m = choose|i: int| 0 <= i < chosen.len() && chosen[i] == best;
        assert(tip_views(chosen)[m] == tip_view(best));
    }
}

fn on_one_side(releases: &Vec<(BookmarkRef, CommitId)>, local: bool) -> (side: Vec<(BookmarkRef, CommitId)>)
    ensures
        side@ == releases@.filter(on_side(local)),
{
    broadcast use group_seqs;

    let mut side: Vec<(BookmarkRef, CommitId)> = Vec::new();
    let mut i: usize = 0;
    while i < releases.len()
        invariant
            i <= releases@.len(),
            side@ == releases@.take(i as int).filter(on_side(local)),
        decreases releases@.len() - i,
    {
        proof {
            lemma_filter_next(releases@, on_side(local), i as int);
        }
        if releases[i].0.is_local() == local {
            let tip = (releases[i].0.clone(), releases[i].1.clone());
            assert(tip == releases@[i as int]);
            side.push(tip);
        }
        i += 1;
    }
    side
}

fn is_newest(side: &Vec<(BookmarkRef, CommitId)>, at: Option<usize>, tip: &BookmarkRef) -> (r: bool)
    requires
        match at {
            Some(at) => at < side@.len() && newest_of(side@) == Some(side@[at as int]),
            None => newest_of(side@) is None,
        },
    ensures
        r == (bookmark_of(newest_of(side@)) == Some(tip@)),
{
    match at {
        Some(at) => tip.same(&side[at].0),
        None => false,
    }
}

/// Which releases are worth checking for stale parents, and how many are not.
///
/// Not all of them. A fork accumulates every dated release it ever cut, and those are frozen
/// history: reporting stale parents on an old release is noise that buries the one finding that
/// matters. So only the newest cut on each side is looked at: the newest local one, because it can
/// be cut again, and the newest remote one, because that is what a consumer is plausibly pinning.
/// What was skipped is counted rather than silently dropped. A branch that moves has no accumulated
/// history: exactly its local and its published position are looked at.
pub fn releases_to_scan(
    tips: &BookmarkTips,
    scheme: &ReleaseScheme,
    publish_remote: &str,
) -> (found: (Vec<(BookmarkRef, CommitId)>, usize))
    ensures
        tip_views(found.0@) == scanned(tips@, *scheme, publish_remote@),
        found.1 == skipped(tips@, *scheme, publish_remote@),
{
    broadcast use group_seqs;

    match scheme {
        ReleaseScheme::Dated => {
            let all = our_releases(tips, scheme, publish_remote);
            let near = on_one_side(&all, true);
            let far = on_one_side(&all, false);
            let newest_local = newest(&near);
            let newest_remote = newest(&far);
            let mut chosen: Vec<(BookmarkRef, CommitId)> = Vec::new();
            let mut i: usize = 0;
            while i < all.len()
                invariant
                    i <= all@.len(),
                    near@ == all@.filter(on_side(true)),
                    far@ == all@.filter(on_side(false)),
                    match newest_local {
                        Some(at) => at < near@.len() && newest_of(near@) == Some(near@[at as int]),
                        None => newest_of(near@) is None,
                    },
                    match newest_remote {
                        Some(at) => at < far@.len() && newest_of(far@) == Some(far@[at as int]),
                        None => newest_of(far@) is None,
                    },
                    chosen@ == all@.take(i as int).filter(newest_on_a_side(all@)),
                    chosen@.len() <= i,
                decreases all@.len() - i,
            {
                proof {
                    lemma_filter_next(all@, newest_on_a_side(all@), i as int);
                }
                if is_newest(&near, newest_local, &all[i].0) || is_newest(&far, newest_remote, &all[i].0) {
                    let tip = (all[i].0.clone(), all[i].1.clone());
                    assert(tip == all@[i as int]);
                    chosen.push(tip);
                }
                i += 1;
            }
            let left = all.len() - chosen.len();
            (chosen, left)
        },
        ReleaseScheme::Fixed(branch) => (positions_of(tips, branch, publish_remote), 0),
    }
}

/// Where the work of a release parent is now: each branch that continues it, with its tip.
pub type Successors = OrdMap<CommitId, Vec<(String, CommitId)>>;

/// The branches that continue a parent.
pub open spec fn continued_by(
    successors: Seq<(CommitId, Vec<(String, CommitId)>)>,
    parent: Seq<char>,
) -> Seq<(String, CommitId)> {
    match lookup(successors, ranks(parent)) {
        Some(list) => list@,
        None => Seq::empty(),
    }
}

/// Where a branch is now, and what moves the member, in words.
pub open spec fn moved_text(branch: (String, CommitId)) -> Seq<char> {
    branch.0@ + " is now "@ + short_text(branch.1@) + "; `knives release advance "@ + branch.0@
        + "` moves the member"@
}

/// Where several branches are now, in words.
pub open spec fn moved_texts(branches: Seq<(String, CommitId)>) -> Seq<Seq<char>> {
    Seq::new(branches.len(), |i: int| moved_text(branches[i]))
}

/// A finding about a stale parent that says where its branch went, where that is known.
pub open spec fn located(successors: Seq<(CommitId, Vec<(String, CommitId)>)>) -> spec_fn(FindingView) -> FindingView {
    |finding: FindingView|
        match finding.subject {
            SubjectView::Commit(parent) => {
                let moved = continued_by(successors, parent);
                if moved.len() == 0 {
                    finding
                } else {
                    FindingView {
                        detail: "parent "@ + short_text(parent) + " is no longer the tip of its branch ("@
                            + joined(moved_texts(moved), ", "@) + ")"@,
                        ..finding
                    }
                }
            },
            _ => finding,
        }
}

fn moved_lines(branches: &Vec<(String, CommitId)>) -> (lines: Vec<String>)
    ensures
        views(lines@) == moved_texts(branches@),
{
    broadcast use group_seqs;

    let mut lines: Vec<String> = Vec::new();
    let ghost all = moved_texts(branches@);
    let mut i: usize = 0;
    while i < branches.len()
        invariant
            i <= branches@.len(),
            all == moved_texts(branches@),
            views(lines@) == all.take(i as int),
        decreases branches@.len() - i,
    {
        proof {
            lemma_take_next(all, i as int);
        }
        let mut line = branches[i].0.clone();
        line.append(" is now ");
        line.append(branches[i].1.short().as_str());
        line.append("; `knives release advance ");
        line.append(branches[i].0.as_str());
        line.append("` moves the member");
        lines.push(line);
        i += 1;
    }
    lines
}

fn locate(finding: &Finding, successors: &Successors) -> (out: Finding)
    ensures
        out@ == located(successors@)(finding@),
{
    if let Subject::Commit(parent) = &finding.subject {
        if let Some(moved) = successors.get(parent) {
            if moved.len() > 0 {
                let mut detail = "parent ".to_owned();
                detail.append(parent.short().as_str());
                detail.append(" is no longer the tip of its branch (");
                detail.append(join(&moved_lines(moved), ", ").as_str());
                detail.append(")");
                return Finding::new(finding.kind, finding.subject.clone(), detail);
            }
        }
    }
    finding.clone()
}

/// The parents of a release commit.
pub open spec fn parents_of(
    parents: Seq<(CommitId, Vec<ReleaseParent>)>,
    release: Seq<char>,
) -> Seq<ReleaseParent> {
    match lookup(parents, ranks(release)) {
        Some(list) => list@,
        None => Seq::empty(),
    }
}

/// What is found of the parents of one release.
pub open spec fn release_findings(
    parents: Seq<(CommitId, Vec<ReleaseParent>)>,
    tips: Seq<(BookmarkRef, CommitId)>,
    successors: Seq<(CommitId, Vec<(String, CommitId)>)>,
) -> spec_fn((BookmarkView, Seq<char>)) -> Seq<FindingView> {
    |release: (BookmarkView, Seq<char>)|
        gathered(views(parents_of(parents, release.1)), staleness(tips)).map_values(located(successors))
}

/// How releases are written.
pub open spec fn release_names(releases: Seq<(BookmarkView, Seq<char>)>) -> Seq<Seq<char>> {
    Seq::new(releases.len(), |i: int| releases[i].0.text())
}

fn one_release(
    commit: &CommitId,
    parents: &OrdMap<CommitId, Vec<ReleaseParent>>,
    tips: &BookmarkTips,
    successors: &Successors,
) -> (findings: Vec<Finding>)
    ensures
        views(findings@) == gathered(views(parents_of(parents@, commit@)), staleness(tips@)).map_values(
            located(successors@),
        ),
{
    broadcast use group_seqs;

    let nothing: Vec<ReleaseParent> = Vec::new();
    let list = match parents.get(commit) {
        Some(list) => list,
        None => &nothing,
    };
    assert(list@ =~= parents_of(parents@, commit@));
    let stale = stale_parents(list, tips);
    let ghost found = views(stale@);
    let ghost all = found.map_values(located(successors@));
    let mut findings: Vec<Finding> = Vec::new();
    let mut i: usize = 0;
    while i < stale.len()
        invariant
            i <= stale@.len(),
            found == views(stale@),
            all == found.map_values(located(successors@)),
            views(findings@) == all.take(i as int),
        decreases stale@.len() - i,
    {
        proof {
            lemma_take_next(all, i as int);
            assert(found[i as int] == stale@[i as int]@);
        }
        findings.push(locate(&stale[i], successors));
        i += 1;
    }
    findings
}

/// The names of the releases, and what is found of their parents. A parent whose branch is known to
/// continue elsewhere says where it went, and what moves the member.
pub fn scan_releases(
    releases: &Vec<(BookmarkRef, CommitId)>,
    parents: &OrdMap<CommitId, Vec<ReleaseParent>>,
    tips: &BookmarkTips,
    successors: &Successors,
) -> (found: (Vec<String>, Vec<Finding>))
    ensures
        views(found.0@) == release_names(tip_views(releases@)),
        views(found.1@) == gathered(tip_views(releases@), release_findings(parents@, tips@, successors@)),
{
    broadcast use group_seqs;

    let mut names: Vec<String> = Vec::new();
    let mut findings: Vec<Finding> = Vec::new();
    let ghost all = tip_views(releases@);
    let ghost written = release_names(all);
    let ghost found = release_findings(parents@, tips@, successors@);
    let mut i: usize = 0;
    while i < releases.len()
        invariant
            i <= releases@.len(),
            all == tip_views(releases@),
            written == release_names(all),
            found == release_findings(parents@, tips@, successors@),
            views(names@) == written.take(i as int),
            views(findings@) == gathered(all.take(i as int), found),
        decreases releases@.len() - i,
    {
        proof {
            lemma_take_next(written, i as int);
            lemma_gathered_next(all, found, i as int);
            assert(all[i as int] == tip_view(releases@[i as int]));
        }
        names.push(releases[i].0.to_text());
        let mut more = one_release(&releases[i].1, parents, tips, successors);
        findings.append(&mut more);
        i += 1;
    }
    (names, findings)
}

/// What a report says of the releases.
#[derive(Debug)]
pub struct ReleaseReport {
    pub newest_release: Option<String>,
    pub releases: Vec<String>,
    pub findings: Vec<Finding>,
    pub notes: Vec<String>,
}

/// What the report says of the newest release, in words.
pub open spec fn newest_text(
    tips: Seq<(BookmarkRef, CommitId)>,
    scheme: ReleaseScheme,
    publish_remote: Seq<char>,
) -> Option<Seq<char>> {
    match newest_position(tips, scheme, publish_remote) {
        Some(release) => Some(release.0.text()),
        None => None,
    }
}

/// The note about releases that were not looked at.
pub open spec fn skipped_note(count: int) -> Seq<Seq<char>> {
    if count > 0 {
        seq![decimal_text(count as nat) + " superseded release(s) not scanned"@]
    } else {
        Seq::empty()
    }
}

/// What a report says of the releases: the newest one, those that were looked at, what is found of
/// their parents followed by what is found of names cut twice, and what was skipped.
pub fn add_releases(
    tips: &BookmarkTips,
    scheme: &ReleaseScheme,
    publish_remote: &str,
    parents: &OrdMap<CommitId, Vec<ReleaseParent>>,
    successors: &Successors,
    double_cuts: Vec<Finding>,
    double_cut_notes: Vec<String>,
) -> (report: ReleaseReport)
    ensures
        view_of(report.newest_release) == newest_text(tips@, *scheme, publish_remote@),
        views(report.releases@) == release_names(scanned(tips@, *scheme, publish_remote@)),
        views(report.findings@) == gathered(
            scanned(tips@, *scheme, publish_remote@),
            release_findings(parents@, tips@, successors@),
        ) + views(double_cuts@),
        views(report.notes@) == views(double_cut_notes@) + skipped_note(
            skipped(tips@, *scheme, publish_remote@),
        ),
{
    broadcast use group_seqs;

    let newest_release = match newest_release(tips, scheme, publish_remote) {
        Some((reference, _)) => Some(reference.to_text()),
        None => None,
    };
    let (releases, left) = releases_to_scan(tips, scheme, publish_remote);
    let (names, mut findings) = scan_releases(&releases, parents, tips, successors);
    let mut double_cuts = double_cuts;
    findings.append(&mut double_cuts);
    let mut notes = double_cut_notes;
    let ghost before = notes@;
    if left > 0 {
        let mut note = decimal(left as u64);
        note.append(" superseded release(s) not scanned");
        notes.push(note);
    }
    assert(views(notes@) =~= views(before) + skipped_note(left as int));
    ReleaseReport { newest_release, releases: names, findings, notes }
}

/// Which dated releases are scanned: a release of ours that is the newest local one or the newest remote
/// one, and no other. A fixed release is scanned where it stands.
pub proof fn lemma_scanned_releases(
    tips: Seq<(BookmarkRef, CommitId)>,
    publish_remote: Seq<char>,
    position: (BookmarkView, Seq<char>),
)
    ensures
        scanned(tips, ReleaseScheme::Dated, publish_remote).contains(position) ==> exists|i: int|
            0 <= i < tips.len() && tip_view(#[trigger] tips[i]) == position && our_release(
                tips[i].0@,
                ReleaseScheme::Dated,
                publish_remote,
            ) && forall|j: int|
                0 <= j < tips.len() && our_release((#[trigger] tips[j]).0@, ReleaseScheme::Dated, publish_remote) && (
                tips[j].0@ is Local) == (tips[i].0@ is Local) ==> !lex_less(
                    release_order(tips[i].0@.branch()),
                    release_order(tips[j].0@.branch()),
                ),
{
    let keep = releases_of(ReleaseScheme::Dated, publish_remote);
    let all = tips.filter(keep);
    let chosen = all.filter(newest_on_a_side(all));
    let shown = tip_views(chosen);
    if shown.contains(position) {
        let k = choose|k: int| 0 <= k < shown.len() && shown[k] == position;
        let tip = chosen[k];
        assert(chosen.contains(tip));
        lemma_filter_has(all, newest_on_a_side(all), tip);
        lemma_filter_has(tips, keep, tip);
        let local = tip.0@ is Local;
        let i = choose|i: int| 0 <= i < tips.len() && tips[i] == tip;
        assert(tip_view(tips[i]) == position);
        lemma_side_newest(all, true);
        lemma_side_newest(all, false);
        let side = all.filter(on_side(local));
        assert forall|j: int|
            0 <= j < tips.len() && our_release((#[trigger] tips[j]).0@, ReleaseScheme::Dated, publish_remote) && (
            tips[j].0@ is Local) == local implies !lex_less(
            release_order(tips[i].0@.branch()),
            release_order(tips[j].0@.branch()),
        ) by {
            tips.lemma_filter_contains(keep, j);
            lemma_filter_has(all, on_side(local), tips[j]);
            let m = choose|m: int| 0 <= m < side.len() && side[m] == tips[j];
            lemma_newest(side);
            let best = newest_of(side)->0;
            assert(!lex_less(tip_order(best), tip_order(side[m])));
            assert(best.0@ == tip.0@);
        }
    }
}

proof fn lemma_side_newest(all: Seq<(BookmarkRef, CommitId)>, local: bool)
    ensures
        newest_of(all.filter(on_side(local))) matches Some(best) ==> (best.0@ is Local) == local,
{
    let side = all.filter(on_side(local));
    if side.len() > 0 {
        lemma_newest(side);
        lemma_filter_has(all, on_side(local), newest_of(side)->0);
    }
}

/// A finding on a parent tells where its branch went exactly if some branch is known to continue it; its
/// kind and its subject stay, and a finding on anything else stays as it is.
pub proof fn lemma_located_finding(
    successors: Seq<(CommitId, Vec<(String, CommitId)>)>,
    finding: FindingView,
    parent: Seq<char>,
)
    ensures
        located(successors)(finding).kind == finding.kind,
        located(successors)(finding).subject == finding.subject,
        !(finding.subject is Commit) ==> located(successors)(finding) == finding,
        finding.subject == SubjectView::Commit(parent) && (lookup(successors, ranks(parent)) is None || lookup(
            successors,
            ranks(parent),
        )->0@.len() == 0) ==> located(successors)(finding) == finding,
        finding.subject == SubjectView::Commit(parent) && lookup(successors, ranks(parent)) is Some && lookup(
            successors,
            ranks(parent),
        )->0@.len() > 0 ==> located(successors)(finding).detail == "parent "@ + short_text(parent)
            + " is no longer the tip of its branch ("@ + joined(
            moved_texts(lookup(successors, ranks(parent))->0@),
            ", "@,
        ) + ")"@,
{
}

/// What was not scanned is noted with its number, and nothing is noted where everything was.
pub proof fn lemma_skipped_is_noted(count: nat)
    ensures
        count == 0 ==> skipped_note(count as int).len() == 0,
        count > 0 ==> skipped_note(count as int) == seq![decimal_text(count) + " superseded release(s) not scanned"@],
{
}

} // verus!
