//! Which releases there are, which of them is the newest, and which branches a release may carry.

use vstd::prelude::*;
use vstd::string::*;

use crate::detect::stale_parents::BookmarkTips;
use crate::ids::{
    bookmark_rank, dated_release, is_our_release, is_release_name, our_release, release_name, strict_dated_release,
    BookmarkRef, BookmarkView, BranchName, CommitId, ReleaseScheme, RemoteName,
};
use crate::order::{
    lemma_lex_asymmetric, lemma_lex_irreflexive, lemma_lex_total, lemma_lex_transitive, lex_less, lookup, Ordered,
};
use crate::ledger::{Entry, Kind};
use crate::seqs::{group_seqs, lemma_filter_has, lemma_filter_next, view_of, views};
use crate::text::{begins_with, ranks, same, starts_with, text_precedes};

verus! {

/// How release names are ordered: those that are no dated cut first, by their text; dated cuts by
/// day, and on one day the plain name before the numbered ones.
pub open spec fn release_order(name: Seq<char>) -> Seq<int> {
    match dated_release(name) {
        Some(cut) => seq![1int] + cut.rank(),
        None => seq![0int] + ranks(name),
    }
}

/// Whether the release `a` is older than the release `b`.
pub fn release_precedes(a: &str, b: &str) -> (r: bool)
    ensures
        r == lex_less(release_order(a@), release_order(b@)),
{
    match (strict_dated_release(a), strict_dated_release(b)) {
        (Some(x), Some(y)) => {
            proof {
                assert(release_order(a@).drop_first() =~= x.rank());
                assert(release_order(b@).drop_first() =~= y.rank());
            }
            x.precedes(&y)
        },
        (Some(_), None) => false,
        (None, Some(_)) => true,
        (None, None) => {
            proof {
                assert(release_order(a@).drop_first() =~= ranks(a@));
                assert(release_order(b@).drop_first() =~= ranks(b@));
            }
            text_precedes(a, b)
        },
    }
}

/// The order of the release that a tip belongs to.
pub open spec fn tip_order(tip: (BookmarkRef, CommitId)) -> Seq<int> {
    release_order(tip.0@.branch())
}

/// The newest of several tips; of equally new ones the last.
pub open spec fn newest_of(tips: Seq<(BookmarkRef, CommitId)>) -> Option<(BookmarkRef, CommitId)>
    decreases tips.len(),
{
    if tips.len() == 0 {
        None
    } else {
        match newest_of(tips.drop_last()) {
            None => Some(tips.last()),
            Some(best) => if lex_less(tip_order(tips.last()), tip_order(best)) {
                Some(best)
            } else {
                Some(tips.last())
            },
        }
    }
}

/// The newest of several tips is one of them, and none of them is newer.
pub proof fn lemma_newest(tips: Seq<(BookmarkRef, CommitId)>)
    requires
        tips.len() > 0,
    ensures
        newest_of(tips) is Some,
        tips.contains(newest_of(tips)->0),
        forall|i: int|
            0 <= i < tips.len() ==> !lex_less(tip_order(newest_of(tips)->0), tip_order(#[trigger] tips[i])),
    decreases tips.len(),
{
    let last = tips.last();
    let rest = tips.drop_last();
    assert(tips[tips.len() - 1] == last);
    lemma_lex_irreflexive(tip_order(last));
    if rest.len() > 0 {
        lemma_newest(rest);
        let best = newest_of(rest)->0;
        let at = choose|i: int| 0 <= i < rest.len() && rest[i] == best;
        assert(tips[at] == best);
        assert forall|i: int| 0 <= i < tips.len() implies !lex_less(
            tip_order(newest_of(tips)->0),
            tip_order(#[trigger] tips[i]),
        ) by {
            if i < rest.len() {
                assert(rest[i] == tips[i]);
                if !lex_less(tip_order(last), tip_order(best)) && lex_less(tip_order(last), tip_order(tips[i])) {
                    lemma_lex_total(tip_order(best), tip_order(last));
                    if lex_less(tip_order(best), tip_order(last)) {
                        lemma_lex_transitive(tip_order(best), tip_order(last), tip_order(tips[i]));
                    }
                }
            } else if lex_less(tip_order(last), tip_order(best)) {
                lemma_lex_asymmetric(tip_order(last), tip_order(best));
            }
        }
    }
}

/// Which of the tips of `tips` is a release of ours.
pub open spec fn releases_of(scheme: ReleaseScheme, publish_remote: Seq<char>) -> spec_fn(
    (BookmarkRef, CommitId),
) -> bool {
    |tip: (BookmarkRef, CommitId)| our_release(tip.0@, scheme, publish_remote)
}

/// The tips that are releases of ours, as they are listed.
pub fn our_releases(
    tips: &BookmarkTips,
    scheme: &ReleaseScheme,
    publish_remote: &str,
) -> (releases: Vec<(BookmarkRef, CommitId)>)
    ensures
        releases@ == tips@.filter(releases_of(*scheme, publish_remote@)),
{
    broadcast use group_seqs;

    let mut releases: Vec<(BookmarkRef, CommitId)> = Vec::new();
    let mut i: usize = 0;
    while i < tips.len()
        invariant
            i <= tips@.len(),
            releases@ == tips@.take(i as int).filter(releases_of(*scheme, publish_remote@)),
        decreases tips@.len() - i,
    {
        proof {
            lemma_filter_next(tips@, releases_of(*scheme, publish_remote@), i as int);
        }
        if is_our_release(tips.key(i), scheme, publish_remote) {
            let release = (tips.key(i).clone(), tips.value(i).clone());
            assert(release == tips@[i as int]);
            releases.push(release);
        }
        i += 1;
    }
    releases
}

/// The newest of several tips.
pub fn newest(tips: &Vec<(BookmarkRef, CommitId)>) -> (at: Option<usize>)
    ensures
        match at {
            Some(at) => at < tips@.len() && newest_of(tips@) == Some(tips@[at as int]),
            None => newest_of(tips@) is None,
        },
{
    broadcast use group_seqs;

    let mut at: Option<usize> = None;
    let mut i: usize = 0;
    while i < tips.len()
        invariant
            i <= tips@.len(),
            match at {
                Some(at) => at < i && newest_of(tips@.take(i as int)) == Some(tips@[at as int]),
                None => i == 0 && newest_of(tips@.take(i as int)) is None,
            },
        decreases tips@.len() - i,
    {
        assert(tips@.take(i + 1).drop_last() =~= tips@.take(i as int));
        let older = match at {
            Some(best) => release_precedes(tips[i].0.branch().as_str(), tips[best].0.branch().as_str()),
            None => false,
        };
        if !older {
            at = Some(i);
        }
        i += 1;
    }
    at
}

/// What a tip is, without the strings that hold it.
pub open spec fn tip_view(tip: (BookmarkRef, CommitId)) -> (BookmarkView, Seq<char>) {
    (tip.0@, tip.1@)
}

/// The bookmark of a tip.
pub open spec fn bookmark_of(tip: Option<(BookmarkRef, CommitId)>) -> Option<BookmarkView> {
    match tip {
        Some(tip) => Some(tip.0@),
        None => None,
    }
}

/// The local and the published position of a branch that moves, as far as they are known.
pub open spec fn fixed_positions(
    tips: Seq<(BookmarkRef, CommitId)>,
    branch: Seq<char>,
    publish_remote: Seq<char>,
) -> Seq<(BookmarkView, Seq<char>)> {
    let local = BookmarkView::Local(branch);
    let published = BookmarkView::Remote { branch, remote: publish_remote };
    (match lookup(tips, bookmark_rank(local)) {
        Some(commit) => seq![(local, commit@)],
        None => Seq::empty(),
    }) + (match lookup(tips, bookmark_rank(published)) {
        Some(commit) => seq![(published, commit@)],
        None => Seq::empty(),
    })
}

/// What several tips are.
pub open spec fn tip_views(tips: Seq<(BookmarkRef, CommitId)>) -> Seq<(BookmarkView, Seq<char>)> {
    Seq::new(tips.len(), |i: int| tip_view(tips[i]))
}

/// The local and the published position of a branch that moves, as far as they are known.
pub fn positions_of(
    tips: &BookmarkTips,
    branch: &BranchName,
    publish_remote: &str,
) -> (found: Vec<(BookmarkRef, CommitId)>)
    ensures
        tip_views(found@) == fixed_positions(tips@, branch@, publish_remote@),
{
    let mut found: Vec<(BookmarkRef, CommitId)> = Vec::new();
    let local = BookmarkRef::Local(branch.clone());
    let published = BookmarkRef::Remote { branch: branch.clone(), remote: RemoteName::new(publish_remote) };
    assert(local@ == BookmarkView::Local(branch@));
    assert(published@ == (BookmarkView::Remote { branch: branch@, remote: publish_remote@ }));
    if let Some(commit) = tips.get(&local) {
        found.push((local, commit.clone()));
    }
    if let Some(commit) = tips.get(&published) {
        found.push((published, commit.clone()));
    }
    assert(tip_views(found@) =~= fixed_positions(tips@, branch@, publish_remote@));
    found
}

/// The release a repository stands at: the newest dated cut on any side that may speak for us, or
/// the moving branch, locally where it is there and else where it is published.
pub open spec fn newest_position(
    tips: Seq<(BookmarkRef, CommitId)>,
    scheme: ReleaseScheme,
    publish_remote: Seq<char>,
) -> Option<(BookmarkView, Seq<char>)> {
    match scheme {
        ReleaseScheme::Dated => match newest_of(tips.filter(releases_of(scheme, publish_remote))) {
            Some(tip) => Some(tip_view(tip)),
            None => None,
        },
        ReleaseScheme::Fixed(branch) => {
            let found = fixed_positions(tips, branch@, publish_remote);
            if found.len() > 0 {
                Some(found[0])
            } else {
                None
            }
        },
    }
}

/// The release a repository stands at.
///
/// A moving branch is read only locally and where it is published: treating every remote as
/// interchangeable would report a position that was never published as the newest.
pub fn newest_release(
    tips: &BookmarkTips,
    scheme: &ReleaseScheme,
    publish_remote: &str,
) -> (release: Option<(BookmarkRef, CommitId)>)
    ensures
        match release {
            Some(tip) => newest_position(tips@, *scheme, publish_remote@) == Some(tip_view(tip)),
            None => newest_position(tips@, *scheme, publish_remote@) is None,
        },
{
    match scheme {
        ReleaseScheme::Dated => {
            let releases = our_releases(tips, scheme, publish_remote);
            match newest(&releases) {
                Some(at) => Some((releases[at].0.clone(), releases[at].1.clone())),
                None => None,
            }
        },
        ReleaseScheme::Fixed(branch) => {
            let found = positions_of(tips, branch, publish_remote);
            assert(tip_views(found@).len() == found@.len());
            if found.len() > 0 {
                assert(tip_views(found@)[0] == tip_view(found@[0]));
                Some((found[0].0.clone(), found[0].1.clone()))
            } else {
                None
            }
        },
    }
}

/// The branch of a tip that a release may carry.
pub open spec fn carried(trunk: Seq<char>, scheme: ReleaseScheme) -> spec_fn((BookmarkRef, CommitId)) -> Option<
    (String, CommitId),
> {
    |tip: (BookmarkRef, CommitId)|
        match tip.0 {
            BookmarkRef::Local(branch) => if !release_name(branch@, scheme) && branch@ != trunk {
                Some((branch.text, tip.1))
            } else {
                None
            },
            BookmarkRef::Remote { .. } => None,
        }
}

/// The branches a release may carry: local ones that are neither a release cut nor the trunk.
pub fn carried_from_tips(tips: &BookmarkTips, trunk: &str, scheme: &ReleaseScheme) -> (branches: Vec<(String, CommitId)>)
    ensures
        branches@ == tips@.filter_map(carried(trunk@, *scheme)),
{
    broadcast use group_seqs;

    let mut branches: Vec<(String, CommitId)> = Vec::new();
    let mut i: usize = 0;
    while i < tips.len()
        invariant
            i <= tips@.len(),
            branches@ == tips@.take(i as int).filter_map(carried(trunk@, *scheme)),
        decreases tips@.len() - i,
    {
        proof {
            tips@.lemma_filter_map_take_succ(carried(trunk@, *scheme), i as int);
        }
        if let BookmarkRef::Local(branch) = tips.key(i) {
            if !is_release_name(branch, scheme) && !same(branch.as_str(), trunk) {
                branches.push((branch.text.clone(), tips.value(i).clone()));
            }
        }
        assert(branches@ =~= tips@.take(i + 1).filter_map(carried(trunk@, *scheme)));
        i += 1;
    }
    branches
}

/// The composition that a cut recorded: the commit it made, and its members.
#[derive(Debug, PartialEq, Eq)]
pub struct RecordedCut {
    pub commit: CommitId,
    pub members: Vec<CommitId>,
}

impl View for RecordedCut {
    type V = (Seq<char>, Seq<Seq<char>>);

    open spec fn view(&self) -> (Seq<char>, Seq<Seq<char>>) {
        (self.commit@, views(self.members@))
    }
}

/// Whether an entry records the composition of a cut: an event that says so, with the commit it made
/// and at least one member as evidence.
pub open spec fn records_cut(entry: Entry, release: Option<Seq<char>>) -> bool {
    &&& entry.kind == Kind::Event
    &&& begins_with(entry.text@, "cut "@)
    &&& entry.evidence@.len() >= 2
    &&& release is Some ==> view_of(entry.subject) == release
}

/// The composition that the newest such entry records.
pub open spec fn last_recorded(entries: Seq<Entry>, release: Option<Seq<char>>) -> Option<(Seq<char>, Seq<Seq<char>>)>
    decreases entries.len(),
{
    if entries.len() == 0 {
        None
    } else if records_cut(entries.last(), release) {
        let evidence = views(entries.last().evidence@);
        Some((evidence[0], evidence.skip(1)))
    } else {
        last_recorded(entries.drop_last(), release)
    }
}

/// The composition that the newest cut event records, of one release where it is asked for.
///
/// A cut always records what it made and its members; anything thinner cannot say what the previous
/// composition was and must not pretend to.
pub fn last_recorded_cut(entries: &[Entry], release: Option<&str>) -> (recorded: Option<RecordedCut>)
    ensures
        view_of(recorded) == last_recorded(entries@, view_of(release)),
{
    let mut i: usize = entries.len();
    assert(entries@.take(i as int) =~= entries@);
    while i > 0
        invariant
            i <= entries@.len(),
            last_recorded(entries@, view_of(release)) == last_recorded(entries@.take(i as int), view_of(release)),
        decreases i,
    {
        let entry = &entries[i - 1];
        proof {
            assert(entries@.take(i as int).drop_last() =~= entries@.take(i - 1));
            assert(entries@.take(i as int).last() == *entry);
        }
        let about = match release {
            Some(name) => match &entry.subject {
                Some(subject) => same(subject.as_str(), name),
                None => false,
            },
            None => true,
        };
        if entry.kind == Kind::Event && starts_with(entry.text.as_str(), "cut ") && entry.evidence.len() >= 2 && about {
            let commit = CommitId::new(entry.evidence[0].as_str());
            let ghost all = views(entry.evidence@).skip(1);
            let mut members: Vec<CommitId> = Vec::new();
            let mut k: usize = 1;
            assert(views(members@) =~= all.take(0));
            while k < entry.evidence.len()
                invariant
                    1 <= k <= entry.evidence@.len(),
                    all == views(entry.evidence@).skip(1),
                    views(members@) == all.take(k - 1),
                decreases entry.evidence@.len() - k,
            {
                let member = CommitId::new(entry.evidence[k].as_str());
                assert(all[k - 1] == member@);
                let ghost earlier = members@;
                members.push(member);
                assert(views(members@) =~= views(earlier).push(member@));
                assert(views(members@) =~= all.take(k as int));
                k += 1;
            }
            assert(all.take(k - 1) =~= all);
            return Some(RecordedCut { commit, members });
        }
        i -= 1;
    }
    None
}

/// What ties a branch to a parent of a release.
#[derive(Debug, Clone, Copy, PartialEq, Eq, Structural)]
pub enum MemberEvidence {
    /// The branch descends from the parent.
    Succession,
    /// The ledger recorded the parent as the branch's.
    Record,
    /// The ledger recorded it, and the parent has since landed upstream.
    LandedRecord,
}

/// The newest position of a fixed release is where its branch stands locally, else where it stands on the
/// remote it is published to; no other remote counts.
pub proof fn lemma_fixed_position(tips: Seq<(BookmarkRef, CommitId)>, branch: BranchName, publish_remote: Seq<char>)
    ensures
        ({
            let local = lookup(tips, bookmark_rank(BookmarkView::Local(branch@)));
            let published = lookup(
                tips,
                bookmark_rank((BookmarkView::Remote { branch: branch@, remote: publish_remote })),
            );
            let newest = newest_position(tips, ReleaseScheme::Fixed(branch), publish_remote);
            &&& local is Some ==> newest == Some((BookmarkView::Local(branch@), local->0@))
            &&& local is None && published is Some ==> newest == Some(
                ((BookmarkView::Remote { branch: branch@, remote: publish_remote }), published->0@),
            )
            &&& local is None && published is None ==> newest is None
        }),
{
}

/// The newest position of a dated release is a reference of ours whose cut no other one of ours comes
/// after; there is one exactly if there is a release of ours.
pub proof fn lemma_dated_position(tips: Seq<(BookmarkRef, CommitId)>, publish_remote: Seq<char>)
    ensures
        newest_position(tips, ReleaseScheme::Dated, publish_remote) is Some <==> exists|i: int|
            0 <= i < tips.len() && our_release((#[trigger] tips[i]).0@, ReleaseScheme::Dated, publish_remote),
        newest_position(tips, ReleaseScheme::Dated, publish_remote) matches Some(newest) ==> {
            &&& exists|i: int|
                0 <= i < tips.len() && (#[trigger] tips[i]).0@ == newest.0 && tips[i].1@ == newest.1 && our_release(
                    tips[i].0@,
                    ReleaseScheme::Dated,
                    publish_remote,
                )
            &&& forall|i: int|
                0 <= i < tips.len() && our_release((#[trigger] tips[i]).0@, ReleaseScheme::Dated, publish_remote)
                    ==> !lex_less(release_order(newest.0.branch()), release_order(tips[i].0@.branch()))
        },
{
    let keep = releases_of(ReleaseScheme::Dated, publish_remote);
    let ours = tips.filter(keep);
    assert forall|i: int|
        0 <= i < tips.len() && our_release((#[trigger] tips[i]).0@, ReleaseScheme::Dated, publish_remote) implies ours.contains(
        tips[i],
    ) by {
        tips.lemma_filter_contains(keep, i);
    }
    if ours.len() > 0 {
        lemma_newest(ours);
        let best = newest_of(ours)->0;
        lemma_filter_has(tips, keep, best);
        let k = choose|k: int| 0 <= k < tips.len() && tips[k] == best;
        assert(tips[k].0@ == best.0@);
        assert forall|i: int|
            0 <= i < tips.len() && our_release(
                (#[trigger] tips[i]).0@,
                ReleaseScheme::Dated,
                publish_remote,
            ) implies !lex_less(release_order(best.0@.branch()), release_order(tips[i].0@.branch())) by {
            let j = choose|j: int| 0 <= j < ours.len() && ours[j] == tips[i];
            assert(!lex_less(tip_order(best), tip_order(ours[j])));
        }
    }
}

/// A name that reads as a dated cut comes after every name that does not, and two that do stand as their
/// cuts do.
pub proof fn lemma_dated_names_come_last(a: Seq<char>, b: Seq<char>)
    ensures
        dated_release(a) is None && dated_release(b) is Some ==> lex_less(release_order(a), release_order(b)),
        dated_release(a) is Some && dated_release(b) is Some ==> lex_less(release_order(a), release_order(b))
            == lex_less(dated_release(a)->0.rank(), dated_release(b)->0.rank()),
{
    if dated_release(a) is Some && dated_release(b) is Some {
        let x = dated_release(a)->0.rank();
        let y = dated_release(b)->0.rank();
        assert((seq![1int] + x).drop_first() =~= x);
        assert((seq![1int] + y).drop_first() =~= y);
    }
}

/// A branch is carried exactly if it is local and is neither the trunk nor a release.
pub proof fn lemma_carried_branches(trunk: Seq<char>, scheme: ReleaseScheme, tip: (BookmarkRef, CommitId))
    ensures
        carried(trunk, scheme)(tip) is Some <==> tip.0@ is Local && tip.0@.branch() != trunk && !release_name(
            tip.0@.branch(),
            scheme,
        ),
        carried(trunk, scheme)(tip) matches Some(branch) ==> branch.0@ == tip.0@.branch() && branch.1 == tip.1,
{
}

/// The last recorded cut is what the last entry that records one tells: an event whose text begins with
/// `cut `, with a commit and a member at least, and of the release that is asked for where one is.
pub proof fn lemma_last_recorded_cut(entries: Seq<Entry>, release: Option<Seq<char>>, k: int)
    requires
        0 <= k < entries.len(),
        forall|i: int|
            k < i < entries.len() ==> !((#[trigger] entries[i]).kind == Kind::Event && begins_with(
                entries[i].text@,
                "cut "@,
            ) && entries[i].evidence@.len() >= 2 && (release is None || view_of(entries[i].subject) == release)),
    ensures
        entries[k].kind == Kind::Event && begins_with(entries[k].text@, "cut "@) && entries[k].evidence@.len() >= 2 && (
        release is None || view_of(entries[k].subject) == release) ==> last_recorded(entries, release) == Some(
            (entries[k].evidence@[0]@, views(entries[k].evidence@).skip(1)),
        ),
        k == 0 && !(entries[k].kind == Kind::Event && begins_with(entries[k].text@, "cut "@)
            && entries[k].evidence@.len() >= 2 && (release is None || view_of(entries[k].subject) == release))
            ==> last_recorded(entries, release) is None,
    decreases entries.len(),
{
    let last = entries.len() - 1;
    if k < last {
        let rest = entries.drop_last();
        assert(!records_cut(entries[last], release));
        assert forall|i: int| k < i < rest.len() implies !((#[trigger] rest[i]).kind == Kind::Event && begins_with(
            rest[i].text@,
            "cut "@,
        ) && rest[i].evidence@.len() >= 2 && (release is None || view_of(rest[i].subject) == release)) by {
            assert(rest[i] == entries[i]);
        }
        lemma_last_recorded_cut(rest, release, k);
    } else if k == 0 {
        assert(entries.drop_last() =~= Seq::empty());
        assert(last_recorded(entries.drop_last(), release) is None);
    }
}

/// One more reference is the newest exactly if the newest before does not come after it: of two of one cut
/// the later listed one counts.
pub proof fn lemma_one_more_reference(tips: Seq<(BookmarkRef, CommitId)>, tip: (BookmarkRef, CommitId))
    ensures
        tips.len() == 0 ==> newest_of(tips.push(tip)) == Some(tip),
        newest_of(tips) matches Some(best) ==> newest_of(tips.push(tip)) == Some(
            if lex_less(release_order(tip.0@.branch()), release_order(best.0@.branch())) {
                best
            } else {
                tip
            },
        ),
        newest_of(tips) is None <==> tips.len() == 0,
{
    assert(tips.push(tip).drop_last() =~= tips);
    if tips.len() > 0 {
        lemma_newest(tips);
    }
}

} // verus!
