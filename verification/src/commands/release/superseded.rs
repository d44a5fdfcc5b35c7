//! Dated cuts that a newer one has superseded, and what becomes of them.

use vstd::prelude::*;
use vstd::string::*;

use crate::detect::double_cut::{commits_of, named, names_of};
use crate::detect::stale_parents::BookmarkTips;
use crate::grouping::{firsts, pairs};
use crate::ids::{
    BookmarkRef, BookmarkView, BranchName, CommitId, dated_release, DatedRelease, holds_commit, is_our_release,
    lemma_pair_order, our_release, ReleaseScheme, short_text, strict_dated_release,
};
use crate::order::{
    lemma_lex_asymmetric, lemma_lex_irreflexive, lemma_lex_total, lemma_lex_transitive, lex_less, lookup, OrdMap, Ordered,
};
use crate::seqs::{
    group_seqs, lemma_filter_has, lemma_filter_map_has, lemma_filter_next, lemma_once, lemma_take_next, once, view_of,
    views,
};
use crate::sorting::{add_key, distinct_texts, lemma_distinct_texts, lemma_sorted, rank_of, sort, sorted};
use crate::text::{join, joined, lists, ranks, same};

verus! {

broadcast use group_seqs;

/// The dated cut that a tip votes for: only a ref that may speak for us votes, so that someone
/// else's cut cannot make ours look superseded.
pub open spec fn voted(publish_remote: Seq<char>) -> spec_fn((BookmarkRef, CommitId)) -> Option<DatedRelease> {
    |tip: (BookmarkRef, CommitId)|
        if our_release(tip.0@, ReleaseScheme::Dated, publish_remote) {
            dated_release(tip.0@.branch())
        } else {
            None
        }
}

/// The latest of several cuts.
pub open spec fn latest(cuts: Seq<DatedRelease>) -> Option<DatedRelease>
    decreases cuts.len(),
{
    if cuts.len() == 0 {
        None
    } else {
        match latest(cuts.drop_last()) {
            None => Some(cuts.last()),
            Some(best) => if lex_less(cuts.last().rank(), best.rank()) {
                Some(best)
            } else {
                Some(cuts.last())
            },
        }
    }
}

/// The newest dated cut that our own refs vote for.
pub open spec fn newest_cut(tips: Seq<(BookmarkRef, CommitId)>, publish_remote: Seq<char>) -> Option<DatedRelease> {
    latest(tips.filter_map(voted(publish_remote)))
}

fn newest(tips: &BookmarkTips, publish_remote: &str) -> (cut: Option<DatedRelease>)
    ensures
        cut == newest_cut(tips@, publish_remote@),
{
    let mut best: Option<DatedRelease> = None;
    let mut i: usize = 0;
    while i < tips.len()
        invariant
            i <= tips@.len(),
            best == latest(tips@.take(i as int).filter_map(voted(publish_remote@))),
        decreases tips@.len() - i,
    {
        let ghost before = tips@.take(i as int).filter_map(voted(publish_remote@));
        let ghost after = tips@.take(i + 1).filter_map(voted(publish_remote@));
        proof {
            tips@.lemma_filter_map_take_succ(voted(publish_remote@), i as int);
        }
        if is_our_release(tips.key(i), &ReleaseScheme::Dated, publish_remote) {
            if let Some(cut) = strict_dated_release(tips.key(i).branch().as_str()) {
                assert(after =~= before.push(cut));
                assert(after.drop_last() =~= before);
                best = match best {
                    Some(held) => if cut.precedes(&held) {
                        Some(held)
                    } else {
                        Some(cut)
                    },
                    None => Some(cut),
                };
            } else {
                assert(after =~= before);
            }
        } else {
            assert(after =~= before);
        }
        i += 1;
    }
    best
}

/// Whether a tip is one of our dated release refs.
pub open spec fn dated_ours(publish_remote: Seq<char>) -> spec_fn((BookmarkRef, CommitId)) -> bool {
    |tip: (BookmarkRef, CommitId)|
        our_release(tip.0@, ReleaseScheme::Dated, publish_remote) && dated_release(tip.0@.branch()) is Some
}

fn our_dated_release_ids(tips: &BookmarkTips, publish_remote: &str) -> (commits: Vec<String>)
    ensures
        views(commits@) == distinct_texts(commits_of(tips@.filter(dated_ours(publish_remote@)))),
{
    let mut commits: Vec<String> = Vec::new();
    let mut i: usize = 0;
    assert(commits_of(tips@.take(0).filter(dated_ours(publish_remote@))) =~= Seq::empty());
    while i < tips.len()
        invariant
            i <= tips@.len(),
            views(commits@) == distinct_texts(commits_of(tips@.take(i as int).filter(dated_ours(publish_remote@)))),
        decreases tips@.len() - i,
    {
        let ghost before = tips@.take(i as int).filter(dated_ours(publish_remote@));
        proof {
            lemma_filter_next(tips@, dated_ours(publish_remote@), i as int);
        }
        if is_our_release(tips.key(i), &ReleaseScheme::Dated, publish_remote) && strict_dated_release(
            tips.key(i).branch().as_str(),
        ).is_some() {
            proof {
                let more = commits_of(before.push(tips@[i as int]));
                assert(more.drop_last() =~= commits_of(before));
                assert(more.last() == tips@[i as int].1@);
            }
            add_key(&mut commits, tips.value(i).as_str());
        }
        i += 1;
    }
    commits
}

/// The commits that our dated release refs name, each once and in order.
///
/// Only refs that may speak for us count; a name merely resembling a release on another remote does
/// not. Callers subtract these ids rather than trusting descriptions.
pub fn our_dated_release_commits(tips: &BookmarkTips, publish_remote: &str) -> (commits: Vec<CommitId>)
    ensures
        views(commits@) == distinct_texts(commits_of(tips@.filter(dated_ours(publish_remote@)))),
{
    commit_ids(&our_dated_release_ids(tips, publish_remote))
}

/// Whether a ref is ours to reap: every ref but those of `upstream`, which is somebody else's
/// repository, and of `git`, which is an internal view.
pub open spec fn reapable(bookmark: BookmarkView) -> bool {
    match bookmark {
        BookmarkView::Local(_) => true,
        BookmarkView::Remote { remote, .. } => remote != "upstream"@ && remote != "git"@,
    }
}

fn ours_to_reap(reference: &BookmarkRef) -> (r: bool)
    ensures
        r == reapable(reference@),
{
    match reference {
        BookmarkRef::Local(_) => true,
        BookmarkRef::Remote { remote, .. } => !same(remote.as_str(), "upstream") && !same(remote.as_str(), "git"),
    }
}

/// Whether a tip belongs to a dated cut that is not the newest, and is ours to reap.
pub open spec fn is_superseded(newest: DatedRelease) -> spec_fn((BookmarkRef, CommitId)) -> bool {
    |tip: (BookmarkRef, CommitId)|
        reapable(tip.0@) && dated_release(tip.0@.branch()) is Some && dated_release(tip.0@.branch()) != Some(newest)
}

/// Which side a ref of a name is on: nothing for the local one.
pub open spec fn side(bookmark: BookmarkView) -> Seq<char> {
    match bookmark {
        BookmarkView::Local(_) => Seq::empty(),
        BookmarkView::Remote { remote, .. } => seq!['@'] + remote,
    }
}

impl Ordered for (BookmarkRef, CommitId) {
    /// By name first, so that the refs of one name stand together; of one name the local one first.
    open spec fn rank(&self) -> Seq<int> {
        ranks(self.0@.branch()) + seq![-1int] + ranks(side(self.0@))
    }

    fn precedes(&self, other: &Self) -> (r: bool) {
        let ghost x = side(self.0@);
        let ghost y = side(other.0@);
        proof {
            lemma_pair_order(self.0@.branch(), x, other.0@.branch(), y);
        }
        if self.0.branch().precedes(other.0.branch()) {
            return true;
        }
        if !self.0.branch().same(other.0.branch()) {
            return false;
        }
        match (&self.0, &other.0) {
            (_, BookmarkRef::Local(_)) => false,
            (BookmarkRef::Local(_), BookmarkRef::Remote { .. }) => true,
            (BookmarkRef::Remote { remote: a, .. }, BookmarkRef::Remote { remote: b, .. }) => {
                proof {
                    assert(ranks(x).drop_first() =~= ranks(a@));
                    assert(ranks(y).drop_first() =~= ranks(b@));
                    assert(ranks(x)[0] == ranks(y)[0]);
                }
                a.precedes(b)
            },
        }
    }
}

/// Every ref of every superseded dated cut that is ours to reap, by name.
pub open spec fn superseded_tips(
    tips: Seq<(BookmarkRef, CommitId)>,
    publish_remote: Seq<char>,
) -> Seq<(BookmarkRef, CommitId)> {
    match newest_cut(tips, publish_remote) {
        None => Seq::empty(),
        Some(newest) => sorted(tips.filter(is_superseded(newest)), rank_of::<(BookmarkRef, CommitId)>()),
    }
}

/// Every ref of every superseded dated cut, on any remote that is ours.
///
/// Superseded means: not the newest dated name voted for by a ref that may speak for us. The refs
/// returned stand on more remotes than vote, to clean up historical refs wherever they are.
pub fn superseded_dated_releases(tips: &BookmarkTips, publish_remote: &str) -> (found: Vec<(BookmarkRef, CommitId)>)
    ensures
        found@ == superseded_tips(tips@, publish_remote@),
{
    let newest = match newest(tips, publish_remote) {
        Some(newest) => newest,
        None => return Vec::new(),
    };
    let mut found: Vec<(BookmarkRef, CommitId)> = Vec::new();
    let mut i: usize = 0;
    while i < tips.len()
        invariant
            i <= tips@.len(),
            found@ == tips@.take(i as int).filter(is_superseded(newest)),
        decreases tips@.len() - i,
    {
        proof {
            lemma_filter_next(tips@, is_superseded(newest), i as int);
        }
        if ours_to_reap(tips.key(i)) {
            if let Some(cut) = strict_dated_release(tips.key(i).branch().as_str()) {
                if cut != newest {
                    let tip = (tips.key(i).clone(), tips.value(i).clone());
                    assert(tip == tips@[i as int]);
                    found.push(tip);
                }
            }
        }
        i += 1;
    }
    sort(&mut found);
    found
}

/// Whether a tip is of that cut and may speak for us.
pub open spec fn of_cut(newest: DatedRelease, publish_remote: Seq<char>) -> spec_fn((BookmarkRef, CommitId)) -> bool {
    |tip: (BookmarkRef, CommitId)|
        our_release(tip.0@, ReleaseScheme::Dated, publish_remote) && dated_release(tip.0@.branch()) == Some(newest)
}

/// The last local one of several tips, or the last of all where none is local.
pub open spec fn preferred(tips: Seq<(BookmarkRef, CommitId)>) -> Option<(BookmarkRef, CommitId)>
    decreases tips.len(),
{
    if tips.len() == 0 {
        None
    } else {
        match preferred(tips.drop_last()) {
            None => Some(tips.last()),
            Some(best) => if best.0@ is Local && !(tips.last().0@ is Local) {
                Some(best)
            } else {
                Some(tips.last())
            },
        }
    }
}

/// The newest dated cut's name and its live commit.
pub open spec fn live_tip(
    tips: Seq<(BookmarkRef, CommitId)>,
    publish_remote: Seq<char>,
) -> Option<(BookmarkRef, CommitId)> {
    match newest_cut(tips, publish_remote) {
        None => None,
        Some(newest) => preferred(tips.filter(of_cut(newest, publish_remote))),
    }
}

/// The newest dated cut's branch name, unqualified, and its live commit: the local ref when there is
/// one, otherwise whichever of our remotes carries it.
pub fn live_dated_release(tips: &BookmarkTips, publish_remote: &str) -> (live: Option<(BranchName, CommitId)>)
    ensures
        match (live, live_tip(tips@, publish_remote@)) {
            (Some((name, commit)), Some(tip)) => name@ == tip.0@.branch() && commit@ == tip.1@,
            (None, None) => true,
            _ => false,
        },
{
    let newest = match newest(tips, publish_remote) {
        Some(newest) => newest,
        None => return None,
    };
    let mut at: Option<usize> = None;
    let mut i: usize = 0;
    while i < tips.len()
        invariant
            i <= tips@.len(),
            match at {
                Some(at) => at < i && preferred(tips@.take(i as int).filter(of_cut(newest, publish_remote@))) == Some(
                    tips@[at as int],
                ),
                None => preferred(tips@.take(i as int).filter(of_cut(newest, publish_remote@))) is None,
            },
        decreases tips@.len() - i,
    {
        let ghost before = tips@.take(i as int).filter(of_cut(newest, publish_remote@));
        proof {
            lemma_filter_next(tips@, of_cut(newest, publish_remote@), i as int);
            assert(before.push(tips@[i as int]).drop_last() =~= before);
        }
        let ours = is_our_release(tips.key(i), &ReleaseScheme::Dated, publish_remote);
        let cut = strict_dated_release(tips.key(i).branch().as_str());
        if ours && cut.is_some() && cut.unwrap() == newest {
            at = match at {
                Some(held) => if tips.key(held).is_local() && !tips.key(i).is_local() {
                    Some(held)
                } else {
                    Some(i)
                },
                None => Some(i),
            };
        }
        i += 1;
    }
    match at {
        Some(at) => Some((tips.key(at).branch().clone(), tips.value(at).clone())),
        None => None,
    }
}

/// The ids as commits.
fn commit_ids(ids: &Vec<String>) -> (commits: Vec<CommitId>)
    ensures
        views(commits@) == views(ids@),
{
    let mut commits: Vec<CommitId> = Vec::new();
    let mut i: usize = 0;
    while i < ids.len()
        invariant
            i <= ids@.len(),
            views(commits@) == views(ids@).take(i as int),
        decreases ids@.len() - i,
    {
        let ghost earlier = commits@;
        let commit = CommitId::new(ids[i].as_str());
        commits.push(commit);
        assert(views(commits@) =~= views(earlier).push(commit@));
        assert(views(commits@) =~= views(ids@).take(i + 1));
        i += 1;
    }
    commits
}

/// What is searched for work that a recut would strand.
#[derive(Clone, Copy)]
pub struct OrphanedCommitInput<'a> {
    pub previous: &'a CommitId,
    /// What a recut keeps reachable.
    pub keep: &'a [CommitId],
    pub tips: &'a BookmarkTips,
    pub publish_remote: &'a str,
}

/// The question that finds the commits a recut would strand.
pub open spec fn orphan_question(
    previous: Seq<char>,
    keep: Seq<Seq<char>>,
    releases: Seq<Seq<char>>,
) -> Seq<char> {
    "::( "@ + previous + ":: ) ~ ::("@ + joined(keep, "|"@) + ") ~ "@ + previous + " ~ ("@ + (if releases.len()
        == 0 {
        "none()"@
    } else {
        joined(releases, "|"@)
    }) + ") ~ (empty() & description(exact:\"\"))"@
}

/// The question that finds the commits a recut would strand: those reachable from the previous
/// release or its local descendants, and from no keeper.
///
/// The previous cut itself, parked working copies, and commits identified by our dated release
/// bookmarks are excluded as release machinery, not work. A commit that only describes itself like
/// release machinery is deliberately found: refusing it is safer than dropping real work. Which commits
/// answer the question is the repository's to say.
pub fn orphaned_commits(input: OrphanedCommitInput) -> (question: String)
    ensures
        question@ == orphan_question(
            input.previous@,
            views(input.keep@),
            distinct_texts(commits_of(input.tips@.filter(dated_ours(input.publish_remote@)))),
        ),
{
    let mut keepers: Vec<String> = Vec::new();
    let ghost all = views(input.keep@);
    let mut i: usize = 0;
    while i < input.keep.len()
        invariant
            i <= input.keep@.len(),
            all == views(input.keep@),
            views(keepers@) == all.take(i as int),
        decreases input.keep@.len() - i,
    {
        let ghost earlier = keepers@;
        let text = input.keep[i].text.clone();
        keepers.push(text);
        assert(views(keepers@) =~= views(earlier).push(text@));
        assert(views(keepers@) =~= all.take(i + 1));
        i += 1;
    }
    let releases = our_dated_release_ids(input.tips, input.publish_remote);
    assert(views(releases@).len() == releases@.len());
    let mut question = "::( ".to_owned();
    question.append(input.previous.as_str());
    question.append(":: ) ~ ::(");
    question.append(join(&keepers, "|").as_str());
    question.append(") ~ ");
    question.append(input.previous.as_str());
    question.append(" ~ (");
    if releases.len() == 0 {
        question.append("none()");
    } else {
        question.append(join(&releases, "|").as_str());
    }
    question.append(") ~ (empty() & description(exact:\"\"))");
    question
}

/// Whether a commit can be stranded: it is not the previous cut, none of the keepers, and no dated
/// release of ours.
pub open spec fn may_be_stranded(
    previous: Seq<char>,
    keep: Seq<Seq<char>>,
    releases: Seq<Seq<char>>,
) -> spec_fn(Seq<char>) -> bool {
    |commit: Seq<char>| commit != previous && !keep.contains(commit) && !releases.contains(commit)
}

/// The commits a recut would strand, of those that answer the question of [`orphaned_commits`]. The
/// previous cut, what is kept and release machinery are never among them, whatever was answered.
pub fn stranded_commits(input: OrphanedCommitInput, answer: &Vec<CommitId>) -> (found: Vec<CommitId>)
    ensures
        views(found@) == views(answer@).filter(
            may_be_stranded(
                input.previous@,
                views(input.keep@),
                distinct_texts(commits_of(input.tips@.filter(dated_ours(input.publish_remote@)))),
            ),
        ),
{
    let releases = our_dated_release_ids(input.tips, input.publish_remote);
    let mut found: Vec<CommitId> = Vec::new();
    let ghost all = views(answer@);
    let ghost strands = may_be_stranded(input.previous@, views(input.keep@), views(releases@));
    let mut i: usize = 0;
    while i < answer.len()
        invariant
            i <= answer@.len(),
            all == views(answer@),
            strands == may_be_stranded(input.previous@, views(input.keep@), views(releases@)),
            views(found@) == all.take(i as int).filter(strands),
        decreases answer@.len() - i,
    {
        proof {
            lemma_filter_next(all, strands, i as int);
            assert(all[i as int] == answer@[i as int]@);
        }
        let commit = &answer[i];
        if !commit.same(input.previous) && !holds_commit(input.keep, commit) && !lists(&releases, commit.as_str()) {
            found.push(commit.clone());
        }
        i += 1;
    }
    found
}

/// A superseded name and the commits it stands at.
pub open spec fn target_of(list: Seq<(BookmarkRef, CommitId)>) -> spec_fn(Seq<char>) -> (Seq<char>, Seq<Seq<char>>) {
    |name: Seq<char>| (name, once(commits_of(list.filter(named(name)))))
}

/// The superseded names in order, each with the commits it stands at.
pub open spec fn targets_of(list: Seq<(BookmarkRef, CommitId)>) -> Seq<(Seq<char>, Seq<Seq<char>>)> {
    distinct_texts(names_of(list)).map_values(target_of(list))
}

/// What targets are, without the strings that hold them.
pub open spec fn target_views(targets: Seq<(String, Vec<CommitId>)>) -> Seq<(Seq<char>, Seq<Seq<char>>)> {
    Seq::new(targets.len(), |i: int| (targets[i].0@, views(targets[i].1@)))
}

fn commits_at(list: &Vec<(BookmarkRef, CommitId)>, name: &str) -> (commits: Vec<CommitId>)
    ensures
        views(commits@) == once(commits_of(list@.filter(named(name@)))),
{
    let mut commits: Vec<CommitId> = Vec::new();
    let mut i: usize = 0;
    assert(commits_of(list@.take(0).filter(named(name@))) =~= Seq::empty());
    while i < list.len()
        invariant
            i <= list@.len(),
            views(commits@) == once(commits_of(list@.take(i as int).filter(named(name@)))),
        decreases list@.len() - i,
    {
        let ghost before = list@.take(i as int).filter(named(name@));
        proof {
            lemma_filter_next(list@, named(name@), i as int);
            lemma_once(commits_of(before));
        }
        if same(list[i].0.branch().as_str(), name) {
            proof {
                let more = commits_of(before.push(list@[i as int]));
                assert(more.drop_last() =~= commits_of(before));
                assert(more.last() == list@[i as int].1@);
            }
            if !holds_commit(commits.as_slice(), &list[i].1) {
                let ghost earlier = commits@;
                commits.push(list[i].1.clone());
                assert(views(commits@) =~= views(earlier).push(list@[i as int].1@));
            }
        }
        i += 1;
    }
    commits
}

/// What is to be reaped: the superseded names in order, each with the commits it stands at.
pub fn reap_targets(tips: &BookmarkTips, publish_remote: &str) -> (targets: Vec<(String, Vec<CommitId>)>)
    ensures
        target_views(targets@) == targets_of(superseded_tips(tips@, publish_remote@)),
{
    let list = superseded_dated_releases(tips, publish_remote);
    let mut names: Vec<String> = Vec::new();
    let mut i: usize = 0;
    assert(names_of(list@.take(0)) =~= Seq::empty());
    while i < list.len()
        invariant
            i <= list@.len(),
            views(names@) == distinct_texts(names_of(list@.take(i as int))),
        decreases list@.len() - i,
    {
        proof {
            let more = names_of(list@.take(i + 1));
            assert(more.drop_last() =~= names_of(list@.take(i as int)));
            assert(more.last() == list@[i as int].0@.branch());
        }
        add_key(&mut names, list[i].0.branch().as_str());
        i += 1;
    }
    let ghost all = targets_of(list@);
    let mut targets: Vec<(String, Vec<CommitId>)> = Vec::new();
    let mut k: usize = 0;
    assert(views(names@).len() == names@.len());
    assert(target_views(targets@) =~= all.take(0));
    while k < names.len()
        invariant
            k <= names@.len(),
            all == targets_of(list@),
            views(names@) == distinct_texts(names_of(list@)),
            all.len() == names@.len(),
            target_views(targets@) == all.take(k as int),
        decreases names@.len() - k,
    {
        let commits = commits_at(&list, names[k].as_str());
        let name = names[k].clone();
        proof {
            assert(views(names@)[k as int] == name@);
            assert(all[k as int] == (name@, views(commits@)));
        }
        let ghost before = target_views(targets@);
        targets.push((name, commits));
        assert(target_views(targets@) =~= before.push((name@, views(commits@))));
        assert(target_views(targets@) =~= all.take(k + 1));
        k += 1;
    }
    assert(all.take(k as int) =~= all);
    targets
}

/// The question that finds the local descendants of a commit, but for parked working copies.
pub open spec fn descendant_question(commit: Seq<char>) -> Seq<char> {
    "(descendants("@ + commit + ") ~ "@ + commit + ") ~ (empty() & description(exact:\"\"))"@
}

/// The question that finds what stands on a superseded cut: its local descendants, but for parked
/// working copies.
pub fn standing_on(commit: &CommitId) -> (question: String)
    ensures
        question@ == descendant_question(commit@),
{
    let mut question = "(descendants(".to_owned();
    question.append(commit.as_str());
    question.append(") ~ ");
    question.append(commit.as_str());
    question.append(") ~ (empty() & description(exact:\"\"))");
    question
}

/// The local descendants of a commit that stand in the way of reaping it.
pub open spec fn descendants_of(descendants: Seq<(CommitId, Vec<CommitId>)>, commit: Seq<char>) -> Seq<Seq<char>> {
    match lookup(descendants, ranks(commit)) {
        Some(list) => views(list@),
        None => Seq::empty(),
    }
}

/// Why a name is kept: the descendants of the first of its commits that has any.
pub open spec fn blocked(
    commits: Seq<Seq<char>>,
    descendants: Seq<(CommitId, Vec<CommitId>)>,
) -> Option<Seq<char>>
    decreases commits.len(),
{
    if commits.len() == 0 {
        None
    } else if descendants_of(descendants, commits[0]).len() > 0 {
        Some(stacked_reason(descendants_of(descendants, commits[0])))
    } else {
        blocked(commits.skip(1), descendants)
    }
}

/// The descendants of a commit, in words: at most three of them.
pub open spec fn stacked_reason(found: Seq<Seq<char>>) -> Seq<char> {
    "has local descendant(s): "@ + joined(
        first_few(found, 3).map_values(|id: Seq<char>| short_text(id)),
        ", "@,
    )
}

/// At most the first `n` elements.
pub open spec fn first_few(s: Seq<Seq<char>>, n: int) -> Seq<Seq<char>> {
    if s.len() <= n {
        s
    } else {
        s.take(n)
    }
}

/// Why every superseded cut is kept while the live one still carries conflicts.
pub open spec fn unsettled_reason(live: Seq<char>) -> Seq<char> {
    "the live cut "@ + live
        + " still carries conflicts; a superseded cut is the record of their last resolution"@
}

/// Why a name is kept, where it is.
pub open spec fn kept_target(
    unsettled: Option<Seq<char>>,
    descendants: Seq<(CommitId, Vec<CommitId>)>,
) -> spec_fn((Seq<char>, Seq<Seq<char>>)) -> Option<(Seq<char>, Seq<char>)> {
    |target: (Seq<char>, Seq<Seq<char>>)|
        match unsettled {
            Some(live) => Some((target.0, unsettled_reason(live))),
            None => match blocked(target.1, descendants) {
                Some(reason) => Some((target.0, reason)),
                None => None,
            },
        }
}

/// Whether a name is reaped.
pub open spec fn reaped_target(
    unsettled: Option<Seq<char>>,
    descendants: Seq<(CommitId, Vec<CommitId>)>,
) -> spec_fn((Seq<char>, Seq<Seq<char>>)) -> bool {
    |target: (Seq<char>, Seq<Seq<char>>)| unsettled is None && blocked(target.1, descendants) is None
}

fn stacked(found: &Vec<CommitId>) -> (reason: String)
    ensures
        reason@ == stacked_reason(views(found@)),
{
    let mut sample: Vec<String> = Vec::new();
    let ghost all = first_few(views(found@), 3).map_values(|id: Seq<char>| short_text(id));
    let mut i: usize = 0;
    assert(all.take(0) =~= Seq::empty());
    while i < found.len() && i < 3
        invariant
            i <= found@.len(),
            i <= 3,
            all == first_few(views(found@), 3).map_values(|id: Seq<char>| short_text(id)),
            views(sample@) == all.take(i as int),
        decreases found@.len() - i,
    {
        let text = found[i].short();
        proof {
            assert(first_few(views(found@), 3)[i as int] == found@[i as int]@);
            lemma_take_next(all, i as int);
        }
        let ghost earlier = sample@;
        sample.push(text);
        assert(views(sample@) =~= views(earlier).push(text@));
        i += 1;
    }
    assert(all.take(i as int) =~= all);
    let mut reason = "has local descendant(s): ".to_owned();
    reason.append(join(&sample, ", ").as_str());
    reason
}

fn blocker(commits: &Vec<CommitId>, descendants: &OrdMap<CommitId, Vec<CommitId>>) -> (reason: Option<String>)
    ensures
        view_of(reason) == blocked(views(commits@), descendants@),
{
    let ghost all = views(commits@);
    let mut i: usize = 0;
    assert(all.skip(0) =~= all);
    while i < commits.len()
        invariant
            i <= commits@.len(),
            all == views(commits@),
            blocked(all, descendants@) == blocked(all.skip(i as int), descendants@),
        decreases commits@.len() - i,
    {
        proof {
            assert(all.skip(i as int)[0] == commits@[i as int]@);
            assert(all.skip(i as int).skip(1) =~= all.skip(i + 1));
        }
        if let Some(found) = descendants.get(&commits[i]) {
            assert(views(found@).len() == found@.len());
            if found.len() > 0 {
                return Some(stacked(found));
            }
        }
        i += 1;
    }
    None
}

/// What is kept of the superseded cuts, and what is reaped.
pub struct ReapChoice {
    /// The names that are left alone, and why.
    pub kept: Vec<(String, String)>,
    /// The names to forget, and the commits to abandon with them.
    pub entries: Vec<(String, Vec<CommitId>)>,
}

/// Which superseded cuts are reaped.
///
/// A cut with local descendants is someone's stacked work and is refused with the descendants named.
/// While the live cut still carries conflicts every superseded cut is kept, because the previous cut
/// is the only record of how those conflicts were last resolved: `unsettled` is the live cut's name
/// then. Parked working copies, which are empty and undescribed, are no descendants here.
pub fn choose_reaped(
    targets: Vec<(String, Vec<CommitId>)>,
    unsettled: Option<&str>,
    descendants: &OrdMap<CommitId, Vec<CommitId>>,
) -> (choice: ReapChoice)
    ensures
        pairs(choice.kept@) == target_views(targets@).filter_map(kept_target(view_of(unsettled), descendants@)),
        target_views(choice.entries@) == target_views(targets@).filter(
            reaped_target(view_of(unsettled), descendants@),
        ),
{
    let ghost all = target_views(targets@);
    let ghost live = view_of(unsettled);
    let ghost listed = targets@;
    let mut kept: Vec<(String, String)> = Vec::new();
    let mut entries: Vec<(String, Vec<CommitId>)> = Vec::new();
    assert(pairs(kept@) =~= Seq::empty());
    assert(target_views(entries@) =~= Seq::empty());
    for target in it: targets
        invariant
            it.seq() == listed,
            all == target_views(listed),
            live == view_of(unsettled),
            pairs(kept@) == all.take(it.index()).filter_map(kept_target(live, descendants@)),
            target_views(entries@) == all.take(it.index()).filter(reaped_target(live, descendants@)),
    {
        let ghost i = it.index();
        proof {
            all.lemma_filter_map_take_succ(kept_target(live, descendants@), i);
            lemma_filter_next(all, reaped_target(live, descendants@), i);
            assert(all[i] == (target.0@, views(target.1@)));
        }
        let ghost kept_before = pairs(kept@);
        let ghost entries_before = target_views(entries@);
        match unsettled {
            Some(name) => {
                let mut reason = "the live cut ".to_owned();
                reason.append(name);
                reason.append(
                    " still carries conflicts; a superseded cut is the record of their last resolution",
                );
                kept.push((target.0, reason));
                assert(pairs(kept@) =~= kept_before.push((target.0@, reason@)));
            },
            None => {
                match blocker(&target.1, descendants) {
                    Some(reason) => {
                        kept.push((target.0, reason));
                        assert(pairs(kept@) =~= kept_before.push((target.0@, reason@)));
                    },
                    None => {
                        entries.push(target);
                        assert(target_views(entries@) =~= entries_before.push(all[i]));
                    },
                }
            },
        }
        assert(pairs(kept@) =~= all.take(i + 1).filter_map(kept_target(live, descendants@)));
    }
    assert(all.take(all.len() as int) =~= all);
    ReapChoice { kept, entries }
}

/// Why a commit was not abandoned.
#[derive(Debug, PartialEq, Eq)]
pub enum Refusal {
    /// A ref outside the enumeration still pins it.
    Immutable { commit: String, pin: String },
    /// Anything else.
    Other(String),
}

/// What came of forgetting names and abandoning their commits.
#[derive(Debug, PartialEq, Eq)]
pub struct ReapOutcome {
    /// The names whose commits were abandoned.
    pub abandoned: Vec<String>,
    /// The names whose commits were not, and why.
    pub refused: Vec<(String, Refusal)>,
}

/// What became of the superseded cuts.
#[derive(Debug, PartialEq, Eq)]
pub struct ReapReport {
    /// Names whose refs were forgotten and whose commits were abandoned. A name whose abandon was
    /// refused is never here.
    pub reaped: Vec<String>,
    /// Names forgotten whose commit is kept, and what still pins it. The expected outcome for a
    /// tagged release: the name is gone and the commit stays reachable by its pin.
    pub forgotten_only: Vec<(String, String)>,
    /// Names that were deliberately left alone, and why.
    pub kept: Vec<(String, String)>,
    /// An abandon that failed for a reason other than a pin.
    pub notes: Vec<String>,
}

/// The name of the operation that reaps.
pub open spec fn reap_name(names: Seq<Seq<char>>) -> Seq<char> {
    "knives: reap "@ + joined(names, ", "@)
}

/// The names of the entries.
pub open spec fn entry_names(entries: Seq<(String, Vec<CommitId>)>) -> Seq<Seq<char>> {
    Seq::new(entries.len(), |i: int| entries[i].0@)
}

fn names_in(entries: &Vec<(String, Vec<CommitId>)>) -> (names: Vec<String>)
    ensures
        views(names@) == entry_names(entries@),
{
    let mut names: Vec<String> = Vec::new();
    let ghost all = entry_names(entries@);
    let mut i: usize = 0;
    assert(all.take(0) =~= Seq::empty());
    while i < entries.len()
        invariant
            i <= entries@.len(),
            all == entry_names(entries@),
            views(names@) == all.take(i as int),
        decreases entries@.len() - i,
    {
        proof {
            lemma_take_next(all, i as int);
        }
        let ghost earlier = names@;
        let name = entries[i].0.clone();
        names.push(name);
        assert(views(names@) =~= views(earlier).push(name@));
        i += 1;
    }
    assert(all.take(i as int) =~= all);
    names
}

/// The name of the operation that reaps the entries.
pub fn reap_operation(entries: &Vec<(String, Vec<CommitId>)>) -> (operation: String)
    ensures
        operation@ == reap_name(entry_names(entries@)),
{
    let names = names_in(entries);
    let mut operation = "knives: reap ".to_owned();
    operation.append(join(&names, ", ").as_str());
    operation
}

/// A name that only lost its refs, and what still pins its commit.
pub open spec fn still_pinned() -> spec_fn((String, Refusal)) -> Option<(Seq<char>, Seq<char>)> {
    |refused: (String, Refusal)|
        match refused.1 {
            Refusal::Immutable { commit, pin } => Some((refused.0@, commit@ + " still pinned by "@ + pin@)),
            Refusal::Other(_) => None,
        }
}

/// A name whose commit could not be abandoned for another reason.
pub open spec fn failed_abandon() -> spec_fn((String, Refusal)) -> Option<Seq<char>> {
    |refused: (String, Refusal)|
        match refused.1 {
            Refusal::Immutable { .. } => None,
            Refusal::Other(error) => Some(refused.0@ + ": refs forgotten, commit not abandoned: "@ + error@),
        }
}

/// What is known when superseded cuts are reaped.
pub struct ReapInput<'a> {
    pub tips: &'a BookmarkTips,
    pub publish_remote: &'a str,
    /// Whether the live cut still carries conflicts.
    pub live_conflicted: bool,
    /// The local descendants of the commits, parked working copies left out.
    pub descendants: &'a OrdMap<CommitId, Vec<CommitId>>,
    /// What came of forgetting and abandoning what is reaped.
    pub outcome: ReapOutcome,
}

/// The name of the live cut, where it still carries conflicts.
pub open spec fn unsettled_live(input: ReapInput) -> Option<Seq<char>> {
    match live_tip(input.tips@, input.publish_remote@) {
        Some(tip) => if input.live_conflicted {
            Some(tip.0@.branch())
        } else {
            None
        },
        None => None,
    }
}

/// The names that are chosen to be reaped.
pub open spec fn chosen_names(input: ReapInput) -> Seq<Seq<char>> {
    let chosen = targets_of(superseded_tips(input.tips@, input.publish_remote@)).filter(
        reaped_target(unsettled_live(input), input.descendants@),
    );
    Seq::new(chosen.len(), |i: int| chosen[i].0)
}

/// The names whose commits were not abandoned.
pub open spec fn refused_names(refused: Seq<(String, Refusal)>) -> Seq<Seq<char>> {
    Seq::new(refused.len(), |i: int| refused[i].0@)
}

/// Whether a name that was answered for is reaped: it was chosen, and its abandon was not refused.
pub open spec fn was_reaped(chosen: Seq<Seq<char>>, refused: Seq<Seq<char>>) -> spec_fn(Seq<char>) -> bool {
    |name: Seq<char>| chosen.contains(name) && !refused.contains(name)
}

/// Whether a refusal is of a name that was chosen.
pub open spec fn of_chosen(chosen: Seq<Seq<char>>) -> spec_fn((String, Refusal)) -> bool {
    |refused: (String, Refusal)| chosen.contains(refused.0@)
}

fn names_refused(refused: &Vec<(String, Refusal)>) -> (names: Vec<String>)
    ensures
        views(names@) == refused_names(refused@),
{
    let mut names: Vec<String> = Vec::new();
    let ghost all = refused_names(refused@);
    let mut i: usize = 0;
    while i < refused.len()
        invariant
            i <= refused@.len(),
            all == refused_names(refused@),
            views(names@) == all.take(i as int),
        decreases refused@.len() - i,
    {
        proof {
            lemma_take_next(all, i as int);
        }
        names.push(refused[i].0.clone());
        i += 1;
    }
    names
}

fn reaped_names(abandoned: &Vec<String>, chosen: &Vec<String>, refused: &Vec<String>) -> (names: Vec<String>)
    ensures
        views(names@) == views(abandoned@).filter(was_reaped(views(chosen@), views(refused@))),
{
    let mut names: Vec<String> = Vec::new();
    let ghost all = views(abandoned@);
    let ghost reaped = was_reaped(views(chosen@), views(refused@));
    let mut i: usize = 0;
    while i < abandoned.len()
        invariant
            i <= abandoned@.len(),
            all == views(abandoned@),
            reaped == was_reaped(views(chosen@), views(refused@)),
            views(names@) == all.take(i as int).filter(reaped),
        decreases abandoned@.len() - i,
    {
        proof {
            lemma_filter_next(all, reaped, i as int);
            assert(all[i as int] == abandoned@[i as int]@);
        }
        if lists(chosen, abandoned[i].as_str()) && !lists(refused, abandoned[i].as_str()) {
            names.push(abandoned[i].clone());
        }
        i += 1;
    }
    names
}

fn split_refusals(
    refused: &Vec<(String, Refusal)>,
    chosen: &Vec<String>,
) -> (told: (Vec<(String, String)>, Vec<String>))
    ensures
        pairs(told.0@) == refused@.filter(of_chosen(views(chosen@))).filter_map(still_pinned()),
        views(told.1@) == refused@.filter(of_chosen(views(chosen@))).filter_map(failed_abandon()),
{
    let mut forgotten: Vec<(String, String)> = Vec::new();
    let mut notes: Vec<String> = Vec::new();
    let ghost all = refused@;
    let ghost ours = of_chosen(views(chosen@));
    let mut i: usize = 0;
    assert(all.take(0).filter(ours) =~= Seq::empty());
    assert(pairs(forgotten@) =~= Seq::empty());
    while i < refused.len()
        invariant
            i <= refused@.len(),
            all == refused@,
            ours == of_chosen(views(chosen@)),
            pairs(forgotten@) == all.take(i as int).filter(ours).filter_map(still_pinned()),
            views(notes@) == all.take(i as int).filter(ours).filter_map(failed_abandon()),
        decreases refused@.len() - i,
    {
        let ghost before = all.take(i as int).filter(ours);
        let ghost forgotten_before = pairs(forgotten@);
        proof {
            lemma_filter_next(all, ours, i as int);
            let more = before.push(all[i as int]);
            more.lemma_filter_map_take_succ(still_pinned(), before.len() as int);
            more.lemma_filter_map_take_succ(failed_abandon(), before.len() as int);
            assert(more.take(before.len() as int) =~= before);
            assert(more.take(before.len() as int + 1) =~= more);
        }
        if lists(chosen, refused[i].0.as_str()) {
            match &refused[i].1 {
                Refusal::Immutable { commit, pin } => {
                    let mut reason = commit.clone();
                    reason.append(" still pinned by ");
                    reason.append(pin.as_str());
                    forgotten.push((refused[i].0.clone(), reason));
                    assert(pairs(forgotten@) =~= forgotten_before.push((refused@[i as int].0@, reason@)));
                },
                Refusal::Other(error) => {
                    let mut note = refused[i].0.clone();
                    note.append(": refs forgotten, commit not abandoned: ");
                    note.append(error.as_str());
                    notes.push(note);
                },
            }
        }
        proof {
            assert(pairs(forgotten@) =~= all.take(i + 1).filter(ours).filter_map(still_pinned()));
            assert(views(notes@) =~= all.take(i + 1).filter(ours).filter_map(failed_abandon()));
        }
        i += 1;
    }
    assert(all.take(i as int) =~= all);
    (forgotten, notes)
}

/// Reaps every superseded dated cut: its refs are forgotten and its commits abandoned.
///
/// The newest dated name is never among them. Nothing here touches a remote, and correctness never
/// depends on reaping having run. The report does not overstate: only names that were chosen are told
/// of, and a name whose abandon was refused is not reaped.
pub fn reap_superseded(input: ReapInput) -> (report: ReapReport)
    ensures
        pairs(report.kept@) == targets_of(superseded_tips(input.tips@, input.publish_remote@)).filter_map(
            kept_target(unsettled_live(input), input.descendants@),
        ),
        views(report.reaped@) == views(input.outcome.abandoned@).filter(
            was_reaped(chosen_names(input), refused_names(input.outcome.refused@)),
        ),
        pairs(report.forgotten_only@) == input.outcome.refused@.filter(of_chosen(chosen_names(input))).filter_map(
            still_pinned(),
        ),
        views(report.notes@) == input.outcome.refused@.filter(of_chosen(chosen_names(input))).filter_map(
            failed_abandon(),
        ),
        forall|name: Seq<char>| #[trigger]
            views(report.reaped@).contains(name) ==> names_of(
                superseded_tips(input.tips@, input.publish_remote@),
            ).contains(name),
        forall|name: Seq<char>| #[trigger]
            firsts(pairs(report.forgotten_only@)).contains(name) ==> names_of(
                superseded_tips(input.tips@, input.publish_remote@),
            ).contains(name),
        forall|name: Seq<char>|
            !(#[trigger] views(report.reaped@).contains(name) && #[trigger] firsts(
                pairs(report.forgotten_only@),
            ).contains(name)),
{
    let targets = reap_targets(input.tips, input.publish_remote);
    let live = live_dated_release(input.tips, input.publish_remote);
    let unsettled: Option<&str> = match &live {
        Some((name, _)) => if input.live_conflicted {
            Some(name.as_str())
        } else {
            None
        },
        None => None,
    };
    assert(view_of(unsettled) == unsettled_live(input));
    let choice = choose_reaped(targets, unsettled, input.descendants);
    let chosen = names_in(&choice.entries);
    assert(views(chosen@) =~= chosen_names(input)) by {
        let views_of = target_views(choice.entries@);
        assert(views_of.len() == choice.entries@.len());
        assert forall|i: int| 0 <= i < choice.entries@.len() implies entry_names(choice.entries@)[i]
            == chosen_names(input)[i] by {
            assert(views_of[i].0 == choice.entries@[i].0@);
        }
    }
    let refused = names_refused(&input.outcome.refused);
    let reaped = reaped_names(&input.outcome.abandoned, &chosen, &refused);
    let (forgotten_only, notes) = split_refusals(&input.outcome.refused, &chosen);
    proof {
        lemma_reaped_are_superseded(input);
    }
    ReapReport { reaped, forgotten_only, kept: choice.kept, notes }
}

proof fn lemma_chosen(input: ReapInput, name: Seq<char>)
    requires
        chosen_names(input).contains(name),
    ensures
        names_of(superseded_tips(input.tips@, input.publish_remote@)).contains(name),
{
    let list = superseded_tips(input.tips@, input.publish_remote@);
    let targets = targets_of(list);
    let keep = reaped_target(unsettled_live(input), input.descendants@);
    let chosen = targets.filter(keep);
    let i = choose|i: int| 0 <= i < chosen_names(input).len() && chosen_names(input)[i] == name;
    assert(chosen.contains(chosen[i]));
    targets.lemma_filter_contains_rev(keep, chosen[i]);
    let k = choose|k: int| 0 <= k < targets.len() && targets[k] == chosen[i];
    assert(distinct_texts(names_of(list))[k] == name);
    assert(distinct_texts(names_of(list)).contains(name));
    lemma_distinct_texts(names_of(list));
}

/// What is told of as reaped or forgotten is a superseded name, and no name is told of as both.
pub proof fn lemma_reaped_are_superseded(input: ReapInput)
    ensures
        ({
            let superseded = names_of(superseded_tips(input.tips@, input.publish_remote@));
            let refused = input.outcome.refused@;
            let reaped = views(input.outcome.abandoned@).filter(
                was_reaped(chosen_names(input), refused_names(refused)),
            );
            let forgotten = firsts(refused.filter(of_chosen(chosen_names(input))).filter_map(still_pinned()));
            &&& forall|name: Seq<char>| #[trigger] reaped.contains(name) ==> superseded.contains(name)
            &&& forall|name: Seq<char>| #[trigger] forgotten.contains(name) ==> superseded.contains(name)
            &&& forall|name: Seq<char>|
                !(#[trigger] reaped.contains(name) && #[trigger] forgotten.contains(name))
        }),
{
    broadcast use vstd::seq_lib::group_filter_ensures;

    let superseded = names_of(superseded_tips(input.tips@, input.publish_remote@));
    let refused = input.outcome.refused@;
    let chosen = chosen_names(input);
    let keep = was_reaped(chosen, refused_names(refused));
    let reaped = views(input.outcome.abandoned@).filter(keep);
    let told = refused.filter(of_chosen(chosen));
    let forgotten = firsts(told.filter_map(still_pinned()));
    assert forall|name: Seq<char>| #[trigger] reaped.contains(name) implies superseded.contains(name)
        && !refused_names(refused).contains(name) by {
        let i = choose|i: int| 0 <= i < reaped.len() && reaped[i] == name;
        assert(keep(reaped[i]));
        lemma_chosen(input, name);
    }
    assert forall|name: Seq<char>| #[trigger] forgotten.contains(name) implies superseded.contains(name)
        && refused_names(refused).contains(name) by {
        let pinned = told.filter_map(still_pinned());
        let i = choose|i: int| 0 <= i < pinned.len() && forgotten[i] == name;
        assert(pinned.contains(pinned[i]));
        told.lemma_filter_map_contains(still_pinned(), pinned[i]);
        let one = choose|one: (String, Refusal)| #[trigger]
            told.contains(one) && still_pinned()(one) == Some(pinned[i]);
        assert(one.0@ == name);
        let j = choose|j: int| 0 <= j < told.len() && told[j] == one;
        assert(of_chosen(chosen)(told[j]));
        lemma_chosen(input, name);
        refused.lemma_filter_contains_rev(of_chosen(chosen), one);
        let k = choose|k: int| 0 <= k < refused.len() && refused[k] == one;
        assert(refused_names(refused)[k] == name);
    }
}

/// A name that is kept is never one that is reaped.
pub proof fn lemma_kept_is_not_chosen(input: ReapInput, name: Seq<char>)
    requires
        firsts(
            targets_of(superseded_tips(input.tips@, input.publish_remote@)).filter_map(
                kept_target(unsettled_live(input), input.descendants@),
            ),
        ).contains(name),
    ensures
        !chosen_names(input).contains(name),
{
    broadcast use vstd::seq_lib::group_filter_ensures;

    let list = superseded_tips(input.tips@, input.publish_remote@);
    let targets = targets_of(list);
    let keep = kept_target(unsettled_live(input), input.descendants@);
    let reap = reaped_target(unsettled_live(input), input.descendants@);
    let kept = targets.filter_map(keep);
    let i = choose|i: int| 0 <= i < kept.len() && firsts(kept)[i] == name;
    assert(kept.contains(kept[i]));
    targets.lemma_filter_map_contains(keep, kept[i]);
    let one = choose|one: (Seq<char>, Seq<Seq<char>>)| #[trigger]
        targets.contains(one) && keep(one) == Some(kept[i]);
    assert(one.0 == name && !reap(one));
    if chosen_names(input).contains(name) {
        let chosen = targets.filter(reap);
        let j = choose|j: int| 0 <= j < chosen_names(input).len() && chosen_names(input)[j] == name;
        assert(reap(chosen[j]));
        assert(chosen.contains(chosen[j]));
        targets.lemma_filter_contains_rev(reap, chosen[j]);
        let k = choose|k: int| 0 <= k < targets.len() && targets[k] == chosen[j];
        let m = choose|m: int| 0 <= m < targets.len() && targets[m] == one;
        assert(targets[k].0 == name && targets[m].0 == name);
        assert(targets[k] == target_of(list)(name) && targets[m] == target_of(list)(name));
    }
}

/// The newest of several cuts is one of them, and none of them is newer.
pub proof fn lemma_latest(cuts: Seq<DatedRelease>)
    requires
        cuts.len() > 0,
    ensures
        latest(cuts) is Some,
        cuts.contains(latest(cuts)->0),
        forall|i: int| 0 <= i < cuts.len() ==> !lex_less(latest(cuts)->0.rank(), (#[trigger] cuts[i]).rank()),
    decreases cuts.len(),
{
    let last = cuts.last();
    let rest = cuts.drop_last();
    assert(cuts[cuts.len() - 1] == last);
    lemma_lex_irreflexive(last.rank());
    if rest.len() > 0 {
        lemma_latest(rest);
        let best = latest(rest)->0;
        let at = choose|i: int| 0 <= i < rest.len() && rest[i] == best;
        assert(cuts[at] == best);
        assert forall|i: int| 0 <= i < cuts.len() implies !lex_less(latest(cuts)->0.rank(), (#[trigger] cuts[i]).rank()) by {
            if i < rest.len() {
                assert(rest[i] == cuts[i]);
                if !lex_less(last.rank(), best.rank()) && lex_less(last.rank(), cuts[i].rank()) {
                    lemma_lex_total(best.rank(), last.rank());
                    if lex_less(best.rank(), last.rank()) {
                        lemma_lex_transitive(best.rank(), last.rank(), cuts[i].rank());
                    }
                }
            } else if lex_less(last.rank(), best.rank()) {
                lemma_lex_asymmetric(last.rank(), best.rank());
            }
        }
    }
}

/// The newest dated cut is never superseded: no ref of it is among those that are reaped, wherever
/// it stands.
pub proof fn lemma_newest_is_never_superseded(
    tips: Seq<(BookmarkRef, CommitId)>,
    publish_remote: Seq<char>,
    tip: (BookmarkRef, CommitId),
)
    requires
        newest_cut(tips, publish_remote) is Some,
        dated_release(tip.0@.branch()) == newest_cut(tips, publish_remote),
    ensures
        !superseded_tips(tips, publish_remote).contains(tip),
{
    broadcast use vstd::seq_lib::group_filter_ensures;

    let newest = newest_cut(tips, publish_remote)->0;
    let list = tips.filter(is_superseded(newest));
    lemma_sorted(list, rank_of::<(BookmarkRef, CommitId)>());
    if list.contains(tip) {
        let i = choose|i: int| 0 <= i < list.len() && list[i] == tip;
        assert(is_superseded(newest)(list[i]));
    }
}

/// A ref of `upstream` or of another remote that may not speak for us never votes: without it the
/// same cut is the newest.
pub proof fn lemma_foreign_refs_never_vote(
    tips: Seq<(BookmarkRef, CommitId)>,
    publish_remote: Seq<char>,
    tip: (BookmarkRef, CommitId),
)
    requires
        !our_release(tip.0@, ReleaseScheme::Dated, publish_remote),
    ensures
        newest_cut(tips.push(tip), publish_remote) == newest_cut(tips, publish_remote),
{
    let more = tips.push(tip);
    more.lemma_filter_map_take_succ(voted(publish_remote), tips.len() as int);
    assert(more.take(tips.len() as int) =~= tips);
    assert(more.take(tips.len() as int + 1) =~= more);
    assert(more.filter_map(voted(publish_remote)) =~= tips.filter_map(voted(publish_remote)));
}

/// Nothing on `upstream` is ever reaped, nor the internal view.
pub proof fn lemma_upstream_is_never_reaped(
    tips: Seq<(BookmarkRef, CommitId)>,
    publish_remote: Seq<char>,
    tip: (BookmarkRef, CommitId),
)
    requires
        superseded_tips(tips, publish_remote).contains(tip),
    ensures
        reapable(tip.0@),
        tips.contains(tip),
{
    broadcast use vstd::seq_lib::group_filter_ensures;

    let newest = newest_cut(tips, publish_remote)->0;
    let list = tips.filter(is_superseded(newest));
    lemma_sorted(list, rank_of::<(BookmarkRef, CommitId)>());
    let i = choose|i: int| 0 <= i < list.len() && list[i] == tip;
    assert(is_superseded(newest)(list[i]));
    tips.lemma_filter_contains_rev(is_superseded(newest), tip);
}

/// While the live cut carries conflicts nothing is reaped.
pub proof fn lemma_unsettled_reaps_nothing(
    targets: Seq<(Seq<char>, Seq<Seq<char>>)>,
    live: Seq<char>,
    descendants: Seq<(CommitId, Vec<CommitId>)>,
)
    ensures
        targets.filter(reaped_target(Some(live), descendants)).len() == 0,
        targets.filter_map(kept_target(Some(live), descendants)).len() == targets.len(),
    decreases targets.len(),
{
    reveal(Seq::filter);
    if targets.len() > 0 {
        lemma_unsettled_reaps_nothing(targets.drop_last(), live, descendants);
    }
}

/// The newest cut is one that our references name, and none of them names a later one. There is one
/// exactly if some reference of ours names a dated cut.
pub proof fn lemma_newest_cut(tips: Seq<(BookmarkRef, CommitId)>, publish_remote: Seq<char>)
    ensures
        newest_cut(tips, publish_remote) is Some <==> exists|i: int|
            0 <= i < tips.len() && our_release((#[trigger] tips[i]).0@, ReleaseScheme::Dated, publish_remote)
                && dated_release(tips[i].0@.branch()) is Some,
        newest_cut(tips, publish_remote) matches Some(newest) ==> {
            &&& exists|i: int|
                0 <= i < tips.len() && our_release((#[trigger] tips[i]).0@, ReleaseScheme::Dated, publish_remote)
                    && dated_release(tips[i].0@.branch()) == Some(newest)
            &&& forall|i: int|
                0 <= i < tips.len() && our_release((#[trigger] tips[i]).0@, ReleaseScheme::Dated, publish_remote)
                    && dated_release(tips[i].0@.branch()) is Some ==> !lex_less(
                    newest.rank(),
                    dated_release(tips[i].0@.branch())->0.rank(),
                )
        },
{
    let vote = voted(publish_remote);
    let cuts = tips.filter_map(vote);
    if cuts.len() > 0 {
        lemma_latest(cuts);
        let newest = latest(cuts)->0;
        lemma_filter_map_has(tips, vote, newest);
    }
    assert forall|i: int|
        0 <= i < tips.len() && our_release((#[trigger] tips[i]).0@, ReleaseScheme::Dated, publish_remote)
            && dated_release(tips[i].0@.branch()) is Some implies cuts.contains(
        dated_release(tips[i].0@.branch())->0,
    ) by {
        let cut = dated_release(tips[i].0@.branch())->0;
        lemma_filter_map_has(tips, vote, cut);
        assert(vote(tips[i]) == Some(cut));
    }
    if let Some(newest) = newest_cut(tips, publish_remote) {
        assert forall|i: int|
            0 <= i < tips.len() && our_release((#[trigger] tips[i]).0@, ReleaseScheme::Dated, publish_remote)
                && dated_release(tips[i].0@.branch()) is Some implies !lex_less(
            newest.rank(),
            dated_release(tips[i].0@.branch())->0.rank(),
        ) by {
            let cut = dated_release(tips[i].0@.branch())->0;
            let k = choose|k: int| 0 <= k < cuts.len() && cuts[k] == cut;
            assert(!lex_less(newest.rank(), cuts[k].rank()));
        }
    }
}

/// A reference is superseded exactly if it is one of the tips, names a dated cut other than the newest,
/// and is local or on a remote that is neither the upstream nor the repository's own.
pub proof fn lemma_superseded_tips(
    tips: Seq<(BookmarkRef, CommitId)>,
    publish_remote: Seq<char>,
    tip: (BookmarkRef, CommitId),
)
    ensures
        superseded_tips(tips, publish_remote).contains(tip) <==> tips.contains(tip) && newest_cut(
            tips,
            publish_remote,
        ) is Some && dated_release(tip.0@.branch()) is Some && dated_release(tip.0@.branch()) != newest_cut(
            tips,
            publish_remote,
        ) && (tip.0@ is Local || tip.0@->remote != "upstream"@ && tip.0@->remote != "git"@),
{
    if let Some(newest) = newest_cut(tips, publish_remote) {
        let found = tips.filter(is_superseded(newest));
        lemma_sorted(found, rank_of::<(BookmarkRef, CommitId)>());
        assert(sorted(found, rank_of::<(BookmarkRef, CommitId)>()).contains(tip) <==> found.contains(tip));
        lemma_filter_has(tips, is_superseded(newest), tip);
    }
}

proof fn lemma_blocked(commits: Seq<Seq<char>>, descendants: Seq<(CommitId, Vec<CommitId>)>)
    ensures
        blocked(commits, descendants) is None <==> forall|i: int|
            0 <= i < commits.len() ==> descendants_of(descendants, #[trigger] commits[i]).len() == 0,
    decreases commits.len(),
{
    if commits.len() > 0 {
        let rest = commits.skip(1);
        lemma_blocked(rest, descendants);
        if blocked(commits, descendants) is None {
            assert forall|i: int| 0 <= i < commits.len() implies descendants_of(
                descendants,
                #[trigger] commits[i],
            ).len() == 0 by {
                if i > 0 {
                    assert(rest[i - 1] == commits[i]);
                }
            }
        }
        if forall|i: int| 0 <= i < commits.len() ==> descendants_of(descendants, #[trigger] commits[i]).len() == 0 {
            assert(descendants_of(descendants, commits[0]).len() == 0);
            assert forall|i: int| 0 <= i < rest.len() implies descendants_of(
                descendants,
                #[trigger] rest[i],
            ).len() == 0 by {
                assert(commits[i + 1] == rest[i]);
            }
        }
    }
}

/// A superseded cut is reaped exactly if the live cut is settled and nothing stands on any of its
/// commits; else it is kept, and a reason is given: every target is either kept or reaped.
pub proof fn lemma_reaped_exactly_where_nothing_stands(
    unsettled: Option<Seq<char>>,
    descendants: Seq<(CommitId, Vec<CommitId>)>,
    target: (Seq<char>, Seq<Seq<char>>),
)
    ensures
        reaped_target(unsettled, descendants)(target) <==> unsettled is None && forall|i: int|
            0 <= i < target.1.len() ==> (lookup(descendants, ranks(#[trigger] target.1[i])) matches Some(standing)
                ==> standing@.len() == 0),
        kept_target(unsettled, descendants)(target) is Some <==> !reaped_target(unsettled, descendants)(target),
        kept_target(unsettled, descendants)(target) matches Some(kept) ==> kept.0 == target.0,
        unsettled is Some ==> kept_target(unsettled, descendants)(target) == Some(
            (
                target.0,
                "the live cut "@ + unsettled->0
                    + " still carries conflicts; a superseded cut is the record of their last resolution"@,
            ),
        ),
{
    lemma_blocked(target.1, descendants);
    assert forall|i: int| 0 <= i < target.1.len() implies (descendants_of(descendants, #[trigger] target.1[i]).len() == 0
        <==> (lookup(descendants, ranks(target.1[i])) matches Some(standing) ==> standing@.len() == 0)) by {}
    if forall|i: int|
        0 <= i < target.1.len() ==> (lookup(descendants, ranks(#[trigger] target.1[i])) matches Some(standing)
            ==> standing@.len() == 0) {
        assert forall|i: int| 0 <= i < target.1.len() implies descendants_of(
            descendants,
            #[trigger] target.1[i],
        ).len() == 0 by {
            let list = lookup(descendants, ranks(target.1[i]));
        }
    }
}

/// The live cut is unsettled exactly if there is one and it carries conflicts.
pub proof fn lemma_unsettled_is_conflicted(input: ReapInput)
    ensures
        unsettled_live(input) is Some <==> input.live_conflicted && live_tip(input.tips@, input.publish_remote@) is Some,
        live_tip(input.tips@, input.publish_remote@) matches Some(tip) ==> (unsettled_live(input) matches Some(live)
            ==> live == tip.0@.branch()),
{
}

proof fn lemma_preferred(tips: Seq<(BookmarkRef, CommitId)>)
    requires
        tips.len() > 0,
    ensures
        preferred(tips) is Some,
        tips.contains(preferred(tips)->0),
        (exists|i: int| 0 <= i < tips.len() && (#[trigger] tips[i]).0@ is Local) ==> (preferred(tips)->0).0@ is Local,
    decreases tips.len(),
{
    let rest = tips.drop_last();
    let last = tips.len() - 1;
    assert(tips[last] == tips.last());
    if rest.len() > 0 {
        lemma_preferred(rest);
        let best = preferred(rest)->0;
        let k = choose|k: int| 0 <= k < rest.len() && rest[k] == best;
        assert(tips[k] == best);
        if exists|i: int| 0 <= i < tips.len() && (#[trigger] tips[i]).0@ is Local {
            let i = choose|i: int| 0 <= i < tips.len() && (#[trigger] tips[i]).0@ is Local;
            if i < last {
                assert(rest[i].0@ is Local);
            }
        }
    }
}

/// The live cut is a reference of ours to the newest cut, and a local one where there is a local one.
pub proof fn lemma_live_cut_is_newest(tips: Seq<(BookmarkRef, CommitId)>, publish_remote: Seq<char>)
    ensures
        live_tip(tips, publish_remote) is Some <==> newest_cut(tips, publish_remote) is Some,
        live_tip(tips, publish_remote) matches Some(live) ==> {
            &&& tips.contains(live)
            &&& our_release(live.0@, ReleaseScheme::Dated, publish_remote)
            &&& dated_release(live.0@.branch()) == newest_cut(tips, publish_remote)
            &&& (exists|i: int|
                0 <= i < tips.len() && (#[trigger] tips[i]).0@ is Local && our_release(
                    tips[i].0@,
                    ReleaseScheme::Dated,
                    publish_remote,
                ) && dated_release(tips[i].0@.branch()) == newest_cut(tips, publish_remote)) ==> live.0@ is Local
        },
{
    lemma_newest_cut(tips, publish_remote);
    if let Some(newest) = newest_cut(tips, publish_remote) {
        let keep = of_cut(newest, publish_remote);
        let found = tips.filter(keep);
        let i = choose|i: int|
            0 <= i < tips.len() && our_release((#[trigger] tips[i]).0@, ReleaseScheme::Dated, publish_remote)
                && dated_release(tips[i].0@.branch()) == Some(newest);
        tips.lemma_filter_contains(keep, i);
        lemma_preferred(found);
        lemma_filter_has(tips, keep, preferred(found)->0);
        if exists|i: int|
            0 <= i < tips.len() && (#[trigger] tips[i]).0@ is Local && our_release(
                tips[i].0@,
                ReleaseScheme::Dated,
                publish_remote,
            ) && dated_release(tips[i].0@.branch()) == newest_cut(tips, publish_remote) {
            let j = choose|j: int|
                0 <= j < tips.len() && (#[trigger] tips[j]).0@ is Local && our_release(
                    tips[j].0@,
                    ReleaseScheme::Dated,
                    publish_remote,
                ) && dated_release(tips[j].0@.branch()) == newest_cut(tips, publish_remote);
            tips.lemma_filter_contains(keep, j);
            let k = choose|k: int| 0 <= k < found.len() && found[k] == tips[j];
            assert(found[k].0@ is Local);
        }
    }
}

/// A commit may be stranded exactly if it is neither the previous release, nor kept, nor a dated release
/// of ours.
pub proof fn lemma_stranded_commits(
    answer: Seq<Seq<char>>,
    previous: Seq<char>,
    keep: Seq<Seq<char>>,
    tips: Seq<(BookmarkRef, CommitId)>,
    publish_remote: Seq<char>,
    commit: Seq<char>,
)
    ensures
        answer.filter(
            may_be_stranded(previous, keep, distinct_texts(commits_of(tips.filter(dated_ours(publish_remote))))),
        ).contains(commit) <==> answer.contains(commit) && commit != previous && !keep.contains(commit) && forall|i: int|
            0 <= i < tips.len() && our_release((#[trigger] tips[i]).0@, ReleaseScheme::Dated, publish_remote)
                && dated_release(tips[i].0@.branch()) is Some ==> tips[i].1@ != commit,
{
    let ours = tips.filter(dated_ours(publish_remote));
    let commits = commits_of(ours);
    let releases = distinct_texts(commits);
    lemma_distinct_texts(commits);
    lemma_filter_has(answer, may_be_stranded(previous, keep, releases), commit);
    assert(releases.contains(commit) <==> commits.contains(commit));
    if commits.contains(commit) {
        let k = choose|k: int| 0 <= k < commits.len() && commits[k] == commit;
        assert(ours.contains(ours[k]));
        lemma_filter_has(tips, dated_ours(publish_remote), ours[k]);
        let i = choose|i: int| 0 <= i < tips.len() && tips[i] == ours[k];
        assert(tips[i].1@ == commit);
    }
    assert forall|i: int|
        0 <= i < tips.len() && our_release((#[trigger] tips[i]).0@, ReleaseScheme::Dated, publish_remote)
            && dated_release(tips[i].0@.branch()) is Some implies commits.contains(tips[i].1@) by {
        tips.lemma_filter_contains(dated_ours(publish_remote), i);
        let k = choose|k: int| 0 <= k < ours.len() && ours[k] == tips[i];
        assert(commits[k] == tips[i].1@);
    }
}

/// What a run made of a chosen cut: it was reaped exactly if its commits were abandoned and nothing of
/// it was refused, and a refusal tells what still pins it exactly if the commit was immutable.
pub proof fn lemma_outcome_of_reaping(
    chosen: Seq<Seq<char>>,
    refused: Seq<Seq<char>>,
    abandoned: Seq<Seq<char>>,
    name: Seq<char>,
    refusal: (String, Refusal),
)
    ensures
        abandoned.filter(was_reaped(chosen, refused)).contains(name) <==> abandoned.contains(name) && chosen.contains(
            name,
        ) && !refused.contains(name),
        still_pinned()(refusal) is Some <==> refusal.1 is Immutable,
        failed_abandon()(refusal) is Some <==> refusal.1 is Other,
{
    lemma_filter_has(abandoned, was_reaped(chosen, refused), name);
}

/// The commits of a superseded name are those that its references stand at, each once.
pub proof fn lemma_commits_of_target(list: Seq<(BookmarkRef, CommitId)>, name: Seq<char>, commit: Seq<char>)
    ensures
        target_of(list)(name).0 == name,
        target_of(list)(name).1.no_duplicates(),
        target_of(list)(name).1.contains(commit) <==> exists|i: int|
            0 <= i < list.len() && (#[trigger] list[i]).0@.branch() == name && list[i].1@ == commit,
{
    let ours = list.filter(named(name));
    let commits = commits_of(ours);
    lemma_once(commits);
    assert(once(commits).contains(commit) <==> commits.contains(commit));
    if commits.contains(commit) {
        let k = choose|k: int| 0 <= k < commits.len() && commits[k] == commit;
        assert(ours.contains(ours[k]));
        lemma_filter_has(list, named(name), ours[k]);
        let i = choose|i: int| 0 <= i < list.len() && list[i] == ours[k];
        assert(list[i].0@.branch() == name);
    }
    if exists|i: int| 0 <= i < list.len() && (#[trigger] list[i]).0@.branch() == name && list[i].1@ == commit {
        let i = choose|i: int|
            0 <= i < list.len() && (#[trigger] list[i]).0@.branch() == name && list[i].1@ == commit;
        list.lemma_filter_contains(named(name), i);
        let k = choose|k: int| 0 <= k < ours.len() && ours[k] == list[i];
        assert(commits[k] == commit);
    }
}

/// A name is chosen to be reaped exactly if a superseded reference has it, the live cut is settled, and
/// nothing stands on any commit that a superseded reference of that name is at.
pub proof fn lemma_chosen_exactly(input: ReapInput, name: Seq<char>)
    ensures
        ({
            let list = superseded_tips(input.tips@, input.publish_remote@);
            chosen_names(input).contains(name) <==> (exists|i: int|
                0 <= i < list.len() && (#[trigger] list[i]).0@.branch() == name) && !(input.live_conflicted
                && live_tip(input.tips@, input.publish_remote@) is Some) && forall|i: int|
                0 <= i < list.len() && (#[trigger] list[i]).0@.branch() == name ==> (lookup(
                    input.descendants@,
                    ranks(list[i].1@),
                ) matches Some(standing) ==> standing@.len() == 0)
        }),
{
    let list = superseded_tips(input.tips@, input.publish_remote@);
    let names = names_of(list);
    let keys = distinct_texts(names);
    let targets = targets_of(list);
    let keep = reaped_target(unsettled_live(input), input.descendants@);
    let chosen = targets.filter(keep);
    let target = target_of(list)(name);
    lemma_distinct_texts(names);
    lemma_filter_has(targets, keep, target);
    lemma_reaped_exactly_where_nothing_stands(unsettled_live(input), input.descendants@, target);
    assert(keys.contains(name) <==> names.contains(name));
    if names.contains(name) {
        let i = choose|i: int| 0 <= i < names.len() && names[i] == name;
        assert(list[i].0@.branch() == name);
        let k = choose|k: int| 0 <= k < keys.len() && keys[k] == name;
        assert(targets[k] == target);
        assert(targets.contains(target));
    }
    if exists|i: int| 0 <= i < list.len() && (#[trigger] list[i]).0@.branch() == name {
        let i = choose|i: int| 0 <= i < list.len() && (#[trigger] list[i]).0@.branch() == name;
        assert(names[i] == name);
    }
    if chosen_names(input).contains(name) {
        let k = choose|k: int| 0 <= k < chosen_names(input).len() && chosen_names(input)[k] == name;
        assert(chosen.contains(chosen[k]));
        lemma_filter_has(targets, keep, chosen[k]);
        let m = choose|m: int| 0 <= m < targets.len() && targets[m] == chosen[k];
        assert(keys[m] == name);
        assert(keys.contains(name));
        assert(chosen[k] == target);
        assert forall|i: int| 0 <= i < list.len() && (#[trigger] list[i]).0@.branch() == name implies (lookup(
            input.descendants@,
            ranks(list[i].1@),
        ) matches Some(standing) ==> standing@.len() == 0) by {
            lemma_commits_of_target(list, name, list[i].1@);
            let c = choose|c: int| 0 <= c < target.1.len() && target.1[c] == list[i].1@;
            assert(target.1[c] == list[i].1@);
        }
    }
    if names.contains(name) && unsettled_live(input) is None && forall|i: int|
        0 <= i < list.len() && (#[trigger] list[i]).0@.branch() == name ==> (lookup(
            input.descendants@,
            ranks(list[i].1@),
        ) matches Some(standing) ==> standing@.len() == 0) {
        assert forall|c: int| 0 <= c < target.1.len() implies (lookup(
            input.descendants@,
            ranks(#[trigger] target.1[c]),
        ) matches Some(standing) ==> standing@.len() == 0) by {
            assert(target.1.contains(target.1[c]));
            lemma_commits_of_target(list, name, target.1[c]);
            let i = choose|i: int|
                0 <= i < list.len() && (#[trigger] list[i]).0@.branch() == name && list[i].1@ == target.1[c];
            assert(list[i].1@ == target.1[c]);
        }
        assert(keep(target));
        assert(chosen.contains(target));
        let k = choose|k: int| 0 <= k < chosen.len() && chosen[k] == target;
        assert(chosen_names(input)[k] == name);
    }
}

/// The question for stranded commits starts at the previous release and leaves out the keepers, the previous
/// release itself, our dated releases, or nothing in their place, and empty commits without words.
pub proof fn lemma_question_for_stranded(previous: Seq<char>, keep: Seq<Seq<char>>, releases: Seq<Seq<char>>)
    ensures
        ({
            let start = "::( "@ + previous + ":: ) ~ ::("@ + joined(keep, "|"@) + ") ~ "@ + previous + " ~ ("@;
            let end = ") ~ (empty() & description(exact:\"\"))"@;
            &&& releases.len() == 0 ==> orphan_question(previous, keep, releases) == start + "none()"@ + end
            &&& releases.len() > 0 ==> orphan_question(previous, keep, releases) == start + joined(releases, "|"@) + end
        }),
{
}

} // verus!
