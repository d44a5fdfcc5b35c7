//! Release parents the branch has moved off.

use vstd::prelude::*;
use vstd::string::*;

use crate::detect::{Finding, FindingKind, FindingView, Subject, SubjectView};
use crate::ids::{bookmark_rank, BookmarkRef, BookmarkView, CommitId};
use crate::order::{lookup, OrdMap};
use crate::seqs::{gathered, group_seqs, lemma_gathered_next, lemma_take_next, views};
use crate::text::{join, joined};

verus! {

/// One parent of a release merge, with every bookmark pointing at it.
#[derive(Debug, PartialEq, Eq)]
pub struct ReleaseParent {
    pub commit: CommitId,
    pub bookmarks: Vec<BookmarkRef>,
}

/// What a release parent is.
pub struct ParentView {
    pub commit: Seq<char>,
    pub bookmarks: Seq<BookmarkView>,
}

impl View for ReleaseParent {
    type V = ParentView;

    open spec fn view(&self) -> ParentView {
        ParentView { commit: self.commit@, bookmarks: views(self.bookmarks@) }
    }
}

impl Clone for ReleaseParent {
    fn clone(&self) -> (copy: Self)
        ensures
            copy@ == self@,
            copy.commit == self.commit,
    {
        let mut bookmarks: Vec<BookmarkRef> = Vec::new();
        let mut i: usize = 0;
        while i < self.bookmarks.len()
            invariant
                i <= self.bookmarks@.len(),
                bookmarks@ == self.bookmarks@.take(i as int),
            decreases self.bookmarks@.len() - i,
        {
            bookmarks.push(self.bookmarks[i].clone());
            i += 1;
            assert(bookmarks@ =~= self.bookmarks@.take(i as int));
        }
        assert(bookmarks@ =~= self.bookmarks@);
        ReleaseParent { commit: self.commit.clone(), bookmarks }
    }
}

/// Tip of every bookmark, local and remote kept apart.
pub type BookmarkTips = OrdMap<BookmarkRef, CommitId>;

/// Where a bookmark points.
pub open spec fn tip_of(tips: Seq<(BookmarkRef, CommitId)>, bookmark: BookmarkView) -> Option<Seq<char>> {
    match lookup(tips, bookmark_rank(bookmark)) {
        Some(commit) => Some(commit@),
        None => None,
    }
}

/// Whether some bookmark on the parent still points at it.
pub open spec fn held(parent: ParentView, tips: Seq<(BookmarkRef, CommitId)>) -> bool {
    exists|i: int|
        0 <= i < parent.bookmarks.len() && #[trigger] tip_of(tips, parent.bookmarks[i]) == Some(parent.commit)
}

fn is_held(parent: &ReleaseParent, tips: &BookmarkTips) -> (r: bool)
    ensures
        r == held(parent@, tips@),
{
    let mut i: usize = 0;
    while i < parent.bookmarks.len()
        invariant
            i <= parent.bookmarks@.len(),
            forall|j: int|
                0 <= j < i ==> #[trigger] tip_of(tips@, parent@.bookmarks[j]) != Some(parent.commit@),
        decreases parent.bookmarks@.len() - i,
    {
        let tip = tips.get(&parent.bookmarks[i]);
        assert(parent@.bookmarks[i as int] == parent.bookmarks@[i as int]@);
        if let Some(commit) = tip {
            if commit.same(&parent.commit) {
                assert(tip_of(tips@, parent@.bookmarks[i as int]) == Some(parent@.commit));
                return true;
            }
        }
        i += 1;
    }
    false
}

/// Where a bookmark is now, in words.
pub open spec fn position(tips: Seq<(BookmarkRef, CommitId)>) -> spec_fn(BookmarkView) -> Seq<char> {
    |bookmark: BookmarkView|
        bookmark.text() + " is now "@ + match tip_of(tips, bookmark) {
            Some(commit) => commit,
            None => "unknown"@,
        }
}

/// Why a parent is stale, in words.
pub open spec fn stale_detail(parent: ParentView, tips: Seq<(BookmarkRef, CommitId)>) -> Seq<char> {
    if parent.bookmarks.len() == 0 {
        "parent "@ + parent.commit + " carries no bookmark, so the release pins a revision nothing points at"@
    } else {
        "parent "@ + parent.commit + " is no longer the tip of its branch ("@ + joined(
            parent.bookmarks.map_values(position(tips)),
            ", "@,
        ) + ")"@
    }
}

fn detail(parent: &ReleaseParent, tips: &BookmarkTips) -> (text: String)
    ensures
        text@ == stale_detail(parent@, tips@),
{
    broadcast use group_seqs;

    let mut text = "parent ".to_owned();
    text.append(parent.commit.as_str());
    if parent.bookmarks.len() == 0 {
        text.append(" carries no bookmark, so the release pins a revision nothing points at");
        return text;
    }
    let mut moved: Vec<String> = Vec::new();
    let ghost all = parent@.bookmarks.map_values(position(tips@));
    let mut i: usize = 0;
    while i < parent.bookmarks.len()
        invariant
            i <= parent.bookmarks@.len(),
            all == parent@.bookmarks.map_values(position(tips@)),
            views(moved@) == all.take(i as int),
        decreases parent.bookmarks@.len() - i,
    {
        let reference = &parent.bookmarks[i];
        let mut line = reference.to_text();
        line.append(" is now ");
        match tips.get(reference) {
            Some(commit) => {
                line.append(commit.as_str());
            },
            None => {
                line.append("unknown");
            },
        }
        proof {
            lemma_take_next(all, i as int);
            assert(all[i as int] == position(tips@)(reference@));
        }
        moved.push(line);
        i += 1;
    }
    text.append(" is no longer the tip of its branch (");
    text.append(join(&moved, ", ").as_str());
    text.append(")");
    text
}

/// What is found of one parent: something only where no bookmark holds it.
pub open spec fn staleness(tips: Seq<(BookmarkRef, CommitId)>) -> spec_fn(ParentView) -> Seq<FindingView> {
    |parent: ParentView|
        if held(parent, tips) {
            Seq::empty()
        } else {
            seq![
                FindingView {
                    kind: FindingKind::StaleParent,
                    subject: SubjectView::Commit(parent.commit),
                    detail: stale_detail(parent, tips),
                },
            ]
        }
}

/// Flag release parents that nothing points at any more, as the parents stand.
///
/// A remote rewrite moves the bookmark to a new commit while the merge keeps the old one, so the
/// release silently ships code from before the rewrite. A parent is held when any bookmark on it
/// still points at it. Local and remote refs are separate keys, so a remote ref only holds a parent
/// when the remote really still points there.
pub fn stale_parents(parents: &[ReleaseParent], tips: &BookmarkTips) -> (findings: Vec<Finding>)
    ensures
        views(findings@) == gathered(views(parents@), staleness(tips@)),
{
    broadcast use group_seqs;

    let mut findings: Vec<Finding> = Vec::new();
    let ghost all = views(parents@);
    let mut i: usize = 0;
    while i < parents.len()
        invariant
            i <= parents@.len(),
            all == views(parents@),
            views(findings@) == gathered(all.take(i as int), staleness(tips@)),
        decreases parents@.len() - i,
    {
        let parent = &parents[i];
        proof {
            lemma_gathered_next(all, staleness(tips@), i as int);
            assert(all[i as int] == parent@);
        }
        if !is_held(parent, tips) {
            findings.push(
                Finding::new(FindingKind::StaleParent, Subject::Commit(parent.commit.clone()), detail(parent, tips)),
            );
            assert(staleness(tips@)(parent@) =~= seq![findings@.last()@]);
        }
        i += 1;
    }
    findings
}

/// A parent that one of its bookmarks still points at is never reported.
pub proof fn lemma_held_is_not_stale(
    parent: ParentView,
    tips: Seq<(BookmarkRef, CommitId)>,
    bookmark: BookmarkView,
)
    requires
        parent.bookmarks.contains(bookmark),
        tip_of(tips, bookmark) == Some(parent.commit),
    ensures
        staleness(tips)(parent) == Seq::<FindingView>::empty(),
{
    let i = choose|i: int| 0 <= i < parent.bookmarks.len() && parent.bookmarks[i] == bookmark;
    assert(tip_of(tips, parent.bookmarks[i]) == Some(parent.commit));
}

/// A parent is stale exactly if none of its bookmarks stands at it now; one without a bookmark always is.
pub proof fn lemma_stale_exactly_where_nothing_holds(parent: ParentView, tips: Seq<(BookmarkRef, CommitId)>)
    ensures
        staleness(tips)(parent).len() == (if exists|i: int|
            0 <= i < parent.bookmarks.len() && (lookup(tips, bookmark_rank(#[trigger] parent.bookmarks[i])) matches Some(
                commit,
            ) && commit@ == parent.commit) {
            0int
        } else {
            1int
        }),
        parent.bookmarks.len() == 0 ==> staleness(tips)(parent).len() == 1,
        staleness(tips)(parent).len() == 1 ==> staleness(tips)(parent)[0].kind == FindingKind::StaleParent
            && staleness(tips)(parent)[0].subject == SubjectView::Commit(parent.commit),
{
    if held(parent, tips) {
        let i = choose|i: int|
            0 <= i < parent.bookmarks.len() && #[trigger] tip_of(tips, parent.bookmarks[i]) == Some(parent.commit);
        let bookmark = parent.bookmarks[i];
        assert(lookup(tips, bookmark_rank(bookmark)) is Some);
    }
    assert forall|i: int|
        0 <= i < parent.bookmarks.len() && (lookup(tips, bookmark_rank(#[trigger] parent.bookmarks[i])) matches Some(
            commit,
        ) && commit@ == parent.commit) implies held(parent, tips) by {
        assert(tip_of(tips, parent.bookmarks[i]) == Some(parent.commit));
    }
}

/// A stale parent is told by its commit: that nothing points at it exactly if it carries no bookmark, else
/// where each of its bookmarks is now.
pub proof fn lemma_words_of_stale_parent(parent: ParentView, tips: Seq<(BookmarkRef, CommitId)>)
    ensures
        parent.bookmarks.len() == 0 ==> stale_detail(parent, tips) == "parent "@ + parent.commit
            + " carries no bookmark, so the release pins a revision nothing points at"@,
        parent.bookmarks.len() > 0 ==> stale_detail(parent, tips) == "parent "@ + parent.commit
            + " is no longer the tip of its branch ("@ + joined(parent.bookmarks.map_values(position(tips)), ", "@)
            + ")"@,
{
}

} // verus!
