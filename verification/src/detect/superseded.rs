//! Work that has been carried somewhere else.
//!
//! The maintainer making their own branch out of your commits looks like nothing at all from the
//! branch's own point of view: it is not merged, not conflicted, and still open. What it is,
//! mechanically, is a tip reachable from some other reference.

use vstd::prelude::*;
use vstd::string::*;

use crate::detect::{Finding, FindingKind, FindingView, Subject, SubjectView};
use crate::ids::{BookmarkRef, BookmarkView, BranchName};
use crate::seqs::{group_seqs, lemma_take_next, view_of, views};
use crate::text::{join, joined};

verus! {

/// The bookmarks as they are written.
pub open spec fn written(bookmarks: Seq<BookmarkView>) -> Seq<Seq<char>> {
    Seq::new(bookmarks.len(), |i: int| bookmarks[i].text())
}

/// The bookmarks as they are written.
pub fn bookmark_texts(bookmarks: &[BookmarkRef]) -> (texts: Vec<String>)
    ensures
        views(texts@) == written(views(bookmarks@)),
{
    broadcast use group_seqs;

    let mut texts: Vec<String> = Vec::new();
    let ghost all = written(views(bookmarks@));
    let mut i: usize = 0;
    while i < bookmarks.len()
        invariant
            i <= bookmarks@.len(),
            all == written(views(bookmarks@)),
            views(texts@) == all.take(i as int),
        decreases bookmarks@.len() - i,
    {
        proof {
            lemma_take_next(all, i as int);
        }
        texts.push(bookmarks[i].to_text());
        i += 1;
    }
    texts
}

/// What is found of a branch whose tip the carriers reach.
pub open spec fn carried_finding(branch: Seq<char>, carriers: Seq<BookmarkView>) -> Option<FindingView> {
    if carriers.len() == 0 {
        None
    } else {
        Some(
            FindingView {
                kind: FindingKind::CarriedElsewhere,
                subject: SubjectView::Branch(branch),
                detail: branch + "'s tip is also reachable from "@ + joined(written(carriers), ", "@),
            },
        )
    }
}

/// A branch whose tip is reachable from references other than its own.
///
/// Says where it was found and nothing about what it means: whether the maintainer took the work,
/// rebased it, or coincidentally landed the same content is left to the reader.
pub fn carried_elsewhere(branch: &BranchName, carriers: &[BookmarkRef]) -> (finding: Option<Finding>)
    ensures
        view_of(finding) == carried_finding(branch@, views(carriers@)),
{
    if carriers.len() == 0 {
        return None;
    }
    let named = bookmark_texts(carriers);
    let mut detail = branch.text.clone();
    detail.append("'s tip is also reachable from ");
    detail.append(join(&named, ", ").as_str());
    Some(Finding::new(FindingKind::CarriedElsewhere, Subject::Branch(branch.clone()), detail))
}

/// A branch is carried elsewhere exactly if some bookmark carries it.
pub proof fn lemma_carried_needs_a_carrier(branch: Seq<char>, carriers: Seq<BookmarkView>)
    ensures
        carried_finding(branch, carriers) is Some <==> carriers.len() > 0,
        carried_finding(branch, carriers) matches Some(finding) ==> finding.kind == FindingKind::CarriedElsewhere
            && finding.subject == SubjectView::Branch(branch),
{
}

} // verus!
