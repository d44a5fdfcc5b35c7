//! Branches that another reference carries, and branches that touch the same files.

use vstd::prelude::*;
use vstd::string::*;

use crate::commands::status::{BranchRow, RowView};
use crate::detect::landed::LandedVerdict;
use crate::detect::overlap::{branch_overlaps, overlaps_of};
use crate::detect::stale_parents::{tip_of, BookmarkTips};
use crate::detect::superseded::{carried_elsewhere, carried_finding};
use crate::detect::{Finding, FindingKind, FindingView, SubjectView};
use crate::ids::{BookmarkRef, BookmarkView, BranchName};
use crate::order::{ascending, lemma_put, lookup, put, OrdMap};
use crate::seqs::{group_seqs, lemma_filter_has, lemma_filter_next, view_of, views};
use crate::text::{lemma_ranks_injective, ranks, same};

verus! {

/// The references that reach the tip of a branch, as the repository lists them.
pub open spec fn reached_from(
    carriers: Seq<(BranchName, Vec<BookmarkRef>)>,
    branch: Seq<char>,
) -> Seq<BookmarkRef> {
    match lookup(carriers, ranks(branch)) {
        Some(list) => list@,
        None => Seq::empty(),
    }
}

/// Whether a reference is another branch than `branch`, and not the trunk.
pub open spec fn elsewhere(branch: Seq<char>, trunk: Seq<char>) -> spec_fn(BookmarkRef) -> bool {
    |reference: BookmarkRef| reference@.branch() != branch && reference@.branch() != trunk
}

/// What is found of a row whose branch has a tip that the trunk is not known to have.
pub open spec fn carried_row(
    tips: Seq<(BookmarkRef, crate::ids::CommitId)>,
    carriers: Seq<(BranchName, Vec<BookmarkRef>)>,
    trunk: Seq<char>,
) -> spec_fn(RowView) -> Option<FindingView> {
    |row: RowView|
        if tip_of(tips, BookmarkView::Local(row.name)) is None || row.landed == Some(LandedVerdict::InTrunk) {
            None
        } else {
            carried_finding(
                row.name,
                views(reached_from(carriers, row.name).filter(elsewhere(row.name, trunk))),
            )
        }
}

fn other_carriers(list: &Vec<BookmarkRef>, branch: &BranchName, trunk: &str) -> (others: Vec<BookmarkRef>)
    ensures
        others@ == list@.filter(elsewhere(branch@, trunk@)),
{
    broadcast use group_seqs;

    let mut others: Vec<BookmarkRef> = Vec::new();
    let mut i: usize = 0;
    while i < list.len()
        invariant
            i <= list@.len(),
            others@ == list@.take(i as int).filter(elsewhere(branch@, trunk@)),
        decreases list@.len() - i,
    {
        proof {
            lemma_filter_next(list@, elsewhere(branch@, trunk@), i as int);
        }
        let named = list[i].branch();
        if !named.same(branch) && !same(named.as_str(), trunk) {
            others.push(list[i].clone());
        }
        i += 1;
    }
    others
}

/// Reports branches carried by another branch, excluding the configured trunk. `carriers` lists,
/// for each branch, every reference that reaches its tip.
pub fn carried_findings(
    rows: &Vec<BranchRow>,
    tips: &BookmarkTips,
    carriers: &OrdMap<BranchName, Vec<BookmarkRef>>,
    trunk: &str,
) -> (findings: Vec<Finding>)
    ensures
        views(findings@) == views(rows@).filter_map(carried_row(tips@, carriers@, trunk@)),
{
    broadcast use group_seqs;

    let mut findings: Vec<Finding> = Vec::new();
    let ghost all = views(rows@);
    let ghost carried = carried_row(tips@, carriers@, trunk@);
    let mut i: usize = 0;
    while i < rows.len()
        invariant
            i <= rows@.len(),
            all == views(rows@),
            carried == carried_row(tips@, carriers@, trunk@),
            views(findings@) == all.take(i as int).filter_map(carried),
        decreases rows@.len() - i,
    {
        let row = &rows[i];
        proof {
            all.lemma_filter_map_take_succ(carried, i as int);
            assert(all[i as int] == row@);
        }
        let in_trunk = match row.landed {
            Some(LandedVerdict::InTrunk) => true,
            _ => false,
        };
        let bookmark = BookmarkRef::Local(row.name.clone());
        assert(bookmark@ == BookmarkView::Local(row.name@));
        if tips.get(&bookmark).is_some() && !in_trunk {
            let nothing: Vec<BookmarkRef> = Vec::new();
            let list = match carriers.get(&row.name) {
                Some(list) => list,
                None => &nothing,
            };
            assert(list@ =~= reached_from(carriers@, row.name@));
            let others = other_carriers(list, &row.name, trunk);
            if let Some(finding) = carried_elsewhere(&row.name, &others) {
                findings.push(finding);
            }
        }
        assert(views(findings@) =~= all.take(i + 1).filter_map(carried));
        i += 1;
    }
    findings
}

/// From where the changed files of a branch are counted: the point where it left the trunk.
pub open spec fn fork_point(upstream_trunk: Seq<char>, branch: Seq<char>) -> Seq<char> {
    "fork_point("@ + upstream_trunk + " | "@ + branch + ")"@
}

/// From where the changed files of a row are counted; nothing where the row has no single tip.
pub fn path_question(upstream_trunk: &str, row: &BranchRow) -> (from: Option<String>)
    ensures
        view_of(from) == match row.tip {
            Some(_) => Some(fork_point(upstream_trunk@, row.name@)),
            None => None,
        },
{
    if row.tip.is_none() {
        return None;
    }
    let mut from = "fork_point(".to_owned();
    from.append(upstream_trunk);
    from.append(" | ");
    from.append(row.name.as_str());
    from.append(")");
    Some(from)
}

/// The files a branch changes, if it has a single tip to compare.
#[derive(Debug)]
pub struct BranchFiles {
    pub branch: BranchName,
    pub files: Option<Result<Vec<String>, String>>,
}

/// The files each branch changes, where they are known.
pub open spec fn touched_of(outcomes: Seq<BranchFiles>) -> Seq<(String, Vec<String>)>
    decreases outcomes.len(),
{
    if outcomes.len() == 0 {
        Seq::empty()
    } else {
        let rest = touched_of(outcomes.drop_last());
        match outcomes.last().files {
            Some(Ok(files)) => put(rest, outcomes.last().branch.text, files),
            _ => rest,
        }
    }
}

/// What is said of a branch without a single tip.
pub open spec fn untold_note() -> spec_fn(BranchFiles) -> Option<Seq<char>> {
    |outcome: BranchFiles|
        match outcome.files {
            None => Some("cannot compare paths for "@ + outcome.branch@ + ": it has no single tip"@),
            _ => None,
        }
}

/// What is said of a branch whose files could not be told.
pub open spec fn path_problem() -> spec_fn(BranchFiles) -> Option<Seq<char>> {
    |outcome: BranchFiles|
        match outcome.files {
            Some(Err(error)) => Some("cannot compare paths for "@ + outcome.branch@ + ": "@ + error@),
            _ => None,
        }
}

/// What comparing the files of branches gave.
#[derive(Debug)]
pub struct PathComparison {
    pub findings: Vec<Finding>,
    pub notes: Vec<String>,
    pub problems: Vec<String>,
}

/// Compares the files of branches: what several touch is found, a branch without a single tip is
/// noted, and a branch whose files could not be told is a problem.
pub fn add_branch_overlap_findings(outcomes: Vec<BranchFiles>) -> (compared: PathComparison)
    ensures
        views(compared.findings@) == overlaps_of(touched_of(outcomes@)),
        views(compared.notes@) == outcomes@.filter_map(untold_note()),
        views(compared.problems@) == outcomes@.filter_map(path_problem()),
{
    broadcast use group_seqs;

    let mut touching: OrdMap<String, Vec<String>> = OrdMap::new();
    let mut notes: Vec<String> = Vec::new();
    let mut problems: Vec<String> = Vec::new();
    let ghost all = outcomes@;
    assert(touching@ =~= Seq::<(String, Vec<String>)>::empty());
    for outcome in it: outcomes
        invariant
            it.seq() == all,
            touching@ == touched_of(all.take(it.index())),
            views(notes@) == all.take(it.index()).filter_map(untold_note()),
            views(problems@) == all.take(it.index()).filter_map(path_problem()),
    {
        let ghost i = it.index();
        proof {
            all.lemma_filter_map_take_succ(untold_note(), i);
            all.lemma_filter_map_take_succ(path_problem(), i);
            assert(all.take(i + 1).drop_last() =~= all.take(i));
            assert(outcome == all[i]);
        }
        match outcome.files {
            Some(Ok(files)) => {
                touching.insert(outcome.branch.text, files);
            },
            Some(Err(error)) => {
                let mut problem = "cannot compare paths for ".to_owned();
                problem.append(outcome.branch.as_str());
                problem.append(": ");
                problem.append(error.as_str());
                problems.push(problem);
            },
            None => {
                let mut note = "cannot compare paths for ".to_owned();
                note.append(outcome.branch.as_str());
                note.append(": it has no single tip");
                notes.push(note);
            },
        }
        assert(views(notes@) =~= all.take(i + 1).filter_map(untold_note()));
        assert(views(problems@) =~= all.take(i + 1).filter_map(path_problem()));
    }
    let findings = branch_overlaps(&touching);
    PathComparison { findings, notes, problems }
}

/// A branch is found to be carried elsewhere exactly if it has a local tip, has not landed, and a bookmark
/// of another name than its own and the trunk's reaches it.
pub proof fn lemma_carried_rows(
    tips: Seq<(BookmarkRef, crate::ids::CommitId)>,
    carriers: Seq<(BranchName, Vec<BookmarkRef>)>,
    trunk: Seq<char>,
    row: RowView,
)
    ensures
        carried_row(tips, carriers, trunk)(row) is Some <==> tip_of(tips, BookmarkView::Local(row.name)) is Some
            && row.landed != Some(LandedVerdict::InTrunk) && exists|i: int|
            0 <= i < reached_from(carriers, row.name).len() && (#[trigger] reached_from(
                carriers,
                row.name,
            )[i])@.branch() != row.name && reached_from(carriers, row.name)[i]@.branch() != trunk,
        carried_row(tips, carriers, trunk)(row) matches Some(finding) ==> finding.subject == SubjectView::Branch(
            row.name,
        ) && finding.kind == FindingKind::CarriedElsewhere,
{
    let list = reached_from(carriers, row.name);
    let others = list.filter(elsewhere(row.name, trunk));
    assert(views(others).len() == others.len());
    if others.len() > 0 {
        assert(others.contains(others[0]));
        lemma_filter_has(list, elsewhere(row.name, trunk), others[0]);
        let i = choose|i: int| 0 <= i < list.len() && list[i] == others[0];
        assert(list[i]@.branch() != row.name);
    }
    assert forall|i: int|
        0 <= i < list.len() && (#[trigger] list[i])@.branch() != row.name && list[i]@.branch() != trunk implies others.len()
        > 0 by {
        list.lemma_filter_contains(elsewhere(row.name, trunk), i);
    }
}

/// A branch's files are compared where they are known, noted as not told where it has no single tip, and a
/// problem where they could not be read: one of the three.
pub proof fn lemma_files_of_branch(outcome: BranchFiles)
    ensures
        untold_note()(outcome) is Some <==> outcome.files is None,
        path_problem()(outcome) is Some <==> outcome.files matches Some(Err(_)),
{
}

proof fn lemma_touched_ascending(outcomes: Seq<BranchFiles>)
    ensures
        ascending(touched_of(outcomes)),
    decreases outcomes.len(),
{
    if outcomes.len() > 0 {
        lemma_touched_ascending(outcomes.drop_last());
        if let Some(Ok(files)) = outcomes.last().files {
            lemma_put(touched_of(outcomes.drop_last()), outcomes.last().branch.text, files);
        }
    }
}

/// A branch is compared by the files told of it last; one whose files are not known changes nothing, and no
/// branch speaks for another.
pub proof fn lemma_touched_files(outcomes: Seq<BranchFiles>, outcome: BranchFiles, branch: Seq<char>)
    ensures
        touched_of(Seq::empty()).len() == 0,
        ({
            let before = lookup(touched_of(outcomes), ranks(branch));
            let after = lookup(touched_of(outcomes.push(outcome)), ranks(branch));
            &&& outcome.branch@ == branch && outcome.files is Some && outcome.files->0 is Ok ==> after == Some(
                outcome.files->0->Ok_0,
            )
            &&& outcome.branch@ != branch || outcome.files is None || outcome.files->0 is Err ==> after == before
        }),
{
    let all = outcomes.push(outcome);
    assert(all.drop_last() =~= outcomes);
    assert(all.last() == outcome);
    lemma_touched_ascending(outcomes);
    if let Some(Ok(files)) = outcome.files {
        lemma_put(touched_of(outcomes), outcome.branch.text, files);
        if outcome.branch@ != branch && ranks(outcome.branch@) == ranks(branch) {
            lemma_ranks_injective(outcome.branch@, branch);
        }
    }
}

} // verus!
