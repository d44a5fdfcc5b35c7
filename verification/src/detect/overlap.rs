//! Branches that touch the same files.
//!
//! Two branches editing one file conflict when a release merges them, and the cut is a bad time to
//! find out. This is a path comparison and nothing more: whether the edits actually conflict is a
//! question for whoever reads the report.

use vstd::prelude::*;
use vstd::string::*;

use crate::detect::{Finding, FindingKind, FindingView, Subject, SubjectView};
use crate::grouping::{
    distinct_members, keys_shared, lemma_members, lemma_pairs_push, lemma_shared_keys, members_once, pairs, shared_keys,
};
use crate::order::OrdMap;
use crate::seqs::{gathered, group_seqs, lemma_gathered_next, lemma_map_next, lemma_take_next, views};
use crate::sorting::strictly_ascending;
use crate::text::{join, joined};

verus! {

/// Each file of one holder, with the holder.
pub open spec fn rows_of_holder(holder: Seq<char>, files: Seq<Seq<char>>) -> Seq<(Seq<char>, Seq<char>)> {
    Seq::new(files.len(), |i: int| (files[i], holder))
}

/// The rows one entry gives.
pub open spec fn holder_rows() -> spec_fn((String, Vec<String>)) -> Seq<(Seq<char>, Seq<char>)> {
    |entry: (String, Vec<String>)| rows_of_holder(entry.0@, views(entry.1@))
}

/// Each file with a holder that touches it, holder by holder.
pub open spec fn touch_rows(touching: Seq<(String, Vec<String>)>) -> Seq<(Seq<char>, Seq<char>)> {
    gathered(touching, holder_rows())
}

/// The rows of a file and a holder, holder by holder.
pub fn file_rows(touching: &OrdMap<String, Vec<String>>) -> (rows: Vec<(String, String)>)
    ensures
        pairs(rows@) == touch_rows(touching@),
{
    broadcast use {group_seqs, lemma_pairs_push};

    let mut rows: Vec<(String, String)> = Vec::new();
    let mut i: usize = 0;
    assert(pairs(rows@) =~= Seq::empty());
    while i < touching.len()
        invariant
            i <= touching@.len(),
            pairs(rows@) == gathered(touching@.take(i as int), holder_rows()),
        decreases touching@.len() - i,
    {
        let holder = touching.key(i);
        let files = touching.value(i);
        let ghost before = pairs(rows@);
        let ghost mine = rows_of_holder(holder@, views(files@));
        let mut j: usize = 0;
        assert(before + mine.take(0) =~= before);
        while j < files.len()
            invariant
                j <= files@.len(),
                mine == rows_of_holder(holder@, views(files@)),
                pairs(rows@) == before + mine.take(j as int),
            decreases files@.len() - j,
        {
            proof {
                lemma_take_next(mine, j as int);
                assert(mine[j as int] == (files@[j as int]@, holder@));
                assert((before + mine.take(j as int)).push(mine[j as int]) =~= before + mine.take(j + 1));
            }
            rows.push((files[j].clone(), holder.clone()));
            j += 1;
        }
        proof {
            lemma_gathered_next(touching@, holder_rows(), i as int);
        }
        i += 1;
    }
    rows
}

/// What is found of a file that several branches touch.
pub open spec fn overlap_of(rows: Seq<(Seq<char>, Seq<char>)>) -> spec_fn(Seq<char>) -> FindingView {
    |file: Seq<char>|
        FindingView {
            kind: FindingKind::BranchOverlap,
            subject: SubjectView::File(file),
            detail: file + " is touched by "@ + joined(distinct_members(rows, file), ", "@),
        }
}

/// What is found of the files that several branches touch, in the order of the files. A branch counts
/// once for a file, however often it lists it.
pub open spec fn overlaps_of(touching: Seq<(String, Vec<String>)>) -> Seq<FindingView> {
    shared_keys(touch_rows(touching)).map_values(overlap_of(touch_rows(touching)))
}

/// Files touched by more than one branch, one finding per file and in the order of the files.
///
/// One finding per file rather than per pair: three branches on one file is one fact about that
/// file.
pub fn branch_overlaps(touching: &OrdMap<String, Vec<String>>) -> (findings: Vec<Finding>)
    ensures
        views(findings@) == overlaps_of(touching@),
{
    broadcast use group_seqs;

    let rows = file_rows(touching);
    let ghost all = touch_rows(touching@);
    let files = keys_shared(&rows);
    let mut findings: Vec<Finding> = Vec::new();
    let mut k: usize = 0;
    assert(views(findings@) =~= shared_keys(all).take(0).map_values(overlap_of(all)));
    while k < files.len()
        invariant
            k <= files@.len(),
            pairs(rows@) == all,
            views(files@) == shared_keys(all),
            views(findings@) == shared_keys(all).take(k as int).map_values(overlap_of(all)),
        decreases files@.len() - k,
    {
        let file = &files[k];
        assert(shared_keys(all)[k as int] == file@);
        let branches = members_once(&rows, file.as_str());
        let mut detail = file.clone();
        detail.append(" is touched by ");
        detail.append(join(&branches, ", ").as_str());
        findings.push(Finding::new(FindingKind::BranchOverlap, Subject::File(file.clone()), detail));
        assert(findings@.last()@ == overlap_of(all)(file@));
        proof {
            lemma_map_next(shared_keys(all), overlap_of(all), k as int);
        }
        k += 1;
    }
    findings
}

/// Whether a branch lists a file.
pub open spec fn touches(touching: Seq<(String, Vec<String>)>, branch: Seq<char>, file: Seq<char>) -> bool {
    exists|i: int, j: int|
        0 <= i < touching.len() && 0 <= j < touching[i].1@.len() && touching[i].0@ == branch
            && #[trigger] touching[i].1@[j]@ == file
}

proof fn lemma_touch_rows(touching: Seq<(String, Vec<String>)>, branch: Seq<char>, file: Seq<char>)
    ensures
        touch_rows(touching).contains((file, branch)) <==> touches(touching, branch, file),
    decreases touching.len(),
{
    let rows = touch_rows(touching);
    if touching.len() > 0 {
        let rest = touching.drop_last();
        let n = touching.len() - 1;
        let mine = holder_rows()(touching.last());
        let earlier = touch_rows(rest);
        lemma_touch_rows(rest, branch, file);
        assert(rows == earlier + mine);
        if rows.contains((file, branch)) {
            let k = choose|k: int| 0 <= k < rows.len() && rows[k] == (file, branch);
            if k < earlier.len() {
                assert(earlier[k] == (file, branch));
                let (i, j) = choose|i: int, j: int|
                    0 <= i < rest.len() && 0 <= j < rest[i].1@.len() && rest[i].0@ == branch
                        && #[trigger] rest[i].1@[j]@ == file;
                assert(touching[i].1@[j]@ == file);
            } else {
                assert(mine[k - earlier.len()] == (file, branch));
                assert(touching[n].1@[k - earlier.len()]@ == file);
            }
        }
        if touches(touching, branch, file) {
            let (i, j) = choose|i: int, j: int|
                0 <= i < touching.len() && 0 <= j < touching[i].1@.len() && touching[i].0@ == branch
                    && #[trigger] touching[i].1@[j]@ == file;
            if i < n {
                assert(rest[i].1@[j]@ == file);
                let k = choose|k: int| 0 <= k < earlier.len() && earlier[k] == (file, branch);
                assert(rows[k] == (file, branch));
            } else {
                assert(mine[j] == (file, branch));
                assert(rows[earlier.len() + j] == (file, branch));
            }
        }
    }
}

/// There is one finding for each file that two different branches touch and none for any other, in the
/// order of the files. It names just the branches that touch the file, each once and in order.
pub proof fn lemma_overlaps_need_two_branches(touching: Seq<(String, Vec<String>)>)
    ensures
        ({
            let files = shared_keys(touch_rows(touching));
            &&& strictly_ascending(files)
            &&& forall|file: Seq<char>| #[trigger]
                files.contains(file) <==> exists|a: Seq<char>, b: Seq<char>|
                    a != b && #[trigger] touches(touching, a, file) && #[trigger] touches(touching, b, file)
            &&& overlaps_of(touching).len() == files.len()
            &&& forall|i: int|
                0 <= i < files.len() ==> (#[trigger] overlaps_of(touching)[i]).kind == FindingKind::BranchOverlap
                    && overlaps_of(touching)[i].subject == SubjectView::File(files[i])
                    && overlaps_of(touching)[i].detail == files[i] + " is touched by "@ + joined(
                    distinct_members(touch_rows(touching), files[i]),
                    ", "@,
                )
        }),
        forall|file: Seq<char>|
            strictly_ascending(#[trigger] distinct_members(touch_rows(touching), file)),
        forall|file: Seq<char>, branch: Seq<char>| #[trigger]
            distinct_members(touch_rows(touching), file).contains(branch) <==> touches(touching, branch, file),
{
    let rows = touch_rows(touching);
    let files = shared_keys(rows);
    lemma_shared_keys(rows);
    assert forall|file: Seq<char>| #[trigger]
        files.contains(file) <==> exists|a: Seq<char>, b: Seq<char>|
            a != b && #[trigger] touches(touching, a, file) && #[trigger] touches(touching, b, file) by {
        if files.contains(file) {
            let (a, b) = choose|a: Seq<char>, b: Seq<char>|
                a != b && #[trigger] rows.contains((file, a)) && #[trigger] rows.contains((file, b));
            lemma_touch_rows(touching, a, file);
            lemma_touch_rows(touching, b, file);
            assert(touches(touching, a, file) && touches(touching, b, file));
        }
        if exists|a: Seq<char>, b: Seq<char>|
            a != b && #[trigger] touches(touching, a, file) && #[trigger] touches(touching, b, file) {
            let (a, b) = choose|a: Seq<char>, b: Seq<char>|
                a != b && #[trigger] touches(touching, a, file) && #[trigger] touches(touching, b, file);
            lemma_touch_rows(touching, a, file);
            lemma_touch_rows(touching, b, file);
            assert(rows.contains((file, a)) && rows.contains((file, b)));
        }
    }
    assert forall|file: Seq<char>| strictly_ascending(#[trigger] distinct_members(rows, file)) by {
        lemma_members(rows, file);
    }
    assert forall|file: Seq<char>, branch: Seq<char>| #[trigger]
        distinct_members(rows, file).contains(branch) <==> touches(touching, branch, file) by {
        lemma_members(rows, file);
        lemma_touch_rows(touching, branch, file);
    }
}

} // verus!
