//! One change existing as more than one commit.

use vstd::prelude::*;
use vstd::string::*;

use crate::detect::{Finding, FindingKind, FindingView, Subject, SubjectView};
use crate::grouping::{
    distinct_members, keys_shared, lemma_members, lemma_pairs_push, lemma_same_rows, lemma_shared_keys, members_once,
    pairs, shared_keys,
};
use crate::ids::{ChangeId, CommitId};
use crate::seqs::{group_seqs, lemma_map_next, lemma_take_next, views};
use crate::sorting::strictly_ascending;
use crate::text::{decimal, decimal_text, join, joined};

verus! {

/// Each change with a commit that carries it.
pub open spec fn change_rows(commits: Seq<(ChangeId, CommitId)>) -> Seq<(Seq<char>, Seq<char>)> {
    Seq::new(commits.len(), |i: int| (commits[i].0@, commits[i].1@))
}

/// What is found of a change that several commits carry.
pub open spec fn divergence_of(rows: Seq<(Seq<char>, Seq<char>)>) -> spec_fn(Seq<char>) -> FindingView {
    |change: Seq<char>|
        {
            let ids = distinct_members(rows, change);
            FindingView {
                kind: FindingKind::Divergence,
                subject: SubjectView::Change(change),
                detail: "change "@ + change + " exists as "@ + decimal_text(ids.len()) + " commits ("@ + joined(
                    ids,
                    ", "@,
                ) + "); it was rewritten while another reference still pointed at the old commit"@,
            }
        }
}

/// What is found of the changes that several commits carry, in the order of their ids. A commit counts
/// once for a change, however often it is listed.
pub open spec fn divergences_of(commits: Seq<(ChangeId, CommitId)>) -> Seq<FindingView> {
    shared_keys(change_rows(commits)).map_values(divergence_of(change_rows(commits)))
}

/// Flag changes that exist as several commits, in the order of their ids.
///
/// The same change rewritten in two places and then fetched produces two commits sharing one id.
/// Divergence is routine, so the finding carries the cause rather than just the fact.
pub fn divergent_changes(commits: &[(ChangeId, CommitId)]) -> (findings: Vec<Finding>)
    ensures
        views(findings@) == divergences_of(commits@),
{
    broadcast use {group_seqs, lemma_pairs_push};

    let mut rows: Vec<(String, String)> = Vec::new();
    let mut i: usize = 0;
    while i < commits.len()
        invariant
            i <= commits@.len(),
            pairs(rows@) == change_rows(commits@).take(i as int),
        decreases commits@.len() - i,
    {
        proof {
            lemma_take_next(change_rows(commits@), i as int);
        }
        rows.push((commits[i].0.text.clone(), commits[i].1.text.clone()));
        i += 1;
    }
    let ghost all = change_rows(commits@);
    let changes = keys_shared(&rows);
    let mut findings: Vec<Finding> = Vec::new();
    let mut k: usize = 0;
    assert(views(findings@) =~= shared_keys(all).take(0).map_values(divergence_of(all)));
    while k < changes.len()
        invariant
            k <= changes@.len(),
            pairs(rows@) == all,
            views(changes@) == shared_keys(all),
            views(findings@) == shared_keys(all).take(k as int).map_values(divergence_of(all)),
        decreases changes@.len() - k,
    {
        let change = &changes[k];
        assert(shared_keys(all)[k as int] == change@);
        let ids = members_once(&rows, change.as_str());
        assert(views(ids@).len() == ids@.len());
        let mut detail = "change ".to_owned();
        detail.append(change.as_str());
        detail.append(" exists as ");
        detail.append(decimal(ids.len() as u64).as_str());
        detail.append(" commits (");
        detail.append(join(&ids, ", ").as_str());
        detail.append("); it was rewritten while another reference still pointed at the old commit");
        findings.push(
            Finding::new(FindingKind::Divergence, Subject::Change(ChangeId::new(change.as_str())), detail),
        );
        assert(findings@.last()@ == divergence_of(all)(change@));
        proof {
            lemma_map_next(shared_keys(all), divergence_of(all), k as int);
        }
        k += 1;
    }
    findings
}

/// There is one finding for each change that two different commits carry and none for any other, in
/// the order of the ids. It counts and names just the commits that carry the change, each once and in
/// order.
pub proof fn lemma_divergence_needs_two_commits(commits: Seq<(ChangeId, CommitId)>)
    ensures
        ({
            let rows = change_rows(commits);
            let changes = shared_keys(rows);
            &&& strictly_ascending(changes)
            &&& forall|change: Seq<char>| #[trigger]
                changes.contains(change) <==> exists|a: Seq<char>, b: Seq<char>|
                    a != b && #[trigger] rows.contains((change, a)) && #[trigger] rows.contains((change, b))
            &&& divergences_of(commits).len() == changes.len()
            &&& forall|i: int|
                0 <= i < changes.len() ==> #[trigger] divergences_of(commits)[i] == divergence_of(rows)(changes[i])
        }),
        forall|change: Seq<char>| strictly_ascending(#[trigger] distinct_members(change_rows(commits), change)),
        forall|change: Seq<char>, commit: Seq<char>| #[trigger]
            distinct_members(change_rows(commits), change).contains(commit) <==> change_rows(commits).contains(
                (change, commit),
            ),
{
    let rows = change_rows(commits);
    lemma_shared_keys(rows);
    assert forall|change: Seq<char>| strictly_ascending(#[trigger] distinct_members(rows, change)) by {
        lemma_members(rows, change);
    }
    assert forall|change: Seq<char>, commit: Seq<char>| #[trigger]
        distinct_members(rows, change).contains(commit) <==> rows.contains((change, commit)) by {
        lemma_members(rows, change);
    }
}

proof fn lemma_change_rows(a: Seq<(ChangeId, CommitId)>, b: Seq<(ChangeId, CommitId)>, row: (Seq<char>, Seq<char>))
    requires
        a.to_multiset() == b.to_multiset(),
        change_rows(a).contains(row),
    ensures
        change_rows(b).contains(row),
{
    broadcast use vstd::seq_lib::group_to_multiset_ensures;

    let i = choose|i: int| 0 <= i < a.len() && change_rows(a)[i] == row;
    assert(a.contains(a[i]));
    assert(b.to_multiset().count(a[i]) > 0);
    assert(b.contains(a[i]));
    let j = choose|j: int| 0 <= j < b.len() && b[j] == a[i];
    assert(change_rows(b)[j] == row);
}

/// What is found does not depend on the order in which the commits are listed.
pub proof fn lemma_divergence_ignores_order(a: Seq<(ChangeId, CommitId)>, b: Seq<(ChangeId, CommitId)>)
    requires
        a.to_multiset() == b.to_multiset(),
    ensures
        divergences_of(a) == divergences_of(b),
{
    assert forall|row: (Seq<char>, Seq<char>)| #[trigger]
        change_rows(a).contains(row) <==> change_rows(b).contains(row) by {
        if change_rows(a).contains(row) {
            lemma_change_rows(a, b, row);
        }
        if change_rows(b).contains(row) {
            lemma_change_rows(b, a, row);
        }
    }
    lemma_same_rows(change_rows(a), change_rows(b));
    assert forall|change: Seq<char>| #[trigger]
        divergence_of(change_rows(a))(change) == divergence_of(change_rows(b))(change) by {
        assert(distinct_members(change_rows(a), change) == distinct_members(change_rows(b), change));
    }
    assert(divergences_of(a) =~= divergences_of(b));
}

/// A commit is counted for the change it is of, and for no other.
pub proof fn lemma_commit_rows(commits: Seq<(ChangeId, CommitId)>, change: Seq<char>, commit: Seq<char>)
    ensures
        change_rows(commits).contains((change, commit)) <==> exists|i: int|
            0 <= i < commits.len() && (#[trigger] commits[i]).0@ == change && commits[i].1@ == commit,
        divergence_of(change_rows(commits))(change).kind == FindingKind::Divergence,
        divergence_of(change_rows(commits))(change).subject == SubjectView::Change(change),
{
    let rows = change_rows(commits);
    if rows.contains((change, commit)) {
        let i = choose|i: int| 0 <= i < rows.len() && rows[i] == (change, commit);
        assert(commits[i].0@ == change);
    }
    if exists|i: int| 0 <= i < commits.len() && (#[trigger] commits[i]).0@ == change && commits[i].1@ == commit {
        let i = choose|i: int|
            0 <= i < commits.len() && (#[trigger] commits[i]).0@ == change && commits[i].1@ == commit;
        assert(rows[i] == (change, commit));
    }
}

} // verus!
