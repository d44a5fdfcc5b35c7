//! Two workspaces holding `@` on one change.

use vstd::prelude::*;
use vstd::string::*;

use crate::detect::{Finding, FindingKind, FindingView, Subject, SubjectView};
use crate::grouping::{
    distinct_members, keys_shared, lemma_members, lemma_pairs_push, lemma_shared_keys, members_once, pairs, shared_keys,
};
use crate::ids::{ChangeId, WorkspaceName};
use crate::seqs::{group_seqs, lemma_map_next, lemma_take_next, views};
use crate::sorting::strictly_ascending;
use crate::text::{join, joined};

verus! {

/// Each change with a workspace that has it checked out.
pub open spec fn checkout_rows(workspaces: Seq<(WorkspaceName, ChangeId)>) -> Seq<(Seq<char>, Seq<char>)> {
    Seq::new(workspaces.len(), |i: int| (workspaces[i].1@, workspaces[i].0@))
}

/// What is found of a change that several workspaces have checked out.
pub open spec fn checkout_of(rows: Seq<(Seq<char>, Seq<char>)>) -> spec_fn(Seq<char>) -> FindingView {
    |change: Seq<char>|
        FindingView {
            kind: FindingKind::DoubleCheckout,
            subject: SubjectView::Change(change),
            detail: "workspaces "@ + joined(distinct_members(rows, change), ", "@) + " all have @ on change "@ + change,
        }
}

/// What is found of the changes that several workspaces have checked out, in the order of the changes.
/// A workspace counts once for a change, however often it is listed.
pub open spec fn checkouts_of(workspaces: Seq<(WorkspaceName, ChangeId)>) -> Seq<FindingView> {
    shared_keys(checkout_rows(workspaces)).map_values(checkout_of(checkout_rows(workspaces)))
}

/// Flag any change that more than one workspace has checked out, in the order of the changes.
///
/// This is the direct precondition for divergence: whichever workspace runs the next command
/// snapshots its own tree into that change, and the other workspace's edits are clobbered or
/// diverged.
pub fn double_checkout(workspaces: &[(WorkspaceName, ChangeId)]) -> (findings: Vec<Finding>)
    ensures
        views(findings@) == checkouts_of(workspaces@),
{
    broadcast use {group_seqs, lemma_pairs_push};

    let mut rows: Vec<(String, String)> = Vec::new();
    let mut i: usize = 0;
    while i < workspaces.len()
        invariant
            i <= workspaces@.len(),
            pairs(rows@) == checkout_rows(workspaces@).take(i as int),
        decreases workspaces@.len() - i,
    {
        proof {
            lemma_take_next(checkout_rows(workspaces@), i as int);
        }
        rows.push((workspaces[i].1.text.clone(), workspaces[i].0.text.clone()));
        i += 1;
    }
    let ghost all = checkout_rows(workspaces@);
    let changes = keys_shared(&rows);
    let mut findings: Vec<Finding> = Vec::new();
    let mut k: usize = 0;
    assert(views(findings@) =~= shared_keys(all).take(0).map_values(checkout_of(all)));
    while k < changes.len()
        invariant
            k <= changes@.len(),
            pairs(rows@) == all,
            views(changes@) == shared_keys(all),
            views(findings@) == shared_keys(all).take(k as int).map_values(checkout_of(all)),
        decreases changes@.len() - k,
    {
        let change = &changes[k];
        assert(shared_keys(all)[k as int] == change@);
        let names = members_once(&rows, change.as_str());
        let mut detail = "workspaces ".to_owned();
        detail.append(join(&names, ", ").as_str());
        detail.append(" all have @ on change ");
        detail.append(change.as_str());
        findings.push(
            Finding::new(FindingKind::DoubleCheckout, Subject::Change(ChangeId::new(change.as_str())), detail),
        );
        assert(findings@.last()@ == checkout_of(all)(change@));
        proof {
            lemma_map_next(shared_keys(all), checkout_of(all), k as int);
        }
        k += 1;
    }
    findings
}

/// There is one finding for each change that two different workspaces have checked out and none for any
/// other, in the order of the changes. It names just those workspaces, each once and in order.
pub proof fn lemma_double_checkout_needs_two_workspaces(workspaces: Seq<(WorkspaceName, ChangeId)>)
    ensures
        ({
            let rows = checkout_rows(workspaces);
            let changes = shared_keys(rows);
            &&& strictly_ascending(changes)
            &&& forall|change: Seq<char>| #[trigger]
                changes.contains(change) <==> exists|a: Seq<char>, b: Seq<char>|
                    a != b && #[trigger] rows.contains((change, a)) && #[trigger] rows.contains((change, b))
            &&& checkouts_of(workspaces).len() == changes.len()
            &&& forall|i: int|
                0 <= i < changes.len() ==> #[trigger] checkouts_of(workspaces)[i] == checkout_of(rows)(changes[i])
        }),
        forall|change: Seq<char>| strictly_ascending(#[trigger] distinct_members(checkout_rows(workspaces), change)),
        forall|change: Seq<char>, name: Seq<char>| #[trigger]
            distinct_members(checkout_rows(workspaces), change).contains(name) <==> checkout_rows(
                workspaces,
            ).contains((change, name)),
{
    let rows = checkout_rows(workspaces);
    lemma_shared_keys(rows);
    assert forall|change: Seq<char>| strictly_ascending(#[trigger] distinct_members(rows, change)) by {
        lemma_members(rows, change);
    }
    assert forall|change: Seq<char>, name: Seq<char>| #[trigger]
        distinct_members(rows, change).contains(name) <==> rows.contains((change, name)) by {
        lemma_members(rows, change);
    }
}

/// A workspace is counted for the change it stands on, and for no other.
pub proof fn lemma_checkout_rows(workspaces: Seq<(WorkspaceName, ChangeId)>, change: Seq<char>, name: Seq<char>)
    ensures
        checkout_rows(workspaces).contains((change, name)) <==> exists|i: int|
            0 <= i < workspaces.len() && (#[trigger] workspaces[i]).0@ == name && workspaces[i].1@ == change,
        checkout_of(checkout_rows(workspaces))(change).kind == FindingKind::DoubleCheckout,
        checkout_of(checkout_rows(workspaces))(change).subject == SubjectView::Change(change),
{
    let rows = checkout_rows(workspaces);
    if rows.contains((change, name)) {
        let i = choose|i: int| 0 <= i < rows.len() && rows[i] == (change, name);
        assert(workspaces[i].0@ == name);
    }
    if exists|i: int| 0 <= i < workspaces.len() && (#[trigger] workspaces[i]).0@ == name && workspaces[i].1@ == change {
        let i = choose|i: int|
            0 <= i < workspaces.len() && (#[trigger] workspaces[i]).0@ == name && workspaces[i].1@ == change;
        assert(rows[i] == (change, name));
    }
}

} // verus!
