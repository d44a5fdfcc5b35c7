//! Who works on which branch, and in which workspace.

use vstd::prelude::*;
use vstd::string::*;

use crate::commands::status::{
    about, bare_row, notch_of, BranchRow, BranchState, ClaimCell, ClaimView, LastNotch, RepoNotches, RowView, SeenWindow,
};
use crate::commands::wip::{lemma_overlap_needs_two_holders, overlap, shared, workspace_for, workspace_of};
use crate::detect::{Finding, FindingView};
use crate::grouping::{
    distinct_members, keys, keys_of, lemma_members, lemma_pairs_push, members, members_of, pairs,
};
use crate::ids::{BranchName, WorkspaceName};
use crate::ledger::Entry;
use crate::moments::{later_moment, parse_moment};
use crate::order::Ordered;
use crate::seen::{owner_moment, workspace_moment, LastSeen, Seen, SightingView};
use crate::seqs::{
    gathered, group_seqs, lemma_filter_has, lemma_filter_next, lemma_gathered_has, lemma_gathered_next, lemma_take_next,
    pointee, view_of, views,
};
use crate::sorting::{add_key, distinct, distinct_texts, lemma_distinct_texts};
use crate::store::{claim_key, Claim};
use crate::text::{lists, ranks, same};

verus! {

/// What a report shows of the ledger entries about the repository itself.
pub fn repo_notches(notches: &[Entry]) -> (shown: Option<RepoNotches>)
    ensures
        match shown {
            Some(shown) => notch_of(notches@.filter(about(None))) == Some(shown.last@) && shown.count as nat
                == shown.last@.count,
            None => notch_of(notches@.filter(about(None))) is None,
        },
{
    match LastNotch::of(notches, None) {
        Some(last) => Some(RepoNotches { count: last.count, last }),
        None => None,
    }
}

/// The entries of the ledger, and what is said where it could not be read.
pub open spec fn ledger_problem(read: Result<Vec<Entry>, String>) -> Option<Seq<char>> {
    match read {
        Ok(_) => None,
        Err(error) => Some("ledger unavailable: "@ + error@),
    }
}

/// Every entry of the ledger that was read. A ledger that exists and cannot be read is an unanswered
/// question rather than an absence: a report that quietly showed no entries would say that this
/// fork's history was never written.
pub fn notches_from_ledger(read: Option<Result<Vec<Entry>, String>>) -> (entries: (Vec<Entry>, Option<String>))
    ensures
        match read {
            Some(Ok(list)) => entries.0@ == list@ && entries.1 is None,
            Some(Err(error)) => entries.0@.len() == 0 && view_of(entries.1) == ledger_problem(
                Err::<Vec<Entry>, String>(error),
            ),
            None => entries.0@.len() == 0 && entries.1 is None,
        },
{
    match read {
        Some(Ok(list)) => (list, None),
        Some(Err(error)) => {
            let mut problem = "ledger unavailable: ".to_owned();
            problem.append(error.as_str());
            (Vec::new(), Some(problem))
        },
        None => (Vec::new(), None),
    }
}

/// A claim, and what the walk over the operations said of its owner; nothing where the walk failed.
#[derive(Debug)]
pub struct ObservedClaim {
    pub claim: Claim,
    pub observed: Option<LastSeen>,
}

/// What a workspace goes by among the sightings: its repository and its name.
pub open spec fn workspace_key(claim: Claim) -> Seq<char> {
    claim.repo@ + "/"@ + workspace_of(claim.branch@)
}

/// When the owner of a claim was last seen: what the walk said, and where it failed the later of
/// the kept sightings of the owner and of the workspace.
pub open spec fn sighting(claim: Claim, observed: Option<LastSeen>, seen: Seen) -> SightingView {
    match observed {
        Some(observed) => observed@,
        None => match later_moment(
            owner_moment(seen, claim.kind, claim.owner@),
            workspace_moment(seen, workspace_key(claim)),
        ) {
            Some(moment) => SightingView::At(moment.1),
            None => SightingView::NoneWithinWindow,
        },
    }
}

/// The sighting that was kept for the owner of a claim.
fn owner_sighting(claim: &Claim, seen: &Seen) -> (moment: Option<(i128, String)>)
    ensures
        match moment {
            Some((nanoseconds, text)) => owner_moment(*seen, claim.kind, claim.owner@) == Some(
                (nanoseconds as int, text@),
            ),
            None => owner_moment(*seen, claim.kind, claim.owner@) is None,
        },
{
    match seen.owners.get(&claim.kind) {
        Some(owners) => match owners.get(&claim.owner) {
            Some(text) => parse_moment(text.as_str()),
            None => None,
        },
        None => None,
    }
}

/// The sighting that was kept for the workspace of a claim.
fn workspace_sighting(claim: &Claim, seen: &Seen) -> (moment: Option<(i128, String)>)
    ensures
        match moment {
            Some((nanoseconds, text)) => workspace_moment(*seen, workspace_key(*claim)) == Some(
                (nanoseconds as int, text@),
            ),
            None => workspace_moment(*seen, workspace_key(*claim)) is None,
        },
{
    let mut key = claim.repo.clone();
    key.append("/");
    key.append(workspace_for(claim.branch.as_str()).as_str());
    assert(key.rank() == ranks(workspace_key(*claim)));
    match seen.workspaces.get(&key) {
        Some(text) => parse_moment(text.as_str()),
        None => None,
    }
}

/// What is said of the owner of a claim by the kept sightings alone: the later one. They remain
/// trustworthy where the walk failed, but the unobserved window is then incomplete.
pub fn sidecar_sighting(owner: Option<(i128, String)>, workspace: Option<(i128, String)>) -> (seen: LastSeen)
    ensures
        seen@ == ({
            let a = match owner {
                Some((n, text)) => Some((n as int, text@)),
                None => None,
            };
            let b = match workspace {
                Some((n, text)) => Some((n as int, text@)),
                None => None,
            };
            match later_moment(a, b) {
                Some(moment) => SightingView::At(moment.1),
                None => SightingView::NoneWithinWindow,
            }
        }),
{
    match (owner, workspace) {
        (Some((a, text)), Some((b, other))) => {
            if a > b {
                LastSeen::At(text)
            } else {
                LastSeen::At(other)
            }
        },
        (Some((_, text)), None) => LastSeen::At(text),
        (None, Some((_, text))) => LastSeen::At(text),
        (None, None) => LastSeen::NoneWithinWindow,
    }
}

/// When the owner of a claim was last seen.
pub fn claim_last_seen(claim: &Claim, observed: Option<&LastSeen>, seen: &Seen) -> (last: LastSeen)
    ensures
        last@ == sighting(*claim, pointee(observed), *seen),
{
    match observed {
        Some(observed) => observed.clone(),
        None => sidecar_sighting(owner_sighting(claim, seen), workspace_sighting(claim, seen)),
    }
}

/// The workspaces of claims.
pub open spec fn workspaces_of(claims: Seq<Claim>) -> Seq<Seq<char>> {
    Seq::new(claims.len(), |i: int| workspace_of(claims[i].branch@))
}

/// The workspaces whose activity is worth asking about, each once and in order.
pub fn wanted_workspaces(claims: &Vec<Claim>) -> (names: Vec<String>)
    ensures
        views(names@) == distinct_texts(workspaces_of(claims@)),
{
    broadcast use group_seqs;

    let mut names: Vec<String> = Vec::new();
    let ghost all = workspaces_of(claims@);
    let mut i: usize = 0;
    while i < claims.len()
        invariant
            i <= claims@.len(),
            all == workspaces_of(claims@),
            views(names@) == distinct_texts(all.take(i as int)),
        decreases claims@.len() - i,
    {
        assert(all.take(i + 1).drop_last() =~= all.take(i as int));
        let name = workspace_for(claims[i].branch.as_str());
        add_key(&mut names, name.as_str());
        i += 1;
    }
    names
}

/// One row for each file a claim touches, under the file.
pub open spec fn touch_of() -> spec_fn(ObservedClaim) -> Seq<(Seq<char>, Seq<char>)> {
    |observed: ObservedClaim|
        {
            let files = distinct_texts(views(observed.claim.files@));
            Seq::new(files.len(), |i: int| (files[i], claim_key(observed.claim)))
        }
}

/// What is found of a file by who touches it.
pub open spec fn shared_by(rows: Seq<(Seq<char>, Seq<char>)>) -> spec_fn(Seq<char>) -> Option<FindingView> {
    |file: Seq<char>| shared(file, members_of(rows, file))
}

/// What is found of the files that several claims touch.
pub open spec fn claim_overlaps(claims: Seq<ObservedClaim>) -> Seq<FindingView> {
    let rows = gathered(claims, touch_of());
    keys_of(rows).filter_map(shared_by(rows))
}

fn touch_rows(claims: &Vec<ObservedClaim>) -> (rows: Vec<(String, String)>)
    ensures
        pairs(rows@) == gathered(claims@, touch_of()),
{
    broadcast use {group_seqs, lemma_pairs_push};

    let mut rows: Vec<(String, String)> = Vec::new();
    assert(pairs(rows@) =~= Seq::<(Seq<char>, Seq<char>)>::empty());
    let mut i: usize = 0;
    while i < claims.len()
        invariant
            i <= claims@.len(),
            pairs(rows@) == gathered(claims@.take(i as int), touch_of()),
        decreases claims@.len() - i,
    {
        proof {
            lemma_gathered_next(claims@, touch_of(), i as int);
        }
        let key = claims[i].claim.key();
        let files = distinct(&claims[i].claim.files);
        let ghost before = pairs(rows@);
        let ghost added = touch_of()(claims@[i as int]);
        let mut k: usize = 0;
        while k < files.len()
            invariant
                k <= files@.len(),
                key@ == claim_key(claims@[i as int].claim),
                views(files@) == distinct_texts(views(claims@[i as int].claim.files@)),
                added == touch_of()(claims@[i as int]),
                pairs(rows@) == before + added.take(k as int),
            decreases files@.len() - k,
        {
            proof {
                assert(views(files@)[k as int] == files@[k as int]@);
                lemma_take_next(added, k as int);
            }
            assert(added[k as int] == (files@[k as int]@, key@));
            let ghost earlier = rows@;
            let row = (files[k].clone(), key.clone());
            rows.push(row);
            assert(pairs(rows@) =~= pairs(earlier).push((row.0@, row.1@)));
            k += 1;
            assert(pairs(rows@) =~= before + added.take(k as int));
        }
        assert(added.take(k as int) =~= added);
        i += 1;
    }
    rows
}

/// What is found of the files that several claims touch.
pub fn touching(claims: &Vec<ObservedClaim>) -> (findings: Vec<Finding>)
    ensures
        views(findings@) == claim_overlaps(claims@),
{
    broadcast use group_seqs;

    let rows = touch_rows(claims);
    let files = keys(&rows);
    let ghost all = keys_of(pairs(rows@));
    let ghost found = shared_by(pairs(rows@));
    let mut findings: Vec<Finding> = Vec::new();
    let mut i: usize = 0;
    while i < files.len()
        invariant
            i <= files@.len(),
            all == views(files@),
            found == shared_by(pairs(rows@)),
            views(findings@) == all.take(i as int).filter_map(found),
        decreases files@.len() - i,
    {
        proof {
            all.lemma_filter_map_take_succ(found, i as int);
            assert(all[i as int] == files@[i as int]@);
        }
        let holders = members(&rows, files[i].as_str());
        if let Some(finding) = overlap(files[i].as_str(), &holders) {
            findings.push(finding);
        }
        assert(views(findings@) =~= all.take(i + 1).filter_map(found));
        i += 1;
    }
    findings
}

/// The first row of that branch, from `from` on; the number of rows where there is none.
pub open spec fn row_at(rows: Seq<RowView>, branch: Seq<char>, from: int) -> int
    decreases rows.len() - from,
{
    if from >= rows.len() {
        rows.len() as int
    } else if rows[from].name == branch {
        from
    } else {
        row_at(rows, branch, from + 1)
    }
}

/// A row with a claim on its branch.
pub open spec fn marked(row: RowView, observed: ObservedClaim, seen: Seen) -> RowView {
    let claim = observed.claim;
    let last = sighting(claim, observed.observed, seen);
    RowView {
        claim: Some(ClaimView { id: claim.owner@, kind: claim.kind, since: claim.started@, why: claim.why@ }),
        last_seen: match last {
            SightingView::At(text) => Some(text),
            _ => row.last_seen,
        },
        seen: match last {
            SightingView::At(_) => row.seen,
            SightingView::NoneSinceClaim => Some(SeenWindow::NoneSinceClaim),
            SightingView::NoneWithinWindow => Some(SeenWindow::NoneWithinWindow),
        },
        ..row
    }
}

/// The rows with one more claim: a branch that has no row gets one of its own, behind the others.
pub open spec fn with_claim(rows: Seq<RowView>, observed: ObservedClaim, seen: Seen) -> Seq<RowView> {
    let at = row_at(rows, observed.claim.branch@, 0);
    if at < rows.len() {
        rows.update(at, marked(rows[at], observed, seen))
    } else {
        rows.push(marked(bare_row(observed.claim.branch@), observed, seen))
    }
}

/// The rows with claims.
pub open spec fn with_claims(rows: Seq<RowView>, claims: Seq<ObservedClaim>, seen: Seen) -> Seq<RowView>
    decreases claims.len(),
{
    if claims.len() == 0 {
        rows
    } else {
        with_claim(with_claims(rows, claims.drop_last(), seen), claims.last(), seen)
    }
}

fn find_row(rows: &Vec<BranchRow>, branch: &str) -> (at: usize)
    ensures
        at == row_at(views(rows@), branch@, 0),
        at <= rows@.len(),
{
    let mut i: usize = 0;
    while i < rows.len()
        invariant
            i <= rows@.len(),
            row_at(views(rows@), branch@, 0) == row_at(views(rows@), branch@, i as int),
        decreases rows@.len() - i,
    {
        assert(views(rows@)[i as int] == rows@[i as int]@);
        if same(rows[i].name.as_str(), branch) {
            return i;
        }
        i += 1;
    }
    i
}

fn mark(row: &mut BranchRow, observed: &ObservedClaim, seen: &Seen)
    ensures
        final(row)@ == marked(old(row)@, *observed, *seen),
        final(row).name == old(row).name,
{
    let claim = &observed.claim;
    row.claim = Some(
        ClaimCell {
            id: claim.owner.clone(),
            kind: claim.kind,
            since: claim.started.clone(),
            why: claim.why.clone(),
        },
    );
    match claim_last_seen(claim, observed.observed.as_ref(), seen) {
        LastSeen::At(text) => {
            row.last_seen = Some(text);
        },
        LastSeen::NoneSinceClaim => {
            row.seen = Some(SeenWindow::NoneSinceClaim);
        },
        LastSeen::NoneWithinWindow => {
            row.seen = Some(SeenWindow::NoneWithinWindow);
        },
    }
}

/// Folds claims into the rows of their branches.
pub fn add_claims(rows: &mut Vec<BranchRow>, claims: &Vec<ObservedClaim>, seen: &Seen)
    ensures
        views(final(rows)@) == with_claims(views(old(rows)@), claims@, *seen),
{
    broadcast use group_seqs;

    let ghost start = views(rows@);
    let mut i: usize = 0;
    while i < claims.len()
        invariant
            i <= claims@.len(),
            views(rows@) == with_claims(start, claims@.take(i as int), *seen),
        decreases claims@.len() - i,
    {
        assert(claims@.take(i + 1).drop_last() =~= claims@.take(i as int));
        let ghost before = views(rows@);
        let observed = &claims[i];
        let at = find_row(rows, observed.claim.branch.as_str());
        if at < rows.len() {
            let ghost earlier = rows@;
            mark(&mut rows[at], observed, seen);
            assert(views(rows@) =~= before.update(at as int, marked(before[at as int], *observed, *seen)));
        } else {
            let mut row = BranchRow::bare(BranchName::new(observed.claim.branch.as_str()));
            mark(&mut row, observed, seen);
            rows.push(row);
        }
        assert(views(rows@) == with_claim(before, *observed, *seen));
        i += 1;
    }
}

/// Whether an earlier row has the same workspace.
pub open spec fn housed_before(rows: Seq<RowView>, at: int) -> bool {
    exists|j: int| 0 <= j < at && workspace_of((#[trigger] rows[j]).name) == workspace_of(rows[at].name)
}

/// A row with its workspace: the one named for its branch, where it exists and no earlier row has it.
pub open spec fn housed(rows: Seq<RowView>, names: Seq<Seq<char>>, at: int) -> RowView {
    if names.contains(workspace_of(rows[at].name)) && !housed_before(rows, at) {
        RowView { workspace: Some(workspace_of(rows[at].name)), ..rows[at] }
    } else {
        rows[at]
    }
}

/// Whether a workspace is named for no row.
pub open spec fn unhoused(rows: Seq<RowView>) -> spec_fn(Seq<char>) -> bool {
    |name: Seq<char>| forall|j: int| 0 <= j < rows.len() ==> workspace_of((#[trigger] rows[j]).name) != name
}

/// Gives each row the workspace named for its branch, and names the workspaces that are left.
pub fn add_workspaces(rows: &mut Vec<BranchRow>, names: &Vec<String>) -> (others: Vec<String>)
    ensures
        final(rows)@.len() == old(rows)@.len(),
        forall|i: int|
            0 <= i < final(rows)@.len() ==> (#[trigger] final(rows)@[i])@ == housed(
                views(old(rows)@),
                views(names@),
                i,
            ),
        views(others@) == views(names@).filter(unhoused(views(old(rows)@))),
{
    broadcast use group_seqs;

    let ghost start = views(rows@);
    let ghost before = rows@;
    let mut houses: Vec<String> = Vec::new();
    let mut i: usize = 0;
    while i < rows.len()
        invariant
            i <= rows@.len(),
            rows@.len() == before.len(),
            start == views(before),
            houses@.len() == i,
            forall|j: int| 0 <= j < i ==> (#[trigger] houses@[j])@ == workspace_of(start[j].name),
            forall|j: int| 0 <= j < i ==> (#[trigger] rows@[j])@ == housed(start, views(names@), j),
            forall|j: int| i <= j < rows@.len() ==> #[trigger] rows@[j] == before[j],
        decreases rows@.len() - i,
    {
        assert(rows@[i as int] == before[i as int]);
        assert(start[i as int] == rows@[i as int]@);
        let house = workspace_for(rows[i].name.as_str());
        let taken = lists(&houses, house.as_str());
        proof {
            let listed_houses = views(houses@);
            if taken {
                let j = choose|j: int| 0 <= j < listed_houses.len() && listed_houses[j] == house@;
                assert(houses@[j]@ == workspace_of(start[j].name));
                assert(housed_before(start, i as int));
            } else if housed_before(start, i as int) {
                let j = choose|j: int|
                    0 <= j < i && workspace_of((#[trigger] start[j]).name) == workspace_of(start[i as int].name);
                assert(houses@[j]@ == house@);
                assert(listed_houses[j] == house@);
            }
        }
        if !taken && lists(names, house.as_str()) {
            let row = &mut rows[i];
            row.workspace = Some(house.clone());
        }
        houses.push(house);
        i += 1;
    }
    let mut others: Vec<String> = Vec::new();
    let ghost all = views(names@);
    let mut k: usize = 0;
    while k < names.len()
        invariant
            k <= names@.len(),
            all == views(names@),
            houses@.len() == start.len(),
            forall|j: int| 0 <= j < start.len() ==> (#[trigger] houses@[j])@ == workspace_of(start[j].name),
            views(others@) == all.take(k as int).filter(unhoused(start)),
        decreases names@.len() - k,
    {
        let used = lists(&houses, names[k].as_str());
        proof {
            lemma_filter_next(all, unhoused(start), k as int);
            assert(all[k as int] == names@[k as int]@);
            let listed_houses = views(houses@);
            if used {
                let j = choose|j: int| 0 <= j < listed_houses.len() && listed_houses[j] == names@[k as int]@;
                assert(houses@[j]@ == workspace_of(start[j].name));
                assert(workspace_of(start[j].name) == all[k as int]);
                assert(!unhoused(start)(all[k as int]));
            } else {
                assert forall|j: int| 0 <= j < start.len() implies workspace_of((#[trigger] start[j]).name)
                    != all[k as int] by {
                    assert(houses@[j]@ == workspace_of(start[j].name));
                    assert(listed_houses[j] == houses@[j]@);
                }
                assert(unhoused(start)(all[k as int]));
            }
        }
        if !used {
            others.push(names[k].clone());
        }
        k += 1;
    }
    others
}

/// What the rows of claims and workspaces are made from.
#[derive(Debug)]
pub struct ClaimFoldInput {
    pub claims: Vec<ObservedClaim>,
    /// Why the walk over the operations failed, where it did.
    pub activity_error: Option<String>,
    pub workspaces: Result<Vec<WorkspaceName>, String>,
    pub seen: Seen,
}

/// What came up while claims and workspaces were folded in.
#[derive(Debug)]
pub struct ClaimFold {
    pub problems: Vec<String>,
    pub findings: Vec<Finding>,
    pub other_workspaces: Vec<String>,
}

/// The workspaces there are, each once and in order; none where they could not be read.
pub open spec fn workspace_names(workspaces: Result<Vec<WorkspaceName>, String>) -> Seq<Seq<char>> {
    match workspaces {
        Ok(list) => distinct_texts(views(list@)),
        Err(_) => Seq::empty(),
    }
}

/// What could not be told about claims and workspaces.
pub open spec fn claim_problems(input: ClaimFoldInput) -> Seq<Seq<char>> {
    (match input.activity_error {
        Some(error) => seq!["workspace activity unavailable: "@ + error@],
        None => Seq::empty(),
    }) + (match input.workspaces {
        Err(error) => seq!["workspaces unavailable: "@ + error@],
        Ok(_) => Seq::empty(),
    })
}

fn distinct_workspaces(list: &Vec<WorkspaceName>) -> (names: Vec<String>)
    ensures
        views(names@) == distinct_texts(views(list@)),
{
    broadcast use group_seqs;

    let mut names: Vec<String> = Vec::new();
    let ghost all = views(list@);
    let mut i: usize = 0;
    while i < list.len()
        invariant
            i <= list@.len(),
            all == views(list@),
            views(names@) == distinct_texts(all.take(i as int)),
        decreases list@.len() - i,
    {
        assert(all.take(i + 1).drop_last() =~= all.take(i as int));
        add_key(&mut names, list[i].as_str());
        i += 1;
    }
    names
}

/// Folds claims, workspaces and kept sightings into the rows.
pub fn fold_claims(rows: &mut Vec<BranchRow>, input: &ClaimFoldInput) -> (fold: ClaimFold)
    ensures
        ({
            let claimed = with_claims(views(old(rows)@), input.claims@, input.seen);
            let names = workspace_names(input.workspaces);
            &&& final(rows)@.len() == claimed.len()
            &&& forall|i: int|
                0 <= i < final(rows)@.len() ==> (#[trigger] final(rows)@[i])@ == housed(claimed, names, i)
            &&& views(fold.other_workspaces@) == names.filter(unhoused(claimed))
        }),
        views(fold.problems@) == claim_problems(*input),
        views(fold.findings@) == claim_overlaps(input.claims@),
{
    broadcast use group_seqs;

    let mut problems: Vec<String> = Vec::new();
    if let Some(error) = &input.activity_error {
        let mut problem = "workspace activity unavailable: ".to_owned();
        problem.append(error.as_str());
        problems.push(problem);
    }
    let names = match &input.workspaces {
        Ok(list) => distinct_workspaces(list),
        Err(error) => {
            let mut problem = "workspaces unavailable: ".to_owned();
            problem.append(error.as_str());
            problems.push(problem);
            Vec::new()
        },
    };
    assert(views(problems@) =~= claim_problems(*input));
    let findings = touching(&input.claims);
    add_claims(rows, &input.claims, &input.seen);
    let other_workspaces = add_workspaces(rows, &names);
    ClaimFold { problems, findings, other_workspaces }
}

/// When a claim's holder was last seen: as it was observed where it was; else the later of what is known of
/// the owner and of the workspace; and not within the window where nothing is known of either.
pub proof fn lemma_last_sighting(claim: Claim, observed: Option<LastSeen>, seen: Seen)
    ensures
        ({
            let owner = owner_moment(seen, claim.kind, claim.owner@);
            let workspace = workspace_moment(seen, claim.repo@ + "/"@ + workspace_of(claim.branch@));
            let last = sighting(claim, observed, seen);
            &&& observed matches Some(told) ==> last == told@
            &&& observed is None && owner is None && workspace is None ==> last == SightingView::NoneWithinWindow
            &&& observed is None && owner is Some && workspace is Some && (owner->0).0 > (workspace->0).0 ==> last
                == SightingView::At((owner->0).1)
            &&& observed is None && owner is Some && workspace is Some && (owner->0).0 <= (workspace->0).0 ==> last
                == SightingView::At((workspace->0).1)
            &&& observed is None && owner is Some && workspace is None ==> last == SightingView::At((owner->0).1)
            &&& observed is None && owner is None && workspace is Some ==> last == SightingView::At((workspace->0).1)
        }),
{
}

proof fn lemma_row_at(rows: Seq<RowView>, branch: Seq<char>, from: int)
    requires
        0 <= from <= rows.len(),
    ensures
        from <= row_at(rows, branch, from) <= rows.len(),
        row_at(rows, branch, from) < rows.len() ==> rows[row_at(rows, branch, from)].name == branch,
        forall|i: int| from <= i < row_at(rows, branch, from) ==> (#[trigger] rows[i]).name != branch,
    decreases rows.len() - from,
{
    if from < rows.len() && rows[from].name != branch {
        lemma_row_at(rows, branch, from + 1);
    }
}

/// A claim marks the first row of its branch and no other; a branch without a row gets one at the end. The
/// row then tells who holds it, since when and why, and its state, its pull request and its landing stay.
pub proof fn lemma_claim_marks_its_branch(rows: Seq<RowView>, observed: ObservedClaim, seen: Seen, i: int)
    requires
        0 <= i < rows.len(),
    ensures
        ({
            let claim = observed.claim;
            let after = with_claim(rows, observed, seen);
            let first = rows[i].name == claim.branch@ && forall|j: int|
                0 <= j < i ==> (#[trigger] rows[j]).name != claim.branch@;
            &&& !first ==> after[i] == rows[i]
            &&& first ==> {
                &&& after.len() == rows.len()
                &&& after[i].claim == Some(
                    ClaimView { id: claim.owner@, kind: claim.kind, since: claim.started@, why: claim.why@ },
                )
                &&& after[i].name == rows[i].name && after[i].state == rows[i].state && after[i].pr == rows[i].pr
                &&& after[i].landed == rows[i].landed && after[i].push == rows[i].push
            }
            &&& (forall|j: int| 0 <= j < rows.len() ==> (#[trigger] rows[j]).name != claim.branch@) ==> {
                &&& after.len() == rows.len() + 1
                &&& after.last().name == claim.branch@ && after.last().claim is Some
                &&& after.last().state == BranchState::Unknown
            }
        }),
{
    let branch = observed.claim.branch@;
    lemma_row_at(rows, branch, 0);
    let at = row_at(rows, branch, 0);
    if rows[i].name == branch && forall|j: int| 0 <= j < i ==> (#[trigger] rows[j]).name != branch {
        if at < i {
            assert(rows[at].name != branch);
        }
        assert(at == i);
    }
    if at == i && at < rows.len() {
        assert(rows[i].name == branch);
    }
}

/// How a claimed row tells when its holder was last seen: by the moment where there is one, and by the
/// window where there is none.
pub proof fn lemma_marked_row_tells_sighting(row: RowView, observed: ObservedClaim, seen: Seen)
    ensures
        ({
            let last = sighting(observed.claim, observed.observed, seen);
            let after = marked(row, observed, seen);
            &&& last matches SightingView::At(text) ==> after.last_seen == Some(text) && after.seen == row.seen
            &&& last is NoneSinceClaim ==> after.seen == Some(SeenWindow::NoneSinceClaim) && after.last_seen
                == row.last_seen
            &&& last is NoneWithinWindow ==> after.seen == Some(SeenWindow::NoneWithinWindow) && after.last_seen
                == row.last_seen
        }),
{
}

/// A workspace is shown with the first row whose branch is named for it, and is listed apart exactly if no
/// row's branch is: every workspace is told once.
pub proof fn lemma_workspace_is_told(rows: Seq<RowView>, names: Seq<Seq<char>>, name: Seq<char>)
    requires
        names.contains(name),
    ensures
        names.filter(unhoused(rows)).contains(name) <==> forall|i: int|
            0 <= i < rows.len() ==> workspace_of((#[trigger] rows[i]).name) != name,
        forall|i: int|
            #![trigger housed(rows, names, i)]
            0 <= i < rows.len() && workspace_of(rows[i].name) == name && (forall|j: int|
                0 <= j < i ==> workspace_of((#[trigger] rows[j]).name) != name) ==> housed(rows, names, i).workspace
                == Some(name),
{
    lemma_filter_has(names, unhoused(rows), name);
}

/// A row gets no workspace that does not exist, nor one that an earlier row has.
pub proof fn lemma_housed_row(rows: Seq<RowView>, names: Seq<Seq<char>>, i: int)
    requires
        0 <= i < rows.len(),
    ensures
        !names.contains(workspace_of(rows[i].name)) ==> housed(rows, names, i) == rows[i],
        (exists|j: int| 0 <= j < i && workspace_of((#[trigger] rows[j]).name) == workspace_of(rows[i].name)) ==> housed(
            rows,
            names,
            i,
        ) == rows[i],
        housed(rows, names, i).name == rows[i].name && housed(rows, names, i).state == rows[i].state && housed(
            rows,
            names,
            i,
        ).claim == rows[i].claim,
{
}

proof fn lemma_touch_of(claims: Seq<ObservedClaim>, file: Seq<char>, key: Seq<char>)
    ensures
        gathered(claims, touch_of()).contains((file, key)) <==> exists|i: int|
            0 <= i < claims.len() && claim_key((#[trigger] claims[i]).claim) == key && views(
                claims[i].claim.files@,
            ).contains(file),
{
    lemma_gathered_has(claims, touch_of(), (file, key));
    assert forall|i: int| 0 <= i < claims.len() implies (touch_of()(#[trigger] claims[i]).contains((file, key)) <==> (
    claim_key(claims[i].claim) == key && views(claims[i].claim.files@).contains(file))) by {
        let listed = views(claims[i].claim.files@);
        let files = distinct_texts(listed);
        let rows = touch_of()(claims[i]);
        lemma_distinct_texts(listed);
        assert(files.contains(file) <==> listed.contains(file));
        if rows.contains((file, key)) {
            let k = choose|k: int| 0 <= k < rows.len() && rows[k] == (file, key);
            assert(files[k] == file);
            assert(files.contains(file));
        }
        if claim_key(claims[i].claim) == key && listed.contains(file) {
            let k = choose|k: int| 0 <= k < files.len() && files[k] == file;
            assert(rows[k] == (file, key));
        }
    }
}

/// Claims overlap in a file exactly if two of them, of different branches or repositories, list it; a file
/// that one claim lists twice is no overlap.
pub proof fn lemma_claims_overlap(claims: Seq<ObservedClaim>, file: Seq<char>)
    ensures
        shared_by(gathered(claims, touch_of()))(file) is Some <==> exists|a: int, b: int|
            0 <= a < claims.len() && 0 <= b < claims.len() && views((#[trigger] claims[a]).claim.files@).contains(file)
                && views((#[trigger] claims[b]).claim.files@).contains(file) && claim_key(claims[a].claim)
                != claim_key(claims[b].claim),
{
    let rows = gathered(claims, touch_of());
    let holders = members_of(rows, file);
    lemma_overlap_needs_two_holders(file, holders);
    assert forall|key: Seq<char>| #[trigger] holders.contains(key) <==> rows.contains((file, key)) by {
        lemma_members(rows, file);
        lemma_distinct_texts(holders);
        assert(distinct_texts(holders).contains(key) <==> holders.contains(key));
        assert(distinct_members(rows, file).contains(key) <==> rows.contains((file, key)));
    }
    if shared(file, holders) is Some {
        let (x, y) = choose|x: Seq<char>, y: Seq<char>|
            x != y && #[trigger] holders.contains(x) && #[trigger] holders.contains(y);
        lemma_touch_of(claims, file, x);
        lemma_touch_of(claims, file, y);
        let a = choose|i: int|
            0 <= i < claims.len() && claim_key((#[trigger] claims[i]).claim) == x && views(
                claims[i].claim.files@,
            ).contains(file);
        let b = choose|i: int|
            0 <= i < claims.len() && claim_key((#[trigger] claims[i]).claim) == y && views(
                claims[i].claim.files@,
            ).contains(file);
        assert(claim_key(claims[a].claim) != claim_key(claims[b].claim));
    }
    if exists|a: int, b: int|
        0 <= a < claims.len() && 0 <= b < claims.len() && views((#[trigger] claims[a]).claim.files@).contains(file)
            && views((#[trigger] claims[b]).claim.files@).contains(file) && claim_key(claims[a].claim) != claim_key(
            claims[b].claim,
        ) {
        let (a, b) = choose|a: int, b: int|
            0 <= a < claims.len() && 0 <= b < claims.len() && views((#[trigger] claims[a]).claim.files@).contains(file)
                && views((#[trigger] claims[b]).claim.files@).contains(file) && claim_key(claims[a].claim)
                != claim_key(claims[b].claim);
        lemma_touch_of(claims, file, claim_key(claims[a].claim));
        lemma_touch_of(claims, file, claim_key(claims[b].claim));
        assert(holders.contains(claim_key(claims[a].claim)));
        assert(holders.contains(claim_key(claims[b].claim)));
    }
}

} // verus!
