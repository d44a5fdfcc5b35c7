//! What is asked before the rows are made, and what becomes of the answers.

use vstd::prelude::*;
use vstd::string::*;

use crate::commands::status::rows::{on_origin, pull_summary_for, summary_for, ProbeInput};
use crate::commands::status::OriginRelation;
use crate::detect::divergence::{divergences_of, divergent_changes};
use crate::detect::double_checkout::{checkouts_of, double_checkout};
use crate::detect::landed::{classify_landed, landed, LandedVerdict, RebaseOutcome};
use crate::detect::stale_parents::BookmarkTips;
use crate::detect::{Finding, FindingKind, FindingView, Subject, SubjectView};
use crate::forge::{PullIndex, PullSummary};
use crate::forge_cache::{key_of, landed_key};
use crate::ids::{
    bookmark_rank, short_text, BookmarkRef, BranchName, ChangeId, CommitId, RemoteName, RepoName, WorkspaceName,
};
use crate::numbered::rising;
use crate::order::{ascending, lemma_put, lookup, put, OrdMap, Ordered};
use crate::seqs::{
    gathered, group_seqs, lemma_filter_map_has, lemma_gathered_next, lemma_take_next, listed, pointee, view_of, views,
};
use crate::snapshot::Snapshot;
use crate::store::{required, Requirement, Store};
use crate::text::{decimal, decimal_text, join, joined, lemma_ranks_injective, ranks};

verus! {

/// A branch and its tip, as the probes take it.
pub open spec fn probe_input_of(
    branch: (BranchName, CommitId),
    tips: Seq<(BookmarkRef, CommitId)>,
) -> ProbeInput {
    ProbeInput {
        branch: branch.0,
        tip: branch.1,
        origin_tip: lookup(tips, bookmark_rank(on_origin(branch.0@))),
    }
}

/// Every maintained branch paired with what the landed probes need.
///
/// Pull request discovery is deliberately absent: a probe never reads it, so the probes can overlap
/// the forge phase.
pub fn probe_inputs(branches: &Vec<(BranchName, CommitId)>, tips: &BookmarkTips) -> (inputs: Vec<ProbeInput>)
    ensures
        inputs@ == Seq::new(branches@.len(), |i: int| probe_input_of(branches@[i], tips@)),
{
    let mut inputs: Vec<ProbeInput> = Vec::new();
    let ghost all = Seq::new(branches@.len(), |i: int| probe_input_of(branches@[i], tips@));
    let mut i: usize = 0;
    while i < branches.len()
        invariant
            i <= branches@.len(),
            all == Seq::new(branches@.len(), |i: int| probe_input_of(branches@[i], tips@)),
            inputs@ == all.take(i as int),
        decreases branches@.len() - i,
    {
        let branch = &branches[i].0;
        let bookmark = BookmarkRef::Remote { branch: branch.clone(), remote: RemoteName::new("origin") };
        assert(bookmark@ == on_origin(branch@));
        let origin_tip = match tips.get(&bookmark) {
            Some(commit) => Some(commit.clone()),
            None => None,
        };
        inputs.push(ProbeInput { branch: branch.clone(), tip: branches[i].1.clone(), origin_tip });
        i += 1;
        assert(inputs@ =~= all.take(i as int));
    }
    assert(inputs@ =~= all);
    inputs
}

/// What a probe answered, and what of it is worth keeping.
#[derive(Debug)]
pub struct ProbeResult {
    pub verdict: Result<Option<LandedVerdict>, String>,
    /// The verdict under the key it is kept by.
    pub landed: Option<(String, LandedVerdict)>,
}

/// What to do about a branch that is to be judged.
#[derive(Debug)]
pub enum ProbeStep {
    /// Nothing needs to be replayed.
    Answered(ProbeResult),
    /// The branch has to be replayed onto the trunk; the verdict is kept under the key.
    Replay { key: Option<String> },
}

/// Whether the local branch is what its pull request contains: there is no origin counterpart, or
/// it stands where local does.
pub open spec fn agrees_with_origin(input: ProbeInput) -> bool {
    match input.origin_tip {
        Some(origin) => origin@ == input.tip@,
        None => true,
    }
}

/// The key a replay of the branch is kept under.
pub open spec fn probe_key(input: ProbeInput, probe: bool, trunk: Option<CommitId>) -> Option<Seq<char>> {
    match trunk {
        Some(trunk) => if probe && agrees_with_origin(input) {
            Some(key_of(input.tip@, trunk@))
        } else {
            None
        },
        None => None,
    }
}

/// The verdict that is already kept for the branch.
pub open spec fn kept_verdict(
    kept: Option<Seq<(String, LandedVerdict)>>,
    key: Option<Seq<char>>,
) -> Option<LandedVerdict> {
    match (kept, key) {
        (Some(kept), Some(key)) => lookup(kept, ranks(key)),
        _ => None,
    }
}

fn in_agreement(input: &ProbeInput) -> (r: bool)
    ensures
        r == agrees_with_origin(*input),
{
    match &input.origin_tip {
        Some(origin) => origin.same(&input.tip),
        None => true,
    }
}

/// What to do about a branch.
///
/// Judge only what the pull request actually contains. A replay is of the local bookmark, so when
/// local and origin disagree it would answer about content nobody has pushed, and stale content
/// replays clean and reads as landed. Refusing to judge is cheap; the advice that follows `landed`
/// is to delete the branch and its release parent.
pub fn probe_one(
    input: &ProbeInput,
    probe: bool,
    trunk: Option<&CommitId>,
    kept: Option<&OrdMap<String, LandedVerdict>>,
) -> (step: ProbeStep)
    ensures
        ({
            let key = probe_key(*input, probe, pointee(trunk));
            let found = kept_verdict(view_of(kept), key);
            match step {
                ProbeStep::Answered(result) => if found is Some {
                    &&& result.verdict == Ok::<Option<LandedVerdict>, String>(found)
                    &&& match result.landed {
                        Some((under, verdict)) => Some(under@) == key && Some(verdict) == found,
                        None => false,
                    }
                } else {
                    &&& !probe || !agrees_with_origin(*input)
                    &&& result.verdict == Ok::<Option<LandedVerdict>, String>(
                        if probe {
                            Some(LandedVerdict::Unjudged)
                        } else {
                            None
                        },
                    )
                    &&& result.landed is None
                },
                ProbeStep::Replay { key: under } => found is None && probe && agrees_with_origin(*input)
                    && view_of(under) == key,
            }
        }),
{
    let agrees = in_agreement(input);
    let key = match trunk {
        Some(trunk) => {
            if probe && agrees {
                Some(landed_key(&input.tip, trunk))
            } else {
                None
            }
        },
        None => None,
    };
    if let Some(key) = &key {
        if let Some(kept) = kept {
            assert(key.rank() == ranks(key@));
            if let Some(verdict) = kept.get(key) {
                return ProbeStep::Answered(
                    ProbeResult { verdict: Ok(Some(*verdict)), landed: Some((key.clone(), *verdict)) },
                );
            }
        }
    }
    if !probe {
        return ProbeStep::Answered(ProbeResult { verdict: Ok(None), landed: None });
    }
    if !agrees {
        return ProbeStep::Answered(ProbeResult { verdict: Ok(Some(LandedVerdict::Unjudged)), landed: None });
    }
    ProbeStep::Replay { key }
}

/// What a replay answered, kept under its key where it has one.
pub fn landed_verdict(key: Option<String>, outcome: Result<RebaseOutcome, String>) -> (result: ProbeResult)
    ensures
        match outcome {
            Ok(outcome) => {
                &&& result.verdict == Ok::<Option<LandedVerdict>, String>(Some(landed(outcome)))
                &&& result.landed == match key {
                    Some(key) => Some((key, landed(outcome))),
                    None => None,
                }
            },
            Err(error) => result.verdict == Err::<Option<LandedVerdict>, String>(error) && result.landed is None,
        },
{
    match outcome {
        Ok(outcome) => {
            let verdict = classify_landed(outcome);
            let landed = match key {
                Some(key) => Some((key, verdict)),
                None => None,
            };
            ProbeResult { verdict: Ok(Some(verdict)), landed }
        },
        Err(error) => ProbeResult { verdict: Err(error), landed: None },
    }
}

/// How many branches each of `workers` takes at most, so that all are taken.
pub open spec fn share(items: nat, workers: nat) -> nat
    recommends
        items > 0,
{
    let hands: nat = if workers == 0 {
        1
    } else if workers > items {
        items
    } else {
        workers
    };
    ((items + hands - 1) / hands as int) as nat
}

/// How many branches each worker takes at most: every worker has some, and no more workers than
/// asked for are needed.
pub fn chunk_length(items: usize, workers: usize) -> (length: usize)
    requires
        items > 0,
    ensures
        length == share(items as nat, workers as nat),
        1 <= length <= items,
        length * (if workers == 0 {
            1
        } else {
            workers as int
        }) >= items,
{
    let hands: usize = if workers == 0 {
        1
    } else if workers > items {
        items
    } else {
        workers
    };
    let whole = items / hands;
    let rest = items % hands;
    proof {
        lemma_share(items as int, hands as int);
        if workers > items {
            assert(share(items as nat, workers as nat) * items >= items);
            assert(share(items as nat, workers as nat) * workers >= items) by (nonlinear_arith)
                requires
                    share(items as nat, workers as nat) >= 1,
                    workers > items,
            ;
        }
    }
    if rest == 0 {
        whole
    } else {
        whole + 1
    }
}

proof fn lemma_share(items: int, hands: int)
    requires
        1 <= hands <= items,
    ensures
        (items + hands - 1) / hands == (if items % hands == 0 {
            items / hands
        } else {
            items / hands + 1
        }),
        1 <= (items + hands - 1) / hands <= items,
        (items + hands - 1) / hands * hands >= items,
{
    let q = items / hands;
    let r = items % hands;
    vstd::arithmetic::div_mod::lemma_fundamental_div_mod(items, hands);
    vstd::arithmetic::div_mod::lemma_mod_bound(items, hands);
    assert(hands * q == q * hands) by (nonlinear_arith);
    if r == 0 {
        assert(items + hands - 1 == q * hands + (hands - 1));
        vstd::arithmetic::div_mod::lemma_fundamental_div_mod_converse(items + hands - 1, hands, q, hands - 1);
        assert(q >= 1) by (nonlinear_arith)
            requires
                q * hands == items,
                items >= 1,
                hands >= 1,
        ;
        assert(q <= items) by (nonlinear_arith)
            requires
                q * hands == items,
                hands >= 1,
                q >= 1,
        ;
    } else {
        assert((q + 1) * hands == q * hands + hands) by (nonlinear_arith);
        assert(items + hands - 1 == (q + 1) * hands + (r - 1));
        vstd::arithmetic::div_mod::lemma_fundamental_div_mod_converse(items + hands - 1, hands, q + 1, r - 1);
        assert(q >= 0) by (nonlinear_arith)
            requires
                q * hands + r == items,
                0 <= r < hands,
                items >= 0,
                hands >= 1,
        ;
        assert(q + 1 <= items) by (nonlinear_arith)
            requires
                q * hands + r == items,
                1 <= r < hands,
                q >= 0,
                hands >= 2,
        ;
    }
}

/// The verdicts worth keeping, the later of two under one key.
pub open spec fn kept_of(results: Seq<ProbeResult>) -> Seq<(String, LandedVerdict)>
    decreases results.len(),
{
    if results.len() == 0 {
        Seq::empty()
    } else {
        match results.last().landed {
            Some((key, verdict)) => put(kept_of(results.drop_last()), key, verdict),
            None => kept_of(results.drop_last()),
        }
    }
}

/// The verdicts worth keeping.
pub fn landed_section(results: &Vec<ProbeResult>) -> (landed: OrdMap<String, LandedVerdict>)
    ensures
        landed@ == kept_of(results@),
{
    broadcast use group_seqs;

    let mut landed: OrdMap<String, LandedVerdict> = OrdMap::new();
    assert(landed@ =~= Seq::<(String, LandedVerdict)>::empty());
    let mut i: usize = 0;
    while i < results.len()
        invariant
            i <= results@.len(),
            landed@ == kept_of(results@.take(i as int)),
        decreases results@.len() - i,
    {
        assert(results@.take(i + 1).drop_last() =~= results@.take(i as int));
        if let Some((key, verdict)) = &results[i].landed {
            landed.insert(key.clone(), *verdict);
        }
        i += 1;
    }
    landed
}

/// Where a bookmark that names several commits points, in words.
pub open spec fn conflict_of(conflict: (BookmarkRef, Vec<CommitId>)) -> FindingView {
    FindingView {
        kind: FindingKind::Divergence,
        subject: SubjectView::Bookmark(conflict.0@),
        detail: "bookmark "@ + conflict.0@.text() + " points at "@ + decimal_text(conflict.1@.len())
            + " commits ("@ + joined(short_ids(conflict.1@), ", "@) + "), so it has no single tip"@,
    }
}

/// The abbreviated ids of commits.
pub open spec fn short_ids(commits: Seq<CommitId>) -> Seq<Seq<char>> {
    Seq::new(commits.len(), |i: int| short_text(commits[i]@))
}

/// The abbreviated ids of commits.
pub fn abbreviated(commits: &Vec<CommitId>) -> (ids: Vec<String>)
    ensures
        views(ids@) == short_ids(commits@),
{
    broadcast use group_seqs;

    let mut ids: Vec<String> = Vec::new();
    let ghost all = short_ids(commits@);
    let mut i: usize = 0;
    while i < commits.len()
        invariant
            i <= commits@.len(),
            all == short_ids(commits@),
            views(ids@) == all.take(i as int),
        decreases commits@.len() - i,
    {
        proof {
            lemma_take_next(all, i as int);
        }
        ids.push(commits[i].short());
        i += 1;
    }
    ids
}

/// Divergent bookmarks, named individually.
///
/// A divergent branch's bookmark is conflicted, so it has no single tip and never appears among the
/// tips. Naming it here is the difference between "some change is divergent" and "this branch of
/// yours is".
pub fn conflicted_bookmark_findings(conflicted: &OrdMap<BookmarkRef, Vec<CommitId>>) -> (findings: Vec<Finding>)
    ensures
        views(findings@) == Seq::new(conflicted@.len(), |i: int| conflict_of(conflicted@[i])),
{
    broadcast use group_seqs;

    let mut findings: Vec<Finding> = Vec::new();
    let ghost all = Seq::new(conflicted@.len(), |i: int| conflict_of(conflicted@[i]));
    let mut i: usize = 0;
    while i < conflicted.len()
        invariant
            i <= conflicted@.len(),
            all == Seq::new(conflicted@.len(), |i: int| conflict_of(conflicted@[i])),
            views(findings@) == all.take(i as int),
        decreases conflicted@.len() - i,
    {
        proof {
            lemma_take_next(all, i as int);
        }
        let reference = conflicted.key(i);
        let commits = conflicted.value(i);
        let mut detail = "bookmark ".to_owned();
        detail.append(reference.to_text().as_str());
        detail.append(" points at ");
        detail.append(decimal(commits.len() as u64).as_str());
        detail.append(" commits (");
        detail.append(join(&abbreviated(commits), ", ").as_str());
        detail.append("), so it has no single tip");
        findings.push(Finding::new(FindingKind::Divergence, Subject::Bookmark(reference.clone()), detail));
        i += 1;
    }
    findings
}

/// The number a requirement names in a repository.
pub open spec fn required_in(repo: Seq<char>) -> spec_fn(Requirement) -> Option<u64> {
    |requirement: Requirement|
        if requirement.repo@ == repo {
            Some(requirement.number)
        } else {
            None
        }
}

/// The numbers a branch declares: the pull request it was stated to be, and what it requires in its
/// own repository.
pub open spec fn declared_by(repo: Seq<char>, store: Store) -> spec_fn(BranchName) -> Seq<u64> {
    |branch: BranchName|
        listed(lookup(store.stated@, ranks(branch@))) + required(store, branch@).filter_map(required_in(repo))
}

/// Every number declared before discovery: stated pull requests and same-repository dependencies,
/// each once and in order.
pub fn declared_numbers(repo: &RepoName, branches: &Vec<BranchName>, store: &Store) -> (numbers: Vec<u64>)
    ensures
        rising(numbers@),
        forall|n: u64| #[trigger]
            numbers@.contains(n) <==> gathered(branches@, declared_by(repo@, *store)).contains(n),
{
    broadcast use group_seqs;

    let mut list: Vec<u64> = Vec::new();
    let ghost declared = declared_by(repo@, *store);
    let mut i: usize = 0;
    while i < branches.len()
        invariant
            i <= branches@.len(),
            declared == declared_by(repo@, *store),
            list@ == gathered(branches@.take(i as int), declared),
        decreases branches@.len() - i,
    {
        let branch = &branches[i];
        let ghost before = list@;
        proof {
            lemma_gathered_next(branches@, declared, i as int);
        }
        if let Some(number) = store.tracked_pull(branch) {
            list.push(number);
        }
        let ghost with_stated = before + listed(lookup(store.stated@, ranks(branch@)));
        assert(list@ =~= with_stated);
        let requirements = store.dependencies(branch);
        let mut k: usize = 0;
        while k < requirements.len()
            invariant
                k <= requirements@.len(),
                list@ == with_stated + requirements@.take(k as int).filter_map(required_in(repo@)),
            decreases requirements@.len() - k,
        {
            proof {
                requirements@.lemma_filter_map_take_succ(required_in(repo@), k as int);
            }
            if requirements[k].repo.same(repo) {
                list.push(requirements[k].number);
            }
            k += 1;
            assert(list@ =~= with_stated + requirements@.take(k as int).filter_map(required_in(repo@)));
        }
        assert(requirements@.take(k as int) =~= requirements@);
        assert(list@ =~= before + declared(branches@[i as int]));
        i += 1;
    }
    crate::numbered::distinct_numbers(&list)
}

/// The number of the pull request of a branch.
pub open spec fn surfaced(index: Seq<(BranchName, PullSummary)>) -> spec_fn(BranchName) -> Option<u64> {
    |branch: BranchName|
        match summary_for(branch@, index) {
            Some(pull) => Some(pull.number),
            None => None,
        }
}

/// The pull requests whose live facts a status needs: those the branches refer to, then those that
/// were declared.
pub fn select_status_numbers(index: &PullIndex, branches: &Vec<BranchName>, declared: &Vec<u64>) -> (numbers: Vec<u64>)
    ensures
        numbers@ == branches@.filter_map(surfaced(index.by_branch@)) + declared@,
{
    broadcast use group_seqs;

    let mut numbers: Vec<u64> = Vec::new();
    let ghost found = surfaced(index.by_branch@);
    let mut i: usize = 0;
    while i < branches.len()
        invariant
            i <= branches@.len(),
            found == surfaced(index.by_branch@),
            numbers@ == branches@.take(i as int).filter_map(found),
        decreases branches@.len() - i,
    {
        proof {
            branches@.lemma_filter_map_take_succ(found, i as int);
        }
        if let Some(pull) = pull_summary_for(&branches[i], &index.by_branch) {
            numbers.push(pull.number);
        }
        assert(numbers@ =~= branches@.take(i + 1).filter_map(found));
        i += 1;
    }
    let ghost first = numbers@;
    let mut k: usize = 0;
    while k < declared.len()
        invariant
            k <= declared@.len(),
            numbers@ == first + declared@.take(k as int),
        decreases declared@.len() - k,
    {
        numbers.push(declared[k]);
        k += 1;
        assert(numbers@ =~= first + declared@.take(k as int));
    }
    numbers
}

/// What the forge did not report of a branch whose pull request it listed, in words.
pub open spec fn unreported(snapshot: Snapshot) -> spec_fn(BranchName) -> Option<Seq<char>> {
    |branch: BranchName|
        match summary_for(branch@, snapshot.index.by_branch@) {
            Some(pull) => if snapshot.known(pull.number) is None {
                Some(
                    "pull request #"@ + decimal_text(pull.number as nat) + " for "@ + branch@
                        + " unavailable: the forge did not report it"@,
                )
            } else {
                None
            },
            None => None,
        }
}

/// What the forge left unanswered: the whole phase where it failed, else every listed pull request
/// of a branch that the live batch did not report.
pub open spec fn forge_problems_of(
    snapshot: Option<Snapshot>,
    error: Option<String>,
    branches: Seq<BranchName>,
) -> Seq<Seq<char>> {
    match error {
        Some(error) => seq!["pull request state unavailable: "@ + error@],
        None => match snapshot {
            Some(snapshot) => branches.filter_map(unreported(snapshot)),
            None => Seq::empty(),
        },
    }
}

fn unreported_pulls(snapshot: &Snapshot, branches: &Vec<BranchName>) -> (problems: Vec<String>)
    ensures
        views(problems@) == branches@.filter_map(unreported(*snapshot)),
{
    broadcast use group_seqs;

    let mut problems: Vec<String> = Vec::new();
    let ghost missing = unreported(*snapshot);
    let mut i: usize = 0;
    while i < branches.len()
        invariant
            i <= branches@.len(),
            missing == unreported(*snapshot),
            views(problems@) == branches@.take(i as int).filter_map(missing),
        decreases branches@.len() - i,
    {
        proof {
            branches@.lemma_filter_map_take_succ(missing, i as int);
        }
        if let Some(pull) = pull_summary_for(&branches[i], &snapshot.index.by_branch) {
            if snapshot.fact(pull.number).is_none() {
                let mut problem = "pull request #".to_owned();
                problem.append(decimal(pull.number).as_str());
                problem.append(" for ");
                problem.append(branches[i].as_str());
                problem.append(" unavailable: the forge did not report it");
                problems.push(problem);
            }
        }
        assert(views(problems@) =~= branches@.take(i + 1).filter_map(missing));
        i += 1;
    }
    problems
}

/// What the forge left unanswered. Neither a snapshot nor an error is a forge that was not asked.
pub fn forge_phase(
    snapshot: Option<&Snapshot>,
    error: Option<&String>,
    branches: &Vec<BranchName>,
) -> (problems: Vec<String>)
    ensures
        views(problems@) == forge_problems_of(pointee(snapshot), pointee(error), branches@),
{
    broadcast use group_seqs;

    if let Some(error) = error {
        let mut problem = "pull request state unavailable: ".to_owned();
        problem.append(error.as_str());
        let mut problems: Vec<String> = Vec::new();
        problems.push(problem);
        assert(views(problems@) =~= seq![problem@]);
        return problems;
    }
    match snapshot {
        Some(snapshot) => unreported_pulls(snapshot, branches),
        None => Vec::new(),
    }
}

/// How local relates to origin, by what the two ancestry questions answered.
pub open spec fn relation_of(
    tip: Seq<char>,
    origin_tip: Option<Seq<char>>,
    origin_in_tip: Result<bool, String>,
    tip_in_origin: Result<bool, String>,
) -> Result<Option<OriginRelation>, Seq<char>> {
    match origin_tip {
        None => Ok(None),
        Some(origin) => if origin == tip {
            Ok(None)
        } else {
            match origin_in_tip {
                Err(error) => Err(error@),
                Ok(true) => Ok(Some(OriginRelation::Ahead)),
                Ok(false) => match tip_in_origin {
                    Err(error) => Err(error@),
                    Ok(true) => Ok(Some(OriginRelation::Behind)),
                    Ok(false) => Ok(Some(OriginRelation::Diverged)),
                },
            }
        },
    }
}

/// How local relates to origin when that relation can be determined.
///
/// Two ancestry answers, not one: that origin is no ancestor of local covers both "origin is ahead"
/// and "the histories forked", and reporting a fork as behind tells a reader to trust origin over
/// their own unpushed work. The second separates them.
///
/// A question nobody could answer comes back as an error rather than a relation, because a relation
/// that was not established is not a fact about history.
pub fn relation_to_origin(
    tip: &CommitId,
    origin_tip: Option<&CommitId>,
    origin_in_tip: &Result<bool, String>,
    tip_in_origin: &Result<bool, String>,
) -> (relation: Result<Option<OriginRelation>, String>)
    ensures
        match relation {
            Ok(relation) => relation_of(tip@, view_of(origin_tip), *origin_in_tip, *tip_in_origin) == Ok::<
                Option<OriginRelation>,
                Seq<char>,
            >(relation),
            Err(error) => relation_of(tip@, view_of(origin_tip), *origin_in_tip, *tip_in_origin) == Err::<
                Option<OriginRelation>,
                Seq<char>,
            >(error@),
        },
{
    let origin = match origin_tip {
        Some(origin) => origin,
        None => return Ok(None),
    };
    if origin.same(tip) {
        return Ok(None);
    }
    match origin_in_tip {
        Err(error) => Err(error.clone()),
        Ok(true) => Ok(Some(OriginRelation::Ahead)),
        Ok(false) => match tip_in_origin {
            Err(error) => Err(error.clone()),
            Ok(true) => Ok(Some(OriginRelation::Behind)),
            Ok(false) => Ok(Some(OriginRelation::Diverged)),
        },
    }
}

/// What is found of the repository as a whole.
pub open spec fn health_of(
    workspaces: Seq<(WorkspaceName, ChangeId)>,
    changes: Seq<(ChangeId, CommitId)>,
    conflicted: Seq<(BookmarkRef, Vec<CommitId>)>,
) -> Seq<FindingView> {
    checkouts_of(workspaces) + divergences_of(changes) + Seq::new(conflicted.len(), |i: int| conflict_of(conflicted[i]))
}

/// What is found of the repository as a whole: changes checked out twice, changes on several
/// commits, and bookmarks without a single tip.
pub fn repository_health(
    workspaces: &[(WorkspaceName, ChangeId)],
    changes: &[(ChangeId, CommitId)],
    conflicted: &OrdMap<BookmarkRef, Vec<CommitId>>,
) -> (findings: Vec<Finding>)
    ensures
        views(findings@) == health_of(workspaces@, changes@, conflicted@),
{
    broadcast use group_seqs;

    let mut findings = double_checkout(workspaces);
    let mut diverged = divergent_changes(changes);
    let mut pointed = conflicted_bookmark_findings(conflicted);
    findings.append(&mut diverged);
    findings.append(&mut pointed);
    findings
}

/// How a tip relates to the one that was pushed: not at all without one or where they are the same; ahead
/// of it where it contains it; behind it where it is contained; diverged where neither contains the
/// other. What cannot be answered is an error.
pub proof fn lemma_relation_to_origin(
    tip: Seq<char>,
    origin: Seq<char>,
    origin_in_tip: Result<bool, String>,
    tip_in_origin: Result<bool, String>,
)
    ensures
        relation_of(tip, None, origin_in_tip, tip_in_origin) == Ok::<Option<OriginRelation>, Seq<char>>(None),
        relation_of(tip, Some(tip), origin_in_tip, tip_in_origin) == Ok::<Option<OriginRelation>, Seq<char>>(None),
        origin != tip ==> {
            let relation = relation_of(tip, Some(origin), origin_in_tip, tip_in_origin);
            let ahead = origin_in_tip == Ok::<bool, String>(true);
            let not_ahead = origin_in_tip == Ok::<bool, String>(false);
            &&& relation == Ok::<Option<OriginRelation>, Seq<char>>(Some(OriginRelation::Ahead)) <==> ahead
            &&& relation == Ok::<Option<OriginRelation>, Seq<char>>(Some(OriginRelation::Behind)) <==> not_ahead
                && tip_in_origin == Ok::<bool, String>(true)
            &&& relation == Ok::<Option<OriginRelation>, Seq<char>>(Some(OriginRelation::Diverged)) <==> not_ahead
                && tip_in_origin == Ok::<bool, String>(false)
            &&& relation is Err <==> origin_in_tip is Err || not_ahead && tip_in_origin is Err
        },
{
}

/// A verdict is kept under a key exactly if branches are probed, the trunk is known, and the branch stands
/// where it was pushed, or was never pushed; the key then is of its own tip and the trunk's.
pub proof fn lemma_probe_key(input: ProbeInput, probe: bool, trunk: Option<CommitId>)
    ensures
        probe_key(input, probe, trunk) is Some <==> probe && trunk is Some && (input.origin_tip is None
            || input.origin_tip->0@ == input.tip@),
        probe_key(input, probe, trunk) matches Some(key) ==> key == key_of(input.tip@, trunk->0@),
{
}

/// A kept verdict answers exactly where verdicts are kept, the branch has a key, and one is kept under it.
pub proof fn lemma_kept_verdict(kept: Option<Seq<(String, LandedVerdict)>>, key: Option<Seq<char>>)
    ensures
        kept_verdict(kept, key) is Some <==> kept is Some && key is Some && lookup(kept->0, ranks(key->0)) is Some,
        kept_verdict(kept, key) is Some ==> kept_verdict(kept, key) == lookup(kept->0, ranks(key->0)),
{
}

/// The pull requests asked about are those that a branch states or that it requires of this repository.
pub proof fn lemma_declared_numbers(repo: Seq<char>, store: Store, branch: BranchName, number: u64)
    ensures
        declared_by(repo, store)(branch).contains(number) <==> lookup(store.stated@, ranks(branch@)) == Some(number)
            || exists|i: int|
            0 <= i < required(store, branch@).len() && (#[trigger] required(store, branch@)[i]).repo@ == repo
                && required(store, branch@)[i].number == number,
{
    let first = listed(lookup(store.stated@, ranks(branch@)));
    let list = required(store, branch@);
    let rest = list.filter_map(required_in(repo));
    let all = first + rest;
    lemma_filter_map_has(list, required_in(repo), number);
    if all.contains(number) {
        let k = choose|k: int| 0 <= k < all.len() && all[k] == number;
        if k < first.len() {
            assert(first[k] == number);
        } else {
            assert(rest[k - first.len()] == number);
            assert(rest.contains(number));
        }
    }
    if lookup(store.stated@, ranks(branch@)) == Some(number) {
        assert(all[0] == number);
    }
    if rest.contains(number) {
        let k = choose|k: int| 0 <= k < rest.len() && rest[k] == number;
        assert(all[first.len() + k] == number);
    }
}

/// A pull request is unreported exactly if a branch has one and the forge gave no facts of it; an error of
/// the forge is the only problem where there is one, and where the forge was not asked there is none.
pub proof fn lemma_unreported_pulls(snapshot: Snapshot, branch: BranchName, branches: Seq<BranchName>, error: String)
    ensures
        unreported(snapshot)(branch) is Some <==> summary_for(branch@, snapshot.index.by_branch@) is Some
            && !snapshot.facts@.contains_key(summary_for(branch@, snapshot.index.by_branch@)->0.number),
        forge_problems_of(Some(snapshot), Some(error), branches).len() == 1,
        forge_problems_of(None, Some(error), branches).len() == 1,
        forge_problems_of(None, None, branches).len() == 0,
        forge_problems_of(Some(snapshot), None, branches).len() <= branches.len(),
{
    lemma_filter_map_len(branches, unreported(snapshot));
}

proof fn lemma_filter_map_len<A, B>(s: Seq<A>, f: spec_fn(A) -> Option<B>)
    ensures
        s.filter_map(f).len() <= s.len(),
    decreases s.len(),
{
    if s.len() > 0 {
        lemma_filter_map_len(s.drop_last(), f);
    }
}

/// A conflicted bookmark is found as a divergence of that bookmark, and a repository's health tells every
/// conflicted bookmark, after the doubled checkouts and the divergent changes.
pub proof fn lemma_health_of_repository(
    workspaces: Seq<(WorkspaceName, ChangeId)>,
    changes: Seq<(ChangeId, CommitId)>,
    conflicted: Seq<(BookmarkRef, Vec<CommitId>)>,
    i: int,
)
    requires
        0 <= i < conflicted.len(),
    ensures
        conflict_of(conflicted[i]).kind == FindingKind::Divergence,
        conflict_of(conflicted[i]).subject == SubjectView::Bookmark(conflicted[i].0@),
        health_of(workspaces, changes, conflicted).contains(conflict_of(conflicted[i])),
        health_of(workspaces, changes, conflicted).len() == checkouts_of(workspaces).len() + divergences_of(
            changes,
        ).len() + conflicted.len(),
{
    let before = checkouts_of(workspaces) + divergences_of(changes);
    assert(health_of(workspaces, changes, conflicted)[before.len() + i] == conflict_of(conflicted[i]));
}

proof fn lemma_kept_of(results: Seq<ProbeResult>, key: Seq<char>)
    ensures
        ascending(kept_of(results)),
        lookup(kept_of(results), ranks(key)) is Some <==> exists|i: int|
            0 <= i < results.len() && ((#[trigger] results[i]).landed matches Some(kept) && kept.0@ == key),
    decreases results.len(),
{
    if results.len() > 0 {
        let rest = results.drop_last();
        let last = results.len() - 1;
        lemma_kept_of(rest, key);
        assert(results[last] == results.last());
        assert forall|i: int| 0 <= i < rest.len() implies rest[i] == #[trigger] results[i] by {}
        if exists|i: int| 0 <= i < rest.len() && ((#[trigger] rest[i]).landed matches Some(kept) && kept.0@ == key) {
            let i = choose|i: int|
                0 <= i < rest.len() && ((#[trigger] rest[i]).landed matches Some(kept) && kept.0@ == key);
            assert(results[i] == rest[i]);
        }
        if exists|i: int|
            0 <= i < results.len() && ((#[trigger] results[i]).landed matches Some(kept) && kept.0@ == key) {
            let i = choose|i: int|
                0 <= i < results.len() && ((#[trigger] results[i]).landed matches Some(kept) && kept.0@ == key);
            if i < last {
                assert(rest[i] == results[i]);
            }
        }
        if let Some((name, verdict)) = results.last().landed {
            lemma_put(kept_of(rest), name, verdict);
            lemma_ranks_injective(name@, key);
        }
    }
}

/// The verdicts that are kept are those that a probe has a key for, each under its own key; a later one under
/// a key replaces an earlier one.
pub proof fn lemma_kept_verdicts(results: Seq<ProbeResult>, result: ProbeResult, key: Seq<char>)
    ensures
        lookup(kept_of(results), ranks(key)) is Some <==> exists|i: int|
            0 <= i < results.len() && ((#[trigger] results[i]).landed matches Some(kept) && kept.0@ == key),
        result.landed matches Some(kept) ==> lookup(kept_of(results.push(result)), ranks(kept.0@)) == Some(kept.1),
        result.landed is None ==> kept_of(results.push(result)) == kept_of(results),
{
    lemma_kept_of(results, key);
    assert(results.push(result).drop_last() =~= results);
    if let Some((name, verdict)) = result.landed {
        lemma_put(kept_of(results), name, verdict);
        assert(name.rank() == ranks(name@));
    }
}

/// The shares of the workers take every branch, and with one branch less in each they would not; without a
/// worker one takes all.
pub proof fn lemma_fair_share(items: nat, workers: nat)
    requires
        items > 0,
    ensures
        workers == 0 ==> share(items, workers) == items,
        workers >= items ==> share(items, workers) == 1,
        0 < workers <= items ==> share(items, workers) * workers >= items && (share(items, workers) - 1) * workers
            < items,
{
    let total: int = items as int;
    assert((total + 1 - 1) / 1 == total);
    let one: int = (total + total - 1) / total;
    assert(one == 1) by (nonlinear_arith)
        requires
            total > 0,
            one == (total + total - 1) / total,
    ;
    if 0 < workers <= items {
        let hands: int = workers as int;
        let part: int = (total + hands - 1) / hands;
        assert(part >= 0 && part * hands >= total && (part - 1) * hands < total) by (nonlinear_arith)
            requires
                hands > 0,
                total > 0,
                part == (total + hands - 1) / hands,
        ;
    }
}

} // verus!
