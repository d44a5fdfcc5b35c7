//! The whole report, from everything that was asked.

use std::collections::BTreeMap;

use vstd::prelude::*;
use vstd::string::*;

use crate::commands::status::claims::{
    claim_overlaps, claim_problems, fold_claims, housed, repo_notches, unhoused, with_claims, workspace_names,
    ClaimFoldInput,
};
use crate::commands::status::dependencies::{
    by_repo, needs, needs_of, unmet_dependencies, unmet_finding, unmet_problem, DependencyContext,
};
use crate::commands::status::merged::{settle_merged_landed, settled_row, settlement_note, MergedLandedInput};
use crate::commands::status::overlap::{
    add_branch_overlap_findings, carried_findings, carried_row, path_problem, touched_of, untold_note, BranchFiles,
};
use crate::commands::status::phases::{forge_phase, forge_problems_of, health_of, repository_health};
use crate::commands::status::releases::{
    add_releases, newest_text, release_findings, release_names, scanned, skipped, skipped_note, Successors,
};
use crate::commands::status::rows::{
    branch_rows, divergent_branch, divergent_branches, divergent_findings, divergent_problems, divergent_rows,
    divergent_views, fetched_head, first_refusal, maintained_branches, probed_findings, probed_problems, probed_rows,
    row_of, single, unjudged_name, ProbedBranch, RowContext,
};
use crate::commands::status::{
    about, group_findings, groups_of, heads_note, immutable_heads_finding, note_fetched_heads, notch_of, rule_finding,
    unjudged_note, unjudged_text, BranchRow, ForgeStatus, NotchView, Report, RowView, StatedRule,
};
use crate::config::{immutable_rule, publish_of, scheme_of, trunk_of, Registry, RepoEntry};
use crate::detect::landed::LandedVerdict;
use crate::detect::overlap::overlaps_of;
use crate::detect::pull_state::{incidents, pull_state_findings, PullState};
use crate::detect::stale_parents::{tip_of, BookmarkTips, ReleaseParent};
use crate::detect::{Finding, FindingView, SubjectView};
use crate::forge::{open_state, PullFacts};
use crate::graph::CommitGraph;
use crate::ids::{BookmarkRef, BookmarkView, BranchName, ChangeId, CommitId, RepoName, WorkspaceName};
use crate::order::{lex_less, lookup, OrdMap};
use crate::seqs::{
    gathered, group_seqs, lemma_filter_has, lemma_filter_map_has, lemma_filter_next, lemma_gathered_next,
    lemma_take_next, listed, pointee, view_of, views,
};
use crate::snapshot::Snapshot;
use crate::sorting::{lemma_sorted, lemma_sorted_views, sort, sorted};
use crate::text::{eq_ignore_case, ranks, same, same_ignoring_case};

verus! {

/// Everything that a report is made from.
#[derive(Clone, Copy)]
pub struct StatusInput<'a> {
    pub name: &'a RepoName,
    pub entry: &'a RepoEntry,
    /// What every row is made from: the store, the forge's answers, the ledger, the expected base.
    pub context: RowContext<'a>,
    /// Why the forge could not answer, where it was asked and could not.
    pub forge_error: Option<&'a String>,
    pub elapsed_ms: u64,
    /// Why the ledger could not be read, where it could not.
    pub ledger_problem: Option<&'a String>,
    /// What is to be said of the remotes of the checkout.
    pub remote_notes: &'a Vec<String>,
    pub tips: &'a BookmarkTips,
    pub conflicted: &'a OrdMap<BookmarkRef, Vec<CommitId>>,
    /// The parents of each release commit.
    pub parents: &'a OrdMap<CommitId, Vec<ReleaseParent>>,
    pub successors: &'a Successors,
    pub double_cuts: &'a Vec<Finding>,
    pub double_cut_notes: &'a Vec<String>,
    /// The rule the repository's own configuration states.
    pub immutable: &'a Result<Option<StatedRule>, String>,
    pub config_path: &'a str,
    /// What is said of a working copy that is stale.
    pub stale: Option<&'a String>,
    pub workspaces: &'a Vec<(WorkspaceName, ChangeId)>,
    pub changes: &'a Vec<(ChangeId, CommitId)>,
    /// The maintained branches with what was asked about them.
    pub probed: &'a Vec<ProbedBranch>,
    pub trunk_tip: Option<&'a CommitId>,
    pub graph: &'a CommitGraph,
    /// Every reference that reaches the tip of each branch.
    pub carriers: &'a OrdMap<BranchName, Vec<BookmarkRef>>,
    /// The branches whose history past the trunk carries merges.
    pub stacked: &'a OrdMap<BranchName, Finding>,
    pub claims: &'a ClaimFoldInput,
    /// The registry, where other repositories can be asked about.
    pub registry: Option<&'a Registry>,
    /// What the forge answered about other repositories.
    pub answers: Option<&'a OrdMap<RepoName, Result<BTreeMap<u64, PullFacts>, String>>>,
    /// Why the forge cache could not be written, where it could not.
    pub unsaved: Option<&'a String>,
}

/// Rows are ordered by the names of their branches.
pub open spec fn row_rank() -> spec_fn(RowView) -> Seq<int> {
    |row: RowView| ranks(row.name)
}

/// The divergent branches that need rows.
pub open spec fn divergent_of(input: StatusInput) -> Seq<BranchName> {
    input.conflicted@.filter_map(divergent_branch(trunk_of(*input.entry), scheme_of(*input.entry)))
}

/// All branches with rows: the probed ones, then the divergent ones.
pub open spec fn branches_of(input: StatusInput) -> Seq<BranchName> {
    Seq::new(input.probed@.len(), |i: int| input.probed@[i].input.branch) + divergent_of(input)
}

/// The rows of all branches, by name.
pub open spec fn first_rows(input: StatusInput) -> Seq<RowView> {
    sorted(
        probed_rows(input.context, input.probed@) + divergent_views(
            input.context,
            divergent_of(input),
            input.tips@,
        ),
        row_rank(),
    )
}

/// What the verdicts of the rows are settled from, where the forge answered.
pub open spec fn merged_input<'a>(input: StatusInput<'a>, snapshot: &'a Snapshot) -> MergedLandedInput<'a> {
    MergedLandedInput {
        graph: input.graph,
        index: &snapshot.index,
        tips: input.tips,
        conflicted: input.conflicted,
        trunk_tip: input.trunk_tip,
    }
}

/// The rows once the forge has had its say about what landed.
pub open spec fn settled_rows(input: StatusInput) -> Seq<RowView> {
    match input.context.snapshot {
        Some(snapshot) => first_rows(input).map_values(settled_row(merged_input(input, snapshot))),
        None => first_rows(input),
    }
}

/// What is said of rows whose merged pull requests do not settle them.
pub open spec fn settled_notes(input: StatusInput) -> Seq<Seq<char>> {
    match input.context.snapshot {
        Some(snapshot) => first_rows(input).filter_map(settlement_note(merged_input(input, snapshot))),
        None => Seq::empty(),
    }
}

/// The rows with claims.
pub open spec fn claimed_rows(input: StatusInput) -> Seq<RowView> {
    with_claims(settled_rows(input), input.claims.claims@, input.claims.seen)
}

/// The rows with claims and workspaces.
pub open spec fn final_rows(input: StatusInput) -> Seq<RowView> {
    let rows = claimed_rows(input);
    Seq::new(rows.len(), |i: int| housed(rows, workspace_names(input.claims.workspaces), i))
}

/// What is found of a row whose open pull request has a history that carries merges: whoever takes
/// that pull request takes everything those merges carried.
pub open spec fn stacked_row(input: StatusInput) -> spec_fn(RowView) -> Option<FindingView> {
    |row: RowView|
        match row.pr {
            Some(pull) => if open_state(pull.state) && tip_of(
                input.tips@,
                BookmarkView::Local(row.name),
            ) is Some {
                match lookup(input.stacked@, ranks(row.name)) {
                    Some(finding) => Some(finding@),
                    None => None,
                }
            } else {
                None
            },
            None => None,
        }
}

/// What is found of the pull request of a row by its live facts.
pub open spec fn row_incidents(snapshot: Snapshot) -> spec_fn(RowView) -> Seq<FindingView> {
    |row: RowView|
        match row.pr {
            Some(pull) => match snapshot.known(pull.number) {
                Some(fact) => incidents()(
                    PullState { number: pull.number, open: open_state(fact.pull.state@), details: &fact.details },
                ),
                None => Seq::empty(),
            },
            None => Seq::empty(),
        }
}

/// What is found of the pull requests of the rows by their live facts.
pub open spec fn state_findings(input: StatusInput) -> Seq<FindingView> {
    match input.context.snapshot {
        Some(snapshot) => gathered(final_rows(input), row_incidents(*snapshot)),
        None => Seq::empty(),
    }
}

/// The names of rows.
pub open spec fn row_names(rows: Seq<RowView>) -> Seq<Seq<char>> {
    Seq::new(rows.len(), |i: int| rows[i].name)
}

/// What dependencies are checked against.
pub open spec fn dependency_context<'a>(input: StatusInput<'a>, registry: &'a Registry) -> DependencyContext<'a> {
    DependencyContext {
        repo: input.name,
        registry,
        snapshot: input.context.snapshot,
        answers: input.answers,
    }
}

/// What is found of the declared dependencies.
pub open spec fn dependency_findings(input: StatusInput) -> Seq<FindingView> {
    match input.registry {
        Some(registry) => by_repo(
            gathered(row_names(final_rows(input)), needs_of(*input.context.store)),
        ).filter_map(unmet_finding(dependency_context(input, registry))),
        None => Seq::empty(),
    }
}

/// What could not be answered of the declared dependencies.
pub open spec fn dependency_problems(input: StatusInput) -> Seq<Seq<char>> {
    match input.registry {
        Some(registry) => by_repo(
            gathered(row_names(final_rows(input)), needs_of(*input.context.store)),
        ).filter_map(unmet_problem(dependency_context(input, registry))),
        None => Seq::empty(),
    }
}

/// Whether a branch still could not be judged: its row says so.
pub open spec fn still_unjudged(rows: Seq<RowView>) -> spec_fn(Seq<char>) -> bool {
    |name: Seq<char>|
        exists|i: int|
            0 <= i < rows.len() && (#[trigger] rows[i]).name == name && rows[i].landed == Some(
                LandedVerdict::Unjudged,
            )
}

/// The branches that could not be judged and that the forge did not settle either.
pub open spec fn unjudged_of(input: StatusInput) -> Seq<Seq<char>> {
    input.probed@.filter_map(unjudged_name()).filter(still_unjudged(final_rows(input)))
}

/// What is found of the stated rule.
pub open spec fn rule_findings(input: StatusInput) -> Seq<FindingView> {
    match *input.immutable {
        Ok(stated) => listed(rule_finding(immutable_rule(*input.entry), stated, input.config_path@)),
        Err(_) => Seq::empty(),
    }
}

/// What is said where the stated rule could not be read.
pub open spec fn rule_problem(input: StatusInput) -> Option<Seq<char>> {
    match *input.immutable {
        Ok(_) => None,
        Err(error) => Some("immutable_heads() rule not read: "@ + error@),
    }
}

/// What is found of the repository as a whole, of its releases, and of the rule it states.
pub open spec fn opening_findings(input: StatusInput) -> Seq<FindingView> {
    health_of(input.workspaces@, input.changes@, input.conflicted@) + (gathered(
        scanned(input.tips@, scheme_of(*input.entry), publish_of(*input.entry)),
        release_findings(input.parents@, input.tips@, input.successors@),
    ) + views(input.double_cuts@)) + rule_findings(input)
}

/// What is found of the rows once they stand.
pub open spec fn folded_findings(input: StatusInput, files: Seq<BranchFiles>) -> Seq<FindingView> {
    gathered(input.probed@, probed_findings(input.context)) + gathered(
        divergent_of(input),
        divergent_findings(input.context),
    ) + settled_rows(input).filter_map(carried_row(input.tips@, input.carriers@, trunk_of(*input.entry)))
        + settled_rows(input).filter_map(stacked_row(input)) + overlaps_of(touched_of(files))
        + claim_overlaps(input.claims.claims@) + dependency_findings(input) + state_findings(input)
}

/// Everything that is found, in the order of the detectors.
pub open spec fn all_findings(input: StatusInput, files: Seq<BranchFiles>) -> Seq<FindingView> {
    opening_findings(input) + folded_findings(input, files)
}

/// What could not be answered before the rows were made.
pub open spec fn opening_problems(input: StatusInput) -> Seq<Seq<char>> {
    listed(view_of(input.stale)) + listed(view_of(input.ledger_problem)) + listed(rule_problem(input))
}

/// What could not be answered while the rows were made and finished.
pub open spec fn folded_problems(input: StatusInput, files: Seq<BranchFiles>) -> Seq<Seq<char>> {
    forge_problems_of(pointee(input.context.snapshot), pointee(input.forge_error), branches_of(input)) + (gathered(
        input.probed@,
        probed_problems(input.context),
    ) + gathered(divergent_of(input), divergent_problems(input.context, input.tips@))) + files.filter_map(
        path_problem(),
    ) + claim_problems(*input.claims) + dependency_problems(input) + listed(unjudged_text(unjudged_of(input)))
}

/// Everything that could not be answered.
pub open spec fn all_problems(input: StatusInput, files: Seq<BranchFiles>) -> Seq<Seq<char>> {
    opening_problems(input) + folded_problems(input, files)
}

/// What is worth saying before the rows are made.
pub open spec fn opening_notes(input: StatusInput) -> Seq<Seq<char>> {
    let scheme = scheme_of(*input.entry);
    views(input.remote_notes@) + (views(input.double_cut_notes@) + skipped_note(
        skipped(input.tips@, scheme, publish_of(*input.entry)),
    )) + listed(heads_note(input.tips@.filter(fetched_head(trunk_of(*input.entry), scheme)).len()))
}

/// Everything that is worth saying and is no failure.
pub open spec fn all_notes(input: StatusInput, files: Seq<BranchFiles>) -> Seq<Seq<char>> {
    opening_notes(input) + (settled_notes(input) + files.filter_map(untold_note())) + listed(
        view_of(input.unsaved),
    )
}

fn copied_findings(findings: &Vec<Finding>) -> (copy: Vec<Finding>)
    ensures
        copy@ == findings@,
{
    let mut copy: Vec<Finding> = Vec::new();
    let mut i: usize = 0;
    while i < findings.len()
        invariant
            i <= findings@.len(),
            copy@ == findings@.take(i as int),
        decreases findings@.len() - i,
    {
        copy.push(findings[i].clone());
        i += 1;
        assert(copy@ =~= findings@.take(i as int));
    }
    assert(copy@ =~= findings@);
    copy
}

fn copied_texts(texts: &Vec<String>) -> (copy: Vec<String>)
    ensures
        copy@ == texts@,
{
    let mut copy: Vec<String> = Vec::new();
    let mut i: usize = 0;
    while i < texts.len()
        invariant
            i <= texts@.len(),
            copy@ == texts@.take(i as int),
        decreases texts@.len() - i,
    {
        copy.push(texts[i].clone());
        i += 1;
        assert(copy@ =~= texts@.take(i as int));
    }
    assert(copy@ =~= texts@);
    copy
}

fn push_text(list: &mut Vec<String>, text: Option<&String>)
    ensures
        views(final(list)@) == views(old(list)@) + listed(view_of(text)),
{
    broadcast use group_seqs;

    let ghost before = views(list@);
    if let Some(text) = text {
        list.push(text.clone());
    }
    assert(views(list@) =~= before + listed(view_of(text)));
}

fn push_owned(list: &mut Vec<String>, text: Option<String>)
    ensures
        views(final(list)@) == views(old(list)@) + listed(view_of(text)),
{
    broadcast use group_seqs;

    let ghost before = views(list@);
    let ghost added = listed(view_of(text));
    if let Some(text) = text {
        list.push(text);
    }
    assert(views(list@) =~= before + added);
}

fn all_branches(probed: &Vec<ProbedBranch>, divergent: &Vec<BranchName>) -> (branches: Vec<BranchName>)
    ensures
        branches@ == Seq::new(probed@.len(), |i: int| probed@[i].input.branch) + divergent@,
{
    let mut branches: Vec<BranchName> = Vec::new();
    let ghost first = Seq::new(probed@.len(), |i: int| probed@[i].input.branch);
    let mut i: usize = 0;
    while i < probed.len()
        invariant
            i <= probed@.len(),
            first == Seq::new(probed@.len(), |i: int| probed@[i].input.branch),
            branches@ == first.take(i as int),
        decreases probed@.len() - i,
    {
        branches.push(probed[i].input.branch.clone());
        i += 1;
        assert(branches@ =~= first.take(i as int));
    }
    let mut k: usize = 0;
    while k < divergent.len()
        invariant
            k <= divergent@.len(),
            branches@ == first + divergent@.take(k as int),
        decreases divergent@.len() - k,
    {
        branches.push(divergent[k].clone());
        k += 1;
        assert(branches@ =~= first + divergent@.take(k as int));
    }
    assert(divergent@.take(k as int) =~= divergent@);
    branches
}

/// Findings for open pull requests whose history carries merges.
pub fn stacked_pull_findings(rows: &Vec<BranchRow>, input: &StatusInput<'_>) -> (findings: Vec<Finding>)
    ensures
        views(findings@) == views(rows@).filter_map(stacked_row(*input)),
{
    broadcast use group_seqs;

    let mut findings: Vec<Finding> = Vec::new();
    let ghost all = views(rows@);
    let mut i: usize = 0;
    while i < rows.len()
        invariant
            i <= rows@.len(),
            all == views(rows@),
            views(findings@) == all.take(i as int).filter_map(stacked_row(*input)),
        decreases rows@.len() - i,
    {
        let row = &rows[i];
        proof {
            all.lemma_filter_map_take_succ(stacked_row(*input), i as int);
            assert(all[i as int] == row@);
        }
        if let Some(pull) = &row.pr {
            let bookmark = BookmarkRef::Local(row.name.clone());
            assert(bookmark@ == BookmarkView::Local(row.name@));
            if eq_ignore_case(pull.state.as_str(), "OPEN") && input.tips.get(&bookmark).is_some() {
                if let Some(finding) = input.stacked.get(&row.name) {
                    findings.push(finding.clone());
                }
            }
        }
        assert(views(findings@) =~= all.take(i + 1).filter_map(stacked_row(*input)));
        i += 1;
    }
    findings
}

/// Findings for the pull requests of rows by their live facts.
pub fn add_pull_state_findings(rows: &Vec<BranchRow>, snapshot: &Snapshot) -> (findings: Vec<Finding>)
    ensures
        views(findings@) == gathered(views(rows@), row_incidents(*snapshot)),
{
    broadcast use group_seqs;

    let mut findings: Vec<Finding> = Vec::new();
    let ghost all = views(rows@);
    let ghost found = row_incidents(*snapshot);
    let mut i: usize = 0;
    while i < rows.len()
        invariant
            i <= rows@.len(),
            all == views(rows@),
            found == row_incidents(*snapshot),
            views(findings@) == gathered(all.take(i as int), found),
        decreases rows@.len() - i,
    {
        let row = &rows[i];
        proof {
            lemma_gathered_next(all, found, i as int);
            assert(all[i as int] == row@);
        }
        let ghost before = views(findings@);
        if let Some(pull) = &row.pr {
            if let Some(fact) = snapshot.fact(pull.number) {
                let mut states: Vec<PullState<'_>> = Vec::new();
                let state = PullState { number: pull.number, open: fact.pull.is_open(), details: &fact.details };
                states.push(state);
                let mut more = pull_state_findings(&states);
                proof {
                    let one = states@;
                    assert(one.take(1) =~= one);
                    assert(one.take(0) =~= Seq::<PullState<'_>>::empty());
                    lemma_gathered_next(one, incidents(), 0);
                    assert(views(more@) =~= incidents()(state));
                }
                findings.append(&mut more);
            }
        }
        assert(views(findings@) =~= before + found(all[i as int]));
        i += 1;
    }
    findings
}

fn row_branches(rows: &Vec<BranchRow>) -> (names: Vec<BranchName>)
    ensures
        views(names@) == row_names(views(rows@)),
{
    broadcast use group_seqs;

    let mut names: Vec<BranchName> = Vec::new();
    let ghost all = row_names(views(rows@));
    let mut i: usize = 0;
    while i < rows.len()
        invariant
            i <= rows@.len(),
            all == row_names(views(rows@)),
            views(names@) == all.take(i as int),
        decreases rows@.len() - i,
    {
        proof {
            assert(views(rows@)[i as int] == rows@[i as int]@);
            lemma_take_next(all, i as int);
        }
        names.push(rows[i].name.clone());
        i += 1;
    }
    names
}

fn is_still_unjudged(rows: &Vec<BranchRow>, name: &str) -> (r: bool)
    ensures
        r == still_unjudged(views(rows@))(name@),
{
    let ghost all = views(rows@);
    let mut i: usize = 0;
    while i < rows.len()
        invariant
            i <= rows@.len(),
            all == views(rows@),
            forall|j: int|
                0 <= j < i ==> !((#[trigger] all[j]).name == name@ && all[j].landed == Some(
                    LandedVerdict::Unjudged,
                )),
        decreases rows@.len() - i,
    {
        assert(all[i as int] == rows@[i as int]@);
        if let Some(LandedVerdict::Unjudged) = rows[i].landed {
            if same(rows[i].name.as_str(), name) {
                assert(all[i as int].name == name@);
                return true;
            }
        }
        i += 1;
    }
    false
}

fn remaining_unjudged(unjudged: &Vec<String>, rows: &Vec<BranchRow>) -> (names: Vec<String>)
    ensures
        views(names@) == views(unjudged@).filter(still_unjudged(views(rows@))),
{
    broadcast use group_seqs;

    let mut names: Vec<String> = Vec::new();
    let ghost all = views(unjudged@);
    let ghost still = still_unjudged(views(rows@));
    let mut i: usize = 0;
    while i < unjudged.len()
        invariant
            i <= unjudged@.len(),
            all == views(unjudged@),
            still == still_unjudged(views(rows@)),
            views(names@) == all.take(i as int).filter(still),
        decreases unjudged@.len() - i,
    {
        proof {
            lemma_filter_next(all, still, i as int);
            assert(all[i as int] == unjudged@[i as int]@);
        }
        if is_still_unjudged(rows, unjudged[i].as_str()) {
            names.push(unjudged[i].clone());
        }
        i += 1;
    }
    names
}

/// The rows of all branches by name, and what came up while they were made.
#[derive(Debug)]
pub struct FirstRows {
    pub rows: Vec<BranchRow>,
    pub unjudged: Vec<String>,
    pub problems: Vec<String>,
    pub findings: Vec<Finding>,
}

/// The rows of all branches by name, and what came up while they were made.
pub fn status_rows(input: &StatusInput<'_>) -> (made: Result<FirstRows, String>)
    ensures
        match made {
            Ok(made) => {
                &&& first_refusal(input.probed@, 0) is None
                &&& views(made.rows@) == first_rows(*input)
                &&& views(made.unjudged@) == input.probed@.filter_map(unjudged_name())
                &&& views(made.problems@) == gathered(input.probed@, probed_problems(input.context)) + gathered(
                    divergent_of(*input),
                    divergent_problems(input.context, input.tips@),
                )
                &&& views(made.findings@) == gathered(input.probed@, probed_findings(input.context)) + gathered(
                    divergent_of(*input),
                    divergent_findings(input.context),
                )
            },
            Err(error) => first_refusal(input.probed@, 0) == Some(error@),
        },
{
    broadcast use group_seqs;

    let made = match branch_rows(&input.context, input.probed) {
        Ok(made) => made,
        Err(error) => return Err(error),
    };
    let scheme = input.entry.release_scheme();
    let divergent = divergent_branches(input.conflicted, input.entry.trunk(), &scheme);
    let more = divergent_rows(&input.context, &divergent, input.tips);
    let mut rows = made.rows;
    let mut other_rows = more.rows;
    rows.append(&mut other_rows);
    proof {
        lemma_sorted_views(rows@, row_rank());
    }
    sort(&mut rows);
    let mut problems = made.problems;
    let mut other_problems = more.problems;
    problems.append(&mut other_problems);
    let mut findings = made.findings;
    let mut other_findings = more.findings;
    findings.append(&mut other_findings);
    Ok(FirstRows { rows, unjudged: made.unjudged, problems, findings })
}

/// What the completed phases come to: the rows, and what came up while they were finished.
struct Folded {
    rows: Vec<BranchRow>,
    problems: Vec<String>,
    findings: Vec<Finding>,
    notes: Vec<String>,
    other_workspaces: Vec<String>,
}

fn check_dependencies(input: &StatusInput<'_>, rows: &Vec<BranchRow>) -> (found: (Vec<Finding>, Vec<String>))
    requires
        views(rows@) == final_rows(*input),
    ensures
        views(found.0@) == dependency_findings(*input),
        views(found.1@) == dependency_problems(*input),
{
    broadcast use group_seqs;

    match input.registry {
        Some(registry) => {
            let names = row_branches(rows);
            let found = needs(&names, input.context.store);
            unmet_dependencies(
                &found,
                DependencyContext {
                    repo: input.name,
                    registry,
                    snapshot: input.context.snapshot,
                    answers: input.answers,
                },
            )
        },
        None => (Vec::new(), Vec::new()),
    }
}

/// Folds what the phases answered into rows, findings, problems and notes.
fn fold_phase_outcome(input: &StatusInput<'_>, made: FirstRows, files: Vec<BranchFiles>) -> (folded: Folded)
    requires
        views(made.rows@) == first_rows(*input),
        views(made.unjudged@) == input.probed@.filter_map(unjudged_name()),
        views(made.problems@) == gathered(input.probed@, probed_problems(input.context)) + gathered(
            divergent_of(*input),
            divergent_problems(input.context, input.tips@),
        ),
        views(made.findings@) == gathered(input.probed@, probed_findings(input.context)) + gathered(
            divergent_of(*input),
            divergent_findings(input.context),
        ),
    ensures
        views(folded.rows@) == final_rows(*input),
        views(folded.problems@) == folded_problems(*input, files@),
        views(folded.findings@) == folded_findings(*input, files@),
        views(folded.notes@) == settled_notes(*input) + files@.filter_map(untold_note()),
        views(folded.other_workspaces@) == workspace_names(input.claims.workspaces).filter(
            unhoused(claimed_rows(*input)),
        ),
{
    broadcast use group_seqs;

    let scheme = input.entry.release_scheme();
    let divergent = divergent_branches(input.conflicted, input.entry.trunk(), &scheme);
    let branches = all_branches(input.probed, &divergent);
    let mut problems = forge_phase(input.context.snapshot, input.forge_error, &branches);
    let mut row_problems = made.problems;
    problems.append(&mut row_problems);

    let mut rows = made.rows;
    let mut notes: Vec<String> = Vec::new();
    if let Some(snapshot) = input.context.snapshot {
        notes = settle_merged_landed(
            &mut rows,
            MergedLandedInput {
                graph: input.graph,
                index: &snapshot.index,
                tips: input.tips,
                conflicted: input.conflicted,
                trunk_tip: input.trunk_tip,
            },
        );
    }
    assert(views(rows@) =~= settled_rows(*input));
    assert(views(notes@) =~= settled_notes(*input));

    let mut findings = made.findings;
    let mut carried = carried_findings(&rows, input.tips, input.carriers, input.entry.trunk());
    findings.append(&mut carried);
    let mut stacked = stacked_pull_findings(&rows, input);
    findings.append(&mut stacked);

    let compared = add_branch_overlap_findings(files);
    let mut path_findings = compared.findings;
    let mut path_notes = compared.notes;
    let mut path_problems = compared.problems;
    findings.append(&mut path_findings);
    notes.append(&mut path_notes);
    problems.append(&mut path_problems);

    let fold = fold_claims(&mut rows, input.claims);
    assert(views(rows@) =~= final_rows(*input));
    let mut claim_findings = fold.findings;
    let mut claim_troubles = fold.problems;
    findings.append(&mut claim_findings);
    problems.append(&mut claim_troubles);

    let (mut unmet, mut unanswered) = check_dependencies(input, &rows);
    findings.append(&mut unmet);
    problems.append(&mut unanswered);

    let still = remaining_unjudged(&made.unjudged, &rows);
    push_owned(&mut problems, unjudged_note(&still));
    if let Some(snapshot) = input.context.snapshot {
        let mut states = add_pull_state_findings(&rows, snapshot);
        findings.append(&mut states);
    }
    assert(views(findings@) =~= folded_findings(*input, files@));
    assert(views(problems@) =~= folded_problems(*input, files@));
    Folded { rows, problems, findings, notes, other_workspaces: fold.other_workspaces }
}

/// What a report shows of the repository's own ledger entries.
pub open spec fn shown_notches(report: Report) -> Option<NotchView> {
    match report.repo_notches {
        Some(notches) => Some(notches.last@),
        None => None,
    }
}

/// Whether a report is the one that everything that was asked comes to.
pub open spec fn is_report(report: Report, input: StatusInput, files: Seq<BranchFiles>) -> bool {
    let scheme = scheme_of(*input.entry);
    let publish = publish_of(*input.entry);
    &&& report.repo@ == input.name@
    &&& report.trunk@ == trunk_of(*input.entry)
    &&& view_of(report.newest_release) == newest_text(input.tips@, scheme, publish)
    &&& report.forge == (ForgeStatus {
        consulted: input.context.snapshot is Some,
        elapsed_ms: input.elapsed_ms,
    })
    &&& views(report.problems@) == all_problems(input, files)
    &&& views(report.branches@) == final_rows(input)
    &&& views(report.findings@) == groups_of(all_findings(input, files))
    &&& views(report.releases@) == release_names(scanned(input.tips@, scheme, publish))
    &&& shown_notches(report) == notch_of(input.context.notches@.filter(about(None)))
    &&& match report.repo_notches {
        Some(notches) => notches.count as nat == notches.last@.count,
        None => true,
    }
    &&& views(report.other_workspaces@) == workspace_names(input.claims.workspaces).filter(
        unhoused(claimed_rows(input)),
    )
    &&& views(report.notes@) == all_notes(input, files)
}

/// What a report says before its rows are made.
struct Opening {
    newest_release: Option<String>,
    releases: Vec<String>,
    problems: Vec<String>,
    findings: Vec<Finding>,
    notes: Vec<String>,
}

fn check_rule(input: &StatusInput<'_>) -> (found: (Vec<Finding>, Option<String>))
    ensures
        views(found.0@) == rule_findings(*input),
        view_of(found.1) == rule_problem(*input),
{
    let mut findings: Vec<Finding> = Vec::new();
    let mut problem: Option<String> = None;
    match input.immutable {
        Ok(stated) => {
            let rule = input.entry.immutable_heads();
            if let Some(finding) = immutable_heads_finding(rule.as_str(), stated.as_ref(), input.config_path) {
                findings.push(finding);
            }
        },
        Err(error) => {
            let mut text = "immutable_heads() rule not read: ".to_owned();
            text.append(error.as_str());
            problem = Some(text);
        },
    }
    assert(views(findings@) =~= rule_findings(*input));
    (findings, problem)
}

fn open(input: &StatusInput<'_>) -> (opening: Opening)
    ensures
        view_of(opening.newest_release) == newest_text(
            input.tips@,
            scheme_of(*input.entry),
            publish_of(*input.entry),
        ),
        views(opening.releases@) == release_names(
            scanned(input.tips@, scheme_of(*input.entry), publish_of(*input.entry)),
        ),
        views(opening.problems@) == opening_problems(*input),
        views(opening.findings@) == opening_findings(*input),
        views(opening.notes@) == opening_notes(*input),
{
    broadcast use group_seqs;

    let scheme = input.entry.release_scheme();
    let publish = input.entry.publish_remote();
    let releases = add_releases(
        input.tips,
        &scheme,
        publish,
        input.parents,
        input.successors,
        copied_findings(input.double_cuts),
        copied_texts(input.double_cut_notes),
    );
    let (_, heads) = maintained_branches(input.tips, input.entry.trunk(), &scheme);
    let mut notes = copied_texts(input.remote_notes);
    let mut release_notes = releases.notes;
    notes.append(&mut release_notes);
    push_owned(&mut notes, note_fetched_heads(heads));
    let (mut rule_found, rule_trouble) = check_rule(input);
    let mut problems: Vec<String> = Vec::new();
    push_text(&mut problems, input.stale);
    push_text(&mut problems, input.ledger_problem);
    push_owned(&mut problems, rule_trouble);
    assert(views(problems@) =~= opening_problems(*input));
    let mut findings = repository_health(input.workspaces, input.changes, input.conflicted);
    let mut release_found = releases.findings;
    findings.append(&mut release_found);
    findings.append(&mut rule_found);
    Opening { newest_release: releases.newest_release, releases: releases.releases, problems, findings, notes }
}

/// The report, from everything that was asked, or the first refusal to judge a branch.
pub fn gather(input: StatusInput<'_>, files: Vec<BranchFiles>) -> (report: Result<Report, String>)
    ensures
        match report {
            Ok(report) => first_refusal(input.probed@, 0) is None && is_report(report, input, files@),
            Err(error) => first_refusal(input.probed@, 0) == Some(error@),
        },
{
    broadcast use group_seqs;

    let made = match status_rows(&input) {
        Ok(made) => made,
        Err(error) => return Err(error),
    };
    let opening = open(&input);
    let folded = fold_phase_outcome(&input, made, files);
    let mut problems = opening.problems;
    let mut more_problems = folded.problems;
    problems.append(&mut more_problems);
    let mut findings = opening.findings;
    let mut more_findings = folded.findings;
    findings.append(&mut more_findings);
    let mut notes = opening.notes;
    let mut more_notes = folded.notes;
    notes.append(&mut more_notes);
    push_text(&mut notes, input.unsaved);
    let forge = ForgeStatus { consulted: input.context.snapshot.is_some(), elapsed_ms: input.elapsed_ms };
    Ok(
        Report {
            repo: input.name.text.clone(),
            trunk: input.entry.trunk().to_owned(),
            newest_release: opening.newest_release,
            forge,
            problems,
            branches: folded.rows,
            findings: group_findings(&findings),
            releases: opening.releases,
            repo_notches: repo_notches(input.context.notches),
            other_workspaces: folded.other_workspaces,
            notes,
        },
    )
}

/// The stacking of a branch is told exactly if its pull request reads as open, it has a local tip, and it is
/// known to be stacked.
pub proof fn lemma_stacked_rows(input: StatusInput, row: RowView)
    ensures
        stacked_row(input)(row) is Some <==> row.pr is Some && same_ignoring_case(row.pr->0.state, "OPEN"@) && tip_of(
            input.tips@,
            BookmarkView::Local(row.name),
        ) is Some && lookup(input.stacked@, ranks(row.name)) is Some,
        stacked_row(input)(row) matches Some(finding) ==> finding == lookup(input.stacked@, ranks(row.name))->0@,
{
}

/// A branch is still unjudged exactly if it was when it was probed and no row says more of it since.
pub proof fn lemma_unjudged_branches(input: StatusInput, name: Seq<char>)
    ensures
        unjudged_of(input).contains(name) <==> (exists|i: int|
            0 <= i < input.probed@.len() && (#[trigger] input.probed@[i]).input.branch@ == name
                && input.probed@[i].verdict == Ok::<Option<LandedVerdict>, String>(Some(LandedVerdict::Unjudged))) && (
        exists|i: int|
            0 <= i < final_rows(input).len() && (#[trigger] final_rows(input)[i]).name == name && final_rows(
                input,
            )[i].landed == Some(LandedVerdict::Unjudged)),
{
    let names = input.probed@.filter_map(unjudged_name());
    lemma_filter_has(names, still_unjudged(final_rows(input)), name);
    lemma_filter_map_has(input.probed@, unjudged_name(), name);
    if names.contains(name) {
        let i = choose|i: int| 0 <= i < input.probed@.len() && unjudged_name()(#[trigger] input.probed@[i]) == Some(name);
        assert(input.probed@[i].input.branch@ == name);
    }
    if exists|i: int|
        0 <= i < input.probed@.len() && (#[trigger] input.probed@[i]).input.branch@ == name && input.probed@[i].verdict
            == Ok::<Option<LandedVerdict>, String>(Some(LandedVerdict::Unjudged)) {
        let i = choose|i: int|
            0 <= i < input.probed@.len() && (#[trigger] input.probed@[i]).input.branch@ == name
                && input.probed@[i].verdict == Ok::<Option<LandedVerdict>, String>(Some(LandedVerdict::Unjudged));
        assert(unjudged_name()(input.probed@[i]) == Some(name));
    }
}

/// Every branch that is probed or diverges has a row, in the order of the names, and no other branch has one
/// before claims are told.
pub proof fn lemma_a_row_for_each_branch(input: StatusInput)
    ensures
        first_rows(input).len() == input.probed@.len() + divergent_of(input).len(),
        settled_rows(input).len() == first_rows(input).len(),
        forall|i: int| 0 <= i < first_rows(input).len() ==> (#[trigger] settled_rows(input)[i]).name == first_rows(
            input,
        )[i].name,
        forall|i: int, j: int|
            0 <= i < j < first_rows(input).len() ==> !lex_less(
                ranks((#[trigger] first_rows(input)[j]).name),
                ranks((#[trigger] first_rows(input)[i]).name),
            ),
        forall|i: int|
            0 <= i < input.probed@.len() ==> exists|k: int|
                0 <= k < first_rows(input).len() && (#[trigger] first_rows(input)[k]).name == (
                #[trigger] input.probed@[i]).input.branch@,
{
    let made = probed_rows(input.context, input.probed@) + divergent_views(
        input.context,
        divergent_of(input),
        input.tips@,
    );
    lemma_sorted(made, row_rank());
    let rows = first_rows(input);
    assert forall|i: int, j: int| 0 <= i < j < rows.len() implies !lex_less(
        ranks((#[trigger] rows[j]).name),
        ranks((#[trigger] rows[i]).name),
    ) by {
        assert(!lex_less(row_rank()(rows[j]), row_rank()(rows[i])));
    }
    assert forall|i: int| 0 <= i < input.probed@.len() implies exists|k: int|
        0 <= k < rows.len() && (#[trigger] rows[k]).name == (#[trigger] input.probed@[i]).input.branch@ by {
        let row = row_of(input.context, input.probed@[i].input.branch@, single(input.probed@[i]));
        assert(made[i] == row);
        assert(made.contains(row));
        assert(rows.contains(row));
        let k = choose|k: int| 0 <= k < rows.len() && rows[k] == row;
        assert(rows[k].name == input.probed@[i].input.branch@);
    }
}

/// A rule that could not be read is a problem, and one that was read is a finding exactly if another rule is
/// stated than the one the entry has.
pub proof fn lemma_rule_is_checked(input: StatusInput)
    ensures
        rule_problem(input) is Some <==> *input.immutable is Err,
        rule_findings(input).len() > 0 <==> (*input.immutable matches Ok(Some(stated)) && stated.rule@
            != immutable_rule(*input.entry)),
{
}

/// Whether a finding was made anywhere in a run.
pub open spec fn found_somewhere(input: StatusInput, files: Seq<BranchFiles>, finding: FindingView) -> bool {
    ||| health_of(input.workspaces@, input.changes@, input.conflicted@).contains(finding)
    ||| gathered(
        scanned(input.tips@, scheme_of(*input.entry), publish_of(*input.entry)),
        release_findings(input.parents@, input.tips@, input.successors@),
    ).contains(finding)
    ||| views(input.double_cuts@).contains(finding)
    ||| rule_findings(input).contains(finding)
    ||| gathered(input.probed@, probed_findings(input.context)).contains(finding)
    ||| gathered(divergent_of(input), divergent_findings(input.context)).contains(finding)
    ||| settled_rows(input).filter_map(carried_row(input.tips@, input.carriers@, trunk_of(*input.entry))).contains(
        finding,
    )
    ||| settled_rows(input).filter_map(stacked_row(input)).contains(finding)
    ||| overlaps_of(touched_of(files)).contains(finding)
    ||| claim_overlaps(input.claims.claims@).contains(finding)
    ||| dependency_findings(input).contains(finding)
    ||| state_findings(input).contains(finding)
}

proof fn lemma_added<A>(a: Seq<A>, b: Seq<A>, x: A)
    ensures
        (a + b).contains(x) <==> a.contains(x) || b.contains(x),
{
    let whole = a + b;
    if a.contains(x) {
        let i = choose|i: int| 0 <= i < a.len() && a[i] == x;
        assert(whole[i] == x);
    }
    if b.contains(x) {
        let i = choose|i: int| 0 <= i < b.len() && b[i] == x;
        assert(whole[a.len() + i] == x);
    }
    if whole.contains(x) {
        let i = choose|i: int| 0 <= i < whole.len() && whole[i] == x;
        if i < a.len() {
            assert(a[i] == x);
        } else {
            assert(b[i - a.len()] == x);
        }
    }
}

/// A status reports every finding that was made anywhere in the run, and none that was not.
pub proof fn lemma_every_finding_is_reported(input: StatusInput, files: Seq<BranchFiles>, finding: FindingView)
    ensures
        all_findings(input, files).contains(finding) <==> found_somewhere(input, files, finding),
{
    let health = health_of(input.workspaces@, input.changes@, input.conflicted@);
    let scans = gathered(
        scanned(input.tips@, scheme_of(*input.entry), publish_of(*input.entry)),
        release_findings(input.parents@, input.tips@, input.successors@),
    );
    let doubles = views(input.double_cuts@);
    let rules = rule_findings(input);
    let probes = gathered(input.probed@, probed_findings(input.context));
    let several = gathered(divergent_of(input), divergent_findings(input.context));
    let carried = settled_rows(input).filter_map(carried_row(input.tips@, input.carriers@, trunk_of(*input.entry)));
    let stacked = settled_rows(input).filter_map(stacked_row(input));
    let paths = overlaps_of(touched_of(files));
    let claims = claim_overlaps(input.claims.claims@);
    let needs = dependency_findings(input);
    let states = state_findings(input);
    lemma_added(opening_findings(input), folded_findings(input, files), finding);
    lemma_added(scans, doubles, finding);
    lemma_added(health, scans + doubles, finding);
    lemma_added(health + (scans + doubles), rules, finding);
    lemma_added(probes, several, finding);
    lemma_added(probes + several, carried, finding);
    lemma_added(probes + several + carried, stacked, finding);
    lemma_added(probes + several + carried + stacked, paths, finding);
    lemma_added(probes + several + carried + stacked + paths, claims, finding);
    lemma_added(probes + several + carried + stacked + paths + claims, needs, finding);
    lemma_added(probes + several + carried + stacked + paths + claims + needs, states, finding);
}

/// Whether a problem was met anywhere in a run.
pub open spec fn met_somewhere(input: StatusInput, files: Seq<BranchFiles>, problem: Seq<char>) -> bool {
    ||| view_of(input.stale) == Some(problem)
    ||| view_of(input.ledger_problem) == Some(problem)
    ||| rule_problem(input) == Some(problem)
    ||| forge_problems_of(
        pointee(input.context.snapshot),
        pointee(input.forge_error),
        branches_of(input),
    ).contains(problem)
    ||| gathered(input.probed@, probed_problems(input.context)).contains(problem)
    ||| gathered(divergent_of(input), divergent_problems(input.context, input.tips@)).contains(problem)
    ||| files.filter_map(path_problem()).contains(problem)
    ||| claim_problems(*input.claims).contains(problem)
    ||| dependency_problems(input).contains(problem)
    ||| unjudged_text(unjudged_of(input)) == Some(problem)
}

proof fn lemma_listed<A>(value: Option<A>, x: A)
    ensures
        listed(value).contains(x) <==> value == Some(x),
{
    if value == Some(x) {
        assert(listed(value)[0] == x);
    }
}

/// A status reports every problem that was met anywhere in the run, and none that was not: a run that met one
/// never reads as complete.
pub proof fn lemma_every_problem_is_reported(input: StatusInput, files: Seq<BranchFiles>, problem: Seq<char>)
    ensures
        all_problems(input, files).contains(problem) <==> met_somewhere(input, files, problem),
{
    let stale = listed(view_of(input.stale));
    let ledger = listed(view_of(input.ledger_problem));
    let rule = listed(rule_problem(input));
    let forge = forge_problems_of(
        pointee(input.context.snapshot),
        pointee(input.forge_error),
        branches_of(input),
    );
    let probes = gathered(input.probed@, probed_problems(input.context));
    let several = gathered(divergent_of(input), divergent_problems(input.context, input.tips@));
    let paths = files.filter_map(path_problem());
    let claims = claim_problems(*input.claims);
    let needs = dependency_problems(input);
    let unjudged = listed(unjudged_text(unjudged_of(input)));
    lemma_listed(view_of(input.stale), problem);
    lemma_listed(view_of(input.ledger_problem), problem);
    lemma_listed(rule_problem(input), problem);
    lemma_listed(unjudged_text(unjudged_of(input)), problem);
    lemma_added(opening_problems(input), folded_problems(input, files), problem);
    lemma_added(stale, ledger, problem);
    lemma_added(stale + ledger, rule, problem);
    lemma_added(probes, several, problem);
    lemma_added(forge, probes + several, problem);
    lemma_added(forge + (probes + several), paths, problem);
    lemma_added(forge + (probes + several) + paths, claims, problem);
    lemma_added(forge + (probes + several) + paths + claims, needs, problem);
    lemma_added(forge + (probes + several) + paths + claims + needs, unjudged, problem);
}

/// What the forge says of a row's own pull request is found of it: nothing where the row has none or the forge
/// gave no facts of its number, and nothing of one that the forge does not say is open.
pub proof fn lemma_incidents_of_row(snapshot: Snapshot, row: RowView)
    ensures
        row.pr is None ==> row_incidents(snapshot)(row).len() == 0,
        row.pr matches Some(pull) ==> {
            let known = snapshot.facts@.contains_key(pull.number);
            let fact = snapshot.facts@[pull.number];
            &&& !known ==> row_incidents(snapshot)(row).len() == 0
            &&& known && !same_ignoring_case(fact.pull.state@, "OPEN"@) ==> row_incidents(snapshot)(row).len() == 0
            &&& known && same_ignoring_case(fact.pull.state@, "OPEN"@) && fact.details.head_ref_deleted == Some(true)
                ==> row_incidents(snapshot)(row).len() > 0
            &&& forall|i: int|
                0 <= i < row_incidents(snapshot)(row).len() ==> (#[trigger] row_incidents(snapshot)(row)[i]).subject
                    == SubjectView::PullRequest(pull.number)
        },
{
}

} // verus!
