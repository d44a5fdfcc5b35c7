//! Declared dependencies that are not satisfied yet.
//!
//! A branch can require a pull request in a sibling fork. Dropping the required one from a release
//! without dropping the branch that needs it ships a release that cannot work. Satisfied means
//! merged: an open pull request may still change or be rejected.

use std::collections::BTreeMap;

use vstd::prelude::*;
use vstd::string::*;

use crate::config::Registry;
use crate::detect::{Finding, FindingKind, FindingView, Subject, SubjectView};
use crate::forge::{merged_state, PullFacts};
use crate::ids::{BranchName, RepoName};
use crate::numbered::{at_number, distinct_numbers, rising};
use crate::order::{lookup, OrdMap};
use crate::seqs::{
    gathered, group_seqs, lemma_filter_has, lemma_filter_next, lemma_gathered_has, lemma_gathered_next, pointee, views,
};
use crate::snapshot::Snapshot;
use crate::sorting::{add_key, distinct_texts, lemma_distinct_texts};
use crate::store::{required, Requirement, Store};
use crate::text::{decimal_text, lowercase, lowercase_text, ranks, same, same_ignoring_case};

verus! {

/// A branch and one pull request that it requires.
#[derive(Debug, PartialEq, Eq)]
pub struct Need {
    pub branch: BranchName,
    pub requirement: Requirement,
}

/// What a need is.
pub struct NeedView {
    pub branch: Seq<char>,
    pub repo: Seq<char>,
    pub number: u64,
}

impl View for Need {
    type V = NeedView;

    open spec fn view(&self) -> NeedView {
        NeedView {
            branch: self.branch@,
            repo: self.requirement.repo@,
            number: self.requirement.number,
        }
    }
}

impl NeedView {
    /// The required pull request as it is written.
    pub open spec fn required(self) -> Seq<char> {
        self.repo + "#"@ + decimal_text(self.number as nat)
    }
}

/// What a branch requires, one need for each pull request.
pub open spec fn needs_of(store: Store) -> spec_fn(Seq<char>) -> Seq<NeedView> {
    |branch: Seq<char>|
        {
            let list = required(store, branch);
            Seq::new(list.len(), |i: int| NeedView { branch, repo: list[i].repo@, number: list[i].number })
        }
}

/// What the branches require, in their order.
pub fn needs(branches: &Vec<BranchName>, store: &Store) -> (found: Vec<Need>)
    ensures
        views(found@) == gathered(views(branches@), needs_of(*store)),
{
    broadcast use group_seqs;

    let mut found: Vec<Need> = Vec::new();
    let ghost all = views(branches@);
    let mut i: usize = 0;
    while i < branches.len()
        invariant
            i <= branches@.len(),
            all == views(branches@),
            views(found@) == gathered(all.take(i as int), needs_of(*store)),
        decreases branches@.len() - i,
    {
        proof {
            lemma_gathered_next(all, needs_of(*store), i as int);
            assert(all[i as int] == branches@[i as int]@);
        }
        let list = store.dependencies(&branches[i]);
        let ghost before = views(found@);
        let ghost added = needs_of(*store)(branches@[i as int]@);
        let mut k: usize = 0;
        while k < list.len()
            invariant
                i < branches@.len(),
                k <= list@.len(),
                list@ == required(*store, branches@[i as int]@),
                added == needs_of(*store)(branches@[i as int]@),
                views(found@) == before + added.take(k as int),
            decreases list@.len() - k,
        {
            let need = Need { branch: branches[i].clone(), requirement: list[k].clone() };
            assert(added[k as int] == need@);
            let ghost earlier = found@;
            found.push(need);
            assert(views(found@) =~= views(earlier).push(need@));
            k += 1;
            assert(views(found@) =~= before + added.take(k as int));
        }
        assert(added.take(k as int) =~= added);
        i += 1;
    }
    found
}

/// What is known of the required pull requests.
#[derive(Clone, Copy)]
pub struct DependencyContext<'a> {
    pub repo: &'a RepoName,
    pub registry: &'a Registry,
    /// What the forge answered about this repository; absent where it was not asked.
    pub snapshot: Option<&'a Snapshot>,
    /// What the forge answered about the other repositories; absent where there is no forge to ask.
    pub answers: Option<&'a OrdMap<RepoName, Result<BTreeMap<u64, PullFacts>, String>>>,
}

/// What became of a need.
pub enum Outcome {
    Met,
    Unmet(FindingView),
    Unanswered(Seq<char>),
}

/// A branch and what it requires, in words.
pub open spec fn need_text(need: NeedView) -> Seq<char> {
    need.branch + " requires "@ + need.required()
}

/// A question nobody could be asked, in words.
pub open spec fn unchecked(need: NeedView, reason: Seq<char>) -> Outcome {
    Outcome::Unanswered(
        "cannot check whether "@ + need.branch + " still needs "@ + need.required() + ": "@ + reason,
    )
}

/// What becomes of a need by the state of the required pull request.
pub open spec fn by_state(need: NeedView, fact: Option<PullFacts>) -> Outcome {
    match fact {
        Some(fact) => if merged_state(fact.pull.state@) {
            Outcome::Met
        } else {
            Outcome::Unmet(
                FindingView {
                    kind: FindingKind::UnmetDependency,
                    subject: SubjectView::Branch(need.branch),
                    detail: need_text(need) + ", which is "@ + lowercase_text(fact.pull.state@),
                },
            )
        },
        None => Outcome::Unanswered(need_text(need) + ", which the forge did not report on"@),
    }
}

/// What facts say of a number.
pub open spec fn fact_at(facts: Map<u64, PullFacts>, number: u64) -> Option<PullFacts> {
    if facts.contains_key(number) {
        Some(facts[number])
    } else {
        None
    }
}

/// What becomes of a need.
pub open spec fn outcome_of(need: NeedView, context: DependencyContext) -> Outcome {
    let repo = need.repo;
    let number = need.number;
    if lookup(context.registry.repos@, ranks(repo)) is None {
        Outcome::Unanswered(need_text(need) + ", whose repo is not in the registry"@)
    } else if repo == context.repo@ {
        match context.snapshot {
            None => unchecked(need, "no forge consulted"@),
            Some(snapshot) => by_state(need, snapshot.known(number)),
        }
    } else {
        match context.answers {
            None => unchecked(need, "no forge consulted"@),
            Some(answers) => match lookup(answers@, ranks(repo)) {
                Some(Ok(facts)) => by_state(need, fact_at(facts@, number)),
                Some(Err(error)) => unchecked(need, error@),
                None => by_state(need, None),
            },
        }
    }
}

/// What is found of a need.
pub open spec fn unmet_finding(context: DependencyContext) -> spec_fn(NeedView) -> Option<FindingView> {
    |need: NeedView|
        match outcome_of(need, context) {
            Outcome::Unmet(finding) => Some(finding),
            _ => None,
        }
}

/// What could not be answered of a need.
pub open spec fn unmet_problem(context: DependencyContext) -> spec_fn(NeedView) -> Option<Seq<char>> {
    |need: NeedView|
        match outcome_of(need, context) {
            Outcome::Unanswered(problem) => Some(problem),
            _ => None,
        }
}

/// What is known of the pull request that a need names.
pub open spec fn known_fact(need: NeedView, context: DependencyContext) -> Option<PullFacts> {
    if lookup(context.registry.repos@, ranks(need.repo)) is None {
        None
    } else if need.repo == context.repo@ {
        match context.snapshot {
            Some(snapshot) => snapshot.known(need.number),
            None => None,
        }
    } else {
        match context.answers {
            Some(answers) => match lookup(answers@, ranks(need.repo)) {
                Some(Ok(facts)) => fact_at(facts@, need.number),
                _ => None,
            },
            None => None,
        }
    }
}

/// Satisfied means merged. A need is passed over in silence exactly where its pull request is known to
/// have merged; every other one is either found or told as unanswered, and never both.
pub proof fn lemma_only_merged_is_satisfied(need: NeedView, context: DependencyContext)
    ensures
        outcome_of(need, context) is Met <==> known_fact(need, context) is Some && merged_state(
            known_fact(need, context)->0.pull.state@,
        ),
        outcome_of(need, context) is Met <==> unmet_finding(context)(need) is None && unmet_problem(context)(
            need,
        ) is None,
        unmet_finding(context)(need) is None || unmet_problem(context)(need) is None,
{
}

/// Whether a need is of a pull request in that repository.
pub open spec fn in_repo(repo: Seq<char>) -> spec_fn(NeedView) -> bool {
    |need: NeedView| need.repo == repo
}

/// The repositories that needs name, one for each need.
pub open spec fn required_repos(needs: Seq<NeedView>) -> Seq<Seq<char>> {
    Seq::new(needs.len(), |i: int| needs[i].repo)
}

/// The needs by repository, in the order of the repositories' names.
pub open spec fn by_repo(needs: Seq<NeedView>) -> Seq<NeedView> {
    gathered(distinct_texts(required_repos(needs)), grouped(needs))
}

/// The needs of one repository.
pub open spec fn grouped(needs: Seq<NeedView>) -> spec_fn(Seq<char>) -> Seq<NeedView> {
    |repo: Seq<char>| needs.filter(in_repo(repo))
}

impl Clone for Need {
    fn clone(&self) -> (copy: Self)
        ensures
            copy == *self,
    {
        Need { branch: self.branch.clone(), requirement: self.requirement.clone() }
    }
}

fn repo_names(needs: &Vec<Need>) -> (names: Vec<String>)
    ensures
        views(names@) == distinct_texts(required_repos(views(needs@))),
{
    broadcast use group_seqs;

    let mut names: Vec<String> = Vec::new();
    let ghost all = required_repos(views(needs@));
    let mut i: usize = 0;
    while i < needs.len()
        invariant
            i <= needs@.len(),
            all == required_repos(views(needs@)),
            views(names@) == distinct_texts(all.take(i as int)),
        decreases needs@.len() - i,
    {
        assert(all.take(i + 1).drop_last() =~= all.take(i as int));
        assert(views(needs@)[i as int] == needs@[i as int]@);
        add_key(&mut names, needs[i].requirement.repo.as_str());
        i += 1;
    }
    names
}

fn of_repo(needs: &Vec<Need>, repo: &str) -> (group: Vec<Need>)
    ensures
        views(group@) == views(needs@).filter(in_repo(repo@)),
{
    broadcast use group_seqs;

    let mut group: Vec<Need> = Vec::new();
    let ghost all = views(needs@);
    let mut i: usize = 0;
    while i < needs.len()
        invariant
            i <= needs@.len(),
            all == views(needs@),
            views(group@) == all.take(i as int).filter(in_repo(repo@)),
        decreases needs@.len() - i,
    {
        proof {
            lemma_filter_next(all, in_repo(repo@), i as int);
            assert(all[i as int] == needs@[i as int]@);
        }
        if same(needs[i].requirement.repo.as_str(), repo) {
            group.push(needs[i].clone());
        }
        i += 1;
    }
    group
}

fn group_by_repo(needs: &Vec<Need>) -> (ordered: Vec<Need>)
    ensures
        views(ordered@) == by_repo(views(needs@)),
{
    broadcast use group_seqs;

    let repos = repo_names(needs);
    let ghost all = views(repos@);
    let mut ordered: Vec<Need> = Vec::new();
    let mut i: usize = 0;
    while i < repos.len()
        invariant
            i <= repos@.len(),
            all == views(repos@),
            views(ordered@) == gathered(all.take(i as int), grouped(views(needs@))),
        decreases repos@.len() - i,
    {
        proof {
            lemma_gathered_next(all, grouped(views(needs@)), i as int);
            assert(all[i as int] == repos@[i as int]@);
        }
        let mut group = of_repo(needs, repos[i].as_str());
        ordered.append(&mut group);
        i += 1;
    }
    ordered
}

/// What became of a need, as it is carried out.
enum Verdict {
    Met,
    Unmet(Finding),
    Unanswered(String),
}

impl View for Verdict {
    type V = Outcome;

    closed spec fn view(&self) -> Outcome {
        match self {
            Verdict::Met => Outcome::Met,
            Verdict::Unmet(finding) => Outcome::Unmet(finding@),
            Verdict::Unanswered(problem) => Outcome::Unanswered(problem@),
        }
    }
}

fn need_words(need: &Need) -> (text: String)
    ensures
        text@ == need_text(need@),
{
    let mut text = need.branch.text.clone();
    text.append(" requires ");
    text.append(need.requirement.to_text().as_str());
    text
}

fn cannot_check(need: &Need, reason: &str) -> (result: Verdict)
    ensures
        result@ == unchecked(need@, reason@),
{
    let mut problem = "cannot check whether ".to_owned();
    problem.append(need.branch.as_str());
    problem.append(" still needs ");
    problem.append(need.requirement.to_text().as_str());
    problem.append(": ");
    problem.append(reason);
    Verdict::Unanswered(problem)
}

fn record(need: &Need, fact: Option<&PullFacts>) -> (result: Verdict)
    ensures
        result@ == by_state(need@, pointee(fact)),
{
    let mut text = need_words(need);
    match fact {
        Some(fact) => {
            if fact.pull.is_merged() {
                Verdict::Met
            } else {
                text.append(", which is ");
                text.append(lowercase(fact.pull.state.as_str()).as_str());
                Verdict::Unmet(
                    Finding::new(FindingKind::UnmetDependency, Subject::Branch(need.branch.clone()), text),
                )
            }
        },
        None => {
            text.append(", which the forge did not report on");
            Verdict::Unanswered(text)
        },
    }
}

fn check(need: &Need, context: &DependencyContext<'_>) -> (result: Verdict)
    ensures
        result@ == outcome_of(need@, *context),
{
    let number = need.requirement.number;
    if context.registry.get(&need.requirement.repo).is_none() {
        let mut text = need_words(need);
        text.append(", whose repo is not in the registry");
        return Verdict::Unanswered(text);
    }
    if need.requirement.repo.same(context.repo) {
        return match context.snapshot {
            None => cannot_check(need, "no forge consulted"),
            Some(snapshot) => record(need, snapshot.fact(number)),
        };
    }
    match context.answers {
        None => cannot_check(need, "no forge consulted"),
        Some(answers) => match answers.get(&need.requirement.repo) {
            Some(Ok(facts)) => {
                let fact = at_number(facts, number);
                assert(pointee(fact) == fact_at(facts@, number));
                record(need, fact)
            },
            Some(Err(error)) => cannot_check(need, error.as_str()),
            None => record(need, None),
        },
    }
}

/// What is found of the needs and what could not be answered, by repository.
pub fn unmet_dependencies(needs: &Vec<Need>, context: DependencyContext<'_>) -> (found: (Vec<Finding>, Vec<String>))
    ensures
        views(found.0@) == by_repo(views(needs@)).filter_map(unmet_finding(context)),
        views(found.1@) == by_repo(views(needs@)).filter_map(unmet_problem(context)),
{
    broadcast use group_seqs;

    let ordered = group_by_repo(needs);
    let ghost all = views(ordered@);
    let mut findings: Vec<Finding> = Vec::new();
    let mut problems: Vec<String> = Vec::new();
    let mut i: usize = 0;
    while i < ordered.len()
        invariant
            i <= ordered@.len(),
            all == views(ordered@),
            views(findings@) == all.take(i as int).filter_map(unmet_finding(context)),
            views(problems@) == all.take(i as int).filter_map(unmet_problem(context)),
        decreases ordered@.len() - i,
    {
        proof {
            all.lemma_filter_map_take_succ(unmet_finding(context), i as int);
            all.lemma_filter_map_take_succ(unmet_problem(context), i as int);
            assert(all[i as int] == ordered@[i as int]@);
        }
        match check(&ordered[i], &context) {
            Verdict::Met => {},
            Verdict::Unmet(finding) => {
                findings.push(finding);
            },
            Verdict::Unanswered(problem) => {
                problems.push(problem);
            },
        }
        assert(views(findings@) =~= all.take(i + 1).filter_map(unmet_finding(context)));
        assert(views(problems@) =~= all.take(i + 1).filter_map(unmet_problem(context)));
        i += 1;
    }
    (findings, problems)
}

/// The numbers that needs name.
pub open spec fn needed_numbers(needs: Seq<NeedView>) -> Seq<u64> {
    Seq::new(needs.len(), |i: int| needs[i].number)
}

/// Which pull requests of another repository have to be asked about, each once and in order.
pub fn numbers_in(needs: &Vec<Need>, repo: &str) -> (numbers: Vec<u64>)
    ensures
        rising(numbers@),
        forall|n: u64| #[trigger]
            numbers@.contains(n) <==> needed_numbers(views(needs@).filter(in_repo(repo@))).contains(n),
{
    let group = of_repo(needs, repo);
    let mut list: Vec<u64> = Vec::new();
    let mut i: usize = 0;
    while i < group.len()
        invariant
            i <= group@.len(),
            list@ == needed_numbers(views(group@)).take(i as int),
        decreases group@.len() - i,
    {
        list.push(group[i].requirement.number);
        i += 1;
        assert(list@ =~= needed_numbers(views(group@)).take(i as int));
    }
    assert(list@ =~= needed_numbers(views(group@)));
    distinct_numbers(&list)
}

/// A repository that has to be asked about: registered, and not the one whose forge was already
/// asked.
pub open spec fn to_ask(context: DependencyContext) -> spec_fn(Seq<char>) -> bool {
    |repo: Seq<char>| lookup(context.registry.repos@, ranks(repo)) is Some && repo != context.repo@
}

/// Which other repositories have to be asked about, in order.
pub fn repos_to_ask(needs: &Vec<Need>, context: DependencyContext<'_>) -> (repos: Vec<RepoName>)
    ensures
        views(repos@) == distinct_texts(required_repos(views(needs@))).filter(to_ask(context)),
{
    broadcast use group_seqs;

    let names = repo_names(needs);
    let ghost all = views(names@);
    let mut repos: Vec<RepoName> = Vec::new();
    let mut i: usize = 0;
    while i < names.len()
        invariant
            i <= names@.len(),
            all == views(names@),
            views(repos@) == all.take(i as int).filter(to_ask(context)),
        decreases names@.len() - i,
    {
        proof {
            lemma_filter_next(all, to_ask(context), i as int);
            assert(all[i as int] == names@[i as int]@);
        }
        let repo = RepoName::new(names[i].as_str());
        if context.registry.get(&repo).is_some() && !repo.same(context.repo) {
            repos.push(repo);
        }
        i += 1;
    }
    repos
}

/// What is known of a required pull request decides: one that the forge knows is met exactly if it says
/// merged and is else a finding; one of a repository that is not registered, or that no answer covers, is
/// a problem.
pub proof fn lemma_outcome_of_need(need: NeedView, context: DependencyContext)
    ensures
        ({
            let registered = lookup(context.registry.repos@, ranks(need.repo)) is Some;
            let here = need.repo == context.repo@;
            let asked = if here {
                context.snapshot is Some
            } else {
                context.answers is Some && !(lookup(context.answers->0@, ranks(need.repo)) matches Some(Err(_)))
            };
            let known = if here {
                context.snapshot is Some && context.snapshot->0.facts@.contains_key(need.number)
            } else {
                context.answers is Some && (lookup(context.answers->0@, ranks(need.repo)) matches Some(Ok(facts))
                    && facts@.contains_key(need.number))
            };
            let fact = if here {
                context.snapshot->0.facts@[need.number]
            } else {
                lookup(context.answers->0@, ranks(need.repo))->0->Ok_0@[need.number]
            };
            let merged = same_ignoring_case(fact.pull.state@, "MERGED"@);
            &&& unmet_problem(context)(need) is Some <==> !registered || !known
            &&& unmet_finding(context)(need) is Some <==> registered && known && !merged
            &&& outcome_of(need, context) is Met <==> registered && known && merged
            &&& unmet_finding(context)(need) matches Some(finding) ==> finding.kind == FindingKind::UnmetDependency
                && finding.subject == SubjectView::Branch(need.branch)
            &&& registered && asked && !known ==> unmet_problem(context)(need) == Some(
                need.branch + " requires "@ + need.required() + ", which the forge did not report on"@,
            )
        }),
{
}

/// Grouping by repository keeps every need and adds none.
pub proof fn lemma_grouping_keeps_every_need(needs: Seq<NeedView>, need: NeedView)
    ensures
        by_repo(needs).contains(need) <==> needs.contains(need),
{
    let repos = required_repos(needs);
    let names = distinct_texts(repos);
    lemma_distinct_texts(repos);
    lemma_gathered_has(names, grouped(needs), need);
    if by_repo(needs).contains(need) {
        let i = choose|i: int| 0 <= i < names.len() && grouped(needs)(#[trigger] names[i]).contains(need);
        lemma_filter_has(needs, in_repo(names[i]), need);
    }
    if needs.contains(need) {
        let k = choose|k: int| 0 <= k < needs.len() && needs[k] == need;
        assert(repos[k] == need.repo);
        assert(repos.contains(need.repo));
        assert(names.contains(need.repo));
        let i = choose|i: int| 0 <= i < names.len() && names[i] == need.repo;
        lemma_filter_has(needs, in_repo(need.repo), need);
        assert(grouped(needs)(names[i]).contains(need));
    }
}

/// A repository is asked exactly if a need names it, it is registered, and it is not the one at hand.
pub proof fn lemma_repos_to_ask(needs: Seq<NeedView>, context: DependencyContext, repo: Seq<char>)
    ensures
        distinct_texts(required_repos(needs)).filter(to_ask(context)).contains(repo) <==> repo != context.repo@ && lookup(
            context.registry.repos@,
            ranks(repo),
        ) is Some && exists|i: int| 0 <= i < needs.len() && (#[trigger] needs[i]).repo == repo,
{
    let repos = required_repos(needs);
    lemma_distinct_texts(repos);
    lemma_filter_has(distinct_texts(repos), to_ask(context), repo);
    assert(distinct_texts(repos).contains(repo) <==> repos.contains(repo));
    if repos.contains(repo) {
        let k = choose|k: int| 0 <= k < repos.len() && repos[k] == repo;
        assert(needs[k].repo == repo);
    }
    if exists|i: int| 0 <= i < needs.len() && (#[trigger] needs[i]).repo == repo {
        let i = choose|i: int| 0 <= i < needs.len() && (#[trigger] needs[i]).repo == repo;
        assert(repos[i] == repo);
    }
}

} // verus!
