//! What the hosting service's command line tool is asked, and what its replies mean.
//!
//! The replies are read here from plain values that hold what was decoded; nothing outside this
//! module builds a query.

use std::collections::BTreeMap;

use vstd::prelude::*;
use vstd::string::*;

use crate::forge::{
    CheckRun, CheckRunView, ChecksSummary, CommitOids, ConsumerHead, DiffTotals, ForgeError, PullDetails, PullFacts,
    PullRequest, PullSummary, RepoIdentity, SweepPage, TimelineEvent, TimelineEventKind,
};
use crate::numbered::set_number;
use crate::order::{lemma_lex_total, lemma_lex_transitive, lex_less};
use crate::seqs::{
    gathered, group_seqs, lemma_filter_map_has, lemma_gathered_next, lemma_take_next, view_of, views,
};
use crate::text::{
    contains, contains_text, decimal, decimal_text, eq_ignore_case, join, joined, ranks, same, same_ignoring_case,
    text_precedes,
};

verus! {

/// The fields the cheap pull-request list asks for.
///
/// The wide lists never ask for the merge state: the forge computes it lazily per pull request,
/// which makes a long list slow or impossible. Merge state comes from the live batch only.
pub const PR_SUMMARY_FIELDS: &'static str =
    "number,state,reviewDecision,headRefName,headRefOid,updatedAt,isDraft,url,headRepositoryOwner,baseRefName,mergeCommit";

/// How many pull requests one query of the live batch asks about.
pub const FACTS_BATCH_CHUNK_SIZE: usize = 8;

/// The arguments of the cheap pull-request list.
pub open spec fn list_args() -> Seq<Seq<char>> {
    seq!["pr"@, "list"@, "--state"@, "all"@, "--limit"@, "300"@, "--json"@, PR_SUMMARY_FIELDS@]
}

/// The arguments of the cheap pull-request list.
pub fn summary_list_args() -> (args: [&'static str; 8])
    ensures
        views(args@) == list_args(),
{
    let args: [&'static str; 8] = ["pr", "list", "--state", "all", "--limit", "300", "--json", PR_SUMMARY_FIELDS];
    assert(views(args@) =~= list_args());
    args
}

/// The arguments of the list of one author's pull requests.
pub open spec fn author_args(author: Seq<char>) -> Seq<Seq<char>> {
    seq![
        "pr"@,
        "list"@,
        "--state"@,
        "all"@,
        "--limit"@,
        "300"@,
        "--search"@,
        "author:"@ + author,
        "--json"@,
        PR_SUMMARY_FIELDS@,
    ]
}

/// The arguments of the list of one author's pull requests.
pub fn author_list_args(author: &str) -> (args: Vec<String>)
    ensures
        views(args@) == author_args(author@),
{
    let mut search = "author:".to_owned();
    search.append(author);
    let mut args: Vec<String> = Vec::new();
    args.push("pr".to_owned());
    args.push("list".to_owned());
    args.push("--state".to_owned());
    args.push("all".to_owned());
    args.push("--limit".to_owned());
    args.push("300".to_owned());
    args.push("--search".to_owned());
    args.push(search);
    args.push("--json".to_owned());
    args.push(PR_SUMMARY_FIELDS.to_owned());
    assert(views(args@) =~= author_args(author@));
    args
}

/// The arguments that read the owner, the name and the id of a checkout's repository.
pub open spec fn view_args() -> Seq<Seq<char>> {
    seq!["repo"@, "view"@, "--json"@, "nameWithOwner,id"@]
}

/// The arguments that read the owner, the name and the id of a checkout's repository.
pub fn identity_args() -> (args: [&'static str; 4])
    ensures
        views(args@) == view_args(),
{
    let args: [&'static str; 4] = ["repo", "view", "--json", "nameWithOwner,id"];
    assert(views(args@) =~= view_args());
    args
}

/// The arguments that send a query about a repository.
pub open spec fn query_args_of(owner: Seq<char>, name: Seq<char>, query: Seq<char>) -> Seq<Seq<char>> {
    seq!["api"@, "graphql"@, "-f"@, "owner="@ + owner, "-f"@, "name="@ + name, "-f"@, "query="@ + query]
}

/// The arguments that send a query about a repository.
pub fn query_args(owner: &str, name: &str, query: &str) -> (args: Vec<String>)
    ensures
        views(args@) == query_args_of(owner@, name@, query@),
{
    let mut whose = "owner=".to_owned();
    whose.append(owner);
    let mut which = "name=".to_owned();
    which.append(name);
    let mut what = "query=".to_owned();
    what.append(query);
    let mut args: Vec<String> = Vec::new();
    args.push("api".to_owned());
    args.push("graphql".to_owned());
    args.push("-f".to_owned());
    args.push(whose);
    args.push("-f".to_owned());
    args.push(which);
    args.push("-f".to_owned());
    args.push(what);
    assert(views(args@) =~= query_args_of(owner@, name@, query@));
    args
}

/// The arguments that read a file of a consumer at a commit.
pub open spec fn file_args_of(slug: Seq<char>, commit: Seq<char>, path: Seq<char>) -> Seq<Seq<char>> {
    seq![
        "api"@,
        "repos/"@ + slug + "/contents/"@ + path + "?ref="@ + commit,
        "-H"@,
        "Accept: application/vnd.github.raw"@,
    ]
}

/// The arguments that read a file of a consumer at a commit.
pub fn file_args(slug: &str, commit: &str, path: &str) -> (args: Vec<String>)
    ensures
        views(args@) == file_args_of(slug@, commit@, path@),
{
    let mut endpoint = "repos/".to_owned();
    endpoint.append(slug);
    endpoint.append("/contents/");
    endpoint.append(path);
    endpoint.append("?ref=");
    endpoint.append(commit);
    let mut args: Vec<String> = Vec::new();
    args.push("api".to_owned());
    args.push(endpoint);
    args.push("-H".to_owned());
    args.push("Accept: application/vnd.github.raw".to_owned());
    assert(views(args@) =~= file_args_of(slug@, commit@, path@));
    args
}

/// Whether an error says that what was asked for is not there: the tool failed on a reply of 404.
pub open spec fn says_absent(error: ForgeError) -> bool {
    match error {
        ForgeError::Command { stderr, .. } => contains_text(stderr@, "HTTP 404"@),
        _ => false,
    }
}

/// Whether an error says that what was asked for is not there.
pub fn is_absent(error: &ForgeError) -> (r: bool)
    ensures
        r == says_absent(*error),
{
    match error {
        ForgeError::Command { stderr, .. } => contains(stderr.as_str(), "HTTP 404"),
        _ => false,
    }
}

/// What reading a file at the forge comes to: its text, its absence, or why it could not be read.
pub fn file_reply(reply: Result<String, ForgeError>) -> (text: Result<Option<String>, ForgeError>)
    ensures
        text == (match reply {
            Ok(text) => Ok(Some(text)),
            Err(error) => if says_absent(error) {
                Ok(None)
            } else {
                Err(error)
            },
        }),
{
    match reply {
        Ok(text) => Ok(Some(text)),
        Err(error) => if is_absent(&error) {
            Ok(None)
        } else {
            Err(error)
        },
    }
}

/// The fields asked for by the cheap pull-request list.
pub fn summary_fields() -> (fields: &'static str)
    ensures
        fields@ == PR_SUMMARY_FIELDS@,
{
    PR_SUMMARY_FIELDS
}

/// The query for one pull request's head-ref history.
pub open spec fn timeline_query(number: nat) -> Seq<char> {
    "query($owner: String!, $name: String!) { repository(owner: $owner, name: $name) { pullRequest(number: "@
        + decimal_text(number)
        + ") { timelineItems(last: 100, itemTypes: [HEAD_REF_FORCE_PUSHED_EVENT, HEAD_REF_DELETED_EVENT, HEAD_REF_RESTORED_EVENT, CLOSED_EVENT, REOPENED_EVENT, MERGED_EVENT]) { pageInfo { hasPreviousPage } nodes { __typename ... on HeadRefForcePushedEvent { createdAt beforeCommit { oid tree { oid } } afterCommit { oid tree { oid } } } ... on HeadRefDeletedEvent { createdAt } ... on HeadRefRestoredEvent { createdAt } ... on ClosedEvent { createdAt } ... on ReopenedEvent { createdAt } ... on MergedEvent { createdAt commit { oid } } } } } } }"@
}

/// One pull request's head-ref history: the last hundred of only the named item types, so bounded
/// by construction.
pub fn pull_timeline_query(number: u64) -> (query: String)
    ensures
        query@ == timeline_query(number as nat),
{
    let mut query =
        "query($owner: String!, $name: String!) { repository(owner: $owner, name: $name) { pullRequest(number: ".to_owned();
    query.append(decimal(number).as_str());
    query.append(
        ") { timelineItems(last: 100, itemTypes: [HEAD_REF_FORCE_PUSHED_EVENT, HEAD_REF_DELETED_EVENT, HEAD_REF_RESTORED_EVENT, CLOSED_EVENT, REOPENED_EVENT, MERGED_EVENT]) { pageInfo { hasPreviousPage } nodes { __typename ... on HeadRefForcePushedEvent { createdAt beforeCommit { oid tree { oid } } afterCommit { oid tree { oid } } } ... on HeadRefDeletedEvent { createdAt } ... on HeadRefRestoredEvent { createdAt } ... on ClosedEvent { createdAt } ... on ReopenedEvent { createdAt } ... on MergedEvent { createdAt commit { oid } } } } } } }",
    );
    query
}

/// One page, newest-updated first.
///
/// No pagination: a cursor over a changing order can skip a pull request that is updated meanwhile,
/// so a page that does not span the watermark abandons the delta.
pub fn sweep_query() -> (query: &'static str)
    ensures
        query@
            == "query($owner: String!, $name: String!) { repository(owner: $owner, name: $name) { pullRequests(orderBy: {field: UPDATED_AT, direction: DESC}, first: 100) { pageInfo { hasNextPage } nodes { number updatedAt state } } } }"@,
{
    "query($owner: String!, $name: String!) { repository(owner: $owner, name: $name) { pullRequests(orderBy: {field: UPDATED_AT, direction: DESC}, first: 100) { pageInfo { hasNextPage } nodes { number updatedAt state } } } }"
}

/// The query for a consumer's default branch and its head.
pub fn consumer_head_query() -> (query: &'static str)
    ensures
        query@
            == "query($owner: String!, $name: String!) { repository(owner: $owner, name: $name) { defaultBranchRef { name target { oid } } } }"@,
{
    "query($owner: String!, $name: String!) { repository(owner: $owner, name: $name) { defaultBranchRef { name target { oid } } } }"
}

/// The part of the batch query that asks about one pull request.
pub open spec fn fact_field(number: nat) -> Seq<char> {
    "p"@ + decimal_text(number) + ": pullRequest(number: "@ + decimal_text(number) + ") { ...facts }"@
}

/// The parts of the batch query, one for each number.
pub open spec fn fact_fields(numbers: Seq<u64>) -> Seq<Seq<char>> {
    Seq::new(numbers.len(), |i: int| fact_field(numbers[i] as nat))
}

/// The batch query for the numbers.
pub open spec fn facts_query(numbers: Seq<u64>) -> Seq<char> {
    "query($owner: String!, $name: String!) { repository(owner: $owner, name: $name) { "@ + joined(
        fact_fields(numbers),
        " "@,
    )
        + " } } fragment facts on PullRequest { number state reviewDecision headRefName headRefOid updatedAt isDraft url headRepositoryOwner { login } baseRefName mergeable mergeStateStatus mergeCommit { oid } additions deletions changedFiles headRef { name } reviews(last: 100) { nodes { submittedAt } } commits(last: 100) { nodes { commit { committedDate } } } rollup: commits(last: 1) { nodes { commit { tree { oid } parents(first: 2) { pageInfo { hasNextPage } nodes { tree { oid } } } statusCheckRollup { contexts(first: 100) { pageInfo { hasNextPage } nodes { __typename ... on CheckRun { name conclusion } ... on StatusContext { context state } } } } } } } comments(last: 1) { nodes { createdAt } } }"@
}

/// Full fact row per aliased number.
///
/// It has every summary field plus merge state, review timeline, check rollup, and the newest
/// comment. Alias names are not load-bearing; the reader keys on the repeated `number`.
pub fn pull_facts_query(numbers: &[u64]) -> (query: String)
    ensures
        query@ == facts_query(numbers@),
{
    broadcast use group_seqs;

    let mut fields: Vec<String> = Vec::new();
    let ghost all = fact_fields(numbers@);
    let mut i: usize = 0;
    while i < numbers.len()
        invariant
            i <= numbers@.len(),
            all == fact_fields(numbers@),
            views(fields@) == all.take(i as int),
        decreases numbers@.len() - i,
    {
        let mut field = "p".to_owned();
        field.append(decimal(numbers[i]).as_str());
        field.append(": pullRequest(number: ");
        field.append(decimal(numbers[i]).as_str());
        field.append(") { ...facts }");
        proof {
            lemma_take_next(all, i as int);
        }
        fields.push(field);
        i += 1;
    }
    let mut query = "query($owner: String!, $name: String!) { repository(owner: $owner, name: $name) { ".to_owned();
    query.append(join(&fields, " ").as_str());
    query.append(
        " } } fragment facts on PullRequest { number state reviewDecision headRefName headRefOid updatedAt isDraft url headRepositoryOwner { login } baseRefName mergeable mergeStateStatus mergeCommit { oid } additions deletions changedFiles headRef { name } reviews(last: 100) { nodes { submittedAt } } commits(last: 100) { nodes { commit { committedDate } } } rollup: commits(last: 1) { nodes { commit { tree { oid } parents(first: 2) { pageInfo { hasNextPage } nodes { tree { oid } } } statusCheckRollup { contexts(first: 100) { pageInfo { hasNextPage } nodes { __typename ... on CheckRun { name conclusion } ... on StatusContext { context state } } } } } } } comments(last: 1) { nodes { createdAt } } }",
    );
    query
}

/// The batches of the numbers from `from` on: each as long as a query allows, the last maybe
/// shorter.
pub open spec fn batches_from(numbers: Seq<u64>, from: int) -> Seq<Seq<u64>>
    decreases numbers.len() - from,
{
    if from < 0 || from >= numbers.len() {
        Seq::empty()
    } else if from + FACTS_BATCH_CHUNK_SIZE >= numbers.len() {
        seq![numbers.skip(from)]
    } else {
        seq![numbers.subrange(from, from + FACTS_BATCH_CHUNK_SIZE)] + batches_from(
            numbers,
            from + FACTS_BATCH_CHUNK_SIZE,
        )
    }
}

/// The numbers cut into batches, one for each query.
pub fn fact_batches(numbers: &[u64]) -> (batches: Vec<Vec<u64>>)
    ensures
        views(batches@) == batches_from(numbers@, 0),
{
    broadcast use group_seqs;

    let mut batches: Vec<Vec<u64>> = Vec::new();
    let mut from: usize = 0;
    assert(views(batches@) + batches_from(numbers@, 0) =~= batches_from(numbers@, 0));
    while from < numbers.len()
        invariant
            from <= numbers@.len(),
            views(batches@) + batches_from(numbers@, from as int) == batches_from(numbers@, 0),
        decreases numbers@.len() - from,
    {
        let to = if numbers.len() - from <= FACTS_BATCH_CHUNK_SIZE {
            numbers.len()
        } else {
            from + FACTS_BATCH_CHUNK_SIZE
        };
        let mut batch: Vec<u64> = Vec::new();
        let mut i: usize = from;
        while i < to
            invariant
                from <= i <= to <= numbers@.len(),
                batch@ == numbers@.subrange(from as int, i as int),
            decreases to - i,
        {
            batch.push(numbers[i]);
            i += 1;
            assert(batch@ =~= numbers@.subrange(from as int, i as int));
        }
        let ghost before = views(batches@);
        assert(to == numbers@.len() ==> batch@ =~= numbers@.skip(from as int));
        batches.push(batch);
        assert(views(batches@) + batches_from(numbers@, to as int) =~= before + batches_from(numbers@, from as int));
        from = to;
    }
    assert(views(batches@) + batches_from(numbers@, from as int) =~= views(batches@));
    batches
}

/// Whether an earlier row has the same number.
pub open spec fn seen_before(pulls: Seq<PullSummary>, i: int) -> bool {
    exists|j: int| 0 <= j < i && (#[trigger] pulls[j]).number == pulls[i].number
}

/// The rows whose number no earlier row has.
pub open spec fn first_rows(pulls: Seq<PullSummary>) -> Seq<PullSummary>
    decreases pulls.len(),
{
    if pulls.len() == 0 {
        pulls
    } else if seen_before(pulls, pulls.len() - 1) {
        first_rows(pulls.drop_last())
    } else {
        first_rows(pulls.drop_last()).push(pulls.last())
    }
}

/// Drop later duplicate summary rows, keeping the forge's freshest-first order.
pub fn dedupe_by_number(pull_requests: &Vec<PullSummary>) -> (rows: Vec<PullSummary>)
    ensures
        rows@ == first_rows(pull_requests@),
{
    broadcast use group_seqs;

    let mut rows: Vec<PullSummary> = Vec::new();
    let mut i: usize = 0;
    let ghost all = pull_requests@;
    while i < pull_requests.len()
        invariant
            i <= pull_requests@.len(),
            all == pull_requests@,
            rows@ == first_rows(all.take(i as int)),
        decreases pull_requests@.len() - i,
    {
        let mut seen = false;
        let mut j: usize = 0;
        while j < i && !seen
            invariant
                j <= i < pull_requests@.len(),
                seen == (exists|k: int|
                    0 <= k < j && (#[trigger] pull_requests@[k]).number == pull_requests@[i as int].number),
            decreases i - j + (if seen {
                0int
            } else {
                1int
            }),
        {
            if pull_requests[j].number == pull_requests[i].number {
                seen = true;
            }
            j += 1;
        }
        proof {
            let next = all.take(i + 1);
            assert(next.drop_last() =~= all.take(i as int));
            if seen {
                let k = choose|k: int| 0 <= k < j && (#[trigger] all[k]).number == all[i as int].number;
                assert(next[k].number == next[i as int].number);
                assert(seen_before(next, i as int));
            } else {
                assert(!seen_before(next, i as int)) by {
                    if seen_before(next, i as int) {
                        let k = choose|k: int| 0 <= k < i && (#[trigger] next[k]).number == next[i as int].number;
                        assert(all[k].number == all[i as int].number);
                    }
                }
            }
        }
        if !seen {
            rows.push(pull_requests[i].clone());
        }
        i += 1;
    }
    rows
}

/// One check as the rollup lists it: a check run, or a status of the older kind.
#[derive(Debug, PartialEq, Eq)]
pub enum CheckPayload {
    CheckRun { name: String, conclusion: Option<String> },
    StatusContext { context: String, state: String },
}

/// Whether a check has finished, and with what.
#[derive(Debug, PartialEq, Eq)]
pub enum NormalizedCheckState {
    Unfinished,
    Finished(String),
}

/// Whether a status of the older kind is still to come.
pub open spec fn unfinished_status(state: Seq<char>) -> bool {
    same_ignoring_case(state, "PENDING"@) || same_ignoring_case(state, "EXPECTED"@)
}

impl NormalizedCheckState {
    /// A check run is finished once it has a conclusion.
    pub fn from_check_run(conclusion: Option<String>) -> (state: Self)
        ensures
            state == match conclusion {
                Some(text) => NormalizedCheckState::Finished(text),
                None => NormalizedCheckState::Unfinished,
            },
    {
        match conclusion {
            Some(text) => NormalizedCheckState::Finished(text),
            None => NormalizedCheckState::Unfinished,
        }
    }

    /// A status is finished unless it is pending or expected.
    pub fn from_status_context(state: String) -> (normal: Self)
        ensures
            normal == (if unfinished_status(state@) {
                NormalizedCheckState::Unfinished
            } else {
                NormalizedCheckState::Finished(state)
            }),
    {
        if eq_ignore_case(state.as_str(), "PENDING") || eq_ignore_case(state.as_str(), "EXPECTED") {
            NormalizedCheckState::Unfinished
        } else {
            NormalizedCheckState::Finished(state)
        }
    }

    /// What a finished check concluded.
    pub fn into_conclusion(self) -> (conclusion: Option<String>)
        ensures
            conclusion == match self {
                NormalizedCheckState::Unfinished => None,
                NormalizedCheckState::Finished(text) => Some(text),
            },
    {
        match self {
            NormalizedCheckState::Unfinished => None,
            NormalizedCheckState::Finished(text) => Some(text),
        }
    }
}

/// The check that a payload tells of.
pub open spec fn run_of() -> spec_fn(CheckPayload) -> CheckRunView {
    |payload: CheckPayload|
        match payload {
            CheckPayload::CheckRun { name, conclusion } => CheckRunView {
                name: name@,
                conclusion: view_of(conclusion),
            },
            CheckPayload::StatusContext { context, state } => CheckRunView {
                name: context@,
                conclusion: if unfinished_status(state@) {
                    None
                } else {
                    Some(state@)
                },
            },
        }
}

/// The check that a payload tells of.
pub fn check_run(payload: &CheckPayload) -> (run: CheckRun)
    ensures
        run@ == run_of()(*payload),
{
    match payload {
        CheckPayload::CheckRun { name, conclusion } => CheckRun {
            name: name.clone(),
            conclusion: NormalizedCheckState::from_check_run(conclusion.clone()).into_conclusion(),
        },
        CheckPayload::StatusContext { context, state } => CheckRun {
            name: context.clone(),
            conclusion: NormalizedCheckState::from_status_context(state.clone()).into_conclusion(),
        },
    }
}

/// One error of a reply, with the path it is about; a segment that is no name is `None`.
#[derive(Debug, PartialEq, Eq)]
pub struct QueryFailure {
    pub message: String,
    pub kind: String,
    pub path: Vec<Option<String>>,
}

/// The trees of a commit's parents, and whether there are more parents than these.
#[derive(Debug, PartialEq, Eq)]
pub struct ParentTrees {
    pub has_next_page: bool,
    pub trees: Vec<Option<String>>,
}

/// One page of a check rollup.
#[derive(Debug, PartialEq, Eq)]
pub struct ContextPage {
    pub has_next_page: bool,
    pub runs: Vec<CheckPayload>,
}

/// The newest commit of a pull request: its tree, its parents and its checks.
#[derive(Debug, PartialEq, Eq)]
pub struct RollupHolder {
    pub tree: Option<String>,
    pub parents: Option<ParentTrees>,
    pub contexts: Option<ContextPage>,
}

/// Distinguishes an omitted field from an answered null head ref.
#[derive(Debug, Clone, Copy, PartialEq, Eq, Structural)]
pub enum HeadRef {
    Missing,
    Present,
    Deleted,
}

/// What the batch reply holds of one pull request.
#[derive(Debug, PartialEq, Eq)]
pub struct FactsPayload {
    pub pull: PullRequest,
    pub additions: Option<u64>,
    pub deletions: Option<u64>,
    pub changed_files: Option<u64>,
    pub head_ref: HeadRef,
    /// When each review was submitted, `None` for one that was not.
    pub reviews: Option<Vec<Option<String>>>,
    /// When each commit was committed.
    pub commits: Option<Vec<String>>,
    pub rollup: Option<Vec<RollupHolder>>,
    /// When each comment was written.
    pub comments: Option<Vec<String>>,
}

/// The batch reply: a payload for each alias, in alias order, and the errors.
#[derive(Debug, PartialEq, Eq)]
pub struct FactsEnvelope {
    pub repository: Option<Vec<Option<FactsPayload>>>,
    pub errors: Vec<QueryFailure>,
}

/// What a list holds, nothing where there is no list.
pub open spec fn listed<T>(list: Option<Vec<T>>) -> Seq<T> {
    match list {
        Some(items) => items@,
        None => Seq::empty(),
    }
}

/// The newest of the timestamps: fixed-width timestamps, so the last in text order.
pub open spec fn newest(times: Seq<Seq<char>>) -> Option<Seq<char>>
    decreases times.len(),
{
    if times.len() == 0 {
        None
    } else {
        match newest(times.drop_last()) {
            None => Some(times.last()),
            Some(best) => if lex_less(ranks(times.last()), ranks(best)) {
                Some(best)
            } else {
                Some(times.last())
            },
        }
    }
}

/// The newest timestamp is one of them, and none comes after it.
pub proof fn lemma_newest(times: Seq<Seq<char>>)
    ensures
        newest(times) is None <==> times.len() == 0,
        newest(times) is Some ==> times.contains(newest(times)->0) && forall|i: int|
            0 <= i < times.len() ==> !lex_less(ranks(newest(times)->0), ranks(#[trigger] times[i])),
    decreases times.len(),
{
    if times.len() > 0 {
        let rest = times.drop_last();
        lemma_newest(rest);
        let last = times.last();
        assert(times[times.len() - 1] == last);
        if rest.len() > 0 {
            let best = newest(rest)->0;
            let at = choose|at: int| 0 <= at < rest.len() && rest[at] == best;
            assert(times[at] == best);
            crate::order::lemma_lex_irreflexive(ranks(last));
            assert forall|i: int| 0 <= i < times.len() implies !lex_less(
                ranks(newest(times)->0),
                ranks(#[trigger] times[i]),
            ) by {
                if i < rest.len() {
                    assert(rest[i] == times[i]);
                    crate::order::lemma_lex_total(ranks(last), ranks(best));
                    if lex_less(ranks(last), ranks(times[i])) && lex_less(ranks(best), ranks(last)) {
                        crate::order::lemma_lex_transitive(ranks(best), ranks(last), ranks(times[i]));
                    }
                } else if lex_less(ranks(last), ranks(best)) {
                    crate::order::lemma_lex_asymmetric(ranks(last), ranks(best));
                }
            }
        } else {
            crate::order::lemma_lex_irreflexive(ranks(last));
        }
    }
}

fn later(best: Option<String>, time: &String) -> (newer: Option<String>)
    ensures
        view_of(newer) == (match view_of(best) {
            None => Some(time@),
            Some(b) => if lex_less(ranks(time@), ranks(b)) {
                Some(b)
            } else {
                Some(time@)
            },
        }),
{
    match best {
        None => Some(time.clone()),
        Some(b) => {
            if text_precedes(time.as_str(), b.as_str()) {
                Some(b)
            } else {
                Some(time.clone())
            }
        },
    }
}

/// The timestamp of a review that has one.
pub open spec fn submitted() -> spec_fn(Option<String>) -> Option<Seq<char>> {
    |review: Option<String>| view_of(review)
}

/// When the reviews of a pull request were submitted.
pub open spec fn review_times(payload: FactsPayload) -> Seq<Seq<char>> {
    listed(payload.reviews).filter_map(submitted())
}

fn newest_review(payload: &FactsPayload) -> (time: Option<String>)
    ensures
        view_of(time) == newest(review_times(*payload)),
{
    broadcast use group_seqs;

    let mut best: Option<String> = None;
    if let Some(reviews) = &payload.reviews {
        let ghost all = reviews@;
        let mut i: usize = 0;
        while i < reviews.len()
            invariant
                i <= reviews@.len(),
                all == reviews@,
                view_of(best) == newest(all.take(i as int).filter_map(submitted())),
            decreases reviews@.len() - i,
        {
            proof {
                all.lemma_filter_map_take_succ(submitted(), i as int);
                let before = all.take(i as int).filter_map(submitted());
                let after = all.take(i + 1).filter_map(submitted());
                match all[i as int] {
                    Some(time) => {
                        assert(after.drop_last() =~= before);
                        assert(after.last() == time@);
                    },
                    None => {
                        assert(after =~= before);
                    },
                }
            }
            if let Some(time) = &reviews[i] {
                best = later(best, time);
            }
            i += 1;
        }
    }
    best
}

fn newest_of(times: &Option<Vec<String>>) -> (time: Option<String>)
    ensures
        view_of(time) == newest(views(listed(*times))),
{
    broadcast use group_seqs;

    let mut best: Option<String> = None;
    if let Some(list) = times {
        let ghost all = views(list@);
        let mut i: usize = 0;
        while i < list.len()
            invariant
                i <= list@.len(),
                all == views(list@),
                view_of(best) == newest(all.take(i as int)),
            decreases list@.len() - i,
        {
            assert(all.take(i + 1).drop_last() =~= all.take(i as int));
            best = later(best, &list[i]);
            i += 1;
        }
    }
    best
}

/// Whether a tip changes nothing: its tree is identical to its sole parent's tree.
///
/// The query caps parents at two. A continuation means a merge of more, which reads as non-empty
/// rather than being classified from an incomplete parent list.
pub open spec fn tip_is_empty(tip: RollupHolder) -> Option<bool> {
    match (tip.tree, tip.parents) {
        (Some(tree), Some(parents)) => if parents.has_next_page || parents.trees@.len() != 1 {
            Some(false)
        } else {
            match parents.trees@[0] {
                Some(parent) => Some(tree@ == parent@),
                None => None,
            }
        },
        _ => None,
    }
}

fn tip_commit_empty(tip: &RollupHolder) -> (empty: Option<bool>)
    ensures
        empty == tip_is_empty(*tip),
{
    match (&tip.tree, &tip.parents) {
        (Some(tree), Some(parents)) => {
            if parents.has_next_page || parents.trees.len() != 1 {
                return Some(false);
            }
            match &parents.trees[0] {
                Some(parent) => Some(same(tree.as_str(), parent.as_str())),
                None => None,
            }
        },
        _ => None,
    }
}

/// Whether a tip's check rollup continues past its page.
pub open spec fn truncated(tip: RollupHolder) -> bool {
    match tip.contexts {
        Some(page) => page.has_next_page,
        None => false,
    }
}

/// Whether some check rollup continues past its page.
pub open spec fn has_more_contexts(payload: FactsPayload) -> bool {
    exists|i: int| 0 <= i < listed(payload.rollup).len() && #[trigger] truncated(listed(payload.rollup)[i])
}

/// The checks of one tip.
pub open spec fn tip_runs() -> spec_fn(RollupHolder) -> Seq<CheckRunView> {
    |tip: RollupHolder|
        match tip.contexts {
            Some(page) => page.runs@.map_values(run_of()),
            None => Seq::empty(),
        }
}

/// Whether the details hold exactly what the payload answers.
pub open spec fn details_match(details: PullDetails, payload: FactsPayload) -> bool {
    let rollup = listed(payload.rollup);
    &&& details.review_predates_head == (match (
        newest(review_times(payload)),
        newest(views(listed(payload.commits))),
    ) {
        (Some(review), Some(commit)) => Some(lex_less(ranks(review), ranks(commit))),
        _ => None,
    })
    &&& details.checks is Some
    &&& details.checks->0@ == gathered(rollup, tip_runs())
    &&& details.diff == (match (payload.additions, payload.deletions, payload.changed_files) {
        (Some(additions), Some(deletions), Some(changed_files)) => Some(
            DiffTotals { additions, deletions, changed_files },
        ),
        _ => None,
    })
    &&& details.head_ref_deleted == (match payload.head_ref {
        HeadRef::Missing => None,
        HeadRef::Present => Some(false),
        HeadRef::Deleted => Some(true),
    })
    &&& details.tip_commit_empty == (if rollup.len() > 0 {
        tip_is_empty(rollup.last())
    } else {
        None
    })
    &&& details.body is None
    &&& details.unresolved_review_threads is None
}

/// Why a rollup that continues past its page is refused.
pub open spec fn truncated_text(number: nat) -> Seq<char> {
    "pull request #"@ + decimal_text(number)
        + " has more than 100 check contexts; refusing a truncated rollup"@
}

/// The details a payload answers. A rollup that continues past its page is refused: a paginated
/// check rollup must not render as complete.
pub fn details_from(payload: &FactsPayload) -> (details: Result<PullDetails, ForgeError>)
    ensures
        match details {
            Ok(details) => !has_more_contexts(*payload) && details_match(details, *payload),
            Err(error) => has_more_contexts(*payload) && error is Query && error->detail@ == truncated_text(
                payload.pull.number as nat,
            ),
        },
{
    broadcast use group_seqs;

    let review_predates_head = match (newest_review(payload), newest_of(&payload.commits)) {
        (Some(review), Some(commit)) => Some(text_precedes(review.as_str(), commit.as_str())),
        _ => None,
    };
    let mut runs: Vec<CheckRun> = Vec::new();
    let mut tip_empty: Option<bool> = None;
    let ghost rollup = listed(payload.rollup);
    if let Some(tips) = &payload.rollup {
        let mut i: usize = 0;
        while i < tips.len()
            invariant
                i <= tips@.len(),
                rollup == tips@,
                rollup == listed(payload.rollup),
                forall|j: int| 0 <= j < i ==> !truncated(#[trigger] rollup[j]),
                views(runs@) == gathered(rollup.take(i as int), tip_runs()),
                tip_empty == (if i > 0 {
                    tip_is_empty(rollup[i - 1])
                } else {
                    None
                }),
            decreases tips@.len() - i,
        {
            let tip = &tips[i];
            proof {
                lemma_gathered_next(rollup, tip_runs(), i as int);
            }
            if let Some(page) = &tip.contexts {
                if page.has_next_page {
                    assert(truncated(rollup[i as int]));
                    let mut detail = "pull request #".to_owned();
                    detail.append(decimal(payload.pull.number).as_str());
                    detail.append(" has more than 100 check contexts; refusing a truncated rollup");
                    return Err(ForgeError::Query { detail });
                }
                let ghost before = views(runs@);
                let ghost mine = page.runs@.map_values(run_of());
                let mut j: usize = 0;
                assert(before + mine.take(0) =~= before);
                while j < page.runs.len()
                    invariant
                        j <= page.runs@.len(),
                        mine == page.runs@.map_values(run_of()),
                        views(runs@) == before + mine.take(j as int),
                    decreases page.runs@.len() - j,
                {
                    proof {
                        lemma_take_next(mine, j as int);
                        assert((before + mine.take(j as int)).push(mine[j as int]) =~= before + mine.take(j + 1));
                    }
                    runs.push(check_run(&page.runs[j]));
                    j += 1;
                }
            }
            tip_empty = tip_commit_empty(tip);
            i += 1;
        }
    }
    let diff = match (payload.additions, payload.deletions, payload.changed_files) {
        (Some(additions), Some(deletions), Some(changed_files)) => Some(
            DiffTotals { additions, deletions, changed_files },
        ),
        _ => None,
    };
    let head_ref_deleted = match payload.head_ref {
        HeadRef::Missing => None,
        HeadRef::Present => Some(false),
        HeadRef::Deleted => Some(true),
    };
    Ok(
        PullDetails {
            review_predates_head,
            checks: Some(ChecksSummary { runs }),
            diff,
            head_ref_deleted,
            tip_commit_empty: tip_empty,
            body: None,
            unresolved_review_threads: None,
        },
    )
}

/// The alias a batch query gives to a pull request.
pub open spec fn alias_of(number: nat) -> Seq<char> {
    "p"@ + decimal_text(number)
}

/// Whether an error only says that an asked pull request does not exist.
pub open spec fn tolerable(failure: QueryFailure, asked: Seq<u64>) -> bool {
    &&& failure.kind@ == "NOT_FOUND"@
    &&& failure.path@.len() == 2
    &&& view_of(failure.path@[0]) == Some("repository"@)
    &&& failure.path@[1] is Some
    &&& exists|i: int| 0 <= i < asked.len() && #[trigger] alias_of(asked[i] as nat) == failure.path@[1]->0@
}

fn is_tolerable_not_found(failure: &QueryFailure, asked: &[u64]) -> (r: bool)
    ensures
        r == tolerable(*failure, asked@),
{
    if !same(failure.kind.as_str(), "NOT_FOUND") || failure.path.len() != 2 {
        return false;
    }
    match (&failure.path[0], &failure.path[1]) {
        (Some(repository), Some(alias)) => {
            if !same(repository.as_str(), "repository") {
                return false;
            }
            let mut i: usize = 0;
            while i < asked.len()
                invariant
                    i <= asked@.len(),
                    failure.kind@ == "NOT_FOUND"@,
                    failure.path@.len() == 2,
                    repository@ == "repository"@,
                    failure.path@[0] == Some(*repository),
                    failure.path@[1] == Some(*alias),
                    forall|j: int| 0 <= j < i ==> #[trigger] alias_of(asked@[j] as nat) != alias@,
                decreases asked@.len() - i,
            {
                let mut wanted = "p".to_owned();
                wanted.append(decimal(asked[i]).as_str());
                if same(wanted.as_str(), alias.as_str()) {
                    assert(failure.path@[0] == Some(*repository) && failure.path@[1] == Some(*alias));
                    assert(alias_of(asked@[i as int] as nat) == alias@);
                    return true;
                }
                i += 1;
            }
            false
        },
        _ => false,
    }
}

/// The message of an error that is not tolerated.
pub open spec fn refusal(asked: Seq<u64>) -> spec_fn(QueryFailure) -> Option<Seq<char>> {
    |failure: QueryFailure|
        if tolerable(failure, asked) {
            None
        } else {
            Some(failure.message@)
        }
}

/// The messages of the errors, one for each.
pub open spec fn messages(errors: Seq<QueryFailure>) -> Seq<Seq<char>> {
    Seq::new(errors.len(), |i: int| errors[i].message@)
}

fn joined_messages(errors: &Vec<QueryFailure>) -> (detail: String)
    ensures
        detail@ == joined(messages(errors@), "; "@),
{
    broadcast use group_seqs;

    let mut texts: Vec<String> = Vec::new();
    let ghost all = messages(errors@);
    let mut i: usize = 0;
    while i < errors.len()
        invariant
            i <= errors@.len(),
            all == messages(errors@),
            views(texts@) == all.take(i as int),
        decreases errors@.len() - i,
    {
        proof {
            lemma_take_next(all, i as int);
        }
        texts.push(errors[i].message.clone());
        i += 1;
    }
    join(&texts, "; ")
}

/// The last payload of a reply that tells of the pull request with that number.
pub open spec fn last_payload(payloads: Seq<Option<FactsPayload>>, number: u64) -> Option<FactsPayload>
    decreases payloads.len(),
{
    if payloads.len() == 0 {
        None
    } else {
        match payloads.last() {
            Some(payload) => if payload.pull.number == number {
                Some(payload)
            } else {
                last_payload(payloads.drop_last(), number)
            },
            None => last_payload(payloads.drop_last(), number),
        }
    }
}

/// Where the first payload with a rollup that continues past its page stands, or the length.
pub open spec fn first_truncated(payloads: Seq<Option<FactsPayload>>, from: int) -> int
    decreases payloads.len() - from,
{
    if from >= payloads.len() {
        payloads.len() as int
    } else {
        match payloads[from] {
            Some(payload) => if has_more_contexts(payload) {
                from
            } else {
                first_truncated(payloads, from + 1)
            },
            None => first_truncated(payloads, from + 1),
        }
    }
}

/// When a pull request was last commented on or reviewed.
pub open spec fn activity(payload: FactsPayload) -> Option<Seq<char>> {
    newest(review_times(payload) + views(listed(payload.comments)))
}

/// Whether the facts hold exactly what the payload answers.
pub open spec fn facts_match(facts: PullFacts, payload: FactsPayload) -> bool {
    &&& facts.pull == payload.pull
    &&& details_match(facts.details, payload)
    &&& view_of(facts.newest_comment) == activity(payload)
}

proof fn lemma_newest_add(a: Seq<Seq<char>>, b: Seq<Seq<char>>)
    ensures
        newest(a + b) == (match (newest(a), newest(b)) {
            (None, y) => y,
            (x, None) => x,
            (Some(x), Some(y)) => if lex_less(ranks(y), ranks(x)) {
                Some(x)
            } else {
                Some(y)
            },
        }),
    decreases b.len(),
{
    if b.len() == 0 {
        assert(a + b =~= a);
    } else {
        let rest = b.drop_last();
        let last = b.last();
        lemma_newest_add(a, rest);
        lemma_newest(a);
        lemma_newest(rest);
        assert((a + b).drop_last() =~= a + rest);
        assert((a + b).last() == last);
        if a.len() > 0 && rest.len() > 0 {
            let x = newest(a)->0;
            let y = newest(rest)->0;
            crate::order::lemma_lex_total(ranks(x), ranks(y));
            crate::order::lemma_lex_total(ranks(x), ranks(last));
            crate::order::lemma_lex_total(ranks(y), ranks(last));
            crate::text::lemma_ranks_injective(x, y);
            crate::text::lemma_ranks_injective(x, last);
            crate::text::lemma_ranks_injective(y, last);
            if lex_less(ranks(y), ranks(x)) && lex_less(ranks(last), ranks(y)) {
                crate::order::lemma_lex_transitive(ranks(last), ranks(y), ranks(x));
            }
            if lex_less(ranks(last), ranks(x)) && !lex_less(ranks(y), ranks(x)) {
                if lex_less(ranks(x), ranks(y)) {
                    crate::order::lemma_lex_transitive(ranks(last), ranks(x), ranks(y));
                }
            }
            if lex_less(ranks(y), ranks(last)) && lex_less(ranks(last), ranks(y)) {
                crate::order::lemma_lex_asymmetric(ranks(y), ranks(last));
            }
            if lex_less(ranks(x), ranks(y)) && lex_less(ranks(y), ranks(x)) {
                crate::order::lemma_lex_asymmetric(ranks(x), ranks(y));
            }
        }
    }
}

fn newest_activity(payload: &FactsPayload) -> (time: Option<String>)
    ensures
        view_of(time) == activity(*payload),
{
    proof {
        lemma_newest_add(review_times(*payload), views(listed(payload.comments)));
    }
    let review = newest_review(payload);
    let comment = newest_of(&payload.comments);
    match comment {
        None => review,
        Some(comment) => later(review, &comment),
    }
}

/// The facts of a batch reply, by number.
///
/// An error fails the whole batch unless it only says that an asked pull request does not exist: a
/// partial answer would render a red pull request as clean.
pub fn parse_pull_facts(
    envelope: &FactsEnvelope,
    asked: &[u64],
) -> (facts: Result<BTreeMap<u64, PullFacts>, ForgeError>)
    ensures
        ({
            let refused = envelope.errors@.filter_map(refusal(asked@));
            let payloads = envelope.repository->0@;
            if refused.len() > 0 {
                facts is Err && facts->Err_0 is Query && facts->Err_0->detail@ == joined(refused, "; "@)
            } else if envelope.repository is None {
                facts is Err && facts->Err_0 is Query && facts->Err_0->detail@
                    == "the reply carried neither errors nor a repository"@
            } else if first_truncated(payloads, 0) < payloads.len() {
                facts is Err && facts->Err_0 is Query && facts->Err_0->detail@ == truncated_text(
                    payloads[first_truncated(payloads, 0)]->0.pull.number as nat,
                )
            } else {
                facts is Ok && forall|number: u64|
                    match #[trigger] last_payload(payloads, number) {
                        Some(payload) => facts->Ok_0@.contains_key(number) && facts_match(
                            facts->Ok_0@[number],
                            payload,
                        ),
                        None => !facts->Ok_0@.contains_key(number),
                    }
            }
        }),
{
    broadcast use group_seqs;

    let mut refused: Vec<String> = Vec::new();
    let ghost errors = envelope.errors@;
    let mut i: usize = 0;
    while i < envelope.errors.len()
        invariant
            i <= envelope.errors@.len(),
            errors == envelope.errors@,
            views(refused@) == errors.take(i as int).filter_map(refusal(asked@)),
        decreases envelope.errors@.len() - i,
    {
        proof {
            errors.lemma_filter_map_take_succ(refusal(asked@), i as int);
        }
        if !is_tolerable_not_found(&envelope.errors[i], asked) {
            refused.push(envelope.errors[i].message.clone());
        }
        assert(views(refused@) =~= errors.take(i + 1).filter_map(refusal(asked@)));
        i += 1;
    }
    if refused.len() > 0 {
        return Err(ForgeError::Query { detail: join(&refused, "; ") });
    }
    assert(views(refused@).len() == 0);
    let payloads = match &envelope.repository {
        Some(payloads) => payloads,
        None => {
            return Err(
                ForgeError::Query { detail: "the reply carried neither errors nor a repository".to_owned() },
            );
        },
    };
    let mut facts: BTreeMap<u64, PullFacts> = BTreeMap::new();
    let ghost all = payloads@;
    let mut k: usize = 0;
    while k < payloads.len()
        invariant
            k <= payloads@.len(),
            all == payloads@,
            envelope.repository is Some,
            envelope.repository->0@ == all,
            envelope.errors@.filter_map(refusal(asked@)).len() == 0,
            first_truncated(all, 0) == first_truncated(all, k as int),
            forall|number: u64|
                match #[trigger] last_payload(all.take(k as int), number) {
                    Some(payload) => facts@.contains_key(number) && facts_match(facts@[number], payload),
                    None => !facts@.contains_key(number),
                },
        decreases payloads@.len() - k,
    {
        proof {
            assert(all.take(k + 1).drop_last() =~= all.take(k as int));
        }
        if let Some(payload) = &payloads[k] {
            let details = match details_from(payload) {
                Ok(details) => details,
                Err(error) => {
                    return Err(error);
                },
            };
            let newest_comment = newest_activity(payload);
            let number = payload.pull.number;
            let fact = PullFacts { pull: payload.pull.clone(), details, newest_comment };
            assert(facts_match(fact, *payload));
            set_number(&mut facts, number, fact);
        }
        proof {
            assert forall|number: u64|
                match #[trigger] last_payload(all.take(k + 1), number) {
                    Some(payload) => facts@.contains_key(number) && facts_match(facts@[number], payload),
                    None => !facts@.contains_key(number),
                } by {
                let earlier = last_payload(all.take(k as int), number);
            }
        }
        k += 1;
    }
    assert(all.take(k as int) =~= all);
    Ok(facts)
}

/// What the forge calls a repository.
#[derive(Debug, PartialEq, Eq)]
pub struct IdentityPayload {
    pub name_with_owner: String,
    pub id: String,
}

/// The identity a reply tells of.
pub fn parse_identity(payload: IdentityPayload) -> (identity: RepoIdentity)
    ensures
        identity == (RepoIdentity { name_with_owner: payload.name_with_owner, id: payload.id }),
{
    RepoIdentity { name_with_owner: payload.name_with_owner, id: payload.id }
}

/// The default branch of a reply, where it names one, and its errors.
#[derive(Debug, PartialEq, Eq)]
pub struct ConsumerHeadEnvelope {
    pub default_branch_ref: Option<ConsumerHead>,
    pub errors: Vec<QueryFailure>,
}

/// The consumer's default branch and its head. Errors, or a reply without a branch, are no answer.
pub fn parse_consumer_head(envelope: ConsumerHeadEnvelope) -> (head: Result<ConsumerHead, ForgeError>)
    ensures
        match head {
            Ok(head) => envelope.errors@.len() == 0 && envelope.default_branch_ref == Some(head),
            Err(error) => error is Query && error->detail@ == (if envelope.errors@.len() > 0 {
                joined(messages(envelope.errors@), "; "@)
            } else {
                "the consumer reply carried neither errors nor a default branch"@
            }) && (envelope.errors@.len() > 0 || envelope.default_branch_ref is None),
        },
{
    if envelope.errors.len() > 0 {
        return Err(ForgeError::Query { detail: joined_messages(&envelope.errors) });
    }
    match envelope.default_branch_ref {
        Some(head) => Ok(head),
        None => Err(
            ForgeError::Query {
                detail: "the consumer reply carried neither errors nor a default branch".to_owned(),
            },
        ),
    }
}

/// The page of a sweep reply, where it has one, and its errors.
#[derive(Debug, PartialEq, Eq)]
pub struct SweepEnvelope {
    pub pulls: Option<SweepPage>,
    pub errors: Vec<QueryFailure>,
}

/// The page of a sweep. Errors, or a reply without a repository, are no answer.
pub fn parse_sweep(envelope: SweepEnvelope) -> (page: Result<SweepPage, ForgeError>)
    ensures
        match page {
            Ok(page) => envelope.errors@.len() == 0 && envelope.pulls == Some(page),
            Err(error) => error is Query && error->detail@ == (if envelope.errors@.len() > 0 {
                joined(messages(envelope.errors@), "; "@)
            } else {
                "the reply carried neither errors nor a repository"@
            }) && (envelope.errors@.len() > 0 || envelope.pulls is None),
        },
{
    if envelope.errors.len() > 0 {
        return Err(ForgeError::Query { detail: joined_messages(&envelope.errors) });
    }
    match envelope.pulls {
        Some(page) => Ok(page),
        None => Err(
            ForgeError::Query { detail: "the reply carried neither errors nor a repository".to_owned() },
        ),
    }
}

/// A commit that an event names.
#[derive(Debug, PartialEq, Eq)]
pub struct TimelineCommit {
    pub oid: String,
    pub tree: Option<String>,
}

/// What an event of a known type holds.
#[derive(Debug, PartialEq, Eq)]
pub enum TimelineEventPayload {
    ForcePush { at: String, before: Option<TimelineCommit>, after: Option<TimelineCommit> },
    HeadDeleted { at: String },
    HeadRestored { at: String },
    Closed { at: String },
    Reopened { at: String },
    Merged { at: String, commit: Option<TimelineCommit> },
}

/// One event of a timeline reply: its type name, where it has one, and what it holds as far as that
/// could be read.
#[derive(Debug, PartialEq, Eq)]
pub struct TimelineNode {
    pub typename: Option<String>,
    pub payload: Result<TimelineEventPayload, String>,
}

/// The timeline of a reply, where it holds the pull request, and its errors.
#[derive(Debug, PartialEq, Eq)]
pub struct TimelineEnvelope {
    pub nodes: Option<Vec<TimelineNode>>,
    pub errors: Vec<QueryFailure>,
}

/// The oids of a commit as an event shows them: a commit or a tree that is gone reads as unknown.
pub open spec fn oids_match(oids: CommitOids, commit: Option<TimelineCommit>) -> bool {
    match commit {
        Some(commit) => oids.commit == commit.oid && oids.tree@ == (match commit.tree {
            Some(tree) => tree@,
            None => "unknown"@,
        }),
        None => oids.commit@ == "unknown"@ && oids.tree@ == "unknown"@,
    }
}

fn commit_oids(commit: &Option<TimelineCommit>) -> (oids: CommitOids)
    ensures
        oids_match(oids, *commit),
{
    match commit {
        Some(commit) => CommitOids {
            commit: commit.oid.clone(),
            tree: match &commit.tree {
                Some(tree) => tree.clone(),
                None => "unknown".to_owned(),
            },
        },
        None => CommitOids { commit: "unknown".to_owned(), tree: "unknown".to_owned() },
    }
}

/// Whether an event is the one a payload tells of.
pub open spec fn event_match(event: TimelineEvent, payload: TimelineEventPayload) -> bool {
    match payload {
        TimelineEventPayload::ForcePush { at, before, after } => event.at == at && event.kind is ForcePush
            && oids_match(event.kind->before, before) && oids_match(event.kind->after, after),
        TimelineEventPayload::HeadDeleted { at } => event.at == at && event.kind is HeadDeleted,
        TimelineEventPayload::HeadRestored { at } => event.at == at && event.kind is HeadRestored,
        TimelineEventPayload::Closed { at } => event.at == at && event.kind is Closed,
        TimelineEventPayload::Reopened { at } => event.at == at && event.kind is Reopened,
        TimelineEventPayload::Merged { at, commit } => event.at == at && event.kind == TimelineEventKind::Merged {
            commit: match commit {
                Some(commit) => Some(commit.oid),
                None => None,
            },
        },
    }
}

/// The event types a history is made of.
pub open spec fn known_type(typename: Seq<char>) -> bool {
    typename == "HeadRefForcePushedEvent"@ || typename == "HeadRefDeletedEvent"@ || typename
        == "HeadRefRestoredEvent"@ || typename == "ClosedEvent"@ || typename == "ReopenedEvent"@ || typename
        == "MergedEvent"@
}

fn is_known_type(typename: &str) -> (r: bool)
    ensures
        r == known_type(typename@),
{
    same(typename, "HeadRefForcePushedEvent") || same(typename, "HeadRefDeletedEvent") || same(
        typename,
        "HeadRefRestoredEvent",
    ) || same(typename, "ClosedEvent") || same(typename, "ReopenedEvent") || same(typename, "MergedEvent")
}

/// What keeps a node from being an event, if anything does.
pub open spec fn node_error(node: TimelineNode) -> Option<(bool, Seq<char>)> {
    match node.typename {
        None => Some((true, "a pull timeline event had no __typename"@)),
        Some(typename) => if !known_type(typename@) {
            Some((true, "the forge returned unknown pull timeline event type `"@ + typename@ + "`"@))
        } else {
            match node.payload {
                Err(source) => Some((false, source@)),
                Ok(_) => None,
            }
        },
    }
}

/// Whether an error says what kept a node from being an event: that the query was answered in a
/// way that cannot be used, or that the node could not be read.
pub open spec fn error_says(error: ForgeError, said: (bool, Seq<char>)) -> bool {
    if said.0 {
        error is Query && error->detail@ == said.1
    } else {
        error is Parse && error->Parse_source@ == said.1
    }
}

/// The event a node tells of. A type that is not known is an error: it must not disappear.
pub fn timeline_event(node: &TimelineNode) -> (event: Result<TimelineEvent, ForgeError>)
    ensures
        match event {
            Ok(event) => node_error(*node) is None && event_match(event, node.payload->Ok_0),
            Err(error) => node_error(*node) is Some && error_says(error, node_error(*node)->0),
        },
{
    let typename = match &node.typename {
        Some(typename) => typename,
        None => {
            return Err(ForgeError::Query { detail: "a pull timeline event had no __typename".to_owned() });
        },
    };
    if !is_known_type(typename.as_str()) {
        let mut detail = "the forge returned unknown pull timeline event type `".to_owned();
        detail.append(typename.as_str());
        detail.append("`");
        return Err(ForgeError::Query { detail });
    }
    let payload = match &node.payload {
        Ok(payload) => payload,
        Err(source) => {
            return Err(ForgeError::Parse { source: source.clone() });
        },
    };
    let event = match payload {
        TimelineEventPayload::ForcePush { at, before, after } => TimelineEvent {
            at: at.clone(),
            kind: TimelineEventKind::ForcePush { before: commit_oids(before), after: commit_oids(after) },
        },
        TimelineEventPayload::HeadDeleted { at } => TimelineEvent {
            at: at.clone(),
            kind: TimelineEventKind::HeadDeleted,
        },
        TimelineEventPayload::HeadRestored { at } => TimelineEvent {
            at: at.clone(),
            kind: TimelineEventKind::HeadRestored,
        },
        TimelineEventPayload::Closed { at } => TimelineEvent { at: at.clone(), kind: TimelineEventKind::Closed },
        TimelineEventPayload::Reopened { at } => TimelineEvent {
            at: at.clone(),
            kind: TimelineEventKind::Reopened,
        },
        TimelineEventPayload::Merged { at, commit } => TimelineEvent {
            at: at.clone(),
            kind: TimelineEventKind::Merged {
                commit: match commit {
                    Some(commit) => Some(commit.oid.clone()),
                    None => None,
                },
            },
        },
    };
    Ok(event)
}

/// Where the first node that is no event stands, or the length.
pub open spec fn first_bad(nodes: Seq<TimelineNode>, from: int) -> int
    decreases nodes.len() - from,
{
    if from >= nodes.len() {
        nodes.len() as int
    } else if node_error(nodes[from]) is Some {
        from
    } else {
        first_bad(nodes, from + 1)
    }
}

/// The events of a timeline reply, in the forge's order. One node that is no event rejects the
/// whole history.
pub fn parse_pull_timeline(
    envelope: &TimelineEnvelope,
    number: u64,
) -> (events: Result<Vec<TimelineEvent>, ForgeError>)
    ensures
        ({
            let nodes = envelope.nodes->0@;
            if envelope.errors@.len() > 0 {
                events is Err && events->Err_0 is Query && events->Err_0->detail@ == joined(
                    messages(envelope.errors@),
                    "; "@,
                )
            } else if envelope.nodes is None {
                events is Err && events->Err_0 is Query && events->Err_0->detail@
                    == "the reply carried neither errors nor pull request #"@ + decimal_text(number as nat)
            } else if first_bad(nodes, 0) < nodes.len() {
                events is Err && error_says(events->Err_0, node_error(nodes[first_bad(nodes, 0)])->0)
            } else {
                events is Ok && events->Ok_0@.len() == nodes.len() && forall|i: int|
                    0 <= i < nodes.len() ==> event_match(#[trigger] events->Ok_0@[i], nodes[i].payload->Ok_0)
            }
        }),
{
    if envelope.errors.len() > 0 {
        return Err(ForgeError::Query { detail: joined_messages(&envelope.errors) });
    }
    let nodes = match &envelope.nodes {
        Some(nodes) => nodes,
        None => {
            let mut detail = "the reply carried neither errors nor pull request #".to_owned();
            detail.append(decimal(number).as_str());
            return Err(ForgeError::Query { detail });
        },
    };
    let mut events: Vec<TimelineEvent> = Vec::new();
    let mut i: usize = 0;
    while i < nodes.len()
        invariant
            i <= nodes@.len(),
            envelope.errors@.len() == 0,
            envelope.nodes is Some,
            envelope.nodes->0@ == nodes@,
            first_bad(nodes@, 0) == first_bad(nodes@, i as int),
            events@.len() == i,
            forall|j: int| 0 <= j < i ==> event_match(#[trigger] events@[j], nodes@[j].payload->Ok_0),
        decreases nodes@.len() - i,
    {
        match timeline_event(&nodes[i]) {
            Ok(event) => {
                events.push(event);
            },
            Err(error) => {
                return Err(error);
            },
        }
        i += 1;
    }
    Ok(events)
}

/// Numbers are asked for in batches that hold each of them once, in order: no batch is empty or larger
/// than eight, and only the last is smaller.
pub proof fn lemma_batches(numbers: Seq<u64>, from: int)
    requires
        0 <= from <= numbers.len(),
    ensures
        batches_from(numbers, from).flatten() == numbers.skip(from),
        forall|i: int|
            0 <= i < batches_from(numbers, from).len() ==> 0 < (#[trigger] batches_from(numbers, from)[i]).len()
                <= 8,
        forall|i: int|
            0 <= i < batches_from(numbers, from).len() - 1 ==> (#[trigger] batches_from(numbers, from)[i]).len()
                == 8,
    decreases numbers.len() - from,
{
    let batches = batches_from(numbers, from);
    if from >= numbers.len() {
        assert(batches.flatten() =~= numbers.skip(from));
    } else if from + 8 >= numbers.len() {
        let rest = batches.drop_first();
        assert(rest =~= Seq::empty());
        assert(rest.flatten() =~= Seq::empty());
        assert(batches.flatten() =~= numbers.skip(from));
    } else {
        let next: int = from + 8;
        lemma_batches(numbers, next);
        let rest = batches_from(numbers, next);
        assert(batches.drop_first() =~= rest);
        assert(batches.flatten() =~= numbers.subrange(from, next) + rest.flatten());
        assert(numbers.subrange(from, next) + numbers.skip(next) =~= numbers.skip(from));
        assert forall|i: int| 0 <= i < batches.len() implies 0 < (#[trigger] batches[i]).len() <= 8 by {
            if i > 0 {
                assert(batches[i] == rest[i - 1]);
            }
        }
        assert forall|i: int| 0 <= i < batches.len() - 1 implies (#[trigger] batches[i]).len() == 8 by {
            if i > 0 {
                assert(batches[i] == rest[i - 1]);
            }
        }
    }
}

/// Whether a row is the first with its number.
pub open spec fn is_first(pulls: Seq<PullSummary>, k: int) -> bool {
    forall|j: int| 0 <= j < k ==> (#[trigger] pulls[j]).number != pulls[k].number
}

/// Of rows with one number the first stays, and only it.
pub proof fn lemma_first_rows(pulls: Seq<PullSummary>, row: PullSummary)
    ensures
        first_rows(pulls).contains(row) <==> exists|k: int|
            0 <= k < pulls.len() && #[trigger] is_first(pulls, k) && pulls[k] == row,
    decreases pulls.len(),
{
    if pulls.len() > 0 {
        let rest = pulls.drop_last();
        let last = pulls.len() - 1;
        let before = first_rows(rest);
        let rows = first_rows(pulls);
        lemma_first_rows(rest, row);
        assert forall|k: int| 0 <= k < last implies is_first(rest, k) == #[trigger] is_first(pulls, k) by {
            assert forall|j: int| 0 <= j < k implies rest[j] == #[trigger] pulls[j] by {}
            assert(rest[k] == pulls[k]);
            if is_first(rest, k) {
                assert forall|j: int| 0 <= j < k implies (#[trigger] pulls[j]).number != pulls[k].number by {
                    assert(rest[j].number != rest[k].number);
                }
            }
            if is_first(pulls, k) {
                assert forall|j: int| 0 <= j < k implies (#[trigger] rest[j]).number != rest[k].number by {
                    assert(pulls[j].number != pulls[k].number);
                }
            }
        }
        if before.contains(row) {
            let k = choose|k: int| 0 <= k < rest.len() && #[trigger] is_first(rest, k) && rest[k] == row;
            assert(is_first(pulls, k) && pulls[k] == row);
        }
        if exists|k: int| 0 <= k < pulls.len() && #[trigger] is_first(pulls, k) && pulls[k] == row {
            let k = choose|k: int| 0 <= k < pulls.len() && #[trigger] is_first(pulls, k) && pulls[k] == row;
            if k < last {
                assert(is_first(rest, k) && rest[k] == row);
                assert(before.contains(row));
            }
        }
        if seen_before(pulls, last) {
            assert(!is_first(pulls, last)) by {
                let j = choose|j: int| 0 <= j < last && (#[trigger] pulls[j]).number == pulls[last].number;
                assert(pulls[j].number == pulls[last].number);
            }
        } else {
            assert(is_first(pulls, last));
            assert(rows[before.len() as int] == pulls[last]);
            if before.contains(row) {
                let i = choose|i: int| 0 <= i < before.len() && before[i] == row;
                assert(rows[i] == row);
            }
            if rows.contains(row) && row != pulls[last] {
                let i = choose|i: int| 0 <= i < rows.len() && rows[i] == row;
                assert(before[i] == row);
            }
        }
    }
}

/// No number stands twice among the rows that stay.
pub proof fn lemma_numbers_stand_once(pulls: Seq<PullSummary>)
    ensures
        forall|i: int, j: int|
            0 <= i < j < first_rows(pulls).len() ==> (#[trigger] first_rows(pulls)[i]).number != (
            #[trigger] first_rows(pulls)[j]).number,
    decreases pulls.len(),
{
    if pulls.len() > 0 {
        let rest = pulls.drop_last();
        let last = pulls.len() - 1;
        lemma_numbers_stand_once(rest);
        let before = first_rows(rest);
        let rows = first_rows(pulls);
        if !seen_before(pulls, last) {
            assert forall|i: int, j: int| 0 <= i < j < rows.len() implies (#[trigger] rows[i]).number != (
            #[trigger] rows[j]).number by {
                assert(rows[i] == before[i]);
                if j < before.len() {
                    assert(rows[j] == before[j]);
                } else {
                    assert(before.contains(before[i]));
                    lemma_first_rows(rest, before[i]);
                    let k = choose|k: int| 0 <= k < rest.len() && #[trigger] is_first(rest, k) && rest[k] == before[i];
                    assert(pulls[k] == before[i]);
                }
            }
        }
    }
}

/// A check run keeps its own conclusion. A status context has concluded exactly if its state is neither
/// pending nor expected, and its conclusion then is its state.
pub proof fn lemma_run_of_payload(name: String, conclusion: Option<String>, state: String)
    ensures
        run_of()(CheckPayload::CheckRun { name, conclusion }).name == name@,
        run_of()(CheckPayload::CheckRun { name, conclusion }).conclusion == view_of(conclusion),
        run_of()(CheckPayload::StatusContext { context: name, state }).name == name@,
        run_of()(CheckPayload::StatusContext { context: name, state }).conclusion is None <==> same_ignoring_case(
            state@,
            "PENDING"@,
        ) || same_ignoring_case(state@, "EXPECTED"@),
        run_of()(CheckPayload::StatusContext { context: name, state }).conclusion matches Some(text) ==> text == state@,
{
}

/// A tip is empty exactly if it has one parent, that is all of them, and their trees are the same; a merge
/// and a root are not, and what is not told is not known.
pub proof fn lemma_empty_tip(tip: RollupHolder)
    ensures
        tip_is_empty(tip) == Some(true) <==> tip.tree is Some && tip.parents is Some && !tip.parents->0.has_next_page
            && tip.parents->0.trees@.len() == 1 && tip.parents->0.trees@[0] is Some && tip.parents->0.trees@[0]->0@
            == tip.tree->0@,
        tip.tree is None || tip.parents is None ==> tip_is_empty(tip) is None,
        tip.tree is Some && tip.parents is Some && (tip.parents->0.has_next_page || tip.parents->0.trees@.len() != 1)
            ==> tip_is_empty(tip) == Some(false),
{
}

/// Whether every review that was submitted was submitted before the time.
pub open spec fn after_each(reviews: Seq<Option<String>>, time: Seq<char>) -> bool {
    forall|i: int|
        0 <= i < reviews.len() && (#[trigger] reviews[i]) is Some ==> lex_less(ranks(reviews[i]->0@), ranks(time))
}

/// What the details of a pull request say of its review: that it predates the head exactly if there is a
/// review and a commit and every review was submitted before some commit was written; and of its checks,
/// its changes and its head what the forge answered.
pub proof fn lemma_details_of_pull(details: PullDetails, payload: FactsPayload)
    requires
        details_match(details, payload),
    ensures
        ({
            let reviews = listed(payload.reviews);
            let commits = listed(payload.commits);
            let reviewed = exists|i: int| 0 <= i < reviews.len() && #[trigger] reviews[i] is Some;
            &&& details.review_predates_head is Some <==> reviewed && commits.len() > 0
            &&& details.review_predates_head is Some ==> (details.review_predates_head->0 <==> exists|k: int|
                0 <= k < commits.len() && after_each(reviews, (#[trigger] commits[k])@))
        }),
        details.head_ref_deleted == Some(true) <==> payload.head_ref is Deleted,
        details.head_ref_deleted is None <==> payload.head_ref is Missing,
        details.diff is Some <==> payload.additions is Some && payload.deletions is Some
            && payload.changed_files is Some,
        details.diff matches Some(totals) ==> totals.additions == payload.additions->0 && totals.deletions
            == payload.deletions->0 && totals.changed_files == payload.changed_files->0,
        listed(payload.rollup).len() == 0 ==> details.checks->0@.len() == 0 && details.tip_commit_empty is None,
{
    let reviews = listed(payload.reviews);
    let commits = listed(payload.commits);
    let times = review_times(payload);
    let dates = views(commits);
    lemma_newest(times);
    lemma_newest(dates);
    assert forall|i: int| 0 <= i < reviews.len() && #[trigger] reviews[i] is Some implies times.contains(
        reviews[i]->0@,
    ) by {
        lemma_filter_map_has(reviews, submitted(), reviews[i]->0@);
        assert(submitted()(reviews[i]) == Some(reviews[i]->0@));
    }
    if times.len() > 0 {
        assert(times.contains(times[0]));
        lemma_filter_map_has(reviews, submitted(), times[0]);
    }
    if exists|i: int| 0 <= i < reviews.len() && #[trigger] reviews[i] is Some {
        let i = choose|i: int| 0 <= i < reviews.len() && #[trigger] reviews[i] is Some;
        assert(times.contains(reviews[i]->0@));
    }
    if details.review_predates_head is Some {
        let review = newest(times)->0;
        let commit = newest(dates)->0;
        lemma_filter_map_has(reviews, submitted(), review);
        let at = choose|at: int| 0 <= at < reviews.len() && submitted()(#[trigger] reviews[at]) == Some(review);
        let k = choose|k: int| 0 <= k < dates.len() && dates[k] == commit;
        assert(commits[k]@ == commit);
        if lex_less(ranks(review), ranks(commit)) {
            assert forall|i: int| 0 <= i < reviews.len() && (#[trigger] reviews[i]) is Some implies lex_less(
                ranks(reviews[i]->0@),
                ranks(commits[k]@),
            ) by {
                let time = reviews[i]->0@;
                let j = choose|j: int| 0 <= j < times.len() && times[j] == time;
                assert(!lex_less(ranks(review), ranks(times[j])));
                lemma_lex_total(ranks(review), ranks(time));
                if lex_less(ranks(time), ranks(review)) {
                    lemma_lex_transitive(ranks(time), ranks(review), ranks(commit));
                }
            }
        }
        if exists|k: int| 0 <= k < commits.len() && after_each(reviews, (#[trigger] commits[k])@) {
            let m = choose|m: int| 0 <= m < commits.len() && after_each(reviews, (#[trigger] commits[m])@);
            assert(reviews[at] is Some);
            assert(lex_less(ranks(review), ranks(commits[m]@)));
            assert(dates[m] == commits[m]@);
            assert(!lex_less(ranks(commit), ranks(dates[m])));
            lemma_lex_total(ranks(commit), ranks(dates[m]));
            if lex_less(ranks(dates[m]), ranks(commit)) {
                lemma_lex_transitive(ranks(review), ranks(dates[m]), ranks(commit));
            }
        }
    }
}

/// A failure of a query is tolerable exactly if it says that one of the pull requests that were asked for
/// was not found; any other one refuses the answer.
pub proof fn lemma_tolerable_failures(failure: QueryFailure, asked: Seq<u64>)
    ensures
        refusal(asked)(failure) is None <==> failure.kind@ == "NOT_FOUND"@ && failure.path@.len() == 2
            && failure.path@[0] is Some && failure.path@[0]->0@ == "repository"@ && failure.path@[1] is Some && exists|
            i: int,
        |
            0 <= i < asked.len() && "p"@ + decimal_text((#[trigger] asked[i]) as nat) == failure.path@[1]->0@,
        refusal(asked)(failure) matches Some(text) ==> text == failure.message@,
{
    if tolerable(failure, asked) {
        let i = choose|i: int|
            0 <= i < asked.len() && #[trigger] alias_of(asked[i] as nat) == failure.path@[1]->0@;
        assert("p"@ + decimal_text(asked[i] as nat) == failure.path@[1]->0@);
    }
    if failure.path@.len() == 2 && failure.path@[1] is Some && exists|i: int|
        0 <= i < asked.len() && "p"@ + decimal_text((#[trigger] asked[i]) as nat) == failure.path@[1]->0@ {
        let i = choose|i: int|
            0 <= i < asked.len() && "p"@ + decimal_text((#[trigger] asked[i]) as nat) == failure.path@[1]->0@;
        assert(alias_of(asked[i] as nat) == failure.path@[1]->0@);
    }
}

/// A timeline event is read exactly if it names one of the six known types and its payload was read; one
/// without a type or of another type is refused as a query, and one whose payload was not read as a reply.
pub proof fn lemma_read_events(node: TimelineNode)
    ensures
        node_error(node) is None <==> node.typename is Some && known_type(node.typename->0@) && node.payload is Ok,
        node_error(node) matches Some(said) ==> (said.0 <==> node.typename is None || !known_type(node.typename->0@)),
        known_type("HeadRefForcePushedEvent"@) && known_type("HeadRefDeletedEvent"@) && known_type(
            "HeadRefRestoredEvent"@,
        ) && known_type("ClosedEvent"@) && known_type("ReopenedEvent"@) && known_type("MergedEvent"@),
{
}

/// Whether a reply says that a file is absent: exactly if the command failed and its words hold the status.
pub proof fn lemma_absent_file(error: ForgeError)
    ensures
        says_absent(error) <==> error is Command && contains_text(error->stderr@, "HTTP 404"@),
{
}

/// The newest activity on a pull request is its newest review or comment, whichever is later.
pub proof fn lemma_newest_activity(payload: FactsPayload)
    ensures
        ({
            let reviews = listed(payload.reviews);
            let comments = listed(payload.comments);
            &&& activity(payload) is None <==> comments.len() == 0 && forall|i: int|
                0 <= i < reviews.len() ==> #[trigger] reviews[i] is None
            &&& activity(payload) matches Some(time) ==> {
                &&& forall|i: int| 0 <= i < comments.len() ==> !lex_less(ranks(time), ranks((#[trigger] comments[i])@))
                &&& forall|i: int|
                    0 <= i < reviews.len() && (#[trigger] reviews[i]) is Some ==> !lex_less(
                        ranks(time),
                        ranks(reviews[i]->0@),
                    )
            }
        }),
{
    let reviews = listed(payload.reviews);
    let comments = listed(payload.comments);
    let times = review_times(payload);
    let said = views(comments);
    let all = times + said;
    lemma_newest(all);
    assert forall|i: int| 0 <= i < reviews.len() && #[trigger] reviews[i] is Some implies times.contains(
        reviews[i]->0@,
    ) by {
        lemma_filter_map_has(reviews, submitted(), reviews[i]->0@);
        assert(submitted()(reviews[i]) == Some(reviews[i]->0@));
    }
    if times.len() > 0 {
        assert(times.contains(times[0]));
        lemma_filter_map_has(reviews, submitted(), times[0]);
    }
    if let Some(time) = activity(payload) {
        assert forall|i: int| 0 <= i < comments.len() implies !lex_less(ranks(time), ranks((#[trigger] comments[i])@)) by {
            assert(all[times.len() + i] == comments[i]@);
        }
        assert forall|i: int| 0 <= i < reviews.len() && (#[trigger] reviews[i]) is Some implies !lex_less(
            ranks(time),
            ranks(reviews[i]->0@),
        ) by {
            let j = choose|j: int| 0 <= j < times.len() && times[j] == reviews[i]->0@;
            assert(all[j] == reviews[i]->0@);
        }
    } else {
        assert forall|i: int| 0 <= i < reviews.len() implies #[trigger] reviews[i] is None by {
            if reviews[i] is Some {
                assert(times.contains(reviews[i]->0@));
            }
        }
    }
}

/// Which answer counts for a number: one that names it, and the last of those; a number that none names has
/// no facts.
pub proof fn lemma_last_payload(payloads: Seq<Option<FactsPayload>>, number: u64)
    ensures
        last_payload(payloads, number) is Some <==> exists|i: int|
            0 <= i < payloads.len() && (#[trigger] payloads[i]) is Some && payloads[i]->0.pull.number == number,
        last_payload(payloads, number) matches Some(payload) ==> payload.pull.number == number && payloads.contains(
            Some(payload),
        ),
    decreases payloads.len(),
{
    if payloads.len() > 0 {
        let rest = payloads.drop_last();
        let last = payloads.len() - 1;
        lemma_last_payload(rest, number);
        assert(payloads[last] == payloads.last());
        if exists|i: int| 0 <= i < rest.len() && (#[trigger] rest[i]) is Some && rest[i]->0.pull.number == number {
            let i = choose|i: int|
                0 <= i < rest.len() && (#[trigger] rest[i]) is Some && rest[i]->0.pull.number == number;
            assert(payloads[i] == rest[i]);
        }
        if exists|i: int|
            0 <= i < payloads.len() && (#[trigger] payloads[i]) is Some && payloads[i]->0.pull.number == number {
            let i = choose|i: int|
                0 <= i < payloads.len() && (#[trigger] payloads[i]) is Some && payloads[i]->0.pull.number == number;
            if i < last {
                assert(rest[i] == payloads[i]);
            }
        }
        if let Some(payload) = last_payload(rest, number) {
            let k = choose|k: int| 0 <= k < rest.len() && rest[k] == Some(payload);
            assert(payloads[k] == Some(payload));
        }
    }
}

/// An answer is refused as cut short exactly if the checks of some pull request in it go on.
pub proof fn lemma_first_truncated(payloads: Seq<Option<FactsPayload>>, from: int)
    requires
        0 <= from <= payloads.len(),
    ensures
        from <= first_truncated(payloads, from) <= payloads.len(),
        first_truncated(payloads, from) < payloads.len() ==> payloads[first_truncated(payloads, from)] is Some
            && has_more_contexts(payloads[first_truncated(payloads, from)]->0),
        forall|i: int|
            from <= i < first_truncated(payloads, from) && (#[trigger] payloads[i]) is Some ==> !has_more_contexts(
                payloads[i]->0,
            ),
    decreases payloads.len() - from,
{
    if from < payloads.len() && !(payloads[from] is Some && has_more_contexts(payloads[from]->0)) {
        lemma_first_truncated(payloads, from + 1);
    }
}

/// Checks go on exactly if some tip has contexts and their page has a next one.
pub proof fn lemma_more_contexts(payload: FactsPayload)
    ensures
        has_more_contexts(payload) <==> exists|i: int|
            0 <= i < listed(payload.rollup).len() && (#[trigger] listed(payload.rollup)[i]).contexts is Some && listed(
                payload.rollup,
            )[i].contexts->0.has_next_page,
{
    let tips = listed(payload.rollup);
    if has_more_contexts(payload) {
        let i = choose|i: int| 0 <= i < tips.len() && #[trigger] truncated(tips[i]);
        assert(tips[i].contexts is Some);
    }
    assert forall|i: int|
        0 <= i < tips.len() && (#[trigger] tips[i]).contexts is Some && tips[i].contexts->0.has_next_page implies has_more_contexts(
        payload,
    ) by {
        assert(truncated(tips[i]));
    }
}

/// An event of a history is of the kind and the time that the reply tells. A push by force keeps what the
/// head was before apart from what it was after, a merge keeps its commit, and a commit or a tree that is
/// gone reads as unknown.
pub proof fn lemma_event_of_payload(event: TimelineEvent, payload: TimelineEventPayload)
    requires
        event_match(event, payload),
    ensures
        payload matches TimelineEventPayload::ForcePush { at, before, after } ==> {
            &&& event.at@ == at@ && event.kind is ForcePush
            &&& before is Some ==> event.kind->before.commit@ == before->0.oid@
            &&& before is None ==> event.kind->before.commit@ == "unknown"@ && event.kind->before.tree@ == "unknown"@
            &&& before is Some && before->0.tree is Some ==> event.kind->before.tree@ == before->0.tree->0@
            &&& before is Some && before->0.tree is None ==> event.kind->before.tree@ == "unknown"@
            &&& after is Some ==> event.kind->after.commit@ == after->0.oid@
            &&& after is None ==> event.kind->after.commit@ == "unknown"@ && event.kind->after.tree@ == "unknown"@
            &&& after is Some && after->0.tree is Some ==> event.kind->after.tree@ == after->0.tree->0@
            &&& after is Some && after->0.tree is None ==> event.kind->after.tree@ == "unknown"@
        },
        payload matches TimelineEventPayload::HeadDeleted { at } ==> event.at@ == at@ && event.kind is HeadDeleted,
        payload matches TimelineEventPayload::HeadRestored { at } ==> event.at@ == at@ && event.kind is HeadRestored,
        payload matches TimelineEventPayload::Closed { at } ==> event.at@ == at@ && event.kind is Closed,
        payload matches TimelineEventPayload::Reopened { at } ==> event.at@ == at@ && event.kind is Reopened,
        payload matches TimelineEventPayload::Merged { at, commit } ==> {
            &&& event.at@ == at@ && event.kind is Merged
            &&& event.kind->commit is Some <==> commit is Some
            &&& commit is Some ==> event.kind->commit->0@ == commit->0.oid@
        },
{
}

/// Every node before the first that is no event is of one of the six types and can be read; that one either
/// has no type, cannot be read, or is of another type.
pub proof fn lemma_first_unreadable_event(nodes: Seq<TimelineNode>, from: int)
    requires
        0 <= from <= nodes.len(),
    ensures
        ({
            let k = first_bad(nodes, from);
            &&& from <= k <= nodes.len()
            &&& forall|i: int| from <= i < k ==> (#[trigger] nodes[i]).typename is Some && nodes[i].payload is Ok
            &&& forall|i: int|
                from <= i < k ==> (#[trigger] nodes[i]).typename->0@ == "HeadRefForcePushedEvent"@
                    || nodes[i].typename->0@ == "HeadRefDeletedEvent"@ || nodes[i].typename->0@
                    == "HeadRefRestoredEvent"@ || nodes[i].typename->0@ == "ClosedEvent"@ || nodes[i].typename->0@
                    == "ReopenedEvent"@ || nodes[i].typename->0@ == "MergedEvent"@
            &&& k < nodes.len() && nodes[k].typename is Some && nodes[k].payload is Ok ==> {
                let name = nodes[k].typename->0@;
                &&& name != "HeadRefForcePushedEvent"@ && name != "HeadRefDeletedEvent"@ && name
                    != "HeadRefRestoredEvent"@
                &&& name != "ClosedEvent"@ && name != "ReopenedEvent"@ && name != "MergedEvent"@
            }
        }),
    decreases nodes.len() - from,
{
    if from < nodes.len() && node_error(nodes[from]) is None {
        lemma_first_unreadable_event(nodes, from + 1);
        assert forall|i: int| from <= i < first_bad(nodes, from) implies (#[trigger] nodes[i]).typename is Some
            && nodes[i].payload is Ok by {}
    }
}

} // verus!
