//! Facts supplied directly: a forge that is configured with rows and failure switches instead of a
//! network.

use std::collections::BTreeMap;

use vstd::prelude::*;
use vstd::string::*;

use crate::forge::{
    summary_of, ChecksSummary, ConsumerHead, Forge, ForgeError, PullDetails, PullFacts, PullRequest, PullSummary,
    RepoIdentity, SweepEntry, SweepPage, TimelineEvent,
};
use crate::ids::BranchName;
use crate::numbered::{at_number, set_number};
use crate::order::{lookup, OrdMap, Ordered};
use crate::seqs::view_of;
use crate::sorting::{rank_of, sort, sorted};
use crate::text::{ranks, same};

verus! {

/// One file of a consumer at one commit.
#[derive(Debug, PartialEq, Eq)]
pub struct ConsumerFile {
    pub slug: String,
    pub commit: String,
    pub path: String,
    pub text: String,
}

/// Facts supplied directly, with one switch per failure.
#[derive(Debug, PartialEq, Eq)]
pub struct FakeForge {
    pub pull_requests: OrdMap<BranchName, PullRequest>,
    pub stale_reviews: Vec<u64>,
    pub checks: BTreeMap<u64, ChecksSummary>,
    /// States for numbers outside the listed ones, which a batch can still answer about.
    pub vanished_states: BTreeMap<u64, String>,
    pub newest_comments: BTreeMap<u64, String>,
    pub timeline: BTreeMap<u64, Vec<TimelineEvent>>,
    pub fail_identity: bool,
    pub fail_list: bool,
    pub fail_sweep: bool,
    pub fail_facts: bool,
    pub fail_timeline: bool,
    /// The sweep reports a continuation past its page.
    pub sweep_overflows: bool,
    pub heads: OrdMap<String, ConsumerHead>,
    pub files: Vec<ConsumerFile>,
    pub fail_consumer_head: bool,
    pub fail_file_at: bool,
}

impl Default for FakeForge {
    /// A forge that knows nothing and fails at nothing.
    fn default() -> (forge: Self)
        ensures
            forge.pull_requests@.len() == 0,
            forge.stale_reviews@.len() == 0,
            forge.checks@ == Map::<u64, ChecksSummary>::empty(),
            forge.vanished_states@ == Map::<u64, String>::empty(),
            forge.newest_comments@ == Map::<u64, String>::empty(),
            forge.timeline@ == Map::<u64, Vec<TimelineEvent>>::empty(),
            !forge.fail_identity,
            !forge.fail_list,
            !forge.fail_sweep,
            !forge.fail_facts,
            !forge.fail_timeline,
            !forge.sweep_overflows,
            forge.heads@.len() == 0,
            forge.files@.len() == 0,
            !forge.fail_consumer_head,
            !forge.fail_file_at,
    {
        FakeForge {
            pull_requests: OrdMap::new(),
            stale_reviews: Vec::new(),
            checks: BTreeMap::new(),
            vanished_states: BTreeMap::new(),
            newest_comments: BTreeMap::new(),
            timeline: BTreeMap::new(),
            fail_identity: false,
            fail_list: false,
            fail_sweep: false,
            fail_facts: false,
            fail_timeline: false,
            sweep_overflows: false,
            heads: OrdMap::new(),
            files: Vec::new(),
            fail_consumer_head: false,
            fail_file_at: false,
        }
    }
}

/// Whether an error is the one a failing operation gives.
pub open spec fn is_failure(error: ForgeError, operation: Seq<char>) -> bool {
    error is Command && error->command@ == "fake"@ && error->dir@ == "/fake"@ && error->code == 1 && error->stderr@
        == "fake "@ + operation + " failed"@
}

fn fake_failure(operation: &str) -> (error: ForgeError)
    ensures
        is_failure(error, operation@),
{
    let mut stderr = "fake ".to_owned();
    stderr.append(operation);
    stderr.append(" failed");
    ForgeError::Command { command: "fake".to_owned(), dir: "/fake".to_owned(), code: 1, stderr }
}

impl Ordered for SweepEntry {
    /// Newest update first, and of those updated together the lower number: the code points of the
    /// timestamp count down from an end that no code point reaches.
    open spec fn rank(&self) -> Seq<int> {
        newest_first(self.updated_at@) + seq![self.number as int]
    }

    fn precedes(&self, other: &Self) -> (r: bool) {
        proof {
            lemma_newest_first(self.updated_at@, self.number as int, other.updated_at@, other.number as int);
        }
        crate::text::text_precedes(other.updated_at.as_str(), self.updated_at.as_str()) || (same(
            self.updated_at.as_str(),
            other.updated_at.as_str(),
        ) && self.number < other.number)
    }
}

/// The code points of a timestamp turned around, with an end behind them that comes last.
pub open spec fn newest_first(time: Seq<char>) -> Seq<int> {
    Seq::new(time.len(), |i: int| -(time[i] as int)) + seq![1int]
}

proof fn lemma_newest_first(a: Seq<char>, m: int, b: Seq<char>, n: int)
    ensures
        crate::order::lex_less(newest_first(a) + seq![m], newest_first(b) + seq![n]) == (crate::order::lex_less(
            ranks(b),
            ranks(a),
        ) || (a == b && m < n)),
    decreases a.len(),
{
    let left = newest_first(a) + seq![m];
    let right = newest_first(b) + seq![n];
    if a.len() > 0 && b.len() > 0 {
        lemma_newest_first(a.drop_first(), m, b.drop_first(), n);
        assert(left.drop_first() =~= newest_first(a.drop_first()) + seq![m]);
        assert(right.drop_first() =~= newest_first(b.drop_first()) + seq![n]);
        assert(ranks(a).drop_first() =~= ranks(a.drop_first()));
        assert(ranks(b).drop_first() =~= ranks(b.drop_first()));
        assert(left[0] == -(a[0] as int) && right[0] == -(b[0] as int));
        assert(ranks(a)[0] == a[0] as int && ranks(b)[0] == b[0] as int);
        assert(a =~= seq![a[0]] + a.drop_first());
        assert(b =~= seq![b[0]] + b.drop_first());
    } else if a.len() == 0 && b.len() == 0 {
        assert(a =~= b);
        assert(left =~= seq![1int, m]);
        assert(right =~= seq![1int, n]);
        reveal_with_fuel(crate::order::lex_less, 3);
    } else if a.len() == 0 {
        lemma_code_point(b[0]);
        assert(left[0] == 1 && right[0] == -(b[0] as int));
    } else {
        lemma_code_point(a[0]);
        assert(right[0] == 1 && left[0] == -(a[0] as int));
    }
}

proof fn lemma_code_point(c: char)
    ensures
        0 <= c as int,
{
}

/// The row a sweep shows of each configured pull request.
pub open spec fn sweep_row(pull: PullRequest) -> SweepEntry {
    SweepEntry { number: pull.number, updated_at: pull.updated_at, state: pull.state }
}

/// The rows a sweep shows, before they are put in order.
pub open spec fn sweep_rows(pulls: Seq<(BranchName, PullRequest)>) -> Seq<SweepEntry> {
    Seq::new(pulls.len(), |i: int| sweep_row(pulls[i].1))
}

/// The summaries of the configured pull requests, in branch order.
pub open spec fn listed_summaries(pulls: Seq<(BranchName, PullRequest)>) -> Seq<PullSummary> {
    Seq::new(pulls.len(), |i: int| summary_of(pulls[i].1))
}

/// The first configured pull request with that number.
pub open spec fn configured(pulls: Seq<(BranchName, PullRequest)>, number: u64, from: int) -> Option<PullRequest>
    decreases pulls.len() - from,
{
    if from >= pulls.len() {
        None
    } else if pulls[from].1.number == number {
        Some(pulls[from].1)
    } else {
        configured(pulls, number, from + 1)
    }
}

/// Whether a row is the one a vanished number has: its state, and nothing else.
pub open spec fn vanished(pull: PullRequest, number: u64, state: String) -> bool {
    &&& pull.number == number
    &&& pull.state == state
    &&& pull.review_decision@.len() == 0
    &&& pull.head_ref_name@.len() == 0
    &&& pull.head_ref_oid@.len() == 0
    &&& pull.updated_at@.len() == 0
    &&& !pull.is_draft
    &&& pull.url@.len() == 0
    &&& pull.head_repository_owner is None
    &&& pull.mergeable is None
    &&& pull.merge_state_status is None
    &&& pull.base_ref_name is None
    &&& pull.merge_commit is None
}

fn vanished_pull(number: u64, state: String) -> (pull: PullRequest)
    ensures
        vanished(pull, number, state),
{
    PullRequest {
        number,
        state,
        review_decision: String::new(),
        head_ref_name: String::new(),
        head_ref_oid: String::new(),
        updated_at: String::new(),
        is_draft: false,
        url: String::new(),
        head_repository_owner: None,
        mergeable: None,
        merge_state_status: None,
        base_ref_name: None,
        merge_commit: None,
    }
}

/// What a map holds under a number.
pub open spec fn held<V>(map: Map<u64, V>, number: u64) -> Option<V> {
    if map.contains_key(number) {
        Some(map[number])
    } else {
        None
    }
}

/// Whether a batch may answer with those facts for that number.
pub open spec fn answers(forge: FakeForge, facts: PullFacts, number: u64) -> bool {
    let known = configured(forge.pull_requests@, number, 0);
    &&& facts.newest_comment == held(forge.newest_comments@, number)
    &&& match known {
        Some(pull) => {
            &&& facts.pull == pull
            &&& facts.details.review_predates_head == Some(forge.stale_reviews@.contains(number))
            &&& match facts.details.checks {
                Some(summary) => forge.checks@.contains_key(number) && summary.runs@
                    == forge.checks@[number].runs@,
                None => !forge.checks@.contains_key(number),
            }
        },
        None => {
            &&& forge.vanished_states@.contains_key(number)
            &&& vanished(facts.pull, number, forge.vanished_states@[number])
            &&& facts.details.review_predates_head is None
            &&& facts.details.checks is None
        },
    }
    &&& facts.details.diff is None
    &&& facts.details.head_ref_deleted is None
    &&& facts.details.tip_commit_empty is None
    &&& facts.details.body is None
    &&& facts.details.unresolved_review_threads is None
}

/// Whether a number is known at all.
pub open spec fn known(forge: FakeForge, number: u64) -> bool {
    configured(forge.pull_requests@, number, 0) is Some || forge.vanished_states@.contains_key(number)
}

fn copied(value: Option<&String>) -> (copy: Option<String>)
    ensures
        copy == (match value {
            Some(text) => Some(*text),
            None => None,
        }),
{
    match value {
        Some(text) => Some(text.clone()),
        None => None,
    }
}

impl FakeForge {
    fn facts_for(&self, number: u64) -> (facts: Option<PullFacts>)
        ensures
            match facts {
                Some(facts) => known(*self, number) && answers(*self, facts, number),
                None => !known(*self, number),
            },
    {
        let newest_comment = copied(at_number(&self.newest_comments, number));
        let mut i: usize = 0;
        while i < self.pull_requests.len()
            invariant
                i <= self.pull_requests@.len(),
                configured(self.pull_requests@, number, 0) == configured(self.pull_requests@, number, i as int),
                newest_comment == held(self.newest_comments@, number),
            decreases self.pull_requests@.len() - i,
        {
            let pull = self.pull_requests.value(i);
            if pull.number == number {
                let mut stale = false;
                let mut j: usize = 0;
                while j < self.stale_reviews.len()
                    invariant
                        j <= self.stale_reviews@.len(),
                        stale == self.stale_reviews@.take(j as int).contains(number),
                    decreases self.stale_reviews@.len() - j,
                {
                    let ghost longer = self.stale_reviews@.take(j + 1);
                    let ghost shorter = self.stale_reviews@.take(j as int);
                    assert(longer =~= shorter.push(self.stale_reviews@[j as int]));
                    if self.stale_reviews[j] == number {
                        assert(longer[j as int] == number);
                        stale = true;
                    } else {
                        assert(longer.contains(number) == shorter.contains(number)) by {
                            if longer.contains(number) {
                                let k = choose|k: int| 0 <= k < longer.len() && longer[k] == number;
                                assert(shorter[k] == number);
                            }
                            if shorter.contains(number) {
                                let k = choose|k: int| 0 <= k < shorter.len() && shorter[k] == number;
                                assert(longer[k] == number);
                            }
                        }
                    }
                    j += 1;
                }
                assert(self.stale_reviews@.take(j as int) =~= self.stale_reviews@);
                let checks = match at_number(&self.checks, number) {
                    Some(summary) => Some(summary.clone()),
                    None => None,
                };
                return Some(
                    PullFacts {
                        pull: pull.clone(),
                        details: PullDetails {
                            review_predates_head: Some(stale),
                            checks,
                            diff: None,
                            head_ref_deleted: None,
                            tip_commit_empty: None,
                            body: None,
                            unresolved_review_threads: None,
                        },
                        newest_comment,
                    },
                );
            }
            i += 1;
        }
        match at_number(&self.vanished_states, number) {
            Some(state) => Some(
                PullFacts {
                    pull: vanished_pull(number, state.clone()),
                    details: PullDetails::default(),
                    newest_comment,
                },
            ),
            None => None,
        }
    }

    /// The head that was configured for a consumer.
    pub fn consumer_head(&self, slug: &str) -> (head: Result<ConsumerHead, ForgeError>)
        ensures
            match head {
                Ok(head) => !self.fail_consumer_head && lookup(self.heads@, ranks(slug@)) == Some(head),
                Err(error) => if self.fail_consumer_head {
                    is_failure(error, "consumer head"@)
                } else {
                    lookup(self.heads@, ranks(slug@)) is None && error is Query && error->detail@
                        == "fake consumer head not configured for "@ + slug@
                },
            },
    {
        if self.fail_consumer_head {
            return Err(fake_failure("consumer head"));
        }
        let key = slug.to_owned();
        assert(key.rank() == ranks(slug@));
        match self.heads.get(&key) {
            Some(head) => Ok(head.clone()),
            None => {
                let mut detail = "fake consumer head not configured for ".to_owned();
                detail.append(slug);
                Err(ForgeError::Query { detail })
            },
        }
    }

    /// The file that was configured for a consumer at a commit.
    pub fn file_at(&self, slug: &str, commit: &str, path: &str) -> (text: Result<Option<String>, ForgeError>)
        ensures
            match text {
                Ok(text) => !self.fail_file_at && view_of(text) == first_file(
                    self.files@,
                    slug@,
                    commit@,
                    path@,
                    0,
                ),
                Err(error) => self.fail_file_at && is_failure(error, "consumer file"@),
            },
    {
        if self.fail_file_at {
            return Err(fake_failure("consumer file"));
        }
        let mut i: usize = 0;
        while i < self.files.len()
            invariant
                i <= self.files@.len(),
                !self.fail_file_at,
                first_file(self.files@, slug@, commit@, path@, 0) == first_file(
                    self.files@,
                    slug@,
                    commit@,
                    path@,
                    i as int,
                ),
            decreases self.files@.len() - i,
        {
            let file = &self.files[i];
            if same(file.slug.as_str(), slug) && same(file.commit.as_str(), commit) && same(
                file.path.as_str(),
                path,
            ) {
                return Ok(Some(file.text.clone()));
            }
            i += 1;
        }
        Ok(None)
    }
}

/// The text of the first file with that address.
pub open spec fn first_file(
    files: Seq<ConsumerFile>,
    slug: Seq<char>,
    commit: Seq<char>,
    path: Seq<char>,
    from: int,
) -> Option<Seq<char>>
    decreases files.len() - from,
{
    if from >= files.len() {
        None
    } else if files[from].slug@ == slug && files[from].commit@ == commit && files[from].path@ == path {
        Some(files[from].text@)
    } else {
        first_file(files, slug, commit, path, from + 1)
    }
}

impl Forge for FakeForge {
    fn repo_identity(&self, repo: &str) -> (identity: Result<RepoIdentity, ForgeError>)
        ensures
            match identity {
                Ok(identity) => !self.fail_identity && identity.name_with_owner@ == "fake-owner/fake-repo"@
                    && identity.id@ == "FAKEID"@,
                Err(error) => self.fail_identity && is_failure(error, "identity"@),
            },
    {
        if self.fail_identity {
            return Err(fake_failure("identity"));
        }
        Ok(RepoIdentity { name_with_owner: "fake-owner/fake-repo".to_owned(), id: "FAKEID".to_owned() })
    }

    fn list_pull_requests(
        &self,
        repo: &str,
        authors: &[String],
    ) -> (rows: Result<Vec<PullSummary>, ForgeError>)
        ensures
            match rows {
                Ok(rows) => !self.fail_list && rows@ == listed_summaries(self.pull_requests@),
                Err(error) => self.fail_list && is_failure(error, "list"@),
            },
    {
        if self.fail_list {
            return Err(fake_failure("list"));
        }
        let mut rows: Vec<PullSummary> = Vec::new();
        let mut i: usize = 0;
        while i < self.pull_requests.len()
            invariant
                i <= self.pull_requests@.len(),
                rows@ == listed_summaries(self.pull_requests@).take(i as int),
            decreases self.pull_requests@.len() - i,
        {
            rows.push(PullSummary::of(self.pull_requests.value(i)));
            i += 1;
            assert(rows@ =~= listed_summaries(self.pull_requests@).take(i as int));
        }
        assert(rows@ =~= listed_summaries(self.pull_requests@));
        Ok(rows)
    }

    fn sweep(&self, repo: &str, target: &RepoIdentity) -> (page: Result<SweepPage, ForgeError>)
        ensures
            match page {
                Ok(page) => !self.fail_sweep && page.has_next_page == self.sweep_overflows && page.entries@
                    == sorted(sweep_rows(self.pull_requests@), rank_of::<SweepEntry>()),
                Err(error) => self.fail_sweep && is_failure(error, "sweep"@),
            },
    {
        if self.fail_sweep {
            return Err(fake_failure("sweep"));
        }
        let mut entries: Vec<SweepEntry> = Vec::new();
        let mut i: usize = 0;
        while i < self.pull_requests.len()
            invariant
                i <= self.pull_requests@.len(),
                entries@ == sweep_rows(self.pull_requests@).take(i as int),
            decreases self.pull_requests@.len() - i,
        {
            let pull = self.pull_requests.value(i);
            entries.push(
                SweepEntry {
                    number: pull.number,
                    updated_at: pull.updated_at.clone(),
                    state: pull.state.clone(),
                },
            );
            i += 1;
            assert(entries@ =~= sweep_rows(self.pull_requests@).take(i as int));
        }
        assert(entries@ =~= sweep_rows(self.pull_requests@));
        sort(&mut entries);
        Ok(SweepPage { entries, has_next_page: self.sweep_overflows })
    }

    fn pull_facts(
        &self,
        repo: &str,
        target: &RepoIdentity,
        numbers: &[u64],
    ) -> (facts: Result<BTreeMap<u64, PullFacts>, ForgeError>)
        ensures
            match facts {
                Ok(facts) => !self.fail_facts && forall|n: u64| #[trigger]
                    facts@.contains_key(n) == (numbers@.contains(n) && known(*self, n)) && (facts@.contains_key(n)
                        ==> answers(*self, facts@[n], n)),
                Err(error) => self.fail_facts && is_failure(error, "facts"@),
            },
    {
        if self.fail_facts {
            return Err(fake_failure("facts"));
        }
        let mut facts: BTreeMap<u64, PullFacts> = BTreeMap::new();
        let mut i: usize = 0;
        while i < numbers.len()
            invariant
                i <= numbers@.len(),
                forall|n: u64| #[trigger]
                    facts@.contains_key(n) == (numbers@.take(i as int).contains(n) && known(*self, n)) && (
                    facts@.contains_key(n) ==> answers(*self, facts@[n], n)),
            decreases numbers@.len() - i,
        {
            let ghost before = facts@;
            let ghost shorter = numbers@.take(i as int);
            let ghost longer = numbers@.take(i + 1);
            let number = numbers[i];
            if let Some(found) = self.facts_for(number) {
                set_number(&mut facts, number, found);
            }
            proof {
                assert(longer =~= shorter.push(number));
                assert(longer[i as int] == number);
                assert forall|n: u64| #[trigger]
                    facts@.contains_key(n) == (longer.contains(n) && known(*self, n)) && (facts@.contains_key(n)
                        ==> answers(*self, facts@[n], n)) by {
                    assert(before.contains_key(n) == (shorter.contains(n) && known(*self, n)));
                    if n != number {
                        if longer.contains(n) {
                            let k = choose|k: int| 0 <= k < longer.len() && longer[k] == n;
                            assert(shorter[k] == n);
                        }
                        if shorter.contains(n) {
                            let k = choose|k: int| 0 <= k < shorter.len() && shorter[k] == n;
                            assert(longer[k] == n);
                        }
                    }
                }
            }
            i += 1;
        }
        assert(numbers@.take(i as int) =~= numbers@);
        Ok(facts)
    }

    fn pull_timeline(
        &self,
        repo: &str,
        target: &RepoIdentity,
        number: u64,
    ) -> (events: Result<Vec<TimelineEvent>, ForgeError>)
        ensures
            match events {
                Ok(events) => !self.fail_timeline && events@ == (match held(self.timeline@, number) {
                    Some(list) => list@,
                    None => Seq::empty(),
                }),
                Err(error) => self.fail_timeline && is_failure(error, "timeline"@),
            },
    {
        if self.fail_timeline {
            return Err(fake_failure("timeline"));
        }
        let mut events: Vec<TimelineEvent> = Vec::new();
        if let Some(list) = at_number(&self.timeline, number) {
            let mut i: usize = 0;
            while i < list.len()
                invariant
                    i <= list@.len(),
                    events@ == list@.take(i as int),
                decreases list@.len() - i,
            {
                events.push(list[i].clone());
                i += 1;
                assert(events@ =~= list@.take(i as int));
            }
            assert(events@ =~= list@);
        }
        Ok(events)
    }
}

} // verus!
