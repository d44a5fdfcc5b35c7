//! Present-state pull request findings that are free once the facts batch ran.
//!
//! Only three checks: an open pull request with an empty diff, with a deleted head ref, or with an
//! empty tip commit. Every input here was already fetched.

use vstd::prelude::*;
use vstd::string::*;

use crate::detect::{Finding, FindingKind, FindingView, Subject, SubjectView};
use crate::forge::{DiffTotals, PullDetails};
use crate::seqs::{gathered, group_seqs, lemma_gathered_next, views};

verus! {

/// One pull request's answered state, as the batch reported it.
#[derive(Debug)]
pub struct PullState<'a> {
    pub number: u64,
    pub open: bool,
    pub details: &'a PullDetails,
}

/// A finding about the pull request with that number.
pub open spec fn pull_finding(kind: FindingKind, number: u64, detail: Seq<char>) -> FindingView {
    FindingView { kind, subject: SubjectView::PullRequest(number), detail }
}

/// Whether the diff was answered and changes nothing.
pub open spec fn empty_diff(diff: Option<DiffTotals>) -> bool {
    diff == Some(DiffTotals { additions: 0, deletions: 0, changed_files: 0 })
}

/// What is found of one pull request. A closed one carries no incident, and a fact that was not
/// answered is none.
pub open spec fn incidents<'a>() -> spec_fn(PullState<'a>) -> Seq<FindingView> {
    |pull: PullState<'a>|
        if !pull.open {
            Seq::empty()
        } else {
            (if empty_diff(pull.details.diff) {
                seq![
                    pull_finding(
                        FindingKind::EmptyDiff,
                        pull.number,
                        "open pull request changes no files (+0 −0): its content landed elsewhere or was never pushed"@,
                    ),
                ]
            } else {
                Seq::empty()
            }) + (if pull.details.head_ref_deleted == Some(true) {
                seq![
                    pull_finding(
                        FindingKind::DeletedHeadRef,
                        pull.number,
                        "open pull request's head ref is gone from the forge"@,
                    ),
                ]
            } else {
                Seq::empty()
            }) + (if pull.details.tip_commit_empty == Some(true) {
                seq![
                    pull_finding(
                        FindingKind::EmptyTipCommit,
                        pull.number,
                        "open pull request's tip commit changes nothing"@,
                    ),
                ]
            } else {
                Seq::empty()
            })
        }
}

/// Report each open pull request's answered present-state incidents, pull by pull.
pub fn pull_state_findings(pulls: &[PullState<'_>]) -> (findings: Vec<Finding>)
    ensures
        views(findings@) == gathered(pulls@, incidents()),
{
    broadcast use group_seqs;

    let mut findings: Vec<Finding> = Vec::new();
    let mut i: usize = 0;
    while i < pulls.len()
        invariant
            i <= pulls@.len(),
            views(findings@) == gathered(pulls@.take(i as int), incidents()),
        decreases pulls@.len() - i,
    {
        let pull = &pulls[i];
        let ghost before = views(findings@);
        proof {
            lemma_gathered_next(pulls@, incidents(), i as int);
        }
        if pull.open {
            let nothing = match &pull.details.diff {
                Some(diff) => diff.empty(),
                None => false,
            };
            if nothing {
                findings.push(
                    Finding::new(
                        FindingKind::EmptyDiff,
                        Subject::PullRequest(pull.number),
                        "open pull request changes no files (+0 −0): its content landed elsewhere or was never pushed".to_owned(),
                    ),
                );
            }
            let gone = match pull.details.head_ref_deleted {
                Some(deleted) => deleted,
                None => false,
            };
            if gone {
                findings.push(
                    Finding::new(
                        FindingKind::DeletedHeadRef,
                        Subject::PullRequest(pull.number),
                        "open pull request's head ref is gone from the forge".to_owned(),
                    ),
                );
            }
            let idle = match pull.details.tip_commit_empty {
                Some(empty) => empty,
                None => false,
            };
            if idle {
                findings.push(
                    Finding::new(
                        FindingKind::EmptyTipCommit,
                        Subject::PullRequest(pull.number),
                        "open pull request's tip commit changes nothing".to_owned(),
                    ),
                );
            }
            assert(nothing == empty_diff(pull.details.diff));
        }
        assert(views(findings@) =~= before + incidents()(*pull));
        i += 1;
    }
    findings
}

/// What is found of an open pull request: that it changes nothing, that its head is gone, and that its tip
/// changes nothing, each exactly if the forge says so. Of one that is not open nothing is found.
pub proof fn lemma_incidents_of_pull(pull: PullState)
    ensures
        !pull.open ==> incidents()(pull).len() == 0,
        pull.open ==> incidents()(pull).len() == (if pull.details.diff is Some && pull.details.diff->0.additions == 0
            && pull.details.diff->0.deletions == 0 && pull.details.diff->0.changed_files == 0 {
            1int
        } else {
            0int
        }) + (if pull.details.head_ref_deleted == Some(true) {
            1int
        } else {
            0int
        }) + (if pull.details.tip_commit_empty == Some(true) {
            1int
        } else {
            0int
        }),
        forall|i: int|
            0 <= i < incidents()(pull).len() ==> (#[trigger] incidents()(pull)[i]).subject
                == SubjectView::PullRequest(pull.number),
        forall|i: int|
            0 <= i < incidents()(pull).len() ==> {
                let kind = (#[trigger] incidents()(pull)[i]).kind;
                &&& kind == FindingKind::EmptyDiff || kind == FindingKind::DeletedHeadRef || kind
                    == FindingKind::EmptyTipCommit
                &&& kind == FindingKind::EmptyDiff ==> pull.details.diff is Some && pull.details.diff->0.changed_files
                    == 0
                &&& kind == FindingKind::DeletedHeadRef ==> pull.details.head_ref_deleted == Some(true)
                &&& kind == FindingKind::EmptyTipCommit ==> pull.details.tip_commit_empty == Some(true)
            },
{
}

} // verus!
