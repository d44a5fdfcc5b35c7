//! What is being worked on right now: the claim-overlap finding and the branch-to-workspace naming
//! rule.

use vstd::prelude::*;
use vstd::string::*;

use crate::detect::{Finding, FindingKind, FindingView, Subject, SubjectView};
use crate::order::OrdMap;
use crate::seqs::{group_seqs, lemma_once, once, view_of, views};
use crate::text::{decimal, decimal_text, each_once, join, joined, replace_char, replaced};

verus! {

/// What is found of a file and those who change it: something only where they are more than one.
/// Whoever is listed again is no further holder.
pub open spec fn shared(file: Seq<char>, listed: Seq<Seq<char>>) -> Option<FindingView> {
    let holders = once(listed);
    if holders.len() > 1 {
        Some(
            FindingView {
                kind: FindingKind::ClaimOverlap,
                subject: SubjectView::File(file),
                detail: file + " is being changed by "@ + decimal_text(holders.len()) + ": "@ + joined(
                    holders,
                    ", "@,
                ),
            },
        )
    } else {
        None
    }
}

/// What is found of a file and those who change it.
pub fn overlap(file: &str, listed: &Vec<String>) -> (finding: Option<Finding>)
    ensures
        view_of(finding) == shared(file@, views(listed@)),
{
    let holders = each_once(listed);
    assert(views(holders@).len() == holders@.len());
    if holders.len() <= 1 {
        return None;
    }
    let mut detail = file.to_owned();
    detail.append(" is being changed by ");
    detail.append(decimal(holders.len() as u64).as_str());
    detail.append(": ");
    detail.append(join(&holders, ", ").as_str());
    Some(Finding::new(FindingKind::ClaimOverlap, Subject::File(file.to_owned()), detail))
}

/// A file is found exactly where two different holders change it.
pub proof fn lemma_overlap_needs_two_holders(file: Seq<char>, listed: Seq<Seq<char>>)
    ensures
        shared(file, listed) is Some <==> exists|a: Seq<char>, b: Seq<char>|
            a != b && #[trigger] listed.contains(a) && #[trigger] listed.contains(b),
{
    let holders = once(listed);
    lemma_once(listed);
    if holders.len() > 1 {
        assert(holders.contains(holders[0]) && holders.contains(holders[1]));
        assert(listed.contains(holders[0]) && listed.contains(holders[1]));
        assert(holders[0] != holders[1]);
    }
    if exists|a: Seq<char>, b: Seq<char>|
        a != b && #[trigger] listed.contains(a) && #[trigger] listed.contains(b) {
        let (a, b) = choose|a: Seq<char>, b: Seq<char>|
            a != b && #[trigger] listed.contains(a) && #[trigger] listed.contains(b);
        assert(holders.contains(a) && holders.contains(b));
        let i = choose|i: int| 0 <= i < holders.len() && holders[i] == a;
        let j = choose|j: int| 0 <= j < holders.len() && holders[j] == b;
        assert(i != j);
    }
}

/// What is found of an entry of a file and those who change it.
pub open spec fn shared_file() -> spec_fn((String, Vec<String>)) -> Option<FindingView> {
    |entry: (String, Vec<String>)| shared(entry.0@, views(entry.1@))
}

/// Two active claims touching one file.
///
/// File overlap is the strongest duplicate-work signal available. Two agents building the same fix
/// on differently named branches is otherwise undetectable.
pub fn overlaps(touching: &OrdMap<String, Vec<String>>) -> (findings: Vec<Finding>)
    ensures
        views(findings@) == touching@.filter_map(shared_file()),
{
    broadcast use group_seqs;

    let mut findings: Vec<Finding> = Vec::new();
    let mut i: usize = 0;
    while i < touching.len()
        invariant
            i <= touching@.len(),
            views(findings@) == touching@.take(i as int).filter_map(shared_file()),
        decreases touching@.len() - i,
    {
        proof {
            touching@.lemma_filter_map_take_succ(shared_file(), i as int);
        }
        if let Some(finding) = overlap(touching.key(i).as_str(), touching.value(i)) {
            findings.push(finding);
        }
        assert(views(findings@) =~= touching@.take(i + 1).filter_map(shared_file()));
        i += 1;
    }
    findings
}

/// Which workspace a claim's work lives in: the branch with its slashes flattened.
pub open spec fn workspace_of(branch: Seq<char>) -> Seq<char> {
    replaced(branch, '/', '-')
}

/// Which workspace a claim's work lives in.
///
/// A workspace is named for its branch with slashes flattened, so the mapping is derivable rather
/// than stored.
pub fn workspace_for(branch: &str) -> (name: String)
    ensures
        name@ == workspace_of(branch@),
{
    replace_char(branch, '/', '-')
}

/// A workspace is named as its branch with a dash for each slash: it has no slash, and every other
/// character stays where it is.
pub proof fn lemma_workspace_of_branch(branch: Seq<char>)
    ensures
        workspace_of(branch).len() == branch.len(),
        !workspace_of(branch).contains('/'),
        forall|i: int|
            0 <= i < branch.len() ==> #[trigger] workspace_of(branch)[i] == (if branch[i] == '/' {
                '-'
            } else {
                branch[i]
            }),
{
    let name = workspace_of(branch);
    assert forall|i: int| 0 <= i < branch.len() implies #[trigger] name[i] != '/' by {}
}

/// What a shared file says: how many hold it and who, each of them once.
pub proof fn lemma_shared_file_tells_holders(file: Seq<char>, listed: Seq<Seq<char>>)
    ensures
        shared(file, listed) matches Some(finding) ==> finding.kind == FindingKind::ClaimOverlap && finding.subject
            == SubjectView::File(file) && finding.detail == file + " is being changed by "@ + decimal_text(
            once(listed).len(),
        ) + ": "@ + joined(once(listed), ", "@),
        once(listed).no_duplicates(),
{
    lemma_once(listed);
}

} // verus!
