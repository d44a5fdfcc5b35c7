//! The parents of a release, and what still identifies each.

use vstd::prelude::*;
use vstd::string::*;

use crate::commands::release::cutting::{
    audit_cut, standing_as, upstream_name, AuditContext, AuditedMember, CutAudit, Standing,
};
use crate::config::RepoEntry;
use crate::detect::landed::RebaseOutcome;
use crate::detect::stale_parents::{ParentView, ReleaseParent};
use crate::detect::superseded::{bookmark_texts, written};
use crate::graph::CommitGraph;
use crate::ids::{short_text, CommitId};
use crate::order::{lookup, OrdMap};
use crate::seqs::{group_seqs, lemma_filter_map_has, view_of, views};
use crate::text::{
    chars_of, decimal, decimal_text, find_text, first_match, flanked, join, joined, lemma_first_match_at, lists,
    marked, push_flanked, push_marked, ranks, same, slice_text,
};

verus! {

broadcast use group_seqs;

/// One direct parent of a release, and what still identifies its commit.
#[derive(Debug, PartialEq, Eq)]
pub struct MemberRow {
    pub commit: CommitId,
    /// Every bookmark still on the parent, verbatim.
    pub held_by: Vec<String>,
    /// Branches that continue the parent. Empty, with nothing that holds it, means a bare commit.
    pub advanced: Vec<String>,
    /// A trunk-reachable parent is the base of the cut, not a member.
    pub base_parent: bool,
}

/// What a row says.
pub struct MemberView {
    pub commit: Seq<char>,
    pub held_by: Seq<Seq<char>>,
    pub advanced: Seq<Seq<char>>,
    pub base_parent: bool,
}

impl View for MemberRow {
    type V = MemberView;

    open spec fn view(&self) -> MemberView {
        MemberView {
            commit: self.commit@,
            held_by: views(self.held_by@),
            advanced: views(self.advanced@),
            base_parent: self.base_parent,
        }
    }
}

/// The structural and semantic membership of one release.
#[derive(Debug, PartialEq, Eq)]
pub struct MembersReport {
    pub repo: String,
    pub release: String,
    pub commit: CommitId,
    /// The repository's own parent count, never one read from a message.
    pub parent_count: usize,
    pub members: Vec<MemberRow>,
    /// Only where the content was verified.
    pub audit: Option<CutAudit>,
    pub notes: Vec<String>,
    pub problems: Vec<String>,
}

/// The branches that continue a parent, in words.
pub open spec fn advances(successors: Seq<(String, CommitId)>) -> Seq<Seq<char>> {
    Seq::new(successors.len(), |i: int| successors[i].0@ + " advanced to "@ + short_text(successors[i].1@))
}

/// Whether the trunk reaches a commit.
pub open spec fn in_trunk(graph: CommitGraph, trunk: Option<Seq<char>>, commit: Seq<char>) -> bool {
    match trunk {
        Some(tip) => graph.reaches(commit, tip),
        None => false,
    }
}

/// The row of a parent.
pub open spec fn row_of(
    parent: ParentView,
    trunk: Option<Seq<char>>,
    graph: CommitGraph,
    successors: Seq<(String, CommitId)>,
) -> MemberView {
    MemberView {
        commit: parent.commit,
        held_by: written(parent.bookmarks),
        advanced: advances(successors),
        base_parent: in_trunk(graph, trunk, parent.commit),
    }
}

/// One parent's current holders, descendants, and trunk relation.
pub fn member_row(
    parent: &ReleaseParent,
    trunk: Option<&CommitId>,
    graph: &CommitGraph,
    successors: &[(String, CommitId)],
) -> (row: MemberRow)
    ensures
        row@ == row_of(parent@, view_of(trunk), *graph, successors@),
{
    let mut advanced: Vec<String> = Vec::new();
    let ghost all = advances(successors@);
    let mut i: usize = 0;
    assert(views(advanced@) =~= all.take(0));
    while i < successors.len()
        invariant
            i <= successors@.len(),
            all == advances(successors@),
            views(advanced@) == all.take(i as int),
        decreases successors@.len() - i,
    {
        let mut words = successors[i].0.clone();
        words.append(" advanced to ");
        words.append(successors[i].1.short().as_str());
        assert(words@ == all[i as int]);
        let ghost earlier = advanced@;
        advanced.push(words);
        assert(views(advanced@) =~= views(earlier).push(words@));
        assert(views(advanced@) =~= all.take(i + 1));
        i += 1;
    }
    assert(all.take(i as int) =~= all);
    let base_parent = match trunk {
        Some(tip) => graph.is_ancestor(&parent.commit, tip),
        None => false,
    };
    MemberRow {
        commit: parent.commit.clone(),
        held_by: bookmark_texts(parent.bookmarks.as_slice()),
        advanced,
        base_parent,
    }
}

/// What a member goes by besides its commit: the first bookmark holding it, or the first branch that
/// continues it.
pub open spec fn member_source(member: MemberView) -> Option<Seq<char>> {
    if member.held_by.len() > 0 {
        Some(member.held_by[0])
    } else if member.advanced.len() > 0 {
        match first_match(member.advanced[0], " advanced to "@, 0) {
            Some(at) => Some(member.advanced[0].take(at)),
            None => None,
        }
    } else {
        None
    }
}

/// The label that an audit uses for a member.
pub open spec fn label_of(member: MemberView) -> Seq<char> {
    match member_source(member) {
        Some(source) => source + "@"@ + short_text(member.commit),
        None => short_text(member.commit),
    }
}

/// The label that an audit uses for a member.
pub fn member_label(member: &MemberRow) -> (label: String)
    ensures
        label@ == label_of(member@),
{
    assert(member@.held_by.len() == member.held_by@.len());
    assert(member@.advanced.len() == member.advanced@.len());
    let source: Option<String> = if member.held_by.len() > 0 {
        assert(member@.held_by[0] == member.held_by@[0]@);
        Some(member.held_by[0].clone())
    } else if member.advanced.len() > 0 {
        assert(member@.advanced[0] == member.advanced@[0]@);
        let words = member.advanced[0].as_str();
        match find_text(words, " advanced to ") {
            Some(at) => {
                let chars = chars_of(words);
                let branch = slice_text(&chars, 0, at);
                assert(branch@ =~= words@.take(at as int));
                Some(branch)
            },
            None => None,
        }
    } else {
        None
    };
    match source {
        Some(mut label) => {
            label.append("@");
            label.append(member.commit.short().as_str());
            label
        },
        None => member.commit.short(),
    }
}

/// What is known of a named release.
pub struct MembersInput<'a> {
    /// The repository as it is shown.
    pub repo: &'a str,
    pub entry: &'a RepoEntry,
    pub name: &'a str,
    /// The commit the name stands for.
    pub commit: &'a CommitId,
    pub parents: &'a Vec<ReleaseParent>,
    /// The upstream trunk's tip, or why it could not be resolved.
    pub trunk: &'a Result<CommitId, String>,
    pub graph: &'a CommitGraph,
    /// The branches that continue each parent.
    pub successors: &'a OrdMap<CommitId, Vec<(String, CommitId)>>,
    /// Whether the content is to be verified.
    pub verify: bool,
    /// Whether the release itself has unresolved conflicts.
    pub conflicted: bool,
    /// What replaying each member onto the release gave.
    pub replays: &'a OrdMap<CommitId, RebaseOutcome>,
}

/// The branches that continue a parent.
pub open spec fn successors_of(
    successors: Seq<(CommitId, Vec<(String, CommitId)>)>,
    commit: Seq<char>,
) -> Seq<(String, CommitId)> {
    match lookup(successors, ranks(commit)) {
        Some(list) => list@,
        None => Seq::empty(),
    }
}

/// The trunk's tip, where it could be resolved.
pub open spec fn trunk_tip(trunk: Result<CommitId, String>) -> Option<Seq<char>> {
    match trunk {
        Ok(tip) => Some(tip@),
        Err(_) => None,
    }
}

/// The rows of the parents.
pub open spec fn rows_of(input: MembersInput) -> Seq<MemberView> {
    Seq::new(
        input.parents@.len(),
        |i: int|
            row_of(
                input.parents@[i]@,
                trunk_tip(*input.trunk),
                *input.graph,
                successors_of(input.successors@, input.parents@[i].commit@),
            ),
    )
}

/// What replaying a member gave. One that was not replayed is not taken as present.
pub open spec fn replay_of(replays: Seq<(CommitId, RebaseOutcome)>, commit: Seq<char>) -> RebaseOutcome {
    match lookup(replays, ranks(commit)) {
        Some(outcome) => outcome,
        None => RebaseOutcome::CleanNonEmpty,
    }
}

/// The label of a member that stands so in an audit without a previous release.
pub open spec fn audited_as(
    wanted: Standing,
    conflicted: bool,
    replays: Seq<(CommitId, RebaseOutcome)>,
) -> spec_fn(MemberView) -> Option<Seq<char>> {
    |member: MemberView|
        {
            let replay = replay_of(replays, member.commit);
            let stands = if replay == RebaseOutcome::Empty {
                Standing::Present
            } else if replay == RebaseOutcome::Conflicted && conflicted {
                Standing::Inconclusive
            } else {
                Standing::Missing
            };
            if !member.base_parent && stands == wanted {
                Some(label_of(member))
            } else {
                None
            }
        }
}

fn audit_members(
    rows: &Vec<MemberRow>,
    conflicted: bool,
    replays: &OrdMap<CommitId, RebaseOutcome>,
) -> (audit: CutAudit)
    ensures
        views(audit.missing@) == views(rows@).filter_map(audited_as(Standing::Missing, conflicted, replays@)),
        views(audit.inconclusive@) == views(rows@).filter_map(
            audited_as(Standing::Inconclusive, conflicted, replays@),
        ),
        audit.carried@.len() == 0,
        audit.unexplained@.len() == 0,
{
    let mut members: Vec<AuditedMember> = Vec::new();
    let ghost all = views(rows@);
    let ghost missing = audited_as(Standing::Missing, conflicted, replays@);
    let ghost inconclusive = audited_as(Standing::Inconclusive, conflicted, replays@);
    let ghost as_missing = standing_as(Standing::Missing, conflicted, false);
    let ghost as_inconclusive = standing_as(Standing::Inconclusive, conflicted, false);
    let ghost as_carried = standing_as(Standing::Carried, conflicted, false);
    let mut i: usize = 0;
    while i < rows.len()
        invariant
            i <= rows@.len(),
            all == views(rows@),
            missing == audited_as(Standing::Missing, conflicted, replays@),
            inconclusive == audited_as(Standing::Inconclusive, conflicted, replays@),
            as_missing == standing_as(Standing::Missing, conflicted, false),
            as_inconclusive == standing_as(Standing::Inconclusive, conflicted, false),
            as_carried == standing_as(Standing::Carried, conflicted, false),
            members@.filter_map(as_missing) == all.take(i as int).filter_map(missing),
            members@.filter_map(as_inconclusive) == all.take(i as int).filter_map(inconclusive),
            members@.filter_map(as_carried).len() == 0,
        decreases rows@.len() - i,
    {
        let row = &rows[i];
        proof {
            all.lemma_filter_map_take_succ(missing, i as int);
            all.lemma_filter_map_take_succ(inconclusive, i as int);
            assert(all[i as int] == row@);
        }
        if !row.base_parent {
            let replay = match replays.get(&row.commit) {
                Some(outcome) => *outcome,
                None => RebaseOutcome::CleanNonEmpty,
            };
            let ghost before = members@;
            let member = AuditedMember {
                name: member_label(row),
                replay,
                before: RebaseOutcome::Empty,
                changed: Vec::new(),
            };
            members.push(member);
            proof {
                assert(members@.drop_last() =~= before);
                let n = before.len() as int;
                members@.lemma_filter_map_take_succ(as_missing, n);
                members@.lemma_filter_map_take_succ(as_inconclusive, n);
                members@.lemma_filter_map_take_succ(as_carried, n);
                assert(members@.take(n) =~= before);
                assert(members@.take(n + 1) =~= members@);
            }
        }
        proof {
            assert(members@.filter_map(as_missing) =~= all.take(i + 1).filter_map(missing));
            assert(members@.filter_map(as_inconclusive) =~= all.take(i + 1).filter_map(inconclusive));
        }
        i += 1;
    }
    let audit = audit_cut(members.as_slice(), AuditContext { conflicted, previous: None });
    assert(views(audit.carried@).len() == audit.carried@.len());
    assert(views(audit.unexplained@).len() == audit.unexplained@.len());
    audit
}

/// The parents, holders, and optional content audit of a named release.
pub fn gather_members(input: MembersInput) -> (report: MembersReport)
    ensures
        report.repo@ == input.repo@,
        report.release@ == input.name@,
        report.commit@ == input.commit@,
        report.parent_count == input.parents@.len(),
        views(report.members@) == rows_of(input),
        report.notes@.len() == 0,
        views(report.problems@) == (match *input.trunk {
            Ok(_) => Seq::empty(),
            Err(error) => seq!["cannot resolve upstream trunk "@ + upstream_name(*input.entry) + ": "@ + error@],
        }),
        match report.audit {
            Some(audit) => {
                &&& input.verify
                &&& *input.trunk is Ok
                &&& views(audit.missing@) == rows_of(input).filter_map(
                    audited_as(Standing::Missing, input.conflicted, input.replays@),
                )
                &&& views(audit.inconclusive@) == rows_of(input).filter_map(
                    audited_as(Standing::Inconclusive, input.conflicted, input.replays@),
                )
                &&& audit.carried@.len() == 0
                &&& audit.unexplained@.len() == 0
            },
            None => !(input.verify && *input.trunk is Ok),
        },
{
    let mut problems: Vec<String> = Vec::new();
    let trunk: Option<&CommitId> = match input.trunk {
        Ok(tip) => Some(tip),
        Err(error) => {
            let mut problem = "cannot resolve upstream trunk ".to_owned();
            problem.append(input.entry.upstream_trunk().as_str());
            problem.append(": ");
            problem.append(error.as_str());
            problems.push(problem);
            assert(views(problems@) =~= seq![problem@]);
            None
        },
    };
    assert(view_of(trunk) == trunk_tip(*input.trunk));
    let nobody: Vec<(String, CommitId)> = Vec::new();
    let ghost all = rows_of(input);
    let mut members: Vec<MemberRow> = Vec::new();
    let mut i: usize = 0;
    while i < input.parents.len()
        invariant
            i <= input.parents@.len(),
            nobody@.len() == 0,
            view_of(trunk) == trunk_tip(*input.trunk),
            all == rows_of(input),
            views(members@) == all.take(i as int),
        decreases input.parents@.len() - i,
    {
        let parent = &input.parents[i];
        let successors: &Vec<(String, CommitId)> = match input.successors.get(&parent.commit) {
            Some(list) => list,
            None => &nobody,
        };
        assert(successors@ =~= successors_of(input.successors@, parent.commit@));
        let row = member_row(parent, trunk, input.graph, successors.as_slice());
        assert(row@ == all[i as int]);
        let ghost earlier = members@;
        members.push(row);
        assert(views(members@) =~= views(earlier).push(row@));
        assert(views(members@) =~= all.take(i + 1));
        i += 1;
    }
    assert(all.take(i as int) =~= all);
    assert(views(members@).len() == members@.len());
    let audit = if input.verify && trunk.is_some() {
        Some(audit_members(&members, input.conflicted, input.replays))
    } else {
        None
    };
    MembersReport {
        repo: input.repo.to_owned(),
        release: input.name.to_owned(),
        commit: input.commit.clone(),
        parent_count: members.len(),
        members,
        audit,
        notes: Vec::new(),
        problems,
    }
}

/// What holds a member, in words.
pub open spec fn held_text(member: MemberView) -> Seq<char> {
    let holders = joined(member.held_by, ", "@);
    if member.advanced.len() == 0 {
        holders
    } else if holders == ""@ {
        joined(member.advanced, ", "@)
    } else {
        holders + ", "@ + joined(member.advanced, ", "@)
    }
}

/// The line of a member.
pub open spec fn member_line(member: MemberView) -> Seq<char> {
    "- "@ + short_text(member.commit) + " "@ + (if held_text(member) == ""@ {
        "bare commit — nothing holds it"@
    } else {
        held_text(member)
    }) + (if member.base_parent {
        " (base parent)"@
    } else {
        ""@
    })
}

/// The lines of the members.
pub open spec fn member_lines(members: Seq<MemberView>) -> Seq<Seq<char>> {
    Seq::new(members.len(), |i: int| member_line(members[i]))
}

/// The label of a member whose content an audit found present.
pub open spec fn found_present(audit: CutAudit) -> spec_fn(MemberView) -> Option<Seq<char>> {
    |member: MemberView|
        {
            let label = label_of(member);
            if !member.base_parent && !views(audit.carried@).contains(label) && !views(audit.inconclusive@).contains(
                label,
            ) && !views(audit.missing@).contains(label) {
                Some(label)
            } else {
                None
            }
        }
}

/// The lines of an audit.
pub open spec fn audit_lines(audit: CutAudit, members: Seq<MemberView>) -> Seq<Seq<char>> {
    flanked(
        "  "@,
        views(audit.carried@),
        ": diverges where the previous release already did (a recorded resolution); carried forward"@,
    ) + flanked(
        "  "@,
        views(audit.inconclusive@),
        ": content check inconclusive (replay conflicted; re-check after resolving the cut's conflicts)"@,
    ) + flanked("  "@, members.filter_map(found_present(audit)), ": carried (replay empty)"@) + flanked(
        "  !! "@,
        views(audit.missing@),
        ": the cut tree is missing or diverges from the member's content"@,
    ) + flanked(
        "  !! "@,
        views(audit.unexplained@),
        ": changed between the previous release and this cut with no member or trunk explaining it"@,
    )
}

/// The lines of a report on members.
pub open spec fn members_lines(report: MembersReport) -> Seq<Seq<char>> {
    seq![
        report.release@ + " @ "@ + short_text(report.commit@) + " — "@ + decimal_text(report.parent_count as nat)
            + " parents"@,
    ] + member_lines(views(report.members@)) + (match report.audit {
        Some(audit) => audit_lines(audit, views(report.members@)),
        None => Seq::empty(),
    }) + marked("! "@, views(report.notes@)) + marked("!! "@, views(report.problems@))
}

fn describe(member: &MemberRow) -> (line: String)
    ensures
        line@ == member_line(member@),
{
    assert(member@.advanced.len() == member.advanced@.len());
    let mut held = join(&member.held_by, ", ");
    if member.advanced.len() > 0 {
        if !same(held.as_str(), "") {
            held.append(", ");
            held.append(join(&member.advanced, ", ").as_str());
        } else {
            held = join(&member.advanced, ", ");
        }
    }
    assert(held@ == held_text(member@));
    let mut line = "- ".to_owned();
    line.append(member.commit.short().as_str());
    line.append(" ");
    if same(held.as_str(), "") {
        line.append("bare commit — nothing holds it");
    } else {
        line.append(held.as_str());
    }
    if member.base_parent {
        line.append(" (base parent)");
    } else {
        line.append("");
    }
    line
}

fn present(audit: &CutAudit, members: &Vec<MemberRow>) -> (found: Vec<String>)
    ensures
        views(found@) == views(members@).filter_map(found_present(*audit)),
{
    let mut found: Vec<String> = Vec::new();
    let ghost all = views(members@);
    let mut i: usize = 0;
    while i < members.len()
        invariant
            i <= members@.len(),
            all == views(members@),
            views(found@) == all.take(i as int).filter_map(found_present(*audit)),
        decreases members@.len() - i,
    {
        proof {
            all.lemma_filter_map_take_succ(found_present(*audit), i as int);
            assert(all[i as int] == members@[i as int]@);
        }
        if !members[i].base_parent {
            let label = member_label(&members[i]);
            if !lists(&audit.carried, label.as_str()) && !lists(&audit.inconclusive, label.as_str()) && !lists(
                &audit.missing,
                label.as_str(),
            ) {
                found.push(label);
            }
        }
        assert(views(found@) =~= all.take(i + 1).filter_map(found_present(*audit)));
        i += 1;
    }
    found
}

fn push_audit(lines: &mut Vec<String>, audit: &CutAudit, members: &Vec<MemberRow>)
    ensures
        views(final(lines)@) == views(old(lines)@) + audit_lines(*audit, views(members@)),
{
    push_flanked(
        lines,
        "  ",
        audit.carried.as_slice(),
        ": diverges where the previous release already did (a recorded resolution); carried forward",
    );
    push_flanked(
        lines,
        "  ",
        audit.inconclusive.as_slice(),
        ": content check inconclusive (replay conflicted; re-check after resolving the cut's conflicts)",
    );
    let found = present(audit, members);
    push_flanked(lines, "  ", found.as_slice(), ": carried (replay empty)");
    push_flanked(
        lines,
        "  !! ",
        audit.missing.as_slice(),
        ": the cut tree is missing or diverges from the member's content",
    );
    push_flanked(
        lines,
        "  !! ",
        audit.unexplained.as_slice(),
        ": changed between the previous release and this cut with no member or trunk explaining it",
    );
    assert(views(lines@) =~= views(old(lines)@) + audit_lines(*audit, views(members@)));
}

/// A report on the members of a release in words, with an audit in the words of a cut.
pub fn render_members(report: &MembersReport) -> (text: String)
    ensures
        text@ == joined(members_lines(*report), "\n"@),
{
    let mut lines: Vec<String> = Vec::new();
    let mut head = report.release.clone();
    head.append(" @ ");
    head.append(report.commit.short().as_str());
    head.append(" — ");
    head.append(decimal(report.parent_count as u64).as_str());
    head.append(" parents");
    lines.push(head);
    let ghost opening = seq![head@];
    assert(views(lines@) =~= opening);
    let ghost all = member_lines(views(report.members@));
    let mut i: usize = 0;
    assert(opening + all.take(0) =~= opening);
    while i < report.members.len()
        invariant
            i <= report.members@.len(),
            all == member_lines(views(report.members@)),
            views(lines@) == opening + all.take(i as int),
        decreases report.members@.len() - i,
    {
        let line = describe(&report.members[i]);
        assert(views(report.members@)[i as int] == report.members@[i as int]@);
        assert(line@ == all[i as int]);
        let ghost earlier = lines@;
        lines.push(line);
        assert(views(lines@) =~= views(earlier).push(line@));
        assert(views(lines@) =~= opening + all.take(i + 1));
        i += 1;
    }
    assert(all.take(i as int) =~= all);
    if let Some(audit) = &report.audit {
        push_audit(&mut lines, audit, &report.members);
    }
    push_marked(&mut lines, "! ", report.notes.as_slice());
    push_marked(&mut lines, "!! ", report.problems.as_slice());
    assert(views(lines@) =~= members_lines(*report));
    join(&lines, "\n")
}

/// Which members a check names, and where: a base parent nowhere; any other one as inconclusive where
/// its replay is conflicted in a conflicted release, else as missing unless its replay is known to be
/// empty.
pub proof fn lemma_checked_members(
    members: Seq<MemberView>,
    conflicted: bool,
    replays: Seq<(CommitId, RebaseOutcome)>,
    label: Seq<char>,
)
    ensures
        members.filter_map(audited_as(Standing::Missing, conflicted, replays)).contains(label) <==> exists|i: int|
            0 <= i < members.len() && label_of(#[trigger] members[i]) == label && !members[i].base_parent && lookup(
                replays,
                ranks(members[i].commit),
            ) != Some(RebaseOutcome::Empty) && !(conflicted && lookup(replays, ranks(members[i].commit)) == Some(
                RebaseOutcome::Conflicted,
            )),
        members.filter_map(audited_as(Standing::Inconclusive, conflicted, replays)).contains(label) <==> exists|i: int|
            0 <= i < members.len() && label_of(#[trigger] members[i]) == label && !members[i].base_parent
                && conflicted && lookup(replays, ranks(members[i].commit)) == Some(RebaseOutcome::Conflicted),
{
    lemma_filter_map_has(members, audited_as(Standing::Missing, conflicted, replays), label);
    lemma_filter_map_has(members, audited_as(Standing::Inconclusive, conflicted, replays), label);
}

/// A member reads as carried exactly if it is no base parent and the check says nothing else of it.
pub proof fn lemma_present_is_unnamed(audit: CutAudit, member: MemberView)
    ensures
        found_present(audit)(member) is Some <==> !member.base_parent && !views(audit.missing@).contains(
            label_of(member),
        ) && !views(audit.inconclusive@).contains(label_of(member)) && !views(audit.carried@).contains(
            label_of(member),
        ),
        found_present(audit)(member) matches Some(label) ==> label == label_of(member),
{
}

/// A parent is a base parent exactly if the trunk is known and contains it; what holds it and where its
/// branches went are told as they are known.
pub proof fn lemma_base_parent_is_in_trunk(
    parent: ParentView,
    trunk: Option<Seq<char>>,
    graph: CommitGraph,
    successors: Seq<(String, CommitId)>,
)
    ensures
        row_of(parent, trunk, graph, successors).base_parent <==> trunk is Some && graph.reaches(
            parent.commit,
            trunk->0,
        ),
        row_of(parent, trunk, graph, successors).commit == parent.commit,
        row_of(parent, trunk, graph, successors).held_by.len() == parent.bookmarks.len(),
        row_of(parent, trunk, graph, successors).advanced.len() == successors.len(),
{
}

/// A member is labelled by what holds it, else by the branch that advanced past it, else by its commit
/// alone.
pub proof fn lemma_label_of_member(member: MemberView)
    ensures
        member.held_by.len() > 0 ==> label_of(member) == member.held_by[0] + "@"@ + short_text(member.commit),
        member.held_by.len() == 0 && member.advanced.len() == 0 ==> label_of(member) == short_text(member.commit),
{
}

/// A member's line tells what holds it and where its branches went, that nothing holds it exactly if neither
/// is known, and that it is a base parent exactly if it is one.
pub proof fn lemma_member_line(member: MemberView)
    ensures
        ({
            let end = if member.base_parent {
                " (base parent)"@
            } else {
                ""@
            };
            &&& member.held_by.len() == 0 && member.advanced.len() == 0 ==> member_line(member) == "- "@ + short_text(
                member.commit,
            ) + " "@ + "bare commit — nothing holds it"@ + end
            &&& member.advanced.len() == 0 && joined(member.held_by, ", "@) != ""@ ==> member_line(member) == "- "@
                + short_text(member.commit) + " "@ + joined(member.held_by, ", "@) + end
            &&& member.advanced.len() > 0 && joined(member.held_by, ", "@) != ""@ ==> held_text(member) == joined(
                member.held_by,
                ", "@,
            ) + ", "@ + joined(member.advanced, ", "@)
        }),
{
    reveal_strlit("");
    assert(Seq::<char>::empty() =~= ""@);
}

/// Every name of an audit has its line, in the words of what was found of it: losses and drift behind an
/// alarm, the rest without; and what is carried reads as such exactly if nothing else is said of it.
pub proof fn lemma_audit_is_told(audit: CutAudit, members: Seq<MemberView>)
    ensures
        forall|i: int|
            0 <= i < audit.carried@.len() ==> audit_lines(audit, members)[i] == "  "@ + (#[trigger] audit.carried@[i])@
                + ": diverges where the previous release already did (a recorded resolution); carried forward"@,
        forall|i: int|
            0 <= i < audit.inconclusive@.len() ==> audit_lines(audit, members)[audit.carried@.len() + i] == "  "@ + (
            #[trigger] audit.inconclusive@[i])@
                + ": content check inconclusive (replay conflicted; re-check after resolving the cut's conflicts)"@,
        forall|i: int|
            0 <= i < audit.missing@.len() ==> audit_lines(audit, members)[audit.carried@.len()
                + audit.inconclusive@.len() + members.filter_map(found_present(audit)).len() + i] == "  !! "@ + (
            #[trigger] audit.missing@[i])@ + ": the cut tree is missing or diverges from the member's content"@,
        forall|i: int|
            0 <= i < audit.unexplained@.len() ==> audit_lines(audit, members)[audit.carried@.len()
                + audit.inconclusive@.len() + members.filter_map(found_present(audit)).len() + audit.missing@.len() + i]
                == "  !! "@ + (#[trigger] audit.unexplained@[i])@
                + ": changed between the previous release and this cut with no member or trunk explaining it"@,
        audit_lines(audit, members).len() == audit.carried@.len() + audit.inconclusive@.len() + members.filter_map(
            found_present(audit),
        ).len() + audit.missing@.len() + audit.unexplained@.len(),
{
}

/// A member that nothing holds is labelled by the branch that moved on from it.
pub proof fn lemma_label_of_advanced_member(member: MemberView, branch: Seq<char>, target: Seq<char>)
    requires
        member.held_by.len() == 0,
        member.advanced.len() > 0,
        member.advanced[0] == branch + " advanced to "@ + target,
        !branch.contains(' '),
    ensures
        label_of(member) == branch + "@"@ + short_text(member.commit),
{
    let text = member.advanced[0];
    let needle = " advanced to "@;
    let at: int = branch.len() as int;
    reveal_strlit(" advanced to ");
    assert(text.subrange(at, at + needle.len()) =~= needle);
    assert forall|i: int|
        #![trigger text.subrange(i, i + needle.len())]
        0 <= i < at implies text.subrange(i, i + needle.len()) != needle by {
        assert(branch.contains(branch[i]));
        assert(text.subrange(i, i + needle.len())[0] == branch[i]);
    }
    lemma_first_match_at(text, needle, 0, at);
    assert(text.take(at) =~= branch);
}

} // verus!
