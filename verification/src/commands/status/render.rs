//! The status of a repository in words.

use vstd::prelude::*;
use vstd::string::*;

use crate::columns::{align, align_right, aligned, cells, right_aligned};
use crate::commands::status::{
    cap, capped, BranchRow, BranchState, ClaimView, FindingGroup, GroupView, LastNotch, NotchView, PriorView, PullCell,
    PullCellView, PushRelation, PushView, RepoNotches, Report, RowView, SeenWindow,
};
use crate::detect::{pull_label, FindingKind};
use crate::ids::{short_id, short_text};
use crate::ledger::{inline_human_text, inline_text};
use crate::order::{lookup, OrdMap, Ordered};
use crate::pieces::{words, words_of};
use crate::seqs::{gathered, group_seqs, lemma_gathered_next, lemma_take_next, listed, view_of, views};
use crate::text::{decimal, decimal_text, join, joined, ranks, same};

verus! {

/// How long ago each timestamp of a report was, in words. A timestamp that is no timestamp has no
/// age.
pub type Ages = OrdMap<String, String>;

/// How long ago a timestamp was.
pub open spec fn age_of(ages: Seq<(String, String)>, at: Seq<char>) -> Option<Seq<char>> {
    match lookup(ages, ranks(at)) {
        Some(age) => Some(age@),
        None => None,
    }
}

fn age<'a>(ages: &'a Ages, at: &str) -> (age: Option<&'a String>)
    ensures
        view_of(age) == age_of(ages@, at@),
{
    let key = at.to_owned();
    assert(key.rank() == ranks(at@));
    ages.get(&key)
}

/// The tip column.
pub open spec fn tip_text(row: RowView) -> Seq<char> {
    match row.tip {
        Some(tip) => tip,
        None => if row.state == BranchState::Divergent {
            "divergent"@
        } else {
            "-"@
        },
    }
}

fn tip_cell(row: &BranchRow) -> (cell: String)
    ensures
        cell@ == tip_text(row@),
{
    match &row.tip {
        Some(tip) => tip.clone(),
        None => {
            if row.state == BranchState::Divergent {
                "divergent".to_owned()
            } else {
                "-".to_owned()
            }
        },
    }
}

/// The push column.
pub open spec fn push_text(push: Option<PushView>) -> Seq<char> {
    match push {
        None => "pushed"@,
        Some(PushView::Unpushed) => "unpushed"@,
        Some(PushView::UnpushedCommits) => "unpushed-commits"@,
        Some(PushView::Behind(origin)) => "origin="@ + origin + " ("@ + "behind"@ + ")"@,
        Some(PushView::Diverged(origin)) => "origin="@ + origin + " ("@ + "diverged"@ + ")"@,
        Some(PushView::Unresolved(origin)) => "origin="@ + origin + " ("@ + "unresolved"@ + ")"@,
    }
}

fn origin_relation_cell(origin: &str, relation: &str) -> (cell: String)
    ensures
        cell@ == "origin="@ + origin@ + " ("@ + relation@ + ")"@,
{
    let mut cell = "origin=".to_owned();
    cell.append(origin);
    cell.append(" (");
    cell.append(relation);
    cell.append(")");
    cell
}

fn push_cell(push: &Option<PushRelation>) -> (cell: String)
    ensures
        cell@ == push_text(view_of(*push)),
{
    match push {
        None => "pushed".to_owned(),
        Some(PushRelation::Unpushed) => "unpushed".to_owned(),
        Some(PushRelation::UnpushedCommits) => "unpushed-commits".to_owned(),
        Some(PushRelation::Behind(origin)) => origin_relation_cell(origin.as_str(), "behind"),
        Some(PushRelation::Diverged(origin)) => origin_relation_cell(origin.as_str(), "diverged"),
        Some(PushRelation::Unresolved(origin)) => origin_relation_cell(origin.as_str(), "unresolved"),
    }
}

/// A shadowed pull request in words.
pub open spec fn prior_text(prior: PriorView) -> Seq<char> {
    "prior #"@ + decimal_text(prior.number as nat) + " "@ + prior.state
}

/// Shadowed pull requests in words.
pub open spec fn prior_texts(prior: Seq<PriorView>) -> Seq<Seq<char>> {
    Seq::new(prior.len(), |i: int| prior_text(prior[i]))
}

/// How long ago the pull request last moved, in words.
pub open spec fn activity_text(pull: PullCellView, ages: Seq<(String, String)>) -> Option<Seq<char>> {
    match pull.activity_at {
        Some(at) => match age_of(ages, at) {
            Some(age) => if pull.state == "open"@ {
                Some("(activity "@ + age + ")"@)
            } else {
                None
            },
            None => None,
        },
        None => None,
    }
}

/// What the pull request column is made of: the number, anything unusual about it, and how long ago
/// it last moved. A comment-only review leaves the review decision empty, so without the age a row
/// can read unchanged for days while the conversation on it moved on.
pub open spec fn pull_parts(pull: PullCellView, ages: Seq<(String, String)>) -> Seq<Seq<char>> {
    seq!["#"@ + decimal_text(pull.number as nat)] + (if pull.state != "open"@ && pull.state != "unknown"@ {
        seq![pull.state]
    } else {
        Seq::empty()
    }) + (if pull.draft {
        seq!["draft"@]
    } else {
        Seq::empty()
    }) + (if pull.stated == Some(true) {
        seq!["(stated)"@]
    } else {
        Seq::empty()
    }) + listed(activity_text(pull, ages)) + prior_texts(pull.prior)
}

/// The pull request column.
pub open spec fn pull_text(pr: Option<PullCellView>, ages: Seq<(String, String)>) -> Seq<char> {
    match pr {
        Some(pull) => joined(pull_parts(pull, ages), " "@),
        None => "-"@,
    }
}

fn add_prior(parts: &mut Vec<String>, pull: &PullCell)
    ensures
        views(final(parts)@) == views(old(parts)@) + prior_texts(pull@.prior),
{
    broadcast use group_seqs;

    let ghost before = views(parts@);
    let ghost all = prior_texts(pull@.prior);
    let mut i: usize = 0;
    while i < pull.prior.len()
        invariant
            i <= pull.prior@.len(),
            all == prior_texts(pull@.prior),
            views(parts@) == before + all.take(i as int),
        decreases pull.prior@.len() - i,
    {
        let prior = &pull.prior[i];
        let mut part = "prior #".to_owned();
        part.append(decimal(prior.number).as_str());
        part.append(" ");
        part.append(prior.state.as_str());
        proof {
            assert(pull@.prior[i as int] == prior@);
            assert(part@ == all[i as int]);
            lemma_take_next(all, i as int);
        }
        let ghost earlier = parts@;
        parts.push(part);
        assert(views(parts@) =~= views(earlier).push(part@));
        i += 1;
        assert(views(parts@) =~= before + all.take(i as int));
    }
    assert(all.take(i as int) =~= all);
}

fn pull_cell(pr: &Option<PullCell>, ages: &Ages) -> (cell: String)
    ensures
        cell@ == pull_text(view_of(*pr), ages@),
{
    broadcast use group_seqs;

    let pull = match pr {
        Some(pull) => pull,
        None => return "-".to_owned(),
    };
    let mut parts: Vec<String> = Vec::new();
    parts.push(pull_label(pull.number));
    let ghost one = seq!["#"@ + decimal_text(pull.number as nat)];
    assert(views(parts@) =~= one);
    let open = same(pull.state.as_str(), "open");
    if !open && !same(pull.state.as_str(), "unknown") {
        parts.push(pull.state.clone());
    }
    let ghost two = one + (if pull.state@ != "open"@ && pull.state@ != "unknown"@ {
        seq![pull.state@]
    } else {
        Seq::empty()
    });
    assert(views(parts@) =~= two);
    if pull.draft {
        parts.push("draft".to_owned());
    }
    let ghost three = two + (if pull.draft {
        seq!["draft"@]
    } else {
        Seq::empty()
    });
    assert(views(parts@) =~= three);
    if let Some(true) = pull.stated {
        parts.push("(stated)".to_owned());
    }
    let ghost four = three + (if pull.stated == Some(true) {
        seq!["(stated)"@]
    } else {
        Seq::empty()
    });
    assert(views(parts@) =~= four);
    if open {
        if let Some(at) = &pull.activity_at {
            if let Some(age) = age(ages, at.as_str()) {
                let mut part = "(activity ".to_owned();
                part.append(age.as_str());
                part.append(")");
                parts.push(part);
            }
        }
    }
    assert(views(parts@) =~= four + listed(activity_text(pull@, ages@)));
    add_prior(&mut parts, pull);
    assert(views(parts@) =~= pull_parts(pull@, ages@));
    join(&parts, " ")
}

/// A column that may be empty.
pub open spec fn option_text(value: Option<Seq<char>>) -> Seq<char> {
    match value {
        Some(text) => text,
        None => "-"@,
    }
}

fn option_cell(value: &Option<String>) -> (cell: String)
    ensures
        cell@ == option_text(view_of(*value)),
{
    match value {
        Some(text) => text.clone(),
        None => "-".to_owned(),
    }
}

/// The landed column.
pub open spec fn landed_text(row: RowView) -> Seq<char> {
    match row.landed {
        Some(verdict) => verdict.label(),
        None => "-"@,
    }
}

fn landed_cell(row: &BranchRow) -> (cell: String)
    ensures
        cell@ == landed_text(row@),
{
    match &row.landed {
        Some(verdict) => verdict.as_str().to_owned(),
        None => "-".to_owned(),
    }
}

/// The claim column.
pub open spec fn claim_text(claim: Option<ClaimView>) -> Seq<char> {
    match claim {
        Some(claim) => short_text(claim.id) + "/"@ + claim.kind.label(),
        None => "-"@,
    }
}

fn claim_cell(row: &BranchRow) -> (cell: String)
    ensures
        cell@ == claim_text(row@.claim),
{
    match &row.claim {
        Some(claim) => {
            let mut cell = short_id(claim.id.as_str());
            cell.append("/");
            cell.append(claim.kind.as_str());
            cell
        },
        None => "-".to_owned(),
    }
}

/// The seen column: how long ago the owner was seen, else why there is no sighting.
pub open spec fn seen_text(row: RowView, ages: Seq<(String, String)>) -> Seq<char> {
    match row.last_seen {
        Some(at) => match age_of(ages, at) {
            Some(age) => age,
            None => at,
        },
        None => match row.seen {
            Some(SeenWindow::NoneSinceClaim) => "none-since-claim"@,
            Some(SeenWindow::NoneWithinWindow) => "none-within-window"@,
            None => "-"@,
        },
    }
}

fn seen_cell(row: &BranchRow, ages: &Ages) -> (cell: String)
    ensures
        cell@ == seen_text(row@, ages@),
{
    if let Some(at) = &row.last_seen {
        return match age(ages, at.as_str()) {
            Some(age) => age.clone(),
            None => at.clone(),
        };
    }
    match row.seen {
        Some(SeenWindow::NoneSinceClaim) => "none-since-claim".to_owned(),
        Some(SeenWindow::NoneWithinWindow) => "none-within-window".to_owned(),
        None => "-".to_owned(),
    }
}

/// How much of an entry's text a branch line carries.
pub const NOTCH_TEXT: usize = 32;

/// The words of an entry, behind its disposition.
pub open spec fn notch_words(notch: NotchView) -> Seq<char> {
    match notch.disposition {
        Some(disposition) => inline_text(disposition) + ":"@ + notch.text,
        None => notch.text,
    }
}

/// Where an entry was written, in words.
pub open spec fn anchor_text(notch: NotchView) -> Seq<char> {
    match notch.anchor {
        Some(anchor) => " @"@ + anchor,
        None => Seq::empty(),
    }
}

/// An entry in short: its words, its age, and the tip it was written against, which lets a reader
/// tell an entry that still describes this branch from one that described an earlier tip; and how
/// many entries it masks.
pub open spec fn notch_text(notch: NotchView, ages: Seq<(String, String)>) -> Seq<char> {
    let shown = "\""@ + capped(inline_text(notch_words(notch)), NOTCH_TEXT as nat) + "\""@;
    let summary = match age_of(ages, notch.ts) {
        Some(age) => shown + " ("@ + age + anchor_text(notch) + ")"@,
        None => shown + anchor_text(notch),
    };
    if notch.count > 1 {
        summary + "+"@ + decimal_text((notch.count - 1) as nat)
    } else {
        summary
    }
}

fn notch_summary(notch: &LastNotch, ages: &Ages) -> (text: String)
    ensures
        text@ == notch_text(notch@, ages@),
{
    let said = match &notch.disposition {
        Some(disposition) => {
            let mut said = inline_human_text(disposition.as_str());
            said.append(":");
            said.append(notch.text.as_str());
            said
        },
        None => notch.text.clone(),
    };
    let escaped = inline_human_text(said.as_str());
    let mut text = "\"".to_owned();
    text.append(cap(escaped.as_str(), NOTCH_TEXT).as_str());
    text.append("\"");
    let mut anchor = String::new();
    if let Some(at) = &notch.anchor {
        anchor = " @".to_owned();
        anchor.append(at.as_str());
    }
    assert(anchor@ =~= anchor_text(notch@));
    match age(ages, notch.ts.as_str()) {
        Some(age) => {
            text.append(" (");
            text.append(age.as_str());
            text.append(anchor.as_str());
            text.append(")");
        },
        None => {
            text.append(anchor.as_str());
        },
    }
    if notch.count > 1 {
        text.append("+");
        text.append(decimal((notch.count - 1) as u64).as_str());
    }
    text
}

/// The ledger column.
pub open spec fn notch_column(notch: Option<NotchView>, ages: Seq<(String, String)>) -> Seq<char> {
    match notch {
        Some(notch) => notch_text(notch, ages),
        None => "-"@,
    }
}

fn notch_cell(row: &BranchRow, ages: &Ages) -> (cell: String)
    ensures
        cell@ == notch_column(row@.notch, ages@),
{
    match &row.notch {
        Some(notch) => notch_summary(notch, ages),
        None => "-".to_owned(),
    }
}

/// The names of the columns.
pub open spec fn header() -> Seq<Seq<char>> {
    seq![
        "branch"@,
        "state"@,
        "tip"@,
        "push"@,
        "pr"@,
        "review"@,
        "checks"@,
        "landed"@,
        "claim"@,
        "seen"@,
        "notch"@,
    ]
}

/// The cells of a row.
pub open spec fn row_cells(row: RowView, ages: Seq<(String, String)>) -> Seq<Seq<char>> {
    seq![
        row.name,
        row.state.label(),
        tip_text(row),
        push_text(row.push),
        pull_text(row.pr, ages),
        option_text(row.review),
        option_text(row.checks),
        landed_text(row),
        claim_text(row.claim),
        seen_text(row, ages),
        notch_column(row.notch, ages),
    ]
}

/// The cells of the table, its header first.
pub open spec fn table_of(rows: Seq<RowView>, ages: Seq<(String, String)>) -> Seq<Seq<Seq<char>>> {
    seq![header()] + Seq::new(rows.len(), |i: int| row_cells(rows[i], ages))
}

fn header_cells() -> (names: Vec<String>)
    ensures
        views(names@) == header(),
{
    let mut names: Vec<String> = Vec::new();
    names.push("branch".to_owned());
    names.push("state".to_owned());
    names.push("tip".to_owned());
    names.push("push".to_owned());
    names.push("pr".to_owned());
    names.push("review".to_owned());
    names.push("checks".to_owned());
    names.push("landed".to_owned());
    names.push("claim".to_owned());
    names.push("seen".to_owned());
    names.push("notch".to_owned());
    assert(views(names@) =~= header());
    names
}

fn cells_of(row: &BranchRow, ages: &Ages) -> (texts: Vec<String>)
    ensures
        views(texts@) == row_cells(row@, ages@),
{
    let mut texts: Vec<String> = Vec::new();
    texts.push(row.name.text.clone());
    texts.push(row.state.as_str().to_owned());
    texts.push(tip_cell(row));
    texts.push(push_cell(&row.push));
    texts.push(pull_cell(&row.pr, ages));
    texts.push(option_cell(&row.review));
    texts.push(option_cell(&row.checks));
    texts.push(landed_cell(row));
    texts.push(claim_cell(row));
    texts.push(seen_cell(row, ages));
    texts.push(notch_cell(row, ages));
    assert(views(texts@) =~= row_cells(row@, ages@));
    texts
}

/// The table of the branches: its header, and one line for each.
pub fn branch_table(rows: &Vec<BranchRow>, ages: &Ages) -> (lines: Vec<String>)
    ensures
        views(lines@) == aligned(table_of(views(rows@), ages@)),
{
    let mut table: Vec<Vec<String>> = Vec::new();
    table.push(header_cells());
    let ghost all = table_of(views(rows@), ages@);
    assert(cells(table@) =~= all.take(1));
    let mut i: usize = 0;
    while i < rows.len()
        invariant
            i <= rows@.len(),
            all == table_of(views(rows@), ages@),
            cells(table@) == all.take(i + 1),
        decreases rows@.len() - i,
    {
        let texts = cells_of(&rows[i], ages);
        let ghost before = table@;
        proof {
            assert(views(rows@)[i as int] == rows@[i as int]@);
            assert(all[i + 1] == row_cells(rows@[i as int]@, ages@));
        }
        table.push(texts);
        assert(cells(table@) =~= cells(before).push(views(texts@)));
        i += 1;
        assert(cells(table@) =~= all.take(i + 1));
    }
    assert(all.take(i + 1) =~= all);
    align(&table)
}

/// How many subjects the view of one line per kind names.
pub const SUBJECTS_PER_LINE: usize = 8;

/// The findings of one kind, as they are shown.
#[derive(Debug, PartialEq, Eq)]
pub struct FindingSummary {
    pub kind: FindingKind,
    pub count: usize,
    pub subjects: Vec<String>,
    pub details: Vec<String>,
}

/// What is shown of the findings of one kind.
pub struct SummaryView {
    pub kind: FindingKind,
    pub count: nat,
    pub subjects: Seq<Seq<char>>,
    pub details: Seq<Seq<char>>,
}

impl View for FindingSummary {
    type V = SummaryView;

    open spec fn view(&self) -> SummaryView {
        SummaryView {
            kind: self.kind,
            count: self.count as nat,
            subjects: views(self.subjects@),
            details: views(self.details@),
        }
    }
}

/// What is shown of a group of findings: all of them.
pub open spec fn shown_group(group: GroupView) -> SummaryView {
    SummaryView {
        kind: group.kind,
        count: group.items.len(),
        subjects: Seq::new(group.items.len(), |i: int| group.items[i].subject),
        details: Seq::new(group.items.len(), |i: int| group.items[i].detail),
    }
}

/// What is shown of groups of findings.
pub open spec fn shown_groups(groups: Seq<GroupView>) -> Seq<SummaryView> {
    Seq::new(groups.len(), |i: int| shown_group(groups[i]))
}

fn summarize(group: &FindingGroup) -> (summary: FindingSummary)
    ensures
        summary@ == shown_group(group@),
{
    broadcast use group_seqs;

    let mut subjects: Vec<String> = Vec::new();
    let mut details: Vec<String> = Vec::new();
    let ghost whole = shown_group(group@);
    let mut i: usize = 0;
    while i < group.items.len()
        invariant
            i <= group.items@.len(),
            whole == shown_group(group@),
            views(subjects@) == whole.subjects.take(i as int),
            views(details@) == whole.details.take(i as int),
        decreases group.items@.len() - i,
    {
        proof {
            assert(group@.items[i as int] == group.items@[i as int]@);
            lemma_take_next(whole.subjects, i as int);
            lemma_take_next(whole.details, i as int);
        }
        subjects.push(group.items[i].subject.clone());
        details.push(group.items[i].detail.clone());
        i += 1;
    }
    let summary = FindingSummary { kind: group.kind, count: group.items.len(), subjects, details };
    assert(summary@.subjects =~= whole.subjects);
    assert(summary@.details =~= whole.details);
    summary
}

/// What is shown of groups of findings.
pub fn summaries(groups: &Vec<FindingGroup>) -> (shown: Vec<FindingSummary>)
    ensures
        views(shown@) == shown_groups(views(groups@)),
{
    broadcast use group_seqs;

    let mut shown: Vec<FindingSummary> = Vec::new();
    let ghost all = shown_groups(views(groups@));
    let mut i: usize = 0;
    while i < groups.len()
        invariant
            i <= groups@.len(),
            all == shown_groups(views(groups@)),
            views(shown@) == all.take(i as int),
        decreases groups@.len() - i,
    {
        proof {
            assert(views(groups@)[i as int] == groups@[i as int]@);
            lemma_take_next(all, i as int);
        }
        shown.push(summarize(&groups[i]));
        i += 1;
    }
    shown
}

/// One finding on a line of its own.
pub open spec fn verbose_line(group: SummaryView, i: int) -> Seq<char> {
    let head = "    "@ + group.kind.label() + "  "@ + group.subjects[i];
    if i < group.details.len() && group.details[i].len() > 0 {
        head + ": "@ + group.details[i]
    } else {
        head
    }
}

/// The findings of one kind, one line for each.
pub open spec fn verbose_lines() -> spec_fn(SummaryView) -> Seq<Seq<char>> {
    |group: SummaryView| Seq::new(group.subjects.len(), |i: int| verbose_line(group, i))
}

/// The subjects that are named of a kind.
pub open spec fn named_subjects(group: SummaryView) -> Seq<Seq<char>> {
    if group.subjects.len() > SUBJECTS_PER_LINE {
        group.subjects.take(SUBJECTS_PER_LINE as int)
    } else {
        group.subjects
    }
}

/// The findings of one kind on one line: how many, the first subjects, and how many more.
pub open spec fn kind_line(group: SummaryView) -> Seq<char> {
    let shown = named_subjects(group);
    let line = "    "@ + group.kind.label() + "  "@ + right_aligned(decimal_text(group.count), 3) + "  "@ + joined(
        shown,
        ", "@,
    );
    if group.count > shown.len() {
        line + ", and "@ + decimal_text((group.count - shown.len()) as nat) + " more"@
    } else {
        line
    }
}

/// The findings in words: one line for each, or one line for each kind.
pub open spec fn findings_text(groups: Seq<SummaryView>, verbose: bool) -> Seq<Seq<char>> {
    if verbose {
        gathered(groups, verbose_lines())
    } else {
        Seq::new(groups.len(), |i: int| kind_line(groups[i]))
    }
}

fn one_by_one(group: &FindingSummary) -> (lines: Vec<String>)
    ensures
        views(lines@) == verbose_lines()(group@),
{
    broadcast use group_seqs;

    let mut lines: Vec<String> = Vec::new();
    let ghost all = verbose_lines()(group@);
    let mut i: usize = 0;
    while i < group.subjects.len()
        invariant
            i <= group.subjects@.len(),
            all == verbose_lines()(group@),
            views(lines@) == all.take(i as int),
        decreases group.subjects@.len() - i,
    {
        let mut line = "    ".to_owned();
        line.append(group.kind.as_str());
        line.append("  ");
        line.append(group.subjects[i].as_str());
        proof {
            assert(group@.subjects[i as int] == group.subjects@[i as int]@);
            if i < group.details@.len() {
                assert(group@.details[i as int] == group.details@[i as int]@);
            }
            lemma_take_next(all, i as int);
        }
        if i < group.details.len() {
            if !group.details[i].as_str().is_empty() {
                line.append(": ");
                line.append(group.details[i].as_str());
            }
        }
        assert(line@ == verbose_line(group@, i as int));
        let ghost before = lines@;
        lines.push(line);
        assert(views(lines@) =~= views(before).push(line@));
        i += 1;
    }
    lines
}

fn in_one_line(group: &FindingSummary) -> (line: String)
    ensures
        line@ == kind_line(group@),
{
    broadcast use group_seqs;

    let mut shown: Vec<String> = Vec::new();
    let total = group.subjects.len();
    let limit: usize = if total > SUBJECTS_PER_LINE {
        SUBJECTS_PER_LINE
    } else {
        total
    };
    let ghost all = group@.subjects;
    let mut i: usize = 0;
    while i < limit
        invariant
            i <= limit <= group.subjects@.len(),
            all == views(group.subjects@),
            views(shown@) == all.take(i as int),
        decreases limit - i,
    {
        proof {
            lemma_take_next(all, i as int);
        }
        shown.push(group.subjects[i].clone());
        i += 1;
    }
    assert(views(shown@) =~= named_subjects(group@));
    assert(shown@.len() == views(shown@).len());
    let mut line = "    ".to_owned();
    line.append(group.kind.as_str());
    line.append("  ");
    line.append(align_right(decimal(group.count as u64).as_str(), 3).as_str());
    line.append("  ");
    line.append(join(&shown, ", ").as_str());
    if group.count > shown.len() {
        line.append(", and ");
        line.append(decimal((group.count - shown.len()) as u64).as_str());
        line.append(" more");
    }
    line
}

/// The findings in words: one line for each, or one line for each kind.
pub fn finding_lines(groups: &Vec<FindingSummary>, verbose: bool) -> (lines: Vec<String>)
    ensures
        views(lines@) == findings_text(views(groups@), verbose),
{
    broadcast use group_seqs;

    let mut lines: Vec<String> = Vec::new();
    let ghost all = views(groups@);
    let ghost short = Seq::new(all.len(), |i: int| kind_line(all[i]));
    let mut i: usize = 0;
    while i < groups.len()
        invariant
            i <= groups@.len(),
            all == views(groups@),
            short == Seq::new(all.len(), |i: int| kind_line(all[i])),
            verbose ==> views(lines@) == gathered(all.take(i as int), verbose_lines()),
            !verbose ==> views(lines@) == short.take(i as int),
        decreases groups@.len() - i,
    {
        proof {
            assert(all[i as int] == groups@[i as int]@);
            lemma_gathered_next(all, verbose_lines(), i as int);
            lemma_take_next(short, i as int);
        }
        if verbose {
            let mut more = one_by_one(&groups[i]);
            lines.append(&mut more);
        } else {
            lines.push(in_one_line(&groups[i]));
        }
        i += 1;
    }
    assert(all.take(i as int) =~= all);
    assert(short.take(i as int) =~= short);
    lines
}

/// The first line of the report.
pub open spec fn head_line(report: Report) -> Seq<char> {
    report.repo@ + "  trunk "@ + report.trunk@ + "  release "@ + (match report.newest_release {
        Some(release) => release@,
        None => "none"@,
    }) + "  forge "@ + (if report.forge.consulted {
        "consulted"@
    } else {
        "not consulted"@
    }) + " ("@ + decimal_text(report.forge.elapsed_ms as nat) + "ms)"@
}

/// Lines, each behind a lead.
pub open spec fn led(lead: Seq<char>, texts: Seq<Seq<char>>) -> Seq<Seq<char>> {
    Seq::new(texts.len(), |i: int| lead + texts[i])
}

/// Texts, each on one line with its white space collapsed.
pub open spec fn one_line_each(texts: Seq<Seq<char>>) -> Seq<Seq<char>> {
    Seq::new(texts.len(), |i: int| joined(words_of(texts[i]), " "@))
}

/// A section: a heading with the number of its lines, and the lines; nothing where there are none.
pub open spec fn section(heading: Seq<char>, lines: Seq<Seq<char>>) -> Seq<Seq<char>> {
    if lines.len() == 0 {
        Seq::empty()
    } else {
        seq![heading + decimal_text(lines.len())] + lines
    }
}

/// The line about the repository's own entries.
pub open spec fn notches_lines(notches: Option<RepoNotches>, ages: Seq<(String, String)>) -> Seq<Seq<char>> {
    match notches {
        Some(notches) => seq![
            "  notches  "@ + decimal_text(notches.count as nat) + " repo-level, newest: "@ + notch_text(
                notches.last@,
                ages,
            ),
        ],
        None => Seq::empty(),
    }
}

/// The report in words, line by line.
pub open spec fn report_lines(report: Report, verbose: bool, ages: Seq<(String, String)>) -> Seq<Seq<char>> {
    seq![head_line(report)] + section(
        "  UNANSWERED  "@,
        led("    "@, one_line_each(views(report.problems@))),
    ) + seq!["  branches    "@ + decimal_text(report.branches@.len())] + (if report.branches@.len() > 0 {
        aligned(table_of(views(report.branches@), ages))
    } else {
        Seq::empty()
    }) + seq!["  findings    "@ + decimal_text(report.findings@.len())] + findings_text(
        shown_groups(views(report.findings@)),
        verbose,
    ) + notches_lines(report.repo_notches, ages) + (if report.other_workspaces@.len() > 0 {
        seq![
            "  workspaces  "@ + decimal_text(report.other_workspaces@.len()) + " not named for a branch above: "@
                + joined(views(report.other_workspaces@), ", "@),
        ]
    } else {
        Seq::empty()
    }) + section("  notes       "@, led("    "@, views(report.notes@)))
}

fn lead_lines(lead: &str, texts: &Vec<String>) -> (lines: Vec<String>)
    ensures
        views(lines@) == led(lead@, views(texts@)),
{
    broadcast use group_seqs;

    let mut lines: Vec<String> = Vec::new();
    let ghost all = led(lead@, views(texts@));
    let mut i: usize = 0;
    while i < texts.len()
        invariant
            i <= texts@.len(),
            all == led(lead@, views(texts@)),
            views(lines@) == all.take(i as int),
        decreases texts@.len() - i,
    {
        proof {
            assert(views(texts@)[i as int] == texts@[i as int]@);
            lemma_take_next(all, i as int);
        }
        let mut line = lead.to_owned();
        line.append(texts[i].as_str());
        lines.push(line);
        i += 1;
    }
    lines
}

fn collapse_each(texts: &Vec<String>) -> (lines: Vec<String>)
    ensures
        views(lines@) == one_line_each(views(texts@)),
{
    broadcast use group_seqs;

    let mut lines: Vec<String> = Vec::new();
    let ghost all = one_line_each(views(texts@));
    let mut i: usize = 0;
    while i < texts.len()
        invariant
            i <= texts@.len(),
            all == one_line_each(views(texts@)),
            views(lines@) == all.take(i as int),
        decreases texts@.len() - i,
    {
        proof {
            assert(views(texts@)[i as int] == texts@[i as int]@);
            lemma_take_next(all, i as int);
        }
        lines.push(join(&words(texts[i].as_str()), " "));
        i += 1;
    }
    lines
}

fn add_section(lines: &mut Vec<String>, heading: &str, entries: Vec<String>)
    ensures
        views(final(lines)@) == views(old(lines)@) + section(heading@, views(entries@)),
{
    broadcast use group_seqs;

    let ghost before = views(lines@);
    let ghost added = views(entries@);
    assert(added.len() == entries@.len());
    let mut entries = entries;
    if entries.len() > 0 {
        let mut first = heading.to_owned();
        first.append(decimal(entries.len() as u64).as_str());
        lines.push(first);
        lines.append(&mut entries);
        assert(views(lines@) =~= before + (seq![heading@ + decimal_text(added.len())] + added));
    } else {
        assert(views(lines@) =~= before + section(heading@, added));
    }
}

fn counted_line(heading: &str, count: usize) -> (line: String)
    ensures
        line@ == heading@ + decimal_text(count as nat),
{
    let mut line = heading.to_owned();
    line.append(decimal(count as u64).as_str());
    line
}

fn head(report: &Report) -> (line: String)
    ensures
        line@ == head_line(*report),
{
    let mut line = report.repo.clone();
    line.append("  trunk ");
    line.append(report.trunk.as_str());
    line.append("  release ");
    match &report.newest_release {
        Some(release) => line.append(release.as_str()),
        None => line.append("none"),
    }
    line.append("  forge ");
    if report.forge.consulted {
        line.append("consulted");
    } else {
        line.append("not consulted");
    }
    line.append(" (");
    line.append(decimal(report.forge.elapsed_ms).as_str());
    line.append("ms)");
    line
}

/// The report in words.
pub fn render(report: &Report, verbose: bool, ages: &Ages) -> (text: String)
    ensures
        text@ == joined(report_lines(*report, verbose, ages@), "\n"@),
{
    broadcast use group_seqs;

    let mut lines: Vec<String> = Vec::new();
    lines.push(head(report));
    let ghost one = seq![head_line(*report)];
    assert(views(lines@) =~= one);
    let problems = collapse_each(&report.problems);
    add_section(&mut lines, "  UNANSWERED  ", lead_lines("    ", &problems));
    let ghost two = one + section("  UNANSWERED  "@, led("    "@, one_line_each(views(report.problems@))));
    assert(views(lines@) =~= two);
    lines.push(counted_line("  branches    ", report.branches.len()));
    let ghost three = two + seq!["  branches    "@ + decimal_text(report.branches@.len())];
    assert(views(lines@) =~= three);
    if report.branches.len() > 0 {
        let mut table = branch_table(&report.branches, ages);
        lines.append(&mut table);
    }
    let ghost four = three + (if report.branches@.len() > 0 {
        aligned(table_of(views(report.branches@), ages@))
    } else {
        Seq::empty()
    });
    assert(views(lines@) =~= four);
    lines.push(counted_line("  findings    ", report.findings.len()));
    let ghost five = four + seq!["  findings    "@ + decimal_text(report.findings@.len())];
    assert(views(lines@) =~= five);
    let mut found = finding_lines(&summaries(&report.findings), verbose);
    lines.append(&mut found);
    let ghost six = five + findings_text(shown_groups(views(report.findings@)), verbose);
    assert(views(lines@) =~= six);
    if let Some(notches) = &report.repo_notches {
        let mut line = "  notches  ".to_owned();
        line.append(decimal(notches.count as u64).as_str());
        line.append(" repo-level, newest: ");
        line.append(notch_summary(&notches.last, ages).as_str());
        lines.push(line);
    }
    let ghost seven = six + notches_lines(report.repo_notches, ages@);
    assert(views(lines@) =~= seven);
    if report.other_workspaces.len() > 0 {
        let mut line = "  workspaces  ".to_owned();
        line.append(decimal(report.other_workspaces.len() as u64).as_str());
        line.append(" not named for a branch above: ");
        line.append(join(&report.other_workspaces, ", ").as_str());
        lines.push(line);
    }
    let ghost eight = seven + (if report.other_workspaces@.len() > 0 {
        seq![
            "  workspaces  "@ + decimal_text(report.other_workspaces@.len()) + " not named for a branch above: "@
                + joined(views(report.other_workspaces@), ", "@),
        ]
    } else {
        Seq::empty()
    });
    assert(views(lines@) =~= eight);
    add_section(&mut lines, "  notes       ", lead_lines("    ", &report.notes));
    assert(views(lines@) =~= report_lines(*report, verbose, ages@));
    join(&lines, "\n")
}

/// What a table shows for the tip of a branch: its tip, that it has several where it diverges, and a dash
/// where nothing is known of it.
pub proof fn lemma_tip_is_shown(row: RowView)
    ensures
        row.tip matches Some(tip) ==> tip_text(row) == tip,
        row.tip is None && row.state == BranchState::Divergent ==> tip_text(row) == "divergent"@,
        row.tip is None && row.state != BranchState::Divergent ==> tip_text(row) == "-"@,
{
}

/// What a table shows of how a branch stands to what was pushed: `pushed` only where there is nothing to
/// tell, and the origin's tip wherever it matters.
pub proof fn lemma_push_is_shown(origin: Seq<char>)
    ensures
        push_text(None) == "pushed"@,
        push_text(Some(PushView::Unpushed)) == "unpushed"@,
        push_text(Some(PushView::UnpushedCommits)) == "unpushed-commits"@,
        push_text(Some(PushView::Behind(origin))) == "origin="@ + origin + " (behind)"@,
        push_text(Some(PushView::Diverged(origin))) == "origin="@ + origin + " (diverged)"@,
        push_text(Some(PushView::Unresolved(origin))) == "origin="@ + origin + " (unresolved)"@,
{
    reveal_strlit(" (");
    reveal_strlit(")");
    reveal_strlit("behind");
    reveal_strlit("diverged");
    reveal_strlit("unresolved");
    reveal_strlit(" (behind)");
    reveal_strlit(" (diverged)");
    reveal_strlit(" (unresolved)");
    assert(push_text(Some(PushView::Behind(origin))) =~= "origin="@ + origin + " (behind)"@);
    assert(push_text(Some(PushView::Diverged(origin))) =~= "origin="@ + origin + " (diverged)"@);
    assert(push_text(Some(PushView::Unresolved(origin))) =~= "origin="@ + origin + " (unresolved)"@);
}

/// What a table shows of a pull request: its number first; its state unless that is open or unknown; that it
/// is a draft and that it was stated where they hold; activity only of an open one; and every prior one.
pub proof fn lemma_pull_is_shown(pull: PullCellView, ages: Seq<(String, String)>)
    ensures
        ({
            let parts = pull_parts(pull, ages);
            let told = pull.state != "open"@ && pull.state != "unknown"@;
            let active = pull.state == "open"@ && pull.activity_at is Some && lookup(
                ages,
                ranks(pull.activity_at->0),
            ) is Some;
            &&& parts[0] == "#"@ + decimal_text(pull.number as nat)
            &&& told ==> parts[1] == pull.state
            &&& activity_text(pull, ages) is Some <==> active
            &&& parts.len() == 1 + (if told {
                1int
            } else {
                0int
            }) + (if pull.draft {
                1int
            } else {
                0int
            }) + (if pull.stated == Some(true) {
                1int
            } else {
                0int
            }) + (if active {
                1int
            } else {
                0int
            }) + pull.prior.len()
            &&& forall|i: int|
                0 <= i < pull.prior.len() ==> #[trigger] parts[parts.len() - pull.prior.len() + i] == "prior #"@
                    + decimal_text(pull.prior[i].number as nat) + " "@ + pull.prior[i].state
        }),
        pull_text(None, ages) == "-"@,
{
    let parts = pull_parts(pull, ages);
    assert forall|i: int| 0 <= i < pull.prior.len() implies #[trigger] parts[parts.len() - pull.prior.len() + i]
        == "prior #"@ + decimal_text(pull.prior[i].number as nat) + " "@ + pull.prior[i].state by {
        assert(prior_texts(pull.prior)[i] == prior_text(pull.prior[i]));
    }
}

/// When the holder of a branch was seen is shown by its age where that is known, else by the moment, else by
/// the window, and by a dash where there is no claim.
pub proof fn lemma_sighting_is_shown(row: RowView, ages: Seq<(String, String)>)
    ensures
        row.last_seen matches Some(at) ==> seen_text(row, ages) == (match lookup(ages, ranks(at)) {
            Some(age) => age@,
            None => at,
        }),
        row.last_seen is None && row.seen == Some(SeenWindow::NoneSinceClaim) ==> seen_text(row, ages)
            == "none-since-claim"@,
        row.last_seen is None && row.seen == Some(SeenWindow::NoneWithinWindow) ==> seen_text(row, ages)
            == "none-within-window"@,
        row.last_seen is None && row.seen is None ==> seen_text(row, ages) == "-"@,
{
}

/// A line of findings names at most eight subjects and tells how many more there are; the whole listing has a
/// line for each of them.
pub proof fn lemma_subjects_are_named(group: GroupView)
    ensures
        ({
            let shown = shown_group(group);
            &&& shown.kind == group.kind && shown.count == group.items.len() && shown.subjects.len()
                == group.items.len()
            &&& group.items.len() <= 8 ==> named_subjects(shown) == shown.subjects && kind_line(shown) == "    "@
                + group.kind.label() + "  "@ + right_aligned(decimal_text(group.items.len()), 3) + "  "@ + joined(
                shown.subjects,
                ", "@,
            )
            &&& group.items.len() > 8 ==> named_subjects(shown) == shown.subjects.take(8) && kind_line(shown) == "    "@
                + group.kind.label() + "  "@ + right_aligned(decimal_text(group.items.len()), 3) + "  "@ + joined(
                shown.subjects.take(8),
                ", "@,
            ) + ", and "@ + decimal_text((group.items.len() - 8) as nat) + " more"@
            &&& verbose_lines()(shown).len() == group.items.len()
        }),
{
}

/// A section is shown exactly if it has lines, and its heading counts them.
pub proof fn lemma_sections(heading: Seq<char>, lines: Seq<Seq<char>>)
    ensures
        lines.len() == 0 ==> section(heading, lines).len() == 0,
        lines.len() > 0 ==> section(heading, lines)[0] == heading + decimal_text(lines.len()) && section(
            heading,
            lines,
        ).skip(1) == lines,
{
    if lines.len() > 0 {
        assert(section(heading, lines).skip(1) =~= lines);
    }
}

/// A notch is quoted, tells its age where that is known, and counts the entries beside it.
pub proof fn lemma_notch_is_shown(notch: NotchView, ages: Seq<(String, String)>)
    ensures
        ({
            let quoted = "\""@ + capped(inline_text(notch_words(notch)), 32) + "\""@;
            let aged = match lookup(ages, ranks(notch.ts)) {
                Some(age) => quoted + " ("@ + age@ + anchor_text(notch) + ")"@,
                None => quoted + anchor_text(notch),
            };
            &&& notch.count <= 1 ==> notch_text(notch, ages) == aged
            &&& notch.count > 1 ==> notch_text(notch, ages) == aged + "+"@ + decimal_text((notch.count - 1) as nat)
        }),
{
}

/// A report opens with its repository, its trunk, its newest release or that there is none, and whether the
/// forge was consulted and for how long.
pub proof fn lemma_head_of_report(report: Report)
    ensures
        ({
            let release = match report.newest_release {
                Some(release) => release@,
                None => "none"@,
            };
            let start = report.repo@ + "  trunk "@ + report.trunk@ + "  release "@ + release + "  forge "@;
            let end = " ("@ + decimal_text(report.forge.elapsed_ms as nat) + "ms)"@;
            &&& report.forge.consulted ==> head_line(report) == start + "consulted"@ + end
            &&& !report.forge.consulted ==> head_line(report) == start + "not consulted"@ + end
        }),
{
    let end = " ("@ + decimal_text(report.forge.elapsed_ms as nat) + "ms)"@;
    let release = match report.newest_release {
        Some(release) => release@,
        None => "none"@,
    };
    let start = report.repo@ + "  trunk "@ + report.trunk@ + "  release "@ + release + "  forge "@;
    assert(head_line(report) =~= start + (if report.forge.consulted {
        "consulted"@
    } else {
        "not consulted"@
    }) + end);
}

} // verus!
