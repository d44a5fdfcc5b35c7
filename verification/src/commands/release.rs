//! Plan, cut, edit or repair a release.
//!
//! Everything here is a check, never a prompt. A command in a non-interactive session has nobody to
//! ask, so it decides from evidence and says what it decided. Planning is the default because
//! everything else writes: a cut names a composition, and the edits change one.

use vstd::prelude::*;
use vstd::string::*;

use crate::cli::Exit;
use crate::config::{publish_of, scheme_of, RepoEntry};
use crate::detect::{Finding, FindingKind};
use crate::graph::CommitGraph;
use crate::ids::{parsed_bookmark, short_text, BookmarkRef, BranchName, CommitId, ReleaseScheme};
use crate::pins::{Pin, PinKind};
use crate::seqs::{group_seqs, lemma_filter_has, lemma_filter_next, lemma_take_next, views};
use crate::text::{decimal, decimal_text, join, joined, marked, push_marked, same};

pub mod counting;
pub mod cutting;
pub mod members;
pub mod planning;
pub mod superseded;

verus! {

broadcast use group_seqs;

/// What repairing a release would actually reach.
#[derive(Debug, Clone, Copy, PartialEq, Eq, Structural)]
pub enum RepairEffect {
    /// At least one consumer follows the branch, so repairing in place reaches them and a new dated
    /// name is not required. A needless dated name burns the name and forces a re-pin nobody wanted.
    RepairInPlace,
    /// Every pin is frozen, so the next cut has to take a new dated suffix.
    NewDatedName,
    /// Nothing pins it, so either is safe.
    Unpinned,
}

/// Whether a pin is of that release. A pin off the scheme consumes the fork at a tag or branch of
/// its own choosing.
pub open spec fn pins_release(pin: Pin, release: Seq<char>) -> bool {
    pin.on_scheme && pin.reference@ == release
}

/// What repairing the release would reach, from its pins.
pub open spec fn effect(pins: Seq<Pin>, release: Seq<char>) -> RepairEffect {
    if !(exists|i: int| 0 <= i < pins.len() && #[trigger] pins_release(pins[i], release)) {
        RepairEffect::Unpinned
    } else if exists|i: int|
        0 <= i < pins.len() && #[trigger] pins_release(pins[i], release) && pins[i].kind == PinKind::Follows {
        RepairEffect::RepairInPlace
    } else {
        RepairEffect::NewDatedName
    }
}

/// What moving or editing `release` would reach, judged by the pins of that release alone.
///
/// A consumer frozen on an older release is not reached by an edit to this one either way, and must
/// not block it. A pin names the branch, so the release's local and published views are the same
/// release to it.
pub fn repair_effect(pins: &[Pin], release: &BranchName) -> (what: RepairEffect)
    ensures
        what == effect(pins@, release@),
{
    let mut pinned = false;
    let mut i: usize = 0;
    while i < pins.len()
        invariant
            i <= pins@.len(),
            pinned == exists|j: int| 0 <= j < i && #[trigger] pins_release(pins@[j], release@),
            forall|j: int|
                0 <= j < i && #[trigger] pins_release(pins@[j], release@) ==> pins@[j].kind != PinKind::Follows,
        decreases pins@.len() - i,
    {
        if pins[i].on_scheme && same(pins[i].reference.as_str(), release.as_str()) {
            assert(pins_release(pins@[i as int], release@));
            if pins[i].kind == PinKind::Follows {
                return RepairEffect::RepairInPlace;
            }
            pinned = true;
        }
        i += 1;
    }
    if pinned {
        RepairEffect::NewDatedName
    } else {
        RepairEffect::Unpinned
    }
}

/// The name a cut takes, or why it cannot take one.
pub open spec fn named_cut(scheme: ReleaseScheme, requested: Option<&str>) -> Result<Seq<char>, Seq<char>> {
    match scheme {
        ReleaseScheme::Dated => match requested {
            Some(name) => Ok(name@),
            None => Err("a dated release cut needs a name, e.g. release/2026-08-03"@),
        },
        ReleaseScheme::Fixed(fixed) => if requested is Some && requested->0@ != fixed@ {
            Err(
                "this repo cuts the fixed release branch "@ + fixed@ + "; drop the name or use "@ + fixed@,
            )
        } else {
            Ok(fixed@)
        },
    }
}

/// A result of texts as its view.
pub open spec fn text_result(result: Result<String, String>) -> Result<Seq<char>, Seq<char>> {
    match result {
        Ok(text) => Ok(text@),
        Err(text) => Err(text@),
    }
}

/// The name a cut takes, or why it cannot take one.
///
/// A stray dated name under the fixed scheme would silently fork the naming; refusing is the only
/// answer that cannot lose a cut.
pub fn cut_name(scheme: &ReleaseScheme, requested: Option<&str>) -> (name: Result<String, String>)
    ensures
        text_result(name) == named_cut(*scheme, requested),
{
    match scheme {
        ReleaseScheme::Dated => match requested {
            Some(name) => Ok(name.to_owned()),
            None => Err("a dated release cut needs a name, e.g. release/2026-08-03".to_owned()),
        },
        ReleaseScheme::Fixed(fixed) => {
            if let Some(name) = requested {
                if !same(name, fixed.as_str()) {
                    let mut refusal = "this repo cuts the fixed release branch ".to_owned();
                    refusal.append(fixed.as_str());
                    refusal.append("; drop the name or use ");
                    refusal.append(fixed.as_str());
                    return Err(refusal);
                }
            }
            Ok(fixed.text.clone())
        },
    }
}

/// Where a fixed release branch was last published, and at which commit.
pub open spec fn published_position(graph: CommitGraph, entry: RepoEntry) -> Option<(Seq<char>, Seq<char>)> {
    match scheme_of(entry) {
        ReleaseScheme::Dated => None,
        ReleaseScheme::Fixed(fixed) => {
            let reference = fixed@ + "@"@ + publish_of(entry);
            match graph.commit(reference) {
                Some(commit) => Some((reference, commit)),
                None => None,
            }
        },
    }
}

/// The publish remote's previous fixed release position, if it exists.
///
/// Only the remote-tracking reference is read, never the local bookmark: a cut moves only the local
/// one, so the answer is sound before a push.
pub fn previous_position(graph: &CommitGraph, entry: &RepoEntry) -> (position: Option<(String, CommitId)>)
    ensures
        match position {
            Some((reference, commit)) => published_position(*graph, *entry) == Some((reference@, commit@)),
            None => published_position(*graph, *entry) is None,
        },
{
    match entry.release_scheme() {
        ReleaseScheme::Dated => None,
        ReleaseScheme::Fixed(fixed) => {
            let mut reference = fixed.text.clone();
            reference.append("@");
            reference.append(entry.publish_remote());
            match graph.resolve(reference.as_str()) {
                Some(commit) => {
                    let commit = commit.clone();
                    Some((reference, commit))
                },
                None => None,
            }
        },
    }
}

/// What is known of the release in hand.
#[derive(Debug, PartialEq, Eq)]
pub struct Plan {
    pub repo: String,
    pub base_findings: Vec<Finding>,
    pub release: Option<String>,
    /// Each parent, and the bookmarks that hold it.
    pub parents: Vec<(CommitId, Vec<String>)>,
    pub stale: Vec<Finding>,
    pub pins: Vec<Pin>,
    /// Informational: something worth saying that is not a failure.
    pub notes: Vec<String>,
    /// Could not answer. These, and only these, make the command end incomplete.
    pub problems: Vec<String>,
}

impl Default for Plan {
    fn default() -> (plan: Self)
        ensures
            plan.repo@ == ""@,
            plan.base_findings@.len() == 0,
            plan.release is None,
            plan.parents@.len() == 0,
            plan.stale@.len() == 0,
            plan.pins@.len() == 0,
            plan.notes@.len() == 0,
            plan.problems@.len() == 0,
    {
        Plan {
            repo: "".to_owned(),
            base_findings: Vec::new(),
            release: None,
            parents: Vec::new(),
            stale: Vec::new(),
            pins: Vec::new(),
            notes: Vec::new(),
            problems: Vec::new(),
        }
    }
}

/// How a plan ends: what could not be answered outranks what was found.
pub open spec fn plan_exit(plan: Plan) -> Exit {
    if plan.problems@.len() > 0 {
        Exit::Incomplete
    } else if plan.stale@.len() == 0 && plan.base_findings@.len() == 0 {
        Exit::Clean
    } else {
        Exit::Findings
    }
}

/// How a plan ends.
///
/// Findings mean act; problems mean we could not answer. A command that reports a problem in its
/// text and still ends clean lets a gate go green on a broken forge login.
pub fn exit_for(plan: &Plan) -> (exit: Exit)
    ensures
        exit == plan_exit(*plan),
{
    if plan.problems.len() > 0 {
        return Exit::Incomplete;
    }
    if plan.stale.len() == 0 && plan.base_findings.len() == 0 {
        Exit::Clean
    } else {
        Exit::Findings
    }
}

/// What the conflicts of a release mean, line by line.
pub open spec fn guidance_lines(files: Seq<Seq<char>>) -> Seq<Seq<char>> {
    if files.len() == 0 {
        seq!["  no conflicts in this release"@]
    } else {
        seq!["  "@ + decimal_text(files.len()) + " conflicted file(s), which is expected:"@] + marked(
            "    "@,
            files,
        ) + seq![
            "  resolve as a union: keep every branch's addition, keep any shared helper defined exactly once, and land each config key in every loader"@,
            "  then re-check the parent count and the test count before publishing"@,
        ]
    }
}

/// What a release's conflicts mean, and what to do about them.
///
/// Reported, never resolved: resolving them correctly is a semantic judgement about the content,
/// which a tool cannot make. Saying exactly where they are, and what shape the resolution takes, is
/// the part a tool can do.
pub fn conflict_guidance(files: &[String]) -> (text: String)
    ensures
        text@ == joined(guidance_lines(views(files@)), "\n"@),
{
    let mut lines: Vec<String> = Vec::new();
    let ghost all = views(files@);
    assert(all.len() == files@.len());
    if files.len() == 0 {
        lines.push("  no conflicts in this release".to_owned());
        assert(views(lines@) =~= guidance_lines(all));
        return join(&lines, "\n");
    }
    let mut head = "  ".to_owned();
    head.append(decimal(files.len() as u64).as_str());
    head.append(" conflicted file(s), which is expected:");
    lines.push(head);
    push_marked(&mut lines, "    ", files);
    lines.push(
        "  resolve as a union: keep every branch's addition, keep any shared helper defined exactly once, and land each config key in every loader".to_owned(),
    );
    lines.push("  then re-check the parent count and the test count before publishing".to_owned());
    assert(views(lines@) =~= guidance_lines(all));
    join(&lines, "\n")
}

/// What each of the findings says.
pub open spec fn details_of(findings: Seq<Finding>) -> Seq<Seq<char>> {
    Seq::new(findings.len(), |i: int| findings[i].detail@)
}

fn push_details(lines: &mut Vec<String>, mark: &str, findings: &Vec<Finding>)
    ensures
        views(final(lines)@) == views(old(lines)@) + marked(mark@, details_of(findings@)),
{
    let mut details: Vec<String> = Vec::new();
    let mut i: usize = 0;
    assert(details_of(findings@).take(0) =~= Seq::empty());
    while i < findings.len()
        invariant
            i <= findings@.len(),
            views(details@) == details_of(findings@).take(i as int),
        decreases findings@.len() - i,
    {
        proof {
            lemma_take_next(details_of(findings@), i as int);
        }
        let ghost earlier = details@;
        let detail = findings[i].detail.clone();
        details.push(detail);
        assert(views(details@) =~= views(earlier).push(detail@));
        i += 1;
    }
    assert(details_of(findings@).take(i as int) =~= details_of(findings@));
    push_marked(lines, mark, details.as_slice());
}

/// Whether a finding is of a history stacked on a release merge.
pub open spec fn is_stacked() -> spec_fn(Finding) -> bool {
    |finding: Finding| finding.kind == FindingKind::StackedHistory
}

fn count_stacked(findings: &Vec<Finding>) -> (count: usize)
    ensures
        count == findings@.filter(is_stacked()).len(),
{
    let mut count: usize = 0;
    let mut i: usize = 0;
    while i < findings.len()
        invariant
            i <= findings@.len(),
            count <= i,
            count == findings@.take(i as int).filter(is_stacked()).len(),
        decreases findings@.len() - i,
    {
        proof {
            lemma_filter_next(findings@, is_stacked(), i as int);
        }
        if findings[i].kind == FindingKind::StackedHistory {
            count += 1;
        }
        i += 1;
    }
    count
}

/// A parent and what holds it.
pub open spec fn parent_line(parent: (CommitId, Vec<String>)) -> Seq<char> {
    "    "@ + short_text(parent.0@) + "  "@ + (if parent.1@.len() == 0 {
        "no bookmark"@
    } else {
        joined(views(parent.1@), ", "@)
    })
}

/// The parents and what holds each.
pub open spec fn parent_lines(parents: Seq<(CommitId, Vec<String>)>) -> Seq<Seq<char>> {
    Seq::new(parents.len(), |i: int| parent_line(parents[i]))
}

/// How many parents there are, and how many of them are stacked.
pub open spec fn shape_line(plan: Plan) -> Seq<char> {
    let stacked = plan.base_findings@.filter(is_stacked()).len();
    if stacked == 0 {
        "  "@ + decimal_text(plan.parents@.len()) + " parent(s), flat"@
    } else {
        "  "@ + decimal_text(plan.parents@.len()) + " parent(s), "@ + decimal_text(stacked) + " stacked on a prior merge"@
    }
}

/// Which parents are no longer their branch tip.
pub open spec fn stale_lines(plan: Plan) -> Seq<Seq<char>> {
    if plan.stale@.len() == 0 {
        seq!["  every parent is still its branch tip"@]
    } else {
        seq!["  "@ + decimal_text(plan.stale@.len()) + " stale parent(s):"@] + marked(
            "    "@,
            details_of(plan.stale@),
        )
    }
}

/// Who pins the release.
pub open spec fn pin_lines(plan: Plan, pinned: Seq<char>) -> Seq<Seq<char>> {
    if plan.pins@.len() == 0 {
        Seq::empty()
    } else {
        seq!["  pinned by:"@, pinned]
    }
}

/// What editing the release would reach. A consumer that could not be consulted may hold the pin
/// that a verdict would deny.
pub open spec fn verdict_line(plan: Plan, release: Seq<char>) -> Seq<char> {
    if plan.problems@.len() > 0 {
        "  pinned-ness unknown: a consumer could not be consulted (see above)"@
    } else {
        match effect(plan.pins@, parsed_bookmark(release).branch()) {
            RepairEffect::RepairInPlace => "  at least one consumer follows the branch: repair in place, no new dated name"@,
            RepairEffect::NewDatedName => "  every pin of this release is frozen: editing it reaches nobody; the next cut needs a new dated suffix"@,
            RepairEffect::Unpinned => "  nothing pins this release: either is safe"@,
        }
    }
}

/// What could not be answered, and what is worth saying.
pub open spec fn alert_lines(plan: Plan) -> Seq<Seq<char>> {
    marked("!! "@, views(plan.problems@)) + marked("! "@, views(plan.notes@))
}

/// The lines of a plan.
pub open spec fn plan_lines(plan: Plan, pinned: Seq<char>) -> Seq<Seq<char>> {
    match plan.release {
        None => alert_lines(plan),
        Some(release) => alert_lines(plan) + seq![plan.repo@ + ": "@ + release@, shape_line(plan)] + parent_lines(
            plan.parents@,
        ) + stale_lines(plan) + marked("  !! "@, details_of(plan.base_findings@)) + pin_lines(plan, pinned) + seq![
            verdict_line(plan, release@),
            "  planning by default. `knives release cut [name]` names a new cut of this composition verbatim; `include`, `drop` and `advance` edit it. Nothing here ever pushes."@,
        ],
    }
}

fn shape(plan: &Plan) -> (line: String)
    ensures
        line@ == shape_line(*plan),
{
    let stacked = count_stacked(&plan.base_findings);
    let mut line = "  ".to_owned();
    line.append(decimal(plan.parents.len() as u64).as_str());
    if stacked == 0 {
        line.append(" parent(s), flat");
    } else {
        line.append(" parent(s), ");
        line.append(decimal(stacked as u64).as_str());
        line.append(" stacked on a prior merge");
    }
    line
}

fn push_parents(lines: &mut Vec<String>, parents: &Vec<(CommitId, Vec<String>)>)
    ensures
        views(final(lines)@) == views(old(lines)@) + parent_lines(parents@),
{
    let ghost all = parent_lines(parents@);
    let ghost before = views(lines@);
    let mut i: usize = 0;
    assert(before + all.take(0) =~= before);
    while i < parents.len()
        invariant
            i <= parents@.len(),
            all == parent_lines(parents@),
            views(lines@) == before + all.take(i as int),
        decreases parents@.len() - i,
    {
        let mut line = "    ".to_owned();
        line.append(parents[i].0.short().as_str());
        line.append("  ");
        if parents[i].1.len() == 0 {
            line.append("no bookmark");
        } else {
            line.append(join(&parents[i].1, ", ").as_str());
        }
        assert(line@ == all[i as int]);
        let ghost earlier = lines@;
        lines.push(line);
        assert(views(lines@) =~= views(earlier).push(line@));
        assert(views(lines@) =~= before + all.take(i + 1));
        i += 1;
    }
    assert(all.take(i as int) =~= all);
}

fn push_stale(lines: &mut Vec<String>, plan: &Plan)
    ensures
        views(final(lines)@) == views(old(lines)@) + stale_lines(*plan),
{
    if plan.stale.len() == 0 {
        lines.push("  every parent is still its branch tip".to_owned());
    } else {
        let mut head = "  ".to_owned();
        head.append(decimal(plan.stale.len() as u64).as_str());
        head.append(" stale parent(s):");
        lines.push(head);
        push_details(lines, "    ", &plan.stale);
    }
    assert(views(lines@) =~= views(old(lines)@) + stale_lines(*plan));
}

fn verdict(plan: &Plan, release: &str) -> (line: String)
    ensures
        line@ == verdict_line(*plan, release@),
{
    if plan.problems.len() > 0 {
        return "  pinned-ness unknown: a consumer could not be consulted (see above)".to_owned();
    }
    let bookmark = BookmarkRef::parse(release);
    match repair_effect(plan.pins.as_slice(), bookmark.branch()) {
        RepairEffect::RepairInPlace => "  at least one consumer follows the branch: repair in place, no new dated name".to_owned(),
        RepairEffect::NewDatedName => "  every pin of this release is frozen: editing it reaches nobody; the next cut needs a new dated suffix".to_owned(),
        RepairEffect::Unpinned => "  nothing pins this release: either is safe".to_owned(),
    }
}

/// A plan in words. `pinned` is the list of its pins in words.
pub fn render(plan: &Plan, pinned: &str) -> (text: String)
    ensures
        text@ == joined(plan_lines(*plan, pinned@), "\n"@),
{
    let mut lines: Vec<String> = Vec::new();
    push_marked(&mut lines, "!! ", plan.problems.as_slice());
    push_marked(&mut lines, "! ", plan.notes.as_slice());
    assert(views(lines@) =~= alert_lines(*plan));
    let release = match &plan.release {
        Some(release) => release,
        None => return join(&lines, "\n"),
    };
    let mut head = plan.repo.clone();
    head.append(": ");
    head.append(release.as_str());
    lines.push(head);
    lines.push(shape(plan));
    let ghost opening = alert_lines(*plan) + seq![plan.repo@ + ": "@ + release@, shape_line(*plan)];
    assert(views(lines@) =~= opening);
    push_parents(&mut lines, &plan.parents);
    push_stale(&mut lines, plan);
    push_details(&mut lines, "  !! ", &plan.base_findings);
    let ghost middle = opening + parent_lines(plan.parents@) + stale_lines(*plan) + marked(
        "  !! "@,
        details_of(plan.base_findings@),
    );
    assert(views(lines@) =~= middle);
    if plan.pins.len() > 0 {
        lines.push("  pinned by:".to_owned());
        lines.push(pinned.to_owned());
    }
    assert(views(lines@) =~= middle + pin_lines(*plan, pinned@));
    lines.push(verdict(plan, release.as_str()));
    lines.push(
        "  planning by default. `knives release cut [name]` names a new cut of this composition verbatim; `include`, `drop` and `advance` edit it. Nothing here ever pushes.".to_owned(),
    );
    assert(views(lines@) =~= plan_lines(*plan, pinned@));
    join(&lines, "\n")
}

/// What repairing a release means for those who pin it: it is unpinned exactly if no pin on our releases
/// names it, it is repaired in place exactly if one that does follows the branch, and it needs a new
/// name exactly if some do and every one of them is frozen.
pub proof fn lemma_effect_of_repair(pins: Seq<Pin>, release: Seq<char>)
    ensures
        effect(pins, release) == RepairEffect::Unpinned <==> forall|i: int|
            0 <= i < pins.len() ==> !((#[trigger] pins[i]).on_scheme && pins[i].reference@ == release),
        effect(pins, release) == RepairEffect::RepairInPlace <==> exists|i: int|
            0 <= i < pins.len() && (#[trigger] pins[i]).on_scheme && pins[i].reference@ == release && pins[i].kind
                == PinKind::Follows,
{
    if exists|i: int| 0 <= i < pins.len() && #[trigger] pins_release(pins[i], release) {
        let i = choose|i: int| 0 <= i < pins.len() && #[trigger] pins_release(pins[i], release);
        assert(pins[i].on_scheme && pins[i].reference@ == release);
    }
    if exists|i: int|
        0 <= i < pins.len() && #[trigger] pins_release(pins[i], release) && pins[i].kind == PinKind::Follows {
        let i = choose|i: int|
            0 <= i < pins.len() && #[trigger] pins_release(pins[i], release) && pins[i].kind == PinKind::Follows;
        assert(pins[i].on_scheme && pins[i].reference@ == release && pins[i].kind == PinKind::Follows);
    }
    assert forall|i: int|
        0 <= i < pins.len() && (#[trigger] pins[i]).on_scheme && pins[i].reference@ == release implies pins_release(
        pins[i],
        release,
    ) by {}
}

/// A dated cut is named as it is asked for and is refused without a name; a fixed cut has the name of
/// its branch and is refused another.
pub proof fn lemma_name_of_cut(scheme: ReleaseScheme, requested: Option<&str>)
    ensures
        scheme is Dated && requested is Some ==> named_cut(scheme, requested) == Ok::<Seq<char>, Seq<char>>(
            requested->0@,
        ),
        scheme is Dated && requested is None ==> named_cut(scheme, requested) is Err,
        scheme matches ReleaseScheme::Fixed(branch) ==> {
            &&& named_cut(scheme, requested) is Ok <==> requested is None || requested->0@ == branch@
            &&& named_cut(scheme, requested) is Ok ==> named_cut(scheme, requested)->Ok_0 == branch@
        },
{
}

/// A problem leaves a plan incomplete; without one it is clean exactly if nothing is stale and nothing
/// was found of its bases.
pub proof fn lemma_exit_of_plan(plan: Plan)
    ensures
        plan_exit(plan) == Exit::Incomplete <==> plan.problems@.len() > 0,
        plan_exit(plan) == Exit::Clean <==> plan.problems@.len() == 0 && plan.stale@.len() == 0
            && plan.base_findings@.len() == 0,
        plan_exit(plan) == Exit::Findings <==> plan.problems@.len() == 0 && (plan.stale@.len() > 0
            || plan.base_findings@.len() > 0),
{
}

/// Only a fixed release has a position before it is cut: where its branch stands on the remote it is
/// published to.
pub proof fn lemma_previous_position(graph: CommitGraph, entry: RepoEntry)
    ensures
        scheme_of(entry) is Dated ==> published_position(graph, entry) is None,
        scheme_of(entry) matches ReleaseScheme::Fixed(branch) ==> {
            let reference = branch@ + "@"@ + publish_of(entry);
            &&& published_position(graph, entry) is Some <==> graph.commit(reference) is Some
            &&& published_position(graph, entry) matches Some(position) ==> position == (
                reference,
                graph.commit(reference)->0,
            )
        },
{
}

/// What a plan says of those who pin the release: nothing certain while a consumer could not be consulted;
/// else that it is repaired in place exactly if a pin of it follows the branch, and that nothing pins it
/// exactly if nothing does.
pub proof fn lemma_verdict_of_plan(plan: Plan, release: Seq<char>)
    ensures
        ({
            let name = parsed_bookmark(release).branch();
            let pins = plan.pins@;
            let pinned = exists|i: int| 0 <= i < pins.len() && (#[trigger] pins[i]).on_scheme && pins[i].reference@ == name;
            let followed = exists|i: int|
                0 <= i < pins.len() && (#[trigger] pins[i]).on_scheme && pins[i].reference@ == name && pins[i].kind
                    == PinKind::Follows;
            let consulted = plan.problems@.len() == 0;
            let verdict = verdict_line(plan, release);
            &&& !consulted ==> verdict == "  pinned-ness unknown: a consumer could not be consulted (see above)"@
            &&& consulted && followed ==> verdict
                == "  at least one consumer follows the branch: repair in place, no new dated name"@
            &&& consulted && pinned && !followed ==> verdict
                == "  every pin of this release is frozen: editing it reaches nobody; the next cut needs a new dated suffix"@
            &&& consulted && !pinned ==> verdict == "  nothing pins this release: either is safe"@
        }),
{
    lemma_effect_of_repair(plan.pins@, parsed_bookmark(release).branch());
}

/// A plan says that every parent is its branch's tip exactly if none is stale; else it counts the stale ones
/// and tells each of them, in order.
pub proof fn lemma_stale_parents_are_told(plan: Plan)
    ensures
        plan.stale@.len() == 0 ==> stale_lines(plan) == seq!["  every parent is still its branch tip"@],
        plan.stale@.len() > 0 ==> {
            &&& stale_lines(plan).len() == plan.stale@.len() + 1
            &&& stale_lines(plan)[0] == "  "@ + decimal_text(plan.stale@.len()) + " stale parent(s):"@
            &&& forall|i: int|
                0 <= i < plan.stale@.len() ==> stale_lines(plan)[i + 1] == "    "@ + (#[trigger] plan.stale@[i]).detail@
        },
{
}

/// Conflicts are counted, each file is named, and how to resolve them is said exactly if there are any.
pub proof fn lemma_conflicts_are_named(files: Seq<Seq<char>>)
    ensures
        files.len() == 0 ==> guidance_lines(files) == seq!["  no conflicts in this release"@],
        files.len() > 0 ==> {
            &&& guidance_lines(files).len() == files.len() + 3
            &&& guidance_lines(files)[0] == "  "@ + decimal_text(files.len()) + " conflicted file(s), which is expected:"@
            &&& forall|i: int| 0 <= i < files.len() ==> guidance_lines(files)[i + 1] == "    "@ + (#[trigger] files[i])
        },
{
}

/// A plan's shape counts its parents; it is flat exactly if nothing found of its bases is a stacked history.
pub proof fn lemma_shape_of_plan(plan: Plan)
    ensures
        ({
            let flat = forall|i: int|
                0 <= i < plan.base_findings@.len() ==> (#[trigger] plan.base_findings@[i]).kind
                    != FindingKind::StackedHistory;
            let stacked = plan.base_findings@.filter(is_stacked());
            let count = decimal_text(plan.parents@.len());
            &&& flat ==> shape_line(plan) == "  "@ + count + " parent(s), flat"@
            &&& !flat ==> stacked.len() > 0 && shape_line(plan) == "  "@ + count + " parent(s), "@ + decimal_text(
                stacked.len(),
            ) + " stacked on a prior merge"@
        }),
{
    let all = plan.base_findings@;
    let stacked = all.filter(is_stacked());
    if stacked.len() > 0 {
        lemma_filter_has(all, is_stacked(), stacked[0]);
        assert(stacked.contains(stacked[0]));
    }
    if exists|i: int| 0 <= i < all.len() && (#[trigger] all[i]).kind == FindingKind::StackedHistory {
        let i = choose|i: int| 0 <= i < all.len() && (#[trigger] all[i]).kind == FindingKind::StackedHistory;
        lemma_filter_has(all, is_stacked(), all[i]);
        assert(all.contains(all[i]));
        assert(stacked.contains(all[i]));
    }
}

/// Each parent has its line: its commit, and the bookmarks on it or that there is none.
pub proof fn lemma_line_of_parent(parents: Seq<(CommitId, Vec<String>)>, i: int)
    requires
        0 <= i < parents.len(),
    ensures
        parent_lines(parents).len() == parents.len(),
        parents[i].1@.len() == 0 ==> parent_lines(parents)[i] == "    "@ + short_text(parents[i].0@) + "  "@
            + "no bookmark"@,
        parents[i].1@.len() > 0 ==> parent_lines(parents)[i] == "    "@ + short_text(parents[i].0@) + "  "@ + joined(
            views(parents[i].1@),
            ", "@,
        ),
{
}

/// Who pins a release is told exactly if someone does.
pub proof fn lemma_pins_are_told(plan: Plan, pinned: Seq<char>)
    ensures
        plan.pins@.len() == 0 ==> pin_lines(plan, pinned).len() == 0,
        plan.pins@.len() > 0 ==> pin_lines(plan, pinned) == seq!["  pinned by:"@, pinned],
{
}

} // verus!
