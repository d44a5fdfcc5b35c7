//! Configured identifiers found in the lines a branch adds over the upstream trunk.
//!
//! An upstream-bound diff that names our fork, our product or our infrastructure is something a
//! maintainer will ask about. Case-insensitive substrings over added lines only; context and
//! removed lines are upstream's own text.

use vstd::prelude::*;
use vstd::string::*;

use crate::pieces::{lemma_next_at, lines, lines_of, next_at, number_within, parse_u64, split_once, words, words_of};
use crate::seqs::{group_seqs, lemma_take_next, view_of, views};
use crate::text::{
    begins_with, contains, contains_text, debug_text, lowercase, lowercase_text, quoted, same, starts_with,
    strip_prefix,
};

verus! {

/// One added line that names a configured term.
#[derive(Debug, PartialEq, Eq)]
pub struct Hit {
    /// The new-side path, as the `+++ b/` header names it.
    pub file: String,
    /// Line number in the new file, from the hunk header onward.
    pub line: usize,
    /// The configured term, as configured (not as it appears in the line).
    pub term: String,
    /// The added line without its leading `+`.
    pub text: String,
}

/// What a hit says.
pub struct HitView {
    pub file: Seq<char>,
    pub line: int,
    pub term: Seq<char>,
    pub text: Seq<char>,
}

impl View for Hit {
    type V = HitView;

    open spec fn view(&self) -> HitView {
        HitView { file: self.file@, line: self.line as int, term: self.term@, text: self.text@ }
    }
}

/// The first word that begins with a plus sign, without it.
pub open spec fn first_plus(tokens: Seq<Seq<char>>) -> Option<Seq<char>>
    decreases tokens.len(),
{
    if tokens.len() == 0 {
        None
    } else if begins_with(tokens[0], "+"@) {
        Some(tokens[0].skip("+"@.len() as int))
    } else {
        first_plus(tokens.drop_first())
    }
}

/// The new-side start line of a hunk header's remainder (`-a,b +c,d @@ …`), where it carries a
/// readable `+c` range.
pub open spec fn start_of(rest: Seq<char>) -> Option<nat> {
    match first_plus(words_of(rest)) {
        Some(range) => number_within(range.take(next_at(range, ',', 0)), usize::MAX as nat),
        None => None,
    }
}

fn new_start(rest: &str) -> (start: Option<usize>)
    ensures
        match start {
            Some(n) => start_of(rest@) == Some(n as nat),
            None => start_of(rest@) is None,
        },
{
    let tokens = words(rest);
    let ghost all = views(tokens@);
    let mut i: usize = 0;
    assert(all.skip(0) =~= all);
    while i < tokens.len()
        invariant
            i <= tokens@.len(),
            all == views(tokens@),
            all == words_of(rest@),
            first_plus(all) == first_plus(all.skip(i as int)),
        decreases tokens@.len() - i,
    {
        proof {
            assert(all.skip(i as int)[0] == tokens@[i as int]@);
            assert(all.skip(i as int).drop_first() =~= all.skip(i + 1));
        }
        if let Some(range) = strip_prefix(tokens[i].as_str(), "+") {
            let number = match split_once(range.as_str(), ',') {
                Some((start, _)) => start,
                None => {
                    assert(range@.take(range@.len() as int) =~= range@);
                    range
                },
            };
            return match parse_u64(number.as_str()) {
                Some(n) => {
                    if n <= usize::MAX as u64 {
                        Some(n as usize)
                    } else {
                        None
                    }
                },
                None => None,
            };
        }
        i += 1;
    }
    None
}

/// The path a `+++` header names, or `None` for a deletion (`/dev/null`).
pub open spec fn named_path(header: Seq<char>) -> Option<Seq<char>> {
    let path = header.take(next_at(header, '\t', 0));
    if path == "/dev/null"@ {
        None
    } else if begins_with(path, "b/"@) {
        Some(path.skip("b/"@.len() as int))
    } else {
        Some(path)
    }
}

fn new_side_path(header: &str) -> (path: Option<String>)
    ensures
        view_of(path) == named_path(header@),
{
    let path = match split_once(header, '\t') {
        Some((path, _)) => path,
        None => {
            assert(header@.take(header@.len() as int) =~= header@);
            header.to_owned()
        },
    };
    if same(path.as_str(), "/dev/null") {
        return None;
    }
    match strip_prefix(path.as_str(), "b/") {
        Some(rest) => Some(rest),
        None => Some(path),
    }
}

/// Where a reader of a diff stands: which file the hunks add to, whether it is inside a hunk, and
/// the number of the next new-side line.
pub struct Place {
    pub file: Option<Seq<char>>,
    pub in_hunk: bool,
    pub next: int,
}

/// Whether a line opens a hunk.
pub open spec fn is_hunk_header(raw: Seq<char>) -> bool {
    begins_with(raw, "@@ "@)
}

/// Whether a line opens a file.
pub open spec fn is_file_header(raw: Seq<char>) -> bool {
    begins_with(raw, "diff --git "@)
}

/// The start a hunk header names, where it can be read.
pub open spec fn header_start(raw: Seq<char>) -> Option<nat> {
    start_of(raw.skip("@@ "@.len() as int))
}

/// Where a reader stands after one more line.
///
/// `diff --git` closes any hunk, `+++` names the file the following hunks add to, `@@` opens a hunk
/// and restarts the count. Inside a hunk an added line and a line of context count, and a removed
/// line does not.
pub open spec fn after_line(place: Place, raw: Seq<char>) -> Place {
    if is_hunk_header(raw) {
        Place {
            in_hunk: true,
            next: match header_start(raw) {
                Some(start) => start as int,
                None => 0,
            },
            ..place
        }
    } else if is_file_header(raw) {
        Place { in_hunk: false, ..place }
    } else if !place.in_hunk {
        if begins_with(raw, "+++ "@) {
            Place { file: named_path(raw.skip("+++ "@.len() as int)), ..place }
        } else {
            place
        }
    } else if begins_with(raw, "+"@) || begins_with(raw, " "@) || raw.len() == 0 {
        Place { next: place.next + 1, ..place }
    } else {
        place
    }
}

/// Where a reader stands after the lines.
pub open spec fn place_after(diff: Seq<Seq<char>>) -> Place
    decreases diff.len(),
{
    if diff.len() == 0 {
        Place { file: None, in_hunk: false, next: 0 }
    } else {
        after_line(place_after(diff.drop_last()), diff.last())
    }
}

/// Whether the start of every hunk can be read.
pub open spec fn readable(diff: Seq<Seq<char>>) -> bool {
    forall|i: int| 0 <= i < diff.len() && is_hunk_header(#[trigger] diff[i]) ==> header_start(diff[i]) is Some
}

/// Where the first hunk header that cannot be read stands, or the length.
pub open spec fn first_unreadable(diff: Seq<Seq<char>>, from: int) -> int
    decreases diff.len() - from,
{
    if from >= diff.len() {
        diff.len() as int
    } else if is_hunk_header(diff[from]) && header_start(diff[from]) is None {
        from
    } else {
        first_unreadable(diff, from + 1)
    }
}

/// The hit of one term in an added line, where the line's lower case holds the term's.
pub open spec fn term_hit(
    file: Seq<char>,
    line: int,
    text: Seq<char>,
    lowered: Seq<char>,
    terms: Seq<Seq<char>>,
    needles: Seq<Seq<char>>,
    i: int,
) -> Seq<HitView> {
    if contains_text(lowered, needles[i]) {
        seq![HitView { file, line, term: terms[i], text }]
    } else {
        Seq::empty()
    }
}

/// The hits of the first `n` terms in an added line.
pub open spec fn hits_of_terms(
    file: Seq<char>,
    line: int,
    text: Seq<char>,
    lowered: Seq<char>,
    terms: Seq<Seq<char>>,
    needles: Seq<Seq<char>>,
    n: int,
) -> Seq<HitView>
    decreases n,
{
    if n <= 0 {
        Seq::empty()
    } else {
        hits_of_terms(file, line, text, lowered, terms, needles, n - 1) + term_hit(
            file,
            line,
            text,
            lowered,
            terms,
            needles,
            n - 1,
        )
    }
}

/// The hits of one added line: one for each term whose needle stands in the line's lower case, as
/// the terms are listed.
pub fn term_hits(
    file: &str,
    line: usize,
    text: &str,
    lowered: &str,
    terms: &[String],
    needles: &Vec<String>,
) -> (hits: Vec<Hit>)
    requires
        needles@.len() == terms@.len(),
    ensures
        views(hits@) == hits_of_terms(
            file@,
            line as int,
            text@,
            lowered@,
            views(terms@),
            views(needles@),
            terms@.len() as int,
        ),
{
    broadcast use group_seqs;

    let mut hits: Vec<Hit> = Vec::new();
    let mut i: usize = 0;
    while i < terms.len()
        invariant
            i <= terms@.len(),
            needles@.len() == terms@.len(),
            views(hits@) == hits_of_terms(
                file@,
                line as int,
                text@,
                lowered@,
                views(terms@),
                views(needles@),
                i as int,
            ),
        decreases terms@.len() - i,
    {
        let ghost before = views(hits@);
        if contains(lowered, needles[i].as_str()) {
            hits.push(
                Hit { file: file.to_owned(), line, term: terms[i].clone(), text: text.to_owned() },
            );
        }
        assert(views(hits@) =~= before + term_hit(
            file@,
            line as int,
            text@,
            lowered@,
            views(terms@),
            views(needles@),
            i as int,
        ));
        i += 1;
    }
    hits
}

/// The lower case of each text.
pub open spec fn lowered_texts(texts: Seq<Seq<char>>) -> Seq<Seq<char>> {
    Seq::new(texts.len(), |i: int| lowercase_text(texts[i]))
}

/// The hits of one line, read from where the reader stands.
pub open spec fn line_hits(place: Place, raw: Seq<char>, terms: Seq<Seq<char>>) -> Seq<HitView> {
    if !is_hunk_header(raw) && !is_file_header(raw) && place.in_hunk && begins_with(raw, "+"@) && place.file is Some {
        let text = raw.skip("+"@.len() as int);
        hits_of_terms(
            place.file->0,
            place.next,
            text,
            lowercase_text(text),
            terms,
            lowered_texts(terms),
            terms.len() as int,
        )
    } else {
        Seq::empty()
    }
}

/// The hits of a diff, line by line.
pub open spec fn hits_in(diff: Seq<Seq<char>>, terms: Seq<Seq<char>>) -> Seq<HitView>
    decreases diff.len(),
{
    if diff.len() == 0 {
        Seq::empty()
    } else {
        hits_in(diff.drop_last(), terms) + line_hits(place_after(diff.drop_last()), diff.last(), terms)
    }
}

/// Whether every new-side line of the first lines has a number that fits.
pub open spec fn countable_to(diff: Seq<Seq<char>>, n: int) -> bool {
    forall|i: int|
        #![trigger diff.take(i)]
        0 <= i <= n && readable(diff.take(i)) ==> place_after(diff.take(i)).next <= usize::MAX
}

/// Whether every new-side line of a diff has a number that fits, up to the first hunk header that
/// cannot be read.
pub open spec fn countable(diff: Seq<Seq<char>>) -> bool {
    countable_to(diff, diff.len() as int)
}

/// What keeps a diff from being read: a hunk header without a readable start.
pub open spec fn unreadable_text(raw: Seq<char>) -> Seq<char> {
    "unreadable hunk header "@ + debug_text(raw)
}

proof fn lemma_readable_next(diff: Seq<Seq<char>>, i: int)
    requires
        0 <= i < diff.len(),
        readable(diff.take(i)),
        is_hunk_header(diff[i]) ==> header_start(diff[i]) is Some,
    ensures
        readable(diff.take(i + 1)),
{
    let next = diff.take(i + 1);
    assert forall|j: int| 0 <= j < next.len() && is_hunk_header(#[trigger] next[j]) implies header_start(
        next[j],
    ) is Some by {
        if j < i {
            assert(diff.take(i)[j] == next[j]);
        }
    }
}

/// Whether every new-side line of a diff has a number that fits: what `scan` asks of its diff.
pub fn counts_fit(diff: &str) -> (r: bool)
    ensures
        r == countable(lines_of(diff@)),
{
    broadcast use group_seqs;

    let raws = lines(diff);
    let ghost all = views(raws@);
    let mut in_hunk = false;
    let mut next: usize = 0;
    let mut i: usize = 0;
    assert(all.take(0) =~= Seq::empty());
    assert forall|j: int| #![trigger all.take(j)] 0 <= j <= 0 && readable(all.take(j)) implies place_after(
        all.take(j),
    ).next <= usize::MAX by {
        assert(all.take(j) =~= Seq::empty());
    }
    while i < raws.len()
        invariant
            i <= raws@.len(),
            all == views(raws@),
            all == lines_of(diff@),
            readable(all.take(i as int)),
            in_hunk == place_after(all.take(i as int)).in_hunk,
            next == place_after(all.take(i as int)).next,
            countable_to(all, i as int),
        decreases raws@.len() - i,
    {
        let raw = raws[i].as_str();
        let ghost before = all.take(i as int);
        proof {
            lemma_take_next(all, i as int);
            assert(all.take(i + 1).drop_last() =~= before);
            assert(all[i as int] == raw@);
        }
        if let Some(rest) = strip_prefix(raw, "@@ ") {
            match new_start(rest.as_str()) {
                Some(start) => {
                    next = start;
                    in_hunk = true;
                },
                None => {
                    assert forall|j: int|
                        #![trigger all.take(j)]
                        0 <= j <= all.len() && readable(all.take(j)) implies place_after(all.take(j)).next
                        <= usize::MAX by {
                        if j > i {
                            assert(all.take(j)[i as int] == raw@);
                        }
                    }
                    return true;
                },
            }
        } else if starts_with(raw, "diff --git ") {
            in_hunk = false;
        } else if in_hunk && (starts_with(raw, "+") || starts_with(raw, " ") || raw.is_empty()) {
            if next == usize::MAX {
                proof {
                    lemma_readable_next(all, i as int);
                    assert(place_after(all.take(i + 1)).next == usize::MAX + 1);
                }
                return false;
            }
            next += 1;
        }
        proof {
            lemma_readable_next(all, i as int);
            assert forall|j: int|
                #![trigger all.take(j)]
                0 <= j <= i + 1 && readable(all.take(j)) implies place_after(all.take(j)).next <= usize::MAX by {
                if j <= i {
                    assert(countable_to(all, i as int));
                }
            }
        }
        i += 1;
    }
    true
}

/// Every added line of a `--git` diff that contains one of `terms`.
///
/// The diff is read as `git diff` writes it: `diff --git` opens a file and closes any hunk,
/// `+++ b/<path>` names the file the following hunks add to, `@@ -a,b +c,d @@` opens a hunk and
/// restarts the new-side line count at `c`, and inside a hunk a `+` line is an addition, a ` ` line
/// is context (both advance the new-side count), and a `-` line is a removal (which does not). A
/// `+++ /dev/null` header is a deletion: nothing after it is an addition.
///
/// A hunk header whose new-side start cannot be read is an error naming the header: a hit at a
/// guessed line would be a fact nobody can stand behind.
pub fn scan(diff: &str, terms: &[String]) -> (hits: Result<Vec<Hit>, String>)
    requires
        countable(lines_of(diff@)),
    ensures
        ({
            let raws = lines_of(diff@);
            let bad = first_unreadable(raws, 0);
            if terms@.len() == 0 {
                hits is Ok && hits->Ok_0@.len() == 0
            } else if bad < raws.len() {
                hits is Err && hits->Err_0@ == unreadable_text(raws[bad])
            } else {
                hits is Ok && views(hits->Ok_0@) == hits_in(raws, views(terms@))
            }
        }),
{
    broadcast use group_seqs;

    if terms.len() == 0 {
        return Ok(Vec::new());
    }
    let mut needles: Vec<String> = Vec::new();
    let ghost low = lowered_texts(views(terms@));
    let mut k: usize = 0;
    while k < terms.len()
        invariant
            k <= terms@.len(),
            low == lowered_texts(views(terms@)),
            views(needles@) == low.take(k as int),
        decreases terms@.len() - k,
    {
        proof {
            lemma_take_next(low, k as int);
        }
        needles.push(lowercase(terms[k].as_str()));
        k += 1;
    }
    assert(low.take(k as int) =~= low);
    assert(views(needles@).len() == needles@.len());
    let raws = lines(diff);
    let ghost all = views(raws@);
    let mut hits: Vec<Hit> = Vec::new();
    let mut file: Option<String> = None;
    let mut in_hunk = false;
    let mut next_line: usize = 0;
    let mut i: usize = 0;
    while i < raws.len()
        invariant
            i <= raws@.len(),
            all == views(raws@),
            all == lines_of(diff@),
            countable(all),
            terms@.len() > 0,
            needles@.len() == terms@.len(),
            views(needles@) == lowered_texts(views(terms@)),
            readable(all.take(i as int)),
            first_unreadable(all, 0) == first_unreadable(all, i as int),
            view_of(file) == place_after(all.take(i as int)).file,
            in_hunk == place_after(all.take(i as int)).in_hunk,
            next_line == place_after(all.take(i as int)).next,
            views(hits@) == hits_in(all.take(i as int), views(terms@)),
        decreases raws@.len() - i,
    {
        let raw = raws[i].as_str();
        let ghost before = views(hits@);
        let ghost place = place_after(all.take(i as int));
        proof {
            lemma_take_next(all, i as int);
            assert(all.take(i + 1).drop_last() =~= all.take(i as int));
            assert(all[i as int] == raw@);
        }
        if let Some(rest) = strip_prefix(raw, "@@ ") {
            match new_start(rest.as_str()) {
                Some(start) => {
                    next_line = start;
                    in_hunk = true;
                },
                None => {
                    let mut error = "unreadable hunk header ".to_owned();
                    error.append(quoted(raw).as_str());
                    return Err(error);
                },
            }
        } else if starts_with(raw, "diff --git ") {
            in_hunk = false;
        } else if !in_hunk {
            if let Some(header) = strip_prefix(raw, "+++ ") {
                file = new_side_path(header.as_str());
            }
        } else if let Some(text) = strip_prefix(raw, "+") {
            if let Some(path) = &file {
                let lowered = lowercase(text.as_str());
                let mut found = term_hits(path.as_str(), next_line, text.as_str(), lowered.as_str(), terms, &needles);
                hits.append(&mut found);
            }
            proof {
                lemma_readable_next(all, i as int);
                assert(place_after(all.take(i + 1)).next <= usize::MAX);
            }
            next_line += 1;
        } else if starts_with(raw, " ") || raw.is_empty() {
            proof {
                lemma_readable_next(all, i as int);
                assert(place_after(all.take(i + 1)).next <= usize::MAX);
            }
            next_line += 1;
        }
        proof {
            lemma_readable_next(all, i as int);
            assert(views(hits@) =~= before + line_hits(place, raw@, views(terms@)));
        }
        i += 1;
    }
    assert(all.take(i as int) =~= all);
    Ok(hits)
}

/// Whether the line at `i` is one that a branch adds, to the file of that name and under that number.
pub open spec fn adds(diff: Seq<Seq<char>>, i: int, file: Seq<char>, line: int) -> bool {
    let place = place_after(diff.take(i));
    &&& !is_hunk_header(diff[i])
    &&& !is_file_header(diff[i])
    &&& begins_with(diff[i], "+"@)
    &&& place.in_hunk
    &&& place.file == Some(file)
    &&& place.next == line
}

proof fn lemma_term_hits(
    file: Seq<char>,
    line: int,
    text: Seq<char>,
    terms: Seq<Seq<char>>,
    n: int,
    hit: HitView,
)
    requires
        0 <= n <= terms.len(),
    ensures
        hits_of_terms(file, line, text, lowercase_text(text), terms, lowered_texts(terms), n).contains(hit) <==> (
        exists|j: int|
            0 <= j < n && contains_text(lowercase_text(text), lowercase_text(#[trigger] terms[j])) && hit == (HitView {
                file,
                line,
                term: terms[j],
                text,
            })),
    decreases n,
{
    if n > 0 {
        lemma_term_hits(file, line, text, terms, n - 1, hit);
        let before = hits_of_terms(file, line, text, lowercase_text(text), terms, lowered_texts(terms), n - 1);
        let last = term_hit(file, line, text, lowercase_text(text), terms, lowered_texts(terms), n - 1);
        let all = before + last;
        assert(lowered_texts(terms)[n - 1] == lowercase_text(terms[n - 1]));
        if all.contains(hit) {
            let k = choose|k: int| 0 <= k < all.len() && all[k] == hit;
            if k < before.len() {
                assert(before[k] == hit);
            } else {
                assert(last[k - before.len()] == hit);
                assert(contains_text(lowercase_text(text), lowercase_text(terms[n - 1])));
            }
        }
        if exists|j: int|
            0 <= j < n && contains_text(lowercase_text(text), lowercase_text(#[trigger] terms[j])) && hit == (HitView {
                file,
                line,
                term: terms[j],
                text,
            }) {
            let j = choose|j: int|
                0 <= j < n && contains_text(lowercase_text(text), lowercase_text(#[trigger] terms[j])) && hit == (
                HitView { file, line, term: terms[j], text });
            if j < n - 1 {
                assert(before.contains(hit));
                let k = choose|k: int| 0 <= k < before.len() && before[k] == hit;
                assert(all[k] == hit);
            } else {
                assert(last[0] == hit);
                assert(all[before.len() as int] == hit);
            }
        }
    }
}

/// A hit is exactly an added line that names a term: every hit stands in one, under its file and
/// number, and every term that an added line names is a hit. A header, a removed line and a line of
/// context never are.
pub proof fn lemma_hits_are_named_additions(diff: Seq<Seq<char>>, terms: Seq<Seq<char>>, hit: HitView)
    ensures
        hits_in(diff, terms).contains(hit) <==> (exists|i: int|
            #![trigger adds(diff, i, hit.file, hit.line)]
            0 <= i < diff.len() && adds(diff, i, hit.file, hit.line) && hit.text == diff[i].skip("+"@.len() as int)
                && terms.contains(hit.term) && contains_text(lowercase_text(hit.text), lowercase_text(hit.term))),
    decreases diff.len(),
{
    if diff.len() > 0 {
        let rest = diff.drop_last();
        let n = rest.len() as int;
        lemma_hits_are_named_additions(rest, terms, hit);
        let place = place_after(rest);
        let raw = diff.last();
        let last = line_hits(place, raw, terms);
        let all = hits_in(rest, terms) + last;
        assert(diff.take(n) =~= rest);
        assert forall|i: int| 0 <= i < n implies diff.take(i) == #[trigger] rest.take(i) && diff[i] == rest[i] by {
            assert(diff.take(i) =~= rest.take(i));
        }
        let text = raw.skip("+"@.len() as int);
        if place.file is Some {
            lemma_term_hits(place.file->0, place.next, text, terms, terms.len() as int, hit);
        }
        if all.contains(hit) {
            let k = choose|k: int| 0 <= k < all.len() && all[k] == hit;
            if k < hits_in(rest, terms).len() {
                assert(hits_in(rest, terms)[k] == hit);
                let i = choose|i: int|
                    #![trigger adds(rest, i, hit.file, hit.line)]
                    0 <= i < rest.len() && adds(rest, i, hit.file, hit.line) && hit.text == rest[i].skip(
                        "+"@.len() as int,
                    ) && terms.contains(hit.term) && contains_text(
                        lowercase_text(hit.text),
                        lowercase_text(hit.term),
                    );
                assert(diff.take(i) == rest.take(i));
                assert(adds(diff, i, hit.file, hit.line));
            } else {
                assert(last[k - hits_in(rest, terms).len()] == hit);
                assert(last.contains(hit));
                assert(adds(diff, n, hit.file, hit.line));
            }
        }
        if exists|i: int|
            #![trigger adds(diff, i, hit.file, hit.line)]
            0 <= i < diff.len() && adds(diff, i, hit.file, hit.line) && hit.text == diff[i].skip("+"@.len() as int)
                && terms.contains(hit.term) && contains_text(lowercase_text(hit.text), lowercase_text(hit.term)) {
            let i = choose|i: int|
                #![trigger adds(diff, i, hit.file, hit.line)]
                0 <= i < diff.len() && adds(diff, i, hit.file, hit.line) && hit.text == diff[i].skip(
                    "+"@.len() as int,
                ) && terms.contains(hit.term) && contains_text(lowercase_text(hit.text), lowercase_text(hit.term));
            if i < n {
                assert(diff.take(i) == rest.take(i));
                assert(adds(rest, i, hit.file, hit.line));
                assert(hits_in(rest, terms).contains(hit));
                let k = choose|k: int| 0 <= k < hits_in(rest, terms).len() && hits_in(rest, terms)[k] == hit;
                assert(all[k] == hit);
            } else {
                let j = choose|j: int| 0 <= j < terms.len() && terms[j] == hit.term;
                assert(contains_text(lowercase_text(text), lowercase_text(terms[j])));
                assert(last.contains(hit));
                let k = choose|k: int| 0 <= k < last.len() && last[k] == hit;
                assert(all[hits_in(rest, terms).len() + k] == hit);
            }
        }
    }
}

/// The lines of a hunk that stand on its new side: those that are empty or begin with a plus sign or
/// a space.
pub open spec fn on_new_side() -> spec_fn(Seq<char>) -> bool {
    |raw: Seq<char>| raw.len() == 0 || raw[0] == '+' || raw[0] == ' '
}

/// Whether the line at `h` opens the hunk that the lines after it, up to `i`, stand in.
pub open spec fn opens_hunk_of(diff: Seq<Seq<char>>, h: int, i: int) -> bool {
    &&& 0 <= h < i <= diff.len()
    &&& begins_with(diff[h], "@@ "@)
    &&& forall|j: int|
        h < j < i ==> !begins_with(#[trigger] diff[j], "@@ "@) && !begins_with(diff[j], "diff --git "@)
}

proof fn lemma_first_character(raw: Seq<char>)
    ensures
        begins_with(raw, "+"@) <==> raw.len() > 0 && raw[0] == '+',
        begins_with(raw, " "@) <==> raw.len() > 0 && raw[0] == ' ',
        begins_with(raw, "@@ "@) ==> raw.len() > 0 && raw[0] == '@',
        begins_with(raw, "diff --git "@) ==> raw.len() > 0 && raw[0] == 'd',
        begins_with(raw, "+++ "@) ==> raw.len() > 0 && raw[0] == '+',
        "+"@.len() == 1,
{
    reveal_strlit("+");
    reveal_strlit(" ");
    reveal_strlit("@@ ");
    reveal_strlit("diff --git ");
    reveal_strlit("+++ ");
    if begins_with(raw, "@@ "@) {
        assert(raw.take(3)[0] == raw[0]);
    }
    if begins_with(raw, "diff --git "@) {
        assert(raw.take(11)[0] == raw[0]);
    }
    if begins_with(raw, "+++ "@) {
        assert(raw.take(4)[0] == raw[0]);
    }
    if raw.len() > 0 {
        assert(raw.take(1)[0] == raw[0]);
        if raw[0] == '+' {
            assert(raw.take(1) =~= "+"@);
        }
        if raw[0] == ' ' {
            assert(raw.take(1) =~= " "@);
        }
    }
}

/// A reader is inside a hunk exactly if a hunk header came and no file header after it.
pub proof fn lemma_hunk_stays_open(diff: Seq<Seq<char>>)
    ensures
        place_after(diff).in_hunk <==> exists|h: int|
            0 <= h < diff.len() && begins_with(#[trigger] diff[h], "@@ "@) && forall|j: int|
                h < j < diff.len() ==> !begins_with(#[trigger] diff[j], "diff --git "@),
    decreases diff.len(),
{
    if diff.len() > 0 {
        let rest = diff.drop_last();
        let last = diff.len() - 1;
        lemma_hunk_stays_open(rest);
        lemma_first_character(diff[last]);
        if place_after(diff).in_hunk {
            if begins_with(diff[last], "@@ "@) {
                assert(begins_with(diff[last], "@@ "@));
            } else {
                let h = choose|h: int|
                    0 <= h < rest.len() && begins_with(#[trigger] rest[h], "@@ "@) && forall|j: int|
                        h < j < rest.len() ==> !begins_with(#[trigger] rest[j], "diff --git "@);
                assert(begins_with(diff[h], "@@ "@));
                assert forall|j: int| h < j < diff.len() implies !begins_with(#[trigger] diff[j], "diff --git "@) by {
                    if j < last {
                        assert(rest[j] == diff[j]);
                    }
                }
            }
        }
        if exists|h: int|
            0 <= h < diff.len() && begins_with(#[trigger] diff[h], "@@ "@) && forall|j: int|
                h < j < diff.len() ==> !begins_with(#[trigger] diff[j], "diff --git "@) {
            let h = choose|h: int|
                0 <= h < diff.len() && begins_with(#[trigger] diff[h], "@@ "@) && forall|j: int|
                    h < j < diff.len() ==> !begins_with(#[trigger] diff[j], "diff --git "@);
            if h < last {
                assert(!begins_with(diff[last], "diff --git "@));
                assert(begins_with(rest[h], "@@ "@));
                assert forall|j: int| h < j < rest.len() implies !begins_with(#[trigger] rest[j], "diff --git "@) by {
                    assert(rest[j] == diff[j]);
                }
            }
        }
    }
}

/// The hunks that follow add to the file that the last `+++` line outside a hunk named.
pub proof fn lemma_file_is_the_last_named(diff: Seq<Seq<char>>, k: int)
    requires
        0 <= k < diff.len(),
        begins_with(diff[k], "+++ "@),
        !place_after(diff.take(k)).in_hunk,
        forall|j: int|
            k < j < diff.len() && begins_with(#[trigger] diff[j], "+++ "@) ==> place_after(diff.take(j)).in_hunk,
    ensures
        place_after(diff).file == named_path(diff[k].skip(4)),
    decreases diff.len(),
{
    let rest = diff.drop_last();
    let last = diff.len() - 1;
    assert(diff.take(last) =~= rest);
    lemma_first_character(diff[last]);
    reveal_strlit("+++ ");
    if k < last {
        assert(rest.take(k) =~= diff.take(k));
        assert forall|j: int| k < j < rest.len() && begins_with(#[trigger] rest[j], "+++ "@) implies place_after(
            rest.take(j),
        ).in_hunk by {
            assert(begins_with(diff[j], "+++ "@));
            assert(rest.take(j) =~= diff.take(j));
        }
        lemma_file_is_the_last_named(rest, k);
    }
}

/// What a `+++` line names: nothing for a deletion, the path without its `b/` where it has one, the
/// path as it stands elsewhere; what follows a tab is no part of it.
pub proof fn lemma_named_path(path: Seq<char>, tail: Seq<char>)
    requires
        !path.contains('\t'),
    ensures
        named_path("/dev/null"@) is None,
        named_path("b/"@ + path) == Some(path),
        !begins_with(path, "b/"@) && path != "/dev/null"@ ==> named_path(path) == Some(path),
        named_path(path + seq!['\t'] + tail) == named_path(path),
{
    reveal_strlit("/dev/null");
    reveal_strlit("b/");
    let null = "/dev/null"@;
    lemma_next_at(null, '\t', 0);
    assert(null.take(null.len() as int) =~= null);
    let under = "b/"@ + path;
    lemma_next_at(under, '\t', 0);
    if next_at(under, '\t', 0) < under.len() {
        let at = next_at(under, '\t', 0);
        assert(path[at - 2] == '\t');
        assert(path.contains('\t'));
    }
    assert(under.take(under.len() as int) =~= under);
    assert(under.take(2) =~= "b/"@);
    assert(under.skip(2) =~= path);
    assert(under[0] == 'b');
    lemma_next_at(path, '\t', 0);
    if next_at(path, '\t', 0) < path.len() {
        assert(path.contains(path[next_at(path, '\t', 0)]));
    }
    assert(path.take(path.len() as int) =~= path);
    let whole = path + seq!['\t'] + tail;
    lemma_next_at(whole, '\t', 0);
    let at = next_at(whole, '\t', 0);
    assert(whole[path.len() as int] == '\t');
    if at < path.len() {
        assert(path[at] == '\t');
        assert(path.contains('\t'));
    }
    assert(at == path.len());
    assert(whole.take(at) =~= path);
}

/// The number of the next new-side line is the start that the header of the hunk names, and one more
/// for each line after it that stands on the new side.
proof fn lemma_count_from_header(diff: Seq<Seq<char>>, h: int)
    requires
        opens_hunk_of(diff, h, diff.len() as int),
        header_start(diff[h]) is Some,
    ensures
        place_after(diff).in_hunk,
        place_after(diff).next == header_start(diff[h])->0 + diff.skip(h + 1).filter(on_new_side()).len(),
    decreases diff.len(),
{
    let rest = diff.drop_last();
    let last = diff.len() - 1;
    reveal(Seq::filter);
    lemma_first_character(diff[last]);
    if h < last {
        assert(opens_hunk_of(rest, h, rest.len() as int)) by {
            assert forall|j: int| h < j < rest.len() implies !begins_with(#[trigger] rest[j], "@@ "@) && !begins_with(
                rest[j],
                "diff --git "@,
            ) by {
                assert(rest[j] == diff[j]);
            }
        }
        lemma_count_from_header(rest, h);
        assert(diff.skip(h + 1).drop_last() =~= rest.skip(h + 1));
        assert(diff.skip(h + 1).last() == diff[last]);
        assert(!begins_with(diff[last], "@@ "@));
    } else {
        assert(diff.skip(h + 1) =~= Seq::empty());
    }
}

proof fn lemma_nearest_header(diff: Seq<Seq<char>>) -> (h: int)
    requires
        place_after(diff).in_hunk,
    ensures
        opens_hunk_of(diff, h, diff.len() as int),
    decreases diff.len(),
{
    let last = diff.len() - 1;
    lemma_first_character(diff[last]);
    if begins_with(diff[last], "@@ "@) {
        last
    } else {
        let rest = diff.drop_last();
        let h = lemma_nearest_header(rest);
        assert(rest[h] == diff[h]);
        assert forall|j: int| h < j < diff.len() implies !begins_with(#[trigger] diff[j], "@@ "@) && !begins_with(
            diff[j],
            "diff --git "@,
        ) by {
            if j < last {
                assert(rest[j] == diff[j]);
            }
        }
        h
    }
}

/// A hit stands in a line of a hunk that begins with a plus sign, and its number is the start that the
/// header of the hunk names and one more for each line between the two that is empty or begins with a
/// plus sign or a space.
pub proof fn lemma_hit_line_counts_from_header(diff: Seq<Seq<char>>, terms: Seq<Seq<char>>, hit: HitView)
    requires
        readable(diff),
        hits_in(diff, terms).contains(hit),
    ensures
        exists|h: int, i: int|
            #![trigger opens_hunk_of(diff, h, i)]
            opens_hunk_of(diff, h, i) && i < diff.len() && diff[i].len() > 0 && diff[i][0] == '+' && hit.text
                == diff[i].skip(1) && hit.line == header_start(diff[h])->0 + diff.subrange(h + 1, i).filter(
                on_new_side(),
            ).len() && terms.contains(hit.term),
{
    lemma_hits_are_named_additions(diff, terms, hit);
    let i = choose|i: int|
        #![trigger adds(diff, i, hit.file, hit.line)]
        0 <= i < diff.len() && adds(diff, i, hit.file, hit.line) && hit.text == diff[i].skip("+"@.len() as int)
            && terms.contains(hit.term) && contains_text(lowercase_text(hit.text), lowercase_text(hit.term));
    let before = diff.take(i);
    let h = lemma_nearest_header(before);
    lemma_first_character(diff[i]);
    assert(before[h] == diff[h]);
    lemma_count_from_header(before, h);
    assert(before.skip(h + 1) =~= diff.subrange(h + 1, i));
    assert(opens_hunk_of(diff, h, i)) by {
        assert forall|j: int| h < j < i implies !begins_with(#[trigger] diff[j], "@@ "@) && !begins_with(
            diff[j],
            "diff --git "@,
        ) by {
            assert(before[j] == diff[j]);
        }
    }
}

/// A line of a hunk that begins with a plus sign and names a term, in whatever case, is a hit under the
/// number that counting from the hunk's header gives it.
pub proof fn lemma_named_addition_is_hit(
    diff: Seq<Seq<char>>,
    terms: Seq<Seq<char>>,
    term: Seq<char>,
    file: Seq<char>,
    h: int,
    i: int,
)
    requires
        opens_hunk_of(diff, h, i),
        i < diff.len(),
        header_start(diff[h]) is Some,
        place_after(diff.take(i)).file == Some(file),
        diff[i].len() > 0,
        diff[i][0] == '+',
        terms.contains(term),
        contains_text(lowercase_text(diff[i].skip(1)), lowercase_text(term)),
    ensures
        hits_in(diff, terms).contains(
            (HitView {
                file,
                line: (header_start(diff[h])->0 + diff.subrange(h + 1, i).filter(on_new_side()).len()) as int,
                term,
                text: diff[i].skip(1),
            }),
        ),
{
    let before = diff.take(i);
    lemma_first_character(diff[i]);
    assert(opens_hunk_of(before, h, i)) by {
        assert(before[h] == diff[h]);
        assert forall|j: int| h < j < i implies !begins_with(#[trigger] before[j], "@@ "@) && !begins_with(
            before[j],
            "diff --git "@,
        ) by {
            assert(before[j] == diff[j]);
        }
    }
    lemma_count_from_header(before, h);
    assert(before.skip(h + 1) =~= diff.subrange(h + 1, i));
    let line: int = (header_start(diff[h])->0 + diff.subrange(h + 1, i).filter(on_new_side()).len()) as int;
    let hit = HitView { file, line, term, text: diff[i].skip(1) };
    lemma_hits_are_named_additions(diff, terms, hit);
    assert(adds(diff, i, hit.file, hit.line));
    assert(hit.text == diff[i].skip("+"@.len() as int));
}

proof fn lemma_without_line(diff: Seq<Seq<char>>, terms: Seq<Seq<char>>, i: int)
    requires
        0 <= i < diff.len(),
        diff[i].len() > 0,
        diff[i][0] == '-',
    ensures
        place_after(diff.remove(i)) == place_after(diff),
        hits_in(diff.remove(i), terms) == hits_in(diff, terms),
    decreases diff.len(),
{
    let rest = diff.drop_last();
    let last = diff.len() - 1;
    lemma_first_character(diff[i]);
    if i == last {
        assert(diff.remove(i) =~= rest);
        assert(hits_in(diff, terms) =~= hits_in(rest, terms));
    } else {
        lemma_without_line(rest, terms, i);
        assert(diff.remove(i).drop_last() =~= rest.remove(i));
        assert(diff.remove(i).last() == diff.last());
    }
}

/// A removed line is nobody's addition and counts for nothing: a diff without a line that begins with
/// a minus sign has the same hits, under the same numbers.
pub proof fn lemma_removed_line_changes_no_hit(diff: Seq<Seq<char>>, terms: Seq<Seq<char>>, i: int)
    requires
        0 <= i < diff.len(),
        diff[i].len() > 0,
        diff[i][0] == '-',
    ensures
        hits_in(diff.remove(i), terms) == hits_in(diff, terms),
{
    lemma_without_line(diff, terms, i);
}

/// The start that a hunk header names is the number behind the plus sign of the first word that has
/// one, up to a comma.
pub proof fn lemma_header_start(raw: Seq<char>, start: nat)
    requires
        begins_with(raw, "@@ "@),
        header_start(raw) == Some(start),
    ensures
        exists|k: int|
            0 <= k < words_of(raw.skip(3)).len() && (#[trigger] words_of(raw.skip(3))[k]).len() > 0 && words_of(
                raw.skip(3),
            )[k][0] == '+' && (forall|j: int|
                0 <= j < k ==> (#[trigger] words_of(raw.skip(3))[j]).len() == 0 || words_of(raw.skip(3))[j][0] != '+')
                && number_within(
                words_of(raw.skip(3))[k].subrange(1, next_at(words_of(raw.skip(3))[k], ',', 1)),
                usize::MAX as nat,
            ) == Some(start),
{
    reveal_strlit("@@ ");
    let tokens = words_of(raw.skip(3));
    let k = lemma_first_plus(tokens);
    let word = tokens[k];
    let range = word.skip(1);
    lemma_next_at(range, ',', 0);
    lemma_next_at(word, ',', 1);
    let at = next_at(word, ',', 1);
    let cut = next_at(range, ',', 0);
    if at < word.len() {
        assert(range[at - 1] == ',');
    }
    if cut < range.len() {
        assert(word[cut + 1] == ',');
    }
    assert(at == cut + 1) by {
        if at < cut + 1 {
            assert(range[at - 1] != ',');
        }
        if cut + 1 < at {
            assert(word[cut + 1] != ',');
        }
    }
    assert(range.take(cut) =~= word.subrange(1, at));
}

proof fn lemma_first_plus(tokens: Seq<Seq<char>>) -> (k: int)
    requires
        first_plus(tokens) is Some,
    ensures
        0 <= k < tokens.len(),
        tokens[k].len() > 0,
        tokens[k][0] == '+',
        forall|j: int| 0 <= j < k ==> (#[trigger] tokens[j]).len() == 0 || tokens[j][0] != '+',
        first_plus(tokens) == Some(tokens[k].skip(1)),
    decreases tokens.len(),
{
    lemma_first_character(tokens[0]);
    if begins_with(tokens[0], "+"@) {
        0
    } else {
        let rest = tokens.drop_first();
        let k = lemma_first_plus(rest);
        assert(rest[k] == tokens[k + 1]);
        assert forall|j: int| 0 <= j < k + 1 implies (#[trigger] tokens[j]).len() == 0 || tokens[j][0] != '+' by {
            if j > 0 {
                assert(rest[j - 1] == tokens[j]);
            }
        }
        k + 1
    }
}

/// Hits stand in the order of the diff: what a further line adds comes after them, at most one hit for each
/// term, and nothing where the line is no addition.
pub proof fn lemma_hits_follow_the_diff(diff: Seq<Seq<char>>, raw: Seq<char>, terms: Seq<Seq<char>>)
    ensures
        ({
            let before = hits_in(diff, terms);
            let after = hits_in(diff.push(raw), terms);
            &&& before.len() <= after.len() <= before.len() + terms.len()
            &&& after.take(before.len() as int) == before
            &&& raw.len() == 0 || raw[0] != '+' ==> after == before
        }),
        hits_in(Seq::empty(), terms).len() == 0,
{
    let more = diff.push(raw);
    let before = hits_in(diff, terms);
    assert(more.drop_last() =~= diff);
    let place = place_after(diff);
    let text = raw.skip("+"@.len() as int);
    lemma_first_character(raw);
    lemma_hits_of_terms_len(place.file->0, place.next, text, terms, terms.len() as int);
    assert(hits_in(more, terms).take(before.len() as int) =~= before);
    if raw.len() == 0 || raw[0] != '+' {
        assert(hits_in(more, terms) =~= before);
    }
}

proof fn lemma_hits_of_terms_len(file: Seq<char>, line: int, text: Seq<char>, terms: Seq<Seq<char>>, n: int)
    requires
        0 <= n <= terms.len(),
    ensures
        hits_of_terms(file, line, text, lowercase_text(text), terms, lowered_texts(terms), n).len() <= n,
    decreases n,
{
    if n > 0 {
        lemma_hits_of_terms_len(file, line, text, terms, n - 1);
    }
}

/// A diff is refused exactly if some hunk header has no readable start, and for the first one that has none.
pub proof fn lemma_first_unreadable(diff: Seq<Seq<char>>, from: int)
    requires
        0 <= from <= diff.len(),
    ensures
        from <= first_unreadable(diff, from) <= diff.len(),
        first_unreadable(diff, from) < diff.len() ==> begins_with(diff[first_unreadable(diff, from)], "@@ "@)
            && header_start(diff[first_unreadable(diff, from)]) is None,
        forall|i: int|
            from <= i < first_unreadable(diff, from) ==> !begins_with(#[trigger] diff[i], "@@ "@) || header_start(
                diff[i],
            ) is Some,
        first_unreadable(diff, from) == diff.len() <==> forall|i: int|
            from <= i < diff.len() && begins_with(#[trigger] diff[i], "@@ "@) ==> header_start(diff[i]) is Some,
    decreases diff.len() - from,
{
    if from < diff.len() && !(is_hunk_header(diff[from]) && header_start(diff[from]) is None) {
        lemma_first_unreadable(diff, from + 1);
    }
    if from < diff.len() && is_hunk_header(diff[from]) && header_start(diff[from]) is None {
        assert(begins_with(diff[from], "@@ "@));
    }
}

proof fn lemma_first_plus_at(tokens: Seq<Seq<char>>, k: int)
    requires
        0 <= k < tokens.len(),
        tokens[k].len() > 0,
        tokens[k][0] == '+',
        forall|j: int| 0 <= j < k ==> (#[trigger] tokens[j]).len() == 0 || tokens[j][0] != '+',
    ensures
        first_plus(tokens) == Some(tokens[k].skip(1)),
    decreases tokens.len(),
{
    lemma_first_character(tokens[0]);
    if k > 0 {
        let rest = tokens.drop_first();
        assert(tokens[0].len() == 0 || tokens[0][0] != '+');
        assert(rest[k - 1] == tokens[k]);
        assert forall|j: int| 0 <= j < k - 1 implies (#[trigger] rest[j]).len() == 0 || rest[j][0] != '+' by {
            assert(rest[j] == tokens[j + 1]);
        }
        lemma_first_plus_at(rest, k - 1);
    }
}

/// What follows the plus sign of a hunk header's first word with one, up to a comma, is read as the number of
/// the hunk's first line; where it is no number that fits, the header cannot be read.
pub proof fn lemma_header_reads(raw: Seq<char>, k: int, before: Seq<char>, after: Seq<char>)
    requires
        begins_with(raw, "@@ "@),
        0 <= k < words_of(raw.skip(3)).len(),
        words_of(raw.skip(3))[k] == seq!['+'] + before || words_of(raw.skip(3))[k] == seq!['+'] + before + seq![','] + after,
        !before.contains(','),
        forall|j: int|
            0 <= j < k ==> (#[trigger] words_of(raw.skip(3))[j]).len() == 0 || words_of(raw.skip(3))[j][0] != '+',
    ensures
        header_start(raw) == number_within(before, usize::MAX as nat),
{
    reveal_strlit("@@ ");
    let tokens = words_of(raw.skip(3));
    let word = tokens[k];
    lemma_first_plus_at(tokens, k);
    let range = word.skip(1);
    lemma_next_at(range, ',', 0);
    let at = next_at(range, ',', 0);
    assert forall|i: int| 0 <= i < before.len() implies before[i] != ',' by {
        assert(before.contains(before[i]));
    }
    if word == seq!['+'] + before {
        assert(range =~= before);
        assert(at == before.len());
    } else {
        assert(range =~= before + seq![','] + after);
        assert(range[before.len() as int] == ',');
        if at < before.len() {
            assert(range[at] == before[at]);
        }
        assert(at == before.len());
    }
    assert(range.take(at) =~= before);
}

} // verus!
