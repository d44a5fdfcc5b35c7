//! Text as a sequence of characters: the small string operations every report is built from.

use vstd::prelude::*;
use vstd::string::*;

use crate::order::{lex_less, Ordered};
use crate::seqs::{group_seqs, lemma_once, once, views};

verus! {

/// `String::push` of the standard library: the character is added at the end.
pub assume_specification[ String::push ](s: &mut String, c: char)
    ensures
        final(s)@ == old(s)@.push(c),
;

/// The characters of `s`, in order.
pub fn chars_of(s: &str) -> (out: Vec<char>)
    ensures
        out@ == s@,
{
    let mut out: Vec<char> = Vec::new();
    for c in it: s.chars()
        invariant
            out@ == it.seq().take(it.index()),
            it.seq() == s@,
    {
        out.push(c);
    }
    assert(s@.take(s@.len() as int) =~= s@);
    out
}

/// The text of `chars` from `from` up to but not including `to`.
pub fn slice_text(chars: &Vec<char>, from: usize, to: usize) -> (out: String)
    requires
        from <= to <= chars@.len(),
    ensures
        out@ == chars@.subrange(from as int, to as int),
{
    let mut out = String::new();
    let mut i: usize = from;
    while i < to
        invariant
            from <= i <= to <= chars@.len(),
            out@ == chars@.subrange(from as int, i as int),
        decreases to - i,
    {
        out.push(chars[i]);
        i += 1;
        assert(out@ =~= chars@.subrange(from as int, i as int));
    }
    out
}

/// The digit character for `n`, where `n` is below ten.
pub open spec fn digit_char(n: nat) -> char {
    (48 + n) as char
}

/// `n` written in decimal, without leading zeros.
pub open spec fn decimal_text(n: nat) -> Seq<char>
    decreases n,
{
    if n < 10 {
        seq![digit_char(n)]
    } else {
        decimal_text(n / 10).push(digit_char(n % 10))
    }
}

fn digit(n: u64) -> (c: char)
    requires
        n < 10,
    ensures
        c == digit_char(n as nat),
{
    (48u8 + n as u8) as char
}

/// `n` in decimal.
pub fn decimal(n: u64) -> (out: String)
    ensures
        out@ == decimal_text(n as nat),
    decreases n,
{
    if n < 10 {
        let mut out = String::new();
        out.push(digit(n));
        assert(out@ =~= seq![digit_char(n as nat)]);
        out
    } else {
        let mut out = decimal(n / 10);
        out.push(digit(n % 10));
        out
    }
}

/// Whether the two texts are the same.
pub fn same(a: &str, b: &str) -> (r: bool)
    ensures
        r == (a@ == b@),
{
    let left = chars_of(a);
    let right = chars_of(b);
    if left.len() != right.len() {
        return false;
    }
    let mut i: usize = 0;
    while i < left.len()
        invariant
            i <= left@.len(),
            left@ == a@,
            right@ == b@,
            left@.len() == right@.len(),
            forall|j: int| 0 <= j < i ==> left@[j] == right@[j],
        decreases left@.len() - i,
    {
        if left[i] != right[i] {
            return false;
        }
        i += 1;
    }
    assert(left@ =~= right@);
    true
}

/// The code points of a text: what orders it among texts.
pub open spec fn ranks(s: Seq<char>) -> Seq<int> {
    Seq::new(s.len(), |i: int| s[i] as int)
}

/// Texts with the same code points are the same text.
pub proof fn lemma_ranks_injective(a: Seq<char>, b: Seq<char>)
    ensures
        ranks(a) == ranks(b) <==> a == b,
{
    if ranks(a) == ranks(b) {
        assert(a.len() == ranks(a).len());
        assert forall|i: int| 0 <= i < a.len() implies a[i] == b[i] by {
            assert(ranks(a)[i] == ranks(b)[i]);
        }
        assert(a =~= b);
    }
}

/// Whether `a` comes before `b`, code point by code point.
pub fn text_precedes(a: &str, b: &str) -> (r: bool)
    ensures
        r == lex_less(ranks(a@), ranks(b@)),
{
    let left = chars_of(a);
    let right = chars_of(b);
    let mut i: usize = 0;
    proof {
        assert(ranks(a@).skip(0) =~= ranks(a@));
        assert(ranks(b@).skip(0) =~= ranks(b@));
    }
    while i < left.len() && i < right.len() && left[i] == right[i]
        invariant
            left@ == a@,
            right@ == b@,
            i <= left@.len(),
            i <= right@.len(),
            lex_less(ranks(a@), ranks(b@)) == lex_less(ranks(a@).skip(i as int), ranks(b@).skip(i as int)),
        decreases left@.len() - i,
    {
        proof {
            assert(ranks(a@).skip(i as int).drop_first() =~= ranks(a@).skip(i + 1));
            assert(ranks(b@).skip(i as int).drop_first() =~= ranks(b@).skip(i + 1));
        }
        i += 1;
    }
    if i >= right.len() {
        return false;
    }
    if i >= left.len() {
        return true;
    }
    left[i] < right[i]
}

impl Ordered for String {
    open spec fn rank(&self) -> Seq<int> {
        ranks(self@)
    }

    fn precedes(&self, other: &Self) -> (r: bool) {
        text_precedes(self.as_str(), other.as_str())
    }
}

/// The ASCII lower case of a character; every other character is itself.
pub open spec fn ascii_lower(c: char) -> char {
    if 'A' <= c <= 'Z' {
        (c as u32 + 32) as char
    } else {
        c
    }
}

/// Whether two texts differ at most in the case of ASCII letters.
pub open spec fn same_ignoring_case(a: Seq<char>, b: Seq<char>) -> bool {
    a.len() == b.len() && forall|i: int| 0 <= i < a.len() ==> #[trigger] ascii_lower(a[i]) == ascii_lower(b[i])
}

fn to_ascii_lower(c: char) -> (r: char)
    ensures
        r == ascii_lower(c),
{
    if 'A' <= c && c <= 'Z' {
        ((c as u8) + 32) as char
    } else {
        c
    }
}

/// Whether two texts differ at most in the case of ASCII letters.
pub fn eq_ignore_case(a: &str, b: &str) -> (r: bool)
    ensures
        r == same_ignoring_case(a@, b@),
{
    let left = chars_of(a);
    let right = chars_of(b);
    if left.len() != right.len() {
        return false;
    }
    let mut i: usize = 0;
    while i < left.len()
        invariant
            i <= left@.len(),
            left@.len() == right@.len(),
            left@ == a@,
            right@ == b@,
            forall|j: int| 0 <= j < i ==> #[trigger] ascii_lower(left@[j]) == ascii_lower(right@[j]),
        decreases left@.len() - i,
    {
        if to_ascii_lower(left[i]) != to_ascii_lower(right[i]) {
            assert(ascii_lower(a@[i as int]) != ascii_lower(b@[i as int]));
            return false;
        }
        i += 1;
    }
    true
}

/// The texts one after the other with `separator` between each two.
pub open spec fn joined(parts: Seq<Seq<char>>, separator: Seq<char>) -> Seq<char>
    decreases parts.len(),
{
    if parts.len() == 0 {
        Seq::empty()
    } else if parts.len() == 1 {
        parts[0]
    } else {
        joined(parts.drop_last(), separator) + separator + parts.last()
    }
}

/// The texts one after the other with `separator` between each two.
pub fn join(parts: &Vec<String>, separator: &str) -> (out: String)
    ensures
        out@ == joined(views(parts@), separator@),
{
    let mut out = String::new();
    let mut i: usize = 0;
    assert(views(parts@).take(0) =~= Seq::empty());
    while i < parts.len()
        invariant
            i <= parts@.len(),
            out@ == joined(views(parts@).take(i as int), separator@),
        decreases parts@.len() - i,
    {
        proof {
            let next = views(parts@).take(i + 1);
            assert(next.drop_last() =~= views(parts@).take(i as int));
            assert(next.last() == parts@[i as int]@);
        }
        if i > 0 {
            out.append(separator);
            out.append(parts[i].as_str());
        } else {
            out.append(parts[i].as_str());
            assert(out@ =~= parts@[0]@);
        }
        i += 1;
    }
    assert(views(parts@).take(parts@.len() as int) =~= views(parts@));
    out
}

/// The texts, each between what opens and what closes its line.
pub open spec fn flanked(open: Seq<char>, texts: Seq<Seq<char>>, close: Seq<char>) -> Seq<Seq<char>> {
    Seq::new(texts.len(), |i: int| open + texts[i] + close)
}

/// Adds the texts to `lines`, each between what opens and what closes its line.
pub fn push_flanked(lines: &mut Vec<String>, open: &str, texts: &[String], close: &str)
    ensures
        views(final(lines)@) == views(old(lines)@) + flanked(open@, views(texts@), close@),
{
    let ghost all = flanked(open@, views(texts@), close@);
    let ghost before = views(lines@);
    let mut i: usize = 0;
    assert(before + all.take(0) =~= before);
    while i < texts.len()
        invariant
            i <= texts@.len(),
            all == flanked(open@, views(texts@), close@),
            views(lines@) == before + all.take(i as int),
        decreases texts@.len() - i,
    {
        let mut line = open.to_owned();
        line.append(texts[i].as_str());
        line.append(close);
        assert(line@ == all[i as int]);
        let ghost earlier = lines@;
        lines.push(line);
        assert(views(lines@) =~= views(earlier).push(line@));
        assert(views(lines@) =~= before + all.take(i + 1));
        i += 1;
    }
    assert(all.take(i as int) =~= all);
}

/// The texts, each behind a mark.
pub open spec fn marked(mark: Seq<char>, texts: Seq<Seq<char>>) -> Seq<Seq<char>> {
    Seq::new(texts.len(), |i: int| mark + texts[i])
}

/// Adds the texts to `lines`, each behind a mark.
pub fn push_marked(lines: &mut Vec<String>, mark: &str, texts: &[String])
    ensures
        views(final(lines)@) == views(old(lines)@) + marked(mark@, views(texts@)),
{
    proof {
        reveal_strlit("");
        assert forall|s: Seq<char>| #[trigger] (s + ""@) == s by {
            assert(s + ""@ =~= s);
        }
        assert(flanked(mark@, views(texts@), ""@) =~= marked(mark@, views(texts@)));
    }
    push_flanked(lines, mark, texts, "");
}

/// The text with every `from` turned into `to`.
pub open spec fn replaced(s: Seq<char>, from: char, to: char) -> Seq<char> {
    Seq::new(
        s.len(),
        |i: int|
            if s[i] == from {
                to
            } else {
                s[i]
            },
    )
}

/// The text with every `from` turned into `to`.
pub fn replace_char(s: &str, from: char, to: char) -> (out: String)
    ensures
        out@ == replaced(s@, from, to),
{
    let chars = chars_of(s);
    let mut out = String::new();
    let mut i: usize = 0;
    while i < chars.len()
        invariant
            i <= chars@.len(),
            out@ == replaced(chars@, from, to).take(i as int),
        decreases chars@.len() - i,
    {
        if chars[i] == from {
            out.push(to);
        } else {
            out.push(chars[i]);
        }
        i += 1;
        assert(out@ =~= replaced(chars@, from, to).take(i as int));
    }
    assert(out@ =~= replaced(s@, from, to));
    out
}

/// At most the first `n` characters.
pub open spec fn prefix(s: Seq<char>, n: nat) -> Seq<char> {
    if s.len() <= n {
        s
    } else {
        s.take(n as int)
    }
}

/// At most the first `n` characters.
pub fn shortened(s: &str, n: usize) -> (out: String)
    ensures
        out@ == prefix(s@, n as nat),
{
    let chars = chars_of(s);
    if chars.len() <= n {
        slice_text(&chars, 0, chars.len())
    } else {
        slice_text(&chars, 0, n)
    }
}

/// Whether `s` begins with `start`.
pub open spec fn begins_with(s: Seq<char>, start: Seq<char>) -> bool {
    start.len() <= s.len() && s.take(start.len() as int) == start
}

fn matches_at(s: &Vec<char>, needle: &Vec<char>, at: usize) -> (r: bool)
    requires
        at + needle@.len() <= s@.len(),
    ensures
        r == (s@.subrange(at as int, at + needle@.len()) == needle@),
{
    let mut i: usize = 0;
    let length = s.len();
    while i < needle.len()
        invariant
            i <= needle@.len(),
            length == s@.len(),
            at + needle@.len() <= length,
            forall|j: int| 0 <= j < i ==> s@[at + j] == #[trigger] needle@[j],
        decreases needle@.len() - i,
    {
        if s[at + i] != needle[i] {
            assert(s@.subrange(at as int, at + needle@.len())[i as int] != needle@[i as int]);
            return false;
        }
        i += 1;
    }
    assert(s@.subrange(at as int, at + needle@.len()) =~= needle@);
    true
}

/// Whether `s` begins with `start`.
pub fn starts_with(s: &str, start: &str) -> (r: bool)
    ensures
        r == begins_with(s@, start@),
{
    let chars = chars_of(s);
    let needle = chars_of(start);
    if needle.len() > chars.len() {
        return false;
    }
    assert(s@.subrange(0, start@.len() as int) =~= s@.take(start@.len() as int));
    matches_at(&chars, &needle, 0)
}

/// What follows `start` in `s`, where `s` begins with it.
pub fn strip_prefix(s: &str, start: &str) -> (rest: Option<String>)
    ensures
        match rest {
            Some(text) => begins_with(s@, start@) && text@ == s@.skip(start@.len() as int),
            None => !begins_with(s@, start@),
        },
{
    if !starts_with(s, start) {
        return None;
    }
    let chars = chars_of(s);
    let from = start.unicode_len();
    let text = slice_text(&chars, from, chars.len());
    assert(text@ =~= s@.skip(start@.len() as int));
    Some(text)
}

/// Where `needle` first stands in `s` at or after `from`.
pub open spec fn first_match(s: Seq<char>, needle: Seq<char>, from: int) -> Option<int>
    decreases s.len() + 1 - from,
{
    if from < 0 || from + needle.len() > s.len() {
        None
    } else if s.subrange(from, from + needle.len()) == needle {
        Some(from)
    } else {
        first_match(s, needle, from + 1)
    }
}

/// Where `needle` first stands in `s`, counted in characters.
pub fn find_text(s: &str, needle: &str) -> (at: Option<usize>)
    ensures
        match at {
            Some(i) => first_match(s@, needle@, 0) == Some(i as int) && i + needle@.len() <= s@.len(),
            None => first_match(s@, needle@, 0) is None,
        },
{
    let chars = chars_of(s);
    let wanted = chars_of(needle);
    let mut i: usize = 0;
    while i <= chars.len() && wanted.len() <= chars.len() - i
        invariant
            chars@ == s@,
            wanted@ == needle@,
            i <= chars@.len() + 1,
            first_match(s@, needle@, 0) == first_match(s@, needle@, i as int),
        decreases chars@.len() + 1 - i,
    {
        if matches_at(&chars, &wanted, i) {
            return Some(i);
        }
        if i == chars.len() {
            assert(first_match(s@, needle@, i + 1) is None);
            return None;
        }
        i += 1;
    }
    None
}

/// Whether `needle` stands somewhere in `s`.
pub open spec fn contains_text(s: Seq<char>, needle: Seq<char>) -> bool {
    exists|i: int|
        #![trigger s.subrange(i, i + needle.len())]
        0 <= i <= s.len() - needle.len() && s.subrange(i, i + needle.len()) == needle
}

/// The first match from a place on is a match, and where there is none no later place matches.
pub proof fn lemma_first_match(s: Seq<char>, needle: Seq<char>, from: int)
    requires
        0 <= from,
    ensures
        match first_match(s, needle, from) {
            Some(k) => from <= k <= s.len() - needle.len() && s.subrange(k, k + needle.len()) == needle,
            None => forall|i: int|
                #![trigger s.subrange(i, i + needle.len())]
                from <= i <= s.len() - needle.len() ==> s.subrange(i, i + needle.len()) != needle,
        },
    decreases s.len() + 1 - from,
{
    if from + needle.len() <= s.len() && s.subrange(from, from + needle.len()) != needle {
        lemma_first_match(s, needle, from + 1);
    }
}

/// Whether `needle` stands somewhere in `s`.
pub fn contains(s: &str, needle: &str) -> (r: bool)
    ensures
        r == contains_text(s@, needle@),
{
    proof {
        lemma_first_match(s@, needle@, 0);
    }
    find_text(s, needle).is_some()
}

/// Whether a list holds a text.
pub fn lists(list: &Vec<String>, text: &str) -> (r: bool)
    ensures
        r == views(list@).contains(text@),
{
    let mut i: usize = 0;
    while i < list.len()
        invariant
            i <= list@.len(),
            forall|j: int| 0 <= j < i ==> (#[trigger] views(list@)[j]) != text@,
        decreases list@.len() - i,
    {
        if same(list[i].as_str(), text) {
            assert(views(list@)[i as int] == text@);
            return true;
        }
        i += 1;
    }
    assert(views(list@).len() == list@.len());
    false
}

/// The texts, each where it first stands.
pub fn each_once(list: &Vec<String>) -> (texts: Vec<String>)
    ensures
        views(texts@) == once(views(list@)),
{
    broadcast use group_seqs;

    let mut texts: Vec<String> = Vec::new();
    let ghost all = views(list@);
    let mut i: usize = 0;
    while i < list.len()
        invariant
            i <= list@.len(),
            all == views(list@),
            views(texts@) == once(all.take(i as int)),
        decreases list@.len() - i,
    {
        proof {
            lemma_once(all.take(i as int));
            assert(all.take(i + 1).drop_last() =~= all.take(i as int));
            assert(all[i as int] == list@[i as int]@);
        }
        if !lists(&texts, list[i].as_str()) {
            texts.push(list[i].clone());
        }
        i += 1;
    }
    texts
}

/// The lower case of a text, as `str::to_lowercase` gives it.
pub uninterp spec fn lowercase_text(s: Seq<char>) -> Seq<char>;

/// The text with every ASCII letter in lower case.
pub open spec fn ascii_lowered(s: Seq<char>) -> Seq<char> {
    Seq::new(s.len(), |i: int| ascii_lower(s[i]))
}

/// `str::to_lowercase` of the standard library. The result depends on the text alone, and of a text
/// of ASCII characters it is the text with its letters in lower case.
#[verifier::external_body]
pub(crate) fn lowercase(s: &str) -> (out: String)
    ensures
        out@ == lowercase_text(s@),
        (forall|i: int| 0 <= i < s@.len() ==> (#[trigger] s@[i] as u32) < 128) ==> out@ == ascii_lowered(s@),
{
    s.to_lowercase()
}

/// A text as its `Debug` form shows it: quoted, with escapes.
pub uninterp spec fn debug_text(s: Seq<char>) -> Seq<char>;

/// The `Debug` form of `str` in the standard library. It depends on the text alone.
#[verifier::external_body]
pub(crate) fn quoted(s: &str) -> (out: String)
    ensures
        out@ == debug_text(s@),
{
    format!("{:?}", s)
}

/// A needle stands first at a place where it stands and before which it stands nowhere.
pub proof fn lemma_first_match_at(s: Seq<char>, needle: Seq<char>, from: int, k: int)
    requires
        0 <= from <= k <= s.len() - needle.len(),
        s.subrange(k, k + needle.len()) == needle,
        forall|i: int|
            #![trigger s.subrange(i, i + needle.len())]
            from <= i < k ==> s.subrange(i, i + needle.len()) != needle,
    ensures
        first_match(s, needle, from) == Some(k),
    decreases k - from,
{
    if from < k {
        assert(s.subrange(from, from + needle.len()) != needle);
        lemma_first_match_at(s, needle, from + 1, k);
    }
}

/// Texts that differ at most in case: every text is its own, the order of the two does not matter, and an
/// ASCII letter is the same in either case.
pub proof fn lemma_same_ignoring_case(a: Seq<char>, b: Seq<char>, c: Seq<char>)
    ensures
        same_ignoring_case(a, a),
        same_ignoring_case(a, b) == same_ignoring_case(b, a),
        same_ignoring_case(a, b) && same_ignoring_case(b, c) ==> same_ignoring_case(a, c),
        same_ignoring_case(a, b) ==> a.len() == b.len(),
        ascii_lower('A') == 'a' && ascii_lower('Z') == 'z' && ascii_lower('a') == 'a' && ascii_lower('_') == '_'
            && ascii_lower('0') == '0',
{
    assert forall|i: int| 0 <= i < a.len() && same_ignoring_case(a, b) implies #[trigger] ascii_lower(b[i])
        == ascii_lower(a[i]) by {
        assert(ascii_lower(a[i]) == ascii_lower(b[i]));
    }
    assert forall|i: int| 0 <= i < b.len() && same_ignoring_case(b, a) implies #[trigger] ascii_lower(a[i])
        == ascii_lower(b[i]) by {
        assert(ascii_lower(b[i]) == ascii_lower(a[i]));
    }
    if same_ignoring_case(a, b) && same_ignoring_case(b, c) {
        assert forall|i: int| 0 <= i < a.len() implies #[trigger] ascii_lower(a[i]) == ascii_lower(c[i]) by {
            assert(ascii_lower(b[i]) == ascii_lower(c[i]));
        }
    }
}

/// Texts are joined one after the other with a separator between each two, and none before the first or
/// after the last.
pub proof fn lemma_joined(parts: Seq<Seq<char>>, separator: Seq<char>, part: Seq<char>)
    ensures
        joined(Seq::empty(), separator) == Seq::<char>::empty(),
        joined(seq![part], separator) == part,
        parts.len() > 0 ==> joined(parts.push(part), separator) == joined(parts, separator) + separator + part,
{
    assert(parts.push(part).drop_last() =~= parts);
}

/// A text begins with another exactly if it is that and something more.
pub proof fn lemma_begins_with(s: Seq<char>, start: Seq<char>, rest: Seq<char>)
    ensures
        begins_with(start + rest, start),
        begins_with(s, start) ==> s == start + s.skip(start.len() as int),
{
    assert((start + rest).take(start.len() as int) =~= start);
    if begins_with(s, start) {
        assert(s =~= s.take(start.len() as int) + s.skip(start.len() as int));
    }
}

/// A text contains another exactly if that stands somewhere between two others.
pub proof fn lemma_contains_text(s: Seq<char>, before: Seq<char>, needle: Seq<char>, after: Seq<char>)
    ensures
        contains_text(before + needle + after, needle),
        contains_text(s, needle) ==> exists|a: Seq<char>, b: Seq<char>| s == #[trigger] (a + needle + b),
{
    let whole = before + needle + after;
    let k: int = before.len() as int;
    assert(whole.subrange(k, k + needle.len()) =~= needle);
    if contains_text(s, needle) {
        let i = choose|i: int|
            #![trigger s.subrange(i, i + needle.len())]
            0 <= i <= s.len() - needle.len() && s.subrange(i, i + needle.len()) == needle;
        let a = s.take(i);
        let b = s.skip(i + needle.len());
        assert(s =~= a + needle + b);
    }
}

} // verus!
