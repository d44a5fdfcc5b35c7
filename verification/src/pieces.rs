//! Text cut into pieces, and numbers read from it.

use vstd::prelude::*;
use vstd::string::*;

use crate::seqs::{lemma_views_push, views};
use crate::text::{chars_of, decimal_text, digit_char, slice_text};

verus! {

/// Where `c` first stands at or after `from`, or the length where it does not.
pub open spec fn next_at(s: Seq<char>, c: char, from: int) -> int
    decreases s.len() - from,
{
    if from >= s.len() {
        s.len() as int
    } else if s[from] == c {
        from
    } else {
        next_at(s, c, from + 1)
    }
}

/// The next place is in the text from `from` on, and nothing before it is `c`.
pub proof fn lemma_next_at(s: Seq<char>, c: char, from: int)
    requires
        0 <= from <= s.len(),
    ensures
        from <= next_at(s, c, from) <= s.len(),
        next_at(s, c, from) < s.len() ==> s[next_at(s, c, from)] == c,
        forall|i: int| from <= i < next_at(s, c, from) ==> s[i] != c,
    decreases s.len() - from,
{
    if from < s.len() && s[from] != c {
        lemma_next_at(s, c, from + 1);
    }
}

fn find_from(chars: &Vec<char>, c: char, from: usize) -> (at: usize)
    requires
        from <= chars@.len(),
    ensures
        at == next_at(chars@, c, from as int),
        from <= at <= chars@.len(),
{
    let mut i: usize = from;
    while i < chars.len() && chars[i] != c
        invariant
            from <= i <= chars@.len(),
            next_at(chars@, c, from as int) == next_at(chars@, c, i as int),
        decreases chars@.len() - i,
    {
        i += 1;
    }
    i
}

/// What stands before and after the first `c`.
pub fn split_once(s: &str, c: char) -> (parts: Option<(String, String)>)
    ensures
        match parts {
            Some((head, tail)) => {
                let k = next_at(s@, c, 0);
                k < s@.len() && head@ == s@.take(k) && tail@ == s@.skip(k + 1)
            },
            None => next_at(s@, c, 0) == s@.len(),
        },
{
    let chars = chars_of(s);
    let k = find_from(&chars, c, 0);
    if k == chars.len() {
        return None;
    }
    let head = slice_text(&chars, 0, k);
    let tail = slice_text(&chars, k + 1, chars.len());
    assert(head@ =~= s@.take(k as int));
    assert(tail@ =~= s@.skip(k + 1));
    Some((head, tail))
}

/// The pieces of `s` from `from` on that `c` separates.
pub open spec fn split_from(s: Seq<char>, c: char, from: int) -> Seq<Seq<char>>
    decreases s.len() + 1 - from,
    when 0 <= from <= s.len()
    via split_from_decreases
{
    let k = next_at(s, c, from);
    if k >= s.len() {
        seq![s.subrange(from, s.len() as int)]
    } else {
        seq![s.subrange(from, k)] + split_from(s, c, k + 1)
    }
}

#[via_fn]
proof fn split_from_decreases(s: Seq<char>, c: char, from: int) {
    lemma_next_at(s, c, from);
}

/// The pieces of `s` that `c` separates: always at least one.
pub open spec fn split_at_char(s: Seq<char>, c: char) -> Seq<Seq<char>> {
    split_from(s, c, 0)
}

/// The pieces of `s` that `c` separates.
pub fn split(s: &str, c: char) -> (pieces: Vec<String>)
    ensures
        views(pieces@) == split_at_char(s@, c),
{
    broadcast use lemma_views_push;

    let chars = chars_of(s);
    let mut pieces: Vec<String> = Vec::new();
    let mut from: usize = 0;
    assert(views(pieces@) + split_from(s@, c, 0) =~= split_from(s@, c, 0));
    loop
        invariant
            chars@ == s@,
            from <= chars@.len(),
            views(pieces@) + split_from(s@, c, from as int) == split_at_char(s@, c),
        decreases chars@.len() - from,
    {
        let k = find_from(&chars, c, from);
        let ghost before = views(pieces@);
        pieces.push(slice_text(&chars, from, k));
        if k == chars.len() {
            assert(views(pieces@) =~= before + split_from(s@, c, from as int));
            return pieces;
        }
        assert(views(pieces@) + split_from(s@, c, k + 1) =~= before + split_from(s@, c, from as int));
        from = k + 1;
    }
}

/// A line that a line feed ended, without the carriage return before it.
pub open spec fn without_return(line: Seq<char>) -> Seq<char> {
    if line.len() > 0 && line.last() == '\r' {
        line.drop_last()
    } else {
        line
    }
}

/// The lines of `s` from `from` on.
pub open spec fn lines_from(s: Seq<char>, from: int) -> Seq<Seq<char>>
    decreases s.len() - from,
    when 0 <= from <= s.len()
    via lines_from_decreases
{
    let k = next_at(s, '\n', from);
    if from == s.len() {
        Seq::empty()
    } else if k >= s.len() {
        seq![s.subrange(from, s.len() as int)]
    } else {
        seq![without_return(s.subrange(from, k))] + lines_from(s, k + 1)
    }
}

#[via_fn]
proof fn lines_from_decreases(s: Seq<char>, from: int) {
    lemma_next_at(s, '\n', from);
}

/// The lines of `s`: a line feed, with or without a carriage return before it, ends one, and the
/// last line needs no ending.
pub open spec fn lines_of(s: Seq<char>) -> Seq<Seq<char>> {
    lines_from(s, 0)
}

/// The lines of `s`.
pub fn lines(s: &str) -> (out: Vec<String>)
    ensures
        views(out@) == lines_of(s@),
{
    broadcast use lemma_views_push;

    let chars = chars_of(s);
    let mut out: Vec<String> = Vec::new();
    let mut from: usize = 0;
    assert(views(out@) + lines_from(s@, 0) =~= lines_from(s@, 0));
    while from < chars.len()
        invariant
            chars@ == s@,
            from <= chars@.len(),
            views(out@) + lines_from(s@, from as int) == lines_of(s@),
        decreases chars@.len() - from,
    {
        let k = find_from(&chars, '\n', from);
        let ghost before = views(out@);
        if k == chars.len() {
            out.push(slice_text(&chars, from, k));
            assert(views(out@) =~= before + lines_from(s@, from as int));
            return out;
        }
        let end = if k > from && chars[k - 1] == '\r' {
            k - 1
        } else {
            k
        };
        assert(s@.subrange(from as int, end as int) =~= without_return(s@.subrange(from as int, k as int)));
        out.push(slice_text(&chars, from, end));
        assert(views(out@) + lines_from(s@, k + 1) =~= before + lines_from(s@, from as int));
        from = k + 1;
    }
    assert(views(out@) + lines_from(s@, from as int) =~= views(out@));
    out
}

/// The characters that separate words: those with Unicode's property `White_Space`.
pub open spec fn is_white(c: char) -> bool {
    let n = c as u32;
    9 <= n <= 13 || n == 0x20 || n == 0x85 || n == 0xa0 || n == 0x1680 || 0x2000 <= n <= 0x200a || n == 0x2028
        || n == 0x2029 || n == 0x202f || n == 0x205f || n == 0x3000
}

fn white(c: char) -> (r: bool)
    ensures
        r == is_white(c),
{
    let n: u32 = c as u32;
    (9 <= n && n <= 13) || n == 0x20 || n == 0x85 || n == 0xa0 || n == 0x1680 || (0x2000 <= n && n <= 0x200a)
        || n == 0x2028 || n == 0x2029 || n == 0x202f || n == 0x205f || n == 0x3000
}

/// The first place at or after `from` where a word begins, or the length.
pub open spec fn word_start(s: Seq<char>, from: int) -> int
    decreases s.len() - from,
{
    if from >= s.len() {
        s.len() as int
    } else if is_white(s[from]) {
        word_start(s, from + 1)
    } else {
        from
    }
}

/// Where the word that stands at `from` ends.
pub open spec fn word_end(s: Seq<char>, from: int) -> int
    decreases s.len() - from,
{
    if from >= s.len() {
        s.len() as int
    } else if is_white(s[from]) {
        from
    } else {
        word_end(s, from + 1)
    }
}

proof fn lemma_word(s: Seq<char>, from: int)
    requires
        0 <= from <= s.len(),
    ensures
        from <= word_start(s, from) <= s.len(),
        from <= word_end(s, from) <= s.len(),
        word_start(s, from) < s.len() ==> !is_white(s[word_start(s, from)]),
        from < s.len() && !is_white(s[from]) ==> from < word_end(s, from),
    decreases s.len() - from,
{
    if from < s.len() {
        lemma_word(s, from + 1);
    }
}

/// The words of `s` from `from` on.
pub open spec fn words_from(s: Seq<char>, from: int) -> Seq<Seq<char>>
    decreases s.len() - from,
    when 0 <= from <= s.len()
    via words_from_decreases
{
    let start = word_start(s, from);
    if start >= s.len() {
        Seq::empty()
    } else {
        seq![s.subrange(start, word_end(s, start))] + words_from(s, word_end(s, start))
    }
}

#[via_fn]
proof fn words_from_decreases(s: Seq<char>, from: int) {
    lemma_word(s, from);
    lemma_word(s, word_start(s, from));
}

/// The words of `s`: what stands between white space.
pub open spec fn words_of(s: Seq<char>) -> Seq<Seq<char>> {
    words_from(s, 0)
}

/// The words of `s`.
pub fn words(s: &str) -> (out: Vec<String>)
    ensures
        views(out@) == words_of(s@),
{
    broadcast use lemma_views_push;

    let chars = chars_of(s);
    let mut out: Vec<String> = Vec::new();
    let mut from: usize = 0;
    assert(views(out@) + words_from(s@, 0) =~= words_from(s@, 0));
    loop
        invariant
            chars@ == s@,
            from <= chars@.len(),
            views(out@) + words_from(s@, from as int) == words_of(s@),
        decreases chars@.len() - from,
    {
        let mut start: usize = from;
        while start < chars.len() && white(chars[start])
            invariant
                from <= start <= chars@.len(),
                chars@ == s@,
                word_start(s@, from as int) == word_start(s@, start as int),
            decreases chars@.len() - start,
        {
            start += 1;
        }
        if start == chars.len() {
            assert(views(out@) + words_from(s@, from as int) =~= views(out@));
            return out;
        }
        let mut end: usize = start;
        while end < chars.len() && !white(chars[end])
            invariant
                start <= end <= chars@.len(),
                chars@ == s@,
                word_end(s@, start as int) == word_end(s@, end as int),
            decreases chars@.len() - end,
        {
            end += 1;
        }
        proof {
            lemma_word(s@, start as int);
        }
        let ghost before = views(out@);
        out.push(slice_text(&chars, start, end));
        assert(views(out@) + words_from(s@, end as int) =~= before + words_from(s@, from as int));
        from = end;
    }
}

/// Whether `c` is one of the ten decimal digits.
pub open spec fn is_digit(c: char) -> bool {
    '0' <= c <= '9'
}

/// The number that decimal digits stand for.
pub open spec fn digits_value(s: Seq<char>) -> nat
    decreases s.len(),
{
    if s.len() == 0 {
        0
    } else {
        10 * digits_value(s.drop_last()) + (s.last() as u32 - 48) as nat
    }
}

/// The text without one plus sign at its start.
pub open spec fn unsigned(s: Seq<char>) -> Seq<char> {
    if s.len() > 0 && s[0] == '+' {
        s.skip(1)
    } else {
        s
    }
}

/// The number a text stands for: digits, at least one, with at most one plus sign before them.
pub open spec fn number_of(s: Seq<char>) -> Option<nat> {
    let digits = unsigned(s);
    if digits.len() > 0 && (forall|i: int| 0 <= i < digits.len() ==> is_digit(#[trigger] digits[i])) {
        Some(digits_value(digits))
    } else {
        None
    }
}

/// The number a text stands for, as far as it is at most `limit`.
pub open spec fn number_within(s: Seq<char>, limit: nat) -> Option<nat> {
    match number_of(s) {
        Some(n) => if n <= limit {
            Some(n)
        } else {
            None
        },
        None => None,
    }
}

proof fn lemma_digits_grow(s: Seq<char>, i: int)
    requires
        0 <= i <= s.len(),
    ensures
        digits_value(s.take(i)) <= digits_value(s),
    decreases s.len(),
{
    if i < s.len() {
        lemma_digits_grow(s.drop_last(), i);
        assert(s.drop_last().take(i) =~= s.take(i));
    } else {
        assert(s.take(i) =~= s);
    }
}

/// The number a text stands for, where it is one and fits in 64 bits.
pub fn parse_u64(s: &str) -> (n: Option<u64>)
    ensures
        match n {
            Some(v) => number_of(s@) == Some(v as nat),
            None => number_within(s@, u64::MAX as nat) is None,
        },
{
    let chars = chars_of(s);
    let from: usize = if chars.len() > 0 && chars[0] == '+' {
        1
    } else {
        0
    };
    let ghost digits = unsigned(s@);
    if from == chars.len() {
        return None;
    }
    let mut value: u64 = 0;
    let mut i: usize = from;
    assert(digits.take(0) =~= Seq::empty());
    while i < chars.len()
        invariant
            chars@ == s@,
            from <= i <= chars@.len(),
            digits.len() + from == s@.len(),
            forall|j: int| 0 <= j < digits.len() ==> #[trigger] digits[j] == s@[j + from],
            digits == unsigned(s@),
            forall|j: int| 0 <= j < i - from ==> is_digit(#[trigger] digits[j]),
            value == digits_value(digits.take(i - from)),
        decreases chars@.len() - i,
    {
        let c = chars[i];
        assert(digits[i - from] == c);
        if c < '0' || '9' < c {
            assert(!is_digit(digits[i - from]));
            return None;
        }
        let d: u64 = (c as u32 - 48) as u64;
        proof {
            assert(digits.take(i + 1 - from).drop_last() =~= digits.take(i - from));
            lemma_digits_grow(digits, i + 1 - from);
        }
        if value > (u64::MAX - d) / 10 {
            assert(10 * value + d > u64::MAX);
            return None;
        }
        value = value * 10 + d;
        i += 1;
    }
    assert(digits.take(digits.len() as int) =~= digits);
    Some(value)
}

/// The text of `width` characters at least, filled with spaces on the right.
pub open spec fn padded(s: Seq<char>, width: nat) -> Seq<char> {
    if s.len() >= width {
        s
    } else {
        s + Seq::new((width - s.len()) as nat, |i: int| ' ')
    }
}

/// The text of `width` characters at least, filled with spaces on the right.
pub fn pad(s: &str, width: usize) -> (out: String)
    ensures
        out@ == padded(s@, width as nat),
{
    let mut out = s.to_owned();
    let mut count: usize = s.unicode_len();
    let ghost start = count;
    while count < width
        invariant
            start <= count,
            start == s@.len(),
            count <= width || count == start,
            out@ == s@ + Seq::new((count - start) as nat, |i: int| ' '),
        decreases width - count,
    {
        out.push(' ');
        count += 1;
        assert(out@ =~= s@ + Seq::new((count - start) as nat, |i: int| ' '));
    }
    assert(out@ =~= padded(s@, width as nat));
    out
}

/// The text without the white space at its end.
pub open spec fn trimmed_end(s: Seq<char>) -> Seq<char>
    decreases s.len(),
{
    if s.len() > 0 && is_white(s.last()) {
        trimmed_end(s.drop_last())
    } else {
        s
    }
}

/// The text without the white space at its end.
pub fn trim_end(s: &str) -> (out: String)
    ensures
        out@ == trimmed_end(s@),
{
    let chars = chars_of(s);
    let mut end: usize = chars.len();
    assert(s@.take(end as int) =~= s@);
    while end > 0 && white(chars[end - 1])
        invariant
            chars@ == s@,
            end <= chars@.len(),
            trimmed_end(s@) == trimmed_end(s@.take(end as int)),
        decreases end,
    {
        assert(s@.take(end as int).drop_last() =~= s@.take(end - 1));
        end -= 1;
    }
    assert(s@.take(end as int) =~= s@.subrange(0, end as int));
    slice_text(&chars, 0, end)
}

/// A number reads back as it was written.
pub proof fn lemma_number_round_trip(n: nat)
    ensures
        decimal_text(n).len() > 0,
        decimal_text(n)[0] != '+',
        forall|i: int| 0 <= i < decimal_text(n).len() ==> is_digit(#[trigger] decimal_text(n)[i]),
        digits_value(decimal_text(n)) == n,
        number_of(decimal_text(n)) == Some(n),
    decreases n,
{
    let text = decimal_text(n);
    if n < 10 {
        assert(text =~= seq![digit_char(n)]);
        assert(digits_value(text.drop_last()) == 0) by {
            assert(text.drop_last() =~= Seq::empty());
        }
        assert(is_digit(text[0]));
    } else {
        lemma_number_round_trip(n / 10);
        assert(text.drop_last() =~= decimal_text(n / 10));
        assert(text.last() == digit_char(n % 10));
        assert(is_digit(text.last()));
        assert forall|i: int| 0 <= i < text.len() implies is_digit(#[trigger] text[i]) by {
            if i < text.len() - 1 {
                assert(text[i] == decimal_text(n / 10)[i]);
            }
        }
        assert(text[0] == decimal_text(n / 10)[0]);
    }
    assert(unsigned(text) == text);
}

proof fn lemma_next_at_shift(s: Seq<char>, c: char, from: int, at: int)
    requires
        0 <= from <= at <= s.len(),
    ensures
        next_at(s, c, at) == from + next_at(s.skip(from), c, at - from),
    decreases s.len() - at,
{
    if at < s.len() {
        assert(s.skip(from)[at - from] == s[at]);
        if s[at] != c {
            lemma_next_at_shift(s, c, from, at + 1);
        }
    }
}

proof fn lemma_lines_shift(s: Seq<char>, from: int, at: int)
    requires
        0 <= from <= at <= s.len(),
    ensures
        lines_from(s, at) == lines_from(s.skip(from), at - from),
    decreases s.len() - at,
{
    let rest = s.skip(from);
    lemma_next_at(s, '\n', at);
    lemma_next_at_shift(s, '\n', from, at);
    let k = next_at(s, '\n', at);
    if at < s.len() {
        if k < s.len() {
            lemma_lines_shift(s, from, k + 1);
            assert(s.subrange(at, k) =~= rest.subrange(at - from, k - from));
        } else {
            assert(s.subrange(at, s.len() as int) =~= rest.subrange(at - from, rest.len() as int));
        }
    }
}

/// A line feed ends a line, and a carriage return before it is no part of the line; the lines of what
/// follows come after it. A last line needs no ending, and keeps what it has. An empty text has no lines.
pub proof fn lemma_lines(line: Seq<char>, rest: Seq<char>)
    requires
        !line.contains('\n'),
    ensures
        lines_of(line + seq!['\n'] + rest) == seq![
            if line.len() > 0 && line.last() == '\r' {
                line.drop_last()
            } else {
                line
            },
        ] + lines_of(rest),
        line.len() > 0 ==> lines_of(line) == seq![line],
        lines_of(Seq::empty()).len() == 0,
{
    let s = line + seq!['\n'] + rest;
    lemma_next_at(s, '\n', 0);
    let k = next_at(s, '\n', 0);
    assert(s[line.len() as int] == '\n');
    if k < line.len() {
        assert(line[k] == '\n');
        assert(line.contains('\n'));
    }
    assert(k == line.len());
    assert(s.subrange(0, k) =~= line);
    lemma_lines_shift(s, k + 1, k + 1);
    assert(s.skip(k + 1) =~= rest);
    lemma_next_at(line, '\n', 0);
    if next_at(line, '\n', 0) < line.len() {
        assert(line.contains(line[next_at(line, '\n', 0)]));
    }
    assert(line.subrange(0, line.len() as int) =~= line);
}

proof fn lemma_word_bounds(s: Seq<char>, from: int)
    requires
        0 <= from <= s.len(),
    ensures
        from <= word_start(s, from) <= s.len(),
        word_start(s, from) < s.len() ==> !is_white(s[word_start(s, from)]),
        forall|i: int| from <= i < word_start(s, from) ==> is_white(#[trigger] s[i]),
        from <= word_end(s, from) <= s.len(),
        word_end(s, from) < s.len() ==> is_white(s[word_end(s, from)]),
        forall|i: int| from <= i < word_end(s, from) ==> !is_white(#[trigger] s[i]),
    decreases s.len() - from,
{
    if from < s.len() {
        lemma_word_bounds(s, from + 1);
    }
}

/// A word is not empty and holds no white space.
pub proof fn lemma_words(s: Seq<char>, from: int)
    requires
        0 <= from <= s.len(),
    ensures
        forall|k: int|
            0 <= k < words_from(s, from).len() ==> (#[trigger] words_from(s, from)[k]).len() > 0 && forall|i: int|
                0 <= i < words_from(s, from)[k].len() ==> !is_white(#[trigger] words_from(s, from)[k][i]),
    decreases s.len() - from,
{
    let start = word_start(s, from);
    lemma_word_bounds(s, from);
    if start < s.len() {
        let end = word_end(s, start);
        lemma_word_bounds(s, start);
        assert(start < end);
        lemma_words(s, end);
        let word = s.subrange(start, end);
        let rest = words_from(s, end);
        let all = words_from(s, from);
        assert(all =~= seq![word] + rest);
        assert forall|k: int| 0 <= k < all.len() implies (#[trigger] all[k]).len() > 0 && forall|i: int|
            0 <= i < all[k].len() ==> !is_white(#[trigger] all[k][i]) by {
            if k > 0 {
                assert(all[k] == rest[k - 1]);
            } else {
                assert(all[k] == word);
                assert forall|i: int| 0 <= i < word.len() implies !is_white(#[trigger] word[i]) by {
                    assert(word[i] == s[start + i]);
                }
            }
        }
    }
}

/// What a text stands for as a number: its digits, read in order, with at most one plus sign before them.
pub proof fn lemma_number_of(digits: Seq<char>, digit: char)
    requires
        digits.len() > 0,
        forall|i: int| 0 <= i < digits.len() ==> is_digit(#[trigger] digits[i]),
        is_digit(digit),
    ensures
        number_of(digits) is Some,
        number_of(seq!['+'] + digits) == number_of(digits),
        number_of(seq!['-'] + digits) is None,
        number_of(digits.push(digit)) == Some((10 * number_of(digits)->0 + (digit as u32 - 48)) as nat),
        number_of(Seq::empty()) is None,
{
    assert(is_digit(digits[0]));
    assert(unsigned(digits) =~= digits);
    let plus = seq!['+'] + digits;
    assert(plus.skip(1) =~= digits);
    let minus = seq!['-'] + digits;
    assert(minus[0] == '-');
    assert(!is_digit(unsigned(minus)[0]));
    let more = digits.push(digit);
    assert(more[0] == digits[0]);
    assert(unsigned(more) =~= more);
    assert forall|i: int| 0 <= i < more.len() implies is_digit(#[trigger] more[i]) by {
        if i < digits.len() {
            assert(more[i] == digits[i]);
        }
    }
    assert(more.drop_last() =~= digits);
}

/// A text is filled on the right with spaces up to its width, and one that is wide enough stays.
pub proof fn lemma_padded(s: Seq<char>, width: nat)
    ensures
        s.len() >= width ==> padded(s, width) == s,
        s.len() < width ==> padded(s, width).len() == width,
        padded(s, width).take(s.len() as int) == s,
        forall|i: int| s.len() <= i < padded(s, width).len() ==> #[trigger] padded(s, width)[i] == ' ',
{
    assert(padded(s, width).take(s.len() as int) =~= s);
}

/// What is trimmed from the end of a text is white space, and what is left has none there.
pub proof fn lemma_trimmed_end(s: Seq<char>)
    ensures
        trimmed_end(s).len() <= s.len(),
        trimmed_end(s) == s.take(trimmed_end(s).len() as int),
        trimmed_end(s).len() > 0 ==> !is_white(trimmed_end(s).last()),
        forall|i: int| trimmed_end(s).len() <= i < s.len() ==> is_white(#[trigger] s[i]),
    decreases s.len(),
{
    if s.len() > 0 && is_white(s.last()) {
        lemma_trimmed_end(s.drop_last());
        assert(s.drop_last().take(trimmed_end(s).len() as int) =~= s.take(trimmed_end(s).len() as int));
        assert forall|i: int| trimmed_end(s).len() <= i < s.len() implies is_white(#[trigger] s[i]) by {
            if i < s.len() - 1 {
                assert(s.drop_last()[i] == s[i]);
            }
        }
    } else {
        assert(s.take(s.len() as int) =~= s);
    }
}

} // verus!
