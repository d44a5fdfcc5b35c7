//! Whether a cut kept the tests of the branches it merges.

use vstd::prelude::*;
use vstd::string::*;

use crate::config::RepoEntry;
use crate::pieces::{digits_value, is_digit, number_of, parse_u64, unsigned};
use crate::seqs::view_of;
use crate::text::{chars_of, contains_text, decimal, decimal_text, slice_text};

verus! {

/// Whether a cut kept at least as many tests as a single contributing branch.
///
/// A total below one branch's own count means the merge dropped that branch's tests, which is
/// silent: everything still compiles and the suite still passes, just with less in it.
#[derive(Debug, Clone, Copy, PartialEq, Eq, Structural)]
pub enum TestCountCheck {
    NotConfigured,
    Kept { merged: u32, branch: u32 },
    Dropped { merged: u32, branch: u32 },
}

impl TestCountCheck {
    /// What two counts say: a total below a branch's own count is a dropped suite.
    pub open spec fn of(merged: u32, branch: u32) -> TestCountCheck {
        if merged < branch {
            TestCountCheck::Dropped { merged, branch }
        } else {
            TestCountCheck::Kept { merged, branch }
        }
    }

    /// The check in words.
    pub open spec fn text(self) -> Seq<char> {
        match self {
            TestCountCheck::NotConfigured => "  test count: not configured for this repo, so not checked"@,
            TestCountCheck::Kept { merged, branch } => "  test count: "@ + decimal_text(merged as nat)
                + " merged against "@ + decimal_text(branch as nat) + " on one branch, kept"@,
            TestCountCheck::Dropped { merged, branch } => "  test count: "@ + decimal_text(merged as nat)
                + " merged is BELOW "@ + decimal_text(branch as nat)
                + " on a single branch, so the cut dropped that branch's tests"@,
        }
    }

    /// What two counts say.
    pub fn compare(merged: u32, branch: u32) -> (check: Self)
        ensures
            check == TestCountCheck::of(merged, branch),
    {
        if merged < branch {
            TestCountCheck::Dropped { merged, branch }
        } else {
            TestCountCheck::Kept { merged, branch }
        }
    }

    /// The check in words.
    pub fn render(self) -> (text: String)
        ensures
            text@ == self.text(),
    {
        match self {
            TestCountCheck::NotConfigured => "  test count: not configured for this repo, so not checked".to_owned(),
            TestCountCheck::Kept { merged, branch } => {
                let mut text = "  test count: ".to_owned();
                text.append(decimal(merged as u64).as_str());
                text.append(" merged against ");
                text.append(decimal(branch as u64).as_str());
                text.append(" on one branch, kept");
                text
            },
            TestCountCheck::Dropped { merged, branch } => {
                let mut text = "  test count: ".to_owned();
                text.append(decimal(merged as u64).as_str());
                text.append(" merged is BELOW ");
                text.append(decimal(branch as u64).as_str());
                text.append(" on a single branch, so the cut dropped that branch's tests");
                text
            },
        }
    }
}

proof fn lemma_no_letter(n: nat, c: char)
    requires
        c > '9',
    ensures
        !decimal_text(n).contains(c),
    decreases n,
{
    if n >= 10 {
        lemma_no_letter(n / 10, c);
        let front = decimal_text(n / 10);
        assert forall|i: int| 0 <= i < decimal_text(n).len() implies decimal_text(n)[i] != c by {
            if i < front.len() {
                assert(front.contains(front[i]));
            }
        }
    }
}

proof fn lemma_lacks(s: Seq<char>, needle: Seq<char>, k: int)
    requires
        0 <= k < needle.len(),
        !s.contains(needle[k]),
    ensures
        !contains_text(s, needle),
{
    if contains_text(s, needle) {
        let i = choose|i: int|
            #![trigger s.subrange(i, i + needle.len())]
            0 <= i <= s.len() - needle.len() && s.subrange(i, i + needle.len()) == needle;
        assert(s.subrange(i, i + needle.len())[k] == needle[k]);
        assert(s[i + k] == needle[k]);
    }
}

proof fn lemma_kept_text(merged: u32, branch: u32)
    ensures
        ({
            let text = (TestCountCheck::Kept { merged, branch }).text();
            contains_text(text, "kept"@) && !contains_text(text, "BELOW"@)
        }),
{
    reveal_strlit("  test count: ");
    reveal_strlit(" merged against ");
    reveal_strlit(" on one branch, kept");
    reveal_strlit("kept");
    reveal_strlit("BELOW");
    let text = (TestCountCheck::Kept { merged, branch }).text();
    lemma_no_letter(merged as nat, 'W');
    lemma_no_letter(branch as nat, 'W');
    assert(!("  test count: "@.contains('W')));
    assert(!(" merged against "@.contains('W')));
    assert(!(" on one branch, kept"@.contains('W')));
    lemma_lacks(text, "BELOW"@, 4);
    let at = text.len() - 4;
    assert(text.subrange(at, at + "kept"@.len()) =~= "kept"@);
}

proof fn lemma_dropped_text(merged: u32, branch: u32)
    ensures
        ({
            let text = (TestCountCheck::Dropped { merged, branch }).text();
            contains_text(text, "BELOW"@) && !contains_text(text, "kept"@)
        }),
{
    reveal_strlit("  test count: ");
    reveal_strlit(" merged is BELOW ");
    reveal_strlit(" on a single branch, so the cut dropped that branch's tests");
    reveal_strlit("kept");
    reveal_strlit("BELOW");
    let text = (TestCountCheck::Dropped { merged, branch }).text();
    lemma_no_letter(merged as nat, 'k');
    lemma_no_letter(branch as nat, 'k');
    assert(!("  test count: "@.contains('k')));
    assert(!(" merged is BELOW "@.contains('k')));
    assert(!(" on a single branch, so the cut dropped that branch's tests"@.contains('k')));
    lemma_lacks(text, "kept"@, 0);
    let at = 14 + decimal_text(merged as nat).len() as int + 11;
    assert(text.subrange(at, at + "BELOW"@.len()) =~= "BELOW"@);
}

/// The words of two counts say "BELOW" exactly where the total is below the branch's own count, and
/// "kept" exactly where it is not.
pub proof fn lemma_words_tell_the_counts(merged: u32, branch: u32)
    ensures
        contains_text(TestCountCheck::of(merged, branch).text(), "BELOW"@) <==> merged < branch,
        contains_text(TestCountCheck::of(merged, branch).text(), "kept"@) <==> merged >= branch,
{
    lemma_kept_text(merged, branch);
    lemma_dropped_text(merged, branch);
}

/// Not looking never reads as looking and finding nothing wrong.
pub proof fn lemma_unchecked_never_reads_as_kept()
    ensures
        contains_text(TestCountCheck::NotConfigured.text(), "not checked"@),
        !contains_text(TestCountCheck::NotConfigured.text(), "kept"@),
{
    reveal_strlit("  test count: not configured for this repo, so not checked");
    reveal_strlit("not checked");
    reveal_strlit("kept");
    let text = TestCountCheck::NotConfigured.text();
    let at = text.len() - 11;
    assert(text.subrange(at, at + "not checked"@.len()) =~= "not checked"@);
    if contains_text(text, "kept"@) {
        let needle = "kept"@;
        let i = choose|i: int|
            #![trigger text.subrange(i, i + needle.len())]
            0 <= i <= text.len() - needle.len() && text.subrange(i, i + needle.len()) == needle;
        assert(text.subrange(i, i + 4)[0] == 'k' && text.subrange(i, i + 4)[2] == 'p');
        assert(text[i] == 'k' && text[i + 2] == 'p');
        assert(false);
    }
}

/// The digits a text ends with.
pub open spec fn trailing_digits(s: Seq<char>) -> Seq<char>
    decreases s.len(),
{
    if s.len() > 0 && is_digit(s.last()) {
        trailing_digits(s.drop_last()).push(s.last())
    } else {
        Seq::empty()
    }
}

/// The last run of digits in a text.
pub open spec fn last_digits(s: Seq<char>) -> Seq<char>
    decreases s.len(),
{
    if s.len() == 0 || is_digit(s.last()) {
        trailing_digits(s)
    } else {
        last_digits(s.drop_last())
    }
}

/// The count that the output of a test command gives: the last number it prints.
pub open spec fn printed_count(output: Seq<char>) -> Option<nat> {
    let digits = last_digits(output);
    if digits.len() > 0 && digits_value(digits) <= u32::MAX {
        Some(digits_value(digits))
    } else {
        None
    }
}

proof fn lemma_trailing_digits(s: Seq<char>, from: int, to: int)
    requires
        0 <= from <= to <= s.len(),
        forall|i: int| from <= i < to ==> is_digit(#[trigger] s[i]),
        from > 0 ==> !is_digit(s[from - 1]),
    ensures
        trailing_digits(s.take(to)) == s.subrange(from, to),
    decreases to - from,
{
    let part = s.take(to);
    if from < to {
        assert(part.drop_last() =~= s.take(to - 1));
        lemma_trailing_digits(s, from, to - 1);
        assert(s.subrange(from, to) =~= s.subrange(from, to - 1).push(s[to - 1]));
    } else {
        if to > 0 {
            assert(part.last() == s[to - 1]);
        }
        assert(s.subrange(from, to) =~= Seq::empty());
    }
}

/// The count that the output of a test command gives: the last number it prints.
pub fn parse_test_count(output: &str) -> (count: Option<u32>)
    ensures
        match count {
            Some(n) => printed_count(output@) == Some(n as nat),
            None => printed_count(output@) is None,
        },
{
    let chars = chars_of(output);
    let mut end: usize = chars.len();
    assert(output@.take(end as int) =~= output@);
    while end > 0 && !('0' <= chars[end - 1] && chars[end - 1] <= '9')
        invariant
            chars@ == output@,
            end <= chars@.len(),
            last_digits(output@) == last_digits(output@.take(end as int)),
        decreases end,
    {
        assert(output@.take(end as int).drop_last() =~= output@.take(end - 1));
        end -= 1;
    }
    if end == 0 {
        assert(output@.take(0) =~= Seq::empty());
        return None;
    }
    let mut start: usize = end;
    while start > 0 && '0' <= chars[start - 1] && chars[start - 1] <= '9'
        invariant
            chars@ == output@,
            start <= end <= chars@.len(),
            forall|i: int| start <= i < end ==> is_digit(#[trigger] output@[i]),
        decreases start,
    {
        start -= 1;
    }
    proof {
        assert(output@.take(end as int).last() == output@[end - 1]);
        lemma_trailing_digits(output@, start as int, end as int);
    }
    let digits = slice_text(&chars, start, end);
    proof {
        assert(digits@ == last_digits(output@));
        assert(digits@[0] == output@[start as int]);
        assert(unsigned(digits@) == digits@);
        assert(forall|i: int| 0 <= i < digits@.len() ==> is_digit(#[trigger] digits@[i]));
        assert(number_of(digits@) == Some(digits_value(digits@)));
    }
    match parse_u64(digits.as_str()) {
        Some(n) => if n <= 0xffff_ffff {
            Some(n as u32)
        } else {
            None
        },
        None => None,
    }
}

/// What two counts say, where both could be read.
pub open spec fn counted(
    configured: bool,
    merged: Option<Seq<char>>,
    single: Option<Seq<char>>,
) -> TestCountCheck {
    if configured && merged is Some && single is Some && printed_count(merged->0) is Some && printed_count(
        single->0,
    ) is Some {
        TestCountCheck::of(printed_count(merged->0)->0 as u32, printed_count(single->0)->0 as u32)
    } else {
        TestCountCheck::NotConfigured
    }
}

/// Did the cut keep at least as many tests as one contributing branch?
///
/// `merged` and `single` are what the repository's test command printed at the cut and at one
/// parent, where it ran. Absent configuration reports "not checked", never "passed": counting tests
/// has no portable form, so the command is per repository.
pub fn check_test_count(entry: &RepoEntry, merged: Option<&str>, single: Option<&str>) -> (check: TestCountCheck)
    ensures
        check == counted(entry.test_count_command is Some, view_of(merged), view_of(single)),
{
    if entry.test_count_command.is_none() {
        return TestCountCheck::NotConfigured;
    }
    let merged = match merged {
        Some(output) => parse_test_count(output),
        None => None,
    };
    let single = match single {
        Some(output) => parse_test_count(output),
        None => None,
    };
    match (merged, single) {
        (Some(merged), Some(single)) => TestCountCheck::compare(merged, single),
        _ => TestCountCheck::NotConfigured,
    }
}

proof fn lemma_last_digits(s: Seq<char>, from: int, to: int)
    requires
        0 <= from < to <= s.len(),
        forall|i: int| from <= i < to ==> is_digit(#[trigger] s[i]),
        from > 0 ==> !is_digit(s[from - 1]),
        forall|i: int| to <= i < s.len() ==> !is_digit(#[trigger] s[i]),
    ensures
        last_digits(s) == s.subrange(from, to),
    decreases s.len() - to,
{
    if to < s.len() {
        assert(!is_digit(s[s.len() - 1]));
        lemma_last_digits(s.drop_last(), from, to);
        assert(s.drop_last().subrange(from, to) =~= s.subrange(from, to));
    } else {
        assert(is_digit(s[s.len() - 1]));
        lemma_trailing_digits(s, from, to);
        assert(s.take(to) =~= s);
    }
}

proof fn lemma_no_digits(s: Seq<char>)
    requires
        forall|i: int| 0 <= i < s.len() ==> !is_digit(#[trigger] s[i]),
    ensures
        last_digits(s).len() == 0,
    decreases s.len(),
{
    if s.len() > 0 {
        assert(!is_digit(s[s.len() - 1]));
        lemma_no_digits(s.drop_last());
    }
}

/// The count of an output is its last number, whatever stands before and after it; an output without a
/// digit has none.
pub proof fn lemma_count_is_the_last_number(before: Seq<char>, digits: Seq<char>, after: Seq<char>)
    requires
        digits.len() > 0,
        forall|i: int| 0 <= i < digits.len() ==> is_digit(#[trigger] digits[i]),
        before.len() > 0 ==> !is_digit(before.last()),
        forall|i: int| 0 <= i < after.len() ==> !is_digit(#[trigger] after[i]),
    ensures
        printed_count(before + digits + after) == (if digits_value(digits) <= u32::MAX {
            Some(digits_value(digits))
        } else {
            None
        }),
        printed_count(after) is None,
{
    let s = before + digits + after;
    let from: int = before.len() as int;
    let to: int = (before.len() + digits.len()) as int;
    assert forall|i: int| from <= i < to implies is_digit(#[trigger] s[i]) by {
        assert(digits[i - from] == s[i]);
    }
    assert forall|i: int| to <= i < s.len() implies !is_digit(#[trigger] s[i]) by {
        assert(after[i - to] == s[i]);
    }
    if from > 0 {
        assert(s[from - 1] == before.last());
    }
    lemma_last_digits(s, from, to);
    assert(s.subrange(from, to) =~= digits);
    lemma_no_digits(after);
}

/// A cut dropped tests exactly if counting is configured, both outputs hold a count, and the merged one
/// is below the branch's. Without one of those nothing is claimed.
pub proof fn lemma_dropped_is_below(configured: bool, merged: Option<Seq<char>>, single: Option<Seq<char>>)
    ensures
        ({
            let both = configured && merged is Some && single is Some && printed_count(merged->0) is Some
                && printed_count(single->0) is Some;
            let check = counted(configured, merged, single);
            &&& check is NotConfigured <==> !both
            &&& check is Dropped <==> both && printed_count(merged->0)->0 < printed_count(single->0)->0
            &&& check is Kept <==> both && printed_count(merged->0)->0 >= printed_count(single->0)->0
            &&& check matches TestCountCheck::Dropped { merged: m, branch: b } ==> m == printed_count(merged->0)->0 && b
                == printed_count(single->0)->0
            &&& check matches TestCountCheck::Kept { merged: m, branch: b } ==> m == printed_count(merged->0)->0 && b
                == printed_count(single->0)->0
        }),
{
}

} // verus!
