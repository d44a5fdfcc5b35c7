//! The ledger of a repository: what was noted and what was done, oldest first.

use vstd::prelude::*;
use vstd::string::*;

verus! {

/// What an entry records.
#[derive(Debug, Clone, Copy, PartialEq, Eq, Structural)]
pub enum Kind {
    /// Something somebody wrote down.
    Note,
    /// Something that was done.
    Event,
}

/// One entry of the ledger.
#[derive(Debug, PartialEq, Eq)]
pub struct Entry {
    pub ts: String,
    pub owner: String,
    /// The branch the entry is about; absent where it is about the repository.
    pub subject: Option<String>,
    pub kind: Kind,
    pub disposition: Option<String>,
    pub text: String,
    pub evidence: Vec<String>,
    /// The tip of the subject when the entry was written.
    pub anchor: Option<String>,
    pub pr: Option<u64>,
    pub parents: Vec<String>,
}

/// A character as one line of prose shows it.
pub open spec fn inlined(c: char) -> Seq<char> {
    if c == '\n' {
        seq!['\\', 'n']
    } else if c == '\r' {
        seq!['\\', 'r']
    } else if c == '\t' {
        seq!['\\', 't']
    } else {
        seq![c]
    }
}

/// A text as one line of prose shows it: what would break the line is written out.
pub open spec fn inline_text(s: Seq<char>) -> Seq<char>
    decreases s.len(),
{
    if s.len() == 0 {
        Seq::empty()
    } else {
        inline_text(s.drop_last()) + inlined(s.last())
    }
}

/// A text as one line of prose shows it.
pub fn inline_human_text(s: &str) -> (line: String)
    ensures
        line@ == inline_text(s@),
{
    let chars = crate::text::chars_of(s);
    let mut line = String::new();
    let mut i: usize = 0;
    while i < chars.len()
        invariant
            chars@ == s@,
            i <= chars@.len(),
            line@ == inline_text(s@.take(i as int)),
        decreases chars@.len() - i,
    {
        assert(s@.take(i + 1).drop_last() =~= s@.take(i as int));
        let ghost before = line@;
        let c = chars[i];
        if c == '\n' {
            line.push('\\');
            line.push('n');
        } else if c == '\r' {
            line.push('\\');
            line.push('r');
        } else if c == '\t' {
            line.push('\\');
            line.push('t');
        } else {
            line.push(c);
        }
        assert(line@ =~= before + inlined(c));
        i += 1;
    }
    assert(s@.take(i as int) =~= s@);
    line
}

/// A text shown in one line breaks no line and holds no tab, and one that had none of these is shown as it
/// is.
pub proof fn lemma_inline_text(s: Seq<char>)
    ensures
        !inline_text(s).contains('\n') && !inline_text(s).contains('\r') && !inline_text(s).contains('\t'),
        !s.contains('\n') && !s.contains('\r') && !s.contains('\t') ==> inline_text(s) == s,
        inline_text(s).len() >= s.len(),
    decreases s.len(),
{
    if s.len() > 0 {
        let rest = s.drop_last();
        let last = s.last();
        lemma_inline_text(rest);
        let whole = inline_text(rest) + inlined(last);
        assert forall|i: int| 0 <= i < whole.len() implies whole[i] != '\n' && whole[i] != '\r' && whole[i] != '\t' by {
            if i < inline_text(rest).len() {
                assert(inline_text(rest).contains(inline_text(rest)[i]));
            }
        }
        if !s.contains('\n') && !s.contains('\r') && !s.contains('\t') {
            assert(s.contains(s[s.len() - 1]));
            assert forall|c: char| rest.contains(c) implies s.contains(c) by {
                let i = choose|i: int| 0 <= i < rest.len() && rest[i] == c;
                assert(s[i] == c);
            }
            assert(inline_text(s) =~= s);
        }
    } else {
        assert(inline_text(s) =~= s);
    }
}

} // verus!
