//! Paths as text, with slashes between their components.

use vstd::prelude::*;
use vstd::string::*;

use crate::text::{begins_with, chars_of, slice_text, starts_with};

verus! {

/// The path that `piece` names from `base`: an absolute piece stands alone, and a slash separates
/// another from a base that does not end in one.
pub open spec fn joined_path(base: Seq<char>, piece: Seq<char>) -> Seq<char> {
    if begins_with(piece, "/"@) {
        piece
    } else if base.len() == 0 || base.last() == '/' {
        base + piece
    } else {
        base + "/"@ + piece
    }
}

/// The path that `piece` names from `base`.
pub fn join_path(base: &str, piece: &str) -> (path: String)
    ensures
        path@ == joined_path(base@, piece@),
{
    if starts_with(piece, "/") {
        return piece.to_owned();
    }
    let chars = chars_of(base);
    let mut path = base.to_owned();
    if chars.len() > 0 && chars[chars.len() - 1] != '/' {
        path.append("/");
    }
    path.append(piece);
    path
}

/// The path without separators and single dots at its end; the root stays.
pub open spec fn trimmed_path(path: Seq<char>) -> Seq<char>
    decreases path.len(),
{
    if path.len() > 1 && (path.last() == '/' || (path.last() == '.' && path[path.len() - 2] == '/')) {
        trimmed_path(path.drop_last())
    } else {
        path
    }
}

/// Where the last slash of a text stands, or -1 where there is none.
pub open spec fn last_slash(s: Seq<char>) -> int
    decreases s.len(),
{
    if s.len() == 0 {
        -1
    } else if s.last() == '/' {
        s.len() - 1
    } else {
        last_slash(s.drop_last())
    }
}

/// The directory that a path stands in, or the path itself where it is the root or nothing.
pub open spec fn directory_of(path: Seq<char>) -> Seq<char> {
    let whole = trimmed_path(path);
    let at = last_slash(whole);
    if whole.len() == 0 || whole == "/"@ {
        path
    } else if at < 0 {
        Seq::empty()
    } else if at == 0 {
        "/"@
    } else {
        trimmed_path(whole.take(at))
    }
}

fn trim(chars: &Vec<char>, to: usize) -> (end: usize)
    requires
        to <= chars@.len(),
    ensures
        end <= to,
        trimmed_path(chars@.take(to as int)) == chars@.take(end as int),
{
    let mut end = to;
    while end > 1 && (chars[end - 1] == '/' || (chars[end - 1] == '.' && chars[end - 2] == '/'))
        invariant
            end <= to <= chars@.len(),
            trimmed_path(chars@.take(to as int)) == trimmed_path(chars@.take(end as int)),
        decreases end,
    {
        assert(chars@.take(end as int).drop_last() =~= chars@.take(end - 1));
        end -= 1;
    }
    end
}

/// The directory that a path stands in, or the path itself where it is the root or nothing.
pub fn directory(path: &str) -> (dir: String)
    ensures
        dir@ == directory_of(path@),
{
    let chars = chars_of(path);
    assert(path@.take(path@.len() as int) =~= path@);
    let end = trim(&chars, chars.len());
    let ghost whole = path@.take(end as int);
    proof {
        reveal_strlit("/");
        assert(whole == "/"@ <==> end == 1 && path@[0] == '/') by {
            if end == 1 && path@[0] == '/' {
                assert(whole =~= "/"@);
            }
            if whole == "/"@ {
                assert(whole.len() == 1);
                assert(whole[0] == path@[0]);
            }
        }
    }
    if end == 0 || (end == 1 && chars[0] == '/') {
        return path.to_owned();
    }
    let mut at: usize = end;
    while at > 0 && chars[at - 1] != '/'
        invariant
            at <= end <= chars@.len(),
            chars@ == path@,
            last_slash(path@.take(end as int)) == last_slash(path@.take(at as int)),
        decreases at,
    {
        assert(path@.take(at as int).drop_last() =~= path@.take(at - 1));
        at -= 1;
    }
    if at == 0 {
        assert(path@.take(0) =~= Seq::empty());
        let nothing = String::new();
        assert(nothing@ =~= Seq::<char>::empty());
        return nothing;
    }
    assert(last_slash(whole) == at - 1);
    if at == 1 {
        return "/".to_owned();
    }
    let stop = trim(&chars, at - 1);
    assert(whole.take(at - 1) =~= path@.take(at - 1));
    assert(path@.take(stop as int) =~= path@.subrange(0, stop as int));
    slice_text(&chars, 0, stop)
}

/// A path that begins at the root stands alone; any other one follows its base, with one slash between
/// them.
pub proof fn lemma_joined_path(base: Seq<char>, piece: Seq<char>)
    ensures
        piece.len() > 0 && piece[0] == '/' ==> joined_path(base, piece) == piece,
        (piece.len() == 0 || piece[0] != '/') && base.len() > 0 && base.last() != '/' ==> joined_path(base, piece)
            == base + seq!['/'] + piece,
        (piece.len() == 0 || piece[0] != '/') && (base.len() == 0 || base.last() == '/') ==> joined_path(base, piece)
            == base + piece,
{
    reveal_strlit("/");
    assert("/"@ =~= seq!['/']);
    if piece.len() > 0 {
        assert(piece.take(1)[0] == piece[0]);
        if piece[0] == '/' {
            assert(piece.take(1) =~= "/"@);
        }
    }
}

/// What stands in a directory has that directory.
pub proof fn lemma_directory_of_joined(base: Seq<char>, name: Seq<char>)
    requires
        base.len() > 0,
        base.last() != '/',
        base.len() > 1 ==> !(base.last() == '.' && base[base.len() - 2] == '/'),
        name.len() > 0,
        name.last() != '/',
        !name.contains('/'),
        name != seq!['.'],
    ensures
        directory_of(base + seq!['/'] + name) == base,
        directory_of(name) == Seq::<char>::empty(),
{
    let path = base + seq!['/'] + name;
    assert(path.last() == name.last());
    if path.last() == '.' && path[path.len() - 2] == '/' {
        if name.len() > 1 {
            assert(name[name.len() - 2] == '/');
            assert(name.contains('/'));
        } else {
            assert(name =~= seq!['.']);
        }
    }
    assert(trimmed_path(path) == path);
    lemma_last_slash(path, base.len() as int);
    assert(path.take(base.len() as int) =~= base);
    assert(trimmed_path(base) == base);
    if path == "/"@ {
        reveal_strlit("/");
    }
    if name.len() > 1 && name.last() == '.' && name[name.len() - 2] == '/' {
        assert(name.contains('/'));
    }
    assert(trimmed_path(name) == name);
    lemma_no_slash(name);
    if name == "/"@ {
        reveal_strlit("/");
        assert(name[0] == '/');
        assert(name.contains('/'));
    }
}

proof fn lemma_last_slash(s: Seq<char>, at: int)
    requires
        0 <= at < s.len(),
        s[at] == '/',
        forall|i: int| at < i < s.len() ==> s[i] != '/',
    ensures
        last_slash(s) == at,
    decreases s.len(),
{
    if at < s.len() - 1 {
        lemma_last_slash(s.drop_last(), at);
    }
}

proof fn lemma_no_slash(s: Seq<char>)
    requires
        !s.contains('/'),
    ensures
        last_slash(s) < 0,
    decreases s.len(),
{
    if s.len() > 0 {
        assert(s.contains(s[s.len() - 1]));
        let rest = s.drop_last();
        if rest.contains('/') {
            let i = choose|i: int| 0 <= i < rest.len() && rest[i] == '/';
            assert(s[i] == '/');
        }
        lemma_no_slash(rest);
    }
}

} // verus!
