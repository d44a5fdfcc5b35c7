//! Rows of a key and a member, gathered under their keys.

use vstd::prelude::*;
use vstd::string::*;

use crate::order::{lemma_lex_irreflexive, lex_less};
use crate::seqs::{group_seqs, lemma_filter_next, views};
use crate::sorting::{
    add_key, distinct, distinct_texts, lemma_ascending_unique, lemma_distinct_texts, lemma_filter_ascending,
    strictly_ascending,
};
use crate::text::{ranks, same};

verus! {

/// The texts of rows of a key and a member.
pub open spec fn pairs(rows: Seq<(String, String)>) -> Seq<(Seq<char>, Seq<char>)> {
    Seq::new(rows.len(), |i: int| (rows[i].0@, rows[i].1@))
}

/// A row more is a pair more.
pub broadcast proof fn lemma_pairs_push(rows: Seq<(String, String)>, row: (String, String))
    ensures
        #[trigger] pairs(rows.push(row)) == pairs(rows).push((row.0@, row.1@)),
{
    assert(pairs(rows.push(row)) =~= pairs(rows).push((row.0@, row.1@)));
}

/// The keys of the rows, one for each row.
pub open spec fn firsts(rows: Seq<(Seq<char>, Seq<char>)>) -> Seq<Seq<char>> {
    Seq::new(rows.len(), |i: int| rows[i].0)
}

/// The member of a row that stands under `key`.
pub open spec fn under(key: Seq<char>) -> spec_fn((Seq<char>, Seq<char>)) -> Option<Seq<char>> {
    |row: (Seq<char>, Seq<char>)|
        if row.0 == key {
            Some(row.1)
        } else {
            None
        }
}

/// The keys of the rows, each once and in order.
pub open spec fn keys_of(rows: Seq<(Seq<char>, Seq<char>)>) -> Seq<Seq<char>> {
    distinct_texts(firsts(rows))
}

/// The members that stand under `key`, as the rows list them.
pub open spec fn members_of(rows: Seq<(Seq<char>, Seq<char>)>, key: Seq<char>) -> Seq<Seq<char>> {
    rows.filter_map(under(key))
}

/// The members that stand under `key`, each once and in order.
pub open spec fn distinct_members(rows: Seq<(Seq<char>, Seq<char>)>, key: Seq<char>) -> Seq<Seq<char>> {
    distinct_texts(members_of(rows, key))
}

/// Whether several members stand under a key. A row that is listed again is no further member.
pub open spec fn has_several(rows: Seq<(Seq<char>, Seq<char>)>) -> spec_fn(Seq<char>) -> bool {
    |key: Seq<char>| distinct_members(rows, key).len() > 1
}

/// The keys that several members stand under, each once and in order.
pub open spec fn shared_keys(rows: Seq<(Seq<char>, Seq<char>)>) -> Seq<Seq<char>> {
    keys_of(rows).filter(has_several(rows))
}

/// The keys of the rows, each once and in order.
pub fn keys(rows: &Vec<(String, String)>) -> (out: Vec<String>)
    ensures
        views(out@) == keys_of(pairs(rows@)),
{
    broadcast use group_seqs;

    let mut out: Vec<String> = Vec::new();
    let mut i: usize = 0;
    let ghost all = firsts(pairs(rows@));
    while i < rows.len()
        invariant
            i <= rows@.len(),
            all == firsts(pairs(rows@)),
            views(out@) == distinct_texts(all.take(i as int)),
        decreases rows@.len() - i,
    {
        assert(all.take(i + 1).drop_last() =~= all.take(i as int));
        add_key(&mut out, rows[i].0.as_str());
        i += 1;
    }
    out
}

/// The members that stand under `key`, as the rows list them.
pub fn members(rows: &Vec<(String, String)>, key: &str) -> (out: Vec<String>)
    ensures
        views(out@) == members_of(pairs(rows@), key@),
{
    broadcast use group_seqs;

    let mut out: Vec<String> = Vec::new();
    let mut i: usize = 0;
    let ghost all = pairs(rows@);
    while i < rows.len()
        invariant
            i <= rows@.len(),
            all == pairs(rows@),
            views(out@) == all.take(i as int).filter_map(under(key@)),
        decreases rows@.len() - i,
    {
        assert(all[i as int] == (rows@[i as int].0@, rows@[i as int].1@));
        proof {
            all.lemma_filter_map_take_succ(under(key@), i as int);
        }
        if same(rows[i].0.as_str(), key) {
            out.push(rows[i].1.clone());
        }
        i += 1;
        assert(views(out@) =~= all.take(i as int).filter_map(under(key@)));
    }
    out
}

/// The members that stand under `key`, each once and in order.
pub fn members_once(rows: &Vec<(String, String)>, key: &str) -> (out: Vec<String>)
    ensures
        views(out@) == distinct_members(pairs(rows@), key@),
{
    distinct(&members(rows, key))
}

/// The keys that several members stand under, each once and in order.
pub fn keys_shared(rows: &Vec<(String, String)>) -> (out: Vec<String>)
    ensures
        views(out@) == shared_keys(pairs(rows@)),
{
    broadcast use group_seqs;

    let found = keys(rows);
    let ghost all = keys_of(pairs(rows@));
    let ghost several = has_several(pairs(rows@));
    let mut out: Vec<String> = Vec::new();
    let mut i: usize = 0;
    while i < found.len()
        invariant
            i <= found@.len(),
            all == views(found@),
            several == has_several(pairs(rows@)),
            views(out@) == all.take(i as int).filter(several),
        decreases found@.len() - i,
    {
        proof {
            lemma_filter_next(all, several, i as int);
            assert(all[i as int] == found@[i as int]@);
        }
        let members = members_once(rows, found[i].as_str());
        assert(views(members@).len() == members@.len());
        if members.len() > 1 {
            out.push(found[i].clone());
        }
        i += 1;
    }
    out
}

/// A member stands under a key exactly where a row says so.
pub proof fn lemma_members(rows: Seq<(Seq<char>, Seq<char>)>, key: Seq<char>)
    ensures
        strictly_ascending(distinct_members(rows, key)),
        forall|member: Seq<char>| #[trigger]
            distinct_members(rows, key).contains(member) <==> rows.contains((key, member)),
{
    let listed = members_of(rows, key);
    lemma_distinct_texts(listed);
    assert forall|member: Seq<char>| #[trigger]
        distinct_members(rows, key).contains(member) <==> rows.contains((key, member)) by {
        assert(distinct_members(rows, key).contains(member) <==> listed.contains(member));
        lemma_listed(rows, key, member);
    }
}

proof fn lemma_listed(rows: Seq<(Seq<char>, Seq<char>)>, key: Seq<char>, member: Seq<char>)
    ensures
        members_of(rows, key).contains(member) <==> rows.contains((key, member)),
    decreases rows.len(),
{
    let listed = members_of(rows, key);
    if rows.len() == 0 {
        reveal(Seq::filter_map);
    } else {
        let rest = rows.drop_last();
        let last = rows.last();
        let n = rest.len() as int;
        lemma_listed(rest, key, member);
        rows.lemma_filter_map_take_succ(under(key), n);
        assert(rows.take(n) =~= rest);
        assert(rows.take(n + 1) =~= rows);
        let earlier = members_of(rest, key);
        assert(rows[n] == last);
        if rest.contains((key, member)) {
            let i = choose|i: int| 0 <= i < rest.len() && rest[i] == (key, member);
            assert(rows[i] == (key, member));
            let k = choose|k: int| 0 <= k < earlier.len() && earlier[k] == member;
            assert(listed[k] == member);
        } else if last == (key, member) {
            assert(listed[listed.len() - 1] == member);
        } else if listed.contains(member) {
            let k = choose|k: int| 0 <= k < listed.len() && listed[k] == member;
            if k < earlier.len() {
                assert(earlier[k] == member);
            }
        }
        if rows.contains((key, member)) {
            let i = choose|i: int| 0 <= i < rows.len() && rows[i] == (key, member);
            if i < n {
                assert(rest[i] == (key, member));
            }
        }
    }
}

proof fn lemma_keys(rows: Seq<(Seq<char>, Seq<char>)>)
    ensures
        strictly_ascending(keys_of(rows)),
        forall|key: Seq<char>| #[trigger]
            keys_of(rows).contains(key) <==> exists|member: Seq<char>| #[trigger] rows.contains((key, member)),
{
    lemma_distinct_texts(firsts(rows));
    assert forall|key: Seq<char>| #[trigger]
        keys_of(rows).contains(key) <==> exists|member: Seq<char>| #[trigger] rows.contains((key, member)) by {
        assert(keys_of(rows).contains(key) <==> firsts(rows).contains(key));
        if firsts(rows).contains(key) {
            let i = choose|i: int| 0 <= i < rows.len() && firsts(rows)[i] == key;
            assert(rows[i] == (key, rows[i].1));
            assert(rows.contains((key, rows[i].1)));
        }
        if exists|member: Seq<char>| #[trigger] rows.contains((key, member)) {
            let member = choose|member: Seq<char>| #[trigger] rows.contains((key, member));
            let i = choose|i: int| 0 <= i < rows.len() && rows[i] == (key, member);
            assert(firsts(rows)[i] == key);
        }
    }
}

/// The shared keys come in order, each once, and a key is shared exactly where rows name two different
/// members under it.
pub proof fn lemma_shared_keys(rows: Seq<(Seq<char>, Seq<char>)>)
    ensures
        strictly_ascending(shared_keys(rows)),
        forall|key: Seq<char>| #[trigger]
            shared_keys(rows).contains(key) <==> exists|a: Seq<char>, b: Seq<char>|
                a != b && #[trigger] rows.contains((key, a)) && #[trigger] rows.contains((key, b)),
{
    let all = keys_of(rows);
    let several = has_several(rows);
    lemma_keys(rows);
    lemma_filter_ascending(all, several);
    assert forall|key: Seq<char>| #[trigger]
        shared_keys(rows).contains(key) <==> exists|a: Seq<char>, b: Seq<char>|
            a != b && #[trigger] rows.contains((key, a)) && #[trigger] rows.contains((key, b)) by {
        let members = distinct_members(rows, key);
        lemma_members(rows, key);
        assert(all.contains(key) <==> exists|member: Seq<char>| #[trigger] rows.contains((key, member)));
        if members.len() > 1 {
            assert(lex_less(ranks(members[0]), ranks(members[1])));
            lemma_lex_irreflexive(ranks(members[0]));
            assert(members.contains(members[0]) && members.contains(members[1]));
            assert(rows.contains((key, members[0])) && rows.contains((key, members[1])));
        }
        if exists|a: Seq<char>, b: Seq<char>|
            a != b && #[trigger] rows.contains((key, a)) && #[trigger] rows.contains((key, b)) {
            let (a, b) = choose|a: Seq<char>, b: Seq<char>|
                a != b && #[trigger] rows.contains((key, a)) && #[trigger] rows.contains((key, b));
            assert(members.contains(a) && members.contains(b));
            let i = choose|i: int| 0 <= i < members.len() && members[i] == a;
            let j = choose|j: int| 0 <= j < members.len() && members[j] == b;
            assert(i != j);
        }
    }
}

/// The keys and their members depend on which rows there are, not on where or how often they stand.
pub proof fn lemma_same_rows(a: Seq<(Seq<char>, Seq<char>)>, b: Seq<(Seq<char>, Seq<char>)>)
    requires
        forall|row: (Seq<char>, Seq<char>)| #[trigger] a.contains(row) <==> b.contains(row),
    ensures
        shared_keys(a) == shared_keys(b),
        forall|key: Seq<char>| #[trigger] distinct_members(a, key) == distinct_members(b, key),
{
    assert forall|key: Seq<char>| #[trigger] distinct_members(a, key) == distinct_members(b, key) by {
        lemma_members(a, key);
        lemma_members(b, key);
        assert forall|x: Seq<char>| #[trigger]
            distinct_members(a, key).contains(x) <==> distinct_members(b, key).contains(x) by {
            assert(a.contains((key, x)) <==> b.contains((key, x)));
        }
        lemma_ascending_unique(distinct_members(a, key), distinct_members(b, key));
    }
    lemma_shared_keys(a);
    lemma_shared_keys(b);
    assert forall|key: Seq<char>| #[trigger] shared_keys(a).contains(key) <==> shared_keys(b).contains(key) by {
        if shared_keys(a).contains(key) {
            let (x, y) = choose|x: Seq<char>, y: Seq<char>|
                x != y && #[trigger] a.contains((key, x)) && #[trigger] a.contains((key, y));
            assert(b.contains((key, x)) && b.contains((key, y)));
        }
        if shared_keys(b).contains(key) {
            let (x, y) = choose|x: Seq<char>, y: Seq<char>|
                x != y && #[trigger] b.contains((key, x)) && #[trigger] b.contains((key, y));
            assert(a.contains((key, x)) && a.contains((key, y)));
        }
    }
    lemma_ascending_unique(shared_keys(a), shared_keys(b));
}

} // verus!
