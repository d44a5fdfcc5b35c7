//! Stable sorting by rank.

use vstd::prelude::*;

use crate::order::{
    lemma_lex_asymmetric, lemma_lex_irreflexive, lemma_lex_total, lemma_lex_transitive, lex_less, Ordered,
};
use crate::seqs::{group_seqs, lemma_views_push, views};
use crate::text::ranks;

verus! {

/// The elements with `x` behind every element that does not come after it.
pub open spec fn inserted<T>(s: Seq<T>, x: T, rank: spec_fn(T) -> Seq<int>) -> Seq<T>
    decreases s.len(),
{
    if s.len() == 0 || !lex_less(rank(x), rank(s.last())) {
        s.push(x)
    } else {
        inserted(s.drop_last(), x, rank).push(s.last())
    }
}

/// The elements in order; those of the same rank stay as they stood.
pub open spec fn sorted<T>(s: Seq<T>, rank: spec_fn(T) -> Seq<int>) -> Seq<T>
    decreases s.len(),
{
    if s.len() == 0 {
        s
    } else {
        inserted(sorted(s.drop_last(), rank), s.last(), rank)
    }
}

/// Whether no element comes after a later one.
pub open spec fn in_order<T>(s: Seq<T>, rank: spec_fn(T) -> Seq<int>) -> bool {
    forall|i: int, j: int| 0 <= i < j < s.len() ==> !lex_less(#[trigger] rank(s[j]), #[trigger] rank(s[i]))
}

proof fn lemma_inserted_at<T>(s: Seq<T>, x: T, i: int, rank: spec_fn(T) -> Seq<int>)
    requires
        0 <= i <= s.len(),
        i > 0 ==> !lex_less(rank(x), rank(s[i - 1])),
        forall|j: int| i <= j < s.len() ==> lex_less(rank(x), #[trigger] rank(s[j])),
    ensures
        inserted(s, x, rank) == s.insert(i, x),
    decreases s.len(),
{
    if i < s.len() {
        let rest = s.drop_last();
        assert(lex_less(rank(x), rank(s[s.len() - 1])));
        assert forall|j: int| i <= j < rest.len() implies lex_less(rank(x), #[trigger] rank(rest[j])) by {
            assert(rest[j] == s[j]);
        }
        lemma_inserted_at(rest, x, i, rank);
        assert(rest.insert(i, x).push(s.last()) =~= s.insert(i, x));
    } else {
        assert(s.push(x) =~= s.insert(i, x));
    }
}

proof fn lemma_inserted<T>(s: Seq<T>, x: T, rank: spec_fn(T) -> Seq<int>)
    ensures
        inserted(s, x, rank).len() == s.len() + 1,
        inserted(s, x, rank).to_multiset() == s.push(x).to_multiset(),
        in_order(s, rank) ==> in_order(inserted(s, x, rank), rank),
        forall|y: T| #[trigger] inserted(s, x, rank).contains(y) <==> s.contains(y) || y == x,
    decreases s.len(),
{
    broadcast use vstd::seq_lib::group_to_multiset_ensures;

    let out = inserted(s, x, rank);
    if s.len() == 0 || !lex_less(rank(x), rank(s.last())) {
        assert forall|y: T| #[trigger] out.contains(y) <==> s.contains(y) || y == x by {
            if s.contains(y) {
                let i = choose|i: int| 0 <= i < s.len() && s[i] == y;
                assert(out[i] == y);
            }
            if y == x {
                assert(out[s.len() as int] == y);
            }
        }
        if in_order(s, rank) {
            assert forall|i: int, j: int| 0 <= i < j < out.len() implies !lex_less(
                #[trigger] rank(out[j]),
                #[trigger] rank(out[i]),
            ) by {
                if j == s.len() && i < s.len() - 1 {
                    assert(!lex_less(rank(s[s.len() - 1]), rank(s[i])));
                    if lex_less(rank(x), rank(s[i])) {
                        lemma_lex_total(rank(s.last()), rank(s[i]));
                        if lex_less(rank(s[i]), rank(s.last())) {
                            lemma_lex_transitive(rank(x), rank(s[i]), rank(s.last()));
                        }
                    }
                }
            }
        }
    } else {
        let rest = s.drop_last();
        lemma_inserted(rest, x, rank);
        let inner = inserted(rest, x, rank);
        assert(s =~= rest.push(s.last()));
        assert(s.push(x).to_multiset() =~= rest.push(x).push(s.last()).to_multiset());
        assert forall|y: T| #[trigger] out.contains(y) <==> s.contains(y) || y == x by {
            if s.contains(y) {
                let i = choose|i: int| 0 <= i < s.len() && s[i] == y;
                if i < rest.len() {
                    assert(rest[i] == y);
                    assert(inner.contains(y));
                    let k = choose|k: int| 0 <= k < inner.len() && inner[k] == y;
                    assert(out[k] == y);
                } else {
                    assert(out[out.len() - 1] == y);
                }
            }
            if y == x {
                assert(inner.contains(y));
                let k = choose|k: int| 0 <= k < inner.len() && inner[k] == y;
                assert(out[k] == y);
            }
            if out.contains(y) {
                let k = choose|k: int| 0 <= k < out.len() && out[k] == y;
                if k < inner.len() {
                    assert(inner[k] == y);
                    assert(inner.contains(y));
                    if rest.contains(y) {
                        let i = choose|i: int| 0 <= i < rest.len() && rest[i] == y;
                        assert(s[i] == y);
                    }
                } else {
                    assert(s[s.len() - 1] == y);
                }
            }
        }
        if in_order(s, rank) {
            assert forall|i: int, j: int| 0 <= i < j < rest.len() implies !lex_less(
                #[trigger] rank(rest[j]),
                #[trigger] rank(rest[i]),
            ) by {
                assert(rest[i] == s[i] && rest[j] == s[j]);
            }
            assert(in_order(inner, rank));
            assert forall|i: int, j: int| 0 <= i < j < out.len() implies !lex_less(
                #[trigger] rank(out[j]),
                #[trigger] rank(out[i]),
            ) by {
                if j < inner.len() {
                    assert(out[i] == inner[i] && out[j] == inner[j]);
                } else {
                    assert(out[i] == inner[i]);
                    assert(inner.contains(inner[i]));
                    if inner[i] == x {
                        lemma_lex_asymmetric(rank(x), rank(s.last()));
                    } else {
                        let k = choose|k: int| 0 <= k < rest.len() && rest[k] == inner[i];
                        assert(s[k] == inner[i]);
                        assert(!lex_less(rank(s[s.len() - 1]), rank(s[k])));
                    }
                }
            }
        }
    }
}

/// Sorting keeps every element as often as it stood, and puts them in order.
pub proof fn lemma_sorted<T>(s: Seq<T>, rank: spec_fn(T) -> Seq<int>)
    ensures
        in_order(sorted(s, rank), rank),
        sorted(s, rank).to_multiset() == s.to_multiset(),
        sorted(s, rank).len() == s.len(),
        forall|y: T| #[trigger] sorted(s, rank).contains(y) <==> s.contains(y),
    decreases s.len(),
{
    broadcast use vstd::seq_lib::group_to_multiset_ensures;

    if s.len() > 0 {
        let rest = s.drop_last();
        lemma_sorted(rest, rank);
        lemma_inserted(sorted(rest, rank), s.last(), rank);
        assert(s =~= rest.push(s.last()));
        assert forall|y: T| #[trigger] sorted(s, rank).contains(y) <==> s.contains(y) by {
            assert(sorted(rest, rank).contains(y) <==> rest.contains(y));
            if rest.contains(y) {
                let i = choose|i: int| 0 <= i < rest.len() && rest[i] == y;
                assert(s[i] == y);
            }
            if y == s.last() {
                assert(s[s.len() - 1] == y);
            }
        }
    }
}

/// The rank of the values of a type.
pub open spec fn rank_of<T: Ordered>() -> spec_fn(T) -> Seq<int> {
    |x: T| x.rank()
}

/// The rank of texts: their code points.
pub open spec fn text_rank() -> spec_fn(Seq<char>) -> Seq<int> {
    |s: Seq<char>| ranks(s)
}

/// Puts the elements in order.
pub fn sort<T: Ordered>(v: &mut Vec<T>)
    ensures
        final(v)@ == sorted(old(v)@, rank_of::<T>()),
{
    let ghost start = v@;
    let n = v.len();
    let mut i: usize = 0;
    assert(sorted(start.take(0), rank_of::<T>()) + start.skip(0) =~= start);
    while i < n
        invariant
            n == start.len(),
            v@.len() == n,
            i <= n,
            v@ == sorted(start.take(i as int), rank_of::<T>()) + start.skip(i as int),
            sorted(start.take(i as int), rank_of::<T>()).len() == i,
        decreases n - i,
    {
        let ghost front = sorted(start.take(i as int), rank_of::<T>());
        let x = v.remove(i);
        assert(x == start[i as int]);
        assert(v@ =~= front + start.skip(i + 1));
        let mut j: usize = i;
        while j > 0 && x.precedes(&v[j - 1])
            invariant
                j <= i,
                i < n,
                v@.len() == n - 1,
                front.len() == i,
                v@ == front + start.skip(i + 1),
                forall|k: int| j <= k < i ==> lex_less(x.rank(), #[trigger] front[k].rank()),
            decreases j,
        {
            j -= 1;
            assert(v@[j as int] == front[j as int]);
        }
        proof {
            if j > 0 {
                assert(v@[j - 1] == front[j - 1]);
            }
            lemma_inserted_at(front, x, j as int, rank_of::<T>());
            lemma_sorted(start.take(i + 1), rank_of::<T>());
            assert(start.take(i + 1).drop_last() =~= start.take(i as int));
        }
        v.insert(j, x);
        assert(v@ =~= sorted(start.take(i + 1), rank_of::<T>()) + start.skip(i + 1));
        i += 1;
    }
    assert(start.take(n as int) =~= start);
    assert(v@ =~= sorted(start, rank_of::<T>()));
}

proof fn lemma_inserted_views<T: Ordered + View>(s: Seq<T>, x: T, rank: spec_fn(T::V) -> Seq<int>)
    requires
        forall|y: T| #[trigger] rank(y@) == y.rank(),
    ensures
        views(inserted(s, x, rank_of::<T>())) == inserted(views(s), x@, rank),
    decreases s.len(),
{
    broadcast use lemma_views_push;

    if s.len() > 0 {
        assert(rank(x@) == x.rank() && rank(s.last()@) == s.last().rank());
        if lex_less(x.rank(), s.last().rank()) {
            lemma_inserted_views(s.drop_last(), x, rank);
            assert(views(s).drop_last() =~= views(s.drop_last()));
        }
    }
}

/// Values are sorted as their views are.
pub proof fn lemma_sorted_views<T: Ordered + View>(s: Seq<T>, rank: spec_fn(T::V) -> Seq<int>)
    requires
        forall|y: T| #[trigger] rank(y@) == y.rank(),
    ensures
        views(sorted(s, rank_of::<T>())) == sorted(views(s), rank),
    decreases s.len(),
{
    if s.len() > 0 {
        lemma_sorted_views(s.drop_last(), rank);
        lemma_inserted_views(sorted(s.drop_last(), rank_of::<T>()), s.last(), rank);
        assert(views(s).drop_last() =~= views(s.drop_last()));
    } else {
        assert(views(s) =~= Seq::<T::V>::empty());
    }
}

/// Puts the texts in order.
pub fn sort_texts(v: &mut Vec<String>)
    ensures
        views(final(v)@) == sorted(views(old(v)@), text_rank()),
{
    proof {
        lemma_sorted_views(v@, text_rank());
    }
    sort(v);
}

/// The keys with `key` among them, each once and in order.
pub open spec fn with_key(keys: Seq<Seq<char>>, key: Seq<char>) -> Seq<Seq<char>>
    decreases keys.len(),
{
    if keys.len() == 0 || lex_less(ranks(keys.last()), ranks(key)) {
        keys.push(key)
    } else if keys.last() == key {
        keys
    } else {
        with_key(keys.drop_last(), key).push(keys.last())
    }
}

/// The texts of a sequence, each once and in order.
pub open spec fn distinct_texts(s: Seq<Seq<char>>) -> Seq<Seq<char>>
    decreases s.len(),
{
    if s.len() == 0 {
        s
    } else {
        with_key(distinct_texts(s.drop_last()), s.last())
    }
}

/// Whether each text comes before every later one.
pub open spec fn strictly_ascending(s: Seq<Seq<char>>) -> bool {
    forall|i: int, j: int| 0 <= i < j < s.len() ==> lex_less(ranks(#[trigger] s[i]), ranks(#[trigger] s[j]))
}

proof fn lemma_with_key(keys: Seq<Seq<char>>, key: Seq<char>)
    requires
        strictly_ascending(keys),
    ensures
        strictly_ascending(with_key(keys, key)),
        forall|k: Seq<char>| #[trigger] with_key(keys, key).contains(k) <==> keys.contains(k) || k == key,
    decreases keys.len(),
{
    let out = with_key(keys, key);
    if keys.len() == 0 || lex_less(ranks(keys.last()), ranks(key)) {
        assert forall|i: int, j: int| 0 <= i < j < out.len() implies lex_less(
            ranks(#[trigger] out[i]),
            ranks(#[trigger] out[j]),
        ) by {
            if j == keys.len() && i < keys.len() - 1 {
                lemma_lex_transitive(ranks(keys[i]), ranks(keys[keys.len() - 1]), ranks(key));
            }
        }
        assert forall|k: Seq<char>| #[trigger] out.contains(k) <==> keys.contains(k) || k == key by {
            if keys.contains(k) {
                let i = choose|i: int| 0 <= i < keys.len() && keys[i] == k;
                assert(out[i] == k);
            }
            if k == key {
                assert(out[keys.len() as int] == k);
            }
        }
    } else if keys.last() == key {
        assert(keys[keys.len() - 1] == key);
    } else {
        let rest = keys.drop_last();
        let last = keys.last();
        lemma_with_key(rest, key);
        let inner = with_key(rest, key);
        lemma_lex_total(ranks(last), ranks(key));
        crate::text::lemma_ranks_injective(last, key);
        assert forall|i: int, j: int| 0 <= i < j < out.len() implies lex_less(
            ranks(#[trigger] out[i]),
            ranks(#[trigger] out[j]),
        ) by {
            if j < inner.len() {
                assert(out[i] == inner[i] && out[j] == inner[j]);
            } else {
                assert(out[i] == inner[i]);
                assert(inner.contains(inner[i]));
                if inner[i] != key {
                    let k = choose|k: int| 0 <= k < rest.len() && rest[k] == inner[i];
                    assert(keys[k] == inner[i]);
                    assert(lex_less(ranks(keys[k]), ranks(keys[keys.len() - 1])));
                }
            }
        }
        assert forall|k: Seq<char>| #[trigger] out.contains(k) <==> keys.contains(k) || k == key by {
            assert(inner.contains(k) <==> rest.contains(k) || k == key);
            if keys.contains(k) {
                let i = choose|i: int| 0 <= i < keys.len() && keys[i] == k;
                if i < rest.len() {
                    assert(rest[i] == k);
                } else {
                    assert(out[out.len() - 1] == k);
                }
            }
            if inner.contains(k) {
                let i = choose|i: int| 0 <= i < inner.len() && inner[i] == k;
                assert(out[i] == k);
            }
            if rest.contains(k) {
                let i = choose|i: int| 0 <= i < rest.len() && rest[i] == k;
                assert(keys[i] == k);
            }
            if out.contains(k) {
                let i = choose|i: int| 0 <= i < out.len() && out[i] == k;
                if i < inner.len() {
                    assert(inner[i] == k);
                } else {
                    assert(keys[keys.len() - 1] == k);
                }
            }
        }
    }
}

/// The distinct texts of a sequence are those that stand in it, and each comes before the next.
pub proof fn lemma_distinct_texts(s: Seq<Seq<char>>)
    ensures
        strictly_ascending(distinct_texts(s)),
        forall|k: Seq<char>| #[trigger] distinct_texts(s).contains(k) <==> s.contains(k),
    decreases s.len(),
{
    if s.len() > 0 {
        let rest = s.drop_last();
        lemma_distinct_texts(rest);
        lemma_with_key(distinct_texts(rest), s.last());
        assert forall|k: Seq<char>| #[trigger] distinct_texts(s).contains(k) <==> s.contains(k) by {
            assert(distinct_texts(rest).contains(k) <==> rest.contains(k));
            if rest.contains(k) {
                let i = choose|i: int| 0 <= i < rest.len() && rest[i] == k;
                assert(s[i] == k);
            }
            if k == s.last() {
                assert(s[s.len() - 1] == k);
            }
            if s.contains(k) && k != s.last() {
                let i = choose|i: int| 0 <= i < s.len() && s[i] == k;
                assert(rest[i] == k);
            }
        }
    }
}

proof fn lemma_with_key_at(keys: Seq<Seq<char>>, key: Seq<char>, i: int, held: bool)
    requires
        0 <= i <= keys.len(),
        forall|j: int| i <= j < keys.len() ==> lex_less(ranks(key), ranks(#[trigger] keys[j])),
        held ==> i > 0 && keys[i - 1] == key,
        !held ==> (i > 0 ==> lex_less(ranks(keys[i - 1]), ranks(key))),
    ensures
        with_key(keys, key) == (if held {
            keys
        } else {
            keys.insert(i, key)
        }),
    decreases keys.len(),
{
    if i < keys.len() {
        let rest = keys.drop_last();
        lemma_lex_asymmetric(ranks(key), ranks(keys[keys.len() - 1]));
        assert forall|j: int| i <= j < rest.len() implies lex_less(ranks(key), ranks(#[trigger] rest[j])) by {
            assert(rest[j] == keys[j]);
        }
        lemma_with_key_at(rest, key, i, held);
        if held {
            assert(rest.push(keys.last()) =~= keys);
        } else {
            assert(rest.insert(i, key).push(keys.last()) =~= keys.insert(i, key));
        }
    } else {
        lemma_lex_irreflexive(ranks(key));
        if !held {
            assert(keys.push(key) =~= keys.insert(i, key));
        }
    }
}

/// Adds `key` to keys that are each there once and in order.
pub fn add_key(keys: &mut Vec<String>, key: &str)
    ensures
        views(final(keys)@) == with_key(views(old(keys)@), key@),
{
    let wanted = key.to_owned();
    let mut i: usize = keys.len();
    while i > 0 && wanted.precedes(&keys[i - 1])
        invariant
            i <= keys@.len(),
            keys@ == old(keys)@,
            wanted@ == key@,
            forall|j: int| i <= j < keys@.len() ==> lex_less(ranks(key@), ranks(#[trigger] views(keys@)[j])),
        decreases i,
    {
        i -= 1;
    }
    if i > 0 && !keys[i - 1].precedes(&wanted) {
        proof {
            lemma_lex_total(ranks(keys@[i - 1]@), ranks(key@));
            crate::text::lemma_ranks_injective(keys@[i - 1]@, key@);
            lemma_with_key_at(views(keys@), key@, i as int, true);
        }
        return;
    }
    proof {
        lemma_with_key_at(views(keys@), key@, i as int, false);
        assert(views(keys@.insert(i as int, wanted)) =~= views(keys@).insert(i as int, wanted@));
    }
    keys.insert(i, wanted);
}

/// The texts, each once and in order.
pub fn distinct(list: &Vec<String>) -> (texts: Vec<String>)
    ensures
        views(texts@) == distinct_texts(views(list@)),
{
    broadcast use group_seqs;

    let mut texts: Vec<String> = Vec::new();
    let ghost all = views(list@);
    let mut i: usize = 0;
    while i < list.len()
        invariant
            i <= list@.len(),
            all == views(list@),
            views(texts@) == distinct_texts(all.take(i as int)),
        decreases list@.len() - i,
    {
        assert(all.take(i + 1).drop_last() =~= all.take(i as int));
        add_key(&mut texts, list[i].as_str());
        i += 1;
    }
    texts
}

/// What a filter keeps of texts in order is in order, and holds just those that it is meant to keep.
pub proof fn lemma_filter_ascending(s: Seq<Seq<char>>, keep: spec_fn(Seq<char>) -> bool)
    requires
        strictly_ascending(s),
    ensures
        strictly_ascending(s.filter(keep)),
        forall|x: Seq<char>| #[trigger] s.filter(keep).contains(x) <==> s.contains(x) && keep(x),
    decreases s.len(),
{
    reveal(Seq::filter);
    if s.len() > 0 {
        let rest = s.drop_last();
        let last = s.last();
        assert forall|i: int, j: int| 0 <= i < j < rest.len() implies lex_less(
            ranks(#[trigger] rest[i]),
            ranks(#[trigger] rest[j]),
        ) by {
            assert(rest[i] == s[i] && rest[j] == s[j]);
        }
        lemma_filter_ascending(rest, keep);
        let kept = rest.filter(keep);
        let out = s.filter(keep);
        assert(s[s.len() - 1] == last);
        assert forall|x: Seq<char>| #[trigger] out.contains(x) <==> s.contains(x) && keep(x) by {
            assert(kept.contains(x) <==> rest.contains(x) && keep(x));
            if rest.contains(x) {
                let i = choose|i: int| 0 <= i < rest.len() && rest[i] == x;
                assert(s[i] == x);
            }
            if s.contains(x) && x != last {
                let i = choose|i: int| 0 <= i < s.len() && s[i] == x;
                assert(rest[i] == x);
            }
            if keep(last) {
                assert(out[kept.len() as int] == last);
                if kept.contains(x) {
                    let i = choose|i: int| 0 <= i < kept.len() && kept[i] == x;
                    assert(out[i] == x);
                }
                if out.contains(x) && x != last {
                    let i = choose|i: int| 0 <= i < out.len() && out[i] == x;
                    assert(kept[i] == x);
                }
            }
        }
        assert forall|i: int, j: int| 0 <= i < j < out.len() implies lex_less(
            ranks(#[trigger] out[i]),
            ranks(#[trigger] out[j]),
        ) by {
            assert(kept[i] == out[i]);
            if j < kept.len() {
                assert(kept[j] == out[j]);
            } else {
                assert(kept.contains(kept[i]));
                let k = choose|k: int| 0 <= k < rest.len() && rest[k] == kept[i];
                assert(s[k] == kept[i]);
                assert(lex_less(ranks(s[k]), ranks(s[s.len() - 1])));
            }
        }
    }
}

/// Texts in order are told by which texts they are.
pub proof fn lemma_ascending_unique(a: Seq<Seq<char>>, b: Seq<Seq<char>>)
    requires
        strictly_ascending(a),
        strictly_ascending(b),
        forall|x: Seq<char>| #[trigger] a.contains(x) <==> b.contains(x),
    ensures
        a == b,
    decreases a.len() + b.len(),
{
    if a.len() == 0 {
        if b.len() > 0 {
            assert(b.contains(b[0]));
            assert(a.contains(b[0]));
        }
        assert(a =~= b);
    } else if b.len() == 0 {
        assert(a.contains(a[0]));
        assert(b.contains(a[0]));
    } else {
        let x = a[a.len() - 1];
        let y = b[b.len() - 1];
        assert(a.contains(x) && b.contains(y));
        assert(a.contains(y));
        let i = choose|i: int| 0 <= i < b.len() && b[i] == x;
        let j = choose|j: int| 0 <= j < a.len() && a[j] == y;
        if i < b.len() - 1 && j < a.len() - 1 {
            assert(lex_less(ranks(b[i]), ranks(b[b.len() - 1])));
            assert(lex_less(ranks(a[j]), ranks(a[a.len() - 1])));
            lemma_lex_asymmetric(ranks(x), ranks(y));
        }
        assert(x == y);
        let front = a.drop_last();
        let other = b.drop_last();
        assert forall|i: int, j: int| 0 <= i < j < front.len() implies lex_less(
            ranks(#[trigger] front[i]),
            ranks(#[trigger] front[j]),
        ) by {
            assert(front[i] == a[i] && front[j] == a[j]);
        }
        assert forall|i: int, j: int| 0 <= i < j < other.len() implies lex_less(
            ranks(#[trigger] other[i]),
            ranks(#[trigger] other[j]),
        ) by {
            assert(other[i] == b[i] && other[j] == b[j]);
        }
        assert forall|z: Seq<char>| #[trigger] front.contains(z) <==> other.contains(z) by {
            if front.contains(z) {
                let k = choose|k: int| 0 <= k < front.len() && front[k] == z;
                assert(a[k] == z);
                assert(a.contains(z));
                assert(lex_less(ranks(a[k]), ranks(a[a.len() - 1])));
                lemma_lex_irreflexive(ranks(x));
                let m = choose|m: int| 0 <= m < b.len() && b[m] == z;
                assert(other[m] == z);
            }
            if other.contains(z) {
                let k = choose|k: int| 0 <= k < other.len() && other[k] == z;
                assert(b[k] == z);
                assert(b.contains(z));
                assert(lex_less(ranks(b[k]), ranks(b[b.len() - 1])));
                lemma_lex_irreflexive(ranks(y));
                assert(a.contains(z));
                let m = choose|m: int| 0 <= m < a.len() && a[m] == z;
                assert(front[m] == z);
            }
        }
        lemma_ascending_unique(front, other);
        assert(a =~= front.push(x));
        assert(b =~= other.push(y));
    }
}

} // verus!
