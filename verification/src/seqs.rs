//! Sequences of values and of their views.

use vstd::prelude::*;

verus! {

/// The views of the elements of `s`, in order.
pub open spec fn views<T: View>(s: Seq<T>) -> Seq<T::V> {
    Seq::new(s.len(), |i: int| s[i]@)
}

/// The view of what an option holds.
pub open spec fn view_of<T: View>(value: Option<T>) -> Option<T::V> {
    match value {
        Some(inner) => Some(inner@),
        None => None,
    }
}

/// What an option of a reference points at.
pub open spec fn pointee<T>(value: Option<&T>) -> Option<T> {
    match value {
        Some(inner) => Some(*inner),
        None => None,
    }
}

/// What an option holds, as a sequence of at most one element.
pub open spec fn listed<T>(value: Option<T>) -> Seq<T> {
    match value {
        Some(inner) => seq![inner],
        None => Seq::empty(),
    }
}

/// What `f` gives for each element of `s`, one after the other.
pub open spec fn gathered<A, B>(s: Seq<A>, f: spec_fn(A) -> Seq<B>) -> Seq<B>
    decreases s.len(),
{
    if s.len() == 0 {
        Seq::empty()
    } else {
        gathered(s.drop_last(), f) + f(s.last())
    }
}

/// The elements, each where it first stands.
pub open spec fn once<A>(s: Seq<A>) -> Seq<A>
    decreases s.len(),
{
    if s.len() == 0 {
        s
    } else if s.drop_last().contains(s.last()) {
        once(s.drop_last())
    } else {
        once(s.drop_last()).push(s.last())
    }
}

/// Every element is kept, and none stands twice.
pub proof fn lemma_once<A>(s: Seq<A>)
    ensures
        once(s).no_duplicates(),
        forall|x: A| #[trigger] once(s).contains(x) <==> s.contains(x),
    decreases s.len(),
{
    if s.len() > 0 {
        let rest = s.drop_last();
        let last = s.last();
        lemma_once(rest);
        assert(once(rest).contains(last) <==> rest.contains(last));
        assert forall|x: A| #[trigger] once(s).contains(x) <==> s.contains(x) by {
            assert(once(rest).contains(x) <==> rest.contains(x));
            if rest.contains(x) {
                let i = choose|i: int| 0 <= i < rest.len() && rest[i] == x;
                assert(s[i] == x);
            }
            if s.contains(x) && x != last {
                let i = choose|i: int| 0 <= i < s.len() && s[i] == x;
                assert(rest[i] == x);
            }
            assert(s[s.len() - 1] == last);
            if !rest.contains(last) {
                let more = once(rest).push(last);
                assert(more[more.len() - 1] == last);
                if once(rest).contains(x) {
                    let i = choose|i: int| 0 <= i < once(rest).len() && once(rest)[i] == x;
                    assert(more[i] == x);
                }
                if more.contains(x) && x != last {
                    let i = choose|i: int| 0 <= i < more.len() && more[i] == x;
                    assert(once(rest)[i] == x);
                }
            }
        }
    }
}

pub broadcast proof fn lemma_views_push<T: View>(s: Seq<T>, x: T)
    ensures
        #[trigger] views(s.push(x)) == views(s).push(x@),
{
    assert(views(s.push(x)) =~= views(s).push(x@));
}

pub broadcast proof fn lemma_views_add<T: View>(a: Seq<T>, b: Seq<T>)
    ensures
        #[trigger] views(a + b) == views(a) + views(b),
{
    assert(views(a + b) =~= views(a) + views(b));
}

pub broadcast proof fn lemma_views_take<T: View>(s: Seq<T>, i: int)
    requires
        0 <= i <= s.len(),
    ensures
        #[trigger] views(s.take(i)) == views(s).take(i),
{
    assert(views(s.take(i)) =~= views(s).take(i));
}

pub broadcast proof fn lemma_views_empty<T: View>()
    ensures
        #[trigger] views(Seq::<T>::empty()) == Seq::<T::V>::empty(),
{
    assert(views(Seq::<T>::empty()) =~= Seq::<T::V>::empty());
}

/// One more element of a prefix adds what `f` gives for it.
pub proof fn lemma_gathered_next<A, B>(s: Seq<A>, f: spec_fn(A) -> Seq<B>, i: int)
    requires
        0 <= i < s.len(),
    ensures
        gathered(s.take(i + 1), f) == gathered(s.take(i), f) + f(s[i]),
{
    assert(s.take(i + 1).drop_last() =~= s.take(i));
}

/// One more element of a prefix is kept exactly where `p` holds of it.
pub proof fn lemma_filter_next<A>(s: Seq<A>, p: spec_fn(A) -> bool, i: int)
    requires
        0 <= i < s.len(),
    ensures
        s.take(i + 1).filter(p) == (if p(s[i]) {
            s.take(i).filter(p).push(s[i])
        } else {
            s.take(i).filter(p)
        }),
{
    reveal(Seq::filter);
    assert(s.take(i + 1).drop_last() =~= s.take(i));
}

/// One more element of a prefix is mapped at its end.
pub proof fn lemma_map_next<A, B>(s: Seq<A>, f: spec_fn(A) -> B, i: int)
    requires
        0 <= i < s.len(),
    ensures
        s.take(i + 1).map_values(f) == s.take(i).map_values(f).push(f(s[i])),
{
    assert(s.take(i + 1).map_values(f) =~= s.take(i).map_values(f).push(f(s[i])));
}

/// One more element of a prefix stands at its end.
pub proof fn lemma_take_next<A>(s: Seq<A>, i: int)
    requires
        0 <= i < s.len(),
    ensures
        s.take(i + 1) == s.take(i).push(s[i]),
{
    assert(s.take(i + 1) =~= s.take(i).push(s[i]));
}

/// A whole sequence is its own longest prefix.
pub broadcast proof fn lemma_take_all<A>(s: Seq<A>)
    ensures
        #[trigger] s.take(s.len() as int) == s,
{
    assert(s.take(s.len() as int) =~= s);
}

/// The first none of a sequence are no elements.
pub broadcast proof fn lemma_take_none<A>(s: Seq<A>)
    ensures
        #[trigger] s.take(0) == Seq::<A>::empty(),
{
    assert(s.take(0) =~= Seq::<A>::empty());
}

/// What a filtering map gives is what it makes of some element.
pub proof fn lemma_filter_map_has<A, B>(s: Seq<A>, f: spec_fn(A) -> Option<B>, x: B)
    ensures
        s.filter_map(f).contains(x) <==> exists|i: int| 0 <= i < s.len() && f(#[trigger] s[i]) == Some(x),
    decreases s.len(),
{
    if s.len() > 0 {
        let rest = s.drop_last();
        let last = s.len() - 1;
        lemma_filter_map_has(rest, f, x);
        let before = rest.filter_map(f);
        if s.filter_map(f).contains(x) {
            let k = choose|k: int| 0 <= k < s.filter_map(f).len() && s.filter_map(f)[k] == x;
            if k < before.len() {
                assert(before[k] == x);
                let i = choose|i: int| 0 <= i < rest.len() && f(#[trigger] rest[i]) == Some(x);
                assert(s[i] == rest[i]);
            } else {
                assert(f(s[last]) == Some(x));
            }
        }
        if exists|i: int| 0 <= i < s.len() && f(#[trigger] s[i]) == Some(x) {
            let i = choose|i: int| 0 <= i < s.len() && f(#[trigger] s[i]) == Some(x);
            if i < last {
                assert(rest[i] == s[i]);
                assert(before.contains(x));
                let k = choose|k: int| 0 <= k < before.len() && before[k] == x;
                assert(s.filter_map(f)[k] == x);
            } else {
                assert(s.filter_map(f)[before.len() as int] == x);
            }
        }
    }
}

/// What a filter keeps are the elements of which the predicate holds.
pub proof fn lemma_filter_has<A>(s: Seq<A>, p: spec_fn(A) -> bool, x: A)
    ensures
        s.filter(p).contains(x) <==> s.contains(x) && p(x),
{
    broadcast use vstd::seq_lib::group_filter_ensures;

    if s.filter(p).contains(x) {
        let k = choose|k: int| 0 <= k < s.filter(p).len() && s.filter(p)[k] == x;
        assert(p(s.filter(p)[k]));
        s.lemma_filter_contains_rev(p, x);
    }
    if s.contains(x) && p(x) {
        let k = choose|k: int| 0 <= k < s.len() && s[k] == x;
        s.lemma_filter_contains(p, k);
    }
}

/// What is gathered is what some element gives.
pub proof fn lemma_gathered_has<A, B>(s: Seq<A>, f: spec_fn(A) -> Seq<B>, x: B)
    ensures
        gathered(s, f).contains(x) <==> exists|i: int| 0 <= i < s.len() && f(#[trigger] s[i]).contains(x),
    decreases s.len(),
{
    if s.len() > 0 {
        let rest = s.drop_last();
        let last = s.len() - 1;
        lemma_gathered_has(rest, f, x);
        let before = gathered(rest, f);
        let all = gathered(s, f);
        if all.contains(x) {
            let k = choose|k: int| 0 <= k < all.len() && all[k] == x;
            if k < before.len() {
                assert(before[k] == x);
                let i = choose|i: int| 0 <= i < rest.len() && f(#[trigger] rest[i]).contains(x);
                assert(s[i] == rest[i]);
            } else {
                assert(f(s[last])[k - before.len()] == x);
            }
        }
        if exists|i: int| 0 <= i < s.len() && f(#[trigger] s[i]).contains(x) {
            let i = choose|i: int| 0 <= i < s.len() && f(#[trigger] s[i]).contains(x);
            if i < last {
                assert(rest[i] == s[i]);
                assert(before.contains(x));
                let k = choose|k: int| 0 <= k < before.len() && before[k] == x;
                assert(all[k] == x);
            } else {
                let given = f(s[last]);
                let k = choose|k: int| 0 <= k < given.len() && given[k] == x;
                assert(all[before.len() + k] == x);
            }
        }
    }
}

pub broadcast group group_seqs {
    lemma_views_push,
    lemma_views_add,
    lemma_views_take,
    lemma_views_empty,
    lemma_take_all,
    lemma_take_none,
}

} // verus!
