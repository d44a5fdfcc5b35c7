//! Maps keyed by number: what stands under a pull request's number.

use std::collections::{BTreeMap, BTreeSet};

use vstd::prelude::*;
use vstd::std_specs::btree::*;
use vstd::std_specs::cmp::OrdSpec;
use vstd::std_specs::iter::IteratorSpec;

use crate::order::lex_less;
use crate::sorting::{lemma_sorted, rank_of, sort, sorted};

verus! {

broadcast use {vstd::laws_cmp::group_laws_cmp, group_btree_axioms};

/// Sets what stands under `number`.
pub fn set_number<V>(map: &mut BTreeMap<u64, V>, number: u64, value: V)
    ensures
        final(map)@ == old(map)@.insert(number, value),
{
    map.insert(number, value);
}

/// What stands under `number`.
pub fn at_number<V>(map: &BTreeMap<u64, V>, number: u64) -> (value: Option<&V>)
    ensures
        match value {
            Some(v) => map@.contains_key(number) && *v == map@[number],
            None => !map@.contains_key(number),
        },
{
    map.get(&number)
}

/// Whether each number is below every later one.
pub open spec fn rising(numbers: Seq<u64>) -> bool {
    forall|i: int, j: int| 0 <= i < j < numbers.len() ==> numbers[i] < numbers[j]
}

/// The numbers something stands under, in order.
pub fn numbers_of<V>(map: &BTreeMap<u64, V>) -> (numbers: Vec<u64>)
    ensures
        rising(numbers@),
        forall|n: u64| #[trigger] numbers@.contains(n) <==> map@.contains_key(n),
{
    let mut numbers: Vec<u64> = Vec::new();
    let iter = map.iter();
    let ghost entries = iter.remaining();
    for pair in it: iter
        invariant
            it.seq() == entries,
            numbers@.len() == it.index(),
            forall|i: int| 0 <= i < numbers@.len() ==> #[trigger] numbers@[i] == *entries[i].0,
    {
        numbers.push(*pair.0);
    }
    proof {
        assert(numbers@ =~= entries.map_values(|entry: (&u64, &V)| *entry.0));
        assert(increasing_seq(numbers@));
        assert forall|i: int, j: int| 0 <= i < j < numbers@.len() implies numbers@[i] < numbers@[j] by {
            assert(numbers@[i].cmp_spec(&numbers@[j]) is Less);
        }
        assert forall|n: u64| #[trigger] numbers@.contains(n) <==> map@.contains_key(n) by {
            if numbers@.contains(n) {
                let i = choose|i: int| 0 <= i < numbers@.len() && numbers@[i] == n;
                assert(map@.contains_key(*entries[i].0));
            }
            if map@.contains_key(n) {
                assert(entries.contains((&n, &map@[n])));
                let i = choose|i: int| 0 <= i < entries.len() && entries[i] == (&n, &map@[n]);
                assert(numbers@[i] == n);
            }
        }
    }
    numbers
}

proof fn lemma_sorted_rises(numbers: Seq<u64>)
    requires
        numbers.no_duplicates(),
    ensures
        rising(sorted(numbers, rank_of::<u64>())),
        forall|n: u64| #[trigger] sorted(numbers, rank_of::<u64>()).contains(n) <==> numbers.contains(n),
{
    let rank = rank_of::<u64>();
    let out = sorted(numbers, rank);
    lemma_sorted(numbers, rank);
    numbers.lemma_multiset_has_no_duplicates();
    out.lemma_multiset_has_no_duplicates_conv();
    assert forall|i: int, j: int| 0 <= i < j < out.len() implies out[i] < out[j] by {
        assert(!lex_less(rank(out[j]), rank(out[i])));
        if out[j] < out[i] {
            assert(rank(out[j])[0] < rank(out[i])[0]);
        }
    }
}

/// The numbers of a set, in order.
pub fn members_in_order(set: &BTreeSet<u64>) -> (numbers: Vec<u64>)
    ensures
        rising(numbers@),
        forall|n: u64| #[trigger] numbers@.contains(n) <==> set@.contains(n),
{
    let mut numbers: Vec<u64> = Vec::new();
    let iter = set.iter();
    let ghost entries = iter.remaining();
    for n in it: iter
        invariant
            it.seq() == entries,
            numbers@.len() == it.index(),
            forall|i: int| 0 <= i < numbers@.len() ==> #[trigger] numbers@[i] == *entries[i],
    {
        numbers.push(*n);
    }
    proof {
        assert(numbers@ =~= entries.unref());
        assert forall|n: u64| #[trigger] numbers@.contains(n) <==> set@.contains(n) by {
            assert(entries.unref().to_set().contains(n) <==> set@.contains(n));
        }
        lemma_sorted_rises(numbers@);
    }
    sort(&mut numbers);
    numbers
}

/// The numbers of a list, each once and in order.
pub fn distinct_numbers(list: &Vec<u64>) -> (numbers: Vec<u64>)
    ensures
        rising(numbers@),
        forall|n: u64| #[trigger] numbers@.contains(n) <==> list@.contains(n),
{
    let mut set: BTreeSet<u64> = BTreeSet::new();
    let mut i: usize = 0;
    while i < list.len()
        invariant
            i <= list@.len(),
            forall|n: u64| #[trigger] set@.contains(n) <==> exists|j: int| 0 <= j < i && list@[j] == n,
        decreases list@.len() - i,
    {
        let ghost before = set@;
        let number = list[i];
        set.insert(number);
        proof {
            assert forall|n: u64| #[trigger] set@.contains(n) <==> exists|j: int|
                0 <= j < i + 1 && list@[j] == n by {
                assert(set@.contains(n) <==> before.contains(n) || n == number);
                if before.contains(n) {
                    let j = choose|j: int| 0 <= j < i && list@[j] == n;
                    assert(list@[j] == n);
                }
                assert(list@[i as int] == number);
            }
        }
        i += 1;
    }
    let numbers = members_in_order(&set);
    proof {
        assert forall|n: u64| #[trigger] numbers@.contains(n) <==> list@.contains(n) by {
            assert(numbers@.contains(n) <==> set@.contains(n));
            if list@.contains(n) {
                let j = choose|j: int| 0 <= j < list@.len() && list@[j] == n;
                assert(list@[j] == n);
            }
        }
    }
    numbers
}

} // verus!
