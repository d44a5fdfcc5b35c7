//! Values that stand in a total order, and maps that keep their keys in it.

use vstd::prelude::*;

verus! {

/// The lexicographic order: a proper prefix comes first, else the first difference decides.
pub open spec fn lex_less(a: Seq<int>, b: Seq<int>) -> bool
    decreases a.len(),
{
    if b.len() == 0 {
        false
    } else if a.len() == 0 {
        true
    } else if a[0] != b[0] {
        a[0] < b[0]
    } else {
        lex_less(a.drop_first(), b.drop_first())
    }
}

/// Nothing comes before itself.
pub proof fn lemma_lex_irreflexive(a: Seq<int>)
    ensures
        !lex_less(a, a),
    decreases a.len(),
{
    if a.len() > 0 {
        lemma_lex_irreflexive(a.drop_first());
    }
}

/// The order is transitive.
pub proof fn lemma_lex_transitive(a: Seq<int>, b: Seq<int>, c: Seq<int>)
    requires
        lex_less(a, b),
        lex_less(b, c),
    ensures
        lex_less(a, c),
    decreases a.len(),
{
    if a.len() > 0 && b.len() > 0 && c.len() > 0 && a[0] == b[0] && b[0] == c[0] {
        lemma_lex_transitive(a.drop_first(), b.drop_first(), c.drop_first());
    }
}

/// Of two different values one comes first.
pub proof fn lemma_lex_total(a: Seq<int>, b: Seq<int>)
    ensures
        lex_less(a, b) || lex_less(b, a) || a == b,
    decreases a.len(),
{
    if a.len() > 0 && b.len() > 0 {
        if a[0] == b[0] {
            lemma_lex_total(a.drop_first(), b.drop_first());
            if a.drop_first() == b.drop_first() {
                assert(a =~= seq![a[0]] + a.drop_first());
                assert(b =~= seq![b[0]] + b.drop_first());
            }
        }
    } else {
        if a.len() == 0 && b.len() == 0 {
            assert(a =~= b);
        }
    }
}

/// Two values are never each before the other.
pub proof fn lemma_lex_asymmetric(a: Seq<int>, b: Seq<int>)
    requires
        lex_less(a, b),
    ensures
        !lex_less(b, a),
        a != b,
{
    lemma_lex_irreflexive(a);
    if lex_less(b, a) {
        lemma_lex_transitive(a, b, a);
    }
}

/// A type whose values are ordered by the sequences that stand for them.
pub trait Ordered: Sized {
    /// What stands for the value in the order.
    spec fn rank(&self) -> Seq<int>;

    /// Whether this value comes before `other`.
    fn precedes(&self, other: &Self) -> (r: bool)
        ensures
            r == lex_less(self.rank(), other.rank()),
    ;
}

impl Ordered for u64 {
    open spec fn rank(&self) -> Seq<int> {
        seq![*self as int]
    }

    fn precedes(&self, other: &Self) -> (r: bool) {
        proof {
            let a = self.rank().drop_first();
            lemma_lex_irreflexive(a);
            assert(a =~= other.rank().drop_first());
        }
        *self < *other
    }
}

/// The keys of the entries, each after all before it.
pub open spec fn ascending<K: Ordered, V>(s: Seq<(K, V)>) -> bool {
    forall|i: int, j: int| 0 <= i < j < s.len() ==> lex_less(#[trigger] s[i].0.rank(), #[trigger] s[j].0.rank())
}

/// What the entries hold for the key that `rank` stands for.
pub open spec fn lookup<K: Ordered, V>(s: Seq<(K, V)>, rank: Seq<int>) -> Option<V>
    decreases s.len(),
{
    if s.len() == 0 {
        None
    } else if s.last().0.rank() == rank {
        Some(s.last().1)
    } else {
        lookup(s.drop_last(), rank)
    }
}

/// The entries with `key` set to `value`, in order.
pub open spec fn put<K: Ordered, V>(s: Seq<(K, V)>, key: K, value: V) -> Seq<(K, V)>
    decreases s.len(),
{
    if s.len() == 0 {
        seq![(key, value)]
    } else if lex_less(s.last().0.rank(), key.rank()) {
        s.push((key, value))
    } else if s.last().0.rank() == key.rank() {
        s.drop_last().push((s.last().0, value))
    } else {
        put(s.drop_last(), key, value).push(s.last())
    }
}

/// A key that is held is found where it stands.
pub proof fn lemma_lookup_at<K: Ordered, V>(s: Seq<(K, V)>, i: int)
    requires
        ascending(s),
        0 <= i < s.len(),
    ensures
        lookup(s, s[i].0.rank()) == Some(s[i].1),
    decreases s.len(),
{
    if i < s.len() - 1 {
        lemma_lex_asymmetric(s[i].0.rank(), s.last().0.rank());
        assert(s.drop_last()[i] == s[i]);
        lemma_lookup_at(s.drop_last(), i);
    }
}

/// A key that no entry has is not found, and one that is found has an entry.
pub proof fn lemma_lookup_absent<K: Ordered, V>(s: Seq<(K, V)>, rank: Seq<int>)
    ensures
        lookup(s, rank) is None <==> (forall|i: int| 0 <= i < s.len() ==> #[trigger] s[i].0.rank() != rank),
        lookup(s, rank) is Some ==> exists|i: int|
            0 <= i < s.len() && #[trigger] s[i].0.rank() == rank && lookup(s, rank) == Some(s[i].1),
    decreases s.len(),
{
    if s.len() > 0 {
        let rest = s.drop_last();
        lemma_lookup_absent(rest, rank);
        if s.last().0.rank() == rank {
            assert(s[s.len() - 1].0.rank() == rank);
        } else {
            assert forall|i: int| 0 <= i < rest.len() implies #[trigger] rest[i].0 == s[i].0 by {}
            if lookup(rest, rank) is Some {
                let i = choose|i: int|
                    0 <= i < rest.len() && #[trigger] rest[i].0.rank() == rank && lookup(rest, rank) == Some(
                        rest[i].1,
                    );
                assert(s[i].0.rank() == rank);
            } else {
                assert forall|i: int| 0 <= i < s.len() implies #[trigger] s[i].0.rank() != rank by {
                    if i < rest.len() {
                        assert(rest[i].0.rank() != rank);
                    }
                }
            }
        }
    }
}

/// Setting a key keeps the order, sets that key, and leaves every other key as it was.
pub proof fn lemma_put<K: Ordered, V>(s: Seq<(K, V)>, key: K, value: V)
    requires
        ascending(s),
    ensures
        ascending(put(s, key, value)),
        forall|rank: Seq<int>| #[trigger]
            lookup(put(s, key, value), rank) == (if rank == key.rank() {
                Some(value)
            } else {
                lookup(s, rank)
            }),
        forall|j: int|
            0 <= j < put(s, key, value).len() ==> (#[trigger] put(s, key, value)[j]).0.rank() == key.rank()
                || exists|i: int| 0 <= i < s.len() && #[trigger] s[i] == put(s, key, value)[j],
    decreases s.len(),
{
    let out = put(s, key, value);
    if s.len() == 0 {
        assert forall|rank: Seq<int>| #[trigger]
            lookup(out, rank) == (if rank == key.rank() { Some(value) } else { lookup(s, rank) }) by {
            assert(out.drop_last() =~= s);
        }
    } else if lex_less(s.last().0.rank(), key.rank()) {
        assert(out.drop_last() =~= s);
        assert forall|i: int, j: int| 0 <= i < j < out.len() implies lex_less(
            #[trigger] out[i].0.rank(),
            #[trigger] out[j].0.rank(),
        ) by {
            if j == out.len() - 1 && i < s.len() - 1 {
                assert(lex_less(s[i].0.rank(), s[s.len() - 1].0.rank()));
                lemma_lex_transitive(s[i].0.rank(), s.last().0.rank(), key.rank());
            }
        }
        assert forall|j: int| 0 <= j < out.len() implies (#[trigger] out[j]).0.rank() == key.rank()
            || exists|i: int| 0 <= i < s.len() && #[trigger] s[i] == out[j] by {
            if j < s.len() {
                assert(s[j] == out[j]);
            }
        }
    } else if s.last().0.rank() == key.rank() {
        assert(out.drop_last() =~= s.drop_last());
        assert forall|i: int, j: int| 0 <= i < j < out.len() implies lex_less(
            #[trigger] out[i].0.rank(),
            #[trigger] out[j].0.rank(),
        ) by {
            assert(lex_less(s[i].0.rank(), s[j].0.rank()));
        }
        assert forall|j: int| 0 <= j < out.len() implies (#[trigger] out[j]).0.rank() == key.rank()
            || exists|i: int| 0 <= i < s.len() && #[trigger] s[i] == out[j] by {
            if j < s.len() - 1 {
                assert(s[j] == out[j]);
            }
        }
    } else {
        let rest = s.drop_last();
        assert forall|i: int, j: int| 0 <= i < j < rest.len() implies lex_less(
            #[trigger] rest[i].0.rank(),
            #[trigger] rest[j].0.rank(),
        ) by {
            assert(lex_less(s[i].0.rank(), s[j].0.rank()));
        }
        lemma_put(rest, key, value);
        let inner = put(rest, key, value);
        lemma_lex_total(s.last().0.rank(), key.rank());
        assert forall|i: int, j: int| 0 <= i < j < out.len() implies lex_less(
            #[trigger] out[i].0.rank(),
            #[trigger] out[j].0.rank(),
        ) by {
            if j < inner.len() {
                assert(out[i] == inner[i] && out[j] == inner[j]);
            } else {
                assert(out[i] == inner[i]);
                if inner[i].0.rank() != key.rank() {
                    let k = choose|k: int| 0 <= k < rest.len() && #[trigger] rest[k] == inner[i];
                    assert(lex_less(s[k].0.rank(), s[s.len() - 1].0.rank()));
                }
            }
        }
        assert(out.drop_last() =~= inner);
        lemma_lex_asymmetric(key.rank(), s.last().0.rank());
        assert forall|rank: Seq<int>| #[trigger]
            lookup(out, rank) == (if rank == key.rank() { Some(value) } else { lookup(s, rank) }) by {
            assert(lookup(inner, rank) == (if rank == key.rank() { Some(value) } else { lookup(rest, rank) }));
        }
        assert forall|j: int| 0 <= j < out.len() implies (#[trigger] out[j]).0.rank() == key.rank()
            || exists|i: int| 0 <= i < s.len() && #[trigger] s[i] == out[j] by {
            if j < inner.len() {
                assert(out[j] == inner[j]);
                if inner[j].0.rank() != key.rank() {
                    let k = choose|k: int| 0 <= k < rest.len() && #[trigger] rest[k] == inner[j];
                    assert(s[k] == out[j]);
                }
            } else {
                assert(s[s.len() - 1] == out[j]);
            }
        }
    }
}

/// A new key stands between the keys before it and the keys after it.
proof fn lemma_put_between<K: Ordered, V>(s: Seq<(K, V)>, key: K, value: V, i: int)
    requires
        0 <= i <= s.len(),
        i > 0 ==> lex_less(s[i - 1].0.rank(), key.rank()),
        forall|j: int| i <= j < s.len() ==> lex_less(key.rank(), #[trigger] s[j].0.rank()),
    ensures
        put(s, key, value) == s.insert(i, (key, value)),
    decreases s.len(),
{
    if i < s.len() {
        lemma_lex_asymmetric(key.rank(), s[s.len() - 1].0.rank());
        let rest = s.drop_last();
        assert forall|j: int| i <= j < rest.len() implies lex_less(key.rank(), #[trigger] rest[j].0.rank()) by {
            assert(rest[j] == s[j]);
        }
        lemma_put_between(rest, key, value, i);
        assert(rest.insert(i, (key, value)).push(s.last()) =~= s.insert(i, (key, value)));
    } else {
        assert(put(s, key, value) =~= s.insert(i, (key, value)));
    }
}

/// A key that is held keeps its place.
proof fn lemma_put_over<K: Ordered, V>(s: Seq<(K, V)>, key: K, value: V, i: int)
    requires
        0 <= i < s.len(),
        s[i].0.rank() == key.rank(),
        forall|j: int| i < j < s.len() ==> lex_less(key.rank(), #[trigger] s[j].0.rank()),
    ensures
        put(s, key, value) == s.update(i, (s[i].0, value)),
    decreases s.len(),
{
    lemma_lex_irreflexive(key.rank());
    if i < s.len() - 1 {
        lemma_lex_asymmetric(key.rank(), s[s.len() - 1].0.rank());
        let rest = s.drop_last();
        assert forall|j: int| i < j < rest.len() implies lex_less(key.rank(), #[trigger] rest[j].0.rank()) by {
            assert(rest[j] == s[j]);
        }
        lemma_put_over(rest, key, value, i);
        assert(rest.update(i, (s[i].0, value)).push(s.last()) =~= s.update(i, (s[i].0, value)));
    } else {
        assert(put(s, key, value) =~= s.update(i, (s[i].0, value)));
    }
}

/// A map whose entries stand in the order of their keys.
#[derive(Debug, PartialEq, Eq)]
pub struct OrdMap<K: Ordered, V> {
    entries: Vec<(K, V)>,
}

impl<K: Ordered, V> View for OrdMap<K, V> {
    type V = Seq<(K, V)>;

    closed spec fn view(&self) -> Seq<(K, V)> {
        self.entries@
    }
}

impl<K: Ordered, V> OrdMap<K, V> {
    #[verifier::type_invariant]
    spec fn in_order(&self) -> bool {
        ascending(self.entries@)
    }

    /// The map without entries.
    pub fn new() -> (map: Self)
        ensures
            map@ == Seq::<(K, V)>::empty(),
    {
        OrdMap { entries: Vec::new() }
    }

    /// The number of entries.
    pub fn len(&self) -> (n: usize)
        ensures
            n == self@.len(),
            ascending(self@),
    {
        proof {
            use_type_invariant(self);
        }
        self.entries.len()
    }

    /// Whether there are no entries.
    pub fn is_empty(&self) -> (b: bool)
        ensures
            b == (self@.len() == 0),
    {
        self.entries.len() == 0
    }

    /// The key of the entry at `i`, counted in order.
    pub fn key(&self, i: usize) -> (key: &K)
        requires
            i < self@.len(),
        ensures
            *key == self@[i as int].0,
    {
        &self.entries[i].0
    }

    /// The value of the entry at `i`, counted in order.
    pub fn value(&self, i: usize) -> (value: &V)
        requires
            i < self@.len(),
        ensures
            *value == self@[i as int].1,
    {
        &self.entries[i].1
    }

    /// Where `key` stands, if it is held.
    pub fn position(&self, key: &K) -> (at: Option<usize>)
        ensures
            match at {
                Some(i) => i < self@.len() && self@[i as int].0.rank() == key.rank() && lookup(
                    self@,
                    key.rank(),
                ) == Some(self@[i as int].1),
                None => lookup(self@, key.rank()) is None,
            },
    {
        proof {
            use_type_invariant(self);
        }
        let mut i: usize = 0;
        while i < self.entries.len()
            invariant
                i <= self.entries@.len(),
                ascending(self.entries@),
                forall|j: int| 0 <= j < i ==> #[trigger] self.entries@[j].0.rank() != key.rank(),
            decreases self.entries@.len() - i,
        {
            let before = self.entries[i].0.precedes(key);
            let after = key.precedes(&self.entries[i].0);
            if !before && !after {
                proof {
                    lemma_lex_total(self.entries@[i as int].0.rank(), key.rank());
                    lemma_lookup_at(self.entries@, i as int);
                }
                return Some(i);
            }
            proof {
                lemma_lex_irreflexive(key.rank());
            }
            i += 1;
        }
        proof {
            lemma_lookup_absent(self.entries@, key.rank());
        }
        None
    }

    /// What the map holds for `key`.
    pub fn get(&self, key: &K) -> (value: Option<&V>)
        ensures
            match value {
                Some(v) => lookup(self@, key.rank()) == Some(*v),
                None => lookup(self@, key.rank()) is None,
            },
    {
        match self.position(key) {
            Some(i) => Some(&self.entries[i].1),
            None => None,
        }
    }

    /// Whether the map holds `key`.
    pub fn contains_key(&self, key: &K) -> (held: bool)
        ensures
            held == (lookup(self@, key.rank()) is Some),
    {
        self.position(key).is_some()
    }

    /// Sets the value of the entry at `i`, counted in order.
    pub fn replace(&mut self, i: usize, value: V)
        requires
            i < old(self)@.len(),
        ensures
            final(self)@ == old(self)@.update(i as int, (old(self)@[i as int].0, value)),
    {
        proof {
            use_type_invariant(&*self);
        }
        let mut held: Vec<(K, V)> = Vec::new();
        std::mem::swap(&mut held, &mut self.entries);
        held[i].1 = value;
        assert(held@ =~= old(self)@.update(i as int, (old(self)@[i as int].0, value)));
        self.entries = held;
    }

    /// Sets `key` to `value`.
    pub fn insert(&mut self, key: K, value: V)
        ensures
            final(self)@ == put(old(self)@, key, value),
            forall|rank: Seq<int>| #[trigger]
                lookup(final(self)@, rank) == (if rank == key.rank() {
                    Some(value)
                } else {
                    lookup(old(self)@, rank)
                }),
    {
        proof {
            use_type_invariant(&*self);
        }
        let mut held: Vec<(K, V)> = Vec::new();
        std::mem::swap(&mut held, &mut self.entries);
        proof {
            lemma_put(held@, key, value);
        }
        let mut i: usize = held.len();
        while i > 0 && key.precedes(&held[i - 1].0)
            invariant
                i <= held@.len(),
                forall|j: int| i <= j < held@.len() ==> lex_less(key.rank(), #[trigger] held@[j].0.rank()),
            decreases i,
        {
            i -= 1;
        }
        if i > 0 && !held[i - 1].0.precedes(&key) {
            proof {
                lemma_lex_total(held@[i - 1].0.rank(), key.rank());
                lemma_put_over(held@, key, value, i - 1);
            }
            held[i - 1].1 = value;
            assert(held@ =~= put(old(self)@, key, value));
        } else {
            proof {
                lemma_put_between(held@, key, value, i as int);
            }
            held.insert(i, (key, value));
        }
        self.entries = held;
    }
}

} // verus!
