//! An ordered table: entries held in ascending key order, one per key.

use crate::order::{Duplicate, Key, Order};
use vstd::prelude::*;

verus! {

/// A map whose entries are walked in ascending key order.
pub struct Table<K: Key, T: View> {
    entries: Vec<(K, T)>,
}

/// Whether a sequence of keys is strictly ascending.
pub open spec fn ascending<K: Key>(keys: Seq<K::V>) -> bool {
    forall|i: int, j: int| 0 <= i < j < keys.len() ==> K::before(#[trigger] keys[i], #[trigger] keys[j])
}

/// The keys of a sequence of entries.
pub open spec fn keys_of<K: Key, T: View>(entries: Seq<(K, T)>) -> Seq<K::V> {
    Seq::new(entries.len(), |i: int| entries[i].0@)
}

/// What a sequence of entries with distinct keys maps each key to.
pub open spec fn map_of<K: Key, T: View>(entries: Seq<(K, T)>) -> Map<K::V, T::V> {
    Map::new(
        |k: K::V| exists|i: int| 0 <= i < entries.len() && #[trigger] entries[i].0@ == k,
        |k: K::V| entries[choose|i: int| 0 <= i < entries.len() && #[trigger] entries[i].0@ == k].1@,
    )
}

/// A strictly ascending sequence of keys holds each key once.
pub proof fn lemma_ascending_distinct<K: Key>(keys: Seq<K::V>, i: int, j: int)
    requires
        ascending::<K>(keys),
        0 <= i < keys.len(),
        0 <= j < keys.len(),
        keys[i] == keys[j],
    ensures
        i == j,
{
    K::irreflexive(keys[i]);
}

/// Two strictly ascending sequences of the same keys are the same sequence.
pub proof fn lemma_ascending_unique<K: Key>(a: Seq<K::V>, b: Seq<K::V>)
    requires
        ascending::<K>(a),
        ascending::<K>(b),
        forall|k: K::V| a.contains(k) <==> b.contains(k),
    ensures
        a == b,
    decreases a.len(),
{
    if a.len() == 0 {
        if b.len() > 0 {
            assert(b.contains(b[0]));
            assert(false);
        }
        assert(a =~= b);
    } else {
        assert(a.contains(a[0]));
        assert(b.len() > 0);
        assert(b.contains(b[0]));
        let i = choose|i: int| 0 <= i < b.len() && b[i] == a[0];
        let j = choose|j: int| 0 <= j < a.len() && a[j] == b[0];
        if i > 0 && j > 0 {
            K::transitive(a[0], a[j], b[i]);
            K::irreflexive(a[0]);
        } else if i > 0 {
            lemma_ascending_distinct::<K>(b, 0, i);
        } else if j > 0 {
            lemma_ascending_distinct::<K>(a, 0, j);
        }
        assert(a[0] == b[0]);
        let x = a.drop_first();
        let y = b.drop_first();
        assert forall|k: K::V| x.contains(k) <==> y.contains(k) by {
            if x.contains(k) {
                let p = choose|p: int| 0 <= p < x.len() && x[p] == k;
                assert(a[p + 1] == k);
                assert(a.contains(k));
                assert(b.contains(k));
                let q = choose|q: int| 0 <= q < b.len() && b[q] == k;
                if q == 0 {
                    lemma_ascending_distinct::<K>(a, 0, p + 1);
                }
                assert(y[q - 1] == k);
            }
            if y.contains(k) {
                let p = choose|p: int| 0 <= p < y.len() && y[p] == k;
                assert(b[p + 1] == k);
                assert(b.contains(k));
                assert(a.contains(k));
                let q = choose|q: int| 0 <= q < a.len() && a[q] == k;
                if q == 0 {
                    lemma_ascending_distinct::<K>(b, 0, p + 1);
                }
                assert(x[q - 1] == k);
            }
        }
        lemma_ascending_unique::<K>(x, y);
        assert(a =~= seq![a[0]] + x);
        assert(b =~= seq![b[0]] + y);
    }
}

/// A set of keys in ascending order.
pub open spec fn sorted<K: Key>(keys: Set<K::V>) -> Seq<K::V> {
    choose|s: Seq<K::V>| ascending::<K>(s) && s.to_set() == keys
}

/// The ascending row of a set of keys is the only one.
pub proof fn lemma_sorted<K: Key>(s: Seq<K::V>, keys: Set<K::V>)
    requires
        ascending::<K>(s),
        s.to_set() == keys,
    ensures
        sorted::<K>(keys) == s,
{
    let c = sorted::<K>(keys);
    assert(ascending::<K>(c) && c.to_set() == keys);
    assert forall|k: K::V| s.contains(k) <==> c.contains(k) by {
        assert(s.to_set().contains(k) == s.contains(k));
        assert(c.to_set().contains(k) == c.contains(k));
    }
    lemma_ascending_unique::<K>(s, c);
}

/// A key can be put into an ascending row.
proof fn lemma_put<K: Key>(s: Seq<K::V>, key: K::V) -> (r: Seq<K::V>)
    requires
        ascending::<K>(s),
        !s.contains(key),
    ensures
        ascending::<K>(r),
        r.to_set() == s.to_set().insert(key),
    decreases s.len(),
{
    if s.len() == 0 || K::before(s.last(), key) {
        let r = s.push(key);
        assert forall|i: int, j: int| 0 <= i < j < r.len() implies K::before(#[trigger] r[i], #[trigger] r[j]) by {
            if j == s.len() && i < s.len() - 1 {
                K::transitive(s[i], s.last(), key);
            }
        }
        assert forall|k: K::V| r.to_set().contains(k) == s.to_set().insert(key).contains(k) by {
            if s.contains(k) {
                let i = choose|i: int| 0 <= i < s.len() && s[i] == k;
                assert(r[i] == k);
            }
            assert(r[s.len() as int] == key);
        }
        assert(r.to_set() =~= s.to_set().insert(key));
        r
    } else {
        let shorter = s.drop_last();
        assert forall|k: K::V| shorter.contains(k) implies s.contains(k) by {
            let i = choose|i: int| 0 <= i < shorter.len() && shorter[i] == k;
            assert(s[i] == k);
        }
        let t = lemma_put::<K>(shorter, key);
        assert(s.contains(s.last()));
        K::total(s.last(), key);
        let r = t.push(s.last());
        assert forall|i: int, j: int| 0 <= i < j < r.len() implies K::before(#[trigger] r[i], #[trigger] r[j]) by {
            if j == t.len() {
                assert(t.to_set().contains(t[i]));
                if t[i] != key {
                    assert(shorter.to_set().contains(t[i]));
                    let k = choose|k: int| 0 <= k < shorter.len() && shorter[k] == t[i];
                    assert(s[k] == t[i]);
                }
            }
        }
        assert forall|k: K::V| r.to_set().contains(k) == s.to_set().insert(key).contains(k) by {
            if r.contains(k) {
                let i = choose|i: int| 0 <= i < r.len() && r[i] == k;
                if i < t.len() {
                    assert(t.to_set().contains(k));
                }
            }
            if k == key || shorter.contains(k) {
                assert(t.to_set().contains(k));
                let i = choose|i: int| 0 <= i < t.len() && t[i] == k;
                assert(r[i] == k);
            }
            if s.contains(k) {
                let i = choose|i: int| 0 <= i < s.len() && s[i] == k;
                if i < shorter.len() {
                    assert(shorter[i] == k);
                }
            }
            assert(r[t.len() as int] == s.last());
        }
        assert(r.to_set() =~= s.to_set().insert(key));
        r
    }
}

/// Every finite set of keys has its ascending row.
pub proof fn lemma_sorted_exists<K: Key>(keys: Set<K::V>)
    requires
        keys.finite(),
    ensures
        ascending::<K>(sorted::<K>(keys)),
        sorted::<K>(keys).to_set() == keys,
    decreases keys.len(),
{
    if keys.len() == 0 {
        let s = Seq::<K::V>::empty();
        assert(s.to_set() =~= keys);
        lemma_sorted::<K>(s, keys);
    } else {
        let key = keys.choose();
        let rest = keys.remove(key);
        lemma_sorted_exists::<K>(rest);
        let s = sorted::<K>(rest);
        if s.contains(key) {
            assert(s.to_set().contains(key));
        }
        let t = lemma_put::<K>(s, key);
        assert(rest.insert(key) =~= keys);
        lemma_sorted::<K>(t, keys);
    }
}

/// An entry of an ascending sequence is what the sequence maps its key to.
proof fn lemma_entry<K: Key, T: View>(entries: Seq<(K, T)>, i: int)
    requires
        ascending::<K>(keys_of(entries)),
        0 <= i < entries.len(),
    ensures
        map_of(entries).contains_key(entries[i].0@),
        map_of(entries)[entries[i].0@] == entries[i].1@,
{
    let k = entries[i].0@;
    assert(entries[i].0@ == k);
    let j = choose|j: int| 0 <= j < entries.len() && #[trigger] entries[j].0@ == k;
    assert(keys_of(entries)[i] == keys_of(entries)[j]);
    lemma_ascending_distinct::<K>(keys_of(entries), i, j);
}

impl<K: Key, T: View> View for Table<K, T> {
    type V = Map<K::V, T::V>;

    closed spec fn view(&self) -> Map<K::V, T::V> {
        map_of(self.entries@)
    }
}

impl<K: Key, T: View> Table<K, T> {
    #[verifier::type_invariant]
    spec fn well_formed(self) -> bool {
        ascending::<K>(keys_of(self.entries@))
    }

    /// The keys, in the order the table is walked.
    pub closed spec fn keys(self) -> Seq<K::V> {
        keys_of(self.entries@)
    }

    /// The empty table.
    pub fn new() -> (r: Self)
        ensures
            r@ == Map::<K::V, T::V>::empty(),
            r.keys() == Seq::<K::V>::empty(),
    {
        let r = Table { entries: Vec::new() };
        proof {
            assert(r@ =~= Map::<K::V, T::V>::empty());
            assert(r.keys() =~= Seq::<K::V>::empty());
        }
        r
    }

    /// The number of entries. The keys are walked in strictly ascending order and
    /// are exactly the keys the table maps.
    pub fn len(&self) -> (n: usize)
        ensures
            n == self.keys().len(),
            ascending::<K>(self.keys()),
            forall|k: K::V| self@.contains_key(k) <==> #[trigger] self.keys().contains(k),
            self@.dom().finite(),
            self@.dom() == self.keys().to_set(),
            self.keys() == sorted::<K>(self@.dom()),
    {
        proof {
            use_type_invariant(self);
            assert forall|k: K::V| self@.contains_key(k) <==> #[trigger] self.keys().contains(k) by {
                if self@.contains_key(k) {
                    let i = choose|i: int|
                        0 <= i < self.entries@.len() && #[trigger] self.entries@[i].0@ == k;
                    assert(self.keys()[i] == k);
                }
                if self.keys().contains(k) {
                    let i = choose|i: int| 0 <= i < self.keys().len() && self.keys()[i] == k;
                    lemma_entry(self.entries@, i);
                }
            }
            assert(self@.dom() =~= self.keys().to_set());
            lemma_sorted::<K>(self.keys(), self@.dom());
        }
        self.entries.len()
    }

    /// Whether the table holds nothing.
    pub fn is_empty(&self) -> (r: bool)
        ensures
            r == (self@ == Map::<K::V, T::V>::empty()),
    {
        let n: usize = self.len();
        proof {
            if n == 0 {
                assert(self@ =~= Map::<K::V, T::V>::empty());
            } else {
                assert(self.keys().contains(self.keys()[0]));
                assert(self@.contains_key(self.keys()[0]));
            }
        }
        n == 0
    }

    /// The key of the entry at a position.
    pub fn key_at(&self, i: usize) -> (r: &K)
        requires
            i < self.keys().len(),
        ensures
            r@ == self.keys()[i as int],
            self@.contains_key(r@),
    {
        proof {
            use_type_invariant(self);
            lemma_entry(self.entries@, i as int);
        }
        &self.entries[i].0
    }

    /// The value of the entry at a position.
    pub fn value_at(&self, i: usize) -> (r: &T)
        requires
            i < self.keys().len(),
        ensures
            self@.contains_key(self.keys()[i as int]),
            r@ == self@[self.keys()[i as int]],
    {
        proof {
            use_type_invariant(self);
            lemma_entry(self.entries@, i as int);
        }
        &self.entries[i].1
    }

    /// The first position whose key does not come before `key`.
    fn position(&self, key: &K) -> (p: usize)
        ensures
            p <= self.keys().len(),
            forall|j: int| 0 <= j < p ==> K::before(#[trigger] self.keys()[j], key@),
            forall|j: int| p <= j < self.keys().len() ==> !K::before(#[trigger] self.keys()[j], key@),
    {
        proof {
            use_type_invariant(self);
        }
        let mut lo: usize = 0;
        let mut hi: usize = self.entries.len();
        while lo < hi
            invariant
                lo <= hi <= self.entries@.len(),
                ascending::<K>(self.keys()),
                self.keys().len() == self.entries@.len(),
                forall|j: int| 0 <= j < lo ==> K::before(#[trigger] self.keys()[j], key@),
                forall|j: int| hi <= j < self.keys().len() ==> !K::before(#[trigger] self.keys()[j], key@),
            decreases hi - lo,
        {
            let mid: usize = lo + (hi - lo) / 2;
            let ghost m = self.keys()[mid as int];
            match self.entries[mid].0.order(key) {
                Order::Before => {
                    proof {
                        assert forall|j: int| 0 <= j < mid + 1 implies K::before(#[trigger] self.keys()[j], key@) by {
                            if j < mid {
                                K::transitive(self.keys()[j], m, key@);
                            }
                        }
                    }
                    lo = mid + 1;
                },
                _ => {
                    proof {
                        assert forall|j: int| mid <= j < self.keys().len() implies !K::before(
                            #[trigger] self.keys()[j],
                            key@,
                        ) by {
                            let x = self.keys()[j];
                            if K::before(x, key@) {
                                if j > mid {
                                    K::transitive(m, x, key@);
                                }
                                if m != key@ {
                                    K::transitive(m, key@, m);
                                }
                                K::irreflexive(m);
                            }
                        }
                    }
                    hi = mid;
                },
            }
        }
        lo
    }

    /// The position of `key`, where the table holds it.
    fn find(&self, key: &K) -> (r: Option<usize>)
        ensures
            match r {
                Some(i) => i < self.keys().len() && self.keys()[i as int] == key@,
                None => !self@.contains_key(key@),
            },
    {
        let p: usize = self.position(key);
        proof {
            use_type_invariant(self);
        }
        if p < self.entries.len() {
            if let Order::Same = self.entries[p].0.order(key) {
                return Some(p);
            }
        }
        proof {
            if self@.contains_key(key@) {
                let i = choose|i: int|
                    0 <= i < self.entries@.len() && #[trigger] self.entries@[i].0@ == key@;
                assert(self.keys()[i] == key@);
                K::irreflexive(key@);
                assert(i >= p);
                if i > p {
                    assert(K::before(self.keys()[p as int], self.keys()[i]));
                }
                assert(i == p);
                assert(p < self.entries.len());
            }
        }
        None
    }

    /// What the table maps `key` to.
    pub fn get(&self, key: &K) -> (r: Option<&T>)
        ensures
            match r {
                Some(value) => self@.contains_key(key@) && value@ == self@[key@],
                None => !self@.contains_key(key@),
            },
    {
        match self.find(key) {
            Some(i) => Some(self.value_at(i)),
            None => None,
        }
    }

    /// Whether the table maps `key`.
    pub fn contains(&self, key: &K) -> (r: bool)
        ensures
            r == self@.contains_key(key@),
    {
        match self.find(key) {
            Some(i) => {
                let _key = self.key_at(i);
                true
            },
            None => false,
        }
    }

    /// Map `key` to `value`, replacing what it was mapped to.
    pub fn insert(&mut self, key: K, value: T)
        ensures
            final(self)@ == old(self)@.insert(key@, value@),
    {
        let found = self.find(&key);
        let p: usize = self.position(&key);
        proof {
            use_type_invariant(&*self);
        }
        let ghost before = self.entries@;
        let ghost kv = key@;
        let ghost vv = value@;
        let mut entries: Vec<(K, T)> = Vec::new();
        std::mem::swap(&mut entries, &mut self.entries);
        match found {
            Some(i) => {
                entries.set(i, (key, value));
                proof {
                    assert(keys_of(entries@) =~= keys_of(before));
                    lemma_set(before, entries@, i as int, kv, vv);
                }
            },
            None => {
                entries.insert(p, (key, value));
                proof {
                    lemma_insert(before, entries@, p as int, kv, vv);
                }
            },
        }
        self.entries = entries;
    }

    /// Drop what `key` is mapped to.
    pub fn remove(&mut self, key: &K)
        ensures
            final(self)@ == old(self)@.remove(key@),
    {
        let found = self.find(key);
        proof {
            use_type_invariant(&*self);
        }
        let ghost before = self.entries@;
        match found {
            Some(i) => {
                let mut entries: Vec<(K, T)> = Vec::new();
                std::mem::swap(&mut entries, &mut self.entries);
                let _gone = entries.remove(i);
                proof {
                    lemma_remove(before, entries@, i as int);
                }
                self.entries = entries;
            },
            None => {
                proof {
                    assert(self@ =~= self@.remove(key@));
                }
            },
        }
    }
}

proof fn lemma_set<K: Key, T: View>(a: Seq<(K, T)>, b: Seq<(K, T)>, i: int, k: K::V, v: T::V)
    requires
        ascending::<K>(keys_of(a)),
        0 <= i < a.len(),
        a[i].0@ == k,
        b.len() == a.len(),
        b[i].0@ == k,
        b[i].1@ == v,
        forall|j: int| 0 <= j < a.len() && j != i ==> b[j] == a[j],
    ensures
        ascending::<K>(keys_of(b)),
        map_of(b) == map_of(a).insert(k, v),
{
    assert(keys_of(b) =~= keys_of(a));
    assert forall|q: K::V| map_of(b).contains_key(q) <==> map_of(a).insert(k, v).contains_key(q) by {
        if map_of(b).contains_key(q) {
            let j = choose|j: int| 0 <= j < b.len() && #[trigger] b[j].0@ == q;
            lemma_entry(a, j);
        }
        if map_of(a).contains_key(q) {
            let j = choose|j: int| 0 <= j < a.len() && #[trigger] a[j].0@ == q;
            assert(keys_of(a)[j] == keys_of(b)[j]);
            lemma_entry(b, j);
        }
        lemma_entry(b, i);
    }
    assert forall|q: K::V| map_of(b).contains_key(q) implies map_of(b)[q] == map_of(a).insert(k, v)[q] by {
        let j = choose|j: int| 0 <= j < b.len() && #[trigger] b[j].0@ == q;
        lemma_entry(b, j);
        lemma_entry(a, j);
        if j != i && q == k {
            lemma_ascending_distinct::<K>(keys_of(b), i, j);
        }
    }
    assert(map_of(b) =~= map_of(a).insert(k, v));
}

proof fn lemma_insert<K: Key, T: View>(a: Seq<(K, T)>, b: Seq<(K, T)>, p: int, k: K::V, v: T::V)
    requires
        ascending::<K>(keys_of(a)),
        0 <= p <= a.len(),
        !map_of(a).contains_key(k),
        b.len() == a.len() + 1,
        b[p].0@ == k,
        b[p].1@ == v,
        forall|j: int| 0 <= j < p ==> b[j] == a[j],
        forall|j: int| p < j < b.len() ==> b[j] == a[j - 1],
        forall|j: int| 0 <= j < p ==> K::before(#[trigger] keys_of(a)[j], k),
        forall|j: int| p <= j < a.len() ==> !K::before(#[trigger] keys_of(a)[j], k),
    ensures
        ascending::<K>(keys_of(b)),
        map_of(b) == map_of(a).insert(k, v),
{
    let x = keys_of(a);
    let y = keys_of(b);
    assert forall|j: int| p <= j < a.len() implies K::before(k, #[trigger] x[j]) by {
        K::total(x[j], k);
        lemma_entry(a, j);
    }
    assert forall|i: int, j: int| 0 <= i < j < y.len() implies K::before(#[trigger] y[i], #[trigger] y[j]) by {
        if i < p {
            assert(y[i] == x[i]);
        } else if i > p {
            assert(y[i] == x[i - 1]);
        }
        if j < p {
            assert(y[j] == x[j]);
        } else if j > p {
            assert(y[j] == x[j - 1]);
        }
    }
    assert forall|q: K::V| map_of(b).contains_key(q) <==> map_of(a).insert(k, v).contains_key(q) by {
        if map_of(b).contains_key(q) {
            let j = choose|j: int| 0 <= j < b.len() && #[trigger] b[j].0@ == q;
            if j < p {
                lemma_entry(a, j);
            } else if j > p {
                lemma_entry(a, j - 1);
            }
        }
        if map_of(a).contains_key(q) {
            let j = choose|j: int| 0 <= j < a.len() && #[trigger] a[j].0@ == q;
            if j < p {
                lemma_entry(b, j);
            } else {
                lemma_entry(b, j + 1);
            }
        }
        lemma_entry(b, p);
    }
    assert forall|q: K::V| map_of(b).contains_key(q) implies map_of(b)[q] == map_of(a).insert(k, v)[q] by {
        let j = choose|j: int| 0 <= j < b.len() && #[trigger] b[j].0@ == q;
        lemma_entry(b, j);
        if j < p {
            lemma_entry(a, j);
        } else if j > p {
            lemma_entry(a, j - 1);
        }
    }
    assert(map_of(b) =~= map_of(a).insert(k, v));
}

proof fn lemma_remove<K: Key, T: View>(a: Seq<(K, T)>, b: Seq<(K, T)>, i: int)
    requires
        ascending::<K>(keys_of(a)),
        0 <= i < a.len(),
        b == a.remove(i),
    ensures
        ascending::<K>(keys_of(b)),
        map_of(b) == map_of(a).remove(a[i].0@),
{
    let k = a[i].0@;
    let x = keys_of(a);
    let y = keys_of(b);
    assert forall|p: int, q: int| 0 <= p < q < y.len() implies K::before(#[trigger] y[p], #[trigger] y[q]) by {
        let s = if p < i { p } else { p + 1 };
        let t = if q < i { q } else { q + 1 };
        assert(y[p] == x[s] && y[q] == x[t]);
    }
    assert forall|q: K::V| map_of(b).contains_key(q) <==> map_of(a).remove(k).contains_key(q) by {
        if map_of(b).contains_key(q) {
            let j = choose|j: int| 0 <= j < b.len() && #[trigger] b[j].0@ == q;
            let s = if j < i { j } else { j + 1 };
            lemma_entry(a, s);
            if q == k {
                lemma_ascending_distinct::<K>(x, s, i);
            }
        }
        if map_of(a).contains_key(q) && q != k {
            let j = choose|j: int| 0 <= j < a.len() && #[trigger] a[j].0@ == q;
            let s = if j < i { j } else { j - 1 };
            lemma_entry(b, s);
        }
    }
    assert forall|q: K::V| map_of(b).contains_key(q) implies map_of(b)[q] == map_of(a).remove(k)[q] by {
        let j = choose|j: int| 0 <= j < b.len() && #[trigger] b[j].0@ == q;
        let s = if j < i { j } else { j + 1 };
        lemma_entry(b, j);
        lemma_entry(a, s);
    }
    assert(map_of(b) =~= map_of(a).remove(k));
}

impl<K: Key + Duplicate, T: Duplicate> Duplicate for Table<K, T> {
    fn duplicate(&self) -> (r: Self) {
        proof {
            use_type_invariant(self);
        }
        let mut entries: Vec<(K, T)> = Vec::new();
        let n: usize = self.entries.len();
        let mut i: usize = 0;
        while i < n
            invariant
                n == self.entries@.len(),
                i <= n,
                entries@.len() == i,
                forall|j: int|
                    0 <= j < i ==> (#[trigger] entries@[j]).0@ == self.entries@[j].0@ && entries@[j].1@
                        == self.entries@[j].1@,
            decreases n - i,
        {
            entries.push((self.entries[i].0.duplicate(), self.entries[i].1.duplicate()));
            i = i + 1;
        }
        proof {
            assert(keys_of(entries@) =~= keys_of(self.entries@));
            assert forall|q: K::V| map_of(entries@).contains_key(q) <==> map_of(self.entries@).contains_key(q) by {
                if map_of(entries@).contains_key(q) {
                    let j = choose|j: int| 0 <= j < entries@.len() && #[trigger] entries@[j].0@ == q;
                    lemma_entry(self.entries@, j);
                }
                if map_of(self.entries@).contains_key(q) {
                    let j = choose|j: int| 0 <= j < self.entries@.len() && #[trigger] self.entries@[j].0@ == q;
                    assert(entries@[j].0@ == q);
                    lemma_entry(entries@, j);
                }
            }
            assert forall|q: K::V| map_of(entries@).contains_key(q) implies map_of(entries@)[q] == map_of(
                self.entries@,
            )[q] by {
                let j = choose|j: int| 0 <= j < entries@.len() && #[trigger] entries@[j].0@ == q;
                lemma_entry(entries@, j);
                lemma_entry(self.entries@, j);
            }
            assert(map_of(entries@) =~= map_of(self.entries@));
        }
        Table { entries }
    }
}

} // verus!
