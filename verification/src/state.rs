//! The prospective state a transition builds: every row, by address.

use crate::address::{below, in_collection, is_prefix, CollectionPath, RowAddress, StepView};
use crate::generation::Generation;
use crate::order::{Duplicate, Key};
use crate::table::{ascending, lemma_sorted, sorted, Table};
use crate::value::{same_value, Value, ValueView};
use vstd::prelude::*;

verus! {

/// A row's writable fields, by name.
pub type Fields = Table<String, Value>;

/// What a row's fields denote.
pub type FieldsView = Map<Seq<char>, ValueView>;

/// What a state denotes: the fields of every row.
pub type StateView = Map<Seq<StepView>, FieldsView>;

/// The rows of a state, and how many generations its insertions have drawn.
pub struct Prospective {
    rows: Table<RowAddress, Fields>,
    generation: Generation,
}

impl View for Prospective {
    type V = StateView;

    closed spec fn view(&self) -> StateView {
        self.rows@
    }
}

/// A part of the state.
enum Region<'a> {
    /// The rows of one collection.
    Collection(&'a CollectionPath),
    /// The subtree below one row.
    Below(&'a RowAddress),
}

impl<'a> Region<'a> {
    spec fn test(self) -> spec_fn(Seq<StepView>) -> bool {
        |a: Seq<StepView>|
            match self {
                Region::Collection(path) => in_collection(path@.0, path@.1, a),
                Region::Below(ancestor) => below(ancestor@, a),
            }
    }

    fn contains(&self, address: &RowAddress) -> (r: bool)
        ensures
            r == self.test()(address@),
    {
        match self {
            Region::Collection(path) => path.contains(address),
            Region::Below(ancestor) => address.depth() > ancestor.depth() && is_prefix(ancestor, address),
        }
    }
}

/// What a row of addresses denotes.
pub open spec fn address_views(addresses: Seq<RowAddress>) -> Seq<Seq<StepView>> {
    Seq::new(addresses.len(), |i: int| addresses[i]@)
}

impl Prospective {
    /// How many generations have been drawn.
    pub closed spec fn drawn(self) -> nat {
        self.generation@
    }

    /// A state without rows.
    pub fn empty() -> (r: Prospective)
        ensures
            r@ == Map::<Seq<StepView>, FieldsView>::empty(),
            r.drawn() == 0,
    {
        Prospective { rows: Table::new(), generation: Generation::Zero }
    }

    /// The fields of a row.
    pub fn get(&self, address: &RowAddress) -> (r: Option<&Fields>)
        ensures
            match r {
                Some(fields) => self@.contains_key(address@) && fields@ == self@[address@],
                None => !self@.contains_key(address@),
            },
    {
        self.rows.get(address)
    }

    /// Whether a row lives at an address.
    pub fn contains(&self, address: &RowAddress) -> (r: bool)
        ensures
            r == self@.contains_key(address@),
    {
        self.rows.contains(address)
    }

    /// Put a row at an address.
    pub fn insert(&mut self, address: RowAddress, fields: Fields)
        ensures
            final(self)@ == old(self)@.insert(address@, fields@),
            final(self).drawn() == old(self).drawn(),
    {
        self.rows.insert(address, fields);
    }

    /// Replace the fields of the row at an address.
    pub fn replace(&mut self, address: &RowAddress, fields: Fields)
        ensures
            final(self)@ == old(self)@.insert(address@, fields@),
            final(self).drawn() == old(self).drawn(),
    {
        self.rows.insert(address.duplicate(), fields);
    }

    /// A state of its own with the same rows, and as many generations drawn.
    pub fn copy(&self) -> (r: Prospective)
        ensures
            r@ == self@,
            r.drawn() == self.drawn(),
    {
        Prospective { rows: self.rows.duplicate(), generation: self.generation.duplicate() }
    }

    /// Remove the row at an address.
    pub fn remove(&mut self, address: &RowAddress)
        ensures
            final(self)@ == old(self)@.remove(address@),
            final(self).drawn() == old(self).drawn(),
    {
        self.rows.remove(address);
    }

    /// Draw the next generation: each inserted row has its own.
    pub fn next_generation(&mut self) -> (r: Generation)
        ensures
            r@ == old(self).drawn(),
            final(self).drawn() == old(self).drawn() + 1,
            final(self)@ == old(self)@,
    {
        let r = self.generation.duplicate();
        self.generation = r.duplicate().next();
        r
    }

    /// The generations that the next `n` inserted rows draw, in order, for their
    /// generated defaults.
    pub fn upcoming(&self, n: usize) -> (r: Vec<Generation>)
        ensures
            r@.len() == n,
            forall|i: int| 0 <= i < n ==> (#[trigger] r@[i])@ == self.drawn() + i,
    {
        let mut r: Vec<Generation> = Vec::new();
        let mut current = self.generation.duplicate();
        while r.len() < n
            invariant
                r@.len() <= n,
                current@ == self.drawn() + r@.len(),
                forall|i: int| 0 <= i < r@.len() ==> (#[trigger] r@[i])@ == self.drawn() + i,
            decreases n - r@.len(),
        {
            r.push(current.duplicate());
            current = current.next();
        }
        r
    }

    /// Every address, in ascending order.
    pub fn addresses(&self) -> (r: Vec<RowAddress>)
        ensures
            ascending::<RowAddress>(address_views(r@)),
            address_views(r@).to_set() == self@.dom(),
            address_views(r@) == in_order(self@.dom()),
            forall|a: Seq<StepView>| self@.contains_key(a) <==> #[trigger] address_views(r@).contains(a),
    {
        let n: usize = self.rows.len();
        let mut r: Vec<RowAddress> = Vec::new();
        let mut i: usize = 0;
        while i < n
            invariant
                n == self.rows.keys().len(),
                i <= n,
                r@.len() == i,
                forall|j: int| 0 <= j < i ==> (#[trigger] r@[j])@ == self.rows.keys()[j],
            decreases n - i,
        {
            r.push(self.rows.key_at(i).duplicate());
            i = i + 1;
        }
        proof {
            assert(address_views(r@) =~= self.rows.keys());
            lemma_sorted::<RowAddress>(address_views(r@), self@.dom());
        }
        r
    }

    /// The addresses a test picks, in ascending order.
    fn select(&self, region: &Region) -> (r: Vec<RowAddress>)
        ensures
            address_views(r@) == in_order(self@.dom().filter(region.test())),
            ascending::<RowAddress>(address_views(r@)),
            forall|a: Seq<StepView>| #[trigger]
                address_views(r@).contains(a) <==> self@.contains_key(a) && region.test()(a),
    {
        let ghost wanted = region.test();
        let all = self.addresses();
        let mut r: Vec<RowAddress> = Vec::new();
        let ghost mut from: Seq<int> = Seq::empty();
        let mut i: usize = 0;
        while i < all.len()
            invariant
                i <= all@.len(),
                wanted == region.test(),
                from.len() == r@.len(),
                forall|j: int|
                    0 <= j < r@.len() ==> 0 <= #[trigger] from[j] < i && r@[j]@ == all@[from[j]]@ && wanted(r@[j]@),
                forall|j: int, k: int| 0 <= j < k < r@.len() ==> #[trigger] from[j] < #[trigger] from[k],
                forall|k: int|
                    0 <= k < i && wanted((#[trigger] all@[k])@) ==> address_views(r@).contains(all@[k]@),
            decreases all@.len() - i,
        {
            let ghost prior = address_views(r@);
            if region.contains(&all[i]) {
                r.push(all[i].duplicate());
                proof {
                    from = from.push(i as int);
                    assert(address_views(r@) =~= prior.push(all@[i as int]@));
                    assert(address_views(r@)[prior.len() as int] == all@[i as int]@);
                    assert forall|k: int| 0 <= k < i + 1 && wanted((#[trigger] all@[k])@) implies address_views(
                        r@,
                    ).contains(all@[k]@) by {
                        if k < i {
                            let q = choose|q: int| 0 <= q < prior.len() && prior[q] == all@[k]@;
                            assert(address_views(r@)[q] == all@[k]@);
                        }
                    }
                }
            }
            i = i + 1;
        }
        proof {
            let keys = address_views(r@);
            assert forall|j: int, k: int| 0 <= j < k < keys.len() implies RowAddress::before(
                #[trigger] keys[j],
                #[trigger] keys[k],
            ) by {
                assert(address_views(all@)[from[j]] == keys[j]);
                assert(address_views(all@)[from[k]] == keys[k]);
            }
            assert forall|a: Seq<StepView>| #[trigger] keys.contains(a) implies self@.contains_key(a) && wanted(a) by {
                let j = choose|j: int| 0 <= j < keys.len() && keys[j] == a;
                assert(address_views(all@)[from[j]] == a);
                assert(address_views(all@).contains(a));
            }
            assert forall|a: Seq<StepView>| self@.contains_key(a) && wanted(a) implies #[trigger] keys.contains(a) by {
                assert(address_views(all@).contains(a));
                let k = choose|k: int| 0 <= k < address_views(all@).len() && address_views(all@)[k] == a;
                assert(all@[k]@ == a);
            }
            assert(keys.to_set() =~= self@.dom().filter(wanted));
            lemma_sorted::<RowAddress>(keys, self@.dom().filter(wanted));
        }
        r
    }

    /// The addresses of the rows of one collection, in ascending order.
    pub fn addresses_in(&self, path: &CollectionPath) -> (r: Vec<RowAddress>)
        ensures
            address_views(r@) == rows_of(self@, path@),
            ascending::<RowAddress>(address_views(r@)),
            forall|a: Seq<StepView>| #[trigger]
                address_views(r@).contains(a) <==> self@.contains_key(a) && in_collection(path@.0, path@.1, a),
    {
        let r = self.select(&Region::Collection(path));
        proof {
            assert(Region::Collection(path).test() =~= |a: Seq<StepView>| in_collection(path@.0, path@.1, a));
        }
        r
    }

    /// The addresses of the rows in the subtree below a row, in ascending order.
    pub fn addresses_below(&self, ancestor: &RowAddress) -> (r: Vec<RowAddress>)
        ensures
            address_views(r@) == descendants(self@, ancestor@),
            ascending::<RowAddress>(address_views(r@)),
            forall|a: Seq<StepView>| #[trigger]
                address_views(r@).contains(a) <==> self@.contains_key(a) && below(ancestor@, a),
    {
        let r = self.select(&Region::Below(ancestor));
        proof {
            assert(Region::Below(ancestor).test() =~= |a: Seq<StepView>| below(ancestor@, a));
        }
        r
    }
}

/// Whether two rows hold the same values under the same names.
pub fn same_fields(a: &Fields, b: &Fields) -> (r: bool)
    ensures
        r == (a@ == b@),
{
    let n: usize = a.len();
    let m: usize = b.len();
    if n != m {
        proof {
            if a@ == b@ {
                assert(a.keys() == b.keys());
            }
        }
        return false;
    }
    let mut i: usize = 0;
    while i < n
        invariant
            n == a.keys().len(),
            n == b.keys().len(),
            i <= n,
            a.keys() == sorted::<String>(a@.dom()),
            b.keys() == sorted::<String>(b@.dom()),
            forall|j: int| 0 <= j < i ==> #[trigger] a.keys()[j] == b.keys()[j] && a@[a.keys()[j]] == b@[b.keys()[j]],
        decreases n - i,
    {
        if *a.key_at(i) != *b.key_at(i) || !same_value(a.value_at(i), b.value_at(i)) {
            proof {
                if a@ == b@ {
                    assert(a.keys() == b.keys());
                }
            }
            return false;
        }
        i = i + 1;
    }
    proof {
        assert(a.keys() =~= b.keys());
        assert forall|k: Seq<char>| a@.contains_key(k) implies a@[k] == b@[k] by {
            assert(a.keys().contains(k));
            let j = choose|j: int| 0 <= j < a.keys().len() && a.keys()[j] == k;
        }
        assert(a@ =~= b@);
    }
    true
}

/// A set of addresses in ascending order.
pub open spec fn in_order(addresses: Set<Seq<StepView>>) -> Seq<Seq<StepView>> {
    sorted::<RowAddress>(addresses)
}

/// The addresses of the rows of one collection, in ascending order.
pub open spec fn rows_of(state: StateView, path: (Seq<StepView>, Seq<char>)) -> Seq<Seq<StepView>> {
    in_order(state.dom().filter(|a: Seq<StepView>| in_collection(path.0, path.1, a)))
}

/// The addresses of the rows in the subtree below a row, in ascending order.
pub open spec fn descendants(state: StateView, ancestor: Seq<StepView>) -> Seq<Seq<StepView>> {
    in_order(state.dom().filter(|a: Seq<StepView>| below(ancestor, a)))
}

} // verus!
