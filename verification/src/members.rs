//! Sets of values, held as their distinct members in ascending order.

use crate::order::Duplicate;
use crate::table::{ascending, lemma_sorted, sorted, Table};
use crate::value::{copy_value, same_value, views, Value, ValueView};
use vstd::prelude::*;

verus! {

/// The distinct members of a set, in ascending order.
pub open spec fn canonical(members: Set<ValueView>) -> Seq<ValueView> {
    sorted::<Value>(members)
}

/// The members of a row of values: each value once, in ascending order.
pub fn canonical_members(items: &Vec<Value>) -> (r: Vec<Value>)
    ensures
        views(r@) == canonical(views(items@).to_set()),
        ascending::<Value>(views(r@)),
        views(r@).to_set() == views(items@).to_set(),
{
    let mut table: Table<Value, bool> = Table::new();
    let mut i: usize = 0;
    proof {
        assert(views(items@).take(0).to_set() =~= Set::<ValueView>::empty());
        assert(table@.dom() =~= Set::<ValueView>::empty());
    }
    while i < items.len()
        invariant
            i <= items@.len(),
            table@.dom() == views(items@).take(i as int).to_set(),
        decreases items@.len() - i,
    {
        table.insert(copy_value(&items[i]), true);
        proof {
            let s = views(items@);
            lemma_take_set(s, i as int);
            assert(table@.dom() =~= s.take(i + 1).to_set());
        }
        i = i + 1;
    }
    let n: usize = table.len();
    let mut r: Vec<Value> = Vec::new();
    let mut j: usize = 0;
    while j < n
        invariant
            n == table.keys().len(),
            j <= n,
            r@.len() == j,
            forall|k: int| 0 <= k < j ==> (#[trigger] r@[k])@ == table.keys()[k],
        decreases n - j,
    {
        r.push(table.key_at(j).duplicate());
        j = j + 1;
    }
    proof {
        assert(views(r@) =~= table.keys());
        assert(views(items@).take(i as int) =~= views(items@));
        lemma_sorted::<Value>(views(r@), views(items@).to_set());
    }
    r
}

/// Whether a row of values holds one that denotes the same as `value`.
pub fn holds_value(items: &Vec<Value>, value: &Value) -> (r: bool)
    ensures
        r == views(items@).contains(value@),
{
    let mut i: usize = 0;
    while i < items.len()
        invariant
            i <= items@.len(),
            forall|j: int| 0 <= j < i ==> (#[trigger] items@[j])@ != value@,
        decreases items@.len() - i,
    {
        if same_value(&items[i], value) {
            proof {
                assert(views(items@)[i as int] == value@);
            }
            return true;
        }
        i = i + 1;
    }
    proof {
        assert forall|j: int| 0 <= j < items@.len() implies views(items@)[j] != value@ by {
            assert(items@[j]@ != value@);
        }
    }
    false
}

/// The set of a prefix grows by the next element.
pub proof fn lemma_take_set(s: Seq<ValueView>, i: int)
    requires
        0 <= i < s.len(),
    ensures
        s.take(i + 1).to_set() == s.take(i).to_set().insert(s[i]),
{
    let t = s.take(i);
    let u = s.take(i + 1);
    assert forall|v: ValueView| u.to_set().contains(v) <==> t.to_set().insert(s[i]).contains(v) by {
        if u.contains(v) {
            let q = choose|q: int| 0 <= q < u.len() && u[q] == v;
            if q < i {
                assert(t[q] == v);
            }
        }
        if t.contains(v) {
            let q = choose|q: int| 0 <= q < t.len() && t[q] == v;
            assert(u[q] == v);
        }
        assert(u[i] == s[i]);
    }
    assert(u.to_set() =~= t.to_set().insert(s[i]));
}

} // verus!
