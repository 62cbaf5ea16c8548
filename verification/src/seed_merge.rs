//! Reconciling what a package seeds with what an instance has since changed.

use crate::state::{Fields, FieldsView};
use crate::table::Table;
use crate::value::{copy_value, same_value, Value, ValueView};
use vstd::prelude::*;

verus! {

/// What a row maps a name to.
pub open spec fn held(row: FieldsView, name: Seq<char>) -> Option<ValueView> {
    if row.contains_key(name) {
        Some(row[name])
    } else {
        None
    }
}

/// One field merged: the new seed, where the current value is still the old seed;
/// the current value otherwise.
pub open spec fn field_merged(
    old_value: Option<ValueView>,
    new_value: Option<ValueView>,
    current: Option<ValueView>,
) -> Option<ValueView> {
    if current == old_value {
        new_value
    } else {
        current
    }
}

/// A row merged, field by field.
pub open spec fn row_merged(old_seed: FieldsView, new_seed: FieldsView, current: FieldsView) -> FieldsView {
    Map::new(
        |name: Seq<char>| field_merged(held(old_seed, name), held(new_seed, name), held(current, name)) is Some,
        |name: Seq<char>| field_merged(held(old_seed, name), held(new_seed, name), held(current, name))->0,
    )
}

/// The three states of a row that a merge reads: what the package seeded before,
/// what it seeds now, and what the instance holds.
pub struct SeedMerge<'a> {
    pub old_seed: &'a Fields,
    pub new_seed: &'a Fields,
    pub current: &'a Fields,
}

/// Whether two looked-up values are the same.
fn same_held(a: Option<&Value>, b: Option<&Value>) -> (r: bool)
    ensures
        r == match (a, b) {
            (Some(x), Some(y)) => x@ == y@,
            (None, None) => true,
            _ => false,
        },
{
    match (a, b) {
        (Some(x), Some(y)) => same_value(x, y),
        (None, None) => true,
        _ => false,
    }
}

impl<'a> SeedMerge<'a> {
    /// The merged row.
    pub fn merge(&self) -> (r: Fields)
        ensures
            r@ == row_merged(self.old_seed@, self.new_seed@, self.current@),
    {
        let ghost was = self.old_seed@;
        let ghost seeded = self.new_seed@;
        let ghost now = self.current@;
        let ghost want = row_merged(was, seeded, now);
        let mut r: Fields = Table::new();
        let n: usize = self.new_seed.len();
        let mut i: usize = 0;
        while i < n
            invariant
                was == self.old_seed@,
                seeded == self.new_seed@,
                now == self.current@,
                n == self.new_seed.keys().len(),
                i <= n,
                forall|name: Seq<char>| #[trigger]
                    r@.contains_key(name) <==> held(now, name) == held(was, name) && exists|j: int|
                        0 <= j < i && #[trigger] self.new_seed.keys()[j] == name,
                forall|name: Seq<char>| #[trigger] r@.contains_key(name) ==> seeded.contains_key(name) && r@[name] == seeded[name],
            decreases n - i,
        {
            let name = self.new_seed.key_at(i);
            let value = self.new_seed.value_at(i);
            let ghost before = r@;
            if same_held(self.current.get(name), self.old_seed.get(name)) {
                r.insert(name.clone(), copy_value(value));
            }
            proof {
                assert(self.new_seed.keys()[i as int] == name@);
                assert forall|k: Seq<char>| #[trigger] r@.contains_key(k) implies exists|j: int|
                    0 <= j < i + 1 && #[trigger] self.new_seed.keys()[j] == k by {
                    if before.contains_key(k) {
                        let j = choose|j: int| 0 <= j < i && #[trigger] self.new_seed.keys()[j] == k;
                        assert(self.new_seed.keys()[j] == k);
                    }
                }
            }
            i = i + 1;
        }
        proof {
            assert forall|name: Seq<char>| #[trigger] r@.contains_key(name) <==> held(now, name) == held(was, name)
                && seeded.contains_key(name) by {
                if seeded.contains_key(name) {
                    assert(self.new_seed.keys().contains(name));
                    let j = choose|j: int| 0 <= j < n && self.new_seed.keys()[j] == name;
                    assert(self.new_seed.keys()[j] == name);
                }
            }
        }
        let m: usize = self.current.len();
        let mut k: usize = 0;
        while k < m
            invariant
                was == self.old_seed@,
                seeded == self.new_seed@,
                now == self.current@,
                m == self.current.keys().len(),
                k <= m,
                forall|name: Seq<char>| #[trigger]
                    r@.contains_key(name) <==> (held(now, name) == held(was, name) && seeded.contains_key(name)) || (held(
                        now,
                        name,
                    ) != held(was, name) && exists|j: int| 0 <= j < k && #[trigger] self.current.keys()[j] == name),
                forall|name: Seq<char>| #[trigger]
                    r@.contains_key(name) ==> Some(r@[name]) == field_merged(
                        held(was, name),
                        held(seeded, name),
                        held(now, name),
                    ),
            decreases m - k,
        {
            let name = self.current.key_at(k);
            let value = self.current.value_at(k);
            let ghost before = r@;
            if !same_held(Some(value), self.old_seed.get(name)) {
                r.insert(name.clone(), copy_value(value));
            }
            proof {
                assert(self.current.keys()[k as int] == name@);
                assert forall|x: Seq<char>| #[trigger] r@.contains_key(x) implies (held(now, x) == held(was, x)
                    && seeded.contains_key(x)) || (held(now, x) != held(was, x) && exists|j: int|
                    0 <= j < k + 1 && #[trigger] self.current.keys()[j] == x) by {
                    if before.contains_key(x) && held(now, x) != held(was, x) {
                        let j = choose|j: int| 0 <= j < k && #[trigger] self.current.keys()[j] == x;
                        assert(self.current.keys()[j] == x);
                    }
                }
            }
            k = k + 1;
        }
        proof {
            assert forall|name: Seq<char>| #[trigger] want.contains_key(name) implies r@.contains_key(name) by {
                if held(now, name) != held(was, name) {
                    assert(now.contains_key(name));
                    assert(self.current.keys().contains(name));
                    let j = choose|j: int| 0 <= j < m && self.current.keys()[j] == name;
                    assert(self.current.keys()[j] == name);
                }
            }
            assert(r@ =~= want);
        }
        r
    }
}

/// A row nobody changed takes the new seed.
pub proof fn law_untouched_row(old_seed: FieldsView, new_seed: FieldsView)
    ensures
        row_merged(old_seed, new_seed, old_seed) == new_seed,
{
    assert(row_merged(old_seed, new_seed, old_seed) =~= new_seed);
}

/// A seed that did not change leaves the row as it is.
pub proof fn law_unchanged_seed(seed: FieldsView, current: FieldsView)
    ensures
        row_merged(seed, seed, current) == current,
{
    assert(row_merged(seed, seed, current) =~= current);
}

/// A local edit is kept, whatever the package seeds now.
pub proof fn law_local_edit(old_seed: FieldsView, new_seed: FieldsView, current: FieldsView, name: Seq<char>)
    requires
        held(current, name) != held(old_seed, name),
    ensures
        held(row_merged(old_seed, new_seed, current), name) == held(current, name),
{
}

/// Merging the same update again changes nothing.
pub proof fn law_merge_settles(old_seed: FieldsView, new_seed: FieldsView, current: FieldsView)
    ensures
        row_merged(new_seed, new_seed, row_merged(old_seed, new_seed, current)) == row_merged(
            old_seed,
            new_seed,
            current,
        ),
{
    law_unchanged_seed(new_seed, row_merged(old_seed, new_seed, current));
}

} // verus!
