//! Inbound references: what follows a row when its key changes.

use crate::address::{names_of, KeyValue, RowAddress, StepView};
use crate::members::{canonical, canonical_members};
use crate::model::{is_named, name_view, Compiled, CompiledCollection, CompiledField};
use crate::order::{Duplicate, Key};
use crate::refs::{identity, key_identity, redirected, rewrite_ref_value};
use crate::state::{address_views, in_order, Fields, FieldsView, Prospective, StateView};
use crate::table::{ascending, lemma_ascending_distinct, lemma_sorted, lemma_sorted_exists};
use crate::text::texts;
use crate::value::{copy_value, lemma_denoted, views, Value, ValueView};
use vstd::prelude::*;

verus! {

/// A row that moves from one identity to another in a top-level collection with
/// these key fields.
#[verifier::ext_equal]
pub struct Move {
    pub target: Seq<char>,
    pub names: Seq<Seq<char>>,
    pub before: ValueView,
    pub after: ValueView,
}

/// What a value becomes under a move; one that does not reference the moved row
/// stays.
pub open spec fn followed(value: ValueView, m: Move) -> ValueView {
    match redirected(value, m.names, m.before, m.after) {
        Some(v) => v,
        None => value,
    }
}

/// Whether a value references the moved row.
pub open spec fn follows(value: ValueView, m: Move) -> bool {
    redirected(value, m.names, m.before, m.after) is Some
}

/// Whether some member references the moved row.
pub open spec fn some_follows(members: Seq<ValueView>, m: Move) -> bool {
    exists|i: int| 0 <= i < members.len() && follows(#[trigger] members[i], m)
}

/// What each member becomes under a move.
pub open spec fn all_followed(members: Seq<ValueView>, m: Move) -> Seq<ValueView> {
    Seq::new(members.len(), |i: int| followed(members[i], m))
}

/// Whether a field declared to hold one reference into the moved row's collection
/// does hold one to the moved row.
pub open spec fn single_affected(field: CompiledField, row: FieldsView, m: Move) -> bool {
    &&& name_view(field.reference) == Some(m.target)
    &&& row.contains_key(field.name@)
    &&& follows(row[field.name@], m)
}

/// Whether a field declared to hold a set of references into the moved row's
/// collection holds one to the moved row.
pub open spec fn set_affected(field: CompiledField, row: FieldsView, m: Move) -> bool {
    &&& name_view(field.element_reference) == Some(m.target)
    &&& row.contains_key(field.name@)
    &&& row[field.name@] is Members
    &&& some_follows(row[field.name@]->Members_0, m)
}

/// A row after one of its fields has followed a move: a single reference is
/// redirected, and so is every member of a set of references.
pub open spec fn field_rewritten(field: CompiledField, row: FieldsView, m: Move) -> FieldsView {
    let one = if single_affected(field, row, m) {
        row.insert(field.name@, followed(row[field.name@], m))
    } else {
        row
    };
    if set_affected(field, one, m) {
        one.insert(
            field.name@,
            ValueView::Members(canonical(all_followed(one[field.name@]->Members_0, m).to_set())),
        )
    } else {
        one
    }
}

/// Whether a field is affected by a move.
pub open spec fn field_affected(field: CompiledField, row: FieldsView, m: Move) -> bool {
    single_affected(field, row, m) || set_affected(field, row, m)
}

/// A row after each of its fields, in order, has followed a move.
pub open spec fn row_rewritten(fields: Seq<CompiledField>, row: FieldsView, m: Move) -> FieldsView
    decreases fields.len(),
{
    if fields.len() == 0 {
        row
    } else {
        row_rewritten(fields.drop_first(), field_rewritten(fields[0], row, m), m)
    }
}

/// Whether a move affects a row.
pub open spec fn row_affected(fields: Seq<CompiledField>, row: FieldsView, m: Move) -> bool
    decreases fields.len(),
{
    if fields.len() == 0 {
        false
    } else {
        field_affected(fields[0], row, m) || row_affected(fields.drop_first(), field_rewritten(fields[0], row, m), m)
    }
}

/// A row at an address after it has followed a move.
pub open spec fn rewritten_at(compiled: Compiled, address: Seq<StepView>, row: FieldsView, m: Move) -> FieldsView {
    match compiled.at(names_of(address)) {
        Some(c) => row_rewritten(c.fields@, row, m),
        None => row,
    }
}

/// Whether a move affects the row at an address.
pub open spec fn affected_at(compiled: Compiled, address: Seq<StepView>, row: FieldsView, m: Move) -> bool {
    match compiled.at(names_of(address)) {
        Some(c) => row_affected(c.fields@, row, m),
        None => false,
    }
}

/// The move of a row of the top-level collection `target` from one key to another.
pub open spec fn move_of(key_fields: Seq<Seq<char>>, target: Seq<char>, old: Seq<ValueView>, new: Seq<ValueView>) -> Move {
    Move {
        target,
        names: key_fields,
        before: identity(key_fields.len(), old),
        after: identity(key_fields.len(), new),
    }
}

/// The state after every reference into the top-level collection `target` that
/// pointed at the key `old` points at the key `new`.
pub open spec fn refs_moved(
    compiled: Compiled,
    state: StateView,
    target: Seq<char>,
    old: Seq<ValueView>,
    new: Seq<ValueView>,
) -> StateView {
    match compiled.top(target) {
        None => state,
        Some(c) => Map::new(
            |a: Seq<StepView>| state.contains_key(a),
            |a: Seq<StepView>| rewritten_at(compiled, a, state[a], move_of(texts(c.key@), target, old, new)),
        ),
    }
}

/// The addresses of the rows whose references a move redirects, in ascending order.
pub open spec fn referrers(
    compiled: Compiled,
    state: StateView,
    target: Seq<char>,
    old: Seq<ValueView>,
    new: Seq<ValueView>,
) -> Seq<Seq<StepView>> {
    match compiled.top(target) {
        None => Seq::empty(),
        Some(c) => in_order(
            state.dom().filter(
                |a: Seq<StepView>| affected_at(compiled, a, state[a], move_of(texts(c.key@), target, old, new)),
            ),
        ),
    }
}

/// A row that a move does not affect stays as it is.
pub proof fn lemma_unaffected(fields: Seq<CompiledField>, row: FieldsView, m: Move)
    requires
        !row_affected(fields, row, m),
    ensures
        row_rewritten(fields, row, m) == row,
    decreases fields.len(),
{
    if fields.len() > 0 {
        lemma_unaffected(fields.drop_first(), field_rewritten(fields[0], row, m), m);
    }
}

/// Redirect the members of a set that reference a moved row. `None` when none does.
fn rewrite_members(members: &Vec<Value>, names: &Vec<String>, before: &Value, after: &Value, Ghost(m): Ghost<Move>) -> (r:
    Option<Value>)
    requires
        m.names == texts(names@),
        m.before == before@,
        m.after == after@,
    ensures
        match r {
            Some(v) => some_follows(views(members@), m) && v@ == ValueView::Members(
                canonical(all_followed(views(members@), m).to_set()),
            ),
            None => !some_follows(views(members@), m),
        },
{
    let mut rebuilt: Vec<Value> = Vec::new();
    let mut changed = false;
    let mut i: usize = 0;
    let ghost held = views(members@);
    while i < members.len()
        invariant
            held == views(members@),
            m.names == texts(names@),
            m.before == before@,
            m.after == after@,
            i <= members@.len(),
            rebuilt@.len() == i,
            forall|j: int| 0 <= j < i ==> (#[trigger] rebuilt@[j])@ == followed(held[j], m),
            changed ==> some_follows(held, m),
            !changed ==> forall|j: int| 0 <= j < i ==> !follows(#[trigger] held[j], m),
        decreases members@.len() - i,
    {
        match rewrite_ref_value(&members[i], names, before, after) {
            Some(v) => {
                proof {
                    assert(follows(held[i as int], m));
                }
                rebuilt.push(v);
                changed = true;
            },
            None => {
                rebuilt.push(copy_value(&members[i]));
            },
        }
        i = i + 1;
    }
    if !changed {
        return None;
    }
    proof {
        assert(views(rebuilt@) =~= all_followed(held, m));
    }
    let r = Value::Members(canonical_members(&rebuilt));
    proof {
        lemma_denoted(r);
    }
    Some(r)
}

/// Let one field follow a move.
fn rewrite_field(
    field: &CompiledField,
    fields: &mut Fields,
    target: &str,
    names: &Vec<String>,
    before: &Value,
    after: &Value,
    Ghost(m): Ghost<Move>,
) -> (changed: bool)
    requires
        m == (Move { target: target@, names: texts(names@), before: before@, after: after@ }),
    ensures
        final(fields)@ == field_rewritten(*field, old(fields)@, m),
        changed == field_affected(*field, old(fields)@, m),
{
    let ghost start = fields@;
    let mut changed = false;
    if is_named(&field.reference, target) {
        let rewrite = match fields.get(&field.name) {
            Some(value) => rewrite_ref_value(value, names, before, after),
            None => None,
        };
        if let Some(value) = rewrite {
            fields.insert(field.name.clone(), value);
            changed = true;
        }
    }
    let ghost one = fields@;
    proof {
        assert(one == (if single_affected(*field, start, m) {
            start.insert(field.name@, followed(start[field.name@], m))
        } else {
            start
        }));
        assert(changed == single_affected(*field, start, m));
    }
    if is_named(&field.element_reference, target) {
        let rebuilt = match fields.get(&field.name) {
            Some(Value::Members(members)) => {
                proof {
                    lemma_denoted(Value::Members(*members));
                }
                rewrite_members(members, names, before, after, Ghost(m))
            },
            Some(other) => {
                proof {
                    lemma_denoted(*other);
                }
                None
            },
            None => None,
        };
        if let Some(value) = rebuilt {
            fields.insert(field.name.clone(), value);
            changed = true;
        }
    }
    changed
}

/// Let a row follow a move.
fn rewrite_row(
    collection: &CompiledCollection,
    fields: &mut Fields,
    target: &str,
    names: &Vec<String>,
    before: &Value,
    after: &Value,
    Ghost(m): Ghost<Move>,
) -> (changed: bool)
    requires
        m == (Move { target: target@, names: texts(names@), before: before@, after: after@ }),
    ensures
        final(fields)@ == row_rewritten(collection.fields@, old(fields)@, m),
        changed == row_affected(collection.fields@, old(fields)@, m),
{
    let ghost start = fields@;
    let mut changed = false;
    let mut i: usize = 0;
    proof {
        assert(collection.fields@.skip(0) =~= collection.fields@);
    }
    while i < collection.fields.len()
        invariant
            i <= collection.fields@.len(),
            m == (Move { target: target@, names: texts(names@), before: before@, after: after@ }),
            row_rewritten(collection.fields@, start, m) == row_rewritten(
                collection.fields@.skip(i as int),
                fields@,
                m,
            ),
            row_affected(collection.fields@, start, m) == (changed || row_affected(
                collection.fields@.skip(i as int),
                fields@,
                m,
            )),
        decreases collection.fields@.len() - i,
    {
        proof {
            assert(collection.fields@.skip(i as int).drop_first() =~= collection.fields@.skip(i + 1));
        }
        if rewrite_field(&collection.fields[i], fields, target, names, before, after, Ghost(m)) {
            changed = true;
        }
        i = i + 1;
    }
    changed
}

/// Rewrite every reference into the top-level collection `target` that points at
/// the key `old` so that it points at the key `new`. Answers with the addresses of
/// the rows that changed.
pub fn rewrite_inbound_refs_across(
    compiled: &Compiled,
    prospective: &mut Prospective,
    target: &str,
    old_key: &KeyValue,
    new_key: &KeyValue,
) -> (r: Vec<RowAddress>)
    ensures
        final(prospective)@ == refs_moved(*compiled, old(prospective)@, target@, old_key@, new_key@),
        final(prospective).drawn() == old(prospective).drawn(),
        address_views(r@) == referrers(*compiled, old(prospective)@, target@, old_key@, new_key@),
{
    let ghost start = prospective@;
    let collection = match compiled.collection(target) {
        Some(c) => c,
        None => {
            let none: Vec<RowAddress> = Vec::new();
            proof {
                assert(address_views(none@) =~= Seq::<Seq<StepView>>::empty());
            }
            return none;
        },
    };
    let names = &collection.key;
    let before = key_identity(names, old_key);
    let after = key_identity(names, new_key);
    let ghost m = move_of(texts(names@), target@, old_key@, new_key@);
    let ghost goal = refs_moved(*compiled, start, target@, old_key@, new_key@);
    let ghost affected = |a: Seq<StepView>| affected_at(*compiled, a, start[a], m);
    let candidates = prospective.addresses();
    let ghost all = address_views(candidates@);
    let mut rewritten: Vec<RowAddress> = Vec::new();
    let ghost mut from: Seq<int> = Seq::empty();
    let mut i: usize = 0;
    while i < candidates.len()
        invariant
            i <= candidates@.len(),
            all == address_views(candidates@),
            ascending::<RowAddress>(all),
            all.to_set() == start.dom(),
            collection.key == *names,
            compiled.top(target@) == Some(*collection),
            m == move_of(texts(names@), target@, old_key@, new_key@),
            before@ == m.before,
            after@ == m.after,
            goal == refs_moved(*compiled, start, target@, old_key@, new_key@),
            affected == |a: Seq<StepView>| affected_at(*compiled, a, start[a], m),
            prospective.drawn() == old(prospective).drawn(),
            prospective@.dom() == start.dom(),
            forall|k: int| 0 <= k < i ==> prospective@[#[trigger] all[k]] == goal[all[k]],
            forall|k: int| i <= k < all.len() ==> prospective@[#[trigger] all[k]] == start[all[k]],
            from.len() == rewritten@.len(),
            forall|j: int|
                0 <= j < rewritten@.len() ==> 0 <= #[trigger] from[j] < i && rewritten@[j]@ == all[from[j]] && affected(
                    all[from[j]],
                ),
            forall|j: int, k: int| 0 <= j < k < rewritten@.len() ==> #[trigger] from[j] < #[trigger] from[k],
            forall|k: int| 0 <= k < i && affected(#[trigger] all[k]) ==> from.contains(k),
        decreases candidates@.len() - i,
    {
        let address = &candidates[i];
        let ghost a = all[i as int];
        let ghost prior = from;
        proof {
            assert(all.to_set().contains(a)) by {
                assert(all.contains(a));
            }
            assert forall|k: int| 0 <= k < all.len() && k != i implies #[trigger] all[k] != a by {
                if all[k] == a {
                    lemma_ascending_distinct::<RowAddress>(all, k, i as int);
                }
            }
        }
        let declaration = address.declaration();
        if let Some(c) = compiled.collection_at(&declaration) {
            if let Some(existing) = prospective.get(address) {
                let mut fields = existing.duplicate();
                let changed = rewrite_row(c, &mut fields, target, names, &before, &after, Ghost(m));
                if changed {
                    prospective.replace(address, fields);
                    rewritten.push(address.duplicate());
                    proof {
                        assert(prospective@.dom() =~= start.dom());
                        from = from.push(i as int);
                        assert(from[prior.len() as int] == i);
                        assert forall|k: int| 0 <= k < i + 1 && affected(#[trigger] all[k]) implies from.contains(k) by {
                            if k < i {
                                assert(prior.contains(k));
                                let q = choose|q: int| 0 <= q < prior.len() && prior[q] == k;
                                assert(from[q] == k);
                            }
                        }
                    }
                } else {
                    proof {
                        lemma_unaffected(c.fields@, start[a], m);
                    }
                }
            }
        }
        i = i + 1;
    }
    proof {
        assert(prospective@ =~= goal) by {
            assert forall|a: Seq<StepView>| start.contains_key(a) implies prospective@[a] == goal[a] by {
                assert(all.to_set().contains(a));
                let k = choose|k: int| 0 <= k < all.len() && all[k] == a;
            }
        }
        let keys = address_views(rewritten@);
        assert forall|j: int, k: int| 0 <= j < k < keys.len() implies RowAddress::before(
            #[trigger] keys[j],
            #[trigger] keys[k],
        ) by {
            assert(all[from[j]] == keys[j]);
            assert(all[from[k]] == keys[k]);
        }
        assert forall|a: Seq<StepView>| keys.to_set().contains(a) <==> start.dom().filter(affected).contains(a) by {
            if keys.contains(a) {
                let j = choose|j: int| 0 <= j < keys.len() && keys[j] == a;
                assert(all[from[j]] == a);
                assert(all.to_set().contains(a));
            }
            if start.dom().contains(a) && affected(a) {
                assert(all.to_set().contains(a));
                let k = choose|k: int| 0 <= k < all.len() && all[k] == a;
                assert(from.contains(k));
                let j = choose|j: int| 0 <= j < from.len() && from[j] == k;
                assert(keys[j] == a);
            }
        }
        assert(keys.to_set() =~= start.dom().filter(affected));
        lemma_sorted::<RowAddress>(keys, start.dom().filter(affected));
    }
    rewritten
}

/// Whether the new identity of a move is not read as the old one, neither by itself nor
/// in a reference, and no identity is a set.
pub open spec fn tells_apart(m: Move) -> bool {
    &&& !follows(m.after, m)
    &&& !follows(ValueView::Ref(Box::new(m.after)), m)
    &&& m.before !is Members
    &&& m.after !is Members
}

proof fn lemma_followed(value: ValueView, m: Move)
    requires
        tells_apart(m),
    ensures
        !follows(followed(value, m), m),
{
}

proof fn lemma_field_settled(field: CompiledField, other: CompiledField, row: FieldsView, m: Move)
    requires
        tells_apart(m),
        field == other || !field_affected(other, row, m),
    ensures
        !field_affected(other, field_rewritten(field, row, m), m),
{
    let one = if single_affected(field, row, m) {
        row.insert(field.name@, followed(row[field.name@], m))
    } else {
        row
    };
    let done = field_rewritten(field, row, m);
    if row.contains_key(field.name@) {
        lemma_followed(row[field.name@], m);
    }
    if set_affected(field, one, m) {
        let members = one[field.name@]->Members_0;
        let all = all_followed(members, m);
        let settled = canonical(all.to_set());
        vstd::seq_lib::seq_to_set_is_finite(all);
        lemma_sorted_exists::<Value>(all.to_set());
        assert forall|i: int| 0 <= i < settled.len() implies !follows(#[trigger] settled[i], m) by {
            assert(settled.to_set().contains(settled[i]));
            assert(all.contains(settled[i]));
            let j = choose|j: int| 0 <= j < all.len() && all[j] == settled[i];
            lemma_followed(members[j], m);
        }
        assert(done[field.name@] == ValueView::Members(settled));
        assert(!some_follows(settled, m));
    }
}

proof fn lemma_row_settled(fields: Seq<CompiledField>, row: FieldsView, m: Move, other: CompiledField)
    requires
        tells_apart(m),
        fields.contains(other) || !field_affected(other, row, m),
    ensures
        !field_affected(other, row_rewritten(fields, row, m), m),
    decreases fields.len(),
{
    if fields.len() > 0 {
        let rest = fields.drop_first();
        if fields[0] == other || !field_affected(other, row, m) {
            lemma_field_settled(fields[0], other, row, m);
        } else {
            let i = choose|i: int| 0 <= i < fields.len() && fields[i] == other;
            assert(rest[i - 1] == other);
        }
        lemma_row_settled(rest, field_rewritten(fields[0], row, m), m, other);
    }
}

/// When the row at one key moves to another, no field that is declared to reference its
/// collection, singly or as a set, still points at the old key.
pub proof fn law_references_follow(
    compiled: Compiled,
    state: StateView,
    target: Seq<char>,
    old_key: Seq<ValueView>,
    new_key: Seq<ValueView>,
    at: Seq<StepView>,
    field: CompiledField,
)
    requires
        compiled.top(target) is Some,
        state.contains_key(at),
        compiled.at(names_of(at)) matches Some(c) && c.fields@.contains(field),
        tells_apart(move_of(texts(compiled.top(target)->0.key@), target, old_key, new_key)),
    ensures
        refs_moved(compiled, state, target, old_key, new_key).contains_key(at),
        !field_affected(
            field,
            refs_moved(compiled, state, target, old_key, new_key)[at],
            move_of(texts(compiled.top(target)->0.key@), target, old_key, new_key),
        ),
{
    let m = move_of(texts(compiled.top(target)->0.key@), target, old_key, new_key);
    let c = compiled.at(names_of(at))->0;
    lemma_row_settled(c.fields@, state[at], m, field);
}

/// Two different identities that are no references, structs, or sets are told apart.
pub proof fn law_plain_identities(m: Move)
    requires
        m.before != m.after,
        !(m.before is Ref),
        !(m.before is Members),
        !(m.after is Ref),
        !(m.after is Struct),
        !(m.after is Members),
    ensures
        tells_apart(m),
{
}

/// A move leaves every row where it is.
pub proof fn law_rows_stay(
    compiled: Compiled,
    state: StateView,
    target: Seq<char>,
    old_key: Seq<ValueView>,
    new_key: Seq<ValueView>,
)
    ensures
        refs_moved(compiled, state, target, old_key, new_key).dom() == state.dom(),
{
    assert(refs_moved(compiled, state, target, old_key, new_key).dom() =~= state.dom());
}

} // verus!
