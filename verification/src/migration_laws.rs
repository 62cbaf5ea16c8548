//! What a migration keeps to: the types its rows come to hold, the places they come to
//! stand at, the references that follow them, and what a downgrade may not lose.

use crate::address::{names_of, StepView};
use crate::captured::{rows_named, CapturedRow, StateSection};
use crate::coerce::{
    coerced, destination, field_coerced, fields_coerced, keyed_row, move_order, own_key, put_back, reading, rekeyed,
    relocations, row_coerced, struct_coerced, DecodedRow,
};
use crate::copy::{carried_state, collections_copied, members_mapped, rows_copied, written, CarryWork, CopyView, Shape};
use crate::downgrade::{
    collections_representable, first_lost_field, first_lost_member, holds_value, keeps_field, populated, reconstructed,
    representable, state_representable,
};
use crate::inbound::Move;
use crate::mapping::{mapped_value, Transformed};
use crate::members::canonical;
use crate::migrate::{finished, program_for, rows_coerced, seeded, ProgramWork, ProgressView};
use crate::model::{name_view, Compiled, CompiledCollection, CompiledField, CompiledStruct};
use crate::plan::{downgraded, inverted, plan_for, with_inverses, CollectionPlan, FieldPlan, PlanView};
use crate::redirects::{
    followed_once, key_components, settled_in, settled_refs, settled_row, settled_value, some_followed,
};
use crate::rejection::{Rejection, RejectionView};
use crate::seed_merge::{held, row_merged};
use crate::state::{FieldsView, StateView};
use crate::table::{lemma_sorted_exists, sorted};
use crate::value::{Value, ValueView};
use crate::address::RowAddress;
use vstd::prelude::*;

verus! {

/// Bringing a field to its declared type changes that field alone. A plain field that
/// has a value comes to what the value was read as, a reference that is one already
/// stays, and a value that cannot be read is refused. A required field has to have a
/// value.
pub proof fn law_field_coerced(
    field: CompiledField,
    read: Result<ValueView, Seq<char>>,
    row: FieldsView,
    at: Seq<StepView>,
    other: Seq<char>,
)
    ensures
        ({
            let name = field.name@;
            let plain = field.reference is None && field.element_reference is None;
            let filled = row.contains_key(name) && !(row[name] is Absent);
            let after = field_coerced(field, read, row, at);
            &&& after matches Ok(r) ==> (other != name ==> (r.contains_key(other) <==> row.contains_key(other)) && (
            row.contains_key(other) ==> r[other] == row[other]))
            &&& plain && filled && read is Ok && !(read->Ok_0 is Absent && field.required) ==> (after matches Ok(r)
                && r.contains_key(name) && r[name] == read->Ok_0)
            &&& plain && filled && read is Err ==> after is Err
            &&& plain && !filled && field.required ==> after is Err
            &&& plain && !filled && !field.required ==> after == Ok::<FieldsView, RejectionView>(row)
            &&& field.reference is Some && filled && row[name] is Ref ==> after == Ok::<FieldsView, RejectionView>(row)
            &&& field.reference is Some && !filled ==> after == Ok::<FieldsView, RejectionView>(row)
            &&& field.reference is Some && filled && !(row[name] is Ref) && read is Ok ==> (after matches Ok(r)
                && r.contains_key(name) && r[name] == read->Ok_0)
            &&& field.reference is Some && filled && !(row[name] is Ref) && read is Err ==> after is Err
            &&& field.reference is None && field.element_reference is Some ==> after == Ok::<FieldsView, RejectionView>(
                row,
            )
        }),
{
}

proof fn lemma_fields_coerced(
    fields: Seq<CompiledField>,
    read: Seq<Result<Value, String>>,
    row: FieldsView,
    at: Seq<StepView>,
    n: int,
    k: int,
)
    requires
        0 <= n <= fields.len(),
        0 <= k < fields.len(),
        forall|i: int, j: int| 0 <= i < j < fields.len() ==> (#[trigger] fields[i]).name@ != (#[trigger] fields[j]).name@,
        fields_coerced(fields, read, row, at, n) is Ok,
    ensures
        ({
            let after = fields_coerced(fields, read, row, at, n)->Ok_0;
            let name = fields[k].name@;
            &&& k >= n ==> (after.contains_key(name) <==> row.contains_key(name)) && (row.contains_key(name)
                ==> after[name] == row[name])
            &&& k < n ==> (field_coerced(fields[k], reading(read[k]), row, at) matches Ok(r) && (after.contains_key(name)
                <==> r.contains_key(name)) && (r.contains_key(name) ==> after[name] == r[name]))
        }),
    decreases n,
{
    if n > 0 {
        lemma_fields_coerced(fields, read, row, at, n - 1, k);
        let before = fields_coerced(fields, read, row, at, n - 1)->Ok_0;
        law_field_coerced(fields[n - 1], reading(read[n - 1]), before, at, fields[k].name@);
        if k < n - 1 {
            assert(fields[k].name@ != fields[n - 1].name@);
        } else if k > n - 1 {
            assert(fields[n - 1].name@ != fields[k].name@);
        }
    }
}

/// A coerced row has every one of its fields as that field's own coercion left it.
pub proof fn law_fields_coerced(
    fields: Seq<CompiledField>,
    read: Seq<Result<Value, String>>,
    row: FieldsView,
    at: Seq<StepView>,
    k: int,
)
    requires
        0 <= k < fields.len(),
        forall|i: int, j: int| 0 <= i < j < fields.len() ==> (#[trigger] fields[i]).name@ != (#[trigger] fields[j]).name@,
        fields_coerced(fields, read, row, at, fields.len() as int) is Ok,
    ensures
        ({
            let after = fields_coerced(fields, read, row, at, fields.len() as int)->Ok_0;
            let name = fields[k].name@;
            let filled = row.contains_key(name) && !(row[name] is Absent);
            &&& fields[k].reference is None && fields[k].element_reference is None && filled ==> (read[k] matches Ok(v)
                && after.contains_key(name) && after[name] == v@)
            &&& fields[k].element_reference is Some && fields[k].reference is None && row.contains_key(name)
                ==> after.contains_key(name) && after[name] == row[name]
            &&& fields[k].reference is Some && filled && row[name] is Ref ==> after.contains_key(name) && after[name]
                == row[name]
            &&& fields[k].reference is Some && filled && !(row[name] is Ref) ==> (read[k] matches Ok(v)
                && after.contains_key(name) && after[name] == v@)
        }),
{
    lemma_fields_coerced(fields, read, row, at, fields.len() as int, k);
}

/// A static struct that has a value and declares a type comes to what it was read as;
/// one that cannot be read is refused, and any other member of the row stays.
pub proof fn law_struct_coerced(
    meta: CompiledStruct,
    read: Option<Result<Value, String>>,
    row: FieldsView,
    at: Seq<StepView>,
    other: Seq<char>,
)
    ensures
        ({
            let name = meta.name@;
            let filled = row.contains_key(name) && !(row[name] is Absent);
            let after = struct_coerced(meta, read, row, at);
            &&& after matches Ok(r) ==> (other != name ==> (r.contains_key(other) <==> row.contains_key(other)) && (
            row.contains_key(other) ==> r[other] == row[other]))
            &&& filled ==> (read matches Some(Ok(v)) ==> (after matches Ok(r) && r.contains_key(name) && r[name] == v@))
            &&& filled ==> (read matches Some(Err(_)) ==> after is Err)
            &&& !filled || read is None ==> after == Ok::<FieldsView, RejectionView>(row)
        }),
{
}

/// Bringing a row to its types leaves every other row as it is, and leaves a row no
/// collection declares as it is.
pub proof fn law_coerced_local(
    compiled: Compiled,
    state: StateView,
    at: Seq<StepView>,
    decoded: DecodedRow,
    other: Seq<StepView>,
)
    requires
        coerced(compiled, state, at, decoded) is Ok,
    ensures
        coerced(compiled, state, at, decoded)->Ok_0.dom() == state.dom(),
        other != at && state.contains_key(other) ==> coerced(compiled, state, at, decoded)->Ok_0[other] == state[other],
        compiled.at(names_of(at)) is None ==> coerced(compiled, state, at, decoded)->Ok_0 == state,
        state.contains_key(at) && compiled.at(names_of(at)) is Some ==> row_coerced(
            compiled.at(names_of(at))->0,
            decoded,
            state[at],
            at,
        ) == Ok::<FieldsView, RejectionView>(coerced(compiled, state, at, decoded)->Ok_0[at]),
{
    assert(coerced(compiled, state, at, decoded)->Ok_0.dom() =~= state.dom());
}

/// Every row of a state is brought to its own types, in turn: no row is left out, and
/// none is added.
pub proof fn law_rows_coerced(
    compiled: Compiled,
    state: StateView,
    rows: Seq<Seq<StepView>>,
    decoded: Seq<DecodedRow>,
    n: int,
    k: int,
)
    requires
        0 <= k < n <= rows.len(),
        rows.no_duplicates(),
        rows_coerced(compiled, state, rows, decoded, n) is Ok,
        state.contains_key(rows[k]),
        compiled.at(names_of(rows[k])) is Some,
    ensures
        rows_coerced(compiled, state, rows, decoded, n)->Ok_0.dom() == state.dom(),
        row_coerced(compiled.at(names_of(rows[k]))->0, decoded[k], state[rows[k]], rows[k]) == Ok::<
            FieldsView,
            RejectionView,
        >(rows_coerced(compiled, state, rows, decoded, n)->Ok_0[rows[k]]),
    decreases n,
{
    let before = rows_coerced(compiled, state, rows, decoded, n - 1)->Ok_0;
    lemma_coerced_rest(compiled, state, rows, decoded, n - 1, rows[k]);
    law_coerced_local(compiled, before, rows[n - 1], decoded[n - 1], rows[k]);
    if k < n - 1 {
        law_rows_coerced(compiled, state, rows, decoded, n - 1, k);
        assert(rows[k] != rows[n - 1]);
    } else {
        assert forall|i: int| 0 <= i < n - 1 implies #[trigger] rows[i] != rows[k] by {}
    }
}

proof fn lemma_coerced_rest(
    compiled: Compiled,
    state: StateView,
    rows: Seq<Seq<StepView>>,
    decoded: Seq<DecodedRow>,
    n: int,
    at: Seq<StepView>,
)
    requires
        0 <= n <= rows.len(),
        rows_coerced(compiled, state, rows, decoded, n) is Ok,
    ensures
        rows_coerced(compiled, state, rows, decoded, n)->Ok_0.dom() == state.dom(),
        state.contains_key(at) && (forall|i: int| 0 <= i < n ==> #[trigger] rows[i] != at) ==> rows_coerced(
            compiled,
            state,
            rows,
            decoded,
            n,
        )->Ok_0[at] == state[at],
    decreases n,
{
    if n > 0 {
        lemma_coerced_rest(compiled, state, rows, decoded, n - 1, at);
        law_coerced_local(
            compiled,
            rows_coerced(compiled, state, rows, decoded, n - 1)->Ok_0,
            rows[n - 1],
            decoded[n - 1],
            at,
        );
        if forall|i: int| 0 <= i < n ==> #[trigger] rows[i] != at {
            assert(rows[n - 1] != at);
        }
    }
}

/// A listed row that takes part belongs under where its parent belongs, by the key its
/// own fields give it; any other row belongs where it is.
pub proof fn law_destination(compiled: Compiled, state: StateView, listed: Seq<Seq<StepView>>, at: Seq<StepView>)
    requires
        at.len() > 0,
    ensures
        listed.contains(at) && keyed_row(compiled, state, at) && own_key(compiled, state, at) is Some ==> {
            let to = destination(compiled, state, listed, at);
            &&& to.last().name == at.last().name
            &&& Some(to.last().key) == own_key(compiled, state, at)
            &&& to.drop_last() == destination(compiled, state, listed, at.drop_last())
        },
        !listed.contains(at) ==> destination(compiled, state, listed, at) == at,
        !keyed_row(compiled, state, at) ==> destination(compiled, state, listed, at) == at,
{
    let to = destination(compiled, state, listed, at);
    if listed.contains(at) && keyed_row(compiled, state, at) && own_key(compiled, state, at) is Some {
        assert(to.drop_last() =~= destination(compiled, state, listed, at.drop_last()));
    }
}

/// Moving rows are put back where they go, each with its own fields, and none onto a
/// row that is there or onto another that moves. Every other row stays.
pub proof fn law_put_back(
    state: StateView,
    from: StateView,
    moves: Map<Seq<StepView>, Seq<StepView>>,
    order: Seq<Seq<StepView>>,
    i: int,
    other: Seq<StepView>,
)
    requires
        put_back(state, from, moves, order) is Ok,
    ensures
        0 <= i < order.len() ==> put_back(state, from, moves, order)->Ok_0.contains_key(moves[order[i]]) && put_back(
            state,
            from,
            moves,
            order,
        )->Ok_0[moves[order[i]]] == from[order[i]] && !state.contains_key(moves[order[i]]),
        state.contains_key(other) ==> put_back(state, from, moves, order)->Ok_0.contains_key(other) && put_back(
            state,
            from,
            moves,
            order,
        )->Ok_0[other] == state[other],
        put_back(state, from, moves, order)->Ok_0.contains_key(other) ==> state.contains_key(other) || exists|k: int|
            0 <= k < order.len() && moves[#[trigger] order[k]] == other,
    decreases order.len(),
{
    if order.len() > 0 {
        let rest = order.drop_last();
        law_put_back(state, from, moves, rest, i, other);
        law_put_back(state, from, moves, rest, i, moves[order.last()]);
        assert(order[order.len() - 1] == order.last());
        if 0 <= i < rest.len() {
            assert(rest[i] == order[i]);
        }
        if exists|k: int| 0 <= k < rest.len() && moves[#[trigger] rest[k]] == other {
            let k = choose|k: int| 0 <= k < rest.len() && moves[#[trigger] rest[k]] == other;
            assert(order[k] == rest[k]);
        }
        if put_back(state, from, moves, order)->Ok_0.contains_key(other) && other == moves[order.last()] {
            assert(moves[order[order.len() - 1]] == other);
        }
    }
}

/// An accepted rekeying loses no row: a row stands where each listed row belongs, and
/// every row that is not listed stays where it was.
pub proof fn law_rekeying_keeps_rows(compiled: Compiled, state: StateView, listed: Seq<Seq<StepView>>, at: Seq<StepView>)
    requires
        rekeyed(compiled, state, listed) is Ok,
        state.dom().finite(),
        state.contains_key(at),
        relocations(compiled, state, listed).dom().finite(),
    ensures
        listed.contains(at) ==> rekeyed(compiled, state, listed)->Ok_0.contains_key(
            destination(compiled, state, listed, at),
        ),
        !listed.contains(at) ==> rekeyed(compiled, state, listed)->Ok_0.contains_key(at),
{
    let moves = relocations(compiled, state, listed);
    let order = move_order(moves);
    lemma_sorted_exists::<RowAddress>(moves.dom());
    let kept = state.remove_keys(moves.dom());
    let to = destination(compiled, state, listed, at);
    if moves.contains_key(at) {
        assert(order.to_set().contains(at));
        let i = choose|i: int| 0 <= i < order.len() && order[i] == at;
        law_put_back(kept, state, moves, order, i, at);
    } else {
        law_put_back(kept, state, moves, order, 0, at);
    }
}

/// Two rows are not rekeyed onto one address: two listed rows that move have places of
/// their own, and no row that stays holds them.
pub proof fn law_rekeying_apart(
    compiled: Compiled,
    state: StateView,
    listed: Seq<Seq<StepView>>,
    one: Seq<StepView>,
    other: Seq<StepView>,
)
    requires
        rekeyed(compiled, state, listed) is Ok,
        relocations(compiled, state, listed).contains_key(one),
        relocations(compiled, state, listed).dom().finite(),
        one != other,
    ensures
        relocations(compiled, state, listed).contains_key(other) ==> destination(compiled, state, listed, one)
            != destination(compiled, state, listed, other),
        !relocations(compiled, state, listed).contains_key(other) && state.contains_key(other) ==> destination(
            compiled,
            state,
            listed,
            one,
        ) != other,
{
    let moves = relocations(compiled, state, listed);
    let order = move_order(moves);
    lemma_sorted_exists::<RowAddress>(moves.dom());
    let kept = state.remove_keys(moves.dom());
    assert(order.to_set().contains(one));
    let i = choose|i: int| 0 <= i < order.len() && order[i] == one;
    law_put_back(kept, state, moves, order, i, other);
    if moves.contains_key(other) {
        assert(order.to_set().contains(other));
        let j = choose|j: int| 0 <= j < order.len() && order[j] == other;
        lemma_put_apart(kept, state, moves, order, if i < j { i } else { j }, if i < j { j } else { i });
    }
}

proof fn lemma_put_apart(
    state: StateView,
    from: StateView,
    moves: Map<Seq<StepView>, Seq<StepView>>,
    order: Seq<Seq<StepView>>,
    i: int,
    j: int,
)
    requires
        put_back(state, from, moves, order) is Ok,
        0 <= i < j < order.len(),
    ensures
        moves[order[i]] != moves[order[j]],
    decreases order.len(),
{
    let rest = order.drop_last();
    if j < rest.len() {
        assert(rest[i] == order[i] && rest[j] == order[j]);
        lemma_put_apart(state, from, moves, rest, i, j);
    } else {
        assert(rest[i] == order[i]);
        law_put_back(state, from, moves, rest, i, order[i]);
    }
}

/// By all moves together, a row keeps its names, and each of its fields holds what that
/// field holds by all moves together, read from the row as it was.
pub proof fn law_settled_row(fields: Seq<CompiledField>, row: FieldsView, moves: Seq<Move>, k: int)
    requires
        0 <= k < fields.len(),
        forall|i: int, j: int| 0 <= i < j < fields.len() ==> (#[trigger] fields[i]).name@ != (#[trigger] fields[j]).name@,
    ensures
        settled_row(fields, row, moves).dom() == row.dom(),
        row.contains_key(fields[k].name@) ==> settled_row(fields, row, moves)[fields[k].name@] == settled_in(
            fields[k],
            row[fields[k].name@],
            moves,
        ),
    decreases fields.len(),
{
    let rest = fields.drop_last();
    lemma_settled_dom(fields, row, moves);
    if k < rest.len() {
        assert forall|i: int, j: int| 0 <= i < j < rest.len() implies (#[trigger] rest[i]).name@ != (
        #[trigger] rest[j]).name@ by {
            assert(rest[i] == fields[i] && rest[j] == fields[j]);
        }
        law_settled_row(rest, row, moves, k);
        assert(rest[k] == fields[k]);
        assert(fields[k].name@ != fields[fields.len() - 1].name@);
    }
}

proof fn lemma_settled_dom(fields: Seq<CompiledField>, row: FieldsView, moves: Seq<Move>)
    ensures
        settled_row(fields, row, moves).dom() == row.dom(),
    decreases fields.len(),
{
    if fields.len() > 0 {
        lemma_settled_dom(fields.drop_last(), row, moves);
        assert(settled_row(fields, row, moves).dom() =~= row.dom());
    }
}

/// A field that holds one reference follows it; a set of references has exactly what
/// its members become; and a field without references keeps its value.
pub proof fn law_settled_in(field: CompiledField, value: ValueView, moves: Seq<Move>, v: ValueView)
    ensures
        field.reference is None && field.element_reference is None ==> settled_in(field, value, moves) == value,
        field.element_reference is None ==> (name_view(field.reference) matches Some(target) ==> settled_in(
            field,
            value,
            moves,
        ) == settled_value(value, target, moves)),
        name_view(field.element_reference) matches Some(target) ==> (value matches ValueView::Members(members)
            ==> (settled_in(field, value, moves) matches ValueView::Members(after) && ((exists|i: int|
            0 <= i < members.len() && followed_once(#[trigger] members[i], target, moves) is Some) ==> (after.contains(v)
            <==> exists|i: int| 0 <= i < members.len() && settled_value(#[trigger] members[i], target, moves) == v)))),
{
    if let Some(target) = name_view(field.element_reference) {
        if let ValueView::Members(members) = value {
            if some_followed(members, target, moves) {
                let all = Seq::new(members.len(), |i: int| settled_value(members[i], target, moves));
                vstd::seq_lib::seq_to_set_is_finite(all);
                lemma_sorted_exists::<Value>(all.to_set());
                let after = canonical(all.to_set());
                assert(after.to_set().contains(v) <==> all.to_set().contains(v));
                if all.contains(v) {
                    let i = choose|i: int| 0 <= i < all.len() && all[i] == v;
                    assert(settled_value(members[i], target, moves) == v);
                }
                if exists|i: int| 0 <= i < members.len() && settled_value(#[trigger] members[i], target, moves) == v {
                    let i = choose|i: int|
                        0 <= i < members.len() && settled_value(#[trigger] members[i], target, moves) == v;
                    assert(all[i] == v);
                }
            }
        }
    }
}

/// All moves together leave every row where it is.
pub proof fn law_settled_refs(compiled: Compiled, state: StateView, moves: Seq<Move>, at: Seq<StepView>)
    ensures
        settled_refs(compiled, state, moves).contains_key(at) <==> state.contains_key(at),
        state.contains_key(at) && compiled.at(names_of(at)) is None ==> settled_refs(compiled, state, moves)[at]
            == state[at],
        state.contains_key(at) ==> (compiled.at(names_of(at)) matches Some(c) ==> settled_refs(compiled, state, moves)[at]
            == settled_row(c.fields@, state[at], moves)),
{
}

/// A row is referenced by the keys of its ancestors and then its own.
pub proof fn law_key_components(at: Seq<StepView>, step: StepView)
    ensures
        key_components(seq![step]) == step.key,
        key_components(at.push(step)) == key_components(at) + step.key,
{
    reveal_with_fuel(key_components, 2);
    assert(seq![step].drop_last() =~= Seq::<StepView>::empty());
    assert(Seq::<ValueView>::empty() + step.key =~= step.key);
    assert(at.push(step).drop_last() =~= at);
}

/// Of the values written to a row the last of a name counts, any other member stays,
/// and a value that was refused refuses the row.
pub proof fn law_written(row: FieldsView, writes: Seq<(String, Result<Value, Rejection>)>, n: int, name: Seq<char>)
    requires
        0 <= n <= writes.len(),
    ensures
        written(row, writes, n) is Ok <==> forall|i: int| 0 <= i < n ==> (#[trigger] writes[i]).1 is Ok,
        written(row, writes, n) matches Ok(r) ==> ((forall|i: int| 0 <= i < n ==> (#[trigger] writes[i]).0@ != name) ==> (
        r.contains_key(name) <==> row.contains_key(name)) && (row.contains_key(name) ==> r[name] == row[name])),
    decreases n,
{
    if n > 0 {
        law_written(row, writes, n - 1, name);
        if forall|i: int| 0 <= i < n ==> (#[trigger] writes[i]).0@ != name {
            assert(writes[n - 1].0@ != name);
        }
        if written(row, writes, n) is Err && (forall|i: int| 0 <= i < n ==> (#[trigger] writes[i]).1 is Ok) {
            assert(writes[n - 1].1 is Ok);
        }
    }
}

/// The last value written under a name is the row's.
pub proof fn law_last_written(row: FieldsView, writes: Seq<(String, Result<Value, Rejection>)>, n: int, i: int)
    requires
        0 <= i < n <= writes.len(),
        written(row, writes, n) is Ok,
        forall|j: int| i < j < n ==> (#[trigger] writes[j]).0@ != writes[i].0@,
    ensures
        writes[i].1 is Ok,
        written(row, writes, n)->Ok_0.contains_key(writes[i].0@),
        written(row, writes, n)->Ok_0[writes[i].0@] == writes[i].1->Ok_0@,
    decreases n,
{
    if i < n - 1 {
        law_last_written(row, writes, n - 1, i);
        assert(writes[n - 1].0@ != writes[i].0@);
    }
}

proof fn lemma_members(
    members: Seq<Seq<char>>,
    plan: Map<Seq<char>, FieldPlan>,
    source: FieldsView,
    held_names: Seq<Seq<char>>,
    work: Seq<Transformed>,
    n: int,
    k: int,
)
    requires
        0 <= n <= members.len(),
        0 <= k < members.len(),
        members.no_duplicates(),
        members_mapped(members, plan, source, held_names, work, n) is Ok,
    ensures
        ({
            let row = members_mapped(members, plan, source, held_names, work, n)->Ok_0;
            let name = members[k];
            &&& k >= n ==> !row.contains_key(name)
            &&& k < n && plan.contains_key(name) ==> held_names.contains(plan[name].from) && (row.contains_key(name)
                <==> source.contains_key(plan[name].from)) && (source.contains_key(plan[name].from) ==> mapped_value(
                plan[name],
                source[plan[name].from],
                work[k],
            ) == Ok::<ValueView, RejectionView>(row[name]))
            &&& k < n && !plan.contains_key(name) ==> (row.contains_key(name) <==> source.contains_key(name)) && (
            source.contains_key(name) ==> row[name] == source[name])
        }),
    decreases n,
{
    if n > 0 {
        lemma_members(members, plan, source, held_names, work, n - 1, k);
        if k != n - 1 {
            assert(members[k] != members[n - 1]);
        }
    }
}

/// Root members come over like fields: by the value their mapping gives, which has to
/// name a root member of the source, or by the source's value of the same name.
pub proof fn law_members_mapped(
    members: Seq<Seq<char>>,
    plan: Map<Seq<char>, FieldPlan>,
    source: FieldsView,
    held_names: Seq<Seq<char>>,
    work: Seq<Transformed>,
    k: int,
)
    requires
        0 <= k < members.len(),
        members.no_duplicates(),
        members_mapped(members, plan, source, held_names, work, members.len() as int) is Ok,
    ensures
        ({
            let row = members_mapped(members, plan, source, held_names, work, members.len() as int)->Ok_0;
            let name = members[k];
            &&& plan.contains_key(name) ==> held_names.contains(plan[name].from) && (row.contains_key(name)
                <==> source.contains_key(plan[name].from)) && (source.contains_key(plan[name].from) ==> mapped_value(
                plan[name],
                source[plan[name].from],
                work[k],
            ) == Ok::<ValueView, RejectionView>(row[name]))
            &&& !plan.contains_key(name) ==> (row.contains_key(name) <==> source.contains_key(name)) && (
            source.contains_key(name) ==> row[name] == source[name])
        }),
{
    lemma_members(members, plan, source, held_names, work, members.len() as int, k);
}

/// Every captured collection comes over: what one top-level collection of the target
/// came to stays while the others come over.
pub proof fn law_collections_carried(
    source: Shape,
    state: StateSection,
    target: Shape,
    plan: PlanView,
    work: CarryWork,
    n: int,
)
    requires
        0 <= n < target.compiled.collections@.len(),
        collections_copied(source, state, target, plan, work, n + 1) is Ok,
    ensures
        collections_copied(source, state, target, plan, work, 0) == Ok::<CopyView, RejectionView>(
            CopyView { state: Map::empty(), migrated: Seq::empty(), drawn: 0 },
        ),
        collections_copied(source, state, target, plan, work, n) is Ok,
        ({
            let c = target.compiled.collections@[n];
            let nested = plan_for(plan.collections, c.name@);
            let name = match nested.from {
                Some(from) => from,
                None => c.name@,
            };
            let before = collections_copied(source, state, target, plan, work, n)->Ok_0;
            let after = collections_copied(source, state, target, plan, work, n + 1)->Ok_0;
            &&& rows_named(state.collections@, name) is None ==> after == before
            &&& rows_named(state.collections@, name) matches Some(rows) ==> rows_copied(
                c,
                nested,
                source.compiled.top(name),
                rows,
                work.collections@[n]@,
                Seq::empty(),
                before,
                rows.len() as int,
            ) == Ok::<CopyView, RejectionView>(after)
        }),
{
}

/// The rows a captured state has under a name are those of the first entry of it.
pub proof fn law_rows_named(entries: Seq<(String, Vec<CapturedRow>)>, name: Seq<char>, i: int)
    ensures
        rows_named(entries, name) is None <==> forall|k: int|
            0 <= k < entries.len() ==> (#[trigger] entries[k]).0@ != name,
        0 <= i < entries.len() && entries[i].0@ == name && (forall|k: int|
            0 <= k < i ==> (#[trigger] entries[k]).0@ != name) ==> rows_named(entries, name) == Some(entries[i].1@),
    decreases entries.len(),
{
    if entries.len() > 0 {
        let rest = entries.drop_first();
        law_rows_named(rest, name, i - 1);
        if entries[0].0@ != name {
            if forall|k: int| 0 <= k < entries.len() ==> (#[trigger] entries[k]).0@ != name {
                assert forall|k: int| 0 <= k < rest.len() implies (#[trigger] rest[k]).0@ != name by {
                    assert(rest[k] == entries[k + 1]);
                }
            }
            if rows_named(entries, name) is None {
                assert forall|k: int| 0 <= k < entries.len() implies (#[trigger] entries[k]).0@ != name by {
                    if k > 0 {
                        assert(rest[k - 1] == entries[k]);
                    }
                }
            }
            if 0 <= i < entries.len() && entries[i].0@ == name && (forall|k: int|
                0 <= k < i ==> (#[trigger] entries[k]).0@ != name) {
                assert(rest[i - 1] == entries[i]);
                assert forall|k: int| 0 <= k < i - 1 implies (#[trigger] rest[k]).0@ != name by {
                    assert(rest[k] == entries[k + 1]);
                }
            }
        } else if 0 < i < entries.len() && (forall|k: int| 0 <= k < i ==> (#[trigger] entries[k]).0@ != name) {
            assert(entries[0].0@ != name);
        }
    }
}

/// The root members that were carried over, and what defaults and normalization wrote
/// to them, stand in their own row; every other row is as the collections left it.
pub proof fn law_members_carried(
    source: Shape,
    state: StateSection,
    target: Shape,
    plan: PlanView,
    work: CarryWork,
    reserved: Seq<StepView>,
    other: Seq<StepView>,
)
    requires
        carried_state(source, state, target, plan, work, reserved) is Ok,
        other != reserved,
    ensures
        ({
            let copied = collections_copied(
                source,
                state,
                target,
                plan,
                work,
                target.compiled.collections@.len() as int,
            )->Ok_0;
            let all = carried_state(source, state, target, plan, work, reserved)->Ok_0;
            &&& all.state.contains_key(other) <==> copied.state.contains_key(other)
            &&& copied.state.contains_key(other) ==> all.state[other] == copied.state[other]
            &&& all.migrated == copied.migrated
            &&& all.drawn == copied.drawn
        }),
{
}

/// A migration runs the program that starts from the active version, and none where
/// there is none: what was carried over is then what settles.
pub proof fn law_program_for(programs: Seq<(String, ProgramWork)>, version: Seq<char>, i: int)
    ensures
        program_for(programs, version) is None <==> forall|k: int|
            0 <= k < programs.len() ==> (#[trigger] programs[k]).0@ != version,
        0 <= i < programs.len() && programs[i].0@ == version && (forall|k: int|
            0 <= k < i ==> (#[trigger] programs[k]).0@ != version) ==> program_for(programs, version) == Some(
            programs[i].1,
        ),
    decreases programs.len(),
{
    if programs.len() > 0 {
        let rest = programs.drop_first();
        law_program_for(rest, version, i - 1);
        if programs[0].0@ != version {
            if forall|k: int| 0 <= k < programs.len() ==> (#[trigger] programs[k]).0@ != version {
                assert forall|k: int| 0 <= k < rest.len() implies (#[trigger] rest[k]).0@ != version by {
                    assert(rest[k] == programs[k + 1]);
                }
            }
            if program_for(programs, version) is None {
                assert forall|k: int| 0 <= k < programs.len() implies (#[trigger] programs[k]).0@ != version by {
                    if k > 0 {
                        assert(rest[k - 1] == programs[k]);
                    }
                }
            }
            if 0 <= i < programs.len() && programs[i].0@ == version && (forall|k: int|
                0 <= k < i ==> (#[trigger] programs[k]).0@ != version) {
                assert(rest[i - 1] == programs[i]);
                assert forall|k: int| 0 <= k < i - 1 implies (#[trigger] rest[k]).0@ != version by {
                    assert(rest[k] == programs[k + 1]);
                }
            }
        } else if 0 < i < programs.len() && (forall|k: int| 0 <= k < i ==> (#[trigger] programs[k]).0@ != version) {
            assert(programs[0].0@ != version);
        }
    }
}

/// A seed row whose address was free, and that no earlier seed row had, stands there
/// with the seed's own fields, and is listed as inserted.
pub proof fn law_seed_values(state: StateView, rows: Seq<(Seq<StepView>, FieldsView)>, i: int)
    requires
        0 <= i < rows.len(),
        !state.contains_key(rows[i].0),
        forall|j: int| 0 <= j < i ==> (#[trigger] rows[j]).0 != rows[i].0,
    ensures
        seeded(state, rows).0.contains_key(rows[i].0),
        seeded(state, rows).0[rows[i].0] == rows[i].1,
        seeded(state, rows).1.contains(rows[i].0),
    decreases rows.len(),
{
    let rest = rows.drop_last();
    let before = seeded(state, rest);
    let after = seeded(state, rows);
    if i < rest.len() {
        assert(rest[i] == rows[i]);
        assert forall|j: int| 0 <= j < i implies (#[trigger] rest[j]).0 != rest[i].0 by {
            assert(rest[j] == rows[j]);
        }
        law_seed_values(state, rest, i);
        let k = choose|k: int| 0 <= k < before.1.len() && before.1[k] == rows[i].0;
        assert(after.1[k] == rows[i].0);
    } else {
        lemma_not_seeded(state, rest, rows[i].0);
        assert(after.1[before.1.len() as int] == rows[i].0);
    }
}

proof fn lemma_not_seeded(state: StateView, rows: Seq<(Seq<StepView>, FieldsView)>, at: Seq<StepView>)
    requires
        !state.contains_key(at),
        forall|j: int| 0 <= j < rows.len() ==> (#[trigger] rows[j]).0 != at,
    ensures
        !seeded(state, rows).0.contains_key(at),
    decreases rows.len(),
{
    if rows.len() > 0 {
        let rest = rows.drop_last();
        assert forall|j: int| 0 <= j < rest.len() implies (#[trigger] rest[j]).0 != at by {
            assert(rest[j] == rows[j]);
        }
        lemma_not_seeded(state, rest, at);
        assert(rows[rows.len() - 1].0 != at);
    }
}

/// A seed brings no row but its own.
pub proof fn law_seed_only(state: StateView, rows: Seq<(Seq<StepView>, FieldsView)>, at: Seq<StepView>)
    requires
        !state.contains_key(at),
        forall|j: int| 0 <= j < rows.len() ==> (#[trigger] rows[j]).0 != at,
    ensures
        !seeded(state, rows).0.contains_key(at),
{
    lemma_not_seeded(state, rows, at);
}

/// The migrated state has exactly the rows that are part of the migration, each as the
/// state has it.
pub proof fn law_finished(migrated: Seq<Seq<StepView>>, progress: ProgressView, at: Seq<StepView>)
    ensures
        finished(migrated, progress).rows.contains_key(at) <==> progress.state.contains_key(at)
            && progress.rows.contains(at),
        finished(migrated, progress).rows.contains_key(at) ==> finished(migrated, progress).rows[at]
            == progress.state[at],
        finished(migrated, progress).divergent == progress.divergent,
{
}

/// The field that refuses a downgrade has a value, and the older shape neither keeps it
/// nor reads it; where no field does, none is refused.
pub proof fn law_lost_field(
    fields: Seq<CompiledField>,
    target: Option<CompiledCollection>,
    plan: CollectionPlan,
    rows: Seq<CapturedRow>,
)
    ensures
        first_lost_field(fields, target, plan, rows) matches Some(name) ==> populated(rows, name) && !keeps_field(
            target,
            name,
        ) && !reconstructed(plan.fields, name) && exists|i: int|
            0 <= i < fields.len() && (#[trigger] fields[i]).name@ == name,
        first_lost_field(fields, target, plan, rows) is None <==> forall|i: int|
            0 <= i < fields.len() ==> !populated(rows, (#[trigger] fields[i]).name@) || keeps_field(
                target,
                fields[i].name@,
            ) || reconstructed(plan.fields, fields[i].name@),
    decreases fields.len(),
{
    if fields.len() > 0 {
        let rest = fields.drop_first();
        law_lost_field(rest, target, plan, rows);
        if let Some(name) = first_lost_field(rest, target, plan, rows) {
            let i = choose|i: int| 0 <= i < rest.len() && (#[trigger] rest[i]).name@ == name;
            assert(fields[i + 1] == rest[i]);
        }
        if first_lost_field(fields, target, plan, rows) is None {
            assert forall|i: int| 0 <= i < fields.len() implies !populated(rows, (#[trigger] fields[i]).name@)
                || keeps_field(target, fields[i].name@) || reconstructed(plan.fields, fields[i].name@) by {
                if i > 0 {
                    assert(rest[i - 1] == fields[i]);
                }
            }
        } else if forall|i: int|
            0 <= i < fields.len() ==> !populated(rows, (#[trigger] fields[i]).name@) || keeps_field(
                target,
                fields[i].name@,
            ) || reconstructed(plan.fields, fields[i].name@) {
            assert(!populated(rows, fields[0].name@) || keeps_field(target, fields[0].name@) || reconstructed(
                plan.fields,
                fields[0].name@,
            ));
            assert forall|i: int| 0 <= i < rest.len() implies !populated(rows, (#[trigger] rest[i]).name@)
                || keeps_field(target, rest[i].name@) || reconstructed(plan.fields, rest[i].name@) by {
                assert(rest[i] == fields[i + 1]);
            }
        }
    }
}

/// An accepted downgrade of a whole state loses no collection's rows and no root
/// member: every captured collection can be represented, and every root member that has
/// a value is kept or read by a mapping.
pub proof fn law_state_kept(
    active: Compiled,
    active_members: Seq<Seq<char>>,
    state: StateSection,
    target: Compiled,
    target_members: Seq<Seq<char>>,
    plan: PlanView,
    k: int,
    name: Seq<char>,
)
    requires
        state_representable(active, active_members, state, target, target_members, plan) is Ok,
    ensures
        0 <= k < state.collections@.len() ==> (active.top(state.collections@[k].0@) matches Some(c) ==> representable(
            c,
            target.top(state.collections@[k].0@),
            plan_for(plan.collections, state.collections@[k].0@),
            state.collections@[k].1@,
        ) is Ok),
        state.singleton matches Some(row) ==> (active_members.contains(name) && row@.contains_key(name) && !(
        row@[name] is Absent) ==> target_members.contains(name) || exists|t: Seq<char>| #[trigger]
            plan.singleton_fields.contains_key(t) && plan.singleton_fields[t].from == name),
{
    if 0 <= k < state.collections@.len() {
        lemma_collections_kept(active, target, plan, state.collections@, state.collections@.len() as int, k);
    }
    if let Some(row) = state.singleton {
        if active_members.contains(name) {
            let i = choose|i: int| 0 <= i < active_members.len() && active_members[i] == name;
            lemma_members_kept(active_members, target_members, plan, row@, i);
        }
    }
}

proof fn lemma_collections_kept(
    active: Compiled,
    target: Compiled,
    plan: PlanView,
    entries: Seq<(String, Vec<CapturedRow>)>,
    n: int,
    k: int,
)
    requires
        0 <= k < n <= entries.len(),
        collections_representable(active, target, plan, entries, n) is Ok,
    ensures
        active.top(entries[k].0@) matches Some(c) ==> representable(
            c,
            target.top(entries[k].0@),
            plan_for(plan.collections, entries[k].0@),
            entries[k].1@,
        ) is Ok,
    decreases n,
{
    if k < n - 1 {
        lemma_collections_kept(active, target, plan, entries, n - 1, k);
    }
}

proof fn lemma_members_kept(members: Seq<Seq<char>>, kept: Seq<Seq<char>>, plan: PlanView, row: FieldsView, i: int)
    requires
        0 <= i < members.len(),
        first_lost_member(members, kept, plan, row) is None,
    ensures
        holds_value(row, members[i]) ==> kept.contains(members[i]) || reconstructed(plan.singleton_fields, members[i]),
    decreases members.len(),
{
    if i > 0 {
        assert(members.drop_first()[i - 1] == members[i]);
        lemma_members_kept(members.drop_first(), kept, plan, row, i - 1);
    }
}

proof fn lemma_inverse_added(
    base: Map<Seq<char>, FieldPlan>,
    fields: Map<Seq<char>, FieldPlan>,
    names: Seq<Seq<char>>,
    from: Seq<char>,
)
    requires
        !base.contains_key(from),
    ensures
        with_inverses(base, fields, names).contains_key(from) <==> exists|i: int|
            0 <= i < names.len() && fields[#[trigger] names[i]].from == from && fields[names[i]].back is Some,
        with_inverses(base, fields, names).contains_key(from) ==> exists|i: int|
            0 <= i < names.len() && fields[#[trigger] names[i]].from == from && fields[names[i]].back is Some
                && with_inverses(base, fields, names)[from] == (FieldPlan {
                from: names[i],
                transform: fields[names[i]].back,
                back: None,
            }),
    decreases names.len(),
{
    if names.len() > 0 {
        let rest = names.drop_last();
        lemma_inverse_added(base, fields, rest, from);
        assert(names[names.len() - 1] == names.last());
        let before = with_inverses(base, fields, rest);
        let after = with_inverses(base, fields, names);
        if before.contains_key(from) {
            let i = choose|i: int|
                0 <= i < rest.len() && fields[#[trigger] rest[i]].from == from && fields[rest[i]].back is Some
                    && before[from] == (FieldPlan { from: rest[i], transform: fields[rest[i]].back, back: None });
            assert(names[i] == rest[i]);
            assert(fields[names[i]].from == from);
        } else {
            if exists|i: int|
                0 <= i < names.len() && fields[#[trigger] names[i]].from == from && fields[names[i]].back is Some {
                let i = choose|i: int|
                    0 <= i < names.len() && fields[#[trigger] names[i]].from == from && fields[names[i]].back is Some;
                if i < rest.len() {
                    assert(rest[i] == names[i]);
                }
            }
            if after.contains_key(from) {
                assert(fields[names[names.len() - 1]].from == from);
            }
        }
    }
}

/// A downgrade reads a field that the target has no mapping for back through the
/// inverse of the active mapping that came from it, where there is one, and through no
/// other.
pub proof fn law_downgrade_inverts(target: PlanView, active: PlanView, collection: Seq<char>, from: Seq<char>)
    requires
        active.collections.contains_key(collection),
        active.collections[collection].fields.dom().finite(),
        !plan_for(target.collections, collection).fields.contains_key(from),
        downgraded(target, active).collections.contains_key(collection),
    ensures
        ({
            let mine = active.collections[collection].fields;
            let down = downgraded(target, active).collections[collection].fields;
            &&& down.contains_key(from) <==> exists|a: Seq<char>| #[trigger]
                mine.contains_key(a) && mine[a].from == from && mine[a].back is Some
            &&& down.contains_key(from) ==> down[from].back is None && mine.contains_key(down[from].from)
                && mine[down[from].from].from == from && down[from].transform == mine[down[from].from].back
        }),
{
    let base = plan_for(target.collections, collection).fields;
    let mine = active.collections[collection].fields;
    let names = sorted::<String>(mine.dom());
    lemma_sorted_exists::<String>(mine.dom());
    lemma_inverse_added(base, mine, names, from);
    let down = downgraded(target, active).collections[collection].fields;
    assert(down == with_inverses(base, mine, names));
    if exists|a: Seq<char>| #[trigger] mine.contains_key(a) && mine[a].from == from && mine[a].back is Some {
        let a = choose|a: Seq<char>| #[trigger] mine.contains_key(a) && mine[a].from == from && mine[a].back is Some;
        assert(names.to_set().contains(a));
        let i = choose|i: int| 0 <= i < names.len() && names[i] == a;
        assert(mine[names[i]].from == from);
    }
    if down.contains_key(from) {
        let i = choose|i: int|
            0 <= i < names.len() && mine[#[trigger] names[i]].from == from && mine[names[i]].back is Some && down[from]
                == (FieldPlan { from: names[i], transform: mine[names[i]].back, back: None });
        assert(names.to_set().contains(names[i]));
        assert(mine.contains_key(names[i]));
    }
}

/// A field the instance left as the package seeded it takes the new seed's value, or
/// goes where the new seed has none; one it changed keeps what it was changed to.
pub proof fn law_seed_field(old_seed: FieldsView, new_seed: FieldsView, current: FieldsView, name: Seq<char>)
    ensures
        held(current, name) == held(old_seed, name) ==> held(row_merged(old_seed, new_seed, current), name) == held(
            new_seed,
            name,
        ),
        held(current, name) != held(old_seed, name) ==> held(row_merged(old_seed, new_seed, current), name) == held(
            current,
            name,
        ),
        current.contains_key(name) ==> held(current, name) == Some(current[name]),
        !current.contains_key(name) ==> held(current, name) is None,
{
}

/// At every depth of a downgrade, a field that the target maps keeps its mapping, and one
/// that it does not map comes back from a field that came from it with an inverse,
/// through that inverse, if there is one.
pub proof fn law_inverted_fields(target: CollectionPlan, active: CollectionPlan, from: Seq<char>, child: Seq<char>)
    requires
        active.fields.dom().finite(),
        !target.fields.contains_key(from),
    ensures
        ({
            let down = inverted(target, active).fields;
            &&& down.contains_key(from) <==> exists|a: Seq<char>| #[trigger]
                active.fields.contains_key(a) && active.fields[a].from == from && active.fields[a].back is Some
            &&& down.contains_key(from) ==> down[from].back is None && active.fields.contains_key(down[from].from)
                && active.fields[down[from].from].from == from && down[from].transform
                == active.fields[down[from].from].back
        }),
        active.children.contains_key(child) && inverted(target, active).children.contains_key(child) ==> inverted(
            target,
            active,
        ).children[child] == inverted(plan_for(target.children, child), active.children[child]),
        !active.children.contains_key(child) && target.children.contains_key(child) ==> inverted(target, active).children[child]
            == target.children[child],
        target.children.contains_key(child) ==> inverted(target, active).children.contains_key(child),
{
    let names = sorted::<String>(active.fields.dom());
    lemma_sorted_exists::<String>(active.fields.dom());
    lemma_inverse_added(target.fields, active.fields, names, from);
    let mine = active.fields;
    let down = inverted(target, active).fields;
    assert(down == with_inverses(target.fields, mine, names));
    if exists|a: Seq<char>| #[trigger] mine.contains_key(a) && mine[a].from == from && mine[a].back is Some {
        let a = choose|a: Seq<char>| #[trigger] mine.contains_key(a) && mine[a].from == from && mine[a].back is Some;
        assert(names.to_set().contains(a));
        let i = choose|i: int| 0 <= i < names.len() && names[i] == a;
        assert(mine[names[i]].from == from);
    }
    if down.contains_key(from) {
        let i = choose|i: int|
            0 <= i < names.len() && mine[#[trigger] names[i]].from == from && mine[names[i]].back is Some && down[from] == (
            FieldPlan { from: names[i], transform: mine[names[i]].back, back: None });
        assert(names.to_set().contains(names[i]));
        assert(mine.contains_key(names[i]));
    }
}

} // verus!
