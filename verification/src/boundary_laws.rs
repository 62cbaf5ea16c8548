//! What moves, assignments, downgrades and bindings do not do: what they leave alone,
//! and what they refuse.

use crate::address::{below, law_reroot, leads, names_of, rerooted, StepView};
use crate::captured::CapturedRow;
use crate::cell::CellView;
use crate::coerce::{keyed_row, move_order, own_key, put_back, rekeyed, relocations, some_keyless};
use crate::copy::members_written;
use crate::doc::Doc;
use crate::downgrade::{first_lost_member, first_lost_struct, holds_value, keeps_struct, populated, reconstructed};
use crate::execution::{
    assigned_value, containers_filled, defaults_filled, field_value, patch_executed, rows_patched, Fit, PatchPlanView,
    StructMember,
};
use crate::host::{contracts_bound, Requirement};
use crate::inbound::{field_rewritten, Move};
use crate::lifecycle::{argument, axes, ArgsView, ArgumentView};
use crate::lineage::{chain, entry_at, CursorView};
use crate::meter::{text_members, texts_within, CompiledMeter};
use crate::metering_laws::law_rows_on;
use crate::migration_laws::{law_last_written, law_written};
use crate::model::{at_path, field_named, name_view, named, Compiled, CompiledCollection, CompiledField, CompiledStruct};
use crate::operators::{operand_names, ModuleOperator};
use crate::plan::{CollectionPlan, PlanView};
use crate::program::{key_in, placed, subtree_moved, ProgramView, TargetView};
use crate::refs::{carried, redirected};
use crate::rejection::{Rejection, RejectionReason, RejectionView};
use crate::run::{program_run, unparsed, Step};
use crate::space::{first_untold, mount_path, mounted, told, TextStep};
use crate::spending::{capacity_checks, rows_on};
use crate::state::{FieldsView, StateView};
use crate::slots::slot_of;
use crate::syntax::Expr;
use crate::target::{assigned, field_selected, key_selected, located, selected, AssignView, LocView, Place};
use crate::text::{digits_value, is_digits, position_of, split, texts};
use crate::update::{last_gates, Preparation};
use crate::value::{Value, ValueView};
use crate::version::version_of;
use vstd::prelude::*;

verus! {

/// A capacity is checked only of a meter that limits, and only at a row that its
/// collection has.
pub proof fn law_only_limiting(meters: Seq<CompiledMeter>, state: StateView, n: int, m: CompiledMeter, at: Seq<StepView>)
    requires
        state.dom().finite(),
        0 <= n <= meters.len(),
        capacity_checks(meters, state, n).contains((m, at)),
    ensures
        m.limiting,
        state.contains_key(at),
        names_of(at) == texts(m.path@),
        exists|i: int| 0 <= i < n && #[trigger] meters[i] == m,
    decreases n,
{
    if n > 0 {
        let before = capacity_checks(meters, state, n - 1);
        let all = capacity_checks(meters, state, n);
        let i = choose|i: int| 0 <= i < all.len() && all[i] == (m, at);
        if i < before.len() {
            assert(before[i] == (m, at));
            law_only_limiting(meters, state, n - 1, m, at);
            let k = choose|k: int| 0 <= k < n - 1 && #[trigger] meters[k] == m;
            assert(meters[k] == m);
        } else {
            let rows = rows_on(state, texts(meters[n - 1].path@));
            assert(meters[n - 1] == m);
            assert(rows[i - before.len()] == at);
            assert(rows.contains(at));
            law_rows_on(state, texts(m.path@), at);
        }
    }
}

/// A pack asks for what its arguments name: a version by text, an instant by timestamp,
/// and a span of history by a period; without them it asks for none.
pub proof fn law_axes(args: ArgsView, t: Seq<char>, at: crate::time::Timestamp)
    ensures
        argument(args, "model"@) == Some(ArgumentView::Value(ValueView::Text(t))) ==> axes(args).model == Some(t),
        argument(args, "model"@) is None ==> axes(args).model is None,
        argument(args, "data"@) == Some(ArgumentView::Value(ValueView::Timestamp(at))) ==> axes(args).data == Some(at),
        argument(args, "data"@) is None ==> axes(args).data is None,
        axes(args).history <==> (argument(args, "history"@) matches Some(ArgumentView::Period(_, _))),
{
}

/// A space is mounted under the rows of its steps by their collections and key texts; a
/// step without a key text mounts nothing.
pub proof fn law_mounted(steps: Seq<TextStep>, rendered: Seq<char>, declaration: Seq<char>, i: int)
    ensures
        mounted(steps, rendered, declaration) is Ok ==> mounted(steps, rendered, declaration)->Ok_0 == mount_path(
            told(steps),
            declaration,
        ),
        0 <= i < steps.len() && steps[i].key is Ok ==> told(steps)[i] == (steps[i].collection@, steps[i].key->Ok_0@),
        first_untold(steps) is None <==> forall|k: int| 0 <= k < steps.len() ==> (#[trigger] steps[k]).key is Ok,
        0 <= i < steps.len() && steps[i].key is Err ==> mounted(steps, rendered, declaration) is Err,
    decreases steps.len(),
{
    if steps.len() > 0 {
        let rest = steps.drop_first();
        law_mounted(rest, rendered, declaration, i - 1);
        assert forall|k: int| 0 <= k < rest.len() implies #[trigger] rest[k] == steps[k + 1] by {}
        if first_untold(steps) is None {
            assert forall|k: int| 0 <= k < steps.len() implies (#[trigger] steps[k]).key is Ok by {
                if k > 0 {
                    assert(rest[k - 1] == steps[k]);
                }
            }
        } else if forall|k: int| 0 <= k < steps.len() ==> (#[trigger] steps[k]).key is Ok {
            assert(steps[0].key is Ok);
            assert forall|k: int| 0 <= k < rest.len() implies (#[trigger] rest[k]).key is Ok by {
                assert(rest[k] == steps[k + 1]);
            }
        }
    }
}

/// The strict discipline binds requirements if and only if each can be read and is
/// provided.
pub proof fn law_strict(wanted: Seq<Requirement>, n: nat)
    requires
        n <= wanted.len(),
    ensures
        contracts_bound(wanted, true, n) is Ok <==> forall|k: int|
            0 <= k < n ==> (#[trigger] wanted[k]).contract is Ok && wanted[k].provided is Ok,
    decreases n,
{
    if n > 0 {
        law_strict(wanted, (n - 1) as nat);
        if contracts_bound(wanted, true, n) is Ok {
            assert forall|k: int| 0 <= k < n implies (#[trigger] wanted[k]).contract is Ok && wanted[k].provided is Ok by {
                if k < n - 1 {
                }
            }
        } else if forall|k: int| 0 <= k < n ==> (#[trigger] wanted[k]).contract is Ok && wanted[k].provided is Ok {
            assert(wanted[n - 1].contract is Ok);
        }
    }
}

/// A text names a position if and only if it is digits that fit, with or without a plus
/// sign before them; then the position is the number.
pub proof fn law_position_of(digits: Seq<char>)
    requires
        digits.len() > 0 ==> digits[0] != '+',
    ensures
        position_of(digits) is Some <==> is_digits(digits) && digits_value(digits) <= u64::MAX,
        position_of(digits) matches Some(n) ==> n == digits_value(digits),
        position_of(seq!['+'] + digits) == position_of(digits),
{
    assert((seq!['+'] + digits).skip(1) =~= digits);
}

/// A static struct is lost by a downgrade if and only if rows hold it and the target
/// neither keeps it nor takes it back.
pub proof fn law_lost_struct(
    structs: Seq<CompiledStruct>,
    target: Option<CompiledCollection>,
    plan: CollectionPlan,
    rows: Seq<CapturedRow>,
)
    ensures
        first_lost_struct(structs, target, plan, rows) is None <==> forall|i: int|
            0 <= i < structs.len() ==> !populated(rows, (#[trigger] structs[i]).name@) || keeps_struct(
                target,
                structs[i].name@,
            ) || reconstructed(plan.fields, structs[i].name@),
        first_lost_struct(structs, target, plan, rows) matches Some(name) ==> populated(rows, name) && !keeps_struct(
            target,
            name,
        ) && !reconstructed(plan.fields, name),
    decreases structs.len(),
{
    if structs.len() > 0 {
        let rest = structs.drop_first();
        law_lost_struct(rest, target, plan, rows);
        assert forall|k: int| 0 <= k < rest.len() implies #[trigger] rest[k] == structs[k + 1] by {}
        if first_lost_struct(structs, target, plan, rows) is None {
            assert forall|i: int| 0 <= i < structs.len() implies !populated(rows, (#[trigger] structs[i]).name@)
                || keeps_struct(target, structs[i].name@) || reconstructed(plan.fields, structs[i].name@) by {
                if i > 0 {
                    assert(rest[i - 1] == structs[i]);
                }
            }
        } else if forall|i: int|
            0 <= i < structs.len() ==> !populated(rows, (#[trigger] structs[i]).name@) || keeps_struct(
                target,
                structs[i].name@,
            ) || reconstructed(plan.fields, structs[i].name@) {
            let first = structs[0];
            assert forall|i: int| 0 <= i < rest.len() implies !populated(rows, (#[trigger] rest[i]).name@) || keeps_struct(
                target,
                rest[i].name@,
            ) || reconstructed(plan.fields, rest[i].name@) by {
                assert(rest[i] == structs[i + 1]);
            }
        }
    }
}

/// A root member is lost by a downgrade if and only if the root holds a value of it and
/// the target neither keeps it nor takes it back.
pub proof fn law_lost_member(members: Seq<Seq<char>>, kept: Seq<Seq<char>>, plan: PlanView, row: FieldsView)
    ensures
        first_lost_member(members, kept, plan, row) is None <==> forall|i: int|
            0 <= i < members.len() ==> !holds_value(row, #[trigger] members[i]) || kept.contains(members[i])
                || reconstructed(plan.singleton_fields, members[i]),
    decreases members.len(),
{
    if members.len() > 0 {
        let rest = members.drop_first();
        law_lost_member(rest, kept, plan, row);
        assert forall|k: int| 0 <= k < rest.len() implies #[trigger] rest[k] == members[k + 1] by {}
        if first_lost_member(members, kept, plan, row) is None {
            assert forall|i: int| 0 <= i < members.len() implies !holds_value(row, #[trigger] members[i])
                || kept.contains(members[i]) || reconstructed(plan.singleton_fields, members[i]) by {
                if i > 0 {
                    assert(rest[i - 1] == members[i]);
                }
            }
        } else if forall|i: int|
            0 <= i < members.len() ==> !holds_value(row, #[trigger] members[i]) || kept.contains(members[i])
                || reconstructed(plan.singleton_fields, members[i]) {
            let first = members[0];
            assert forall|i: int| 0 <= i < rest.len() implies !holds_value(row, #[trigger] rest[i]) || kept.contains(rest[i])
                || reconstructed(plan.singleton_fields, rest[i]) by {
                assert(rest[i] == members[i + 1]);
            }
        }
    }
}

/// An object has the text members it has, and anything else has none.
pub proof fn law_texts_within(doc: Doc, members: Vec<(String, Doc)>)
    ensures
        doc == Doc::Object(members) ==> texts_within(doc) == text_members(members@),
        !(doc is Object) ==> texts_within(doc).len() == 0,
{
}

/// Each operator takes the module first; an update then takes what it goes onto, and a
/// rollback the point it goes to.
pub proof fn law_operand_names(operator: ModuleOperator)
    ensures
        operator == ModuleOperator::Pack ==> operand_names(operator) == seq!["module"@],
        operator == ModuleOperator::UpdateModule ==> operand_names(operator) == seq!["module"@, "onto"@],
        operator == ModuleOperator::Rollback ==> operand_names(operator) == seq!["module"@, "point"@],
{
}

/// A row that moves takes its subtree along: the row is at its new address with its
/// fields, each row below it is below the new address with what it held, nothing is left
/// at the old one, and every row elsewhere stays.
pub proof fn law_subtree_moved(
    state: StateView,
    old_at: Seq<StepView>,
    new_at: Seq<StepView>,
    row: FieldsView,
    a: Seq<StepView>,
)
    requires
        !leads(old_at, new_at),
        !leads(new_at, old_at),
    ensures
        ({
            let after = subtree_moved(state, old_at, new_at, row);
            &&& after.contains_key(new_at) && after[new_at] == row
            &&& !after.contains_key(old_at)
            &&& below(old_at, a) ==> !after.contains_key(a)
            &&& below(old_at, a) && state.contains_key(a) ==> after.contains_key(rerooted(new_at, a, old_at.len()))
                && after[rerooted(new_at, a, old_at.len())] == state[a]
            &&& a != old_at && a != new_at && !below(old_at, a) && !below(new_at, a) ==> (after.contains_key(a)
                <==> state.contains_key(a)) && (state.contains_key(a) ==> after[a] == state[a])
        }),
{
    let after = subtree_moved(state, old_at, new_at, row);
    assert(leads(old_at, old_at)) by {
        assert(old_at.take(old_at.len() as int) =~= old_at);
    }
    if below(old_at, a) {
        if a == new_at {
            assert(leads(old_at, new_at));
        }
        if below(new_at, a) {
            if old_at.len() <= new_at.len() {
                assert(new_at.take(old_at.len() as int) =~= a.take(old_at.len() as int));
            } else {
                assert(old_at.take(new_at.len() as int) =~= a.take(new_at.len() as int));
            }
        }
        law_reroot(old_at, new_at, a);
        let r = rerooted(new_at, a, old_at.len());
        assert(below(new_at, r));
        assert(rerooted(old_at, r, new_at.len()) == a);
        if r == new_at {
            assert(r.len() > new_at.len());
        }
    }
}

/// A migration program runs if and only if every statement of it parses; the first that
/// does not refuses it.
pub proof fn law_unparsed(parsed: Seq<Result<(), String>>)
    ensures
        unparsed(parsed) is None <==> forall|k: int| 0 <= k < parsed.len() ==> (#[trigger] parsed[k]) is Ok,
    decreases parsed.len(),
{
    if parsed.len() > 0 {
        let rest = parsed.drop_last();
        law_unparsed(rest);
        assert(parsed[parsed.len() - 1] == parsed.last());
        assert forall|k: int| 0 <= k < rest.len() implies #[trigger] rest[k] == parsed[k] by {}
        if unparsed(parsed) is None {
            assert forall|k: int| 0 <= k < parsed.len() implies (#[trigger] parsed[k]) is Ok by {
                if k < rest.len() {
                    assert(rest[k] == parsed[k]);
                }
            }
        } else if forall|k: int| 0 <= k < parsed.len() ==> (#[trigger] parsed[k]) is Ok {
            assert forall|k: int| 0 <= k < rest.len() implies (#[trigger] rest[k]) is Ok by {
                assert(rest[k] == parsed[k]);
            }
            assert(parsed[parsed.len() - 1] is Ok);
        }
    }
}

/// A program that does not parse is refused, whatever its steps are.
pub proof fn law_unparsed_refused(target: Compiled, parsed: Seq<Result<(), String>>, state: StateView, drawn: nat, steps: Vec<Step>, k: int)
    requires
        0 <= k < parsed.len(),
        parsed[k] is Err,
    ensures
        program_run(target, parsed, state, drawn, steps) is Err,
{
    law_unparsed(parsed);
}

/// Writing root members changes the root row only, and of it only the written members.
pub proof fn law_members_written(
    state: StateView,
    writes: Seq<(String, Result<Value, Rejection>)>,
    reserved: Seq<StepView>,
    name: Seq<char>,
    i: int,
    a: Seq<StepView>,
)
    ensures
        members_written(state, writes, reserved) is Ok <==> forall|k: int|
            0 <= k < writes.len() ==> (#[trigger] writes[k]).1 is Ok,
        members_written(state, writes, reserved) matches Ok(after) ==> {
            &&& a != reserved ==> (after.contains_key(a) <==> state.contains_key(a)) && (state.contains_key(a) ==> after[a]
                == state[a])
            &&& state.contains_key(reserved) && state[reserved].contains_key(name) && (forall|k: int|
                0 <= k < writes.len() ==> (#[trigger] writes[k]).0@ != name) ==> after.contains_key(reserved)
                && after[reserved].contains_key(name) && after[reserved][name] == state[reserved][name]
            &&& 0 <= i < writes.len() && (forall|k: int| i < k < writes.len() ==> (#[trigger] writes[k]).0@ != writes[i].0@)
                ==> after.contains_key(reserved) && after[reserved].contains_key(writes[i].0@)
                && after[reserved][writes[i].0@] == writes[i].1->Ok_0@
        },
{
    let row = if state.contains_key(reserved) {
        state[reserved]
    } else {
        Map::empty()
    };
    let n = writes.len() as int;
    law_written(row, writes, n, name);
    if members_written(state, writes, reserved) is Ok && 0 <= i < n && (forall|k: int|
        i < k < n ==> (#[trigger] writes[k]).0@ != writes[i].0@) {
        law_last_written(row, writes, n, i);
    }
}

/// A bare name assigns a local. At the root a plain member that is a root member is
/// assigned as one; anywhere else, and under another base, a place is a collection or a
/// field of a row.
pub proof fn law_assigned(
    compiled: Compiled,
    p: ProgramView,
    singletons: Seq<Seq<char>>,
    place: Place,
    name: String,
    loc: LocView,
    row: TargetView,
    field: Seq<char>,
)
    ensures
        assigned(compiled, p, singletons, Place::Name(name)) == Ok::<AssignView, RejectionView>(AssignView::Local(name@)),
        p.receiver is None && singletons.contains(name@) ==> assigned(
            compiled,
            p,
            singletons,
            Place::Member(Box::new(Place::Receiver), name),
        ) == Ok::<AssignView, RejectionView>(AssignView::Singleton(name@)),
        assigned(compiled, p, singletons, place) matches Ok(AssignView::Singleton(member)) ==> p.receiver is None
            && singletons.contains(member) && (place matches Place::Member(base, m) && m@ == member && *base is Receiver),
        !(place is Name) && !(p.receiver is None && (place matches Place::Member(base, m) && *base is Receiver
            && singletons.contains(m@))) && located(compiled, p, place) == Ok::<Option<LocView>, RejectionView>(Some(loc))
            ==> assigned(compiled, p, singletons, place) == Ok::<AssignView, RejectionView>(AssignView::Collection(loc)),
        !(place is Name) && !(p.receiver is None && (place matches Place::Member(base, m) && *base is Receiver
            && singletons.contains(m@))) && located(compiled, p, place) == Ok::<Option<LocView>, RejectionView>(None)
            && field_selected(compiled, p, place) == Ok::<Option<(TargetView, Seq<char>)>, RejectionView>(
            Some((row, field)),
        ) ==> assigned(compiled, p, singletons, place) == Ok::<AssignView, RejectionView>(AssignView::Field(row, field)),
{
}

/// Rows are rekeyed if and only if each that takes part has a key and none is put where
/// another row is.
pub proof fn law_rekeyed(compiled: Compiled, state: StateView, listed: Seq<Seq<StepView>>)
    ensures
        rekeyed(compiled, state, listed) is Ok <==> !some_keyless(compiled, state, listed) && put_back(
            state.remove_keys(relocations(compiled, state, listed).dom()),
            state,
            relocations(compiled, state, listed),
            move_order(relocations(compiled, state, listed)),
        ) is Ok,
{
}

/// The entry of a lineage names the one it branched off and where; the first has no
/// origin. The last is at the point of the cursor, and each before it ends where the next
/// begins.
pub proof fn law_entry_at(c: CursorView, i: int, p: u64)
    requires
        0 <= i < chain(c).len(),
    ensures
        entry_at(c, i).lineage == chain(c)[i].lineage,
        i == 0 ==> entry_at(c, i).origin is None,
        i > 0 && chain(c)[i].origin == Some(p) ==> entry_at(c, i).origin == Some((chain(c)[i - 1].lineage, p)),
        i == chain(c).len() - 1 ==> entry_at(c, i).head == c.point,
        i < chain(c).len() - 1 && chain(c)[i + 1].origin == Some(p) ==> entry_at(c, i).head == p,
{
}

/// A field that refers to no row of the moved collection is left alone, and no move
/// changes another field.
pub proof fn law_other_references(field: CompiledField, row: FieldsView, m: Move, other: Seq<char>)
    ensures
        name_view(field.reference) != Some(m.target) && name_view(field.element_reference) != Some(m.target)
            ==> field_rewritten(field, row, m) == row,
        !row.contains_key(field.name@) ==> field_rewritten(field, row, m) == row,
        other != field.name@ ==> (field_rewritten(field, row, m).contains_key(other) <==> row.contains_key(other)) && (
        row.contains_key(other) ==> field_rewritten(field, row, m)[other] == row[other]),
{
}

/// An update whose namespaces cannot be bound again, or whose ring policies fail, does
/// not pass its last gates.
pub proof fn law_last_gates(p: Preparation)
    ensures
        last_gates(p) is Ok <==> p.rebind is Ok && p.policy is Ok,
{
}

/// The field of a name is the first that has it.
pub proof fn law_field_found(fields: Seq<CompiledField>, name: Seq<char>, i: int)
    ensures
        field_named(fields, name) is None <==> forall|k: int| 0 <= k < fields.len() ==> (#[trigger] fields[k]).name@ != name,
        0 <= i < fields.len() && fields[i].name@ == name && (forall|k: int| 0 <= k < i ==> (#[trigger] fields[k]).name@ != name)
            ==> field_named(fields, name) == Some(fields[i]),
    decreases fields.len(),
{
    if fields.len() > 0 {
        let rest = fields.drop_first();
        law_field_found(rest, name, i - 1);
        assert forall|k: int| 0 <= k < rest.len() implies #[trigger] rest[k] == fields[k + 1] by {}
        if field_named(fields, name) is None {
            assert forall|k: int| 0 <= k < fields.len() implies (#[trigger] fields[k]).name@ != name by {
                if k > 0 {
                    assert(rest[k - 1] == fields[k]);
                }
            }
        } else if forall|k: int| 0 <= k < fields.len() ==> (#[trigger] fields[k]).name@ != name {
            assert forall|k: int| 0 <= k < rest.len() implies (#[trigger] rest[k]).name@ != name by {
                assert(rest[k] == fields[k + 1]);
            }
        }
        if 0 < i < fields.len() && fields[i].name@ == name && (forall|k: int|
            0 <= k < i ==> (#[trigger] fields[k]).name@ != name) {
            assert(rest[i - 1] == fields[i]);
            assert forall|k: int| 0 <= k < i - 1 implies (#[trigger] rest[k]).name@ != name by {
                assert(rest[k] == fields[k + 1]);
            }
        }
    }
}

/// The collection of a name is the first that has it.
pub proof fn law_collection_found(collections: Seq<CompiledCollection>, name: Seq<char>, i: int)
    ensures
        named(collections, name) is None <==> forall|k: int|
            0 <= k < collections.len() ==> (#[trigger] collections[k]).name@ != name,
        0 <= i < collections.len() && collections[i].name@ == name && (forall|k: int|
            0 <= k < i ==> (#[trigger] collections[k]).name@ != name) ==> named(collections, name) == Some(collections[i]),
    decreases collections.len(),
{
    if collections.len() > 0 {
        let rest = collections.drop_first();
        law_collection_found(rest, name, i - 1);
        assert forall|k: int| 0 <= k < rest.len() implies #[trigger] rest[k] == collections[k + 1] by {}
        if named(collections, name) is None {
            assert forall|k: int| 0 <= k < collections.len() implies (#[trigger] collections[k]).name@ != name by {
                if k > 0 {
                    assert(rest[k - 1] == collections[k]);
                }
            }
        } else if forall|k: int| 0 <= k < collections.len() ==> (#[trigger] collections[k]).name@ != name {
            assert forall|k: int| 0 <= k < rest.len() implies (#[trigger] rest[k]).name@ != name by {
                assert(rest[k] == collections[k + 1]);
            }
        }
        if 0 < i < collections.len() && collections[i].name@ == name && (forall|k: int|
            0 <= k < i ==> (#[trigger] collections[k]).name@ != name) {
            assert(rest[i - 1] == collections[i]);
            assert forall|k: int| 0 <= k < i - 1 implies (#[trigger] rest[k]).name@ != name by {
                assert(rest[k] == collections[k + 1]);
            }
        }
    }
}

/// A row's own key is the one its fields give it by the key of its collection; a row of
/// no declared collection has none.
pub proof fn law_own_key(compiled: Compiled, state: StateView, at: Seq<StepView>)
    ensures
        compiled.at(names_of(at)) matches Some(c) ==> own_key(compiled, state, at) == key_in(texts(c.key@), state[at]),
        compiled.at(names_of(at)) is None ==> own_key(compiled, state, at) is None,
        keyed_row(compiled, state, at) <==> state.contains_key(at) && (compiled.at(names_of(at)) matches Some(c)
            && c.key@.len() > 0),
{
}

/// A patch of one row puts its normalized fields in place where the row exists, and is
/// refused where it does not.
pub proof fn law_patch_executed(
    compiled: Compiled,
    p: ProgramView,
    row: TargetView,
    normalized: Seq<Result<FieldsView, RejectionView>>,
    fields: FieldsView,
)
    requires
        normalized.len() > 0,
    ensures
        !p.state.contains_key(row.address) ==> (patch_executed(compiled, p, PatchPlanView::Single(row), normalized) matches Err(
            e,
        ) && e.reason == RejectionReason::MissingTarget),
        p.state.contains_key(row.address) && normalized[0] is Err ==> patch_executed(
            compiled,
            p,
            PatchPlanView::Single(row),
            normalized,
        ) is Err,
        p.state.contains_key(row.address) && normalized[0] == Ok::<FieldsView, RejectionView>(fields) ==> patch_executed(
            compiled,
            p,
            PatchPlanView::Single(row),
            normalized,
        ) == placed(compiled, p, row.address, row.path, fields),
{
}

/// A selection of several rows patches each that exists, one after the other, and passes
/// over one that does not.
pub proof fn law_rows_patched(
    compiled: Compiled,
    p: ProgramView,
    rows: Seq<TargetView>,
    normalized: Seq<Result<FieldsView, RejectionView>>,
    row: TargetView,
    fields: FieldsView,
    q: ProgramView,
)
    requires
        rows.len() == normalized.len(),
        rows_patched(compiled, p, rows, normalized) == Ok::<ProgramView, RejectionView>(q),
    ensures
        q.state.contains_key(row.address) ==> rows_patched(
            compiled,
            p,
            rows.push(row),
            normalized.push(Ok(fields)),
        ) == placed(compiled, q, row.address, row.path, fields),
        !q.state.contains_key(row.address) ==> rows_patched(compiled, p, rows.push(row), normalized.push(Ok(fields))) == Ok::<
            ProgramView,
            RejectionView,
        >(q),
{
    assert(rows.push(row).drop_last() =~= rows);
    assert(normalized.push(Ok::<FieldsView, RejectionView>(fields)).drop_last() =~= normalized);
}

/// A declared field takes a scalar as its type does, and one that is not declared takes
/// it as it is; a row of no declared collection takes none.
pub proof fn law_field_value(compiled: Compiled, row: TargetView, field: Seq<char>, v: ValueView, fit: Fit)
    ensures
        compiled.at(row.path) is None ==> field_value(compiled, row, field, CellView::Scalar(v), fit) is Err,
        compiled.at(row.path) matches Some(c) ==> {
            &&& field_named(c.fields@, field) is Some ==> field_value(compiled, row, field, CellView::Scalar(v), fit)
                == assigned_value(CellView::Scalar(v), fit, row.address, field)
            &&& field_named(c.fields@, field) is None ==> field_value(compiled, row, field, CellView::Scalar(v), fit)
                == assigned_value(CellView::Scalar(v), Fit::Stored, row.address, field)
        },
{
}

/// A member that is supplied keeps its value, whatever defaults there are.
pub proof fn law_supplied_stays(fields: FieldsView, members: Seq<StructMember>, name: Seq<char>)
    requires
        fields.contains_key(name),
    ensures
        defaults_filled(fields, members) matches Ok(filled) ==> filled.contains_key(name) && filled[name] == fields[name],
        containers_filled(fields, members).contains_key(name),
        containers_filled(fields, members)[name] == fields[name],
    decreases members.len(),
{
    if members.len() > 0 {
        law_supplied_stays(fields, members.drop_last(), name);
    }
}

/// A text names a version if and only if it is three positions parted by dots, which are
/// then its major, minor and patch.
pub proof fn law_version_of(text: Seq<char>)
    ensures
        version_of(text) is Some <==> split(text, '.').len() == 3 && position_of(split(text, '.')[0]) is Some && position_of(
            split(text, '.')[1],
        ) is Some && position_of(split(text, '.')[2]) is Some,
        version_of(text) matches Some(v) ==> position_of(split(text, '.')[0]) == Some(v.major) && position_of(
            split(text, '.')[1],
        ) == Some(v.minor) && position_of(split(text, '.')[2]) == Some(v.patch),
{
}

/// A destination is a slot if and only if it is one key of a plain member of a container.
pub proof fn law_slot_of(container: Expr, member: String, structural: bool, keys: Vec<Expr>, dest: Expr)
    ensures
        ({
            let base = Box::new(Expr::Field { base: Box::new(container), member, structural });
            slot_of(Expr::Keys { base, keys }) == (if keys@.len() == 1 && !structural {
                Some((container, member, keys@[0]))
            } else {
                None
            })
        }),
        !(dest is Keys) ==> slot_of(dest) is None,
{
}

/// A key selects a row of a collection wherever the caller's row lives, the collection is
/// declared, and the key is one of it.
pub proof fn law_selection_accepted(compiled: Compiled, p: ProgramView, base: Place, loc: LocView, value: Value)
    requires
        located(compiled, p, base) == Ok::<Option<LocView>, RejectionView>(Some(loc)),
        p.receiver matches Some(t) ==> p.state.contains_key(t.address),
        compiled.at(loc.decl) is Some,
    ensures
        selected(compiled, p, Place::Keyed(Box::new(base), Some(Ok(value)))) is Ok <==> key_selected(
            texts(compiled.at(loc.decl)->0.key@),
            value@,
        ) is Ok,
        selected(compiled, p, Place::Receiver) == Ok::<Option<TargetView>, RejectionView>(p.receiver),
        key_selected(seq![Seq::<char>::empty()], value@) == Ok::<Seq<ValueView>, RejectionView>(seq![value@]),
{
}

/// A path of names leads to the collection of the last name nested in that of the names
/// before it; a name that is not there leads nowhere.
pub proof fn law_at_path(collections: Seq<CompiledCollection>, path: Seq<Seq<char>>, name: Seq<char>)
    requires
        path.len() > 0,
    ensures
        at_path(collections, seq![name]) == named(collections, name),
        at_path(collections, path) matches Some(c) ==> at_path(collections, path.push(name)) == named(c.children@, name),
        at_path(collections, path) is None ==> at_path(collections, path.push(name)) is None,
    decreases path.len(),
{
    let longer = path.push(name);
    assert(longer[0] == path[0]);
    if let Some(c) = named(collections, path[0]) {
        if path.len() == 1 {
            assert(longer.drop_first() =~= seq![name]);
            reveal_with_fuel(at_path, 2);
        } else {
            let rest = path.drop_first();
            law_at_path(c.children@, rest, name);
            assert(longer.drop_first() =~= rest.push(name));
        }
    }
}

/// A move redirects the references to the moved row and no others: a reference stays a
/// reference, a bare key a bare key, and a value that names another row is not touched.
pub proof fn law_only_its_references(value: ValueView, key: ValueView, names: Seq<Seq<char>>, before: ValueView, after: ValueView)
    ensures
        redirected(value, names, before, after) is Some <==> value == before || (value is Ref && carried(
            names,
            *value->Ref_0,
        ) == before),
        carried(names, key) == before ==> redirected(ValueView::Ref(Box::new(key)), names, before, after) == Some(
            ValueView::Ref(Box::new(after)),
        ),
        !(value is Ref) && value == before ==> redirected(value, names, before, after) == Some(after),
{
}

} // verus!
