//! What declared policies, shown rows, outcomes and numerals keep to.

use crate::address::{names_of, step_before, StepView};
use crate::balance::{grafted, grafted_cell, grafted_cells, level_shown, meters_on, own_cells, pools_given, ExtraView};
use crate::calls::sign_call;
use crate::cell::{cell_named, CellView, RowView};
use crate::decimal::{is_decimal, unsigned};
use crate::doc::{member_of, Doc};
use crate::engine_laws::law_extras;
use crate::execution::{rows_left_patched, rows_patched};
use crate::funding::funding_rows;
use crate::hosting::{enabled_position, through_child, ChildView};
use crate::integer::integer_value;
use crate::keyring::{
    asked_once, asked_over, first_in, made_by, next_boundary, Asked, IssuedView, KeySpec, KeyState,
    KeyringErrorView, PolicyView, ProtectionClass, RingView,
};
use crate::keyring_view::{
    declared_policy, declared_schedule, declared_text, operations_in, row_ids, same_identities, snapshot_of,
    DeclaredDurations, KeyringSnapshot,
};
use crate::levels::{open_at, LevelWork};
use crate::locals::{local_shown, locals_shown, LocalBind};
use crate::materialize::ReadView;
use crate::meter::{limit_positions, limits_compiled, limits_of, read_positions, CompiledMeter, MeterView, MeterWork};
use crate::model::{named, struct_named, Compiled, CompiledCollection};
use crate::module_error::{input_fault, ModuleError, ModuleErrorView};
use crate::operators::{operator_called, operator_named};
use crate::outcome::{position_in, refusal_in, response_in, CallOutcome};
use crate::program::{ProgramView, TargetView};
use crate::rejection::{Rejection, RejectionReason, RejectionView};
use crate::spending::{
    children_collected, collected, compiled_ones, spend_found, with_meters, with_spend, CompiledMeters,
    MeteredCollection, MetersView,
};
use crate::state::{FieldsView, StateView};
use crate::statements::{role_of, rows_inserted, rows_left, MemberRole};
use crate::syntax::{Arg, Expr};
use crate::text::{digits_value, is_blank, is_digits, left_trimmed, right_trimmed, text_before};
use crate::time::{Duration, Timestamp};
use crate::update::EngineError;
use crate::value::{values_before, Value, ValueView};
use vstd::prelude::*;

verus! {

/// A ring's policy has the algorithm, the operations, the schedule, the retention and
/// the protection that its declaration gives; a declaration without an algorithm gives
/// none.
pub proof fn law_declared_policy(keyring: Doc, durations: DeclaredDurations, items: Vec<Doc>)
    ensures
        declared_policy(keyring, durations) is Some <==> declared_text(keyring, "$algorithm"@) is Some,
        declared_policy(keyring, durations) matches Some(p) ==> {
            &&& Some(p.algorithm) == declared_text(keyring, "$algorithm"@)
            &&& member_of(keyring, "$usage"@) == Some(Doc::List(items)) ==> p.usage == operations_in(items@)
            &&& member_of(keyring, "$usage"@) is None ==> p.usage.len() == 0
            &&& member_of(keyring, "$rotate"@) is None ==> p.rotate is None
            &&& member_of(keyring, "$rotate"@) matches Some(rotate) ==> p.rotate == declared_schedule(rotate, durations)
            &&& declared_text(keyring, "$retain"@) is None ==> p.retain is None
            &&& declared_text(keyring, "$retain"@) is Some ==> p.retain == durations.retain
            &&& declared_text(keyring, "$protection"@) == Some("software"@) ==> p.protection == Some(
                ProtectionClass::Software,
            )
            &&& declared_text(keyring, "$protection"@) == Some("hardware"@) ==> p.protection == Some(
                ProtectionClass::Hardware,
            )
            &&& declared_text(keyring, "$protection"@) is None ==> p.protection is None
        },
{
    reveal_strlit("software");
    reveal_strlit("hardware");
    assert("software"@[0] != "hardware"@[0]);
}

/// A provider makes a key of the ring's own algorithm, operations and protection.
pub proof fn law_made_by(spec: KeySpec, policy: PolicyView)
    requires
        made_by(spec, policy),
    ensures
        spec.algorithm@ == policy.algorithm,
        spec.operations@ == policy.usage,
        spec.protection == policy.protection,
{
}

/// Between a boundary and the next a ring that is late by one turns over once; before
/// its boundary it asks for nothing.
pub proof fn law_asked_over(
    ring: RingView,
    due: Timestamp,
    every: Duration,
    now: Timestamp,
    answers: Seq<Result<IssuedView, KeyringErrorView>>,
)
    ensures
        now.instant() < due.instant() ==> asked_over(ring, due, every, now, answers).len() == 0,
        due.instant() <= now.instant() < next_boundary(due, every).instant() && first_in(ring.versions, KeyState::Pending)
            is Some ==> asked_over(ring, due, every, now, answers) == asked_once(ring, answers),
        due.instant() <= now.instant() < next_boundary(due, every).instant() && first_in(ring.versions, KeyState::Pending)
            is None && answers.len() > 0 ==> asked_over(ring, due, every, now, answers) == asked_once(ring, answers),
{
    reveal_with_fuel(asked_over, 2);
    assert(asked_once(ring, answers) + Seq::<Asked>::empty() =~= asked_once(ring, answers));
}

/// The snapshot of rows is the first whose versions have just the identities of those
/// rows.
pub proof fn law_snapshot_of(snapshots: Seq<KeyringSnapshot>, base: Seq<RowView>, i: int)
    ensures
        snapshot_of(snapshots, base) is None <==> forall|k: int|
            0 <= k < snapshots.len() ==> !same_identities(
                row_ids(base),
                row_ids(crate::cell::row_views((#[trigger] snapshots[k]).rows@)),
            ),
        0 <= i < snapshots.len() && same_identities(row_ids(base), row_ids(crate::cell::row_views(snapshots[i].rows@))) && (
        forall|k: int|
            0 <= k < i ==> !same_identities(
                row_ids(base),
                row_ids(crate::cell::row_views((#[trigger] snapshots[k]).rows@)),
            )) ==> snapshot_of(snapshots, base) == Some(snapshots[i]),
    decreases snapshots.len(),
{
    if snapshots.len() > 0 {
        let rest = snapshots.drop_first();
        law_snapshot_of(rest, base, i - 1);
        assert forall|k: int| 0 <= k < rest.len() implies #[trigger] rest[k] == snapshots[k + 1] by {}
        if snapshot_of(snapshots, base) is None {
            assert forall|k: int| 0 <= k < snapshots.len() implies !same_identities(
                row_ids(base),
                row_ids(crate::cell::row_views((#[trigger] snapshots[k]).rows@)),
            ) by {
                if k > 0 {
                    assert(rest[k - 1] == snapshots[k]);
                }
            }
        } else if forall|k: int|
            0 <= k < snapshots.len() ==> !same_identities(
                row_ids(base),
                row_ids(crate::cell::row_views((#[trigger] snapshots[k]).rows@)),
            ) {
            assert forall|k: int| 0 <= k < rest.len() implies !same_identities(
                row_ids(base),
                row_ids(crate::cell::row_views((#[trigger] rest[k]).rows@)),
            ) by {
                assert(rest[k] == snapshots[k + 1]);
            }
        }
        if 0 < i < snapshots.len() && same_identities(row_ids(base), row_ids(crate::cell::row_views(snapshots[i].rows@))) && (
        forall|k: int|
            0 <= k < i ==> !same_identities(
                row_ids(base),
                row_ids(crate::cell::row_views((#[trigger] snapshots[k]).rows@)),
            )) {
            assert(rest[i - 1] == snapshots[i]);
            assert forall|k: int| 0 <= k < i - 1 implies !same_identities(
                row_ids(base),
                row_ids(crate::cell::row_views((#[trigger] rest[k]).rows@)),
            ) by {
                assert(rest[k] == snapshots[k + 1]);
            }
        }
    }
}

/// What was asked is at fault for every refusal of a module but those of its engine, of
/// a position that moved on, and of an interface that is narrowed or withdrawn.
pub proof fn law_input_fault(e: ModuleErrorView)
    ensures
        input_fault(e) is None <==> e is Engine || e is Stale || e is ExposedNarrowed || e is InterfaceBindingWithdrawn,
        e is InterfaceContract || e is ConfigMismatch ==> input_fault(e) == Some(RejectionReason::TypeError),
        e is Unknown || e is DuplicateName || e is EmptyName ==> input_fault(e) == Some(RejectionReason::Malformed),
{
}

/// The numeral of a whole number is the number its digits write, or its opposite behind
/// a minus sign.
pub proof fn law_integer_value(text: Seq<char>)
    requires
        text.len() > 0,
        text[0] != '-',
    ensures
        integer_value(text) == digits_value(text),
        integer_value(seq!['-'] + text) == -integer_value(text),
{
    assert((seq!['-'] + text).skip(1) =~= text);
}

/// Digits are a decimal numeral, with or without a minus sign, and with a point if and
/// only if there are digits on both sides of it.
pub proof fn law_is_decimal(head: Seq<char>, tail: Seq<char>)
    requires
        head.len() > 0 ==> head[0] != '-',
        !head.contains('.'),
    ensures
        is_decimal(head) <==> is_digits(head),
        head.len() > 0 ==> (is_decimal(seq!['-'] + head) <==> is_digits(head)),
        is_decimal(head + seq!['.'] + tail) <==> is_digits(head) && is_digits(tail),
{
    let text = head + seq!['.'] + tail;
    let minus = seq!['-'] + head;
    head.index_of_first_ensures('.');
    text.index_of_first_ensures('.');
    assert(minus.skip(1) =~= head);
    assert(unsigned(head) == head);
    assert(text[head.len() as int] == '.');
    assert(text.contains('.'));
    assert(unsigned(text) == text) by {
        if head.len() > 0 {
            assert(text[0] == head[0]);
        }
    }
    let p = text.index_of_first('.')->0;
    if p < head.len() {
        assert(head[p] == '.');
        assert(head.contains('.'));
    }
    if p > head.len() {
        assert(text.take(p)[head.len() as int] == '.');
        assert(text.take(p).contains('.'));
    }
    assert(text.take(p) =~= head);
    assert(text.skip(p + 1) =~= tail);
}

/// A trimmed text has no blank at its end, and blanks there do not count.
pub proof fn law_trimmed(text: Seq<char>, c: char)
    ensures
        left_trimmed(text).len() > 0 ==> !is_blank(left_trimmed(text)[0]),
        right_trimmed(text).len() > 0 ==> !is_blank(right_trimmed(text).last()),
        is_blank(c) ==> left_trimmed(seq![c] + text) == left_trimmed(text) && right_trimmed(text.push(c)) == right_trimmed(
            text,
        ),
        !is_blank(c) ==> left_trimmed(seq![c] + text) == seq![c] + text && right_trimmed(text.push(c)) == text.push(c),
    decreases text.len(),
{
    assert((seq![c] + text).drop_first() =~= text);
    assert(text.push(c).drop_last() =~= text);
    if text.len() > 0 {
        law_trimmed(text.drop_first(), c);
        law_trimmed(text.drop_last(), c);
    }
}

/// A call addresses an operator by its bare name and by nothing else.
pub proof fn law_operator_called(name: String, callee: Expr)
    ensures
        operator_called(Expr::Name(name)) == operator_named(name@),
        !(callee is Name) ==> operator_called(callee) is None,
{
}

/// An outcome has the position it committed at, the response it carries and the refusal
/// it is, and none of what it is not.
pub proof fn law_outcome(seq: u64, response: Option<Value>, r: Rejection)
    ensures
        position_in(CallOutcome::Committed { seq, response }) == Some(seq),
        response_in(CallOutcome::Committed { seq, response }) == response,
        refusal_in(CallOutcome::Committed { seq, response }) is None,
        position_in(CallOutcome::Unchanged { response }) is None,
        response_in(CallOutcome::Unchanged { response }) == response,
        refusal_in(CallOutcome::Unchanged { response }) is None,
        position_in(CallOutcome::Rejected(r)) is None,
        response_in(CallOutcome::Rejected(r)) is None,
        refusal_in(CallOutcome::Rejected(r)) == Some(r),
{
}

/// Steps are ordered by their collection, and within it by their key.
pub proof fn law_step_order(a: StepView, b: StepView)
    ensures
        a.name != b.name ==> (step_before(a, b) <==> text_before(a.name, b.name)),
        a.name == b.name ==> (step_before(a, b) <==> values_before(a.key, b.key)),
{
}

/// An instance that is there and enabled answers as its engine did; any other answers
/// nothing.
pub proof fn law_through_child<E, T>(
    children: Seq<ChildView<E>>,
    space: Seq<char>,
    name: Seq<char>,
    answer: Result<T, EngineError>,
    r: Result<T, ModuleError>,
)
    requires
        through_child(children, space, name, answer, r),
    ensures
        r is Ok <==> enabled_position(children, space, name) is Ok && answer is Ok,
        r is Ok ==> r->Ok_0 == answer->Ok_0,
        enabled_position(children, space, name) matches Err(x) ==> r->Err_0@ == x,
{
}

/// A signature call signs with the ring its first argument names, over what its second
/// is; a verification does not run in a program.
pub proof fn law_sign_call(ring: String, claims: Expr, extra: Arg)
    ensures
        ({
            let path = Arg::Positional(
                Expr::Field { base: Box::new(Expr::Root), member: ring, structural: false },
            );
            &&& sign_call("sign"@, seq![path, Arg::Positional(claims)]) == Ok::<(String, Expr), RejectionView>((ring, claims))
            &&& sign_call("sign"@, seq![path]) is Err
            &&& sign_call("sign"@, seq![path, Arg::Positional(claims), extra]) is Err
            &&& sign_call("verify"@, seq![path, Arg::Positional(claims)]) is Err
        }),
{
    reveal_strlit("sign");
    reveal_strlit("verify");
    assert("sign"@.len() == 4 && "verify"@.len() == 6);
}

/// A named member of an insertion is an initializer of the nested collection of its
/// name, or a static struct of its name, or else a field; one without a name is a field.
pub proof fn law_role_of(collection: CompiledCollection, name: Seq<char>)
    ensures
        role_of(collection, None) == MemberRole::Field,
        named(collection.children@, name) is Some ==> role_of(collection, Some(name)) == MemberRole::Initializer,
        named(collection.children@, name) is None ==> (role_of(collection, Some(name)) == MemberRole::Structure
            <==> struct_named(collection.structs@, name)),
        role_of(collection, Some(name)) == MemberRole::Initializer ==> named(collection.children@, name) is Some,
{
}

/// A meter whose pools cannot be resolved shows none.
pub proof fn law_pools_given(meter: CompiledMeter, work: LevelWork, now: Timestamp)
    ensures
        open_at(meter, work, now) matches Ok(pools) ==> pools_given(meter, work, now) == pools,
        open_at(meter, work, now) is Err ==> pools_given(meter, work, now).len() == 0,
{
}

/// A row shows each of its meters under its name, in order, and its funding if and only
/// if it is a spend that exists.
pub proof fn law_own_cells(
    meters: CompiledMeters,
    state: StateView,
    at: Seq<StepView>,
    work: Seq<LevelWork>,
    now: Timestamp,
    i: int,
)
    ensures
        ({
            let own = meters_on(meters.meters@, names_of(at));
            let cells = own_cells(meters, state, at, work, now);
            let spends = spend_found(meters.spends@, names_of(at)) is Some && state.contains_key(at);
            &&& cells.len() == own.len() + if spends {
                1int
            } else {
                0int
            }
            &&& 0 <= i < own.len() ==> cells[i] == (own[i].name@, level_shown(state, own[i], work[i], now))
            &&& spends ==> cells.last() == ("funding"@, funding_rows(state[at]))
        }),
{
}

proof fn lemma_grafted_cell(cells: Seq<(Seq<char>, CellView)>, extras: Seq<ExtraView>, name: Seq<char>)
    ensures
        cell_named(grafted_cells(cells, extras), name) == match cell_named(cells, name) {
            Some(c) => Some(grafted_cell(c, extras)),
            None => None,
        },
    decreases cells.len(),
{
    if cells.len() > 0 {
        lemma_grafted_cell(cells.drop_first(), extras, name);
        assert(grafted_cells(cells, extras).drop_first() =~= grafted_cells(cells.drop_first(), extras));
    }
}

/// Grafting cells onto a row gives it those that are for it, does the same to the rows
/// of its collections, and leaves its scalars and its identity as they were.
pub proof fn law_grafted(row: RowView, extras: Seq<ExtraView>, i: int, name: Seq<char>, v: ValueView, rows: Seq<RowView>, j: int)
    requires
        forall|k: int| 0 <= k < extras.len() ==> (#[trigger] extras[k]).name != name,
    ensures
        grafted(row, extras).id == row.id,
        grafted(row, extras).key == row.key,
        cell_named(row.cells, name) == Some(CellView::Scalar(v)) ==> cell_named(grafted(row, extras).cells, name) == Some(
            CellView::Scalar(v),
        ),
        cell_named(row.cells, name) is None ==> cell_named(grafted(row, extras).cells, name) is None,
        cell_named(row.cells, name) == Some(CellView::Collection(rows)) && 0 <= j < rows.len() ==> (cell_named(
            grafted(row, extras).cells,
            name,
        ) matches Some(CellView::Collection(inner)) && inner.len() == rows.len() && inner[j] == grafted(rows[j], extras)),
        0 <= i < extras.len() && extras[i].id == row.id && (forall|k: int|
            i < k < extras.len() ==> (#[trigger] extras[k]).id != row.id || extras[k].name != extras[i].name) ==> cell_named(
            grafted(row, extras).cells,
            extras[i].name,
        ) == Some(extras[i].cell),
{
    lemma_grafted_cell(row.cells, extras, name);
    law_extras(grafted_cells(row.cells, extras), row.id, extras, i, name);
}

/// A later statement sees each local that is a value as it was bound, and a row as it is
/// now; a row that is gone is not seen.
pub proof fn law_locals_shown(read: ReadView, locals: Seq<(String, LocalBind)>, limit: nat, name: Seq<char>, cell: CellView)
    ensures
        locals_shown(read, locals, limit).contains((name, cell)) <==> exists|k: int|
            0 <= k < locals.len() && (#[trigger] locals[k]).0@ == name && local_shown(read, locals[k].1, limit) == Some(cell),
    decreases locals.len(),
{
    if locals.len() > 0 {
        let rest = locals.drop_last();
        law_locals_shown(read, rest, limit, name, cell);
        let before = locals_shown(read, rest, limit);
        let after = locals_shown(read, locals, limit);
        let x = (name, cell);
        assert(locals[locals.len() - 1] == locals.last());
        assert forall|k: int| 0 <= k < rest.len() implies #[trigger] rest[k] == locals[k] by {}
        if before.contains(x) {
            let k = choose|k: int|
                0 <= k < rest.len() && (#[trigger] rest[k]).0@ == name && local_shown(read, rest[k].1, limit) == Some(cell);
            assert(locals[k] == rest[k]);
            let i = choose|i: int| 0 <= i < before.len() && before[i] == x;
            assert(after[i] == x);
        }
        if exists|k: int|
            0 <= k < locals.len() && (#[trigger] locals[k]).0@ == name && local_shown(read, locals[k].1, limit) == Some(
                cell,
            ) {
            let k = choose|k: int|
                0 <= k < locals.len() && (#[trigger] locals[k]).0@ == name && local_shown(read, locals[k].1, limit) == Some(
                    cell,
                );
            if k < rest.len() {
                assert(rest[k] == locals[k]);
            } else {
                assert(after[before.len() as int] == x);
            }
        }
        if after.contains(x) {
            let i = choose|i: int| 0 <= i < after.len() && after[i] == x;
            if i < before.len() {
                assert(before[i] == x);
            }
        }
    }
}

/// Whether a collection, or one nested in it, declares a meter that compiled.
pub open spec fn declares_meter(c: MeteredCollection, m: MeterView) -> bool
    decreases c, 1int, 0int,
{
    (c.limits matches Some((_, meters)) && exists|k: int|
        0 <= k < meters@.len() && ((#[trigger] meters@[k]) matches Ok(x) && x@ == m)) || child_declares_meter(
        c,
        c.children@.len() as int,
        m,
    )
}

/// Whether one of the first `n` nested collections declares a meter that compiled.
pub open spec fn child_declares_meter(c: MeteredCollection, n: int, m: MeterView) -> bool
    decreases c, 0int, n,
{
    if n <= 0 || n > c.children@.len() {
        false
    } else {
        child_declares_meter(c, n - 1, m) || declares_meter(c.children@[n - 1], m)
    }
}

proof fn lemma_compiled_ones(meters: Seq<Result<CompiledMeter, EngineError>>, m: MeterView)
    ensures
        compiled_ones(meters).contains(m) <==> exists|k: int|
            0 <= k < meters.len() && ((#[trigger] meters[k]) matches Ok(x) && x@ == m),
    decreases meters.len(),
{
    if meters.len() > 0 {
        let rest = meters.drop_last();
        lemma_compiled_ones(rest, m);
        let before = compiled_ones(rest);
        let after = compiled_ones(meters);
        assert(meters[meters.len() - 1] == meters.last());
        assert forall|k: int| 0 <= k < rest.len() implies #[trigger] rest[k] == meters[k] by {}
        if before.contains(m) {
            let k = choose|k: int| 0 <= k < rest.len() && ((#[trigger] rest[k]) matches Ok(x) && x@ == m);
            assert(meters[k] == rest[k]);
            let i = choose|i: int| 0 <= i < before.len() && before[i] == m;
            assert(after[i] == m);
        }
        if exists|k: int| 0 <= k < meters.len() && ((#[trigger] meters[k]) matches Ok(x) && x@ == m) {
            let k = choose|k: int| 0 <= k < meters.len() && ((#[trigger] meters[k]) matches Ok(x) && x@ == m);
            if k < rest.len() {
                assert(rest[k] == meters[k]);
            } else {
                assert(after[before.len() as int] == m);
            }
        }
        if after.contains(m) {
            let i = choose|i: int| 0 <= i < after.len() && after[i] == m;
            if i < before.len() {
                assert(before[i] == m);
            }
        }
    }
}

/// The meters of a package are those that its collections declare, at any depth, and
/// that compiled; a collection's own spend is among its spends; and an audit that failed
/// fails them all.
pub proof fn law_collected(c: MeteredCollection, before: MetersView, m: MeterView)
    ensures
        c.limits matches Some((audit, _)) ==> (audit is Err ==> collected(c, before) is Err),
        c.consumes matches Some((audit, _)) ==> (audit is Err ==> collected(c, before) is Err),
        collected(c, before) is Ok ==> (collected(c, before)->Ok_0.meters.contains(m) <==> before.meters.contains(m)
            || declares_meter(c, m)),
        collected(c, before) is Ok ==> before.spends.is_prefix_of(collected(c, before)->Ok_0.spends),
        collected(c, before) is Ok && c.consumes is Some && c.consumes->Some_0.1 is Ok ==> collected(
            c,
            before,
        )->Ok_0.spends.contains(c.consumes->Some_0.1->Ok_0@),
    decreases c, 1int, 0int,
{
    if collected(c, before) is Ok {
        let v = with_meters(c, before)->Ok_0;
        let w = with_spend(c, v)->Ok_0;
        if let Some((_, meters)) = c.limits {
            lemma_compiled_ones(meters@, m);
            let own = compiled_ones(meters@);
            let all = before.meters + own;
            if before.meters.contains(m) {
                let i = choose|i: int| 0 <= i < before.meters.len() && before.meters[i] == m;
                assert(all[i] == m);
            }
            if own.contains(m) {
                let i = choose|i: int| 0 <= i < own.len() && own[i] == m;
                assert(all[before.meters.len() + i] == m);
            }
            if all.contains(m) {
                let i = choose|i: int| 0 <= i < all.len() && all[i] == m;
                if i < before.meters.len() {
                    assert(before.meters[i] == m);
                } else {
                    assert(own[i - before.meters.len()] == m);
                }
            }
        }
        lemma_children(c, w, c.children@.len() as int, m);
        let out = collected(c, before)->Ok_0;
        assert(before.spends.is_prefix_of(w.spends));
        assert forall|i: int| 0 <= i < before.spends.len() implies before.spends[i] == out.spends[i] by {
            assert(before.spends[i] == w.spends[i]);
            assert(w.spends[i] == out.spends[i]);
        }
        assert(before.spends =~= out.spends.take(before.spends.len() as int));
        if c.consumes is Some && c.consumes->Some_0.1 is Ok {
            let i = before.spends.len() as int;
            assert(w.spends[i] == c.consumes->Some_0.1->Ok_0@);
            assert(out.spends[i] == w.spends[i]);
        }
    }
}

proof fn lemma_children(c: MeteredCollection, before: MetersView, n: int, m: MeterView)
    requires
        0 <= n <= c.children@.len(),
    ensures
        children_collected(c, before, n) is Ok ==> (children_collected(c, before, n)->Ok_0.meters.contains(m)
            <==> before.meters.contains(m) || child_declares_meter(c, n, m)),
        children_collected(c, before, n) is Ok ==> before.spends.len() <= children_collected(c, before, n)->Ok_0.spends.len()
            && forall|i: int|
            0 <= i < before.spends.len() ==> before.spends[i] == #[trigger] children_collected(c, before, n)->Ok_0.spends[i],
    decreases c, 0int, n,
{
    if n > 0 {
        lemma_children(c, before, n - 1, m);
        if children_collected(c, before, n) is Ok {
            let v = children_collected(c, before, n - 1)->Ok_0;
            law_collected(c.children@[n - 1], v, m);
            let out = children_collected(c, before, n)->Ok_0;
            assert(out == collected(c.children@[n - 1], v)->Ok_0);
            assert forall|i: int| 0 <= i < before.spends.len() implies before.spends[i] == #[trigger] out.spends[i] by {
                assert(before.spends[i] == v.spends[i]);
                assert(v.spends[i] == out.spends[i]);
            }
        }
    }
}

/// What a refused patch of several rows leaves is what the rows before the refused one
/// came to.
pub proof fn law_left_patched(
    compiled: Compiled,
    p: ProgramView,
    rows: Seq<TargetView>,
    normalized: Seq<Result<FieldsView, RejectionView>>,
    k: int,
    q: ProgramView,
)
    requires
        rows.len() == normalized.len(),
        0 <= k < rows.len(),
        rows_patched(compiled, p, rows.take(k), normalized.take(k)) == Ok::<ProgramView, RejectionView>(q),
        rows_patched(compiled, p, rows.take(k + 1), normalized.take(k + 1)) is Err,
    ensures
        rows_patched(compiled, p, rows, normalized) is Err,
        rows_left_patched(compiled, p, rows, normalized) == q,
    decreases rows.len(),
{
    if k == rows.len() - 1 {
        assert(rows.take(k) =~= rows.drop_last());
        assert(normalized.take(k) =~= normalized.drop_last());
        assert(rows.take(k + 1) =~= rows);
        assert(normalized.take(k + 1) =~= normalized);
    } else {
        let r = rows.drop_last();
        let n = normalized.drop_last();
        assert(r.take(k) =~= rows.take(k));
        assert(n.take(k) =~= normalized.take(k));
        assert(r.take(k + 1) =~= rows.take(k + 1));
        assert(n.take(k + 1) =~= normalized.take(k + 1));
        law_left_patched(compiled, p, r, n, k, q);
    }
}

/// What a refused insertion of several rows leaves is what the rows before the refused
/// one came to, with one more generation drawn.
pub proof fn law_left_inserted(
    compiled: Compiled,
    p: ProgramView,
    at: (Seq<StepView>, Seq<char>),
    path: Seq<Seq<char>>,
    resolved: Seq<Result<FieldsView, RejectionView>>,
    k: int,
    q: ProgramView,
)
    requires
        0 <= k < resolved.len(),
        rows_inserted(compiled, p, at, path, resolved.take(k)) == Ok::<ProgramView, RejectionView>(q),
        rows_inserted(compiled, p, at, path, resolved.take(k + 1)) is Err,
    ensures
        rows_inserted(compiled, p, at, path, resolved) is Err,
        rows_left(compiled, p, at, path, resolved).state == q.state,
        rows_left(compiled, p, at, path, resolved).drawn == q.drawn + 1,
    decreases resolved.len(),
{
    if k == resolved.len() - 1 {
        assert(resolved.take(k) =~= resolved.drop_last());
        assert(resolved.take(k + 1) =~= resolved);
    } else {
        let r = resolved.drop_last();
        assert(r.take(k) =~= resolved.take(k));
        assert(r.take(k + 1) =~= resolved.take(k + 1));
        law_left_inserted(compiled, p, at, path, r, k, q);
    }
}

/// The expressions of every meter of a declaration are audited.
pub proof fn law_limit_positions(meters: Seq<(String, Doc)>, n: int, i: int, members: Vec<(String, Doc)>, text: Seq<char>)
    requires
        0 <= i < n <= meters.len(),
        meters[i].1 == Doc::Object(members),
        read_positions(members@).contains(text),
    ensures
        limit_positions(meters, n).contains(text),
    decreases n,
{
    let before = limit_positions(meters, n - 1);
    let after = limit_positions(meters, n);
    if i < n - 1 {
        law_limit_positions(meters, n - 1, i, members, text);
        let k = choose|k: int| 0 <= k < before.len() && before[k] == text;
        assert(after[k] == text);
    } else {
        let more = read_positions(members@);
        let k = choose|k: int| 0 <= k < more.len() && more[k] == text;
        assert(after[before.len() + k] == text);
    }
}

/// The meters of a `$limits` are those of its members, and none where it is no object.
pub proof fn law_limits_of(path: Seq<Seq<char>>, limits: Doc, members: Vec<(String, Doc)>, work: Seq<MeterWork>)
    ensures
        limits == Doc::Object(members) ==> limits_of(path, limits, work) == limits_compiled(
            path,
            members@,
            work,
            members@.len() as int,
        ),
        !(limits is Object) ==> limits_of(path, limits, work).len() == 0,
{
}

} // verus!
