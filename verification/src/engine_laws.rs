//! What reading, ordering, signing and erasing keep to, part by part.

use crate::address::{names_of, StepView};
use crate::balance::{augmented, meters_on, with_extras, ExtraView};
use crate::calls::{args_bound, called_depth, called_receiver, CompiledMutation, SuppliedArg};
use crate::cell::{cell_named, Cell, CellView, RowView};
use crate::decimal::{decimal_value, fraction, power_of_ten, whole};
use crate::deletion::{after_patch, after_patches, after_removal, after_removals, DeletedRow, PatchedRow, ThinnedRow};
use crate::doc::Doc;
use crate::erasure::payloads;
use crate::execution::{
    call_framed, operand_named, patch_planned, scalars_of, statement_form, OperandView, PatchBase, PatchPlanView,
    Statement, StatementForm,
};
use crate::funding::{entry_value, funding_row, EntryView, PoolView};
use crate::host::{ops_of, signatures_of, Function, COSE_CONTRACT};
use crate::index::by_lineage;
use crate::interp::RowRefView;
use crate::json::{json_member, JsonView};
use crate::keyring::{
    active_handle, asked, asked_once, demanded, due_at, first_in, inspected, signs, Asked, IssuedView, KeyProvider,
    KeyState, Keyring, KeyringError, KeyringErrorView, PolicyView, ProviderRequirement, RingView, RotationMode,
    SessionToken,
};
use crate::lineage::{link_index, EntryView as LineageEntry, LinkView};
use crate::materialize::stored_form;
use crate::meter::{
    consume_positions, first_consume_failure, read_positions, second_texts, text_members, texts_within, CompiledMeter,
    ConsumeWork,
};
use crate::metering_laws::law_cell_set;
use crate::model::Compiled;
use crate::module_error::ModuleErrorView;
use crate::module_update::{entry_path, module_cleared, reports, ModuleUpdateReport, PreparedModuleView};
use crate::pools::{
    intervals_in, intervals_of_cells, intervals_of_rows, pool_before_from, row_bounds, with_metadata, Interval,
};
use crate::program::{placed, ProgramView, TargetView};
use crate::refs::{first_missing, member_named};
use crate::rejection::{outcome, Rejection, RejectionView};
use crate::spending::{amount_in, levels_above, meter_found, on_path};
use crate::state::StateView;
use crate::syntax::{
    assertion_message, bare_form, binding_form, called_mutation, namespace_call, patched_pair, ring_named,
    supplied_pair, Arg, BareStatement, BindingForm, Expr, Member,
};
use crate::target::{field_selected, located, receiver_gone, selected, set_field_at, LocView, Place};
use crate::text::{text_before, texts};
use crate::time::Timestamp;
use crate::update::{EngineError, UpdateBasis};
use crate::value::{time_before, value_before, values_before, ValueView};
use vstd::prelude::*;

verus! {

/// Numbers are ordered by their size, texts as texts, instants by time; false comes
/// before true; whatever is there comes before what is absent; and nothing comes before
/// itself.
pub proof fn law_value_order(x: int, y: int, r: real, s: real, a: Seq<char>, b: Seq<char>, t: Timestamp, u: Timestamp, v: ValueView)
    ensures
        value_before(ValueView::Int(x), ValueView::Int(y)) <==> x < y,
        value_before(ValueView::Decimal(r), ValueView::Decimal(s)) <==> r < s,
        value_before(ValueView::Text(a), ValueView::Text(b)) <==> text_before(a, b),
        value_before(ValueView::Timestamp(t), ValueView::Timestamp(u)) <==> time_before(t, u),
        value_before(ValueView::Bool(false), ValueView::Bool(true)),
        !value_before(ValueView::Bool(true), ValueView::Bool(false)),
        value_before(v, ValueView::Absent) <==> v != ValueView::Absent,
        !value_before(ValueView::Absent, v),
        value_before(ValueView::Enum(x, a), ValueView::Enum(y, b)) <==> x < y || x == y && text_before(a, b),
{
}

/// Composite keys are ordered by their first component that differs, and a shorter one
/// before a longer one it begins.
pub proof fn law_composite_order(head: Seq<ValueView>, a: ValueView, b: ValueView, x: Seq<ValueView>, y: Seq<ValueView>)
    ensures
        a != b ==> (values_before(head.push(a) + x, head.push(b) + y) <==> value_before(a, b)),
        values_before(head, head.push(a)),
        !values_before(head.push(a), head),
        !values_before(head, head),
        value_before(ValueView::Composite(x), ValueView::Composite(y)) <==> values_before(x, y),
        value_before(ValueView::Members(x), ValueView::Members(y)) <==> values_before(x, y),
    decreases head.len(),
{
    let p = head.push(a) + x;
    let q = head.push(b) + y;
    if head.len() == 0 {
        assert(p[0] == a && q[0] == b);
        assert(head.push(a)[0] == a);
    } else {
        let rest = head.drop_first();
        law_composite_order(rest, a, b, x, y);
        assert(p[0] == head[0] && q[0] == head[0]);
        assert(p.drop_first() =~= rest.push(a) + x);
        assert(q.drop_first() =~= rest.push(b) + y);
        assert(head.push(a)[0] == head[0]);
        assert(head.push(a).drop_first() =~= rest.push(a));
    }
}

/// A key is issued only of the algorithm its ring declares, and under the handle that
/// was inspected.
pub proof fn law_issued_key<P: KeyProvider>(provider: P, policy: PolicyView, handle: u64, key: IssuedView)
    requires
        inspected(provider, policy, handle, Ok(key)),
    ensures
        key.handle == handle,
        key.algorithm == policy.algorithm,
        exists|public: Result<crate::keyring::PublicKey, KeyringError>| #[trigger]
            call_ensures(P::public_key, (&provider, handle), public) && public is Ok && public->Ok_0.algorithm@
                == policy.algorithm && public->Ok_0.material@ == key.public_key,
{
}

/// A token names the ring and the active version that signed it; without an active
/// version nothing is signed.
pub proof fn law_signed<P: KeyProvider>(keyring: Keyring<P>, message: &[u8], answer: Result<SessionToken, KeyringError>)
    requires
        signs(keyring, message, answer),
    ensures
        first_in(keyring.ring@.versions, KeyState::Active) is None ==> answer is Err,
        answer matches Ok(token) ==> token.ring@ == keyring.ring@.name && (first_in(
            keyring.ring@.versions,
            KeyState::Active,
        ) matches Some(i) && token.version.0 == keyring.ring@.versions[i].id),
{
}

/// A provider must serve the ring's algorithm and operations. One an operator rotates
/// has to bind keys made elsewhere and makes none itself; any other makes them. A ring
/// that rotates needs keys disabled.
pub proof fn law_demanded(requirement: ProviderRequirement, policy: PolicyView)
    requires
        demanded(requirement, policy),
    ensures
        requirement.algorithm@ == policy.algorithm,
        requirement.operations@ == policy.usage,
        requirement.protection == policy.protection,
        policy.rotate is None ==> requirement.automatic && !requirement.external_binding && !requirement.needs_disable,
        policy.rotate matches Some(s) ==> requirement.needs_disable && (s.mode == RotationMode::Manual
            <==> requirement.external_binding) && (s.mode == RotationMode::Automatic <==> requirement.automatic),
{
}

/// A ring that turns over asks for a key if and only if none is pending, and for the key
/// of the version that was active to be disabled, once it has the new one. A ring that is
/// never due asks for nothing.
pub proof fn law_asked(ring: RingView, key: IssuedView, failure: KeyringErrorView, now: Timestamp, handle: u64)
    ensures
        first_in(ring.versions, KeyState::Pending) is Some && active_handle(ring) == Some(handle) ==> asked_once(
            ring,
            Seq::empty(),
        ) == seq![Asked::Disabled(handle)],
        first_in(ring.versions, KeyState::Pending) is None && active_handle(ring) == Some(handle) ==> asked_once(
            ring,
            seq![Ok::<IssuedView, KeyringErrorView>(key)],
        ) == seq![Asked::Made(Ok(key)), Asked::Disabled(handle)],
        first_in(ring.versions, KeyState::Pending) is None ==> asked_once(
            ring,
            seq![Err::<IssuedView, KeyringErrorView>(failure)],
        ) == seq![Asked::Made(Err(failure))],
        due_at(ring) is None ==> asked(ring, now, Seq::empty()).len() == 0,
        first_in(ring.versions, KeyState::Active) matches Some(i) ==> active_handle(ring) == Some(ring.versions[i].handle),
{
    assert(Seq::<Asked>::empty().push(Asked::Disabled(handle)) =~= seq![Asked::Disabled(handle)]);
    assert(seq![Asked::Made(Ok::<IssuedView, KeyringErrorView>(key))].push(Asked::Disabled(handle)) =~= seq![
        Asked::Made(Ok::<IssuedView, KeyringErrorView>(key)),
        Asked::Disabled(handle),
    ]);
}

/// A prepared module update may be committed if and only if the instance is still
/// mounted and stands where both the module's and the instance's update were computed.
pub proof fn law_module_cleared(
    mounted: bool,
    space: Seq<char>,
    name: Seq<char>,
    prepared: PreparedModuleView,
    instance: Result<UpdateBasis, EngineError>,
)
    ensures
        module_cleared(mounted, space, name, prepared, instance) is Ok <==> mounted && instance is Ok && prepared.basis.at
            == entry_path(space, name) && prepared.basis.instance == instance->Ok_0@ && prepared.instance_update.basis
            == instance->Ok_0@,
        !mounted ==> module_cleared(mounted, space, name, prepared, instance) == Err::<(), ModuleErrorView>(
            ModuleErrorView::Unknown(name),
        ),
        mounted && instance is Ok && (prepared.basis.instance != instance->Ok_0@ || prepared.basis.at != entry_path(
            space,
            name,
        )) ==> (module_cleared(mounted, space, name, prepared, instance) matches Err(e) && e is Stale),
{
}

/// The report of a module update says what was committed: the commit, the versions, the
/// rows that were migrated and seeded, and how each interface moved.
pub proof fn law_reported(report: ModuleUpdateReport, prepared: PreparedModuleView, commit: u64)
    requires
        reports(report, prepared, commit),
    ensures
        report.commit == commit,
        report.from@ == prepared.from,
        report.to@ == crate::version::version_text(prepared.instance_update.release.version),
        report.migrated@.len() == prepared.instance_update.migrated.len(),
        report.seeded@.len() == prepared.instance_update.seeded.len(),
        texts(report.exposed_unchanged@) == prepared.unchanged,
        texts(report.exposed_changed@) == prepared.changed,
        texts(report.exposed_removed@) == prepared.removed,
{
}

/// An erasure captures every planned row that exists, with all it holds, and nothing
/// else.
pub proof fn law_payloads(state: StateView, deletes: Seq<DeletedRow>, row: RowRefView, value: ValueView)
    ensures
        payloads(state, deletes).contains((row, value)) <==> exists|k: int|
            0 <= k < deletes.len() && (#[trigger] deletes[k]).row@ == row && (deletes[k].address matches Some(a)
                && state.contains_key(a@) && value == stored_form(state[a@])),
    decreases deletes.len(),
{
    if deletes.len() > 0 {
        let rest = deletes.drop_last();
        law_payloads(state, rest, row, value);
        let before = payloads(state, rest);
        let after = payloads(state, deletes);
        let x = (row, value);
        assert(deletes[deletes.len() - 1] == deletes.last());
        if before.contains(x) {
            let k = choose|k: int|
                0 <= k < rest.len() && (#[trigger] rest[k]).row@ == row && (rest[k].address matches Some(a)
                    && state.contains_key(a@) && value == stored_form(state[a@]));
            assert(deletes[k] == rest[k]);
            let i = choose|i: int| 0 <= i < before.len() && before[i] == x;
            assert(after[i] == x);
        }
        if exists|k: int|
            0 <= k < deletes.len() && (#[trigger] deletes[k]).row@ == row && (deletes[k].address matches Some(a)
                && state.contains_key(a@) && value == stored_form(state[a@])) {
            let k = choose|k: int|
                0 <= k < deletes.len() && (#[trigger] deletes[k]).row@ == row && (deletes[k].address matches Some(a)
                    && state.contains_key(a@) && value == stored_form(state[a@]));
            if k < rest.len() {
                assert(rest[k] == deletes[k]);
            } else {
                assert(after[before.len() as int] == x);
            }
        }
        if after.contains(x) {
            let i = choose|i: int| 0 <= i < after.len() && after[i] == x;
            if i < before.len() {
                assert(before[i] == x);
            }
        }
    }
}

/// The metadata of a spend is folded into its cells under its names, a refused one
/// refuses the spend, and every other cell stays.
pub proof fn law_metadata(
    cells: Seq<(Seq<char>, CellView)>,
    metadata: Seq<(String, Result<Cell, Rejection>)>,
    i: int,
    other: Seq<char>,
)
    ensures
        with_metadata(cells, metadata) is Ok <==> forall|k: int| 0 <= k < metadata.len() ==> (#[trigger] metadata[k]).1 is Ok,
        with_metadata(cells, metadata) is Ok && (forall|k: int|
            0 <= k < metadata.len() ==> (#[trigger] metadata[k]).0@ != other) ==> cell_named(
            with_metadata(cells, metadata)->Ok_0,
            other,
        ) == cell_named(cells, other),
        with_metadata(cells, metadata) is Ok && 0 <= i < metadata.len() && (forall|k: int|
            i < k < metadata.len() ==> (#[trigger] metadata[k]).0@ != metadata[i].0@) ==> cell_named(
            with_metadata(cells, metadata)->Ok_0,
            metadata[i].0@,
        ) == Some(metadata[i].1->Ok_0@),
    decreases metadata.len(),
{
    if metadata.len() > 0 {
        let rest = metadata.drop_last();
        let last = metadata.last();
        assert(metadata[metadata.len() - 1] == last);
        assert forall|k: int| 0 <= k < rest.len() implies #[trigger] rest[k] == metadata[k] by {}
        law_metadata(cells, rest, i, other);
        if with_metadata(cells, metadata) is Ok {
            let so_far = with_metadata(cells, rest)->Ok_0;
            law_cell_set(so_far, last.0@, last.1->Ok_0@, other);
            if 0 <= i < metadata.len() {
                law_cell_set(so_far, last.0@, last.1->Ok_0@, metadata[i].0@);
                if i < rest.len() {
                    assert(rest[i] == metadata[i]);
                }
            }
            assert forall|k: int| 0 <= k < metadata.len() implies (#[trigger] metadata[k]).1 is Ok by {
                if k < rest.len() {
                    assert(rest[k] == metadata[k]);
                }
            }
            if forall|k: int| 0 <= k < metadata.len() ==> (#[trigger] metadata[k]).0@ != other {
                assert forall|k: int| 0 <= k < rest.len() implies (#[trigger] rest[k]).0@ != other by {
                    assert(rest[k] == metadata[k]);
                }
            }
        } else if forall|k: int| 0 <= k < metadata.len() ==> (#[trigger] metadata[k]).1 is Ok {
            assert forall|k: int| 0 <= k < rest.len() implies (#[trigger] rest[k]).1 is Ok by {
                assert(rest[k] == metadata[k]);
            }
            assert(metadata[metadata.len() - 1].1 is Ok);
        }
    }
}

/// Pools are drawn from by the first of their order keys that differs, in its direction;
/// with all keys the same, by their source and then by their key.
pub proof fn law_pool_order(a: PoolView, b: PoolView, descending: Seq<bool>, from: int, i: int)
    requires
        0 <= from <= i,
    ensures
        i < descending.len() && (forall|k: int| from <= k < i ==> #[trigger] a.order_keys[k] == b.order_keys[k])
            && a.order_keys[i] != b.order_keys[i] ==> (pool_before_from(a, b, descending, from) <==> if descending[i] {
            value_before(b.order_keys[i], a.order_keys[i])
        } else {
            value_before(a.order_keys[i], b.order_keys[i])
        }),
        i == descending.len() && (forall|k: int| from <= k < i ==> #[trigger] a.order_keys[k] == b.order_keys[k]) ==> (
        pool_before_from(a, b, descending, from) <==> text_before(a.source, b.source) || (a.source == b.source
            && value_before(a.key, b.key))),
    decreases i - from,
{
    if from < i && i <= descending.len() && (forall|k: int| from <= k < i ==> #[trigger] a.order_keys[k] == b.order_keys[k]) {
        assert(a.order_keys[from] == b.order_keys[from]);
        law_pool_order(a, b, descending, from + 1, i);
    }
}

/// A row with a bound has its interval found, and so has every row of a collection in
/// it.
pub proof fn law_intervals(row: RowView, i: int, rows: Seq<RowView>, j: int)
    ensures
        row_bounds(row.cells).0 is Some || row_bounds(row.cells).1 is Some ==> intervals_in(row).contains(
            (row.id, row_bounds(row.cells)),
        ),
        0 <= i < row.cells.len() && row.cells[i].1 == CellView::Collection(rows) && 0 <= j < rows.len() && (row_bounds(
            rows[j].cells,
        ).0 is Some || row_bounds(rows[j].cells).1 is Some) ==> intervals_in(row).contains(
            (rows[j].id, row_bounds(rows[j].cells)),
        ),
{
    let own = row_bounds(row.cells);
    let first = if own.0 is Some || own.1 is Some {
        seq![(row.id, own)]
    } else {
        Seq::empty()
    };
    let inner = intervals_of_cells(row.cells, row.cells.len() as int);
    assert(intervals_in(row) == first + inner);
    if own.0 is Some || own.1 is Some {
        assert(intervals_in(row)[0] == (row.id, own));
    }
    if 0 <= i < row.cells.len() && row.cells[i].1 == CellView::Collection(rows) && 0 <= j < rows.len() && (row_bounds(
        rows[j].cells,
    ).0 is Some || row_bounds(rows[j].cells).1 is Some) {
        let x = (rows[j].id, row_bounds(rows[j].cells));
        let mine = intervals_in(rows[j]);
        assert(mine[0] == x);
        lemma_of_rows(rows, rows.len() as int, j, x);
        lemma_of_cells(row.cells, row.cells.len() as int, i, x);
        let k = choose|k: int| 0 <= k < inner.len() && inner[k] == x;
        assert(intervals_in(row)[first.len() + k] == x);
    }
}

proof fn lemma_of_rows(rows: Seq<RowView>, n: int, j: int, x: (crate::patch::IdView, Interval))
    requires
        0 <= j < n <= rows.len(),
        intervals_in(rows[j]).contains(x),
    ensures
        intervals_of_rows(rows, n).contains(x),
    decreases n,
{
    let before = intervals_of_rows(rows, n - 1);
    let last = intervals_in(rows[n - 1]);
    if j < n - 1 {
        lemma_of_rows(rows, n - 1, j, x);
        let k = choose|k: int| 0 <= k < before.len() && before[k] == x;
        assert((before + last)[k] == x);
    } else {
        let k = choose|k: int| 0 <= k < last.len() && last[k] == x;
        assert((before + last)[before.len() + k] == x);
    }
}

proof fn lemma_of_cells(cells: Seq<(Seq<char>, CellView)>, n: int, i: int, x: (crate::patch::IdView, Interval))
    requires
        0 <= i < n <= cells.len(),
        cells[i].1 matches CellView::Collection(rows) && intervals_of_rows(rows, rows.len() as int).contains(x),
    ensures
        intervals_of_cells(cells, n).contains(x),
    decreases n,
{
    let before = intervals_of_cells(cells, n - 1);
    let last = crate::pools::intervals_of_cell(cells[n - 1].1);
    if i < n - 1 {
        lemma_of_cells(cells, n - 1, i, x);
        let k = choose|k: int| 0 <= k < before.len() && before[k] == x;
        assert((before + last)[k] == x);
    } else {
        let k = choose|k: int| 0 <= k < last.len() && last[k] == x;
        assert((before + last)[before.len() + k] == x);
    }
}

/// A spend clears every level above it whose collection declares the meter, and no
/// other, and a nearer one before a farther one.
pub proof fn law_levels_above(
    meters: Seq<CompiledMeter>,
    spend: Seq<StepView>,
    name: Seq<char>,
    depth: int,
    k: int,
    m: CompiledMeter,
)
    requires
        0 <= depth <= spend.len(),
    ensures
        0 < k <= depth && meter_found(meters, names_of(spend.take(k)), name) == Some(m) ==> levels_above(
            meters,
            spend,
            name,
            depth,
        ).contains((m, spend.take(k))),
        forall|i: int|
            0 <= i < levels_above(meters, spend, name, depth).len() ==> (#[trigger] levels_above(meters, spend, name, depth)[i]).1.len()
                <= depth && levels_above(meters, spend, name, depth)[i].1.len() > 0 && meter_found(
                meters,
                names_of(levels_above(meters, spend, name, depth)[i].1),
                name,
            ) == Some(levels_above(meters, spend, name, depth)[i].0),
        forall|i: int, j: int|
            0 <= i < j < levels_above(meters, spend, name, depth).len() ==> (#[trigger] levels_above(
                meters,
                spend,
                name,
                depth,
            )[j]).1.len() < (#[trigger] levels_above(meters, spend, name, depth)[i]).1.len(),
    decreases depth,
{
    if depth > 0 {
        law_levels_above(meters, spend, name, depth - 1, k, m);
        let above = levels_above(meters, spend, name, depth - 1);
        let after = levels_above(meters, spend, name, depth);
        match meter_found(meters, names_of(spend.take(depth)), name) {
            Some(found) => {
                let first = (found, spend.take(depth));
                assert(after == seq![first] + above);
                assert(after[0] == first);
                assert forall|i: int| 0 < i < after.len() implies #[trigger] after[i] == above[i - 1] by {}
                if 0 < k < depth && above.contains((m, spend.take(k))) {
                    let i = choose|i: int| 0 <= i < above.len() && above[i] == (m, spend.take(k));
                    assert(after[i + 1] == (m, spend.take(k)));
                }
            },
            None => {},
        }
    }
}

/// The addresses on a path are exactly those whose names are it.
pub proof fn law_on_path(addresses: Seq<Seq<StepView>>, path: Seq<Seq<char>>, a: Seq<StepView>)
    ensures
        on_path(addresses, path).contains(a) <==> addresses.contains(a) && names_of(a) == path,
    decreases addresses.len(),
{
    if addresses.len() > 0 {
        let rest = addresses.drop_last();
        law_on_path(rest, path, a);
        let before = on_path(rest, path);
        let after = on_path(addresses, path);
        assert(addresses[addresses.len() - 1] == addresses.last());
        if rest.contains(a) {
            let i = choose|i: int| 0 <= i < rest.len() && rest[i] == a;
            assert(addresses[i] == a);
        }
        if addresses.contains(a) && a != addresses.last() {
            let i = choose|i: int| 0 <= i < addresses.len() && addresses[i] == a;
            assert(rest[i] == a);
        }
        if before.contains(a) {
            let i = choose|i: int| 0 <= i < before.len() && before[i] == a;
            assert(after[i] == a);
        }
        if names_of(addresses.last()) == path {
            assert(after[before.len() as int] == addresses.last());
        }
        if after.contains(a) && a != addresses.last() {
            let i = choose|i: int| 0 <= i < after.len() && after[i] == a;
            assert(before[i] == a);
        }
    }
}

/// The amount of a spend is the number its cell holds; a cell that holds none is
/// refused.
pub proof fn law_amount(cell: Cell, d: real)
    ensures
        cell@ == CellView::Scalar(ValueView::Decimal(d)) ==> amount_in(Ok(cell)) == Ok::<real, RejectionView>(d),
        cell@ is Collection || cell@ is Row ==> amount_in(Ok(cell)) is Err,
{
}

/// The meters of a path are exactly those declared on it.
pub proof fn law_meters_on(meters: Seq<CompiledMeter>, path: Seq<Seq<char>>, m: CompiledMeter)
    ensures
        meters_on(meters, path).contains(m) <==> meters.contains(m) && texts(m.path@) == path,
    decreases meters.len(),
{
    if meters.len() > 0 {
        let rest = meters.drop_last();
        law_meters_on(rest, path, m);
        let before = meters_on(rest, path);
        let after = meters_on(meters, path);
        assert(meters[meters.len() - 1] == meters.last());
        if rest.contains(m) {
            let i = choose|i: int| 0 <= i < rest.len() && rest[i] == m;
            assert(meters[i] == m);
        }
        if meters.contains(m) && m != meters.last() {
            let i = choose|i: int| 0 <= i < meters.len() && meters[i] == m;
            assert(rest[i] == m);
        }
        if before.contains(m) {
            let i = choose|i: int| 0 <= i < before.len() && before[i] == m;
            assert(after[i] == m);
        }
        if texts(meters.last().path@) == path {
            assert(after[before.len() as int] == meters.last());
        }
        if after.contains(m) && m != meters.last() {
            let i = choose|i: int| 0 <= i < after.len() && after[i] == m;
            assert(before[i] == m);
        }
    }
}

/// A row shows each of its own cells under its name, the last of a name, and keeps every
/// other cell.
pub proof fn law_augmented(cells: Seq<(Seq<char>, CellView)>, own: Seq<(Seq<char>, CellView)>, i: int, other: Seq<char>)
    ensures
        (forall|k: int| 0 <= k < own.len() ==> (#[trigger] own[k]).0 != other) ==> cell_named(augmented(cells, own), other)
            == cell_named(cells, other),
        0 <= i < own.len() && (forall|k: int| i < k < own.len() ==> (#[trigger] own[k]).0 != own[i].0) ==> cell_named(
            augmented(cells, own),
            own[i].0,
        ) == Some(own[i].1),
    decreases own.len(),
{
    if own.len() > 0 {
        let rest = own.drop_last();
        let last = own.last();
        assert(own[own.len() - 1] == last);
        assert forall|k: int| 0 <= k < rest.len() implies #[trigger] rest[k] == own[k] by {}
        law_augmented(cells, rest, i, other);
        let so_far = augmented(cells, rest);
        law_cell_set(so_far, last.0, last.1, other);
        if 0 <= i < own.len() {
            law_cell_set(so_far, last.0, last.1, own[i].0);
            if i < rest.len() {
                assert(rest[i] == own[i]);
            }
        }
        if forall|k: int| 0 <= k < own.len() ==> (#[trigger] own[k]).0 != other {
            assert forall|k: int| 0 <= k < rest.len() implies (#[trigger] rest[k]).0 != other by {
                assert(rest[k] == own[k]);
            }
        }
    }
}

/// A cell that is for a row is shown by it, and one for another row is not.
pub proof fn law_extras(
    cells: Seq<(Seq<char>, CellView)>,
    id: crate::patch::IdView,
    extras: Seq<ExtraView>,
    i: int,
    other: Seq<char>,
)
    ensures
        (forall|k: int| 0 <= k < extras.len() ==> (#[trigger] extras[k]).id != id) ==> with_extras(cells, id, extras)
            == cells,
        (forall|k: int| 0 <= k < extras.len() ==> (#[trigger] extras[k]).name != other) ==> cell_named(
            with_extras(cells, id, extras),
            other,
        ) == cell_named(cells, other),
        0 <= i < extras.len() && extras[i].id == id && (forall|k: int|
            i < k < extras.len() ==> (#[trigger] extras[k]).id != id || extras[k].name != extras[i].name) ==> cell_named(
            with_extras(cells, id, extras),
            extras[i].name,
        ) == Some(extras[i].cell),
    decreases extras.len(),
{
    if extras.len() > 0 {
        let rest = extras.drop_last();
        let last = extras.last();
        assert(extras[extras.len() - 1] == last);
        assert forall|k: int| 0 <= k < rest.len() implies #[trigger] rest[k] == extras[k] by {}
        law_extras(cells, id, rest, i, other);
        let so_far = with_extras(cells, id, rest);
        law_cell_set(so_far, last.name, last.cell, other);
        if 0 <= i < extras.len() {
            law_cell_set(so_far, last.name, last.cell, extras[i].name);
            if i < rest.len() {
                assert(rest[i] == extras[i]);
            }
        }
        if forall|k: int| 0 <= k < extras.len() ==> (#[trigger] extras[k]).id != id {
            assert forall|k: int| 0 <= k < rest.len() implies (#[trigger] rest[k]).id != id by {
                assert(rest[k] == extras[k]);
            }
        }
        if forall|k: int| 0 <= k < extras.len() ==> (#[trigger] extras[k]).name != other {
            assert forall|k: int| 0 <= k < rest.len() implies (#[trigger] rest[k]).name != other by {
                assert(rest[k] == extras[k]);
            }
        }
    }
}

/// A part of a funding records how much, at which level, from which pool of which
/// source, and a reader sees the source, the pool and the amount.
pub proof fn law_entry_fields(e: EntryView, place: int)
    ensures
        crate::materialize::stored_fields(entry_value(e))["amount"@] == ValueView::Decimal(e.amount),
        crate::materialize::stored_fields(entry_value(e))["level"@] == ValueView::Text(e.level),
        crate::materialize::stored_fields(entry_value(e))["pool"@] == e.pool,
        crate::materialize::stored_fields(entry_value(e))["source"@] == ValueView::Text(e.source),
        cell_named(funding_row(e, place).cells, "source"@) == Some(CellView::Scalar(ValueView::Text(e.source))),
        cell_named(funding_row(e, place).cells, "pool"@) == Some(CellView::Scalar(e.pool)),
        cell_named(funding_row(e, place).cells, "amount"@) == Some(CellView::Scalar(ValueView::Decimal(e.amount))),
{
    reveal_strlit("amount");
    reveal_strlit("level");
    reveal_strlit("pool");
    reveal_strlit("source");
    assert("amount"@.len() == 6 && "level"@.len() == 5 && "pool"@.len() == 4 && "source"@.len() == 6);
    assert("amount"@[0] != "source"@[0]);
    let members = entry_value(e)->Struct_0;
    crate::lifecycle_laws::law_fields_in(members, 0, "amount"@);
    crate::lifecycle_laws::law_fields_in(members, 1, "level"@);
    crate::lifecycle_laws::law_fields_in(members, 2, "pool"@);
    crate::lifecycle_laws::law_fields_in(members, 3, "source"@);
    let cells = funding_row(e, place).cells;
    let two = cells.drop_first();
    let one = two.drop_first();
    assert(two[0] == cells[1]);
    assert(one[0] == cells[2]);
    assert(cell_named(one, "amount"@) == Some(cells[2].1));
    assert(cell_named(two, "amount"@) == Some(cells[2].1));
    assert(cell_named(two, "pool"@) == Some(cells[1].1));
}

/// The arguments of a call are its scalars, in order, if and only if each is one.
pub proof fn law_scalars_read(args: Seq<Result<Cell, Rejection>>, i: int, v: ValueView)
    ensures
        scalars_of(args) is Ok ==> scalars_of(args)->Ok_0.len() == args.len(),
        scalars_of(args) is Ok && 0 <= i < args.len() && outcome(args[i]) == Ok::<CellView, RejectionView>(
            CellView::Scalar(v),
        ) ==> scalars_of(args)->Ok_0[i] == v,
        0 <= i < args.len() && args[i] is Err ==> scalars_of(args) is Err,
    decreases args.len(),
{
    if args.len() > 0 {
        let rest = args.drop_last();
        law_scalars_read(rest, i, v);
        assert(args[args.len() - 1] == args.last());
        if 0 <= i < rest.len() {
            assert(rest[i] == args[i]);
        }
    }
}

/// A call runs one level deeper, on the receiver the mutation finds and with the
/// arguments it binds; it fails where any of these does, or the caller's row is gone.
pub proof fn law_call_framed(p: ProgramView, depth: usize, mutation: CompiledMutation, args: Seq<SuppliedArg>)
    ensures
        call_framed(p, depth, mutation, args) is Ok <==> called_depth(depth) is Ok && called_receiver(p.receiver, mutation)
            is Ok && receiver_gone(p) is None && args_bound(mutation.params@, args) is Ok,
        call_framed(p, depth, mutation, args) matches Ok((deeper, receiver, params)) ==> deeper == depth + 1 && receiver
            == called_receiver(p.receiver, mutation)->Ok_0 && params == args_bound(mutation.params@, args)->Ok_0,
        receiver_gone(p) is Some <==> p.receiver is Some && !p.state.contains_key(p.receiver->0.address),
{
}

/// A patch of one row patches that row; a patch of a selection patches the rows of the
/// collection with the keys that were matched, and of no other.
pub proof fn law_patch_planned(compiled: Compiled, p: ProgramView, place: Place, matched: Result<Cell, Rejection>)
    ensures
        patch_planned(compiled, p, PatchBase::Row(place)) matches Ok(plan) ==> (plan matches PatchPlanView::Single(row)
            && selected(compiled, p, place) == Ok::<Option<TargetView>, RejectionView>(Some(row))),
        selected(compiled, p, place) matches Ok(None) ==> patch_planned(compiled, p, PatchBase::Row(place)) is Err,
        patch_planned(compiled, p, PatchBase::Selection { collection: place, matched }) matches Ok(plan) ==> (plan is Many
            && matched is Ok && located(compiled, p, place) is Ok && located(compiled, p, place)->Ok_0 is Some
            && plan->Many_0 == crate::execution::rows_keyed(
            located(compiled, p, place)->Ok_0->Some_0,
            crate::execution::keys_selected(matched->Ok_0@),
        )),
        matched is Err ==> patch_planned(compiled, p, PatchBase::Selection { collection: place, matched }) is Err,
{
}

/// An operand names a collection where it locates one, and a set-valued field of a row
/// otherwise; anything else it names is nothing to add to or to take from.
pub proof fn law_operand_named(compiled: Compiled, p: ProgramView, place: Place, loc: LocView, row: TargetView, field: Seq<char>)
    ensures
        located(compiled, p, place) == Ok::<Option<LocView>, RejectionView>(Some(loc)) ==> operand_named(compiled, p, place)
            == Ok::<OperandView, RejectionView>(OperandView::Collection(loc)),
        located(compiled, p, place) == Ok::<Option<LocView>, RejectionView>(None) && field_selected(compiled, p, place)
            == Ok::<Option<(TargetView, Seq<char>)>, RejectionView>(Some((row, field))) ==> operand_named(compiled, p, place)
            == Ok::<OperandView, RejectionView>(
            if set_field_at(compiled, row.path, field) {
                OperandView::SetField(row, field)
            } else {
                OperandView::Nothing
            },
        ),
        set_field_at(compiled, row.path, field) <==> (compiled.at(row.path) matches Some(c) && (crate::model::field_named(
            c.fields@,
            field,
        ) matches Some(f) && f.set_valued)),
{
}

/// The statements of a program are told apart by what they are written as.
pub proof fn law_statement_forms(s: Statement, e: Expr, name: String, args: Vec<Arg>)
    ensures
        s is Assign ==> statement_form(s) == StatementForm::Assign,
        s is Clear ==> statement_form(s) == StatementForm::Clear,
        s == Statement::Bare(e) && e is Plus ==> statement_form(s) == StatementForm::Bare(BareStatement::Insert),
        s == Statement::Bare(e) && e is Minus ==> statement_form(s) == StatementForm::Bare(BareStatement::Delete),
        s == Statement::Bare(e) && e is Negative ==> statement_form(s) == StatementForm::Bare(
            BareStatement::DeleteSelection,
        ),
        s == Statement::Bare(e) && e is Block ==> statement_form(s) == StatementForm::Bare(BareStatement::Patch),
        s == Statement::Return(e) && !(e is Call) ==> statement_form(s) == StatementForm::Return,
        ({
            let call = Expr::Call { callee: Box::new(Expr::Name(name)), args };
            &&& name@ == "assert"@ ==> bare_form(call) == BareStatement::Assert
            &&& name@ == "erase"@ ==> bare_form(call) == BareStatement::Erase && statement_form(Statement::Return(call))
                == StatementForm::ReturnErase
            &&& name@ != "assert"@ && name@ != "erase"@ ==> bare_form(call) == BareStatement::Call && statement_form(
                Statement::Return(call),
            ) == StatementForm::Return
        }),
{
    reveal_strlit("assert");
    reveal_strlit("erase");
    assert("assert"@.len() == 6 && "erase"@.len() == 5);
}

/// What a local is bound to goes by its expression: a call of a bound namespace is one
/// of the host, and an insertion or a deletion counts as one only for a collection.
pub proof fn law_binding_forms(value: Expr, namespaces: Seq<Seq<char>>, of_collection: bool)
    ensures
        namespace_call(value, namespaces) is Some ==> binding_form(value, namespaces, of_collection)
            == BindingForm::HostCall,
        value is Plus ==> binding_form(value, namespaces, true) == BindingForm::InsertedRow && binding_form(
            value,
            namespaces,
            false,
        ) == BindingForm::Value,
        value is Minus ==> binding_form(value, namespaces, true) == BindingForm::DeletedKeys && binding_form(
            value,
            namespaces,
            false,
        ) == BindingForm::Value,
{
}

/// A call is one of a namespace if and only if its callee is a plain member of a name
/// that is bound; then it is of that namespace, that function and those arguments.
pub proof fn law_namespace_call(base: Expr, member: String, structural: bool, args: Vec<Arg>, namespaces: Seq<Seq<char>>, name: String)
    ensures
        ({
            let call = Expr::Call {
                callee: Box::new(Expr::Field { base: Box::new(base), member, structural }),
                args,
            };
            &&& base == Expr::Name(name) && !structural && namespaces.contains(name@) ==> namespace_call(call, namespaces)
                == Some((name, member, args))
            &&& namespace_call(call, namespaces) is Some ==> !structural && base is Name && namespaces.contains(
                base->Name_0@,
            )
            &&& called_mutation(Expr::Field { base: Box::new(base), member, structural }) == (if base is Current && !structural {
                Some(member)
            } else {
                None
            })
            &&& called_mutation(Expr::Name(name)) == Some(name)
            &&& ring_named(Expr::Field { base: Box::new(base), member, structural }) == (if base is Root && !structural {
                Some(member)
            } else {
                None
            })
            &&& ring_named(Expr::Name(name)) is None
        }),
{
}

/// An object member supplies the value it names; a bare name, parameter or member access
/// stands for itself; and a cleared member writes the absence of a value.
pub proof fn law_supplied_pairs(name: String, value: Expr, base: Box<Expr>, structural: bool)
    ensures
        supplied_pair(Member::Named(name, Some(value))) == Some((name, value)),
        supplied_pair(Member::Shorthand(Expr::Param(name))) == Some((name, Expr::Param(name))),
        supplied_pair(Member::Shorthand(Expr::Name(name))) == Some((name, Expr::Name(name))),
        supplied_pair(Member::Shorthand(Expr::Field { base, member: name, structural })) == Some(
            (name, Expr::Field { base, member: name, structural }),
        ),
        patched_pair(Member::Clear(name)) == Some((name, None::<Expr>)),
        patched_pair(Member::Named(name, Some(value))) == Some((name, Some(value))),
{
}

/// A failed assertion says the message it was given, where that is a text.
pub proof fn law_assertion_message(condition: Arg, text: String)
    ensures
        assertion_message(seq![condition, Arg::Positional(Expr::Text(text))]) == text@,
        assertion_message(seq![condition]) == "assertion failed"@,
{
}

/// Of entries of one lineage the last counts, and only lineages with an entry are
/// there.
pub proof fn law_by_lineage(entries: Seq<LineageEntry>, i: int, lineage: Seq<char>)
    ensures
        by_lineage(entries).contains_key(lineage) <==> exists|k: int|
            0 <= k < entries.len() && (#[trigger] entries[k]).lineage == lineage,
        0 <= i < entries.len() && entries[i].lineage == lineage && (forall|k: int|
            i < k < entries.len() ==> (#[trigger] entries[k]).lineage != lineage) ==> by_lineage(entries)[lineage]
            == entries[i],
    decreases entries.len(),
{
    if entries.len() > 0 {
        let rest = entries.drop_last();
        law_by_lineage(rest, i, lineage);
        assert(entries[entries.len() - 1] == entries.last());
        assert forall|k: int| 0 <= k < rest.len() implies #[trigger] rest[k] == entries[k] by {}
        if 0 <= i < rest.len() {
            assert(rest[i] == entries[i]);
        }
        if by_lineage(rest).contains_key(lineage) {
            let k = choose|k: int| 0 <= k < rest.len() && (#[trigger] rest[k]).lineage == lineage;
            assert(entries[k].lineage == lineage);
        }
        if exists|k: int| 0 <= k < entries.len() && (#[trigger] entries[k]).lineage == lineage {
            let k = choose|k: int| 0 <= k < entries.len() && (#[trigger] entries[k]).lineage == lineage;
            if k < rest.len() {
                assert(rest[k].lineage == lineage);
            }
        }
    }
}

/// The member of a name of a document is the first that has it.
pub proof fn law_json_member(members: Seq<(Seq<char>, JsonView)>, name: Seq<char>, i: int)
    ensures
        json_member(members, name) is None <==> forall|k: int| 0 <= k < members.len() ==> (#[trigger] members[k]).0 != name,
        0 <= i < members.len() && members[i].0 == name && (forall|k: int| 0 <= k < i ==> (#[trigger] members[k]).0 != name)
            ==> json_member(members, name) == Some(members[i].1),
    decreases members.len(),
{
    if members.len() > 0 {
        let rest = members.drop_first();
        law_json_member(rest, name, i - 1);
        assert forall|k: int| 0 <= k < rest.len() implies #[trigger] rest[k] == members[k + 1] by {}
        if json_member(members, name) is None {
            assert forall|k: int| 0 <= k < members.len() implies (#[trigger] members[k]).0 != name by {
                if k > 0 {
                    assert(rest[k - 1] == members[k]);
                }
            }
        } else if forall|k: int| 0 <= k < members.len() ==> (#[trigger] members[k]).0 != name {
            assert forall|k: int| 0 <= k < rest.len() implies (#[trigger] rest[k]).0 != name by {
                assert(rest[k] == members[k + 1]);
            }
        }
        if 0 < i < members.len() && members[i].0 == name && (forall|k: int|
            0 <= k < i ==> (#[trigger] members[k]).0 != name) {
            assert(rest[i - 1] == members[i]);
            assert forall|k: int| 0 <= k < i - 1 implies (#[trigger] rest[k]).0 != name by {
                assert(rest[k] == members[k + 1]);
            }
        }
    }
}

/// The link of a lineage is the first of it in a line of descent.
pub proof fn law_link_index(links: Seq<LinkView>, lineage: Seq<char>)
    ensures
        match link_index(links, lineage) {
            Some(i) => 0 <= i < links.len() && links[i].lineage == lineage && forall|k: int|
                0 <= k < i ==> (#[trigger] links[k]).lineage != lineage,
            None => forall|k: int| 0 <= k < links.len() ==> (#[trigger] links[k]).lineage != lineage,
        },
    decreases links.len(),
{
    if links.len() > 0 {
        let rest = links.drop_last();
        law_link_index(rest, lineage);
        assert(links[links.len() - 1] == links.last());
        assert forall|k: int| 0 <= k < rest.len() implies #[trigger] links[k] == rest[k] by {}
        if let Some(i) = link_index(rest, lineage) {
            assert(links[i] == rest[i]);
        }
    }
}

/// A patched row that is gone is passed over; one that is there is put in place with its
/// normalized fields, or refuses the deletion where they were refused. The same of a row
/// that members are taken from.
pub proof fn law_survivors(compiled: Compiled, p: ProgramView, row: PatchedRow, thin: ThinnedRow)
    ensures
        row.address is None || !p.state.contains_key(row.address->0@) ==> after_patch(compiled, p, row) == Ok::<
            ProgramView,
            RejectionView,
        >(p),
        row.address is Some && p.state.contains_key(row.address->0@) && row.normalized is Err ==> after_patch(compiled, p, row)
            is Err,
        row.address is Some && p.state.contains_key(row.address->0@) && row.normalized is Ok ==> after_patch(compiled, p, row)
            == placed(compiled, p, row.address->0@, seq![row.row.collection@], row.normalized->Ok_0@),
        thin.address is None || !p.state.contains_key(thin.address->0@) ==> after_removal(compiled, p, thin) == Ok::<
            ProgramView,
            RejectionView,
        >(p),
        thin.address is Some && p.state.contains_key(thin.address->0@) ==> after_removal(compiled, p, thin) == placed(
            compiled,
            p,
            thin.address->0@,
            seq![thin.row.collection@],
            crate::deletion::thinned(p.state[thin.address->0@], thin.removals@),
        ),
{
}

/// Survivors of a deletion are put in place one after the other, none left out: the last
/// goes on from what the others came to, and the first refusal refuses them all.
pub proof fn law_survivors_in_turn(
    compiled: Compiled,
    p: ProgramView,
    rows: Seq<PatchedRow>,
    row: PatchedRow,
    thinned: Seq<ThinnedRow>,
    thin: ThinnedRow,
)
    ensures
        after_patches(compiled, p, Seq::empty()) == Ok::<ProgramView, RejectionView>(p),
        after_patches(compiled, p, rows) matches Ok(q) ==> after_patches(compiled, p, rows.push(row)) == after_patch(
            compiled,
            q,
            row,
        ),
        after_patches(compiled, p, rows) is Err ==> after_patches(compiled, p, rows.push(row)) == after_patches(
            compiled,
            p,
            rows,
        ),
        after_removals(compiled, p, Seq::empty()) == Ok::<ProgramView, RejectionView>(p),
        after_removals(compiled, p, thinned) matches Ok(q) ==> after_removals(compiled, p, thinned.push(thin))
            == after_removal(compiled, q, thin),
        after_removals(compiled, p, thinned) is Err ==> after_removals(compiled, p, thinned.push(thin)) == after_removals(
            compiled,
            p,
            thinned,
        ),
{
    assert(rows.push(row).drop_last() =~= rows);
    assert(thinned.push(thin).drop_last() =~= thinned);
}

/// The functions an expression may call are those of the required namespaces that have
/// any, but for the key-ring contract's.
pub proof fn law_signatures(wanted: Map<Seq<char>, Seq<char>>, functions: Map<Seq<char>, Seq<Function>>, local: Seq<char>, i: int)
    ensures
        signatures_of(wanted, functions).contains_key(local) <==> wanted.contains_key(local) && wanted[local]
            != COSE_CONTRACT@ && functions.contains_key(local) && functions[local].len() > 0,
        signatures_of(wanted, functions).contains_key(local) && 0 <= i < functions[local].len() ==> signatures_of(
            wanted,
            functions,
        )[local].contains_key(functions[local][i].name@),
{
    if signatures_of(wanted, functions).contains_key(local) && 0 <= i < functions[local].len() {
        lemma_ops_named(functions[local], crate::host::origin_in(wanted[local]), functions[local].len(), i);
    }
}

proof fn lemma_ops_named(functions: Seq<Function>, origin: crate::host::HostOrigin, n: nat, i: int)
    requires
        0 <= i < n <= functions.len(),
    ensures
        ops_of(functions, origin, n).contains_key(functions[i].name@),
    decreases n,
{
    if i < n - 1 {
        lemma_ops_named(functions, origin, (n - 1) as nat, i);
    }
}

/// The first name that no member has is missing, and those before it are not.
pub proof fn law_first_missing(names: Seq<Seq<char>>, members: Seq<(Seq<char>, ValueView)>, i: int)
    requires
        0 <= i < names.len(),
        member_named(members, names[i]) is None,
        forall|k: int| 0 <= k < i ==> member_named(members, #[trigger] names[k]) is Some,
    ensures
        first_missing(names, members) == names[i],
    decreases names.len(),
{
    if i > 0 {
        let rest = names.drop_first();
        assert(member_named(members, names[0]) is Some);
        assert(rest[i - 1] == names[i]);
        assert forall|k: int| 0 <= k < i - 1 implies member_named(members, #[trigger] rest[k]) is Some by {
            assert(rest[k] == names[k + 1]);
        }
        law_first_missing(rest, members, i - 1);
    }
}

/// A minus sign makes a number its opposite.
pub proof fn law_decimal_sign(text: Seq<char>)
    requires
        text.len() > 0,
        text[0] != '-',
    ensures
        decimal_value(seq!['-'] + text) == -decimal_value(text),
{
    let minus = seq!['-'] + text;
    assert(minus.skip(1) =~= text);
    assert(crate::decimal::unsigned(minus) == text);
    assert(crate::decimal::unsigned(text) == text);
}

/// A whole numeral is the number its digits write, and a point divides it by ten for
/// each digit behind it.
pub proof fn law_decimal_value(head: Seq<char>, tail: Seq<char>)
    requires
        head.len() > 0,
        head[0] != '-',
        !head.contains('.'),
    ensures
        decimal_value(head) == crate::text::digits_value(head) as real,
        decimal_value(head + seq!['.'] + tail) * power_of_ten(tail.len()) == crate::text::digits_value(head + tail) as real,
        power_of_ten(0) == 1real,
        power_of_ten(tail.len() + 1) == 10real * power_of_ten(tail.len()),
{
    let text = head + seq!['.'] + tail;
    head.index_of_first_ensures('.');
    text.index_of_first_ensures('.');
    assert(text[head.len() as int] == '.');
    assert(text.contains('.'));
    let p = text.index_of_first('.')->0;
    if p < head.len() {
        assert(head[p] == '.');
        assert(head.contains('.'));
    }
    if p > head.len() {
        assert(text.take(p)[head.len() as int] == '.');
        assert(text.take(p).contains('.'));
    }
    assert(text.take(p) =~= head);
    assert(text.skip(p + 1) =~= tail);
    assert(whole(text) == head && fraction(text) == tail);
    assert(whole(head) == head && fraction(head) =~= Seq::<char>::empty());
    assert(head + fraction(head) =~= head);
    lemma_power_positive(tail.len());
    let d = crate::text::digits_value(head + tail) as real;
    let t = power_of_ten(tail.len());
    assert(d / t * t == d) by (nonlinear_arith)
        requires
            t > 0real,
    ;
    let w = crate::text::digits_value(head) as real;
    assert(w / 1real == w) by (nonlinear_arith);
}

proof fn lemma_power_positive(n: nat)
    ensures
        power_of_ten(n) > 0real,
    decreases n,
{
    if n > 0 {
        lemma_power_positive((n - 1) as nat);
    }
}

/// Consumed meters fail with the first of their failures, and only if one fails.
pub proof fn law_consume_failures(work: Seq<ConsumeWork>)
    ensures
        first_consume_failure(work) is None <==> forall|k: int|
            0 <= k < work.len() ==> (#[trigger] work[k]).amount is Ok && work[k].time is Ok && crate::meter::first_failure(
                work[k].metadata@,
            ) is None,
    decreases work.len(),
{
    if work.len() > 0 {
        let rest = work.drop_first();
        law_consume_failures(rest);
        assert forall|k: int| 0 <= k < rest.len() implies #[trigger] rest[k] == work[k + 1] by {}
        if first_consume_failure(work) is None {
            assert forall|k: int| 0 <= k < work.len() implies (#[trigger] work[k]).amount is Ok && work[k].time is Ok
                && crate::meter::first_failure(work[k].metadata@) is None by {
                if k > 0 {
                    assert(rest[k - 1] == work[k]);
                }
            }
        } else if forall|k: int|
            0 <= k < work.len() ==> (#[trigger] work[k]).amount is Ok && work[k].time is Ok && crate::meter::first_failure(
                work[k].metadata@,
            ) is None {
            assert(work[0].amount is Ok);
            assert forall|k: int| 0 <= k < rest.len() implies (#[trigger] rest[k]).amount is Ok && rest[k].time is Ok
                && crate::meter::first_failure(rest[k].metadata@) is None by {
                assert(rest[k] == work[k + 1]);
            }
        }
    }
}

/// Every expression of a meter that reads the state is audited: those of its sources
/// and its eligibility.
pub proof fn law_read_positions(members: Seq<(String, Doc)>, i: int, j: int)
    requires
        0 <= i < members.len(),
    ensures
        members[i].0@ == "$sources"@ && 0 <= j < texts_within(members[i].1).len() ==> read_positions(members).contains(
            texts_within(members[i].1)[j].1,
        ),
        members[i].0@ == "$eligible"@ && crate::doc::text_of(members[i].1) is Some ==> read_positions(members).contains(
            crate::doc::text_of(members[i].1)->0,
        ),
        members[i].0@ == "$order"@ && 0 <= j < crate::meter::order_within(members[i].1).len() ==> read_positions(
            members,
        ).contains(crate::meter::order_within(members[i].1)[j].0),
    decreases members.len(),
{
    reveal_strlit("$sources");
    reveal_strlit("$order");
    reveal_strlit("$eligible");
    assert("$sources"@.len() == 8 && "$order"@.len() == 6 && "$eligible"@.len() == 9);
    let rest = members.drop_last();
    let before = read_positions(rest);
    let after = read_positions(members);
    assert(members[members.len() - 1] == members.last());
    if i < rest.len() {
        law_read_positions(rest, i, j);
        assert(rest[i] == members[i]);
        assert forall|t: Seq<char>| before.contains(t) implies after.contains(t) by {
            let k = choose|k: int| 0 <= k < before.len() && before[k] == t;
            assert(after[k] == t);
        }
    } else {
        let sources = second_texts(texts_within(members[i].1));
        let order = crate::meter::first_texts(crate::meter::order_within(members[i].1));
        if members[i].0@ == "$sources"@ && 0 <= j < sources.len() {
            assert(after[before.len() + j] == sources[j]);
        }
        if members[i].0@ == "$order"@ && 0 <= j < order.len() {
            assert(after[before.len() + j] == order[j]);
        }
        if members[i].0@ == "$eligible"@ && crate::doc::text_of(members[i].1) is Some {
            assert(after[before.len() as int] == crate::doc::text_of(members[i].1)->0);
        }
    }
}

/// Every text of a declaration of consumed meters is audited.
pub proof fn law_consume_positions(members: Seq<(String, Doc)>, n: int, i: int, j: int)
    requires
        0 <= i < n <= members.len(),
    ensures
        members[i].1 matches Doc::Text(t) ==> consume_positions(members, n).contains(t@),
        members[i].1 matches Doc::Object(config) ==> (0 <= j < text_members(config@).len() ==> consume_positions(
            members,
            n,
        ).contains(text_members(config@)[j].1)),
    decreases n,
{
    let before = consume_positions(members, n - 1);
    let after = consume_positions(members, n);
    if i < n - 1 {
        law_consume_positions(members, n - 1, i, j);
        assert forall|t: Seq<char>| before.contains(t) implies after.contains(t) by {
            let k = choose|k: int| 0 <= k < before.len() && before[k] == t;
            assert(after[k] == t);
        }
    } else {
        match members[i].1 {
            Doc::Text(t) => {
                assert(after[before.len() as int] == t@);
            },
            Doc::Object(config) => {
                let more = second_texts(text_members(config@));
                if 0 <= j < more.len() {
                    assert(after[before.len() + j] == more[j]);
                }
            },
            _ => {},
        }
    }
}

} // verus!
