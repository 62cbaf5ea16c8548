//! What a replaced collection holds: exactly the rows that replace it.

use crate::address::{below, in_collection, RowAddress, StepView};
use crate::deletion::{
    after_deletes, after_patches, after_removals, in_plan, law_deletes_exact, thinned, PatchedRow, PlannedDeletion,
    ThinnedRow,
};
use crate::inbound::law_rows_stay;
use crate::interp::{
    absent_from, first_repeated, law_replaced_top, none_held, replaced, resolutions, staged, staged_addresses,
    with_rows,
};
use crate::model::Compiled;
use crate::program::{keyed_address, placed, subtree_moved, CollectionLoc, ProgramView};
use crate::rejection::{Rejection, RejectionView};
use crate::run::{performed, Step};
use crate::state::{rows_of, Fields, FieldsView, StateView};
use crate::text::texts;
use vstd::prelude::*;

verus! {

/// Whether a planned deletion takes all these rows.
pub open spec fn covers(plan: PlannedDeletion, rows: Seq<Seq<StepView>>) -> bool {
    forall|i: int| 0 <= i < rows.len() ==> in_plan(plan.deletes@, #[trigger] rows[i])
}

/// Whether a row stands outside a top-level collection.
pub open spec fn outside(at: Option<RowAddress>, collection: Seq<char>) -> bool {
    at matches Some(a) ==> a@.len() > 0 && !in_collection(Seq::empty(), collection, a@)
}

/// Whether no deletion policy reaches back into a top-level collection: none of these
/// rows of it is taken, and no row of it is patched or thinned.
pub open spec fn reaches_not_back(plan: PlannedDeletion, collection: Seq<char>, rows: Seq<Seq<StepView>>) -> bool {
    &&& forall|i: int| 0 <= i < rows.len() ==> !in_plan(plan.deletes@, #[trigger] rows[i])
    &&& forall|i: int| 0 <= i < plan.patches@.len() ==> outside((#[trigger] plan.patches@[i]).address, collection)
    &&& forall|i: int|
        0 <= i < plan.member_removals@.len() ==> outside((#[trigger] plan.member_removals@[i]).address, collection)
}

proof fn lemma_placed_outside(
    compiled: Compiled,
    p: ProgramView,
    a: Seq<StepView>,
    path: Seq<Seq<char>>,
    row: FieldsView,
    collection: Seq<char>,
    address: Seq<StepView>,
)
    requires
        p.state.contains_key(a),
        a.len() > 0,
        !in_collection(Seq::empty(), collection, a),
        in_collection(Seq::empty(), collection, address),
        placed(compiled, p, a, path, row) is Ok,
    ensures
        placed(compiled, p, a, path, row)->Ok_0.state.contains_key(address) == p.state.contains_key(address),
{
    let new_at = keyed_address(compiled, (a.drop_last(), a.last().name), path, row)->Ok_0;
    assert(new_at.drop_last() =~= a.drop_last());
    assert(new_at.last().name == a.last().name);
    assert(new_at != address);
    if new_at != a {
        let state = subtree_moved(p.state, a, new_at, row);
        assert(!below(new_at, address));
        assert(!below(a, address));
        assert(state.contains_key(address) == p.state.contains_key(address));
        if a.len() == 1 && path.len() > 0 {
            law_rows_stay(compiled, state, path[0], a.last().key, new_at.last().key);
            let after = placed(compiled, p, a, path, row)->Ok_0.state;
            assert(after.dom() == state.dom());
            assert(after.dom().contains(address) == state.dom().contains(address));
        }
    }
}

proof fn lemma_patches_outside(
    compiled: Compiled,
    p: ProgramView,
    rows: Seq<PatchedRow>,
    collection: Seq<char>,
    address: Seq<StepView>,
)
    requires
        forall|i: int| 0 <= i < rows.len() ==> outside((#[trigger] rows[i]).address, collection),
        in_collection(Seq::empty(), collection, address),
        after_patches(compiled, p, rows) is Ok,
    ensures
        after_patches(compiled, p, rows)->Ok_0.state.contains_key(address) == p.state.contains_key(address),
    decreases rows.len(),
{
    if rows.len() > 0 {
        let before = rows.drop_last();
        assert forall|i: int| 0 <= i < before.len() implies outside((#[trigger] before[i]).address, collection) by {
            assert(before[i] == rows[i]);
        }
        lemma_patches_outside(compiled, p, before, collection, address);
        let q = after_patches(compiled, p, before)->Ok_0;
        let row = rows.last();
        assert(outside(rows[rows.len() - 1].address, collection));
        if let Some(a) = row.address {
            if q.state.contains_key(a@) {
                lemma_placed_outside(
                    compiled,
                    q,
                    a@,
                    seq![row.row.collection@],
                    row.normalized->Ok_0@,
                    collection,
                    address,
                );
            }
        }
    }
}

proof fn lemma_removals_outside(
    compiled: Compiled,
    p: ProgramView,
    rows: Seq<ThinnedRow>,
    collection: Seq<char>,
    address: Seq<StepView>,
)
    requires
        forall|i: int| 0 <= i < rows.len() ==> outside((#[trigger] rows[i]).address, collection),
        in_collection(Seq::empty(), collection, address),
        after_removals(compiled, p, rows) is Ok,
    ensures
        after_removals(compiled, p, rows)->Ok_0.state.contains_key(address) == p.state.contains_key(address),
    decreases rows.len(),
{
    if rows.len() > 0 {
        let before = rows.drop_last();
        assert forall|i: int| 0 <= i < before.len() implies outside((#[trigger] before[i]).address, collection) by {
            assert(before[i] == rows[i]);
        }
        lemma_removals_outside(compiled, p, before, collection, address);
        let q = after_removals(compiled, p, before)->Ok_0;
        let row = rows.last();
        assert(outside(rows[rows.len() - 1].address, collection));
        if let Some(a) = row.address {
            if q.state.contains_key(a@) {
                lemma_placed_outside(
                    compiled,
                    q,
                    a@,
                    seq![row.row.collection@],
                    thinned(q.state[a@], row.removals@),
                    collection,
                    address,
                );
            }
        }
    }
}

/// After a top-level collection has been replaced, its keys are exactly those of the
/// batch, where the plan takes every row that the batch lacks and no deletion policy
/// reaches back into the collection.
pub proof fn law_replacement(
    compiled: Compiled,
    p: ProgramView,
    depth: usize,
    loc: CollectionLoc,
    rows: Vec<Result<Fields, Rejection>>,
    plan: PlannedDeletion,
    address: Seq<StepView>,
)
    requires
        p.state.dom().finite(),
        loc.decl@.len() <= 1,
        loc.store_path@.0.len() == 0,
        in_collection(loc.store_path@.0, loc.store_path@.1, address),
        performed(compiled, p, depth, Step::Replace(loc, rows, Ok(plan))) is Ok,
        ({
            let batch = staged_addresses(
                staged(compiled, loc.store_path@, texts(loc.decl@), resolutions(rows@))->Ok_0,
            );
            &&& covers(plan, absent_from(rows_of(p.state, loc.store_path@), batch))
            &&& reaches_not_back(plan, loc.store_path@.1, batch)
        }),
    ensures
        performed(compiled, p, depth, Step::Replace(loc, rows, Ok(plan)))->Ok_0.state.contains_key(address)
            <==> staged_addresses(
            staged(compiled, loc.store_path@, texts(loc.decl@), resolutions(rows@))->Ok_0,
        ).contains(address),
{
    let at = loc.store_path@;
    let path = texts(loc.decl@);
    let resolved = resolutions(rows@);
    let batch = staged_addresses(staged(compiled, at, path, resolved)->Ok_0);
    let dropped = absent_from(rows_of(p.state, at), batch);
    let (q, targets) = replaced(compiled, p, at, path, resolved)->Ok_0;
    law_replaced_top(compiled, p, at, path, resolved, address);
    assert(at.0 =~= Seq::empty());
    if targets.len() == 0 {
        assert(dropped.len() == 0);
        assert(!dropped.contains(address));
    } else {
        law_deletes_exact(q.state, plan.deletes@, address);
        if batch.contains(address) {
            let i = choose|i: int| 0 <= i < batch.len() && batch[i] == address;
            assert(!in_plan(plan.deletes@, batch[i]));
        }
        if dropped.contains(address) {
            let i = choose|i: int| 0 <= i < dropped.len() && dropped[i] == address;
            assert(in_plan(plan.deletes@, dropped[i]));
        }
        let removed = ProgramView {
            state: after_deletes(q.state, plan.deletes@),
            receiver: q.receiver,
            touched: q.touched,
            extracts: q.extracts,
            drawn: q.drawn,
        };
        lemma_patches_outside(compiled, removed, plan.patches@, at.1, address);
        let patched = after_patches(compiled, removed, plan.patches@)->Ok_0;
        lemma_removals_outside(compiled, patched, plan.member_removals@, at.1, address);
    }
}

proof fn lemma_distinct(addresses: Seq<Seq<StepView>>, n: int)
    requires
        0 <= n <= addresses.len(),
        first_repeated(addresses, none_held(), n) is None,
    ensures
        forall|j: int| n <= j < addresses.len() ==> !addresses.take(j).contains(#[trigger] addresses[j]),
    decreases addresses.len() - n,
{
    if n < addresses.len() {
        lemma_distinct(addresses, n + 1);
    }
}

proof fn lemma_row_put(state: StateView, rows: Seq<(Seq<StepView>, FieldsView)>, i: int)
    requires
        0 <= i < rows.len(),
        forall|j: int| i < j < rows.len() ==> (#[trigger] rows[j]).0 != rows[i].0,
    ensures
        with_rows(state, rows).contains_key(rows[i].0),
        with_rows(state, rows)[rows[i].0] == rows[i].1,
    decreases rows.len(),
{
    if i < rows.len() - 1 {
        let before = rows.drop_last();
        assert forall|j: int| i < j < before.len() implies (#[trigger] before[j]).0 != before[i].0 by {
            assert(before[j] == rows[j]);
        }
        lemma_row_put(state, before, i);
        assert(rows[rows.len() - 1].0 != rows[i].0);
    }
}

/// Each row of a replacement holds what the batch gives it, and nothing of what the row
/// with its key held before.
pub proof fn law_replacement_values(
    compiled: Compiled,
    p: ProgramView,
    at: (Seq<StepView>, Seq<char>),
    path: Seq<Seq<char>>,
    resolved: Seq<Result<FieldsView, RejectionView>>,
    i: int,
)
    requires
        path.len() <= 1,
        replaced(compiled, p, at, path, resolved) is Ok,
        0 <= i < staged(compiled, at, path, resolved)->Ok_0.len(),
    ensures
        ({
            let row = staged(compiled, at, path, resolved)->Ok_0[i];
            let after = replaced(compiled, p, at, path, resolved)->Ok_0.0.state;
            after.contains_key(row.0) && after[row.0] == row.1
        }),
{
    let rows = staged(compiled, at, path, resolved)->Ok_0;
    let batch = staged_addresses(rows);
    lemma_distinct(batch, 0);
    assert forall|j: int| i < j < rows.len() implies (#[trigger] rows[j]).0 != rows[i].0 by {
        assert(!batch.take(j).contains(batch[j]));
        if rows[j].0 == rows[i].0 {
            assert(batch.take(j)[i] == batch[j]);
        }
    }
    lemma_row_put(p.state, rows, i);
}

} // verus!
