//! What a program writes, it lists: after any program, a row that is not listed as
//! touched is as it was before.

use crate::address::{below, law_reroot, names_of, rerooted, RowAddress, StepView};
use crate::deletion::{
    after_deletes, after_patches, after_removals, deletion_applied, law_deletes_exact, nested_removed, thinned,
    PatchedRow, PlannedDeletion, ThinnedRow,
};
use crate::calls::call_entered;
use crate::execution::{call_framed, rows_patched, PatchPlanView};
use crate::inbound::{affected_at, lemma_unaffected, move_of, referrers};
use crate::interp::{
    absent_from, lemma_row_stays, lemma_with_rows, replaced, resolutions, staged, staged_addresses, with_rows,
    without_subtrees,
};
use crate::model::Compiled;
use crate::program::{keyed_address, marked, marked_all, moved, placed, subtree_moved, ProgramView, TargetView};
use crate::rejection::{outcome, RejectionView};
use crate::run::{performed, planned_away, steps_run, Step};
use crate::state::{descendants, rows_of, FieldsView, StateView};
use crate::statements::{row_inserted, rows_inserted};
use crate::table::lemma_sorted_exists;
use crate::text::texts;
use crate::value::{views, ValueView};
use vstd::prelude::*;

verus! {

/// Whether what a program did from `p` to `q` is listed: the rows listed before still
/// are, and every row of `q` is listed or as it was in `p`. The extracts kept before
/// come first among those kept after. A finite state stays finite.
pub open spec fn accounted(p: ProgramView, q: ProgramView) -> bool {
    &&& p.state.dom().finite() ==> q.state.dom().finite()
    &&& p.extracts.is_prefix_of(q.extracts)
    &&& forall|a: Seq<StepView>| #[trigger] p.touched.contains(a) ==> q.touched.contains(a)
    &&& forall|a: Seq<StepView>| #[trigger]
        q.state.contains_key(a) ==> q.touched.contains(a) || p.state.contains_key(a) && p.state[a] == q.state[a]
}

proof fn lemma_marked(touched: Seq<Seq<StepView>>, address: Seq<StepView>)
    ensures
        marked(touched, address).contains(address),
        forall|a: Seq<StepView>| #[trigger] touched.contains(a) ==> marked(touched, address).contains(a),
        forall|a: Seq<StepView>| #[trigger]
            marked(touched, address).contains(a) ==> touched.contains(a) || a == address,
{
    if !touched.contains(address) {
        let all = touched.push(address);
        assert(all[touched.len() as int] == address);
        assert forall|a: Seq<StepView>| #[trigger] touched.contains(a) implies all.contains(a) by {
            let i = choose|i: int| 0 <= i < touched.len() && touched[i] == a;
            assert(all[i] == a);
        }
        assert forall|a: Seq<StepView>| #[trigger] all.contains(a) implies touched.contains(a) || a == address by {
            let i = choose|i: int| 0 <= i < all.len() && all[i] == a;
            if i < touched.len() {
                assert(touched[i] == a);
            }
        }
    }
}

proof fn lemma_marked_all(touched: Seq<Seq<StepView>>, addresses: Seq<Seq<StepView>>)
    ensures
        forall|a: Seq<StepView>| #[trigger] touched.contains(a) ==> marked_all(touched, addresses).contains(a),
        forall|a: Seq<StepView>| #[trigger] addresses.contains(a) ==> marked_all(touched, addresses).contains(a),
    decreases addresses.len(),
{
    if addresses.len() > 0 {
        let before = addresses.drop_last();
        lemma_marked_all(touched, before);
        lemma_marked(marked_all(touched, before), addresses.last());
        assert forall|a: Seq<StepView>| #[trigger] addresses.contains(a) implies marked_all(
            touched,
            addresses,
        ).contains(a) by {
            let i = choose|i: int| 0 <= i < addresses.len() && addresses[i] == a;
            if i < before.len() {
                assert(before[i] == a);
                assert(before.contains(a));
            }
        }
    }
}

proof fn lemma_then(p: ProgramView, q: ProgramView, r: ProgramView)
    requires
        accounted(p, q),
        accounted(q, r),
    ensures
        accounted(p, r),
{
    assert forall|a: Seq<StepView>| #[trigger] r.state.contains_key(a) implies r.touched.contains(a)
        || p.state.contains_key(a) && p.state[a] == r.state[a] by {
        if !r.touched.contains(a) {
            assert(q.state.contains_key(a));
            assert(!q.touched.contains(a));
        }
    }
}

/// Rows taken away, and nothing else, leave nothing to list.
proof fn lemma_less(p: ProgramView, q: ProgramView)
    requires
        q.touched == p.touched,
        q.extracts == p.extracts,
        q.state.submap_of(p.state),
    ensures
        accounted(p, q),
{
    if p.state.dom().finite() {
        assert(q.state.dom().subset_of(p.state.dom()));
        vstd::set_lib::lemma_set_subset_finite(p.state.dom(), q.state.dom());
    }
}

proof fn lemma_subtree_finite(state: StateView, old_at: Seq<StepView>, new_at: Seq<StepView>, row: FieldsView)
    requires
        state.dom().finite(),
    ensures
        subtree_moved(state, old_at, new_at, row).dom().finite(),
{
    let to = |b: Seq<StepView>| rerooted(new_at, b, old_at.len());
    state.dom().lemma_map_finite(to);
    let bound = state.dom().union(state.dom().map(to)).insert(new_at);
    let after = subtree_moved(state, old_at, new_at, row).dom();
    assert forall|a: Seq<StepView>| after.contains(a) implies bound.contains(a) by {
        let b = rerooted(old_at, a, new_at.len());
        if below(new_at, a) && state.contains_key(b) {
            law_reroot(new_at, old_at, a);
            assert(state.dom().contains(b) && a == to(b));
        }
    }
    vstd::set_lib::lemma_set_subset_finite(bound, after);
}

/// Putting a row in its place lists what it writes: the row, the subtree that moves
/// with it, and the rows whose references follow.
proof fn lemma_placed(
    compiled: Compiled,
    p: ProgramView,
    address: Seq<StepView>,
    path: Seq<Seq<char>>,
    row: FieldsView,
    q: ProgramView,
)
    requires
        p.state.dom().finite(),
        placed(compiled, p, address, path, row) == Ok::<ProgramView, RejectionView>(q),
    ensures
        accounted(p, q),
{
    let new_at = keyed_address(
        compiled,
        (address.drop_last(), address.last().name),
        path,
        row,
    )->Ok_0;
    if new_at == address {
        lemma_marked(p.touched, address);
    } else {
        let subtree = descendants(p.state, address);
        let places = moved(subtree, new_at, address.len());
        let state = subtree_moved(p.state, address, new_at, row);
        let first = marked_all(p.touched, places);
        lemma_marked_all(p.touched, places);
        lemma_subtree_finite(p.state, address, new_at, row);
        let under = p.state.dom().filter(|a: Seq<StepView>| below(address, a));
        lemma_sorted_exists::<RowAddress>(under);
        assert forall|a: Seq<StepView>| #[trigger] state.contains_key(a) && a != new_at implies first.contains(a)
            || p.state.contains_key(a) && p.state[a] == state[a] by {
            let b = rerooted(address, a, new_at.len());
            if below(new_at, a) && p.state.contains_key(b) {
                law_reroot(new_at, address, a);
                assert(b.take(address.len() as int) =~= address);
                assert(below(address, b));
                assert(under.contains(b));
                assert(subtree.to_set().contains(b));
                let i = choose|i: int| 0 <= i < subtree.len() && subtree[i] == b;
                assert(places[i] == a);
                assert(places.contains(a));
            }
        }
        if address.len() == 1 && path.len() > 0 {
            let old_key = address.last().key;
            let new_key = new_at.last().key;
            let followers = referrers(compiled, state, path[0], old_key, new_key);
            let second = marked_all(first, followers);
            lemma_marked_all(first, followers);
            lemma_marked(second, new_at);
            assert(q.state.dom() =~= state.dom());
            if let Some(c) = compiled.top(path[0]) {
                let m = move_of(texts(c.key@), path[0], old_key, new_key);
                let affected = state.dom().filter(|a: Seq<StepView>| affected_at(compiled, a, state[a], m));
                lemma_sorted_exists::<RowAddress>(affected);
                assert forall|a: Seq<StepView>| #[trigger] q.state.contains_key(a) implies second.contains(a)
                    || q.state[a] == state[a] by {
                    if affected.contains(a) {
                        assert(followers.to_set().contains(a));
                        assert(followers.contains(a));
                    } else if let Some(held) = compiled.at(names_of(a)) {
                        lemma_unaffected(held.fields@, state[a], m);
                    }
                }
            }
        } else {
            lemma_marked(first, new_at);
        }
    }
}

proof fn lemma_inserted(
    compiled: Compiled,
    p: ProgramView,
    at: (Seq<StepView>, Seq<char>),
    path: Seq<Seq<char>>,
    resolved: Seq<Result<FieldsView, RejectionView>>,
    q: ProgramView,
)
    requires
        rows_inserted(compiled, p, at, path, resolved) == Ok::<ProgramView, RejectionView>(q),
    ensures
        accounted(p, q),
    decreases resolved.len(),
{
    if resolved.len() > 0 {
        let before = rows_inserted(compiled, p, at, path, resolved.drop_last())->Ok_0;
        lemma_inserted(compiled, p, at, path, resolved.drop_last(), before);
        let address = row_inserted(compiled, before, at, path, resolved.last())->Ok_0.1;
        lemma_marked(before.touched, address);
        lemma_then(p, before, q);
    }
}

proof fn lemma_put_rows(p: ProgramView, rows: Seq<(Seq<StepView>, FieldsView)>, q: ProgramView)
    requires
        q.state == with_rows(p.state, rows),
        q.touched == marked_all(p.touched, staged_addresses(rows)),
        q.extracts == p.extracts,
    ensures
        accounted(p, q),
{
    let batch = staged_addresses(rows);
    lemma_marked_all(p.touched, batch);
    if p.state.dom().finite() {
        lemma_rows_finite(p.state, rows);
    }
    assert forall|a: Seq<StepView>| #[trigger] q.state.contains_key(a) implies q.touched.contains(a)
        || p.state.contains_key(a) && p.state[a] == q.state[a] by {
        lemma_with_rows(p.state, rows, a);
        if !batch.contains(a) {
            lemma_row_stays(p.state, rows, a);
        }
    }
}

proof fn lemma_rows_finite(state: StateView, rows: Seq<(Seq<StepView>, FieldsView)>)
    requires
        state.dom().finite(),
    ensures
        with_rows(state, rows).dom().finite(),
    decreases rows.len(),
{
    if rows.len() > 0 {
        lemma_rows_finite(state, rows.drop_last());
    }
}

proof fn lemma_subtrees_less(state: StateView, addresses: Seq<Seq<StepView>>)
    ensures
        without_subtrees(state, addresses).submap_of(state),
    decreases addresses.len(),
{
    if addresses.len() > 0 {
        lemma_subtrees_less(state, addresses.drop_last());
    }
}

proof fn lemma_nested_less(state: StateView, at: (Seq<StepView>, Seq<char>), keys: Seq<ValueView>)
    ensures
        nested_removed(state, at, keys).submap_of(state),
    decreases keys.len(),
{
    if keys.len() > 0 {
        lemma_nested_less(state, at, keys.drop_last());
    }
}

proof fn lemma_replaced(
    compiled: Compiled,
    p: ProgramView,
    at: (Seq<StepView>, Seq<char>),
    path: Seq<Seq<char>>,
    resolved: Seq<Result<FieldsView, RejectionView>>,
)
    requires
        replaced(compiled, p, at, path, resolved) is Ok,
    ensures
        accounted(p, replaced(compiled, p, at, path, resolved)->Ok_0.0),
{
    let rows = staged(compiled, at, path, resolved)->Ok_0;
    let q = replaced(compiled, p, at, path, resolved)->Ok_0.0;
    let put = ProgramView {
        state: with_rows(p.state, rows),
        receiver: p.receiver,
        touched: marked_all(p.touched, staged_addresses(rows)),
        extracts: p.extracts,
        drawn: p.drawn + rows.len(),
    };
    lemma_put_rows(p, rows, put);
    if path.len() > 1 {
        lemma_subtrees_less(
            put.state,
            absent_from(rows_of(p.state, at), staged_addresses(rows)),
        );
    }
    lemma_less(put, q);
    lemma_then(p, put, q);
}

proof fn lemma_patched(
    compiled: Compiled,
    p: ProgramView,
    rows: Seq<TargetView>,
    normalized: Seq<Result<FieldsView, RejectionView>>,
    q: ProgramView,
)
    requires
        p.state.dom().finite(),
        rows_patched(compiled, p, rows, normalized) == Ok::<ProgramView, RejectionView>(q),
    ensures
        accounted(p, q),
    decreases rows.len(),
{
    if rows.len() > 0 && rows.len() == normalized.len() {
        let before = rows_patched(compiled, p, rows.drop_last(), normalized.drop_last())->Ok_0;
        lemma_patched(compiled, p, rows.drop_last(), normalized.drop_last(), before);
        let row = rows.last();
        if before.state.contains_key(row.address) {
            lemma_placed(compiled, before, row.address, row.path, normalized.last()->Ok_0, q);
        }
        lemma_then(p, before, q);
    }
}

proof fn lemma_after_patches(compiled: Compiled, p: ProgramView, rows: Seq<PatchedRow>, q: ProgramView)
    requires
        p.state.dom().finite(),
        after_patches(compiled, p, rows) == Ok::<ProgramView, RejectionView>(q),
    ensures
        accounted(p, q),
    decreases rows.len(),
{
    if rows.len() > 0 {
        let before = after_patches(compiled, p, rows.drop_last())->Ok_0;
        lemma_after_patches(compiled, p, rows.drop_last(), before);
        let row = rows.last();
        if let Some(a) = row.address {
            if before.state.contains_key(a@) {
                lemma_placed(compiled, before, a@, seq![row.row.collection@], row.normalized->Ok_0@, q);
            }
        }
        lemma_then(p, before, q);
    }
}

proof fn lemma_after_removals(compiled: Compiled, p: ProgramView, rows: Seq<ThinnedRow>, q: ProgramView)
    requires
        p.state.dom().finite(),
        after_removals(compiled, p, rows) == Ok::<ProgramView, RejectionView>(q),
    ensures
        accounted(p, q),
    decreases rows.len(),
{
    if rows.len() > 0 {
        let before = after_removals(compiled, p, rows.drop_last())->Ok_0;
        lemma_after_removals(compiled, p, rows.drop_last(), before);
        let row = rows.last();
        if let Some(a) = row.address {
            if before.state.contains_key(a@) {
                lemma_placed(
                    compiled,
                    before,
                    a@,
                    seq![row.row.collection@],
                    thinned(before.state[a@], row.removals@),
                    q,
                );
            }
        }
        lemma_then(p, before, q);
    }
}

proof fn lemma_deleted(compiled: Compiled, p: ProgramView, plan: PlannedDeletion, q: ProgramView)
    requires
        p.state.dom().finite(),
        deletion_applied(compiled, p, plan) == Ok::<ProgramView, RejectionView>(q),
    ensures
        accounted(p, q),
{
    let removed = ProgramView {
        state: after_deletes(p.state, plan.deletes@),
        receiver: p.receiver,
        touched: p.touched,
        extracts: p.extracts,
        drawn: p.drawn,
    };
    assert forall|a: Seq<StepView>| #[trigger] removed.state.contains_key(a) implies p.state.contains_key(a)
        && p.state[a] == removed.state[a] by {
        law_deletes_exact(p.state, plan.deletes@, a);
    }
    assert(removed.state.submap_of(p.state));
    lemma_less(p, removed);
    let patched = after_patches(compiled, removed, plan.patches@)->Ok_0;
    lemma_after_patches(compiled, removed, plan.patches@, patched);
    lemma_after_removals(compiled, patched, plan.member_removals@, q);
    lemma_then(p, removed, patched);
    lemma_then(p, patched, q);
}

/// One step lists what it writes; a called mutation lists it to its caller.
pub proof fn law_step_listed(compiled: Compiled, p: ProgramView, depth: usize, step: Step)
    requires
        p.state.dom().finite(),
        performed(compiled, p, depth, step) is Ok,
    ensures
        accounted(p, performed(compiled, p, depth, step)->Ok_0),
    decreases step, 0int,
{
    let q = performed(compiled, p, depth, step)->Ok_0;
    match step {
        Step::Insert(loc, resolved) => {
            let at = row_inserted(compiled, p, loc.store_path@, texts(loc.decl@), outcome(resolved))->Ok_0.1;
            lemma_marked(p.touched, at);
        },
        Step::Stage { parent, decl, child, rows } => {
            lemma_inserted(compiled, p, (parent@, child@), texts(decl@).push(child@), resolutions(rows@), q);
        },
        Step::InsertView(loc, rows) => {
            lemma_put_rows(p, staged(compiled, loc.store_path@, texts(loc.decl@), resolutions(rows@))->Ok_0, q);
        },
        Step::Replace(loc, rows, plan) => {
            lemma_replaced(compiled, p, loc.store_path@, texts(loc.decl@), resolutions(rows@));
            let (put, targets) = replaced(
                compiled,
                p,
                loc.store_path@,
                texts(loc.decl@),
                resolutions(rows@),
            )->Ok_0;
            if targets.len() > 0 {
                lemma_deleted(compiled, put, plan->Ok_0, q);
                lemma_then(p, put, q);
            }
        },
        Step::Write(row, normalized) => {
            lemma_placed(compiled, p, row@.address, row@.path, normalized->Ok_0@, q);
        },
        Step::Root(at, _) => {
            lemma_marked(p.touched, at@);
        },
        Step::Patch(plan, normalized) => match plan@ {
            PatchPlanView::Single(row) => {
                lemma_placed(compiled, p, row.address, row.path, resolutions(normalized@)[0]->Ok_0, q);
            },
            PatchPlanView::Many(rows) => {
                lemma_patched(compiled, p, rows, resolutions(normalized@), q);
            },
        },
        Step::Delete(loc, keys, plan) => {
            if loc@.decl.len() > 1 {
                lemma_nested_less(p.state, loc@.at, views(keys@));
                lemma_less(p, q);
            } else {
                lemma_deleted(compiled, p, plan->Ok_0, q);
            }
        },
        Step::Erase { plan, .. } => {
            lemma_deleted(compiled, p, plan->Ok_0, planned_away(compiled, p, plan)->Ok_0);
        },
        Step::Remove(plan) => {
            lemma_deleted(compiled, p, plan, q);
        },
        Step::Call { mutation, args, steps } => {
            let (deeper, receiver, _) = call_framed(p, depth, mutation, args@)->Ok_0;
            let entered = call_entered(p, receiver);
            let n = steps@.len() as int;
            law_writes_listed(compiled, entered, deeper, steps, n);
            let left = steps_run(compiled, entered, deeper, steps, n)->Ok_0;
            lemma_marked_all(p.touched, left.touched);
        },
        _ => {},
    }
}

/// A program lists what it writes: after it, a row that is not listed as touched is as
/// it was before, and a row listed before is still listed. Every extract that was kept
/// before is still kept, in its place.
pub proof fn law_writes_listed(compiled: Compiled, p: ProgramView, depth: usize, steps: Vec<Step>, n: int)
    requires
        p.state.dom().finite(),
        0 <= n <= steps@.len(),
        steps_run(compiled, p, depth, steps, n) is Ok,
    ensures
        accounted(p, steps_run(compiled, p, depth, steps, n)->Ok_0),
    decreases steps, n,
{
    if n > 0 {
        let before = steps_run(compiled, p, depth, steps, n - 1)->Ok_0;
        law_writes_listed(compiled, p, depth, steps, n - 1);
        assert(decreases_to!(steps => steps@[n - 1]));
        law_step_listed(compiled, before, depth, steps@[n - 1]);
        lemma_then(p, before, steps_run(compiled, p, depth, steps, n)->Ok_0);
    }
}

} // verus!
