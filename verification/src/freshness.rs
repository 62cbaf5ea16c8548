//! Every inserted row has a generation of its own: what one row generates, no other
//! row of the same state does.

use crate::address::StepView;
use crate::calls::call_entered;
use crate::captured::{rows_under, CapturedRow};
use crate::copy::{carried_address, children_copied, row_copied, rows_copied, source_name, written, CopyView, RowWork};
use crate::deletion::{
    after_deletes, after_patches, after_removals, deletion_applied, PatchedRow, PlannedDeletion, ThinnedRow,
};
use crate::downgrade::child_of;
use crate::execution::{call_framed, rows_patched, PatchPlanView};
use crate::interp::{replaced, resolutions, staged};
use crate::model::{Compiled, CompiledCollection};
use crate::mapping::mapped_row;
use crate::plan::{plan_for, CollectionPlan, FieldPlan};
use crate::program::{ProgramView, TargetView};
use crate::rejection::RejectionView;
use crate::run::{performed, steps_run, Step};
use crate::state::FieldsView;
use crate::statements::rows_inserted;
use crate::text::texts;
use vstd::prelude::*;

verus! {

/// How many rows a step inserts.
pub open spec fn inserted_by(step: Step) -> nat
    decreases step, 0int,
{
    match step {
        Step::Insert(_, _) => 1,
        Step::Stage { rows, .. } => rows@.len(),
        Step::InsertView(_, rows) => rows@.len(),
        Step::Replace(_, rows, _) => rows@.len(),
        Step::Call { steps, .. } => inserted_in(steps, steps@.len() as int),
        _ => 0,
    }
}

/// How many rows the first `n` steps of a program insert.
pub open spec fn inserted_in(steps: Vec<Step>, n: int) -> nat
    decreases steps, n,
{
    if n <= 0 || n > steps@.len() {
        0
    } else {
        inserted_in(steps, n - 1) + inserted_by(steps@[n - 1])
    }
}

proof fn lemma_staged_all(
    compiled: Compiled,
    at: (Seq<StepView>, Seq<char>),
    path: Seq<Seq<char>>,
    resolved: Seq<Result<FieldsView, RejectionView>>,
)
    requires
        staged(compiled, at, path, resolved) is Ok,
    ensures
        staged(compiled, at, path, resolved)->Ok_0.len() == resolved.len(),
    decreases resolved.len(),
{
    if resolved.len() > 0 {
        lemma_staged_all(compiled, at, path, resolved.drop_last());
    }
}

proof fn lemma_inserted_all(
    compiled: Compiled,
    p: ProgramView,
    at: (Seq<StepView>, Seq<char>),
    path: Seq<Seq<char>>,
    resolved: Seq<Result<FieldsView, RejectionView>>,
)
    requires
        rows_inserted(compiled, p, at, path, resolved) is Ok,
    ensures
        rows_inserted(compiled, p, at, path, resolved)->Ok_0.drawn == p.drawn + resolved.len(),
    decreases resolved.len(),
{
    if resolved.len() > 0 {
        lemma_inserted_all(compiled, p, at, path, resolved.drop_last());
    }
}

proof fn lemma_patches_draw_nothing(compiled: Compiled, p: ProgramView, rows: Seq<PatchedRow>)
    requires
        after_patches(compiled, p, rows) is Ok,
    ensures
        after_patches(compiled, p, rows)->Ok_0.drawn == p.drawn,
    decreases rows.len(),
{
    if rows.len() > 0 {
        lemma_patches_draw_nothing(compiled, p, rows.drop_last());
    }
}

proof fn lemma_removals_draw_nothing(compiled: Compiled, p: ProgramView, rows: Seq<ThinnedRow>)
    requires
        after_removals(compiled, p, rows) is Ok,
    ensures
        after_removals(compiled, p, rows)->Ok_0.drawn == p.drawn,
    decreases rows.len(),
{
    if rows.len() > 0 {
        lemma_removals_draw_nothing(compiled, p, rows.drop_last());
    }
}

proof fn lemma_deletion_draws_nothing(compiled: Compiled, p: ProgramView, plan: PlannedDeletion)
    requires
        deletion_applied(compiled, p, plan) is Ok,
    ensures
        deletion_applied(compiled, p, plan)->Ok_0.drawn == p.drawn,
{
    let removed = ProgramView {
        state: after_deletes(p.state, plan.deletes@),
        receiver: p.receiver,
        touched: p.touched,
        extracts: p.extracts,
        drawn: p.drawn,
    };
    lemma_patches_draw_nothing(compiled, removed, plan.patches@);
    lemma_removals_draw_nothing(compiled, after_patches(compiled, removed, plan.patches@)->Ok_0, plan.member_removals@);
}

proof fn lemma_patching_draws_nothing(
    compiled: Compiled,
    p: ProgramView,
    rows: Seq<TargetView>,
    normalized: Seq<Result<FieldsView, RejectionView>>,
)
    requires
        rows_patched(compiled, p, rows, normalized) is Ok,
    ensures
        rows_patched(compiled, p, rows, normalized)->Ok_0.drawn == p.drawn,
    decreases rows.len(),
{
    if rows.len() > 0 && rows.len() == normalized.len() {
        lemma_patching_draws_nothing(compiled, p, rows.drop_last(), normalized.drop_last());
    }
}

/// A step draws one generation for each row it inserts, and no other.
pub proof fn law_step_draws(compiled: Compiled, p: ProgramView, depth: usize, step: Step)
    requires
        performed(compiled, p, depth, step) is Ok,
    ensures
        performed(compiled, p, depth, step)->Ok_0.drawn == p.drawn + inserted_by(step),
    decreases step, 0int,
{
    match step {
        Step::Stage { parent, decl, child, rows } => {
            lemma_inserted_all(compiled, p, (parent@, child@), texts(decl@).push(child@), resolutions(rows@));
        },
        Step::InsertView(loc, rows) => {
            lemma_staged_all(compiled, loc.store_path@, texts(loc.decl@), resolutions(rows@));
        },
        Step::Replace(loc, rows, plan) => {
            lemma_staged_all(compiled, loc.store_path@, texts(loc.decl@), resolutions(rows@));
            let (put, targets) = replaced(
                compiled,
                p,
                loc.store_path@,
                texts(loc.decl@),
                resolutions(rows@),
            )->Ok_0;
            if targets.len() > 0 {
                lemma_deletion_draws_nothing(compiled, put, plan->Ok_0);
            }
        },
        Step::Patch(plan, normalized) => {
            if let PatchPlanView::Many(rows) = plan@ {
                lemma_patching_draws_nothing(compiled, p, rows, resolutions(normalized@));
            }
        },
        Step::Delete(loc, _, plan) => {
            if loc@.decl.len() <= 1 {
                lemma_deletion_draws_nothing(compiled, p, plan->Ok_0);
            }
        },
        Step::Erase { plan, .. } => {
            lemma_deletion_draws_nothing(compiled, p, plan->Ok_0);
        },
        Step::Remove(plan) => {
            lemma_deletion_draws_nothing(compiled, p, plan);
        },
        Step::Call { mutation, args, steps } => {
            let (deeper, receiver, _) = call_framed(p, depth, mutation, args@)->Ok_0;
            law_program_draws(compiled, call_entered(p, receiver), deeper, steps, steps@.len() as int);
        },
        _ => {},
    }
}

/// A program draws one generation for each row it inserts, and no other.
pub proof fn law_program_draws(compiled: Compiled, p: ProgramView, depth: usize, steps: Vec<Step>, n: int)
    requires
        0 <= n <= steps@.len(),
        steps_run(compiled, p, depth, steps, n) is Ok,
    ensures
        steps_run(compiled, p, depth, steps, n)->Ok_0.drawn == p.drawn + inserted_in(steps, n),
    decreases steps, n,
{
    if n > 0 {
        law_program_draws(compiled, p, depth, steps, n - 1);
        assert(decreases_to!(steps => steps@[n - 1]));
        law_step_draws(compiled, steps_run(compiled, p, depth, steps, n - 1)->Ok_0, depth, steps@[n - 1]);
    }
}

/// The generation of a row that a step inserts, by its place among the rows the step
/// inserts.
pub open spec fn generation_of(compiled: Compiled, p: ProgramView, depth: usize, steps: Vec<Step>, i: int, row: nat) -> nat {
    steps_run(compiled, p, depth, steps, i)->Ok_0.drawn + row
}

/// No two rows that a program inserts share a generation, and none has one that was
/// drawn before the program.
pub proof fn law_fresh_generations(
    compiled: Compiled,
    p: ProgramView,
    depth: usize,
    steps: Vec<Step>,
    i: int,
    row: nat,
    j: int,
    other: nat,
)
    requires
        steps_run(compiled, p, depth, steps, steps@.len() as int) is Ok,
        0 <= i <= j < steps@.len(),
        row < inserted_by(steps@[i]),
        other < inserted_by(steps@[j]),
        i != j || row != other,
    ensures
        generation_of(compiled, p, depth, steps, i, row) != generation_of(compiled, p, depth, steps, j, other),
        generation_of(compiled, p, depth, steps, i, row) >= p.drawn,
        generation_of(compiled, p, depth, steps, j, other) < steps_run(
            compiled,
            p,
            depth,
            steps,
            steps@.len() as int,
        )->Ok_0.drawn,
{
    let n = steps@.len() as int;
    lemma_run_so_far(compiled, p, depth, steps, i, n);
    lemma_run_so_far(compiled, p, depth, steps, j, n);
    law_program_draws(compiled, p, depth, steps, i);
    law_program_draws(compiled, p, depth, steps, j);
    law_program_draws(compiled, p, depth, steps, n);
    lemma_inserted_more(steps, j + 1, n);
    if i < j {
        lemma_inserted_more(steps, i + 1, j);
    }
}

proof fn lemma_run_so_far(compiled: Compiled, p: ProgramView, depth: usize, steps: Vec<Step>, n: int, m: int)
    requires
        0 <= n <= m <= steps@.len(),
        steps_run(compiled, p, depth, steps, m) is Ok,
    ensures
        steps_run(compiled, p, depth, steps, n) is Ok,
    decreases m - n,
{
    if n < m {
        lemma_run_so_far(compiled, p, depth, steps, n, m - 1);
    }
}

proof fn lemma_inserted_more(steps: Vec<Step>, n: int, m: int)
    requires
        0 <= n <= m <= steps@.len(),
    ensures
        inserted_in(steps, n) <= inserted_in(steps, m),
    decreases m - n,
{
    if n < m {
        lemma_inserted_more(steps, n, m - 1);
    }
}

proof fn lemma_children_draw(
    c: CompiledCollection,
    plan: CollectionPlan,
    from: Option<CompiledCollection>,
    row: CapturedRow,
    work: RowWork,
    at: Seq<StepView>,
    start: CopyView,
    n: int,
)
    requires
        children_copied(c, plan, from, row, work, at, start, n) is Ok,
    ensures
        children_copied(c, plan, from, row, work, at, start, n)->Ok_0.drawn >= start.drawn,
    decreases c, 0int, n,
{
    if 0 < n <= c.children@.len() {
        lemma_children_draw(c, plan, from, row, work, at, start, n - 1);
        let s = children_copied(c, plan, from, row, work, at, start, n - 1)->Ok_0;
        let child = c.children@[n - 1];
        let nested = plan_for(plan.children, child.name@);
        let source = source_name(nested, child.name@);
        let rows = rows_under(row.children@, source);
        lemma_rows_draw(
            child,
            nested,
            child_of(from, source),
            rows,
            work.children@[n - 1]@,
            at,
            s,
            0,
            rows.len() as int,
        );
    }
}

proof fn lemma_row_draws(
    c: CompiledCollection,
    plan: CollectionPlan,
    from: Option<CompiledCollection>,
    row: CapturedRow,
    work: RowWork,
    parent: Seq<StepView>,
    start: CopyView,
)
    requires
        row_copied(c, plan, from, row, work, parent, start) is Ok,
    ensures
        row_copied(c, plan, from, row, work, parent, start)->Ok_0.drawn > start.drawn,
    decreases c, 1int, 0int,
{
    let mapped = mapped_row(c, plan, row.fields@, from, work.transforms@)->Ok_0;
    let fields = written(mapped, work.writes@, work.writes@.len() as int)->Ok_0;
    let at = carried_address(c, fields, parent)->Ok_0;
    let placed = CopyView {
        state: start.state.insert(at, fields),
        migrated: if plan.fields == Map::<Seq<char>, FieldPlan>::empty() {
            start.migrated
        } else {
            start.migrated.push(at)
        },
        drawn: start.drawn + 1,
    };
    lemma_children_draw(c, plan, from, row, work, at, placed, c.children@.len() as int);
}

proof fn lemma_rows_draw(
    c: CompiledCollection,
    plan: CollectionPlan,
    from: Option<CompiledCollection>,
    rows: Seq<CapturedRow>,
    work: Seq<RowWork>,
    parent: Seq<StepView>,
    start: CopyView,
    i: int,
    n: int,
)
    requires
        0 <= i <= n,
        rows_copied(c, plan, from, rows, work, parent, start, n) is Ok,
    ensures
        rows_copied(c, plan, from, rows, work, parent, start, i) is Ok,
        rows_copied(c, plan, from, rows, work, parent, start, n)->Ok_0.drawn - rows_copied(
            c,
            plan,
            from,
            rows,
            work,
            parent,
            start,
            i,
        )->Ok_0.drawn >= n - i,
    decreases c, 2int, n,
{
    if i < n {
        lemma_rows_draw(c, plan, from, rows, work, parent, start, i, n - 1);
        let s = rows_copied(c, plan, from, rows, work, parent, start, n - 1)->Ok_0;
        lemma_row_draws(c, plan, from, rows[n - 1], work[n - 1], parent, s);
    }
}

/// The generation of a row that a migration carries over, by its place in its
/// collection.
pub open spec fn carried_generation(
    c: CompiledCollection,
    plan: CollectionPlan,
    from: Option<CompiledCollection>,
    rows: Seq<CapturedRow>,
    work: Seq<RowWork>,
    parent: Seq<StepView>,
    start: CopyView,
    i: int,
) -> nat {
    rows_copied(c, plan, from, rows, work, parent, start, i)->Ok_0.drawn
}

/// No two rows of a collection that a migration carries over share a generation; the
/// rows nested in the first have theirs in between.
pub proof fn law_carried_fresh(
    c: CompiledCollection,
    plan: CollectionPlan,
    from: Option<CompiledCollection>,
    rows: Seq<CapturedRow>,
    work: Seq<RowWork>,
    parent: Seq<StepView>,
    start: CopyView,
    i: int,
    j: int,
)
    requires
        0 <= i < j < rows.len(),
        rows_copied(c, plan, from, rows, work, parent, start, rows.len() as int) is Ok,
    ensures
        start.drawn <= carried_generation(c, plan, from, rows, work, parent, start, i),
        carried_generation(c, plan, from, rows, work, parent, start, i) < carried_generation(
            c,
            plan,
            from,
            rows,
            work,
            parent,
            start,
            j,
        ),
{
    lemma_rows_draw(c, plan, from, rows, work, parent, start, j, rows.len() as int);
    lemma_rows_draw(c, plan, from, rows, work, parent, start, i, j);
    lemma_rows_draw(c, plan, from, rows, work, parent, start, 0, i);
}

} // verus!
