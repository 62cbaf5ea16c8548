//! Running a program: its steps one after the other, each on the state the ones before
//! it left. The first step that is refused refuses the program.

use crate::address::RowAddress;
use crate::calls::{asserted, call_entered, exec_assert, CompiledMutation, SuppliedArg};
use crate::cell::Cell;
use crate::deletion::{deletion_applied, PlannedDeletion};
use crate::erasure::erase_named;
use crate::execution::{call_framed, keys_deleted, patch_executed, patch_width, PatchPlan};
use crate::interp::{batch_inserted, ref_views, replaced, resolutions};
use crate::migrate::ProgramRun;
use crate::model::Compiled;
use crate::program::{marked, marked_all, placed, CollectionLoc, Interp, ProgramView, RowTarget};
use crate::rejection::{outcome, refused, Rejection, RejectionReason, RejectionView};
use crate::state::{address_views, Fields, Prospective, StateView};
use crate::statements::{row_inserted, rows_inserted};
use crate::syntax::Arg;
use crate::text::{concat, texts};
use crate::target::Place;
use crate::value::{lemma_denoted, views, Value, ValueView};
use vstd::prelude::*;

verus! {

/// One step of a program, with what its expressions came to on the state it runs on.
pub enum Step {
    /// A statement that writes nothing.
    Nothing,
    /// A statement whose evaluation was refused.
    Refused(Rejection),
    /// Check an assertion.
    Assert(Vec<Arg>, Cell),
    /// Insert one row.
    Insert(CollectionLoc, Result<Fields, Rejection>),
    /// Insert the rows of a nested initializer under a row.
    Stage { parent: RowAddress, decl: Vec<String>, child: String, rows: Vec<Result<Fields, Rejection>> },
    /// Insert the rows of a view.
    InsertView(CollectionLoc, Vec<Result<Fields, Rejection>>),
    /// Replace a collection by the rows of a view. The rows of a top-level collection
    /// that the view lacks go as their deletion was planned.
    Replace(CollectionLoc, Vec<Result<Fields, Rejection>>, Result<PlannedDeletion, Rejection>),
    /// Put the normalized fields of a row in place.
    Write(RowTarget, Result<Fields, Rejection>),
    /// Put the normalized root members in place.
    Root(RowAddress, Result<Fields, Rejection>),
    /// Patch the rows of a selection.
    Patch(PatchPlan, Vec<Result<Fields, Rejection>>),
    /// Delete rows by key: nested ones with what is below them, top-level ones as their
    /// deletion was planned.
    Delete(CollectionLoc, Vec<Value>, Result<PlannedDeletion, Rejection>),
    /// Apply a planned deletion.
    Remove(PlannedDeletion),
    /// Erase rows: they go as their deletion was planned, and the content hash of the
    /// extract is kept.
    Erase {
        selector: Option<(Place, Result<Cell, Rejection>)>,
        plan: Result<PlannedDeletion, Rejection>,
        hash: Result<String, Rejection>,
    },
    /// Call a mutation, whose program runs on the caller's state.
    Call { mutation: CompiledMutation, args: Vec<SuppliedArg>, steps: Vec<Step> },
}

/// Whether a step, and every step of a mutation it calls, comes with what it writes to
/// each row it patches.
pub open spec fn step_ready(step: Step) -> bool
    decreases step,
{
    match step {
        Step::Patch(plan, normalized) => normalized@.len() == patch_width(plan@),
        Step::Call { steps, .. } => steps_ready(steps),
        _ => true,
    }
}

/// Whether every step of a program is ready.
pub open spec fn steps_ready(steps: Vec<Step>) -> bool
    decreases steps,
{
    forall|i: int| 0 <= i < steps@.len() ==> step_ready(#[trigger] steps@[i])
}

/// A program after the deletion that was planned, or the refusal of its plan.
pub open spec fn planned_away(compiled: Compiled, p: ProgramView, plan: Result<PlannedDeletion, Rejection>) -> Result<
    ProgramView,
    RejectionView,
> {
    match plan {
        Err(e) => Err(e@),
        Ok(d) => deletion_applied(compiled, p, d),
    }
}

/// A program after an erasure: the rows are gone, and their extract is kept by its
/// content hash. Without an extract nothing is erased.
pub open spec fn erased(
    compiled: Compiled,
    p: ProgramView,
    selector: Option<(Place, Result<Cell, Rejection>)>,
    plan: Result<PlannedDeletion, Rejection>,
    hash: Result<String, Rejection>,
) -> Result<ProgramView, RejectionView> {
    match erase_named(compiled, p, selector) {
        Err(e) => Err(e),
        Ok(_) => match planned_away(compiled, p, plan) {
            Err(e) => Err(e),
            Ok(q) => match hash {
                Err(e) => Err(e@),
                Ok(h) => Ok(ProgramView { extracts: q.extracts.push(ValueView::Text(h@)), ..q }),
            },
        },
    }
}

/// A program after one step.
pub open spec fn performed(compiled: Compiled, p: ProgramView, depth: usize, step: Step) -> Result<
    ProgramView,
    RejectionView,
>
    decreases step, 0int,
{
    match step {
        Step::Nothing => Ok(p),
        Step::Refused(e) => Err(e@),
        Step::Assert(args, condition) => match asserted(args@, condition@) {
            Err(e) => Err(e),
            Ok(_) => Ok(p),
        },
        Step::Insert(loc, resolved) => match row_inserted(
            compiled,
            p,
            loc.store_path@,
            texts(loc.decl@),
            outcome(resolved),
        ) {
            Err(e) => Err(e),
            Ok((q, _)) => Ok(q),
        },
        Step::Stage { parent, decl, child, rows } => rows_inserted(
            compiled,
            p,
            (parent@, child@),
            texts(decl@).push(child@),
            resolutions(rows@),
        ),
        Step::InsertView(loc, rows) => batch_inserted(
            compiled,
            p,
            loc.store_path@,
            texts(loc.decl@),
            resolutions(rows@),
        ),
        Step::Replace(loc, rows, plan) => match replaced(
            compiled,
            p,
            loc.store_path@,
            texts(loc.decl@),
            resolutions(rows@),
        ) {
            Err(e) => Err(e),
            Ok((q, targets)) => if targets.len() == 0 {
                Ok(q)
            } else {
                planned_away(compiled, q, plan)
            },
        },
        Step::Write(row, normalized) => match outcome(normalized) {
            Err(e) => Err(e),
            Ok(fields) => placed(compiled, p, row@.address, row@.path, fields),
        },
        Step::Root(at, normalized) => match outcome(normalized) {
            Err(e) => Err(e),
            Ok(fields) => Ok(
                ProgramView {
                    state: p.state.insert(at@, fields),
                    receiver: p.receiver,
                    touched: marked(p.touched, at@),
                    extracts: p.extracts,
                    drawn: p.drawn,
                },
            ),
        },
        Step::Patch(plan, normalized) => patch_executed(compiled, p, plan@, resolutions(normalized@)),
        Step::Delete(loc, keys, plan) => if loc@.decl.len() > 1 {
            Ok(keys_deleted(p, loc@, views(keys@)).0)
        } else {
            planned_away(compiled, p, plan)
        },
        Step::Erase { selector, plan, hash } => erased(compiled, p, selector, plan, hash),
        Step::Remove(plan) => deletion_applied(compiled, p, plan),
        Step::Call { mutation, args, steps } => match call_framed(p, depth, mutation, args@) {
            Err(e) => Err(e),
            Ok((deeper, receiver, _)) => match steps_run(
                compiled,
                call_entered(p, receiver),
                deeper,
                steps,
                steps@.len() as int,
            ) {
                Err(e) => Err(e),
                Ok(q) => Ok(
                    ProgramView {
                        state: q.state,
                        receiver: p.receiver,
                        touched: marked_all(p.touched, q.touched),
                        extracts: p.extracts + q.extracts,
                        drawn: q.drawn,
                    },
                ),
            },
        },
    }
}

/// A program after its first `n` steps, or the first refusal among them.
pub open spec fn steps_run(compiled: Compiled, p: ProgramView, depth: usize, steps: Vec<Step>, n: int) -> Result<
    ProgramView,
    RejectionView,
>
    decreases steps, n,
{
    if n <= 0 || n > steps@.len() {
        Ok(p)
    } else {
        match steps_run(compiled, p, depth, steps, n - 1) {
            Err(e) => Err(e),
            Ok(q) => performed(compiled, q, depth, steps@[n - 1]),
        }
    }
}

/// A program refused at one of its steps is refused with that refusal, whatever the
/// later steps are.
pub proof fn law_first_refusal(compiled: Compiled, p: ProgramView, depth: usize, steps: Vec<Step>, n: int, m: int)
    requires
        0 <= n <= m <= steps@.len(),
        steps_run(compiled, p, depth, steps, n) is Err,
    ensures
        steps_run(compiled, p, depth, steps, m) == steps_run(compiled, p, depth, steps, n),
    decreases m - n,
{
    if n < m {
        law_first_refusal(compiled, p, depth, steps, n, m - 1);
    }
}

impl<'a> Interp<'a> {
    /// Apply the deletion that was planned.
    fn apply_plan(self, plan: Result<PlannedDeletion, Rejection>) -> (r: Result<Interp<'a>, Rejection>)
        ensures
            outcome(r) == planned_away(*self.compiled, self@, plan),
            r matches Ok(after) ==> after.compiled == self.compiled,
    {
        let mut program = self;
        match plan {
            Err(e) => Err(e),
            Ok(d) => match program.apply_deletion(&d) {
                Err(e) => Err(e),
                Ok(_) => Ok(program),
            },
        }
    }

    /// Take one step. A refused step leaves no program.
    pub fn perform(self, depth: usize, step: Step) -> (r: Result<Interp<'a>, Rejection>)
        requires
            step_ready(step),
        ensures
            outcome(r) == performed(*self.compiled, self@, depth, step),
            r matches Ok(after) ==> after.compiled == self.compiled,
        decreases step, 0int,
    {
        let mut program = self;
        match step {
            Step::Nothing => Ok(program),
            Step::Refused(e) => Err(e),
            Step::Assert(args, condition) => match exec_assert(&args, &condition) {
                Err(e) => Err(e),
                Ok(_) => Ok(program),
            },
            Step::Insert(loc, resolved) => match program.insert_row(&loc, resolved) {
                Err(e) => Err(e),
                Ok(_) => Ok(program),
            },
            Step::Stage { parent, decl, child, rows } => match program.stage_initializer(
                &parent,
                &decl,
                child.as_str(),
                rows,
            ) {
                Err(e) => Err(e),
                Ok(_) => Ok(program),
            },
            Step::InsertView(loc, rows) => match program.insert_from_view(&loc, rows) {
                Err(e) => Err(e),
                Ok(_) => Ok(program),
            },
            Step::Replace(loc, rows, plan) => match program.replace_collection(&loc, rows) {
                Err(e) => Err(e),
                Ok(targets) => {
                    proof {
                        assert(ref_views(targets@).len() == targets@.len());
                    }
                    if targets.len() == 0 {
                        Ok(program)
                    } else {
                        program.apply_plan(plan)
                    }
                },
            },
            Step::Write(row, normalized) => match program.write_field(&row, normalized) {
                Err(e) => Err(e),
                Ok(_) => Ok(program),
            },
            Step::Root(at, normalized) => match program.write_singleton_field(&at, normalized) {
                Err(e) => Err(e),
                Ok(_) => Ok(program),
            },
            Step::Patch(plan, normalized) => match program.exec_patch(&plan, &normalized) {
                Err(e) => Err(e),
                Ok(_) => Ok(program),
            },
            Step::Delete(loc, keys, plan) => if loc.decl.len() > 1 {
                let _none = program.exec_delete(&loc, &keys);
                Ok(program)
            } else {
                program.apply_plan(plan)
            },
            Step::Erase { selector, plan, hash } => match program.exec_erase(&selector) {
                Err(e) => Err(e),
                Ok(_) => match program.apply_plan(plan) {
                    Err(e) => Err(e),
                    Ok(mut after) => match hash {
                        Err(e) => Err(e),
                        Ok(h) => {
                            let ghost before = after@.extracts;
                            let kept = Value::Text(h);
                            proof {
                                lemma_denoted(kept);
                            }
                            after.extracts.push(kept);
                            proof {
                                assert(after@.extracts =~= before.push(ValueView::Text(h@)));
                            }
                            Ok(after)
                        },
                    },
                },
            },
            Step::Remove(plan) => match program.apply_deletion(&plan) {
                Err(e) => Err(e),
                Ok(_) => Ok(program),
            },
            Step::Call { mutation, args, steps } => {
                let (deeper, receiver, _params) = match program.exec_internal_call(depth, &mutation, &args) {
                    Err(e) => {
                        return Err(e);
                    },
                    Ok(frame) => frame,
                };
                let (called, caller, touched, extracts) = program.enter_call(receiver);
                match called.run(deeper, steps) {
                    Err(e) => Err(e),
                    Ok(done) => Ok(done.leave_call(caller, touched, extracts)),
                }
            },
        }
    }

    /// Run the steps of a program. A refused program leaves nothing.
    pub fn run(self, depth: usize, steps: Vec<Step>) -> (r: Result<Interp<'a>, Rejection>)
        requires
            steps_ready(steps),
        ensures
            outcome(r) == steps_run(*self.compiled, self@, depth, steps, steps@.len() as int),
            r matches Ok(after) ==> after.compiled == self.compiled,
        decreases steps, 0int,
    {
        let ghost given = steps;
        let ghost all = steps@;
        let ghost start = self@;
        let compiled = self.compiled;
        let mut program = self;
        let mut rest = steps;
        let n: usize = rest.len();
        let mut i: usize = 0;
        proof {
            assert(rest@ =~= all.skip(0));
        }
        while i < n
            invariant
                given == steps,
                all == given@,
                n == all.len(),
                i <= n,
                rest@ == all.skip(i as int),
                steps_ready(given),
                program.compiled == compiled,
                compiled == self.compiled,
                start == self@,
                steps_run(*compiled, start, depth, given, i as int) == Ok::<ProgramView, RejectionView>(program@),
            decreases n - i,
        {
            proof {
                assert(rest@[0] == all[i as int]);
            }
            let step = rest.remove(0);
            proof {
                assert(rest@ =~= all.skip(i + 1));
                assert(step == given@[i as int]);
                assert(step_ready(given@[i as int]));
                assert(decreases_to!(steps => steps@[i as int]));
            }
            match program.perform(depth, step) {
                Err(e) => {
                    proof {
                        law_first_refusal(*compiled, start, depth, given, i + 1, n as int);
                    }
                    return Err(e);
                },
                Ok(after) => {
                    program = after;
                },
            }
            i = i + 1;
        }
        Ok(program)
    }
}

/// The first statement of a migration program that does not parse refuses it.
pub open spec fn unparsed(parsed: Seq<Result<(), String>>) -> Option<RejectionView>
    decreases parsed.len(),
{
    if parsed.len() == 0 {
        None
    } else {
        match (unparsed(parsed.drop_last()), parsed.last()) {
            (Some(e), _) => Some(e),
            (None, Err(report)) => Some(refused(RejectionReason::Malformed, "migration statement: "@ + report@)),
            (None, Ok(_)) => None,
        }
    }
}

/// The state a migration program leaves, and the rows it wrote. It runs on the root of
/// the target.
pub open spec fn program_run(
    target: Compiled,
    parsed: Seq<Result<(), String>>,
    state: StateView,
    drawn: nat,
    steps: Vec<Step>,
) -> Result<ProgramView, RejectionView> {
    match unparsed(parsed) {
        Some(e) => Err(e),
        None => steps_run(
            target,
            ProgramView { state, receiver: None, touched: Seq::empty(), extracts: Seq::empty(), drawn },
            0,
            steps,
            steps@.len() as int,
        ),
    }
}

proof fn lemma_unparsed(parsed: Seq<Result<(), String>>, n: int)
    requires
        0 <= n <= parsed.len(),
        unparsed(parsed.take(n)) is Some,
    ensures
        unparsed(parsed) == unparsed(parsed.take(n)),
    decreases parsed.len() - n,
{
    if n == parsed.len() {
        assert(parsed.take(n) =~= parsed);
    } else {
        assert(parsed.take(n + 1).drop_last() =~= parsed.take(n));
        lemma_unparsed(parsed, n + 1);
    }
}

/// Run the migration program of a package on the target state. Every statement has to
/// parse before any runs; each that does not comes with what the parser reported.
pub fn run_program(
    target: &Compiled,
    parsed: &Vec<Result<(), String>>,
    prospective: Prospective,
    steps: Vec<Step>,
) -> (r: Result<ProgramRun, Rejection>)
    requires
        steps_ready(steps),
    ensures
        match (r, program_run(*target, parsed@, prospective@, prospective.drawn(), steps)) {
            (Ok(run), Ok(p)) => {
                &&& run.prospective@ == p.state
                &&& run.prospective.drawn() == p.drawn
                &&& address_views(run.touched@) == p.touched
            },
            (Err(e), Err(x)) => e@ == x,
            _ => false,
        },
{
    let mut i: usize = 0;
    proof {
        assert(parsed@.take(0) =~= Seq::<Result<(), String>>::empty());
    }
    while i < parsed.len()
        invariant
            i <= parsed@.len(),
            unparsed(parsed@.take(i as int)) is None,
        decreases parsed@.len() - i,
    {
        proof {
            assert(parsed@.take(i + 1).drop_last() =~= parsed@.take(i as int));
            assert(parsed@.take(i + 1).last() == parsed@[i as int]);
        }
        if let Err(report) = &parsed[i] {
            proof {
                lemma_unparsed(parsed@, i + 1);
            }
            let message = concat("migration statement: ", report.as_str());
            return Err(Rejection::new(RejectionReason::Malformed, message.as_str()));
        }
        i = i + 1;
    }
    proof {
        assert(parsed@.take(i as int) =~= parsed@);
    }
    let program = Interp { compiled: target, prospective, receiver: None, touched: Vec::new(), extracts: Vec::new() };
    proof {
        assert(address_views(program.touched@) =~= Seq::empty());
        assert(views(program.extracts@) =~= Seq::empty());
    }
    match program.run(0, steps) {
        Err(e) => Err(e),
        Ok(done) => Ok(ProgramRun { prospective: done.prospective, touched: done.touched }),
    }
}

} // verus!
