//! What internal calls, assertions and the steps of a program keep to.

use crate::address::StepView;
use crate::calls::{
    all_supplied, args_bound, asserted, call_entered, called_depth, called_receiver, object_supplied, params_bound,
    CompiledMutation, Parameter, SuppliedArg, MAX_CALL_DEPTH,
};
use crate::cell::{Cell, CellView};
use crate::deletion::{deletion_applied, PlannedDeletion};
use crate::execution::{
    assignment, containers_filled, defaults_filled, field_value, patch_executed, AssignStepView, Fit, PatchPlan,
    StructMember,
};
use crate::interp::{batch_inserted, resolutions};
use crate::model::Compiled;
use crate::program::{placed, CollectionLoc, ProgramView, RowTarget, TargetView};
use crate::program_laws::law_marked_all;
use crate::rejection::{outcome, Rejection, RejectionReason, RejectionView};
use crate::run::{erased, performed, steps_run, Step};
use crate::state::{Fields, FieldsView};
use crate::statements::row_inserted;
use crate::syntax::Arg;
use crate::target::{assigned, AssignView, Place};
use crate::text::texts;
use crate::value::{views, Value, ValueView};
use vstd::prelude::*;

verus! {

/// Of the members of an argument object the last of a name counts, and an argument no
/// member names stays. A member whose value was refused refuses the object.
pub proof fn law_object_supplied(base: FieldsView, members: Seq<(String, Result<Value, Rejection>)>, name: Seq<char>)
    ensures
        object_supplied(base, members) is Ok <==> forall|i: int|
            0 <= i < members.len() ==> (#[trigger] members[i]).1 is Ok,
        object_supplied(base, members) matches Ok(r) ==> ((forall|i: int|
            0 <= i < members.len() ==> (#[trigger] members[i]).0@ != name) ==> (r.contains_key(name)
            <==> base.contains_key(name)) && r[name] == base[name]),
    decreases members.len(),
{
    if members.len() > 0 {
        let rest = members.drop_last();
        law_object_supplied(base, rest, name);
        assert(members[members.len() - 1] == members.last());
        if object_supplied(base, members) is Ok {
            assert forall|i: int| 0 <= i < members.len() implies (#[trigger] members[i]).1 is Ok by {
                if i < rest.len() {
                    assert(rest[i] == members[i]);
                }
            }
            if forall|i: int| 0 <= i < members.len() ==> (#[trigger] members[i]).0@ != name {
                assert(members[members.len() - 1].0@ != name);
                assert forall|i: int| 0 <= i < rest.len() implies (#[trigger] rest[i]).0@ != name by {
                    assert(rest[i] == members[i]);
                }
            }
        } else if forall|i: int| 0 <= i < members.len() ==> (#[trigger] members[i]).1 is Ok {
            assert forall|i: int| 0 <= i < rest.len() implies (#[trigger] rest[i]).1 is Ok by {
                assert(rest[i] == members[i]);
            }
        }
    }
}

/// The last member of a name is the argument of that name.
pub proof fn law_last_supplied(base: FieldsView, members: Seq<(String, Result<Value, Rejection>)>, i: int)
    requires
        object_supplied(base, members) is Ok,
        0 <= i < members.len(),
        forall|j: int| i < j < members.len() ==> (#[trigger] members[j]).0@ != members[i].0@,
    ensures
        members[i].1 is Ok,
        object_supplied(base, members)->Ok_0.contains_key(members[i].0@),
        object_supplied(base, members)->Ok_0[members[i].0@] == members[i].1->Ok_0@,
    decreases members.len(),
{
    if i < members.len() - 1 {
        let rest = members.drop_last();
        assert(rest[i] == members[i]);
        assert forall|j: int| i < j < rest.len() implies (#[trigger] rest[j]).0@ != rest[i].0@ by {
            assert(rest[j] == members[j]);
        }
        law_last_supplied(base, rest, i);
        assert(members[members.len() - 1].0@ != members[i].0@);
    }
}

/// Arguments are taken in turn: each adds to, or replaces of, what the earlier ones
/// supplied.
pub proof fn law_all_supplied(args: Seq<SuppliedArg>, name: String, value: Result<Value, Rejection>)
    ensures
        all_supplied(Seq::empty()) == Ok::<FieldsView, RejectionView>(Map::empty()),
        all_supplied(args) matches Ok(before) ==> (value matches Ok(v) ==> all_supplied(
            args.push(SuppliedArg::Named(name, value)),
        ) == Ok::<FieldsView, RejectionView>(before.insert(name@, v@))),
        value is Err ==> all_supplied(args.push(SuppliedArg::Named(name, value))) is Err,
        all_supplied(args.push(SuppliedArg::Other)) is Err,
        all_supplied(args) is Err ==> all_supplied(args.push(SuppliedArg::Named(name, value))) == all_supplied(args),
{
    assert(args.push(SuppliedArg::Named(name, value)).drop_last() =~= args);
    assert(args.push(SuppliedArg::Other).drop_last() =~= args);
}

/// What a parameter of a name is bound to.
pub open spec fn bound_to(supplied: FieldsView, name: Seq<char>) -> ValueView {
    if supplied.contains_key(name) {
        supplied[name]
    } else {
        ValueView::Absent
    }
}

proof fn lemma_bound(params: Seq<Parameter>, supplied: FieldsView, n: int)
    requires
        0 <= n <= params.len(),
        forall|i: int, j: int| 0 <= i < j < params.len() ==> (#[trigger] params[i]).name@ != (#[trigger] params[j]).name@,
    ensures
        params_bound(params.take(n), supplied) is Ok <==> forall|i: int|
            0 <= i < n ==> supplied.contains_key((#[trigger] params[i]).name@) || params[i].optional,
        params_bound(params.take(n), supplied) is Ok ==> {
            let bound = params_bound(params.take(n), supplied)->Ok_0.0;
            let rest = params_bound(params.take(n), supplied)->Ok_0.1;
            &&& forall|i: int|
                0 <= i < n ==> bound.contains_key((#[trigger] params[i]).name@) && bound[params[i].name@] == bound_to(
                    supplied,
                    params[i].name@,
                )
            &&& forall|name: Seq<char>| #[trigger]
                bound.contains_key(name) ==> exists|i: int| 0 <= i < n && (#[trigger] params[i]).name@ == name
            &&& forall|i: int|
                n <= i < params.len() ==> (rest.contains_key((#[trigger] params[i]).name@) <==> supplied.contains_key(
                    params[i].name@,
                )) && (supplied.contains_key(params[i].name@) ==> rest[params[i].name@] == supplied[params[i].name@])
        },
    decreases n,
{
    if n > 0 {
        lemma_bound(params, supplied, n - 1);
        let fewer = params.take(n - 1);
        assert(params.take(n).drop_last() =~= fewer);
        assert(params.take(n).last() == params[n - 1]);
        let last = params[n - 1];
        if params_bound(params.take(n), supplied) is Ok {
            let b = params_bound(fewer, supplied)->Ok_0.0;
            let bound = params_bound(params.take(n), supplied)->Ok_0.0;
            let rest = params_bound(params.take(n), supplied)->Ok_0.1;
            assert forall|i: int| 0 <= i < n implies bound.contains_key((#[trigger] params[i]).name@)
                && bound[params[i].name@] == bound_to(supplied, params[i].name@) by {
                if i < n - 1 {
                    assert(params[i].name@ != params[n - 1].name@);
                }
            }
            assert forall|name: Seq<char>| #[trigger] bound.contains_key(name) implies exists|i: int|
                0 <= i < n && (#[trigger] params[i]).name@ == name by {
                if name != last.name@ {
                    assert(b.contains_key(name));
                    let i = choose|i: int| 0 <= i < n - 1 && (#[trigger] params[i]).name@ == name;
                    assert(params[i].name@ == name);
                } else {
                    assert(params[n - 1].name@ == name);
                }
            }
            assert forall|i: int| n <= i < params.len() implies (rest.contains_key((#[trigger] params[i]).name@)
                <==> supplied.contains_key(params[i].name@)) && (supplied.contains_key(params[i].name@)
                ==> rest[params[i].name@] == supplied[params[i].name@]) by {
                assert(params[n - 1].name@ != params[i].name@);
            }
        }
    }
}

/// An internal call binds each parameter to the argument of its name, and an optional
/// one without an argument to the absence of a value. It is refused if and only if the
/// arguments are, or a parameter that is not optional has none.
pub proof fn law_args_bound(params: Seq<Parameter>, args: Seq<SuppliedArg>)
    requires
        forall|i: int, j: int| 0 <= i < j < params.len() ==> (#[trigger] params[i]).name@ != (#[trigger] params[j]).name@,
    ensures
        args_bound(params, args) is Ok <==> (all_supplied(args) matches Ok(supplied) && forall|i: int|
            0 <= i < params.len() ==> supplied.contains_key((#[trigger] params[i]).name@) || params[i].optional),
        args_bound(params, args) matches Ok(bound) ==> {
            let supplied = all_supplied(args)->Ok_0;
            &&& forall|i: int|
                0 <= i < params.len() ==> bound.contains_key((#[trigger] params[i]).name@) && bound[params[i].name@]
                    == bound_to(supplied, params[i].name@)
            &&& forall|name: Seq<char>| #[trigger]
                bound.contains_key(name) ==> exists|i: int| 0 <= i < params.len() && (#[trigger] params[i]).name@ == name
        },
{
    if let Ok(supplied) = all_supplied(args) {
        lemma_bound(params, supplied, params.len() as int);
        assert(params.take(params.len() as int) =~= params);
    }
}

/// Calls nest up to a depth: each runs one deeper than its caller, and none beyond it.
pub proof fn law_call_depth(depth: usize)
    ensures
        depth < MAX_CALL_DEPTH ==> called_depth(depth) == Ok::<usize, RejectionView>((depth + 1) as usize),
        depth >= MAX_CALL_DEPTH ==> called_depth(depth) is Err,
{
}

/// A root mutation runs on no row; a row mutation runs on the caller's own row, which
/// has to be of its collection.
pub proof fn law_called_receiver(receiver: Option<TargetView>, mutation: CompiledMutation)
    ensures
        mutation.receiver_is_root ==> called_receiver(receiver, mutation) == Ok::<Option<TargetView>, RejectionView>(
            None,
        ),
        !mutation.receiver_is_root && mutation.path@.len() > 0 ==> (called_receiver(receiver, mutation) is Ok <==> (
        receiver matches Some(t) && t.path == texts(mutation.path@))),
        !mutation.receiver_is_root && mutation.path@.len() > 0 && called_receiver(receiver, mutation) is Ok
            ==> called_receiver(receiver, mutation) == Ok::<Option<TargetView>, RejectionView>(receiver),
{
}

/// An assertion passes if and only if it has a condition and that came to true.
pub proof fn law_asserted(args: Seq<Arg>, condition: CellView)
    ensures
        asserted(args, condition) is Ok <==> args.len() > 0 && args[0] is Positional && (
        condition matches CellView::Scalar(v) && v == ValueView::Bool(true)),
        asserted(args, condition) matches Err(e) ==> (args.len() > 0 && args[0] is Positional ==> e.reason
            == RejectionReason::Assertion),
{
}

/// A step that writes nothing leaves the program as it is, and a refused statement
/// refuses it. An assertion leaves it as it is where it passes, and refuses it where it
/// does not.
pub proof fn law_plain_steps(compiled: Compiled, p: ProgramView, depth: usize, e: Rejection, args: Vec<Arg>, condition: Cell)
    ensures
        performed(compiled, p, depth, Step::Nothing) == Ok::<ProgramView, RejectionView>(p),
        performed(compiled, p, depth, Step::Refused(e)) == Err::<ProgramView, RejectionView>(e@),
        performed(compiled, p, depth, Step::Assert(args, condition)) is Ok <==> args@.len() > 0
            && args@[0] is Positional && (condition@ matches CellView::Scalar(v) && v == ValueView::Bool(true)),
        performed(compiled, p, depth, Step::Assert(args, condition)) matches Ok(q) ==> q == p,
{
}

/// A write of a row or of the root members is refused where its fields did not
/// normalize, and otherwise puts them in place.
pub proof fn law_write_steps(
    compiled: Compiled,
    p: ProgramView,
    depth: usize,
    row: RowTarget,
    at: crate::address::RowAddress,
    normalized: Result<Fields, Rejection>,
)
    ensures
        normalized matches Err(e) ==> performed(compiled, p, depth, Step::Write(row, normalized)) == Err::<
            ProgramView,
            RejectionView,
        >(e@),
        normalized matches Ok(f) ==> performed(compiled, p, depth, Step::Write(row, normalized)) == placed(
            compiled,
            p,
            row@.address,
            row@.path,
            f@,
        ),
        normalized matches Err(e) ==> performed(compiled, p, depth, Step::Root(at, normalized)) == Err::<
            ProgramView,
            RejectionView,
        >(e@),
        normalized matches Ok(f) ==> (performed(compiled, p, depth, Step::Root(at, normalized)) matches Ok(q) && q.state
            == p.state.insert(at@, f@) && q.touched.contains(at@) && q.receiver == p.receiver && q.drawn == p.drawn
            && q.extracts == p.extracts),
{
    crate::program_laws::law_marked(p.touched, at@, at@);
}

/// Rows are inserted, patched, replaced and deleted by the statement that says so: a
/// step comes to what its statement comes to on the program as it is.
pub proof fn law_statement_steps(
    compiled: Compiled,
    p: ProgramView,
    depth: usize,
    loc: CollectionLoc,
    row: Result<Fields, Rejection>,
    rows: Vec<Result<Fields, Rejection>>,
    keys: Vec<Value>,
    plan: PlannedDeletion,
    patch: PatchPlan,
)
    ensures
        performed(compiled, p, depth, Step::Insert(loc, row)) is Ok <==> row_inserted(
            compiled,
            p,
            loc.store_path@,
            texts(loc.decl@),
            outcome(row),
        ) is Ok,
        performed(compiled, p, depth, Step::Insert(loc, row)) matches Ok(q) ==> q == row_inserted(
            compiled,
            p,
            loc.store_path@,
            texts(loc.decl@),
            outcome(row),
        )->Ok_0.0,
        performed(compiled, p, depth, Step::InsertView(loc, rows)) == batch_inserted(
            compiled,
            p,
            loc.store_path@,
            texts(loc.decl@),
            resolutions(rows@),
        ),
        performed(compiled, p, depth, Step::Remove(plan)) == deletion_applied(compiled, p, plan),
        loc@.decl.len() > 1 ==> (performed(compiled, p, depth, Step::Delete(loc, keys, Ok(plan))) matches Ok(q)
            && q.state == crate::deletion::nested_removed(p.state, loc@.at, views(keys@)) && q.touched == p.touched
            && q.receiver == p.receiver && q.drawn == p.drawn),
        loc@.decl.len() <= 1 ==> performed(compiled, p, depth, Step::Delete(loc, keys, Ok(plan))) == deletion_applied(
            compiled,
            p,
            plan,
        ),
        performed(compiled, p, depth, Step::Patch(patch, rows)) == patch_executed(compiled, p, patch@, resolutions(rows@)),
{
}

/// A program runs its steps in turn: each on what the one before came to.
pub proof fn law_steps_in_turn(compiled: Compiled, p: ProgramView, depth: usize, steps: Vec<Step>, n: int)
    requires
        0 <= n < steps@.len(),
    ensures
        steps_run(compiled, p, depth, steps, 0) == Ok::<ProgramView, RejectionView>(p),
        steps_run(compiled, p, depth, steps, n) matches Ok(q) ==> steps_run(compiled, p, depth, steps, n + 1)
            == performed(compiled, q, depth, steps@[n]),
        steps_run(compiled, p, depth, steps, n) is Err ==> steps_run(compiled, p, depth, steps, n + 1) == steps_run(
            compiled,
            p,
            depth,
            steps,
            n,
        ),
{
}

/// A call runs the called mutation on the caller's state, one deeper, and gives the
/// state it came to back. The caller goes on from its own row. What it touched and what
/// it erased stay listed, and what the called mutation touched and erased is listed
/// with them.
pub proof fn law_call(
    compiled: Compiled,
    p: ProgramView,
    depth: usize,
    mutation: CompiledMutation,
    args: Vec<SuppliedArg>,
    steps: Vec<Step>,
    at: Seq<StepView>,
)
    requires
        performed(compiled, p, depth, Step::Call { mutation, args, steps }) is Ok,
    ensures
        depth < MAX_CALL_DEPTH,
        args_bound(mutation.params@, args@) is Ok,
        called_receiver(p.receiver, mutation) is Ok,
        ({
            let receiver = called_receiver(p.receiver, mutation)->Ok_0;
            let ran = steps_run(
                compiled,
                (ProgramView { receiver, touched: Seq::empty(), extracts: Seq::empty(), ..p }),
                (depth + 1) as usize,
                steps,
                steps@.len() as int,
            );
            let after = performed(compiled, p, depth, Step::Call { mutation, args, steps })->Ok_0;
            &&& ran matches Ok(q) && after.state == q.state && after.drawn == q.drawn && after.extracts == p.extracts
                + q.extracts && (after.touched.contains(at) <==> p.touched.contains(at) || q.touched.contains(at))
            &&& after.receiver == p.receiver
        }),
{
    let receiver = called_receiver(p.receiver, mutation)->Ok_0;
    let entered = call_entered(p, receiver);
    assert(entered == (ProgramView { receiver, touched: Seq::empty(), extracts: Seq::empty(), ..p }));
    let q = steps_run(compiled, entered, (depth + 1) as usize, steps, steps@.len() as int)->Ok_0;
    law_marked_all(p.touched, q.touched, at);
}

/// An erasure takes the rows its plan takes and keeps the content hash of their
/// extract; without a plan or an extract nothing is erased.
pub proof fn law_erased(
    compiled: Compiled,
    p: ProgramView,
    selector: Option<(Place, Result<Cell, Rejection>)>,
    plan: Result<PlannedDeletion, Rejection>,
    hash: Result<String, Rejection>,
)
    ensures
        plan is Err || hash is Err ==> erased(compiled, p, selector, plan, hash) is Err,
        erased(compiled, p, selector, plan, hash) matches Ok(q) ==> (plan matches Ok(d) && deletion_applied(
            compiled,
            p,
            d,
        ) matches Ok(gone) && q.state == gone.state && q.extracts == gone.extracts.push(ValueView::Text(hash->Ok_0@))
            && q.touched == gone.touched && q.receiver == gone.receiver && q.drawn == gone.drawn),
{
}

/// A struct member the initializer leaves out takes its default, or where it has none
/// the empty container it starts as.
pub proof fn law_member_defaults(fields: FieldsView, members: Seq<StructMember>, i: int)
    requires
        0 <= i < members.len(),
        forall|j: int, k: int| 0 <= j < k < members.len() ==> (#[trigger] members[j]).name@ != (#[trigger] members[k]).name@,
        !fields.contains_key(members[i].name@),
        defaults_filled(fields, members) is Ok,
    ensures
        ({
            let filled = defaults_filled(fields, members)->Ok_0;
            let all = containers_filled(filled, members);
            let name = members[i].name@;
            &&& members[i].default matches Some(d) ==> d is Ok && all.contains_key(name) && all[name] == (
            match d->Ok_0@ {
                CellView::Scalar(v) => v,
                _ => ValueView::Absent,
            })
            &&& members[i].default is None ==> (members[i].container matches Some(v) ==> all.contains_key(name)
                && all[name] == v@)
            &&& members[i].default is None && members[i].container is None ==> !all.contains_key(name)
        }),
{
    let n = members.len() as int;
    assert(members.take(n) =~= members);
    lemma_defaults(fields, members, i, n);
    let filled = defaults_filled(fields, members)->Ok_0;
    lemma_containers(filled, members, i, n);
}

proof fn lemma_defaults(fields: FieldsView, members: Seq<StructMember>, i: int, n: int)
    requires
        0 <= i < members.len(),
        0 <= n <= members.len(),
        forall|j: int, k: int| 0 <= j < k < members.len() ==> (#[trigger] members[j]).name@ != (#[trigger] members[k]).name@,
        !fields.contains_key(members[i].name@),
        defaults_filled(fields, members.take(n)) is Ok,
    ensures
        ({
            let filled = defaults_filled(fields, members.take(n))->Ok_0;
            let name = members[i].name@;
            &&& i < n ==> (members[i].default matches Some(d) ==> d is Ok && filled.contains_key(name) && filled[name]
                == (match d->Ok_0@ {
                CellView::Scalar(v) => v,
                _ => ValueView::Absent,
            }))
            &&& i >= n || members[i].default is None ==> !filled.contains_key(name)
        }),
    decreases n,
{
    if n > 0 {
        assert(members.take(n).drop_last() =~= members.take(n - 1));
        assert(members.take(n).last() == members[n - 1]);
        lemma_defaults(fields, members, i, n - 1);
        if i < n - 1 {
            assert(members[i].name@ != members[n - 1].name@);
        } else if i > n - 1 {
            assert(members[n - 1].name@ != members[i].name@);
        }
    }
}

proof fn lemma_containers(fields: FieldsView, members: Seq<StructMember>, i: int, n: int)
    requires
        0 <= i < members.len(),
        0 <= n <= members.len(),
        forall|j: int, k: int| 0 <= j < k < members.len() ==> (#[trigger] members[j]).name@ != (#[trigger] members[k]).name@,
    ensures
        ({
            let all = containers_filled(fields, members.take(n));
            let name = members[i].name@;
            &&& fields.contains_key(name) ==> all.contains_key(name) && all[name] == fields[name]
            &&& !fields.contains_key(name) && i < n ==> (members[i].container matches Some(v) ==> all.contains_key(name)
                && all[name] == v@)
            &&& !fields.contains_key(name) && (i >= n || members[i].container is None) ==> !all.contains_key(name)
        }),
    decreases n,
{
    if n > 0 {
        assert(members.take(n).drop_last() =~= members.take(n - 1));
        assert(members.take(n).last() == members[n - 1]);
        lemma_containers(fields, members, i, n - 1);
        if i < n - 1 {
            assert(members[i].name@ != members[n - 1].name@);
        } else if i > n - 1 {
            assert(members[n - 1].name@ != members[i].name@);
        }
    }
    if n == members.len() {
        assert(members.take(n) =~= members);
    }
}

/// An assignment to a field of a row writes the row with that field set to what its
/// value came to, and it is refused where the row the program runs on is gone, or the
/// value was refused.
pub proof fn law_field_assigned(
    compiled: Compiled,
    p: ProgramView,
    singletons: Seq<Seq<char>>,
    place: Place,
    value: Result<Cell, Rejection>,
    fit: Fit,
    root: Seq<StepView>,
    row: TargetView,
    field: Seq<char>,
)
    requires
        assigned(compiled, p, singletons, place) == Ok::<AssignView, RejectionView>(AssignView::Field(row, field)),
    ensures
        assignment(compiled, p, singletons, place, value, fit, root) matches Ok(step) ==> {
            &&& value is Ok
            &&& p.receiver matches Some(t) ==> p.state.contains_key(t.address)
            &&& p.state.contains_key(row.address)
            &&& field_value(compiled, row, field, value->Ok_0@, fit) matches Ok(v) && step == AssignStepView::Write(
                row,
                field,
                p.state[row.address].insert(field, v),
            )
        },
        value is Err ==> assignment(compiled, p, singletons, place, value, fit, root) is Err,
        !p.state.contains_key(row.address) ==> assignment(compiled, p, singletons, place, value, fit, root) is Err,
{
}

} // verus!
