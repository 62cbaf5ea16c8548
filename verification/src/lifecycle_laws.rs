//! What the lifecycle of modules and the reads that show them keep to.

use crate::address::StepView;
use crate::aggregate::{gathered, instance_shown, row_with_space, shown_by, space_folded, space_shown, InstanceView};
use crate::cell::{cell_named, row_views, CellView, RowView};
use crate::history::ImportRelation;
use crate::hosting::{ChildView, InterfaceRead};
use crate::lifecycle::{
    args_taken, argument, axes, operand, rollback_asked, ArgsView, ArgumentView, AxesView, LifecycleOp, OperandView,
    RollbackView,
};
use crate::lineage::HistoryPoint;
use crate::materialize::{fields_in, root_cells, row_shown, rows_shown, shown_rows, stored_fields, MemberDecl, ReadView};
use crate::metering_laws::law_cell_set;
use crate::mounting::{entries_shown, entry_at, entry_shown, folded_row, folded_rows, instance_of, MountedEntry};
use crate::operators::{
    arguments_read, axis_read, members_read, operand_came, operand_evaluated, operand_names, operands_read, operated,
    ModuleOperator, OperatorArg,
};
use crate::pools::bound_cell;
use crate::recorder::{
    addressed, artifact, instance_from, migrate_asked, package, packed, performed, IntentView, LifecycleWork,
    MigrateAxis, MountedInstance, Occupant, RecordedView,
};
use crate::refs::identity;
use crate::rejection::{Rejection, RejectionReason, RejectionView};
use crate::slots::{
    containers, install_args, instance_named, move_decided, reading_space, readings, slot_of, space_path, SlotRow,
};
use crate::syntax::Expr;
use crate::value::ValueView;
use vstd::prelude::*;

verus! {

proof fn lemma_instance(instances: Seq<MountedInstance>, space: Seq<char>, name: Seq<char>, from: nat)
    ensures
        match instance_from(instances, space, name, from) {
            Some(i) => from <= i < instances.len() && instances[i].space@ == space && instances[i].name@ == name
                && instances[i].enabled && forall|k: int|
                from <= k < i ==> !((#[trigger] instances[k]).space@ == space && instances[k].name@ == name
                    && instances[k].enabled),
            None => forall|k: int|
                from <= k < instances.len() ==> !((#[trigger] instances[k]).space@ == space && instances[k].name@ == name
                    && instances[k].enabled),
        },
    decreases instances.len() - from,
{
    if from < instances.len() {
        lemma_instance(instances, space, name, from + 1);
    }
}

/// An operation addresses the first enabled instance of its name in its space, and is
/// refused if and only if there is none.
pub proof fn law_addressed(instances: Seq<MountedInstance>, space: Seq<char>, name: Seq<char>, operator: Seq<char>)
    ensures
        match addressed(instances, space, name, operator) {
            Ok(i) => 0 <= i < instances.len() && instances[i].space@ == space && instances[i].name@ == name
                && instances[i].enabled && forall|k: int|
                0 <= k < i ==> !((#[trigger] instances[k]).space@ == space && instances[k].name@ == name
                    && instances[k].enabled),
            Err(e) => e.reason == RejectionReason::Malformed && forall|k: int|
                0 <= k < instances.len() ==> !((#[trigger] instances[k]).space@ == space && instances[k].name@ == name
                    && instances[k].enabled),
        },
{
    lemma_instance(instances, space, name, 0);
}

/// Whether the arguments name a space and an instance in it.
pub open spec fn names_slot(args: ArgsView, space: Seq<char>, name: Seq<char>) -> bool {
    &&& argument(args, "space"@) == Some(ArgumentView::Value(ValueView::Text(space)))
    &&& argument(args, "name"@) == Some(ArgumentView::Value(ValueView::Text(name)))
}

/// A removal records the removal of the instance it names, and nothing else.
pub proof fn law_removal_recorded(
    args: ArgsView,
    instances: Seq<MountedInstance>,
    work: LifecycleWork,
    space: Seq<char>,
    name: Seq<char>,
)
    requires
        args_taken(LifecycleOp::Remove, args) is Ok,
    ensures
        names_slot(args, space, name) ==> performed(LifecycleOp::Remove, args, instances, work) == Ok::<
            RecordedView,
            RejectionView,
        >(RecordedView { answer: ValueView::Text(name), intent: Some(IntentView::Remove { space, name }) }),
        performed(LifecycleOp::Remove, args, instances, work) is Ok <==> exists|s: Seq<char>, n: Seq<char>|
            #[trigger] names_slot(args, s, n),
{
    if performed(LifecycleOp::Remove, args, instances, work) is Ok {
        let s = argument(args, "space"@)->Some_0->Value_0->Text_0;
        let n = argument(args, "name"@)->Some_0->Value_0->Text_0;
        assert(names_slot(args, s, n));
    }
}

/// Whether a blob argument is given, the store holds it, and it decodes.
pub open spec fn carries_package(args: ArgsView, work: LifecycleWork) -> bool {
    &&& argument(args, "blob"@) matches Some(ArgumentView::Value(ValueView::Blob(_)))
    &&& work.blob matches Ok(Some(_))
    &&& work.decoded is Ok
}

/// An installation records the package its blob decodes to, in the slot it names, where
/// an occupant is refused; an update records it for the instance it names. Both are
/// refused if and only if a slot or a package is missing.
pub proof fn law_package_recorded(
    args: ArgsView,
    instances: Seq<MountedInstance>,
    work: LifecycleWork,
    space: Seq<char>,
    name: Seq<char>,
)
    requires
        names_slot(args, space, name),
    ensures
        args_taken(LifecycleOp::Install, args) is Ok ==> (performed(LifecycleOp::Install, args, instances, work) is Ok
            <==> carries_package(args, work)),
        args_taken(LifecycleOp::Update, args) is Ok ==> (performed(LifecycleOp::Update, args, instances, work) is Ok
            <==> carries_package(args, work)),
        args_taken(LifecycleOp::Install, args) is Ok && carries_package(args, work) ==> performed(
            LifecycleOp::Install,
            args,
            instances,
            work,
        )->Ok_0.intent == Some(
            IntentView::Install {
                space,
                name,
                definition: work.decoded->Ok_0.definition@,
                package: work.decoded->Ok_0.identity@,
                occupant: Occupant::Refuse,
            },
        ),
        args_taken(LifecycleOp::Update, args) is Ok && carries_package(args, work) ==> performed(
            LifecycleOp::Update,
            args,
            instances,
            work,
        )->Ok_0.intent == Some(
            IntentView::Update {
                space,
                name,
                definition: work.decoded->Ok_0.definition@,
                package: work.decoded->Ok_0.identity@,
            },
        ),
        args_taken(LifecycleOp::Install, args) is Ok && carries_package(args, work) ==> performed(
            LifecycleOp::Install,
            args,
            instances,
            work,
        )->Ok_0.answer == ValueView::Text(work.decoded->Ok_0.identity.definition@),
{
}

/// Moving a module into a slot installs one that is not mounted there, dropping an
/// occupant; relocates a mounted one within its space; does nothing to one that is there
/// already; and is refused across spaces.
pub proof fn law_moved_into(
    args: ArgsView,
    instances: Seq<MountedInstance>,
    work: LifecycleWork,
    space: Seq<char>,
    name: Seq<char>,
    from: Seq<char>,
    source: Seq<char>,
    blob: Seq<char>,
)
    requires
        args_taken(LifecycleOp::InstallModule, args) is Ok,
        names_slot(args, space, name),
    ensures
        ({
            let out = performed(LifecycleOp::InstallModule, args, instances, work);
            let given = operand(args, "module"@, "install_module"@);
            &&& given == Ok::<OperandView, RejectionView>(OperandView::Pending(blob)) ==> (out is Ok <==> (work.blob
                matches Ok(Some(_))) && work.decoded is Ok)
            &&& given == Ok::<OperandView, RejectionView>(OperandView::Pending(blob)) && out is Ok ==> out->Ok_0.intent
                == Some(
                IntentView::Install {
                    space,
                    name,
                    definition: work.decoded->Ok_0.definition@,
                    package: work.decoded->Ok_0.identity@,
                    occupant: Occupant::Drop,
                },
            )
            &&& given == Ok::<OperandView, RejectionView>(OperandView::Mounted(from, source)) && from != space ==> (out
                matches Err(e) && e.reason == RejectionReason::Unsupported)
            &&& given == Ok::<OperandView, RejectionView>(OperandView::Mounted(space, source)) && source != name ==> (out
                matches Ok(r) && r.intent == Some(
                IntentView::Relocate { space, from: source, to: name, occupant: Occupant::Drop },
            ))
            &&& given == Ok::<OperandView, RejectionView>(OperandView::Mounted(space, name)) ==> (out matches Ok(r)
                && r.intent is None)
            &&& given is Err ==> out is Err
        }),
{
}

/// Packing a mounted module exports that instance: its bytes are recorded, and the
/// answer is their blob.
pub proof fn law_pack_mounted(
    args: ArgsView,
    instances: Seq<MountedInstance>,
    work: LifecycleWork,
    space: Seq<char>,
    name: Seq<char>,
)
    requires
        args_taken(LifecycleOp::Pack, args) is Ok,
        operand(args, "module"@, "pack"@) == Ok::<OperandView, RejectionView>(OperandView::Mounted(space, name)),
        axes(args) == (AxesView { model: None, data: None, history: false }),
    ensures
        performed(LifecycleOp::Pack, args, instances, work) is Ok <==> work.exported is Ok && exists|k: int|
            0 <= k < instances.len() && (#[trigger] instances[k]).space@ == space && instances[k].name@ == name
                && instances[k].enabled,
        performed(LifecycleOp::Pack, args, instances, work) matches Ok(r) ==> r.answer == ValueView::Blob(work.packed@)
            && r.intent == Some(IntentView::Pack { bytes: work.exported->Ok_0@ }),
{
    law_addressed(instances, space, name, "pack"@);
}

/// What an update is asked to carry over is the model alone, unless it says otherwise.
pub proof fn law_migrate_asked(args: ArgsView)
    ensures
        argument(args, "migrate"@) is None ==> migrate_asked(args) == Ok::<MigrateAxis, RejectionView>(MigrateAxis::Model),
        argument(args, "migrate"@) == Some(ArgumentView::Value(ValueView::Text("model"@))) ==> migrate_asked(args) == Ok::<
            MigrateAxis,
            RejectionView,
        >(MigrateAxis::Model),
        argument(args, "migrate"@) == Some(ArgumentView::Value(ValueView::Text("model+data"@))) ==> migrate_asked(args)
            == Ok::<MigrateAxis, RejectionView>(MigrateAxis::ModelAndData),
        argument(args, "migrate"@) matches Some(ArgumentView::Period(_, _)) ==> migrate_asked(args) is Err,
{
    reveal_strlit("model");
    reveal_strlit("model+data");
    assert("model"@.len() != "model+data"@.len());
}

/// An update of a mounted module to another model records the model that the artifact
/// decodes to. One along a history records the movement where the history fast-forwards
/// the instance, nothing where it is at the same point, and is refused where the history
/// precedes the instance, diverged from it, or is unrelated.
pub proof fn law_module_updated(
    args: ArgsView,
    instances: Seq<MountedInstance>,
    work: LifecycleWork,
    space: Seq<char>,
    name: Seq<char>,
    onto: OperandView,
    bytes: Seq<u8>,
    incoming: HistoryPoint,
)
    requires
        args_taken(LifecycleOp::UpdateModule, args) is Ok,
        operand(args, "module"@, "update_module"@) == Ok::<OperandView, RejectionView>(OperandView::Mounted(space, name)),
        operand(args, "onto"@, "update_module"@) == Ok::<OperandView, RejectionView>(onto),
        artifact(onto, instances, work.blob, work.exported, "update_module"@) == Ok::<Seq<u8>, RejectionView>(bytes),
    ensures
        ({
            let out = performed(LifecycleOp::UpdateModule, args, instances, work);
            let along = migrate_asked(args) == Ok::<MigrateAxis, RejectionView>(MigrateAxis::ModelAndData) && (exists|k: int|
                0 <= k < instances.len() && (#[trigger] instances[k]).space@ == space && instances[k].name@ == name
                    && instances[k].enabled) && work.incoming == Ok::<HistoryPoint, String>(incoming);
            &&& migrate_asked(args) == Ok::<MigrateAxis, RejectionView>(MigrateAxis::Model) ==> (out is Ok
                <==> work.decoded is Ok)
            &&& migrate_asked(args) == Ok::<MigrateAxis, RejectionView>(MigrateAxis::Model) && out is Ok ==> out->Ok_0.intent
                == Some(
                IntentView::Update {
                    space,
                    name,
                    definition: work.decoded->Ok_0.definition@,
                    package: work.decoded->Ok_0.identity@,
                },
            )
            &&& along && work.relation == Ok::<ImportRelation, String>(ImportRelation::FastForward) ==> out == Ok::<
                RecordedView,
                RejectionView,
            >(
                RecordedView {
                    answer: ValueView::Text(incoming@.point),
                    intent: Some(
                        IntentView::Movement { space, name, artifact: bytes, relation: ImportRelation::FastForward },
                    ),
                },
            )
            &&& along && work.relation == Ok::<ImportRelation, String>(ImportRelation::SamePoint) ==> out == Ok::<
                RecordedView,
                RejectionView,
            >(RecordedView { answer: ValueView::Text(incoming@.point), intent: None })
            &&& along && (work.relation == Ok::<ImportRelation, String>(ImportRelation::Rollback) || work.relation == Ok::<
                ImportRelation,
                String,
            >(ImportRelation::Merge) || work.relation == Ok::<ImportRelation, String>(ImportRelation::Unrelated)) ==> (out
                matches Err(e) && e.reason == RejectionReason::Compatibility)
        }),
{
    law_addressed(instances, space, name, "update_module"@);
}

/// A rollback of a mounted module records the movement to the point its artifact
/// carries, where that point precedes the instance, nothing where the instance is at it,
/// and is refused otherwise, and to a bare instant.
pub proof fn law_module_rolled_back(
    args: ArgsView,
    instances: Seq<MountedInstance>,
    work: LifecycleWork,
    space: Seq<char>,
    name: Seq<char>,
    bytes: Vec<u8>,
    incoming: HistoryPoint,
)
    requires
        args_taken(LifecycleOp::Rollback, args) is Ok,
        operand(args, "module"@, "rollback_module"@) == Ok::<OperandView, RejectionView>(OperandView::Mounted(space, name)),
        exists|k: int|
            0 <= k < instances.len() && (#[trigger] instances[k]).space@ == space && instances[k].name@ == name
                && instances[k].enabled,
    ensures
        ({
            let out = performed(LifecycleOp::Rollback, args, instances, work);
            let to = (rollback_asked(args) matches Ok(RollbackView::Artifact(_))) && work.blob == Ok::<Option<Vec<u8>>, String>(
                Some(bytes),
            ) && work.incoming == Ok::<HistoryPoint, String>(incoming);
            &&& rollback_asked(args) matches Ok(RollbackView::Instant(_)) ==> (out matches Err(e) && e.reason
                == RejectionReason::Unsupported)
            &&& to && work.relation == Ok::<ImportRelation, String>(ImportRelation::Rollback) ==> out == Ok::<
                RecordedView,
                RejectionView,
            >(
                RecordedView {
                    answer: ValueView::Text(incoming@.point),
                    intent: Some(
                        IntentView::Movement { space, name, artifact: bytes@, relation: ImportRelation::Rollback },
                    ),
                },
            )
            &&& to && work.relation == Ok::<ImportRelation, String>(ImportRelation::SamePoint) ==> out == Ok::<
                RecordedView,
                RejectionView,
            >(RecordedView { answer: ValueView::Text(incoming@.point), intent: None })
            &&& to && (work.relation == Ok::<ImportRelation, String>(ImportRelation::FastForward) || work.relation == Ok::<
                ImportRelation,
                String,
            >(ImportRelation::Merge) || work.relation == Ok::<ImportRelation, String>(ImportRelation::Unrelated)) ==> (out
                matches Err(e) && e.reason == RejectionReason::Unsupported)
            &&& work.blob == Ok::<Option<Vec<u8>>, String>(None) && (rollback_asked(args) matches Ok(RollbackView::Artifact(_)))
                ==> out is Err
        }),
{
    law_addressed(instances, space, name, "rollback_module"@);
}

/// The operands of an operator are its leading arguments, in order, each under its own
/// name; a missing or a named one is refused.
pub proof fn law_operands(operator: ModuleOperator, args: Seq<OperatorArg>, k: nat, i: int)
    requires
        k <= operand_names(operator).len(),
    ensures
        operands_read(operator, args, k) is Ok ==> operands_read(operator, args, k)->Ok_0.len() == k && k <= args.len(),
        operands_read(operator, args, k) is Ok && 0 <= i < k ==> operands_read(operator, args, k)->Ok_0[i].0
            == operand_names(operator)[i] && operand_came(args[i]) == Some(
            Ok::<ArgumentView, RejectionView>(operands_read(operator, args, k)->Ok_0[i].1),
        ),
        operands_read(operator, args, k) is Ok <==> k <= args.len() && forall|j: int|
            0 <= j < k ==> (operand_came(#[trigger] args[j]) matches Some(r) && r is Ok),
    decreases k,
{
    if k > 0 {
        let m = (k - 1) as nat;
        law_operands(operator, args, m, i);
        if operands_read(operator, args, k) is Ok {
            assert forall|j: int| 0 <= j < k implies (operand_came(#[trigger] args[j]) matches Some(r) && r is Ok) by {
                if j < k - 1 {
                }
            }
        } else if k <= args.len() && forall|j: int|
            0 <= j < k ==> (operand_came(#[trigger] args[j]) matches Some(r) && r is Ok) {
            assert(operand_came(args[k - 1])->Some_0 is Ok);
        }
    }
}

/// Everything an axis argument gives is handed on, behind what came before it.
pub proof fn law_axes_handed_on(operator: ModuleOperator, args: Seq<OperatorArg>, k: nat)
    requires
        operand_names(operator).len() < k <= args.len(),
    ensures
        arguments_read(operator, args, k) is Ok <==> arguments_read(operator, args, (k - 1) as nat) is Ok && axis_read(
            operator,
            args[k - 1],
        ) is Ok,
        arguments_read(operator, args, k) is Ok ==> arguments_read(operator, args, k)->Ok_0 == arguments_read(
            operator,
            args,
            (k - 1) as nat,
        )->Ok_0 + axis_read(operator, args[k - 1])->Ok_0,
        args[k - 1] is Positional ==> arguments_read(operator, args, k) is Err,
{
}

/// An axis object gives each of its members, in order, under its own name.
pub proof fn law_members_read(
    operator: ModuleOperator,
    members: Seq<Option<(String, Result<crate::lifecycle::Argument, Rejection>)>>,
    k: nat,
    i: int,
)
    requires
        k <= members.len(),
    ensures
        members_read(operator, members, k) is Ok <==> forall|j: int|
            0 <= j < k ==> (#[trigger] members[j]) is Some && members[j]->Some_0.1 is Ok,
        members_read(operator, members, k) is Ok ==> members_read(operator, members, k)->Ok_0.len() == k,
        members_read(operator, members, k) is Ok && 0 <= i < k ==> members_read(operator, members, k)->Ok_0[i] == (
            members[i]->Some_0.0@,
            members[i]->Some_0.1->Ok_0@,
        ),
    decreases k,
{
    if k > 0 {
        let m = (k - 1) as nat;
        law_members_read(operator, members, m, i);
        if members_read(operator, members, k) is Ok {
            assert forall|j: int| 0 <= j < k implies (#[trigger] members[j]) is Some && members[j]->Some_0.1 is Ok by {
                if j < k - 1 {
                }
            }
        } else if forall|j: int| 0 <= j < k ==> (#[trigger] members[j]) is Some && members[j]->Some_0.1 is Ok {
            assert(members[k - 1] is Some);
        }
    }
}

/// An operator performs its own operation on the arguments it was given: with just its
/// operands, those are what it hands on.
pub proof fn law_operated(
    operator: ModuleOperator,
    args: Seq<OperatorArg>,
    instances: Seq<MountedInstance>,
    work: LifecycleWork,
)
    requires
        operator != ModuleOperator::Reinstall,
        args.len() == operand_names(operator).len(),
        operands_read(operator, args, args.len()) is Ok,
    ensures
        operated(operator, true, Ok(()), args, instances, work) == performed(
            match operator {
                ModuleOperator::Pack => LifecycleOp::Pack,
                ModuleOperator::UpdateModule => LifecycleOp::UpdateModule,
                ModuleOperator::Rollback => LifecycleOp::Rollback,
                ModuleOperator::Reinstall => LifecycleOp::InstallModule,
            },
            operands_read(operator, args, args.len())->Ok_0,
            instances,
            work,
        ),
        operated(ModuleOperator::Reinstall, true, Ok(()), args, instances, work) is Err,
{
}

/// The value of an operand is what the operator it calls answers, where it calls one,
/// and otherwise what it evaluates to.
pub proof fn law_operand_evaluated(v: ValueView, w: Result<ValueView, RejectionView>, e: RejectionView, rows: Seq<RowView>)
    ensures
        operand_evaluated(None, w) == w,
        operand_evaluated(Some(Ok(CellView::Scalar(v))), w) == Ok::<ValueView, RejectionView>(v),
        operand_evaluated(Some(Err(e)), w) == Err::<ValueView, RejectionView>(e),
        operand_evaluated(Some(Ok(CellView::Collection(rows))), w) is Err,
{
}

/// `.` may be the package root and the row the program runs on, `/` is the root alone,
/// and any other container is the row it selects.
pub proof fn law_containers(container: Expr, receiver: Option<SlotRow>, selected: Result<Option<SlotRow>, Rejection>, c: Option<SlotRow>)
    requires
        containers(container, receiver, selected) is Ok,
    ensures
        containers(container, receiver, selected)->Ok_0.contains(c) <==> match container {
            Expr::Current => c is None || c == receiver,
            Expr::Root => c is None,
            _ => c is Some && selected == Ok::<Option<SlotRow>, Rejection>(c),
        },
{
    let all = containers(container, receiver, selected)->Ok_0;
    if container is Current {
        assert(all[0] == None::<SlotRow>);
        if receiver is Some {
            assert(all[1] == receiver);
        }
    } else if container is Root {
        assert(all[0] == None::<SlotRow>);
    } else if let Ok(Some(row)) = selected {
        assert(all[0] == Some(row));
    }
}

/// A destination is read where the package declares a space of its path, and nowhere
/// else.
pub proof fn law_readings(all: Seq<Option<SlotRow>>, declaration: Seq<char>, declared: Seq<Seq<Seq<char>>>, c: Option<SlotRow>)
    ensures
        readings(all, declaration, declared).contains(c) <==> all.contains(c) && declared.contains(
            space_path(c, declaration),
        ),
{
    let f = |c: Option<SlotRow>| declared.contains(space_path(c, declaration));
    lemma_filtered(all, f, c);
}

proof fn lemma_filtered<A>(all: Seq<A>, f: spec_fn(A) -> bool, x: A)
    ensures
        all.filter(f).contains(x) <==> all.contains(x) && f(x),
    decreases all.len(),
{
    reveal(Seq::filter);
    if all.len() > 0 {
        let rest = all.drop_last();
        lemma_filtered(rest, f, x);
        assert(all[all.len() - 1] == all.last());
        let before = rest.filter(f);
        let after = all.filter(f);
        if rest.contains(x) {
            let i = choose|i: int| 0 <= i < rest.len() && rest[i] == x;
            assert(all[i] == x);
        }
        if all.contains(x) && x != all.last() {
            let i = choose|i: int| 0 <= i < all.len() && all[i] == x;
            assert(rest[i] == x);
        }
        if f(all.last()) {
            assert(after == before.push(all.last()));
            assert(after[before.len() as int] == all.last());
            if before.contains(x) {
                let i = choose|i: int| 0 <= i < before.len() && before[i] == x;
                assert(after[i] == x);
            }
            if after.contains(x) && x != all.last() {
                let i = choose|i: int| 0 <= i < after.len() && after[i] == x;
                assert(before[i] == x);
            }
        } else {
            assert(after == before);
        }
    } else {
        assert(all.filter(f).len() == 0);
    }
}

/// A module moved to a destination with one reading is installed there; another value
/// moved there is refused. Where no space is declared, a module is refused and any other
/// move goes on as an ordinary one, as one to a bare name does.
pub proof fn law_move_decided(
    dest: Expr,
    receiver: Option<SlotRow>,
    selected: Result<Option<SlotRow>, Rejection>,
    declared: Seq<Seq<Seq<char>>>,
    moves_module: bool,
)
    ensures
        dest is Name ==> move_decided(dest, moves_module, receiver, selected, declared) is None,
        !(dest is Name) && slot_of(dest) is None ==> move_decided(dest, false, receiver, selected, declared) is None
            && (move_decided(dest, true, receiver, selected, declared) matches Some(Err(_))),
        !(dest is Name) && slot_of(dest) is Some && containers(slot_of(dest)->Some_0.0, receiver, selected) is Ok ==> {
            let found = readings(
                containers(slot_of(dest)->Some_0.0, receiver, selected)->Ok_0,
                slot_of(dest)->Some_0.1@,
                declared,
            );
            &&& found.len() == 0 ==> move_decided(dest, false, receiver, selected, declared) is None && (move_decided(
                dest,
                true,
                receiver,
                selected,
                declared,
            ) matches Some(Err(_)))
            &&& found.len() == 1 ==> move_decided(dest, true, receiver, selected, declared) == Some(
                Ok::<Option<SlotRow>, RejectionView>(found[0]),
            ) && (move_decided(dest, false, receiver, selected, declared) matches Some(Err(e)) && e.reason
                == RejectionReason::TypeError)
            &&& found.len() > 1 ==> (move_decided(dest, moves_module, receiver, selected, declared) matches Some(Err(_)))
        },
{
}

/// A slot key names an instance if and only if it is a text that is not empty; then the
/// text is the name.
pub proof fn law_instance_named(key: ValueView)
    ensures
        instance_named(key) is Ok <==> key is Text && key->Text_0.len() > 0,
        instance_named(key) matches Ok(name) ==> key == ValueView::Text(name),
{
}

/// An installation by a move hands on the space, the name and the module, if and only
/// if each of them is given and the caller is lent the privilege.
pub proof fn law_install_args(
    container: Option<SlotRow>,
    declaration: Seq<char>,
    key: Result<ValueView, RejectionView>,
    source: Result<ValueView, RejectionView>,
    lent: bool,
)
    ensures
        install_args(container, declaration, Ok(()), key, source, lent) is Ok <==> lent && reading_space(
            container,
            declaration,
        ) is Ok && (key matches Ok(k) && instance_named(k) is Ok) && (source matches Ok(v) && (v is Pending || v is Mounted)),
        install_args(container, declaration, Ok(()), key, source, lent) matches Ok(args) ==> {
            &&& argument(args, "space"@) == Some(
                ArgumentView::Value(ValueView::Text(reading_space(container, declaration)->Ok_0)),
            )
            &&& argument(args, "name"@) == Some(ArgumentView::Value(key->Ok_0))
            &&& argument(args, "module"@) == Some(ArgumentView::Value(source->Ok_0))
        },
{
    reveal_strlit("space");
    reveal_strlit("name");
    reveal_strlit("module");
    assert("space"@.len() == 5 && "name"@.len() == 4 && "module"@.len() == 6);
    if let Ok(args) = install_args(container, declaration, Ok(()), key, source, lent) {
        let rest = args.drop_first();
        let last = rest.drop_first();
        assert(rest[0] == args[1]);
        assert(last[0] == args[2]);
        assert(argument(last, "module"@) == Some(args[2].1));
        assert(argument(rest, "module"@) == Some(args[2].1));
        assert(argument(rest, "name"@) == Some(args[1].1));
    }
}

/// A module collection shows exactly the instances that are entries of it, in the order
/// they were mounted, each as its own row.
pub proof fn law_entries_shown(entries: Seq<MountedEntry>, path: Seq<Seq<char>>, keys: Seq<ValueView>, row: RowView)
    ensures
        entries_shown(entries, path, keys).contains(row) <==> exists|k: int|
            0 <= k < entries.len() && entry_at((#[trigger] entries[k]).at@, path, keys) && row == entry_shown(entries[k]),
    decreases entries.len(),
{
    if entries.len() > 0 {
        let rest = entries.drop_last();
        law_entries_shown(rest, path, keys, row);
        let before = entries_shown(rest, path, keys);
        let after = entries_shown(entries, path, keys);
        assert(entries[entries.len() - 1] == entries.last());
        if exists|k: int|
            0 <= k < rest.len() && entry_at((#[trigger] rest[k]).at@, path, keys) && row == entry_shown(rest[k]) {
            let k = choose|k: int|
                0 <= k < rest.len() && entry_at((#[trigger] rest[k]).at@, path, keys) && row == entry_shown(rest[k]);
            assert(entries[k] == rest[k]);
            let i = choose|i: int| 0 <= i < before.len() && before[i] == row;
            assert(after[i] == row);
        }
        if exists|k: int|
            0 <= k < entries.len() && entry_at((#[trigger] entries[k]).at@, path, keys) && row == entry_shown(entries[k]) {
            let k = choose|k: int|
                0 <= k < entries.len() && entry_at((#[trigger] entries[k]).at@, path, keys) && row == entry_shown(
                    entries[k],
                );
            if k < rest.len() {
                assert(rest[k] == entries[k]);
            } else {
                assert(after[before.len() as int] == row);
            }
        }
        if after.contains(row) {
            let i = choose|i: int| 0 <= i < after.len() && after[i] == row;
            if i < before.len() {
                assert(before[i] == row);
            }
        }
    }
}

/// The row of an instance is keyed by its name and shows each of its interfaces in a
/// cell of that name.
pub proof fn law_entry_shown(e: MountedEntry, name: Seq<char>, i: int)
    requires
        instance_of(e.at@) == Some(name),
        0 <= i < e.interfaces@.len(),
    ensures
        entry_shown(e).key == ValueView::Text(name),
        entry_shown(e).cells.len() == e.interfaces@.len() + 2,
        entry_shown(e).cells[0].1 == CellView::Scalar(ValueView::Text(name)),
        entry_shown(e).cells[1].1 == CellView::Scalar(ValueView::Mounted(e.rendered@)),
        entry_shown(e).cells[i + 2] == (e.interfaces@[i].0@, CellView::Collection(row_views(e.interfaces@[i].1@))),
{
}

/// Folding a module collection of the root in sets the cell of its name to the rows of
/// the entries under no row, and leaves every other cell as it was.
pub proof fn law_folded_root(entries: Seq<MountedEntry>, row: RowView, declaration: Seq<char>, other: Seq<char>)
    requires
        other != declaration,
    ensures
        ({
            let after = folded_row(entries, row, seq![declaration], 0, Seq::empty());
            &&& cell_named(after.cells, declaration) == Some(
                CellView::Collection(entries_shown(entries, seq![declaration], Seq::empty())),
            )
            &&& cell_named(after.cells, other) == cell_named(row.cells, other)
            &&& after.key == row.key
            &&& after.id == row.id
        }),
{
    law_cell_set(
        row.cells,
        declaration,
        CellView::Collection(entries_shown(entries, seq![declaration], Seq::empty())),
        other,
    );
}

/// Folding a module collection of the rows of a collection in gives each of those rows
/// the entries that are under it, by its own key, and leaves the root's other cells, and
/// each row's other cells, as they were.
pub proof fn law_folded_rows(
    entries: Seq<MountedEntry>,
    root: RowView,
    collection: Seq<char>,
    declaration: Seq<char>,
    rows: Seq<RowView>,
    i: int,
    other: Seq<char>,
)
    requires
        cell_named(root.cells, collection) == Some(CellView::Collection(rows)),
        0 <= i < rows.len(),
        other != collection,
        other != declaration,
    ensures
        ({
            let path = seq![collection, declaration];
            let after = folded_row(entries, root, path, 0, Seq::empty());
            &&& cell_named(after.cells, other) == cell_named(root.cells, other)
            &&& cell_named(after.cells, collection) matches Some(CellView::Collection(inner)) && inner.len() == rows.len()
                && cell_named(inner[i].cells, declaration) == Some(
                CellView::Collection(entries_shown(entries, path, seq![rows[i].key])),
            ) && cell_named(inner[i].cells, other) == cell_named(rows[i].cells, other) && inner[i].key == rows[i].key
                && inner[i].id == rows[i].id
        }),
{
    let path = seq![collection, declaration];
    let none = Seq::<ValueView>::empty();
    let inner = folded_rows(entries, rows, path, 1, none);
    reveal_with_fuel(folded_row, 2);
    law_cell_set(root.cells, collection, CellView::Collection(inner), other);
    let keys = none.push(rows[i].key);
    assert(keys =~= seq![rows[i].key]);
    assert(inner[i] == folded_row(entries, rows[i], path, 1, keys));
    law_cell_set(rows[i].cells, declaration, CellView::Collection(entries_shown(entries, path, keys)), other);
}

/// Every enabled instance is gathered, under its space and its name with all it shows,
/// in the order they were installed, and a disabled one is not.
pub proof fn law_gathered<E>(children: Seq<ChildView<E>>, reads: Seq<Vec<(String, InterfaceRead)>>, n: nat, i: int)
    requires
        n <= children.len() == reads.len(),
    ensures
        gathered(children, reads, n) is Ok <==> forall|k: int|
            0 <= k < n && (#[trigger] children[k]).enabled ==> shown_by(reads[k]@, reads[k]@.len()) is Ok,
        gathered(children, reads, n) is Ok && 0 <= i < n && children[i].enabled ==> gathered(
            children,
            reads,
            n,
        )->Ok_0.contains(
            (
                children[i].space,
                InstanceView { name: children[i].name, interfaces: shown_by(reads[i]@, reads[i]@.len())->Ok_0 },
            ),
        ),
    decreases n,
{
    if n > 0 {
        let m = (n - 1) as nat;
        law_gathered(children, reads, m, i);
        if gathered(children, reads, n) is Ok {
            let before = gathered(children, reads, m)->Ok_0;
            let after = gathered(children, reads, n)->Ok_0;
            assert forall|k: int| 0 <= k < n && (#[trigger] children[k]).enabled implies shown_by(
                reads[k]@,
                reads[k]@.len(),
            ) is Ok by {
                if k < n - 1 {
                }
            }
            if 0 <= i < n && children[i].enabled {
                let x = (
                    children[i].space,
                    InstanceView { name: children[i].name, interfaces: shown_by(reads[i]@, reads[i]@.len())->Ok_0 },
                );
                if i < n - 1 {
                    let j = choose|j: int| 0 <= j < before.len() && before[j] == x;
                    assert(after[j] == x);
                } else {
                    assert(after[before.len() as int] == x);
                }
            }
        } else if gathered(children, reads, m) is Err {
            let k = choose|k: int|
                0 <= k < m && (#[trigger] children[k]).enabled && !(shown_by(reads[k]@, reads[k]@.len()) is Ok);
            assert(children[k].enabled);
        } else {
            assert(children[n - 1].enabled);
        }
    }
}

/// An instance shows the rows of each interface it could be read at, under its name, and
/// no interface without a view.
pub proof fn law_shown_by(reads: Seq<(String, InterfaceRead)>, n: nat, i: int)
    requires
        n <= reads.len(),
    ensures
        shown_by(reads, n) is Ok <==> forall|k: int| 0 <= k < n ==> (#[trigger] reads[k]).1 is Ok,
        shown_by(reads, n) is Ok && 0 <= i < n && reads[i].1->Ok_0 is Some ==> shown_by(reads, n)->Ok_0.contains(
            (reads[i].0@, row_views(reads[i].1->Ok_0->Some_0@)),
        ),
        shown_by(reads, n) is Ok ==> forall|j: int|
            0 <= j < shown_by(reads, n)->Ok_0.len() ==> exists|k: int|
                0 <= k < n && #[trigger] reads[k].0@ == (#[trigger] shown_by(reads, n)->Ok_0[j]).0 && reads[k].1
                    matches Ok(Some(_)),
    decreases n,
{
    if n > 0 {
        let m = (n - 1) as nat;
        law_shown_by(reads, m, i);
        if shown_by(reads, n) is Ok {
            let before = shown_by(reads, m)->Ok_0;
            let after = shown_by(reads, n)->Ok_0;
            assert forall|k: int| 0 <= k < n implies (#[trigger] reads[k]).1 is Ok by {
                if k < n - 1 {
                }
            }
            if 0 <= i < n && reads[i].1->Ok_0 is Some {
                let x = (reads[i].0@, row_views(reads[i].1->Ok_0->Some_0@));
                if i < n - 1 {
                    let j = choose|j: int| 0 <= j < before.len() && before[j] == x;
                    assert(after[j] == x);
                } else {
                    assert(after[before.len() as int] == x);
                }
            }
            assert forall|j: int| 0 <= j < after.len() implies exists|k: int|
                0 <= k < n && #[trigger] reads[k].0@ == (#[trigger] after[j]).0 && reads[k].1 matches Ok(Some(_)) by {
                if j < before.len() {
                    assert(after[j] == before[j]);
                    let k = choose|k: int|
                        0 <= k < m && #[trigger] reads[k].0@ == before[j].0 && reads[k].1 matches Ok(Some(_));
                    assert(reads[k].0@ == after[j].0);
                } else {
                    assert(reads[n - 1].0@ == after[j].0);
                }
            }
        } else if shown_by(reads, m) is Err {
            let k = choose|k: int| 0 <= k < m && !((#[trigger] reads[k]).1 is Ok);
            assert(!(reads[k].1 is Ok));
        } else {
            assert(!(reads[n - 1].1 is Ok));
        }
    }
}

/// A space shows exactly the instances in it, each keyed by its name.
pub proof fn law_space_shown(instances: Seq<(Seq<char>, InstanceView)>, space: Seq<char>, row: RowView)
    ensures
        space_shown(instances, space).contains(row) <==> exists|k: int|
            0 <= k < instances.len() && (#[trigger] instances[k]).0 == space && row == instance_shown(instances[k].1),
    decreases instances.len(),
{
    if instances.len() > 0 {
        let rest = instances.drop_last();
        law_space_shown(rest, space, row);
        let before = space_shown(rest, space);
        let after = space_shown(instances, space);
        assert(instances[instances.len() - 1] == instances.last());
        if exists|k: int| 0 <= k < rest.len() && (#[trigger] rest[k]).0 == space && row == instance_shown(rest[k].1) {
            let k = choose|k: int|
                0 <= k < rest.len() && (#[trigger] rest[k]).0 == space && row == instance_shown(rest[k].1);
            assert(instances[k] == rest[k]);
            let i = choose|i: int| 0 <= i < before.len() && before[i] == row;
            assert(after[i] == row);
        }
        if exists|k: int|
            0 <= k < instances.len() && (#[trigger] instances[k]).0 == space && row == instance_shown(instances[k].1) {
            let k = choose|k: int|
                0 <= k < instances.len() && (#[trigger] instances[k]).0 == space && row == instance_shown(instances[k].1);
            if k < rest.len() {
                assert(rest[k] == instances[k]);
            } else {
                assert(after[before.len() as int] == row);
            }
        }
        if after.contains(row) {
            let i = choose|i: int| 0 <= i < after.len() && after[i] == row;
            if i < before.len() {
                assert(before[i] == row);
            }
        }
    }
}

/// Folding a space of the root in sets the cell of its name to what the space shows;
/// folding the spaces of a collection's rows in gives each row with a key text its own
/// space. Other cells stay.
pub proof fn law_space_folded(
    instances: Seq<(Seq<char>, InstanceView)>,
    root: RowView,
    collection: Seq<char>,
    member: Seq<char>,
    key_texts: Map<ValueView, Seq<char>>,
    rows: Seq<RowView>,
    i: int,
    other: Seq<char>,
)
    requires
        other != collection,
        other != member,
    ensures
        cell_named(space_folded(instances, root, seq![member], key_texts).cells, member) == Some(
            CellView::Collection(space_shown(instances, "/"@ + member)),
        ),
        cell_named(space_folded(instances, root, seq![member], key_texts).cells, other) == cell_named(root.cells, other),
        cell_named(space_folded(instances, root, seq![collection, member], key_texts).cells, other) == cell_named(
            root.cells,
            other,
        ),
        cell_named(root.cells, collection) == Some(CellView::Collection(rows)) && 0 <= i < rows.len() ==> (cell_named(
            space_folded(instances, root, seq![collection, member], key_texts).cells,
            collection,
        ) matches Some(CellView::Collection(inner)) && inner.len() == rows.len() && inner[i].key == rows[i].key && cell_named(
            inner[i].cells,
            other,
        ) == cell_named(rows[i].cells, other) && (key_texts.contains_key(rows[i].key) ==> cell_named(
            inner[i].cells,
            member,
        ) == Some(
            CellView::Collection(
                space_shown(instances, "/"@ + collection + "/"@ + key_texts[rows[i].key] + ("/"@ + member)),
            ),
        ))),
{
    law_cell_set(root.cells, member, CellView::Collection(space_shown(instances, "/"@ + member)), other);
    if let Some(CellView::Collection(found)) = cell_named(root.cells, collection) {
        let inner = Seq::new(found.len(), |i: int| row_with_space(instances, found[i], collection, member, key_texts));
        law_cell_set(root.cells, collection, CellView::Collection(inner), other);
        if 0 <= i < found.len() && key_texts.contains_key(found[i].key) {
            law_cell_set(
                found[i].cells,
                member,
                CellView::Collection(
                    space_shown(instances, "/"@ + collection + "/"@ + key_texts[found[i].key] + ("/"@ + member)),
                ),
                other,
            );
        }
    }
}

/// A stored row has the fields of its struct, the last of a name, and no others.
pub proof fn law_fields_in(members: Seq<(Seq<char>, ValueView)>, i: int, name: Seq<char>)
    ensures
        fields_in(members).contains_key(name) <==> exists|k: int|
            0 <= k < members.len() && (#[trigger] members[k]).0 == name,
        0 <= i < members.len() && members[i].0 == name && (forall|k: int|
            i < k < members.len() ==> (#[trigger] members[k]).0 != name) ==> fields_in(members)[name] == members[i].1,
        stored_fields(ValueView::Struct(members)) == fields_in(members),
    decreases members.len(),
{
    if members.len() > 0 {
        let rest = members.drop_last();
        law_fields_in(rest, i, name);
        assert(members[members.len() - 1] == members.last());
        if fields_in(rest).contains_key(name) {
            let k = choose|k: int| 0 <= k < rest.len() && (#[trigger] rest[k]).0 == name;
            assert(members[k] == rest[k]);
        }
        if exists|k: int| 0 <= k < members.len() && (#[trigger] members[k]).0 == name {
            let k = choose|k: int| 0 <= k < members.len() && (#[trigger] members[k]).0 == name;
            if k < rest.len() {
                assert(rest[k] == members[k]);
            }
        }
        if 0 <= i < rest.len() && members[i].0 == name && (forall|k: int|
            i < k < members.len() ==> (#[trigger] members[k]).0 != name) {
            assert(rest[i] == members[i]);
            assert(members[members.len() - 1].0 != name);
            assert forall|k: int| i < k < rest.len() implies (#[trigger] rest[k]).0 != name by {
                assert(rest[k] == members[k]);
            }
        }
    }
}

/// A shown row has a cell for each member of its shape, under its name: a field shows
/// what the row holds, or that it is absent, and a nested collection its rows. The row
/// is known by its own key.
pub proof fn law_row_shown(
    read: ReadView,
    address: Seq<StepView>,
    shape: int,
    id: Seq<Seq<ValueView>>,
    depth: nat,
    limit: nat,
    i: int,
)
    requires
        0 <= i < read.shapes[shape].members@.len(),
    ensures
        ({
            let row = row_shown(read, address, shape, id, depth, limit);
            let member = read.shapes[shape].members@[i];
            &&& row.id == id
            &&& read.shapes[shape].key@.len() == 1 && address.last().key.len() == 1 ==> row.key == address.last().key[0]
            &&& read.shapes[shape].key@.len() > 1 ==> row.key == ValueView::Composite(address.last().key)
            &&& row.cells.len() == read.shapes[shape].members@.len()
            &&& row.cells[i].0 == member.name@
            &&& member.nested is None && read.state[address].contains_key(member.name@) ==> row.cells[i].1
                == CellView::Scalar(read.state[address][member.name@])
            &&& member.nested is None && !read.state[address].contains_key(member.name@) ==> row.cells[i].1
                == CellView::Scalar(ValueView::Absent)
            &&& member.nested matches Some(nested) ==> row.cells[i].1 == CellView::Collection(
                rows_shown(read, (address, member.name@), nested as int, id, depth, limit),
            )
        }),
{
}

/// A collection shows a row for each of its shown addresses, in their order, each with
/// its own key added to the identity, and with the bounds of its interval where it has
/// one.
pub proof fn law_rows_shown(
    read: ReadView,
    path: (Seq<StepView>, Seq<char>),
    shape: int,
    id: Seq<Seq<ValueView>>,
    depth: nat,
    limit: nat,
    i: int,
)
    requires
        depth < limit,
        0 <= i < shown_rows(read.state, read.moments, read.active_only, path).len(),
    ensures
        ({
            let addresses = shown_rows(read.state, read.moments, read.active_only, path);
            let rows = rows_shown(read, path, shape, id, depth, limit);
            let plain = row_shown(read, addresses[i], shape, id.push(addresses[i].last().key), depth + 1, limit);
            &&& rows.len() == addresses.len()
            &&& rows[i].id == id.push(addresses[i].last().key)
            &&& rows[i].key == plain.key
            &&& forall|k: int| 0 <= k < plain.cells.len() ==> #[trigger] rows[i].cells[k] == plain.cells[k]
            &&& !read.moments.contains_key(addresses[i]) ==> rows[i] == plain
            &&& read.moments.contains_key(addresses[i]) && read.moments[addresses[i]].interval is Some ==> {
                let (from, until) = read.moments[addresses[i]].interval->0;
                &&& rows[i].cells.len() == plain.cells.len() + 2
                &&& rows[i].cells[plain.cells.len() as int] == ("$from"@, bound_cell(from))
                &&& rows[i].cells[plain.cells.len() as int + 1] == ("$until"@, bound_cell(until))
            }
        }),
{
}

/// The root shows each of its collections, in order, and no plain member.
pub proof fn law_root_cells(read: ReadView, root: Seq<MemberDecl>, n: nat, limit: nat, i: int)
    requires
        n <= root.len(),
        0 <= i < n,
        root[i].nested is Some,
    ensures
        root_cells(read, root, n, limit).contains(
            (
                root[i].name@,
                CellView::Collection(
                    rows_shown(
                        read,
                        (Seq::empty(), root[i].name@),
                        root[i].nested->0 as int,
                        Seq::empty(),
                        0,
                        limit,
                    ),
                ),
            ),
        ),
        root_cells(read, root, n, limit).len() <= n,
    decreases n,
{
    let m = (n - 1) as nat;
    let before = root_cells(read, root, m, limit);
    let after = root_cells(read, root, n, limit);
    lemma_root_bound(read, root, m, limit);
    let x = (
        root[i].name@,
        CellView::Collection(
            rows_shown(read, (Seq::empty(), root[i].name@), root[i].nested->0 as int, Seq::empty(), 0, limit),
        ),
    );
    if i < n - 1 {
        law_root_cells(read, root, m, limit, i);
        let j = choose|j: int| 0 <= j < before.len() && before[j] == x;
        assert(after[j] == x);
    } else {
        assert(after[before.len() as int] == x);
    }
}

proof fn lemma_root_bound(read: ReadView, root: Seq<MemberDecl>, n: nat, limit: nat)
    ensures
        root_cells(read, root, n, limit).len() <= n,
    decreases n,
{
    if n > 0 {
        lemma_root_bound(read, root, (n - 1) as nat, limit);
    }
}

} // verus!
