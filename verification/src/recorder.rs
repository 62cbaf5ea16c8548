//! What a lifecycle operation records while a transition is staged: the answer it
//! gives, and the intent that is carried out once the transition commits.

use crate::history::ImportRelation;
use crate::lifecycle::{
    args_taken, args_view, argument, axes, divergence_text, find_argument, instant_unsupported, moves_forward,
    not_mounted, op_name, operand, path_of, point_path, reject_unsupported_args, relation_name, relation_text, retained,
    rollback_asked, text_arg, text_given, AncestryDivergence, ArgsView, Argument, ArgumentView, AxesView,
    DivergenceView, LifecycleOp, ModuleOperand, OperandView, PackAxes, RollbackPoint, RollbackView,
};
use crate::lineage::{HistoryPoint, PointView};
use crate::module_update::entry_path;
use crate::rejection::{refused, Rejection, RejectionReason, RejectionView};
use crate::text::{concat, concat3, concat4, concat5, same_text};
use crate::update::{EngineError, EngineErrorView};
use crate::value::{Value, ValueView};
use crate::version::Version;
use vstd::prelude::*;

verus! {

/// An instance an operation may address.
#[derive(Debug)]
pub struct MountedInstance {
    pub space: String,
    pub name: String,
    pub version: Version,
    pub point: HistoryPoint,
    pub enabled: bool,
}

/// What becomes of an instance that already holds a slot.
#[derive(Debug, Clone, Copy, PartialEq, Eq, Structural)]
pub enum Occupant {
    /// It stays, and the newcomer is refused.
    Refuse,
    /// It is dropped.
    Drop,
}

/// The identity of a decoded package: that of its definition as text, and the digest
/// of the bytes it was decoded from.
#[derive(Debug)]
pub struct PackageId {
    pub definition: String,
    pub content: String,
}

/// What a [`PackageId`] denotes.
#[verifier::ext_equal]
pub struct PackageView {
    pub definition: Seq<char>,
    pub content: Seq<char>,
}

impl View for PackageId {
    type V = PackageView;

    open spec fn view(&self) -> PackageView {
        PackageView { definition: self.definition@, content: self.content@ }
    }
}

/// What is to be done once the transition commits.
#[derive(Debug)]
pub enum LifecycleIntent {
    Install { space: String, name: String, definition: String, package: PackageId, occupant: Occupant },
    Relocate { space: String, from: String, to: String, occupant: Occupant },
    Update { space: String, name: String, definition: String, package: PackageId },
    Remove { space: String, name: String },
    Pack { bytes: Vec<u8> },
    Movement { space: String, name: String, artifact: Vec<u8>, relation: ImportRelation },
}

/// What a [`LifecycleIntent`] denotes.
#[verifier::ext_equal]
pub enum IntentView {
    Install { space: Seq<char>, name: Seq<char>, definition: Seq<char>, package: PackageView, occupant: Occupant },
    Relocate { space: Seq<char>, from: Seq<char>, to: Seq<char>, occupant: Occupant },
    Update { space: Seq<char>, name: Seq<char>, definition: Seq<char>, package: PackageView },
    Remove { space: Seq<char>, name: Seq<char> },
    Pack { bytes: Seq<u8> },
    Movement { space: Seq<char>, name: Seq<char>, artifact: Seq<u8>, relation: ImportRelation },
}

impl View for LifecycleIntent {
    type V = IntentView;

    open spec fn view(&self) -> IntentView {
        match self {
            LifecycleIntent::Install { space, name, definition, package, occupant } => IntentView::Install {
                space: space@,
                name: name@,
                definition: definition@,
                package: package@,
                occupant: *occupant,
            },
            LifecycleIntent::Relocate { space, from, to, occupant } => IntentView::Relocate {
                space: space@,
                from: from@,
                to: to@,
                occupant: *occupant,
            },
            LifecycleIntent::Update { space, name, definition, package } => IntentView::Update {
                space: space@,
                name: name@,
                definition: definition@,
                package: package@,
            },
            LifecycleIntent::Remove { space, name } => IntentView::Remove { space: space@, name: name@ },
            LifecycleIntent::Pack { bytes } => IntentView::Pack { bytes: bytes@ },
            LifecycleIntent::Movement { space, name, artifact, relation } => IntentView::Movement {
                space: space@,
                name: name@,
                artifact: artifact@,
                relation: *relation,
            },
        }
    }
}

/// A decoded package: its definition, and its identity.
#[derive(Debug)]
pub struct Decoded {
    pub definition: String,
    pub identity: PackageId,
}

/// What the reads of an operation came to outside: the bytes of the blob it names, or
/// nothing where the store does not hold them; the package the bytes decode to; the
/// exported bytes of the instance it names, and their descriptor; how an incoming
/// history relates to the instance, and the point it selects; and how an asked instant
/// is written. A failed read gives why.
pub struct LifecycleWork {
    pub blob: Result<Option<Vec<u8>>, String>,
    pub decoded: Result<Decoded, String>,
    pub exported: Result<Vec<u8>, String>,
    pub packed: String,
    pub relation: Result<ImportRelation, String>,
    pub incoming: Result<HistoryPoint, String>,
    pub instant: String,
}

/// What an operation records: the value it answers with, and the intent.
#[derive(Debug)]
pub struct Recorded {
    pub answer: Value,
    pub intent: Option<LifecycleIntent>,
}

/// What a [`Recorded`] operation denotes.
#[verifier::ext_equal]
pub struct RecordedView {
    pub answer: ValueView,
    pub intent: Option<IntentView>,
}

impl View for Recorded {
    type V = RecordedView;

    open spec fn view(&self) -> RecordedView {
        RecordedView {
            answer: self.answer@,
            intent: match self.intent {
                Some(i) => Some(i@),
                None => None,
            },
        }
    }
}

/// What an operation came to.
pub open spec fn recorded(r: Result<Recorded, Rejection>) -> Result<RecordedView, RejectionView> {
    match r {
        Ok(v) => Ok(v@),
        Err(e) => Err(e@),
    }
}

/// An answer with an intent.
pub open spec fn answered(answer: ValueView, intent: IntentView) -> RecordedView {
    RecordedView { answer, intent: Some(intent) }
}

/// The bytes of a blob, which the store must hold.
pub open spec fn bytes_held(blob: Result<Option<Vec<u8>>, String>) -> Result<Seq<u8>, RejectionView> {
    match blob {
        Err(e) => Err(refused(RejectionReason::Evaluation, "blob store error: "@ + e@)),
        Ok(None) => Err(
            refused(
                RejectionReason::Malformed,
                "the `.liasse` blob is not held by the store, so its bytes cannot be read"@,
            ),
        ),
        Ok(Some(bytes)) => Ok(bytes@),
    }
}

/// The package bytes decode to.
pub open spec fn package(decoded: Result<Decoded, String>) -> Result<Decoded, RejectionView> {
    match decoded {
        Ok(d) => Ok(d),
        Err(e) => Err(refused(RejectionReason::Malformed, "malformed module package blob: "@ + e@)),
    }
}

/// The enabled instance of this name in this space, from `from` on.
pub open spec fn instance_from(instances: Seq<MountedInstance>, space: Seq<char>, name: Seq<char>, from: nat) -> Option<int>
    decreases instances.len() - from,
{
    if from >= instances.len() {
        None
    } else if instances[from as int].space@ == space && instances[from as int].name@ == name
        && instances[from as int].enabled {
        Some(from as int)
    } else {
        instance_from(instances, space, name, from + 1)
    }
}

/// The instance an operation addresses.
pub open spec fn addressed(
    instances: Seq<MountedInstance>,
    space: Seq<char>,
    name: Seq<char>,
    operator: Seq<char>,
) -> Result<int, RejectionView> {
    match instance_from(instances, space, name, 0) {
        Some(i) => Ok(i),
        None => Err(
            refused(
                RejectionReason::Malformed,
                "`"@ + operator + "` addresses `"@ + name + ("` in `"@ + space
                    + "`, which resolves to no enabled module instance in this transition"@),
            ),
        ),
    }
}

/// Packing a module: one that is not mounted is its own blob, and a mounted one is
/// exported, as far as it retains what is asked for.
pub open spec fn packed(args: ArgsView, instances: Seq<MountedInstance>, work: LifecycleWork) -> Result<
    RecordedView,
    RejectionView,
> {
    match operand(args, "module"@, "pack"@) {
        Err(e) => Err(e),
        Ok(OperandView::Pending(d)) => if axes(args) == (AxesView { model: None, data: None, history: false }) {
            Ok(RecordedView { answer: ValueView::Blob(d), intent: None })
        } else {
            Err(
                refused(
                    RejectionReason::Unsupported,
                    "`pack` was given an axis coordinate over a module `unpack` has not yet materialized: it has no timeline, so it has no version, point or range other than the blob it carries. Install it first, then pack the instance."@,
                ),
            )
        },
        Ok(OperandView::Mounted(space, name)) => match addressed(instances, space, name, "pack"@) {
            Err(e) => Err(e),
            Ok(i) => match retained(axes(args), instances[i].version, instances[i].point@, work.instant@) {
                Err(EngineErrorView::Unsupported(m)) => Err(refused(RejectionReason::Unsupported, m)),
                Err(_) => Err(refused(RejectionReason::Unsupported, Seq::empty())),
                Ok(_) => match work.exported {
                    Err(e) => Err(
                        refused(RejectionReason::Evaluation, "the instance could not be packed: "@ + e@),
                    ),
                    Ok(bytes) => Ok(answered(ValueView::Blob(work.packed@), IntentView::Pack { bytes: bytes@ })),
                },
            },
        },
    }
}

/// Moving a module into a slot: one that is not mounted is installed there, and a
/// mounted one is moved, within its own space only. Either way an occupant is dropped.
pub open spec fn moved_in(args: ArgsView, work: LifecycleWork) -> Result<RecordedView, RejectionView> {
    match (
        text_given(LifecycleOp::InstallModule, args, "space"@),
        text_given(LifecycleOp::InstallModule, args, "name"@),
    ) {
        (Err(e), _) => Err(e),
        (Ok(_), Err(e)) => Err(e),
        (Ok(space), Ok(name)) => match operand(args, "module"@, "install_module"@) {
            Err(e) => Err(e),
            Ok(OperandView::Pending(_)) => match bytes_held(work.blob) {
                Err(e) => Err(e),
                Ok(_) => match package(work.decoded) {
                    Err(e) => Err(e),
                    Ok(d) => Ok(
                        answered(
                            ValueView::Text(d.identity.definition@),
                            IntentView::Install {
                                space,
                                name,
                                definition: d.definition@,
                                package: d.identity@,
                                occupant: Occupant::Drop,
                            },
                        ),
                    ),
                },
            },
            Ok(OperandView::Mounted(from, source)) => if from != space {
                Err(
                    refused(
                        RejectionReason::Unsupported,
                        "`install_module` would relocate `"@ + source + "` from `"@ + from + ("` into `"@ + space
                            + "`, but a module space is a boundary, not a folder: the destination declares its own parent surfaces, peer set and interface contracts, and this instance was loaded under the source space's and re-admitted against none of them. Refused rather than re-keyed into a space whose boundary it was never checked against — pack it (`pack(m)`) and install the artifact into the destination instead. Relocation WITHIN one space is supported."@),
                    ),
                )
            } else if source != name {
                Ok(
                    answered(
                        ValueView::Text(name),
                        IntentView::Relocate { space, from: source, to: name, occupant: Occupant::Drop },
                    ),
                )
            } else {
                Ok(RecordedView { answer: ValueView::Text(name), intent: None })
            },
        },
    }
}

/// What an update carries over.
#[derive(Debug, Clone, Copy, PartialEq, Eq, Structural)]
pub enum MigrateAxis {
    /// The model alone; the instance keeps its data.
    Model,
    /// The model, and the incoming history and data.
    ModelAndData,
}

/// What an update is asked to carry over; the model alone where nothing is asked.
pub open spec fn migrate_asked(args: ArgsView) -> Result<MigrateAxis, RejectionView> {
    match argument(args, "migrate"@) {
        None | Some(ArgumentView::Value(ValueView::Absent)) => Ok(MigrateAxis::Model),
        Some(ArgumentView::Value(ValueView::Text(t))) => if t == "model"@ {
            Ok(MigrateAxis::Model)
        } else if t == "model+data"@ {
            Ok(MigrateAxis::ModelAndData)
        } else {
            Err(
                refused(
                    RejectionReason::Malformed,
                    "`update_module`'s `migrate` axis is one of model or model+data, not `"@ + t + "`"@,
                ),
            )
        },
        Some(_) => Err(
            refused(RejectionReason::Malformed, "`update_module`'s `migrate` axis is one of model or model+data"@),
        ),
    }
}

/// The artifact a module operand carries: its blob, or the export of the instance.
pub open spec fn artifact(
    o: OperandView,
    instances: Seq<MountedInstance>,
    blob: Result<Option<Vec<u8>>, String>,
    exported: Result<Vec<u8>, String>,
    operator: Seq<char>,
) -> Result<Seq<u8>, RejectionView> {
    match o {
        OperandView::Pending(_) => bytes_held(blob),
        OperandView::Mounted(space, name) => match addressed(instances, space, name, operator) {
            Err(e) => Err(e),
            Ok(_) => match exported {
                Err(e) => Err(
                    refused(RejectionReason::Evaluation, "the instance could not be exported: "@ + e@),
                ),
                Ok(bytes) => Ok(bytes@),
            },
        },
    }
}

/// How an incoming history relates to an instance, and the point it selects.
pub open spec fn related(
    relation: Result<ImportRelation, String>,
    incoming: Result<HistoryPoint, String>,
    operator: Seq<char>,
    what: Seq<char>,
) -> Result<(ImportRelation, PointView), RejectionView> {
    match (relation, incoming) {
        (Err(e), _) => Err(
            refused(RejectionReason::Malformed, "`"@ + operator + "`'s "@ + what + (" failed verification: "@ + e@)),
        ),
        (Ok(_), Err(e)) => Err(
            refused(RejectionReason::Malformed, "`"@ + operator + "`'s artifact failed verification: "@ + e@),
        ),
        (Ok(relation), Ok(p)) => Ok((relation, p@)),
    }
}

/// Updating a mounted module: to another model, or along an incoming history that
/// moves it forward. A history that does not is refused, never merged.
pub open spec fn updated(args: ArgsView, instances: Seq<MountedInstance>, work: LifecycleWork) -> Result<
    RecordedView,
    RejectionView,
> {
    let operator = "update_module"@;
    match operand(args, "module"@, operator) {
        Err(e) => Err(e),
        Ok(OperandView::Pending(_)) => Err(not_mounted(operator)),
        Ok(OperandView::Mounted(space, name)) => match operand(args, "onto"@, operator) {
            Err(e) => Err(e),
            Ok(onto) => match migrate_asked(args) {
                Err(e) => Err(e),
                Ok(axis) => match artifact(onto, instances, work.blob, work.exported, operator) {
                    Err(e) => Err(e),
                    Ok(bytes) => match axis {
                        MigrateAxis::Model => match package(work.decoded) {
                            Err(e) => Err(e),
                            Ok(d) => Ok(
                                answered(
                                    ValueView::Text(d.identity.definition@),
                                    IntentView::Update {
                                        space,
                                        name,
                                        definition: d.definition@,
                                        package: d.identity@,
                                    },
                                ),
                            ),
                        },
                        MigrateAxis::ModelAndData => match addressed(instances, space, name, operator) {
                            Err(e) => Err(e),
                            Ok(i) => match related(work.relation, work.incoming, operator, "incoming module"@) {
                                Err(e) => Err(e),
                                Ok((relation, incoming)) => if !moves_forward(relation) {
                                    Err(
                                        refused(
                                            RejectionReason::Compatibility,
                                            divergence_text(
                                                DivergenceView {
                                                    relation,
                                                    at: entry_path(space, name),
                                                    local: instances[i].point@,
                                                    incoming,
                                                },
                                            ),
                                        ),
                                    )
                                } else if relation == ImportRelation::FastForward {
                                    Ok(
                                        answered(
                                            ValueView::Text(incoming.point),
                                            IntentView::Movement { space, name, artifact: bytes, relation },
                                        ),
                                    )
                                } else {
                                    Ok(RecordedView { answer: ValueView::Text(incoming.point), intent: None })
                                },
                            },
                        },
                    },
                },
            },
        },
    }
}

/// Rolling a mounted module back to the point an artifact carries: the point must
/// precede where the instance is, or be it.
pub open spec fn rolled_back(args: ArgsView, instances: Seq<MountedInstance>, work: LifecycleWork) -> Result<
    RecordedView,
    RejectionView,
> {
    let operator = "rollback_module"@;
    match operand(args, "module"@, operator) {
        Err(e) => Err(e),
        Ok(OperandView::Pending(_)) => Err(not_mounted(operator)),
        Ok(OperandView::Mounted(space, name)) => match addressed(instances, space, name, operator) {
            Err(e) => Err(e),
            Ok(i) => match rollback_asked(args) {
                Err(e) => Err(e),
                Ok(RollbackView::Instant(_)) => Err(
                    refused(
                        RejectionReason::Unsupported,
                        instant_unsupported(work.instant@, instances[i].point@),
                    ),
                ),
                Ok(RollbackView::Artifact(_)) => match bytes_held(work.blob) {
                    Err(e) => Err(e),
                    Ok(bytes) => match related(work.relation, work.incoming, operator, "point artifact"@) {
                        Err(e) => Err(e),
                        Ok((relation, incoming)) => match relation {
                            ImportRelation::SamePoint => Ok(
                                RecordedView { answer: ValueView::Text(incoming.point), intent: None },
                            ),
                            ImportRelation::Rollback => Ok(
                                answered(
                                    ValueView::Text(incoming.point),
                                    IntentView::Movement { space, name, artifact: bytes, relation },
                                ),
                            ),
                            other => Err(
                                refused(
                                    RejectionReason::Unsupported,
                                    "`rollback_module` forks BACK to a retained point, but the given artifact's point `"@
                                        + point_path(incoming) + "` does not precede the instance's live point `"@
                                        + point_path(instances[i].point@) + ("` (classified "@ + relation_name(other)
                                        + "). Refused rather than moving the instance somewhere it was never asked to go."@),
                                ),
                            ),
                        },
                    },
                },
            },
        },
    }
}

/// What an operation records.
pub open spec fn performed(
    op: LifecycleOp,
    args: ArgsView,
    instances: Seq<MountedInstance>,
    work: LifecycleWork,
) -> Result<RecordedView, RejectionView> {
    match args_taken(op, args) {
        Err(e) => Err(e),
        Ok(_) => match op {
            LifecycleOp::Install | LifecycleOp::Update | LifecycleOp::Remove => match (
                text_given(op, args, "space"@),
                text_given(op, args, "name"@),
            ) {
                (Err(e), _) => Err(e),
                (Ok(_), Err(e)) => Err(e),
                (Ok(space), Ok(name)) => if op == LifecycleOp::Remove {
                    Ok(answered(ValueView::Text(name), IntentView::Remove { space, name }))
                } else {
                    match carried(op, args, work) {
                        Err(e) => Err(e),
                        Ok(d) => Ok(
                            answered(
                                ValueView::Text(d.identity.definition@),
                                if op == LifecycleOp::Install {
                                    IntentView::Install {
                                        space,
                                        name,
                                        definition: d.definition@,
                                        package: d.identity@,
                                        occupant: Occupant::Refuse,
                                    }
                                } else {
                                    IntentView::Update {
                                        space,
                                        name,
                                        definition: d.definition@,
                                        package: d.identity@,
                                    }
                                },
                            ),
                        ),
                    }
                },
            },
            LifecycleOp::InstallModule => moved_in(args, work),
            LifecycleOp::Pack => packed(args, instances, work),
            LifecycleOp::UpdateModule => updated(args, instances, work),
            LifecycleOp::Rollback => rolled_back(args, instances, work),
        },
    }
}

/// The package a `blob` argument carries.
pub open spec fn carried(op: LifecycleOp, args: ArgsView, work: LifecycleWork) -> Result<
    Decoded,
    RejectionView,
> {
    match argument(args, "blob"@) {
        Some(ArgumentView::Value(ValueView::Blob(_))) => match bytes_held(work.blob) {
            Err(e) => Err(e),
            Ok(_) => package(work.decoded),
        },
        _ => Err(
            refused(
                RejectionReason::Malformed,
                "`module."@ + op_name(op) + "` requires a `blob` argument carrying the package"@,
            ),
        ),
    }
}

fn blob_bytes(blob: Result<Option<Vec<u8>>, String>) -> (r: Result<Vec<u8>, Rejection>)
    ensures
        match (r, bytes_held(blob)) {
            (Ok(b), Ok(x)) => b@ == x,
            (Err(e), Err(x)) => e@ == x,
            _ => false,
        },
{
    match blob {
        Err(e) => {
            let message = concat("blob store error: ", e.as_str());
            Err(Rejection::new(RejectionReason::Evaluation, message.as_str()))
        },
        Ok(None) => Err(
            Rejection::new(
                RejectionReason::Malformed,
                "the `.liasse` blob is not held by the store, so its bytes cannot be read",
            ),
        ),
        Ok(Some(bytes)) => Ok(bytes),
    }
}

fn decode_bytes(decoded: Result<Decoded, String>) -> (r: Result<Decoded, Rejection>)
    ensures
        match (r, package(decoded)) {
            (Ok(d), Ok(x)) => d == x,
            (Err(e), Err(x)) => e@ == x,
            _ => false,
        },
{
    match decoded {
        Ok(d) => Ok(d),
        Err(e) => {
            let message = concat("malformed module package blob: ", e.as_str());
            Err(Rejection::new(RejectionReason::Malformed, message.as_str()))
        },
    }
}

fn instance(instances: &Vec<MountedInstance>, space: &str, name: &str, operator: &str) -> (r: Result<usize, Rejection>)
    ensures
        match (r, addressed(instances@, space@, name@, operator@)) {
            (Ok(i), Ok(x)) => i == x && i < instances@.len(),
            (Err(e), Err(x)) => e@ == x,
            _ => false,
        },
{
    let mut i: usize = 0;
    while i < instances.len()
        invariant
            i <= instances@.len(),
            instance_from(instances@, space@, name@, 0) == instance_from(instances@, space@, name@, i as nat),
        decreases instances@.len() - i,
    {
        if same_text(instances[i].space.as_str(), space) && same_text(instances[i].name.as_str(), name)
            && instances[i].enabled {
            return Ok(i);
        }
        i = i + 1;
    }
    let tail = concat3("` in `", space, "`, which resolves to no enabled module instance in this transition");
    let message = concat5("`", operator, "` addresses `", name, tail.as_str());
    Err(Rejection::new(RejectionReason::Malformed, message.as_str()))
}

fn copy_point(p: &HistoryPoint) -> (r: HistoryPoint)
    ensures
        r@ == p@,
{
    HistoryPoint { lineage: p.lineage.clone(), point: p.point.clone() }
}

fn unsupported(e: EngineError) -> (r: Rejection)
    requires
        e is Unsupported,
    ensures
        r@ == refused(RejectionReason::Unsupported, e@->Unsupported_0),
{
    match e {
        EngineError::Unsupported(m) => Rejection::new(RejectionReason::Unsupported, m.as_str()),
        EngineError::Store(m) => Rejection::new(RejectionReason::Unsupported, m.as_str()),
        EngineError::Internal(m) => Rejection::new(RejectionReason::Unsupported, m.as_str()),
        EngineError::Invalid(m) => Rejection::new(RejectionReason::Unsupported, m.as_str()),
        EngineError::Requirement(m) => Rejection::new(RejectionReason::Unsupported, m.as_str()),
    }
}

/// Pack a module.
pub fn pack(args: &Vec<(String, Argument)>, instances: &Vec<MountedInstance>, work: LifecycleWork) -> (r: Result<
    Recorded,
    Rejection,
>)
    ensures
        recorded(r) == packed(args_view(args@), instances@, work),
{
    let o = ModuleOperand::read(args, "module", "pack")?;
    let asked = PackAxes::read(args);
    match o {
        ModuleOperand::Pending(d) => if asked.is_current() {
            Ok(Recorded { answer: Value::Blob(d), intent: None })
        } else {
            Err(
                Rejection::new(
                    RejectionReason::Unsupported,
                    "`pack` was given an axis coordinate over a module `unpack` has not yet materialized: it has no timeline, so it has no version, point or range other than the blob it carries. Install it first, then pack the instance.",
                ),
            )
        },
        ModuleOperand::Mounted(space, name) => {
            let i: usize = instance(instances, space.as_str(), name.as_str(), "pack")?;
            match asked.check(instances[i].version, &instances[i].point, work.instant.as_str()) {
                Err(e) => {
                    return Err(unsupported(e));
                },
                Ok(_) => {},
            }
            match work.exported {
                Err(e) => {
                    let message = concat("the instance could not be packed: ", e.as_str());
                    Err(Rejection::new(RejectionReason::Evaluation, message.as_str()))
                },
                Ok(bytes) => Ok(
                    Recorded { answer: Value::Blob(work.packed), intent: Some(LifecycleIntent::Pack { bytes }) },
                ),
            }
        },
    }
}

/// Move a module into a slot.
pub fn install_module(args: &Vec<(String, Argument)>, work: LifecycleWork) -> (r: Result<Recorded, Rejection>)
    ensures
        recorded(r) == moved_in(args_view(args@), work),
{
    let space = text_arg(LifecycleOp::InstallModule, args, "space")?;
    let name = text_arg(LifecycleOp::InstallModule, args, "name")?;
    match ModuleOperand::read(args, "module", "install_module")? {
        ModuleOperand::Pending(_) => {
            let _bytes = blob_bytes(work.blob)?;
            let d = decode_bytes(work.decoded)?;
            Ok(
                Recorded {
                    answer: Value::Text(d.identity.definition.clone()),
                    intent: Some(
                        LifecycleIntent::Install {
                            space,
                            name,
                            definition: d.definition,
                            package: d.identity,
                            occupant: Occupant::Drop,
                        },
                    ),
                },
            )
        },
        ModuleOperand::Mounted(from, source) => {
            if !same_text(from.as_str(), space.as_str()) {
                let tail = concat3(
                    "` into `",
                    space.as_str(),
                    "`, but a module space is a boundary, not a folder: the destination declares its own parent surfaces, peer set and interface contracts, and this instance was loaded under the source space's and re-admitted against none of them. Refused rather than re-keyed into a space whose boundary it was never checked against — pack it (`pack(m)`) and install the artifact into the destination instead. Relocation WITHIN one space is supported.",
                );
                let message = concat5(
                    "`install_module` would relocate `",
                    source.as_str(),
                    "` from `",
                    from.as_str(),
                    tail.as_str(),
                );
                return Err(Rejection::new(RejectionReason::Unsupported, message.as_str()));
            }
            let answer = Value::Text(name.clone());
            if same_text(source.as_str(), name.as_str()) {
                Ok(Recorded { answer, intent: None })
            } else {
                Ok(
                    Recorded {
                        answer,
                        intent: Some(
                            LifecycleIntent::Relocate { space, from: source, to: name, occupant: Occupant::Drop },
                        ),
                    },
                )
            }
        },
    }
}

/// Read what an update is asked to carry over.
pub fn migrate_axis(args: &Vec<(String, Argument)>) -> (r: Result<MigrateAxis, Rejection>)
    ensures
        match (r, migrate_asked(args_view(args@))) {
            (Ok(a), Ok(x)) => a == x,
            (Err(e), Err(x)) => e@ == x,
            _ => false,
        },
{
    match find_argument(args, "migrate") {
        None | Some(Argument::Value(Value::Absent)) => Ok(MigrateAxis::Model),
        Some(Argument::Value(Value::Text(t))) => if same_text(t.as_str(), "model") {
            Ok(MigrateAxis::Model)
        } else if same_text(t.as_str(), "model+data") {
            Ok(MigrateAxis::ModelAndData)
        } else {
            let message = concat3(
                "`update_module`'s `migrate` axis is one of model or model+data, not `",
                t.as_str(),
                "`",
            );
            Err(Rejection::new(RejectionReason::Malformed, message.as_str()))
        },
        Some(_) => Err(
            Rejection::new(
                RejectionReason::Malformed,
                "`update_module`'s `migrate` axis is one of model or model+data",
            ),
        ),
    }
}

fn relate(
    relation: Result<ImportRelation, String>,
    incoming: Result<HistoryPoint, String>,
    operator: &str,
    what: &str,
) -> (r: Result<(ImportRelation, HistoryPoint), Rejection>)
    ensures
        match (r, related(relation, incoming, operator@, what@)) {
            (Ok((a, p)), Ok((x, y))) => a == x && p@ == y,
            (Err(e), Err(x)) => e@ == x,
            _ => false,
        },
{
    match relation {
        Err(e) => {
            let tail = concat(" failed verification: ", e.as_str());
            let message = concat5("`", operator, "`'s ", what, tail.as_str());
            Err(Rejection::new(RejectionReason::Malformed, message.as_str()))
        },
        Ok(relation) => match incoming {
            Err(e) => {
                let message = concat4("`", operator, "`'s artifact failed verification: ", e.as_str());
                Err(Rejection::new(RejectionReason::Malformed, message.as_str()))
            },
            Ok(p) => Ok((relation, p)),
        },
    }
}

fn artifact_of(
    o: &ModuleOperand,
    instances: &Vec<MountedInstance>,
    blob: Result<Option<Vec<u8>>, String>,
    exported: Result<Vec<u8>, String>,
    operator: &str,
) -> (r: Result<Vec<u8>, Rejection>)
    ensures
        match (r, artifact(o@, instances@, blob, exported, operator@)) {
            (Ok(b), Ok(x)) => b@ == x,
            (Err(e), Err(x)) => e@ == x,
            _ => false,
        },
{
    match o {
        ModuleOperand::Pending(_) => blob_bytes(blob),
        ModuleOperand::Mounted(space, name) => {
            let _i: usize = instance(instances, space.as_str(), name.as_str(), operator)?;
            match exported {
                Err(e) => {
                    let message = concat("the instance could not be exported: ", e.as_str());
                    Err(Rejection::new(RejectionReason::Evaluation, message.as_str()))
                },
                Ok(bytes) => Ok(bytes),
            }
        },
    }
}

/// Update a mounted module.
pub fn update_module(args: &Vec<(String, Argument)>, instances: &Vec<MountedInstance>, work: LifecycleWork) -> (r: Result<
    Recorded,
    Rejection,
>)
    ensures
        recorded(r) == updated(args_view(args@), instances@, work),
{
    let operator = "update_module";
    let target = ModuleOperand::read(args, "module", operator)?;
    let (space, name) = target.mount(operator)?;
    let onto = ModuleOperand::read(args, "onto", operator)?;
    let axis = migrate_axis(args)?;
    let bytes = artifact_of(&onto, instances, work.blob, work.exported, operator)?;
    match axis {
        MigrateAxis::Model => {
            let d = decode_bytes(work.decoded)?;
            Ok(
                Recorded {
                    answer: Value::Text(d.identity.definition.clone()),
                    intent: Some(
                        LifecycleIntent::Update {
                            space: space.clone(),
                            name: name.clone(),
                            definition: d.definition,
                            package: d.identity,
                        },
                    ),
                },
            )
        },
        MigrateAxis::ModelAndData => {
            let i: usize = instance(instances, space.as_str(), name.as_str(), operator)?;
            let (relation, incoming) = relate(work.relation, work.incoming, operator, "incoming module")?;
            if !AncestryDivergence::is_fast_forward(relation) {
                let divergence = AncestryDivergence {
                    relation,
                    at: concat3(space.as_str(), "/", name.as_str()),
                    local: copy_point(&instances[i].point),
                    incoming,
                };
                return Err(divergence.into_rejection());
            }
            let answer = Value::Text(incoming.point);
            if relation == ImportRelation::FastForward {
                Ok(
                    Recorded {
                        answer,
                        intent: Some(
                            LifecycleIntent::Movement {
                                space: space.clone(),
                                name: name.clone(),
                                artifact: bytes,
                                relation,
                            },
                        ),
                    },
                )
            } else {
                Ok(Recorded { answer, intent: None })
            }
        },
    }
}

/// Roll a mounted module back.
pub fn rollback_module(args: &Vec<(String, Argument)>, instances: &Vec<MountedInstance>, work: LifecycleWork) -> (r: Result<
    Recorded,
    Rejection,
>)
    ensures
        recorded(r) == rolled_back(args_view(args@), instances@, work),
{
    let operator = "rollback_module";
    let target = ModuleOperand::read(args, "module", operator)?;
    let (space, name) = target.mount(operator)?;
    let i: usize = instance(instances, space.as_str(), name.as_str(), operator)?;
    match RollbackPoint::read(args)? {
        RollbackPoint::Instant(_) => {
            return Err(
                unsupported(RollbackPoint::unsupported_instant(work.instant.as_str(), &instances[i].point)),
            );
        },
        RollbackPoint::Artifact(_) => {},
    }
    let bytes = blob_bytes(work.blob)?;
    let (relation, incoming) = relate(work.relation, work.incoming, operator, "point artifact")?;
    match relation {
        ImportRelation::SamePoint => Ok(Recorded { answer: Value::Text(incoming.point), intent: None }),
        ImportRelation::Rollback => Ok(
            Recorded {
                answer: Value::Text(incoming.point),
                intent: Some(
                    LifecycleIntent::Movement {
                        space: space.clone(),
                        name: name.clone(),
                        artifact: bytes,
                        relation,
                    },
                ),
            },
        ),
        other => {
            let asked = path_of(&incoming);
            let live = path_of(&instances[i].point);
            let tail = concat3(
                "` (classified ",
                relation_text(other),
                "). Refused rather than moving the instance somewhere it was never asked to go.",
            );
            let message = concat5(
                "`rollback_module` forks BACK to a retained point, but the given artifact's point `",
                asked.as_str(),
                "` does not precede the instance's live point `",
                live.as_str(),
                tail.as_str(),
            );
            Err(Rejection::new(RejectionReason::Unsupported, message.as_str()))
        },
    }
}

fn decode(op: LifecycleOp, args: &Vec<(String, Argument)>, work: LifecycleWork) -> (r: Result<Decoded, Rejection>)
    ensures
        match (r, carried(op, args_view(args@), work)) {
            (Ok(d), Ok(x)) => d == x,
            (Err(e), Err(x)) => e@ == x,
            _ => false,
        },
{
    match find_argument(args, "blob") {
        Some(Argument::Value(Value::Blob(_))) => {
            let _bytes = blob_bytes(work.blob)?;
            decode_bytes(work.decoded)
        },
        _ => {
            let message = concat3("`module.", op.member(), "` requires a `blob` argument carrying the package");
            Err(Rejection::new(RejectionReason::Malformed, message.as_str()))
        },
    }
}

/// Record a lifecycle operation.
pub fn perform(op: LifecycleOp, args: &Vec<(String, Argument)>, instances: &Vec<MountedInstance>, work: LifecycleWork) -> (r: Result<
    Recorded,
    Rejection,
>)
    ensures
        recorded(r) == performed(op, args_view(args@), instances@, work),
{
    reject_unsupported_args(op, args)?;
    match op {
        LifecycleOp::InstallModule => {
            return install_module(args, work);
        },
        LifecycleOp::Pack => {
            return pack(args, instances, work);
        },
        LifecycleOp::UpdateModule => {
            return update_module(args, instances, work);
        },
        LifecycleOp::Rollback => {
            return rollback_module(args, instances, work);
        },
        _ => {},
    }
    let space = text_arg(op, args, "space")?;
    let name = text_arg(op, args, "name")?;
    if op == LifecycleOp::Remove {
        return Ok(
            Recorded {
                answer: Value::Text(name.clone()),
                intent: Some(LifecycleIntent::Remove { space, name }),
            },
        );
    }
    let d = decode(op, args, work)?;
    let answer = Value::Text(d.identity.definition.clone());
    let intent = if op == LifecycleOp::Install {
        LifecycleIntent::Install {
            space,
            name,
            definition: d.definition,
            package: d.identity,
            occupant: Occupant::Refuse,
        }
    } else {
        LifecycleIntent::Update { space, name, definition: d.definition, package: d.identity }
    };
    Ok(Recorded { answer, intent: Some(intent) })
}

/// An operation that moves a mounted module along a history moves it only forward,
/// for an update, or only back, for a rollback.
pub proof fn law_movement(
    op: LifecycleOp,
    args: ArgsView,
    instances: Seq<MountedInstance>,
    work: LifecycleWork,
)
    ensures
        match performed(op, args, instances, work) {
            Ok(r) => match r.intent {
                Some(IntentView::Movement { relation, .. }) => {
                    ||| op == LifecycleOp::UpdateModule && relation == ImportRelation::FastForward
                    ||| op == LifecycleOp::Rollback && relation == ImportRelation::Rollback
                },
                _ => true,
            },
            Err(_) => true,
        },
{
}

/// Packing a module that is not mounted gives back the blob it came from.
pub proof fn law_pack_pending(
    args: ArgsView,
    instances: Seq<MountedInstance>,
    work: LifecycleWork,
    descriptor: Seq<char>,
)
    requires
        operand(args, "module"@, "pack"@) == Ok::<OperandView, RejectionView>(OperandView::Pending(descriptor)),
        axes(args) == (AxesView { model: None, data: None, history: false }),
        args_taken(LifecycleOp::Pack, args) is Ok,
    ensures
        performed(LifecycleOp::Pack, args, instances, work) == Ok::<RecordedView, RejectionView>(
            RecordedView { answer: ValueView::Blob(descriptor), intent: None },
        ),
{
}

} // verus!
