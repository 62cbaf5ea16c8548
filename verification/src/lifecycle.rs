//! Operations that carry a module through its life: what each is given, what it is
//! refused for, and what it records to be done once the transition commits.

use crate::history::ImportRelation;
use crate::lineage::{HistoryPoint, PointView};
use crate::rejection::{refused, Rejection, RejectionReason, RejectionView};
use crate::space::{is_space, ModuleSpace};
use crate::text::{
    before_suffix, concat, concat3, concat5, holds_text, join, join_texts, same_text, split, split_text, strip_suffix,
    texts,
};
use crate::time::Timestamp;
use crate::update::{EngineError, EngineErrorView};
use crate::value::{Value, ValueView};
use crate::version::{version_text, Version};
use vstd::prelude::*;

verus! {

/// An operation on a module.
#[derive(Debug, Clone, Copy, PartialEq, Eq, Structural)]
pub enum LifecycleOp {
    Install,
    Update,
    Remove,
    InstallModule,
    Pack,
    UpdateModule,
    Rollback,
}

/// The name of an operation.
pub open spec fn op_name(op: LifecycleOp) -> Seq<char> {
    match op {
        LifecycleOp::Install => "install"@,
        LifecycleOp::Update => "update"@,
        LifecycleOp::Remove => "remove"@,
        LifecycleOp::InstallModule => "install_module"@,
        LifecycleOp::Pack => "pack"@,
        LifecycleOp::UpdateModule => "update_module"@,
        LifecycleOp::Rollback => "rollback_module"@,
    }
}

/// The arguments an operation takes.
pub open spec fn taken(op: LifecycleOp) -> Seq<Seq<char>> {
    match op {
        LifecycleOp::Install | LifecycleOp::Update => seq!["space"@, "name"@, "blob"@],
        LifecycleOp::Remove => seq!["space"@, "name"@],
        LifecycleOp::InstallModule => seq!["space"@, "name"@, "module"@],
        LifecycleOp::Pack => seq!["module"@, "model"@, "data"@, "history"@],
        LifecycleOp::UpdateModule => seq!["module"@, "onto"@, "migrate"@],
        LifecycleOp::Rollback => seq!["module"@, "point"@],
    }
}

impl LifecycleOp {
    /// The name of the operation.
    pub fn member(self) -> (r: &'static str)
        ensures
            r@ == op_name(self),
    {
        match self {
            LifecycleOp::Install => "install",
            LifecycleOp::Update => "update",
            LifecycleOp::Remove => "remove",
            LifecycleOp::InstallModule => "install_module",
            LifecycleOp::Pack => "pack",
            LifecycleOp::UpdateModule => "update_module",
            LifecycleOp::Rollback => "rollback_module",
        }
    }

    /// The arguments the operation takes.
    pub fn supported_args(self) -> (r: Vec<String>)
        ensures
            texts(r@) == taken(self),
    {
        let mut r: Vec<String> = Vec::new();
        match self {
            LifecycleOp::Install | LifecycleOp::Update => {
                r.push(String::from_str("space"));
                r.push(String::from_str("name"));
                r.push(String::from_str("blob"));
            },
            LifecycleOp::Remove => {
                r.push(String::from_str("space"));
                r.push(String::from_str("name"));
            },
            LifecycleOp::InstallModule => {
                r.push(String::from_str("space"));
                r.push(String::from_str("name"));
                r.push(String::from_str("module"));
            },
            LifecycleOp::Pack => {
                r.push(String::from_str("module"));
                r.push(String::from_str("model"));
                r.push(String::from_str("data"));
                r.push(String::from_str("history"));
            },
            LifecycleOp::UpdateModule => {
                r.push(String::from_str("module"));
                r.push(String::from_str("onto"));
                r.push(String::from_str("migrate"));
            },
            LifecycleOp::Rollback => {
                r.push(String::from_str("module"));
                r.push(String::from_str("point"));
            },
        }
        proof {
            assert(texts(r@) =~= taken(self));
        }
        r
    }
}

/// The value of an argument.
#[derive(Debug)]
pub enum Argument {
    Value(Value),
    /// A span of time.
    Period(Option<Timestamp>, Option<Timestamp>),
}

/// What an [`Argument`] denotes.
#[verifier::ext_equal]
pub enum ArgumentView {
    Value(ValueView),
    Period(Option<Timestamp>, Option<Timestamp>),
}

impl View for Argument {
    type V = ArgumentView;

    open spec fn view(&self) -> ArgumentView {
        match self {
            Argument::Value(v) => ArgumentView::Value(v@),
            Argument::Period(from, until) => ArgumentView::Period(*from, *until),
        }
    }
}

/// What named arguments denote.
pub type ArgsView = Seq<(Seq<char>, ArgumentView)>;

/// What named arguments denote.
pub open spec fn args_view(args: Seq<(String, Argument)>) -> ArgsView {
    Seq::new(args.len(), |i: int| (args[i].0@, args[i].1@))
}

/// The first argument of this name.
pub open spec fn argument(args: ArgsView, name: Seq<char>) -> Option<ArgumentView>
    decreases args.len(),
{
    if args.len() == 0 {
        None
    } else if args[0].0 == name {
        Some(args[0].1)
    } else {
        argument(args.drop_first(), name)
    }
}

/// The first argument an operation does not take.
pub open spec fn first_untaken(args: ArgsView, names: Seq<Seq<char>>) -> Option<Seq<char>>
    decreases args.len(),
{
    if args.len() == 0 {
        None
    } else if !names.contains(args[0].0) {
        Some(args[0].0)
    } else {
        first_untaken(args.drop_first(), names)
    }
}

/// Whether an operation takes every argument it is given.
pub open spec fn args_taken(op: LifecycleOp, args: ArgsView) -> Result<(), RejectionView> {
    match first_untaken(args, taken(op)) {
        None => Ok(()),
        Some(key) => Err(
            refused(
                RejectionReason::Malformed,
                "`"@ + op_name(op) + "` does not support the `"@ + key + ("` argument; supported members are "@ + join(
                    taken(op),
                    ", "@,
                ) + " — refusing rather than silently ignoring it"@),
            ),
        ),
    }
}

/// The text an argument must be.
pub open spec fn text_given(op: LifecycleOp, args: ArgsView, key: Seq<char>) -> Result<
    Seq<char>,
    RejectionView,
> {
    match argument(args, key) {
        Some(ArgumentView::Value(ValueView::Text(t))) => Ok(t),
        _ => Err(
            refused(
                RejectionReason::Malformed,
                "`module."@ + op_name(op) + "` requires a text `"@ + key + "` argument"@,
            ),
        ),
    }
}

pub(crate) fn find_argument<'a>(args: &'a Vec<(String, Argument)>, name: &str) -> (r: Option<&'a Argument>)
    ensures
        match r {
            Some(a) => argument(args_view(args@), name@) == Some(a@),
            None => argument(args_view(args@), name@) is None,
        },
{
    let ghost all = args_view(args@);
    let mut i: usize = 0;
    proof {
        assert(all.skip(0) =~= all);
    }
    while i < args.len()
        invariant
            all == args_view(args@),
            i <= args@.len(),
            argument(all, name@) == argument(all.skip(i as int), name@),
        decreases args@.len() - i,
    {
        if same_text(args[i].0.as_str(), name) {
            return Some(&args[i].1);
        }
        proof {
            assert(all.skip(i as int).drop_first() =~= all.skip(i + 1));
        }
        i = i + 1;
    }
    None
}

/// Refuse an argument an operation does not take.
pub fn reject_unsupported_args(op: LifecycleOp, args: &Vec<(String, Argument)>) -> (r: Result<(), Rejection>)
    ensures
        match (r, args_taken(op, args_view(args@))) {
            (Ok(_), Ok(_)) => true,
            (Err(e), Err(x)) => e@ == x,
            _ => false,
        },
{
    let supported = op.supported_args();
    let ghost all = args_view(args@);
    let mut i: usize = 0;
    proof {
        assert(all.skip(0) =~= all);
    }
    while i < args.len()
        invariant
            texts(supported@) == taken(op),
            all == args_view(args@),
            i <= args@.len(),
            first_untaken(all, taken(op)) == first_untaken(all.skip(i as int), taken(op)),
        decreases args@.len() - i,
    {
        if !holds_text(&supported, args[i].0.as_str()) {
            let listed = join_texts(&supported, ", ");
            let tail = concat3(
                "` argument; supported members are ",
                listed.as_str(),
                " — refusing rather than silently ignoring it",
            );
            let message = concat5("`", op.member(), "` does not support the `", args[i].0.as_str(), tail.as_str());
            return Err(Rejection::new(RejectionReason::Malformed, message.as_str()));
        }
        proof {
            assert(all.skip(i as int).drop_first() =~= all.skip(i + 1));
        }
        i = i + 1;
    }
    Ok(())
}

pub(crate) fn text_arg(op: LifecycleOp, args: &Vec<(String, Argument)>, key: &str) -> (r: Result<String, Rejection>)
    ensures
        match (r, text_given(op, args_view(args@), key@)) {
            (Ok(t), Ok(x)) => t@ == x,
            (Err(e), Err(x)) => e@ == x,
            _ => false,
        },
{
    match find_argument(args, key) {
        Some(Argument::Value(Value::Text(t))) => Ok(t.clone()),
        _ => {
            let message = concat5("`module.", op.member(), "` requires a text `", key, "` argument");
            Err(Rejection::new(RejectionReason::Malformed, message.as_str()))
        },
    }
}

/// What a module argument denotes: one not mounted yet, by its blob, or a mounted one,
/// by its space and name.
#[derive(Debug)]
pub enum ModuleOperand {
    Pending(String),
    Mounted(String, String),
}

/// What a [`ModuleOperand`] denotes.
#[verifier::ext_equal]
pub enum OperandView {
    Pending(Seq<char>),
    Mounted(Seq<char>, Seq<char>),
}

impl View for ModuleOperand {
    type V = OperandView;

    open spec fn view(&self) -> OperandView {
        match self {
            ModuleOperand::Pending(d) => OperandView::Pending(d@),
            ModuleOperand::Mounted(s, n) => OperandView::Mounted(s@, n@),
        }
    }
}

/// The space and name a mount path leads to.
pub open spec fn mount_of(at: Seq<char>) -> Option<(Seq<char>, Seq<char>)> {
    let name = split(at, '/').last();
    match before_suffix(at, "/"@ + name) {
        Some(space) if is_space(space) => Some((space, name)),
        _ => None,
    }
}

/// The module an argument denotes.
pub open spec fn operand(args: ArgsView, key: Seq<char>, operator: Seq<char>) -> Result<
    OperandView,
    RejectionView,
> {
    let none = Err(
        refused(
            RejectionReason::Malformed,
            "`"@ + operator + "` requires a `module` value as its `"@ + key + "` operand"@,
        ),
    );
    match argument(args, key) {
        Some(ArgumentView::Value(ValueView::Pending(d))) => Ok(OperandView::Pending(d)),
        Some(ArgumentView::Value(ValueView::Mounted(at))) => match mount_of(at) {
            Some((space, name)) => Ok(OperandView::Mounted(space, name)),
            None => none,
        },
        _ => none,
    }
}

/// The refusal of an operation on a module that is not mounted.
pub open spec fn not_mounted(operator: Seq<char>) -> RejectionView {
    refused(
        RejectionReason::Malformed,
        "`"@ + operator
            + "` acts on an installed instance, but its operand is a module that `unpack` has not yet materialized: it has no instance identity, no mount and no retained history. Install it first (`<-`), then "@
            + operator + " it."@,
    )
}

fn parse_mount(at: &str) -> (r: Option<(String, String)>)
    ensures
        match r {
            Some((space, name)) => mount_of(at@) == Some((space@, name@)),
            None => mount_of(at@) is None,
        },
{
    let mut parts = split_text(at, '/');
    proof {
        assert(split(at@, '/').last() == parts@[parts@.len() - 1]@);
    }
    let name = parts[parts.len() - 1].clone();
    let tail = concat("/", name.as_str());
    match strip_suffix(at, tail.as_str()) {
        Some(space) => if ModuleSpace::new(space.as_str()).is_ok() {
            Some((space, name))
        } else {
            None
        },
        None => None,
    }
}

impl ModuleOperand {
    /// Read the module an argument denotes.
    pub fn read(args: &Vec<(String, Argument)>, key: &str, operator: &str) -> (r: Result<ModuleOperand, Rejection>)
        ensures
            match (r, operand(args_view(args@), key@, operator@)) {
                (Ok(o), Ok(x)) => o@ == x,
                (Err(e), Err(x)) => e@ == x,
                _ => false,
            },
    {
        match find_argument(args, key) {
            Some(Argument::Value(Value::Pending(d))) => {
                return Ok(ModuleOperand::Pending(d.clone()));
            },
            Some(Argument::Value(Value::Mounted(at))) => {
                if let Some((space, name)) = parse_mount(at.as_str()) {
                    return Ok(ModuleOperand::Mounted(space, name));
                }
            },
            _ => {},
        }
        let message = concat5("`", operator, "` requires a `module` value as its `", key, "` operand");
        Err(Rejection::new(RejectionReason::Malformed, message.as_str()))
    }

    /// The space and name of a mounted module; a module that is not mounted is refused.
    pub fn mount(&self, operator: &str) -> (r: Result<(&String, &String), Rejection>)
        ensures
            match (r, self@) {
                (Ok((s, n)), OperandView::Mounted(x, y)) => s@ == x && n@ == y,
                (Err(e), OperandView::Pending(_)) => e@ == not_mounted(operator@),
                _ => false,
            },
    {
        match self {
            ModuleOperand::Mounted(space, name) => Ok((space, name)),
            ModuleOperand::Pending(_) => {
                let message = concat5(
                    "`",
                    operator,
                    "` acts on an installed instance, but its operand is a module that `unpack` has not yet materialized: it has no instance identity, no mount and no retained history. Install it first (`<-`), then ",
                    operator,
                    " it.",
                );
                Err(Rejection::new(RejectionReason::Malformed, message.as_str()))
            },
        }
    }
}

/// The coordinates a `pack` asks for: a package version, an instant, and whether a
/// span of history.
#[derive(Debug)]
pub struct PackAxes {
    pub model: Option<String>,
    pub data: Option<Timestamp>,
    pub history: bool,
}

/// What [`PackAxes`] denote.
#[verifier::ext_equal]
pub struct AxesView {
    pub model: Option<Seq<char>>,
    pub data: Option<Timestamp>,
    pub history: bool,
}

impl View for PackAxes {
    type V = AxesView;

    open spec fn view(&self) -> AxesView {
        AxesView {
            model: match self.model {
                Some(m) => Some(m@),
                None => None,
            },
            data: self.data,
            history: self.history,
        }
    }
}

/// The coordinates arguments ask for.
pub open spec fn axes(args: ArgsView) -> AxesView {
    AxesView {
        model: match argument(args, "model"@) {
            Some(ArgumentView::Value(ValueView::Text(t))) => Some(t),
            _ => None,
        },
        data: match argument(args, "data"@) {
            Some(ArgumentView::Value(ValueView::Timestamp(at))) => Some(at),
            _ => None,
        },
        history: match argument(args, "history"@) {
            Some(ArgumentView::Period(_, _)) => true,
            _ => false,
        },
    }
}

/// Whether an instance retains what is asked for: its active version, its selected
/// point, and nothing else. `instant` is how the asked instant is written.
pub open spec fn retained(a: AxesView, active: Version, selected: PointView, instant: Seq<char>) -> Result<
    (),
    EngineErrorView,
> {
    if a.model is Some && a.model->0 != version_text(active) {
        Err(
            EngineErrorView::Unsupported(
                "`pack`'s `model` axis asks for package version `"@ + a.model->0
                    + "`, but the instance retains only its ACTIVE definition (`"@ + version_text(active)
                    + "`) — the commit log records no per-point definition, so an earlier version's model cannot be reconstructed. Refused rather than emitting the active definition under a version label it does not carry."@,
            ),
        )
    } else if a.data is Some {
        Err(
            EngineErrorView::Unsupported(
                "`pack`'s `data` axis asks for the state at `"@ + instant
                    + "`, but a CORE export carries exactly the SELECTED point `"@ + selected.point
                    + "` (its coverage states the single-point range `[selected, selected]` and its history index carries empty segment ranges). A historical extract has to be time-anchored — the state at `@t` paired with the model version in effect at `@t` — and that pairing is not retained. Refused, and deliberately NOT snapped to the nearest retained point."@,
            ),
        )
    } else if a.history {
        Err(
            EngineErrorView::Unsupported(
                "`pack`'s `history` axis asks for a span of retained history, but a CORE export carries no reversible-compaction segments — its history index states empty ranges, so the only span it can honestly claim is the selected point itself. Refused rather than emitting an artifact whose coverage claims a span it does not hold."@,
            ),
        )
    } else {
        Ok(())
    }
}

impl PackAxes {
    /// Read the coordinates arguments ask for.
    pub fn read(args: &Vec<(String, Argument)>) -> (r: PackAxes)
        ensures
            r@ == axes(args_view(args@)),
    {
        let model = match find_argument(args, "model") {
            Some(Argument::Value(Value::Text(t))) => Some(t.clone()),
            _ => None,
        };
        let data = match find_argument(args, "data") {
            Some(Argument::Value(Value::Timestamp(at))) => Some(*at),
            _ => None,
        };
        let history = match find_argument(args, "history") {
            Some(Argument::Period(_, _)) => true,
            _ => false,
        };
        PackAxes { model, data, history }
    }

    /// Whether nothing but the current value is asked for.
    pub fn is_current(&self) -> (r: bool)
        ensures
            r == (self@ == (AxesView { model: None, data: None, history: false })),
    {
        self.model.is_none() && self.data.is_none() && !self.history
    }

    /// Refuse what an instance does not retain.
    pub fn check(&self, active: Version, selected: &HistoryPoint, instant: &str) -> (r: Result<(), EngineError>)
        ensures
            match (r, retained(self@, active, selected@, instant@)) {
                (Ok(_), Ok(_)) => true,
                (Err(e), Err(x)) => e@ == x,
                _ => false,
            },
    {
        if let Some(model) = &self.model {
            let text = active.text();
            if !same_text(model.as_str(), text.as_str()) {
                return Err(
                    EngineError::Unsupported(
                        concat5(
                            "`pack`'s `model` axis asks for package version `",
                            model.as_str(),
                            "`, but the instance retains only its ACTIVE definition (`",
                            text.as_str(),
                            "`) — the commit log records no per-point definition, so an earlier version's model cannot be reconstructed. Refused rather than emitting the active definition under a version label it does not carry.",
                        ),
                    ),
                );
            }
        }
        if self.data.is_some() {
            return Err(
                EngineError::Unsupported(
                    concat5(
                        "`pack`'s `data` axis asks for the state at `",
                        instant,
                        "`, but a CORE export carries exactly the SELECTED point `",
                        selected.point.as_str(),
                        "` (its coverage states the single-point range `[selected, selected]` and its history index carries empty segment ranges). A historical extract has to be time-anchored — the state at `@t` paired with the model version in effect at `@t` — and that pairing is not retained. Refused, and deliberately NOT snapped to the nearest retained point.",
                    ),
                ),
            );
        }
        if self.history {
            return Err(
                EngineError::Unsupported(
                    String::from_str(
                        "`pack`'s `history` axis asks for a span of retained history, but a CORE export carries no reversible-compaction segments — its history index states empty ranges, so the only span it can honestly claim is the selected point itself. Refused rather than emitting an artifact whose coverage claims a span it does not hold.",
                    ),
                ),
            );
        }
        Ok(())
    }
}

/// The point a rollback asks for: the artifact that carries it, or a bare instant.
#[derive(Debug)]
pub enum RollbackPoint {
    Artifact(String),
    Instant(Timestamp),
}

/// The point arguments ask for.
pub open spec fn rollback_asked(args: ArgsView) -> Result<RollbackView, RejectionView> {
    match argument(args, "point"@) {
        Some(ArgumentView::Value(ValueView::Blob(d))) => Ok(RollbackView::Artifact(d)),
        Some(ArgumentView::Value(ValueView::Timestamp(at))) => Ok(RollbackView::Instant(at)),
        _ => Err(
            refused(
                RejectionReason::Malformed,
                "`rollback_module` addresses a retained point by `timestamp` or by the `blob` artifact carrying it"@,
            ),
        ),
    }
}

/// What a [`RollbackPoint`] denotes.
#[verifier::ext_equal]
pub enum RollbackView {
    Artifact(Seq<char>),
    Instant(Timestamp),
}

impl View for RollbackPoint {
    type V = RollbackView;

    open spec fn view(&self) -> RollbackView {
        match self {
            RollbackPoint::Artifact(d) => RollbackView::Artifact(d@),
            RollbackPoint::Instant(at) => RollbackView::Instant(*at),
        }
    }
}

/// The refusal of a rollback to a bare instant.
pub open spec fn instant_unsupported(instant: Seq<char>, selected: PointView) -> Seq<char> {
    "`rollback_module` asks to fork back to the instant `"@ + instant
        + "`, but the instance retains only its selected point `"@ + selected.point
        + "`: an earlier point's DEFINITION is not retained (the commit log records no per-point definition), so its model and state cannot be paired. Refused, and deliberately NOT snapped to the nearest retained point — address the point by the `.liasse` artifact `pack` produced at it, which carries both halves."@
}

impl RollbackPoint {
    /// Read the point arguments ask for.
    pub fn read(args: &Vec<(String, Argument)>) -> (r: Result<RollbackPoint, Rejection>)
        ensures
            match (r, rollback_asked(args_view(args@))) {
                (Ok(p), Ok(x)) => p@ == x,
                (Err(e), Err(x)) => e@ == x,
                _ => false,
            },
    {
        match find_argument(args, "point") {
            Some(Argument::Value(Value::Blob(d))) => Ok(RollbackPoint::Artifact(d.clone())),
            Some(Argument::Value(Value::Timestamp(at))) => Ok(RollbackPoint::Instant(*at)),
            _ => Err(
                Rejection::new(
                    RejectionReason::Malformed,
                    "`rollback_module` addresses a retained point by `timestamp` or by the `blob` artifact carrying it",
                ),
            ),
        }
    }

    /// The refusal of a rollback to a bare instant, as `instant` writes it.
    pub fn unsupported_instant(instant: &str, selected: &HistoryPoint) -> (r: EngineError)
        ensures
            r@ == EngineErrorView::Unsupported(instant_unsupported(instant@, selected@)),
    {
        EngineError::Unsupported(
            concat5(
                "`rollback_module` asks to fork back to the instant `",
                instant,
                "`, but the instance retains only its selected point `",
                selected.point.as_str(),
                "`: an earlier point's DEFINITION is not retained (the commit log records no per-point definition), so its model and state cannot be paired. Refused, and deliberately NOT snapped to the nearest retained point — address the point by the `.liasse` artifact `pack` produced at it, which carries both halves.",
            ),
        )
    }
}

/// The name of a relation.
pub open spec fn relation_name(relation: ImportRelation) -> Seq<char> {
    match relation {
        ImportRelation::SamePoint => "SamePoint"@,
        ImportRelation::FastForward => "FastForward"@,
        ImportRelation::Rollback => "Rollback"@,
        ImportRelation::Merge => "Merge"@,
        ImportRelation::Unrelated => "Unrelated"@,
    }
}

pub(crate) fn relation_text(relation: ImportRelation) -> (r: &'static str)
    ensures
        r@ == relation_name(relation),
{
    match relation {
        ImportRelation::SamePoint => "SamePoint",
        ImportRelation::FastForward => "FastForward",
        ImportRelation::Rollback => "Rollback",
        ImportRelation::Merge => "Merge",
        ImportRelation::Unrelated => "Unrelated",
    }
}

/// Whether an update may apply an incoming history by itself.
pub open spec fn moves_forward(relation: ImportRelation) -> bool {
    relation == ImportRelation::FastForward || relation == ImportRelation::SamePoint
}

/// An update whose incoming history does not move the instance forward.
#[derive(Debug)]
pub struct AncestryDivergence {
    pub relation: ImportRelation,
    pub at: String,
    pub local: HistoryPoint,
    pub incoming: HistoryPoint,
}

/// What an [`AncestryDivergence`] denotes.
#[verifier::ext_equal]
pub struct DivergenceView {
    pub relation: ImportRelation,
    pub at: Seq<char>,
    pub local: PointView,
    pub incoming: PointView,
}

impl View for AncestryDivergence {
    type V = DivergenceView;

    open spec fn view(&self) -> DivergenceView {
        DivergenceView { relation: self.relation, at: self.at@, local: self.local@, incoming: self.incoming@ }
    }
}

/// Why histories could not be reconciled.
pub open spec fn divergence_cause(relation: ImportRelation) -> Seq<char> {
    match relation {
        ImportRelation::Merge =>
            "the two histories share an ancestor and then DIVERGED, so neither state supersedes the other"@,
        ImportRelation::Rollback =>
            "the incoming history PRECEDES the live one, so applying it would silently discard committed state"@,
        ImportRelation::Unrelated =>
            "the incoming history shares NO point with the live one (a different instance, or a lineage this instance's ancestry does not know)"@,
        _ => "the histories are reconcilable and this is not a divergence"@,
    }
}

/// A point as a path.
pub open spec fn point_path(p: PointView) -> Seq<char> {
    p.lineage + "/"@ + p.point
}

/// A divergence in words.
pub open spec fn divergence_text(d: DivergenceView) -> Seq<char> {
    "`update_module(… { migrate: model+data })` on `"@ + d.at + "` is refused: "@ + divergence_cause(d.relation) + (
    " (relation "@ + relation_name(d.relation) + "; live point `"@ + point_path(d.local) + ("`, incoming point `"@
        + point_path(d.incoming)
        + "`). A divergent history is reconciled OUTSIDE the engine — there is no in-language merge, and the update is never applied silently."@))
}

pub(crate) fn path_of(p: &HistoryPoint) -> (r: String)
    ensures
        r@ == point_path(p@),
{
    concat3(p.lineage.as_str(), "/", p.point.as_str())
}

impl AncestryDivergence {
    /// Whether an update may apply an incoming history by itself.
    pub fn is_fast_forward(relation: ImportRelation) -> (r: bool)
        ensures
            r == moves_forward(relation),
    {
        relation == ImportRelation::FastForward || relation == ImportRelation::SamePoint
    }

    /// Why the histories could not be reconciled.
    pub fn cause(&self) -> (r: &'static str)
        ensures
            r@ == divergence_cause(self.relation),
    {
        match self.relation {
            ImportRelation::Merge =>
                "the two histories share an ancestor and then DIVERGED, so neither state supersedes the other",
            ImportRelation::Rollback =>
                "the incoming history PRECEDES the live one, so applying it would silently discard committed state",
            ImportRelation::Unrelated =>
                "the incoming history shares NO point with the live one (a different instance, or a lineage this instance's ancestry does not know)",
            _ => "the histories are reconcilable and this is not a divergence",
        }
    }

    /// The divergence in words.
    pub fn text(&self) -> (r: String)
        ensures
            r@ == divergence_text(self@),
    {
        let live = path_of(&self.local);
        let incoming = path_of(&self.incoming);
        let last = concat3(
            "`, incoming point `",
            incoming.as_str(),
            "`). A divergent history is reconciled OUTSIDE the engine — there is no in-language merge, and the update is never applied silently.",
        );
        let middle = concat5(
            " (relation ",
            relation_text(self.relation),
            "; live point `",
            live.as_str(),
            last.as_str(),
        );
        concat5(
            "`update_module(… { migrate: model+data })` on `",
            self.at.as_str(),
            "` is refused: ",
            self.cause(),
            middle.as_str(),
        )
    }

    /// The refusal the divergence comes to.
    pub fn into_rejection(self) -> (r: Rejection)
        ensures
            r@ == refused(RejectionReason::Compatibility, divergence_text(self@)),
    {
        let text = self.text();
        Rejection::new(RejectionReason::Compatibility, text.as_str())
    }
}

} // verus!
