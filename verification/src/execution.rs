//! The statements of a mutation program, from their evaluated operands to the state
//! they leave.

use crate::address::{RowAddress, StepView};
use crate::calls::{
    args_bound, call_depth, called_depth, called_receiver, internal_args, object_supplied, CompiledMutation,
    SuppliedArg,
};
use crate::cell::{lemma_cell, lemma_row, Cell, CellView};
use crate::deletion::{delete_nested, nested_removed, patch_fields, patched, refs_to};
use crate::interp::{ref_views, resolutions, RowRef, RowRefView};
use crate::materialize::{stored_form, struct_of};
use crate::model::{field_named, Compiled};
use crate::order::Duplicate;
use crate::program::{
    mark, marked, placed, unknown_collection, CollectionLoc, Interp, ProgramView, RowTarget, TargetView,
};
use crate::refs::{components_of, key_value_of};
use crate::rejection::{outcome, refused, refused_at, Rejection, RejectionReason, RejectionView};
use crate::state::{Fields, FieldsView, StateView};
use crate::statements::field_set;
use crate::syntax::{bare_form, exec_bare, is_erase, is_name, BareStatement, Expr};
use crate::table::Table;
use crate::target::{
    assigned, field_selected, located, option_view, receiver_gone, selected, set_field_at, AssignTarget, AssignView,
    LocView, Place,
};
use crate::text::{concat3, concat5, copy_texts, join_texts, texts};
use crate::value::{copy_value, views, Value, ValueView};
use vstd::prelude::*;

verus! {

/// The scalar an evaluated expression stands for: a scalar itself, and a row by its
/// key.
pub open spec fn scalar_of(cell: CellView) -> Result<ValueView, RejectionView> {
    match cell {
        CellView::Scalar(v) => Ok(v),
        CellView::Row(row) => Ok(row.key),
        CellView::Collection(_) => Err(refused(RejectionReason::TypeError, "expected a scalar value here"@)),
    }
}

/// The scalar an evaluated expression stands for.
pub fn scalar_value(cell: &Cell) -> (r: Result<Value, Rejection>)
    ensures
        outcome(r) == scalar_of(cell@),
{
    proof {
        lemma_cell(*cell);
    }
    match cell {
        Cell::Scalar(v) => Ok(copy_value(v)),
        Cell::Row(row) => Ok(copy_value(&row.key)),
        Cell::Collection(_) => Err(Rejection::new(RejectionReason::TypeError, "expected a scalar value here")),
    }
}

/// The scalars evaluated arguments stand for; the first refusal is the answer.
pub open spec fn scalars_of(args: Seq<Result<Cell, Rejection>>) -> Result<Seq<ValueView>, RejectionView>
    decreases args.len(),
{
    if args.len() == 0 {
        Ok(Seq::empty())
    } else {
        match scalars_of(args.drop_last()) {
            Err(e) => Err(e),
            Ok(values) => match outcome(args.last()) {
                Err(e) => Err(e),
                Ok(cell) => match scalar_of(cell) {
                    Err(e) => Err(e),
                    Ok(v) => Ok(values.push(v)),
                },
            },
        }
    }
}

proof fn lemma_scalars_refusal(args: Seq<Result<Cell, Rejection>>, n: int)
    requires
        0 <= n <= args.len(),
        scalars_of(args.take(n)) is Err,
    ensures
        scalars_of(args) == scalars_of(args.take(n)),
    decreases args.len() - n,
{
    if n == args.len() {
        assert(args.take(n) =~= args);
    } else {
        assert(args.take(n + 1).drop_last() =~= args.take(n));
        lemma_scalars_refusal(args, n + 1);
    }
}

/// The scalars the arguments of a host call stand for.
pub fn host_arguments(args: &Vec<Result<Cell, Rejection>>) -> (r: Result<Vec<Value>, Rejection>)
    ensures
        match (r, scalars_of(args@)) {
            (Ok(v), Ok(s)) => views(v@) == s,
            (Err(e), Err(x)) => e@ == x,
            _ => false,
        },
{
    let mut values: Vec<Value> = Vec::new();
    let mut i: usize = 0;
    proof {
        assert(args@.take(0) =~= Seq::<Result<Cell, Rejection>>::empty());
        assert(views(values@) =~= Seq::<ValueView>::empty());
    }
    while i < args.len()
        invariant
            i <= args@.len(),
            scalars_of(args@.take(i as int)) == Ok::<Seq<ValueView>, RejectionView>(views(values@)),
        decreases args@.len() - i,
    {
        let ghost prior = views(values@);
        proof {
            assert(args@.take(i + 1).drop_last() =~= args@.take(i as int));
            assert(args@.take(i + 1).last() == args@[i as int]);
        }
        let scalar = match &args[i] {
            Ok(cell) => scalar_value(cell),
            Err(e) => Err(e.duplicate()),
        };
        match scalar {
            Ok(v) => {
                let ghost shown = v@;
                values.push(v);
                proof {
                    assert(views(values@) =~= prior.push(shown));
                }
            },
            Err(e) => {
                proof {
                    lemma_scalars_refusal(args@, i + 1);
                }
                return Err(e);
            },
        }
        i = i + 1;
    }
    proof {
        assert(args@.take(i as int) =~= args@);
    }
    Ok(values)
}

/// What a field's declared type makes of a scalar assigned to it.
pub enum Fit {
    /// The scalar is stored as it is.
    Stored,
    /// The scalar is a label of a closed list, or a refusal.
    Label(Result<Value, Rejection>),
    /// The scalar's type does not fit the declared one.
    Mismatch { from: String, to: String },
}

/// The value an assignment stores: the scalar its expression came to, as the
/// declared type takes it.
pub open spec fn assigned_value(
    value: CellView,
    fit: Fit,
    at: Seq<StepView>,
    field: Seq<char>,
) -> Result<ValueView, RejectionView> {
    match value {
        CellView::Scalar(v) => match fit {
            Fit::Stored => Ok(v),
            Fit::Label(label) => outcome(label),
            Fit::Mismatch { from, to } => Err(
                RejectionView {
                    reason: RejectionReason::TypeError,
                    message: "value of type `"@ + from@ + "` is not assignable to `"@ + to@ + "`"@,
                    at: Some(at),
                    field: Some(field),
                },
            ),
        },
        _ => Err(refused(RejectionReason::TypeError, "a field is assigned a scalar value"@)),
    }
}

/// The value an assignment to a field of the row at `at` stores.
pub fn assign_value(value: &Cell, fit: &Fit, at: &RowAddress, field: &str) -> (r: Result<Value, Rejection>)
    ensures
        outcome(r) == assigned_value(value@, *fit, at@, field@),
{
    proof {
        lemma_cell(*value);
    }
    match value {
        Cell::Scalar(v) => match fit {
            Fit::Stored => Ok(copy_value(v)),
            Fit::Label(Ok(label)) => Ok(copy_value(label)),
            Fit::Label(Err(e)) => Err(e.duplicate()),
            Fit::Mismatch { from, to } => {
                let message = concat5(
                    "value of type `",
                    from.as_str(),
                    "` is not assignable to `",
                    to.as_str(),
                    "`",
                );
                Err(Rejection::at_field(RejectionReason::TypeError, message.as_str(), at, field))
            },
        },
        _ => Err(Rejection::new(RejectionReason::TypeError, "a field is assigned a scalar value")),
    }
}

/// The keys of the rows a selection came to, in order; a scalar selects no row.
pub open spec fn keys_selected(cell: CellView) -> Seq<ValueView> {
    match cell {
        CellView::Collection(rows) => Seq::new(rows.len(), |i: int| rows[i].key),
        CellView::Row(row) => seq![row.key],
        CellView::Scalar(_) => Seq::empty(),
    }
}

/// The keys of the rows a selection came to, in order.
pub fn selection_key_values(cell: &Cell) -> (r: Vec<Value>)
    ensures
        views(r@) == keys_selected(cell@),
{
    proof {
        lemma_cell(*cell);
    }
    let mut keys: Vec<Value> = Vec::new();
    match cell {
        Cell::Collection(rows) => {
            let mut i: usize = 0;
            while i < rows.len()
                invariant
                    i <= rows@.len(),
                    keys@.len() == i,
                    forall|j: int| 0 <= j < i ==> (#[trigger] keys@[j])@ == rows@[j]@.key,
                decreases rows@.len() - i,
            {
                proof {
                    lemma_row(rows@[i as int]);
                }
                keys.push(copy_value(&rows[i].key));
                i = i + 1;
            }
            proof {
                assert(views(keys@) =~= keys_selected(cell@));
            }
        },
        Cell::Row(row) => {
            keys.push(copy_value(&row.key));
            proof {
                lemma_row(**row);
                assert(views(keys@) =~= keys_selected(cell@));
            }
        },
        Cell::Scalar(_) => {
            proof {
                assert(views(keys@) =~= keys_selected(cell@));
            }
        },
    }
    keys
}

/// What the operand of an insertion or a deletion names.
pub enum Operand {
    Collection(CollectionLoc),
    /// A set-valued field of a row.
    SetField(RowTarget, String),
    /// Nothing a statement can change.
    Nothing,
}

/// What an [`Operand`] denotes.
#[verifier::ext_equal]
pub enum OperandView {
    Collection(LocView),
    SetField(TargetView, Seq<char>),
    Nothing,
}

impl View for Operand {
    type V = OperandView;

    open spec fn view(&self) -> OperandView {
        match self {
            Operand::Collection(loc) => OperandView::Collection(loc@),
            Operand::SetField(row, field) => OperandView::SetField(row@, field@),
            Operand::Nothing => OperandView::Nothing,
        }
    }
}

/// What the operand of an insertion or a deletion names: a collection before a
/// set-valued field.
pub open spec fn operand_named(compiled: Compiled, p: ProgramView, place: Place) -> Result<OperandView, RejectionView> {
    match located(compiled, p, place) {
        Err(e) => Err(e),
        Ok(Some(loc)) => Ok(OperandView::Collection(loc)),
        Ok(None) => match field_selected(compiled, p, place) {
            Err(e) => Err(e),
            Ok(Some((row, field))) if set_field_at(compiled, row.path, field) => Ok(OperandView::SetField(row, field)),
            Ok(_) => Ok(OperandView::Nothing),
        },
    }
}

/// How an insertion adds to what its operand names.
pub enum InsertForm {
    /// One row, from an object.
    Row(CollectionLoc),
    /// Every row of a source view.
    View(CollectionLoc),
    /// Members of a set.
    Members(RowTarget, String),
    Nothing,
}

/// What an [`InsertForm`] is, given what its operand names and whether it adds an
/// object.
pub open spec fn inserts(form: InsertForm, operand: OperandView, object: bool) -> bool {
    match (form, operand) {
        (InsertForm::Row(loc), OperandView::Collection(l)) => object && loc@ == l,
        (InsertForm::View(loc), OperandView::Collection(l)) => !object && loc@ == l,
        (InsertForm::Members(row, field), OperandView::SetField(t, f)) => row@ == t && field@ == f,
        (InsertForm::Nothing, OperandView::Nothing) => true,
        _ => false,
    }
}

/// The name of a located collection.
pub open spec fn loc_name(loc: LocView) -> Seq<char> {
    if loc.decl.len() == 0 {
        Seq::empty()
    } else {
        loc.decl.last()
    }
}

/// What becomes of the state, and of the rows a top-level deletion names, when the
/// rows with these keys are deleted: a nested row goes with its subtree, a top-level
/// row through the deletion planner.
pub open spec fn keys_deleted(p: ProgramView, loc: LocView, keys: Seq<ValueView>) -> (ProgramView, Seq<RowRefView>) {
    if loc.decl.len() > 1 {
        (
            ProgramView { state: nested_removed(p.state, loc.at, keys), ..p },
            Seq::empty(),
        )
    } else {
        (p, refs_to(loc_name(loc), keys))
    }
}

/// The name of a located collection.
pub(crate) fn name_of(loc: &CollectionLoc) -> (r: String)
    ensures
        r@ == loc_name(loc@),
{
    let n: usize = loc.decl.len();
    if n == 0 {
        proof {
            reveal_strlit("");
            assert(""@ =~= Seq::<char>::empty());
        }
        String::from_str("")
    } else {
        loc.decl[n - 1].clone()
    }
}

/// Rows of a collection, by identity.
pub(crate) fn row_refs(collection: &str, keys: &Vec<Value>) -> (r: Vec<RowRef>)
    ensures
        ref_views(r@) == refs_to(collection@, views(keys@)),
{
    let mut refs: Vec<RowRef> = Vec::new();
    let mut i: usize = 0;
    while i < keys.len()
        invariant
            i <= keys@.len(),
            refs@.len() == i,
            forall|j: int|
                0 <= j < i ==> (#[trigger] refs@[j])@ == (RowRefView { collection: collection@, key: keys@[j]@ }),
        decreases keys@.len() - i,
    {
        refs.push(RowRef { collection: String::from_str(collection), key: copy_value(&keys[i]) });
        i = i + 1;
    }
    proof {
        assert(ref_views(refs@) =~= refs_to(collection@, views(keys@)));
    }
    refs
}

impl<'a> Interp<'a> {
    /// What the operand of an insertion or a deletion names.
    pub fn operand(&self, place: &Place) -> (r: Result<Operand, Rejection>)
        ensures
            outcome(r) == operand_named(*self.compiled, self@, *place),
    {
        match self.collection_ref(place) {
            Err(e) => Err(e),
            Ok(Some(loc)) => Ok(Operand::Collection(loc)),
            Ok(None) => match self.set_field_target(place) {
                Err(e) => Err(e),
                Ok(Some((row, field))) => Ok(Operand::SetField(row, field)),
                Ok(None) => Ok(Operand::Nothing),
            },
        }
    }

    /// Tell how an insertion adds to what its operand names.
    pub fn exec_insert(&self, place: &Place, object: bool) -> (r: Result<InsertForm, Rejection>)
        ensures
            match (r, operand_named(*self.compiled, self@, *place)) {
                (Ok(form), Ok(operand)) => inserts(form, operand, object),
                (Err(e), Err(x)) => e@ == x,
                _ => false,
            },
    {
        match self.operand(place) {
            Err(e) => Err(e),
            Ok(Operand::Collection(loc)) => if object {
                Ok(InsertForm::Row(loc))
            } else {
                Ok(InsertForm::View(loc))
            },
            Ok(Operand::SetField(row, field)) => Ok(InsertForm::Members(row, field)),
            Ok(Operand::Nothing) => Ok(InsertForm::Nothing),
        }
    }

    /// Delete the rows of a collection with these keys, and answer with the top-level
    /// rows whose deletion the caller plans and applies.
    pub fn exec_delete(&mut self, loc: &CollectionLoc, keys: &Vec<Value>) -> (r: Vec<RowRef>)
        ensures
            final(self).compiled == old(self).compiled,
            final(self).prospective.drawn() == old(self).prospective.drawn(),
            (final(self)@, ref_views(r@)) == keys_deleted(old(self)@, loc@, views(keys@)),
    {
        if loc.decl.len() > 1 {
            delete_nested(&mut self.prospective, &loc.store_path, keys);
            let none: Vec<RowRef> = Vec::new();
            proof {
                assert(ref_views(none@) =~= Seq::<RowRefView>::empty());
            }
            none
        } else {
            let name = name_of(loc);
            row_refs(name.as_str(), keys)
        }
    }

    /// The rows a `-selection` statement deletes, whose deletion the caller plans and
    /// applies; a scalar selects none.
    pub fn exec_delete_selection(&self, loc: &CollectionLoc, selection: &Cell) -> (r: Vec<RowRef>)
        ensures
            ref_views(r@) == refs_to(loc_name(loc@), keys_selected(selection@)),
    {
        let name = name_of(loc);
        let keys = selection_key_values(selection);
        row_refs(name.as_str(), &keys)
    }

    /// The row a clear statement writes, its field, and its fields with that one
    /// absent, for the field's normalizer to see; none where the place names no field.
    pub fn exec_clear(&self, place: &Place) -> (r: Result<Option<(RowTarget, String, Fields)>, Rejection>)
        ensures
            match (r, field_selected(*self.compiled, self@, *place)) {
                (Err(e), Err(x)) => e@ == x,
                (Ok(None), Ok(None)) => true,
                (Ok(Some((row, field, fields))), Ok(Some((t, f)))) => row@ == t && field@ == f && field_set(
                    self@.state,
                    t.address,
                    f,
                    ValueView::Absent,
                ) == Ok::<FieldsView, RejectionView>(fields@),
                (Err(e), Ok(Some((t, f)))) => field_set(self@.state, t.address, f, ValueView::Absent) == Err::<
                    FieldsView,
                    RejectionView,
                >(e@),
                _ => false,
            },
    {
        match self.field_target(place) {
            Err(e) => Err(e),
            Ok(None) => Ok(None),
            Ok(Some((row, field))) => match self.set_field(&row, field.as_str(), Value::Absent) {
                Err(e) => Err(e),
                Ok(fields) => Ok(Some((row, field, fields))),
            },
        }
    }

    /// The fields of the row that holds the root members, with one of them set, for
    /// the member's normalizer to see. The row need not exist yet.
    pub fn set_singleton(&self, at: &RowAddress, field: &str, value: Value) -> (r: Fields)
        ensures
            r@ == singleton_set(self@.state, at@, field@, value@),
    {
        let mut fields: Fields = match self.prospective.get(at) {
            Some(held) => held.duplicate(),
            None => Table::new(),
        };
        fields.insert(String::from_str(field), value);
        fields
    }

    /// Put the normalized root members in place.
    pub fn write_singleton_field(&mut self, at: &RowAddress, normalized: Result<Fields, Rejection>) -> (r: Result<
        (),
        Rejection,
    >)
        ensures
            final(self).compiled == old(self).compiled,
            final(self).prospective.drawn() == old(self).prospective.drawn(),
            match (r, outcome(normalized)) {
                (Ok(_), Ok(fields)) => final(self)@ == (ProgramView {
                    state: old(self)@.state.insert(at@, fields),
                    receiver: old(self)@.receiver,
                    touched: marked(old(self)@.touched, at@),
                    extracts: old(self)@.extracts,
                    drawn: old(self)@.drawn,
                }),
                (Err(e), Err(x)) => e@ == x && final(self)@ == old(self)@,
                _ => false,
            },
    {
        match normalized {
            Err(e) => Err(e),
            Ok(fields) => {
                self.prospective.insert(at.duplicate(), fields);
                mark(&mut self.touched, at.duplicate());
                Ok(())
            },
        }
    }
}

/// The root members with one of them set.
pub open spec fn singleton_set(
    state: StateView,
    at: Seq<StepView>,
    field: Seq<char>,
    value: ValueView,
) -> FieldsView {
    if state.contains_key(at) {
        state[at].insert(field, value)
    } else {
        Map::empty().insert(field, value)
    }
}

/// What a patch statement patches, with its selection evaluated.
pub enum PatchBase {
    /// One row.
    Row(Place),
    /// The rows of a collection a bound selector matched.
    Selection { collection: Place, matched: Result<Cell, Rejection> },
}

/// The rows a patch statement patches.
pub enum PatchPlan {
    /// A row that has to exist.
    Single(RowTarget),
    /// The rows of a selection, each patched where it exists.
    Many(Vec<RowTarget>),
}

/// What a [`PatchPlan`] denotes.
#[verifier::ext_equal]
pub enum PatchPlanView {
    Single(TargetView),
    Many(Seq<TargetView>),
}

/// What targets denote.
pub open spec fn target_views(targets: Seq<RowTarget>) -> Seq<TargetView> {
    Seq::new(targets.len(), |i: int| targets[i]@)
}

impl View for PatchPlan {
    type V = PatchPlanView;

    open spec fn view(&self) -> PatchPlanView {
        match self {
            PatchPlan::Single(row) => PatchPlanView::Single(row@),
            PatchPlan::Many(rows) => PatchPlanView::Many(target_views(rows@)),
        }
    }
}

/// The rows of a collection with these keys.
pub open spec fn rows_keyed(loc: LocView, keys: Seq<ValueView>) -> Seq<TargetView> {
    Seq::new(
        keys.len(),
        |i: int|
            TargetView {
                address: loc.at.0.push(StepView { name: loc.at.1, key: components_of(keys[i]) }),
                path: loc.decl,
            },
    )
}

/// The refusal of a patch of something that is no row.
pub open spec fn no_row_source() -> RejectionView {
    refused(RejectionReason::Malformed, "a patch needs a row source"@)
}

/// The rows a patch statement patches.
pub open spec fn patch_planned(compiled: Compiled, p: ProgramView, base: PatchBase) -> Result<
    PatchPlanView,
    RejectionView,
> {
    match base {
        PatchBase::Selection { collection, matched } => match located(compiled, p, collection) {
            Err(e) => Err(e),
            Ok(None) => Err(no_row_source()),
            Ok(Some(loc)) => match receiver_gone(p) {
                Some(e) => Err(e),
                None => match outcome(matched) {
                    Err(e) => Err(e),
                    Ok(cell) => Ok(PatchPlanView::Many(rows_keyed(loc, keys_selected(cell)))),
                },
            },
        },
        PatchBase::Row(place) => match selected(compiled, p, place) {
            Err(e) => Err(e),
            Ok(None) => Err(no_row_source()),
            Ok(Some(row)) => Ok(PatchPlanView::Single(row)),
        },
    }
}

/// A program after one row has been patched with its normalized fields.
pub open spec fn row_patched(
    compiled: Compiled,
    p: ProgramView,
    row: TargetView,
    normalized: Result<FieldsView, RejectionView>,
) -> Result<ProgramView, RejectionView> {
    match normalized {
        Err(e) => Err(e),
        Ok(fields) => placed(compiled, p, row.address, row.path, fields),
    }
}

/// A program after the rows of a selection have been patched one after the other. A
/// row that does not exist is passed over.
pub open spec fn rows_patched(
    compiled: Compiled,
    p: ProgramView,
    rows: Seq<TargetView>,
    normalized: Seq<Result<FieldsView, RejectionView>>,
) -> Result<ProgramView, RejectionView>
    decreases rows.len(),
{
    if rows.len() == 0 || rows.len() != normalized.len() {
        Ok(p)
    } else {
        match rows_patched(compiled, p, rows.drop_last(), normalized.drop_last()) {
            Err(e) => Err(e),
            Ok(q) => if q.state.contains_key(rows.last().address) {
                row_patched(compiled, q, rows.last(), normalized.last())
            } else {
                Ok(q)
            },
        }
    }
}

/// What a refused patch of several rows leaves: the rows before the refused one are
/// patched.
pub open spec fn rows_left_patched(
    compiled: Compiled,
    p: ProgramView,
    rows: Seq<TargetView>,
    normalized: Seq<Result<FieldsView, RejectionView>>,
) -> ProgramView
    decreases rows.len(),
{
    if rows.len() == 0 || rows.len() != normalized.len() {
        p
    } else {
        match rows_patched(compiled, p, rows.drop_last(), normalized.drop_last()) {
            Err(_) => rows_left_patched(compiled, p, rows.drop_last(), normalized.drop_last()),
            Ok(q) => q,
        }
    }
}

/// What a refused patch statement leaves.
pub open spec fn patch_left(
    compiled: Compiled,
    p: ProgramView,
    plan: PatchPlanView,
    normalized: Seq<Result<FieldsView, RejectionView>>,
) -> ProgramView {
    match plan {
        PatchPlanView::Single(_) => p,
        PatchPlanView::Many(rows) => rows_left_patched(compiled, p, rows, normalized),
    }
}

proof fn lemma_patched_refusal(
    compiled: Compiled,
    p: ProgramView,
    rows: Seq<TargetView>,
    normalized: Seq<Result<FieldsView, RejectionView>>,
    n: int,
)
    requires
        0 <= n <= rows.len(),
        rows.len() == normalized.len(),
        rows_patched(compiled, p, rows.take(n), normalized.take(n)) is Err,
    ensures
        rows_patched(compiled, p, rows, normalized) == rows_patched(compiled, p, rows.take(n), normalized.take(n)),
        rows_left_patched(compiled, p, rows, normalized) == rows_left_patched(
            compiled,
            p,
            rows.take(n),
            normalized.take(n),
        ),
    decreases rows.len() - n,
{
    if n == rows.len() {
        assert(rows.take(n) =~= rows);
        assert(normalized.take(n) =~= normalized);
    } else {
        assert(rows.take(n + 1).drop_last() =~= rows.take(n));
        assert(normalized.take(n + 1).drop_last() =~= normalized.take(n));
        lemma_patched_refusal(compiled, p, rows, normalized, n + 1);
    }
}

/// A program after a patch statement.
pub open spec fn patch_executed(
    compiled: Compiled,
    p: ProgramView,
    plan: PatchPlanView,
    normalized: Seq<Result<FieldsView, RejectionView>>,
) -> Result<ProgramView, RejectionView> {
    match plan {
        PatchPlanView::Single(row) => if p.state.contains_key(row.address) {
            row_patched(compiled, p, row, normalized[0])
        } else {
            Err(refused_at(RejectionReason::MissingTarget, "the patched row does not exist"@, row.address))
        },
        PatchPlanView::Many(rows) => rows_patched(compiled, p, rows, normalized),
    }
}

/// How many rows a patch statement patches at most.
pub open spec fn patch_width(plan: PatchPlanView) -> nat {
    match plan {
        PatchPlanView::Single(_) => 1,
        PatchPlanView::Many(rows) => rows.len(),
    }
}

/// What a patch writes to a field: the scalar its expression came to.
pub open spec fn patch_scalar(value: CellView) -> Result<ValueView, RejectionView> {
    match value {
        CellView::Scalar(v) => Ok(v),
        _ => Err(refused(RejectionReason::TypeError, "a patch assigns a scalar value"@)),
    }
}

/// What a patch writes to a field.
pub fn patch_value(value: &Cell) -> (r: Result<Value, Rejection>)
    ensures
        outcome(r) == patch_scalar(value@),
{
    proof {
        lemma_cell(*value);
    }
    match value {
        Cell::Scalar(v) => Ok(copy_value(v)),
        _ => Err(Rejection::new(RejectionReason::TypeError, "a patch assigns a scalar value")),
    }
}

impl<'a> Interp<'a> {
    /// The rows a patch statement patches.
    pub fn patch_plan(&self, base: &PatchBase) -> (r: Result<PatchPlan, Rejection>)
        ensures
            outcome(r) == patch_planned(*self.compiled, self@, *base),
    {
        match base {
            PatchBase::Selection { collection, matched } => {
                let loc = match self.collection_ref(collection) {
                    Err(e) => {
                        return Err(e);
                    },
                    Ok(None) => {
                        return Err(Rejection::new(RejectionReason::Malformed, "a patch needs a row source"));
                    },
                    Ok(Some(loc)) => loc,
                };
                if let Err(e) = self.current() {
                    return Err(e);
                }
                let cell = match matched {
                    Err(e) => {
                        return Err(e.duplicate());
                    },
                    Ok(cell) => cell,
                };
                let keys = selection_key_values(cell);
                let mut rows: Vec<RowTarget> = Vec::new();
                let mut i: usize = 0;
                while i < keys.len()
                    invariant
                        i <= keys@.len(),
                        rows@.len() == i,
                        forall|j: int|
                            0 <= j < i ==> (#[trigger] rows@[j])@ == rows_keyed(loc@, views(keys@))[j],
                    decreases keys@.len() - i,
                {
                    let address = loc.store_path.row(key_value_of(&keys[i]));
                    rows.push(RowTarget { address, path: copy_texts(&loc.decl) });
                    i = i + 1;
                }
                proof {
                    assert(target_views(rows@) =~= rows_keyed(loc@, keys_selected(cell@)));
                }
                Ok(PatchPlan::Many(rows))
            },
            PatchBase::Row(place) => match self.row_target(place) {
                Err(e) => Err(e),
                Ok(None) => Err(Rejection::new(RejectionReason::Malformed, "a patch needs a row source")),
                Ok(Some(row)) => Ok(PatchPlan::Single(row)),
            },
        }
    }

    /// The fields of a row with a patch's updates written over them, for the fields'
    /// normalizers to see; none where the row does not exist.
    pub fn patch_start(&self, row: &RowTarget, updates: &Vec<(String, Value)>) -> (r: Option<Fields>)
        ensures
            match r {
                Some(fields) => self@.state.contains_key(row@.address) && fields@ == patched(
                    self@.state[row@.address],
                    updates@,
                ),
                None => !self@.state.contains_key(row@.address),
            },
    {
        match self.prospective.get(&row.address) {
            Some(original) => Some(patch_fields(original, updates)),
            None => None,
        }
    }

    /// Put one patched row in place. A refused patch changes nothing.
    pub fn apply_patch(&mut self, row: &RowTarget, normalized: &Result<Fields, Rejection>) -> (r: Result<
        (),
        Rejection,
    >)
        ensures
            final(self).compiled == old(self).compiled,
            final(self).prospective.drawn() == old(self).prospective.drawn(),
            match (r, row_patched(*old(self).compiled, old(self)@, row@, outcome(*normalized))) {
                (Ok(_), Ok(p)) => final(self)@ == p,
                (Err(e), Err(x)) => e@ == x && final(self)@ == old(self)@,
                _ => false,
            },
    {
        match normalized {
            Err(e) => Err(e.duplicate()),
            Ok(fields) => self.place(&row.address, &row.path, fields.duplicate()),
        }
    }

    /// Run a patch statement on the rows it patches, each with its normalized fields.
    pub fn exec_patch(&mut self, plan: &PatchPlan, normalized: &Vec<Result<Fields, Rejection>>) -> (r: Result<
        (),
        Rejection,
    >)
        requires
            normalized@.len() == patch_width(plan@),
        ensures
            final(self).compiled == old(self).compiled,
            final(self).prospective.drawn() == old(self).prospective.drawn(),
            match (r, patch_executed(*old(self).compiled, old(self)@, plan@, resolutions(normalized@))) {
                (Ok(_), Ok(p)) => final(self)@ == p,
                (Err(e), Err(x)) => e@ == x && final(self)@ == patch_left(
                    *old(self).compiled,
                    old(self)@,
                    plan@,
                    resolutions(normalized@),
                ),
                _ => false,
            },
    {
        match plan {
            PatchPlan::Single(row) => {
                if !self.prospective.contains(&row.address) {
                    return Err(
                        Rejection::at(
                            RejectionReason::MissingTarget,
                            "the patched row does not exist",
                            &row.address,
                        ),
                    );
                }
                proof {
                    assert(resolutions(normalized@)[0] == outcome(normalized@[0]));
                }
                self.apply_patch(row, &normalized[0])
            },
            PatchPlan::Many(rows) => {
                let ghost all = target_views(rows@);
                let ghost fields = resolutions(normalized@);
                let ghost start = self@;
                let mut i: usize = 0;
                proof {
                    assert(all.take(0) =~= Seq::<TargetView>::empty());
                }
                while i < rows.len()
                    invariant
                        all == target_views(rows@),
                        plan@ == PatchPlanView::Many(all),
                        fields == resolutions(normalized@),
                        rows@.len() == normalized@.len(),
                        start == old(self)@,
                        i <= rows@.len(),
                        self.compiled == old(self).compiled,
                        self.prospective.drawn() == old(self).prospective.drawn(),
                        rows_patched(*old(self).compiled, start, all.take(i as int), fields.take(i as int)) == Ok::<
                            ProgramView,
                            RejectionView,
                        >(self@),
                    decreases rows@.len() - i,
                {
                    proof {
                        assert(all.take(i + 1).drop_last() =~= all.take(i as int));
                        assert(fields.take(i + 1).drop_last() =~= fields.take(i as int));
                        assert(all.take(i + 1).last() == rows@[i as int]@);
                        assert(fields.take(i + 1).last() == outcome(normalized@[i as int]));
                    }
                    if self.prospective.contains(&rows[i].address) {
                        if let Err(e) = self.apply_patch(&rows[i], &normalized[i]) {
                            proof {
                                lemma_patched_refusal(*old(self).compiled, start, all, fields, i + 1);
                            }
                            return Err(e);
                        }
                    }
                    i = i + 1;
                }
                proof {
                    assert(all.take(i as int) =~= all);
                    assert(fields.take(i as int) =~= fields);
                }
                Ok(())
            },
        }
    }
}

/// The frame a called mutation runs in: its depth, its receiver, and its parameters.
pub open spec fn call_framed(
    p: ProgramView,
    depth: usize,
    mutation: CompiledMutation,
    args: Seq<SuppliedArg>,
) -> Result<(usize, Option<TargetView>, FieldsView), RejectionView> {
    match called_depth(depth) {
        Err(e) => Err(e),
        Ok(deeper) => match called_receiver(p.receiver, mutation) {
            Err(e) => Err(e),
            Ok(receiver) => match receiver_gone(p) {
                Some(e) => Err(e),
                None => match args_bound(mutation.params@, args) {
                    Err(e) => Err(e),
                    Ok(params) => Ok((deeper, receiver, params)),
                },
            },
        },
    }
}

impl<'a> Interp<'a> {
    /// The frame a called mutation runs in.
    pub fn exec_internal_call(&self, depth: usize, mutation: &CompiledMutation, args: &Vec<SuppliedArg>) -> (r: Result<
        (usize, Option<RowTarget>, Fields),
        Rejection,
    >)
        ensures
            match (r, call_framed(self@, depth, *mutation, args@)) {
                (Ok((d, receiver, params)), Ok((x, t, f))) => d == x && option_view(receiver) == t && params@ == f,
                (Err(e), Err(x)) => e@ == x,
                _ => false,
            },
    {
        let deeper: usize = match call_depth(depth) {
            Ok(d) => d,
            Err(e) => {
                return Err(e);
            },
        };
        let receiver = match self.internal_receiver(mutation) {
            Ok(receiver) => receiver,
            Err(e) => {
                return Err(e);
            },
        };
        if let Err(e) = self.current() {
            return Err(e);
        }
        match internal_args(mutation, args) {
            Ok(params) => Ok((deeper, receiver, params)),
            Err(e) => Err(e),
        }
    }

    /// The values a host function is called with, from its evaluated arguments.
    pub fn eval_host_call(&self, args: &Vec<Result<Cell, Rejection>>) -> (r: Result<Vec<Value>, Rejection>)
        ensures
            match (r, receiver_gone(self@), scalars_of(args@)) {
                (Err(e), Some(x), _) => e@ == x,
                (Ok(v), None, Ok(s)) => views(v@) == s,
                (Err(e), None, Err(x)) => e@ == x,
                _ => false,
            },
    {
        if let Err(e) = self.current() {
            return Err(e);
        }
        host_arguments(args)
    }
}

/// A statement of a program.
pub enum Statement {
    Return(Expr),
    Assign { target: Expr, value: Expr },
    Clear(Expr),
    Bare(Expr),
}

/// What a statement does.
#[derive(Debug, Clone, Copy, PartialEq, Eq, Structural)]
pub enum StatementForm {
    /// Erase now; what the erasure answers is the response.
    ReturnErase,
    /// Keep the expression, to evaluate once the program has committed.
    Return,
    Assign,
    Clear,
    Bare(BareStatement),
}

/// What a statement does.
pub open spec fn statement_form(s: Statement) -> StatementForm {
    match s {
        Statement::Return(e) => match e {
            Expr::Call { callee, .. } if is_name(*callee, "erase"@) => StatementForm::ReturnErase,
            _ => StatementForm::Return,
        },
        Statement::Assign { .. } => StatementForm::Assign,
        Statement::Clear(_) => StatementForm::Clear,
        Statement::Bare(e) => StatementForm::Bare(bare_form(e)),
    }
}

/// Tell what a statement does.
pub fn exec(s: &Statement) -> (r: StatementForm)
    ensures
        r == statement_form(*s),
{
    match s {
        Statement::Return(e) => {
            if let Expr::Call { callee, .. } = e {
                if is_erase(callee) {
                    return StatementForm::ReturnErase;
                }
            }
            StatementForm::Return
        },
        Statement::Assign { .. } => StatementForm::Assign,
        Statement::Clear(_) => StatementForm::Clear,
        Statement::Bare(e) => StatementForm::Bare(exec_bare(e)),
    }
}

/// A member of a static struct, with what it holds where an initializer leaves it out.
pub struct StructMember {
    pub name: String,
    /// What its default came to, where it declares one.
    pub default: Option<Result<Cell, Rejection>>,
    /// The empty container it starts as, where it has to hold one.
    pub container: Option<Value>,
}

/// The members of a struct after the defaults of those left out; a default that is no
/// scalar leaves its member absent.
pub open spec fn defaults_filled(fields: FieldsView, members: Seq<StructMember>) -> Result<FieldsView, RejectionView>
    decreases members.len(),
{
    if members.len() == 0 {
        Ok(fields)
    } else {
        match defaults_filled(fields, members.drop_last()) {
            Err(e) => Err(e),
            Ok(so_far) => {
                let m = members.last();
                if so_far.contains_key(m.name@) {
                    Ok(so_far)
                } else {
                    match m.default {
                        None => Ok(so_far),
                        Some(evaluated) => match outcome(evaluated) {
                            Err(e) => Err(e),
                            Ok(CellView::Scalar(v)) => Ok(so_far.insert(m.name@, v)),
                            Ok(_) => Ok(so_far.insert(m.name@, ValueView::Absent)),
                        },
                    }
                }
            },
        }
    }
}

/// The members of a struct after the empty containers of those left out.
pub open spec fn containers_filled(fields: FieldsView, members: Seq<StructMember>) -> FieldsView
    decreases members.len(),
{
    if members.len() == 0 {
        fields
    } else {
        let so_far = containers_filled(fields, members.drop_last());
        let m = members.last();
        match m.container {
            Some(v) if !so_far.contains_key(m.name@) => so_far.insert(m.name@, v@),
            _ => so_far,
        }
    }
}

/// The value of a struct member, from the members its initializer supplies: the
/// supplied ones, then the defaults, then the empty containers.
pub open spec fn struct_built(
    supplied: Seq<(String, Result<Value, Rejection>)>,
    members: Seq<StructMember>,
) -> Result<ValueView, RejectionView> {
    match object_supplied(Map::empty(), supplied) {
        Err(e) => Err(e),
        Ok(fields) => match defaults_filled(fields, members) {
            Err(e) => Err(e),
            Ok(filled) => Ok(stored_form(containers_filled(filled, members))),
        },
    }
}

proof fn lemma_object_refusal(base: FieldsView, members: Seq<(String, Result<Value, Rejection>)>, n: int)
    requires
        0 <= n <= members.len(),
        object_supplied(base, members.take(n)) is Err,
    ensures
        object_supplied(base, members) == object_supplied(base, members.take(n)),
    decreases members.len() - n,
{
    if n == members.len() {
        assert(members.take(n) =~= members);
    } else {
        assert(members.take(n + 1).drop_last() =~= members.take(n));
        lemma_object_refusal(base, members, n + 1);
    }
}

proof fn lemma_defaults_refusal(fields: FieldsView, members: Seq<StructMember>, n: int)
    requires
        0 <= n <= members.len(),
        defaults_filled(fields, members.take(n)) is Err,
    ensures
        defaults_filled(fields, members) == defaults_filled(fields, members.take(n)),
    decreases members.len() - n,
{
    if n == members.len() {
        assert(members.take(n) =~= members);
    } else {
        assert(members.take(n + 1).drop_last() =~= members.take(n));
        lemma_defaults_refusal(fields, members, n + 1);
    }
}

/// Fill the defaults of the members left out.
fn fill_defaults(fields: Fields, members: &Vec<StructMember>) -> (r: Result<Fields, Rejection>)
    ensures
        outcome(r) == defaults_filled(fields@, members@),
{
    let ghost start = fields@;
    let mut filled = fields;
    let mut i: usize = 0;
    proof {
        assert(members@.take(0) =~= Seq::<StructMember>::empty());
    }
    while i < members.len()
        invariant
            start == fields@,
            i <= members@.len(),
            defaults_filled(start, members@.take(i as int)) == Ok::<FieldsView, RejectionView>(filled@),
        decreases members@.len() - i,
    {
        proof {
            assert(members@.take(i + 1).drop_last() =~= members@.take(i as int));
            assert(members@.take(i + 1).last() == members@[i as int]);
        }
        let m = &members[i];
        if !filled.contains(&m.name) {
            match &m.default {
                None => {},
                Some(Err(e)) => {
                    proof {
                        lemma_defaults_refusal(start, members@, i + 1);
                    }
                    return Err(e.duplicate());
                },
                Some(Ok(cell)) => {
                    proof {
                        lemma_cell(*cell);
                    }
                    match cell {
                        Cell::Scalar(v) => filled.insert(m.name.clone(), copy_value(v)),
                        _ => filled.insert(m.name.clone(), Value::Absent),
                    };
                },
            }
        }
        i = i + 1;
    }
    proof {
        assert(members@.take(i as int) =~= members@);
    }
    Ok(filled)
}

/// The value of a struct member, from the members its initializer supplies.
pub fn struct_value(supplied: &Vec<(String, Result<Value, Rejection>)>, members: &Vec<StructMember>) -> (r: Result<
    Value,
    Rejection,
>)
    ensures
        outcome(r) == struct_built(supplied@, members@),
{
    let mut fields: Fields = Table::new();
    let ghost none: FieldsView = Map::empty();
    let mut i: usize = 0;
    proof {
        assert(supplied@.take(0) =~= Seq::<(String, Result<Value, Rejection>)>::empty());
    }
    while i < supplied.len()
        invariant
            none == Map::<Seq<char>, ValueView>::empty(),
            i <= supplied@.len(),
            object_supplied(none, supplied@.take(i as int)) == Ok::<FieldsView, RejectionView>(fields@),
        decreases supplied@.len() - i,
    {
        proof {
            assert(supplied@.take(i + 1).drop_last() =~= supplied@.take(i as int));
            assert(supplied@.take(i + 1).last() == supplied@[i as int]);
        }
        match &supplied[i].1 {
            Ok(v) => {
                fields.insert(supplied[i].0.clone(), copy_value(v));
            },
            Err(e) => {
                proof {
                    lemma_object_refusal(none, supplied@, i + 1);
                }
                return Err(e.duplicate());
            },
        }
        i = i + 1;
    }
    proof {
        assert(supplied@.take(i as int) =~= supplied@);
    }
    let mut filled = match fill_defaults(fields, members) {
        Ok(filled) => filled,
        Err(e) => {
            return Err(e);
        },
    };
    let ghost defaulted = filled@;
    let mut j: usize = 0;
    proof {
        assert(members@.take(0) =~= Seq::<StructMember>::empty());
    }
    while j < members.len()
        invariant
            j <= members@.len(),
            filled@ == containers_filled(defaulted, members@.take(j as int)),
        decreases members@.len() - j,
    {
        proof {
            assert(members@.take(j + 1).drop_last() =~= members@.take(j as int));
            assert(members@.take(j + 1).last() == members@[j as int]);
        }
        let m = &members[j];
        if let Some(v) = &m.container {
            if !filled.contains(&m.name) {
                filled.insert(m.name.clone(), copy_value(v));
            }
        }
        j = j + 1;
    }
    proof {
        assert(members@.take(j as int) =~= members@);
    }
    Ok(struct_of(&filled))
}

/// A member the initializer supplies keeps its value: no default and no container
/// takes its place.
pub proof fn law_supplied_member(fields: FieldsView, members: Seq<StructMember>, name: Seq<char>)
    requires
        fields.contains_key(name),
        defaults_filled(fields, members) is Ok,
    ensures
        containers_filled(defaults_filled(fields, members)->Ok_0, members).contains_key(name),
        containers_filled(defaults_filled(fields, members)->Ok_0, members)[name] == fields[name],
{
    lemma_default_kept(fields, members, name);
    lemma_container_kept(defaults_filled(fields, members)->Ok_0, members, name);
}

proof fn lemma_default_kept(fields: FieldsView, members: Seq<StructMember>, name: Seq<char>)
    requires
        fields.contains_key(name),
        defaults_filled(fields, members) is Ok,
    ensures
        defaults_filled(fields, members)->Ok_0.contains_key(name),
        defaults_filled(fields, members)->Ok_0[name] == fields[name],
    decreases members.len(),
{
    if members.len() > 0 {
        lemma_default_kept(fields, members.drop_last(), name);
    }
}

proof fn lemma_container_kept(fields: FieldsView, members: Seq<StructMember>, name: Seq<char>)
    requires
        fields.contains_key(name),
    ensures
        containers_filled(fields, members).contains_key(name),
        containers_filled(fields, members)[name] == fields[name],
    decreases members.len(),
{
    if members.len() > 0 {
        lemma_container_kept(fields, members.drop_last(), name);
    }
}

/// What an assignment does next.
pub enum AssignStep {
    /// Bind a local.
    Bind(String),
    /// Replace a whole collection.
    Replace(CollectionLoc),
    /// Normalize a root member, and put it in place.
    Root(String, Fields),
    /// Normalize a field of a row, and put it in place.
    Write(RowTarget, String, Fields),
    Nothing,
}

/// What an [`AssignStep`] denotes.
#[verifier::ext_equal]
pub enum AssignStepView {
    Bind(Seq<char>),
    Replace(LocView),
    Root(Seq<char>, FieldsView),
    Write(TargetView, Seq<char>, FieldsView),
    Nothing,
}

impl View for AssignStep {
    type V = AssignStepView;

    open spec fn view(&self) -> AssignStepView {
        match self {
            AssignStep::Bind(name) => AssignStepView::Bind(name@),
            AssignStep::Replace(loc) => AssignStepView::Replace(loc@),
            AssignStep::Root(field, fields) => AssignStepView::Root(field@, fields@),
            AssignStep::Write(row, field, fields) => AssignStepView::Write(row@, field@, fields@),
            AssignStep::Nothing => AssignStepView::Nothing,
        }
    }
}

/// The value an assignment to a field of a row stores: a field the package declares
/// takes the scalar as its type does, any other as it is.
pub open spec fn field_value(
    compiled: Compiled,
    row: TargetView,
    field: Seq<char>,
    value: CellView,
    fit: Fit,
) -> Result<ValueView, RejectionView> {
    match value {
        CellView::Scalar(_) => match compiled.at(row.path) {
            None => Err(unknown_collection(row.path)),
            Some(c) => if field_named(c.fields@, field) is Some {
                assigned_value(value, fit, row.address, field)
            } else {
                assigned_value(value, Fit::Stored, row.address, field)
            },
        },
        _ => assigned_value(value, fit, row.address, field),
    }
}

/// What an assignment does next, from what its value came to and what the declared
/// type makes of it. The root members live in the row at `root`.
pub open spec fn assignment(
    compiled: Compiled,
    p: ProgramView,
    singletons: Seq<Seq<char>>,
    place: Place,
    value: Result<Cell, Rejection>,
    fit: Fit,
    root: Seq<StepView>,
) -> Result<AssignStepView, RejectionView> {
    match assigned(compiled, p, singletons, place) {
        Err(e) => Err(e),
        Ok(AssignView::Local(name)) => Ok(AssignStepView::Bind(name)),
        Ok(AssignView::Collection(loc)) => Ok(AssignStepView::Replace(loc)),
        Ok(AssignView::Nothing) => Ok(AssignStepView::Nothing),
        Ok(AssignView::Singleton(field)) => match (receiver_gone(p), outcome(value)) {
            (Some(e), _) => Err(e),
            (None, Err(e)) => Err(e),
            (None, Ok(cell)) => match assigned_value(cell, fit, root, field) {
                Err(e) => Err(e),
                Ok(v) => Ok(AssignStepView::Root(field, singleton_set(p.state, root, field, v))),
            },
        },
        Ok(AssignView::Field(row, field)) => match (receiver_gone(p), outcome(value)) {
            (Some(e), _) => Err(e),
            (None, Err(e)) => Err(e),
            (None, Ok(cell)) => match field_value(compiled, row, field, cell, fit) {
                Err(e) => Err(e),
                Ok(v) => match field_set(p.state, row.address, field, v) {
                    Err(e) => Err(e),
                    Ok(fields) => Ok(AssignStepView::Write(row, field, fields)),
                },
            },
        },
    }
}

impl<'a> Interp<'a> {
    /// The value an assignment to a field of a row stores.
    fn take_value(&self, row: &RowTarget, field: &str, value: &Cell, fit: &Fit) -> (r: Result<Value, Rejection>)
        ensures
            outcome(r) == field_value(*self.compiled, row@, field@, value@, *fit),
    {
        proof {
            lemma_cell(*value);
        }
        if let Cell::Scalar(_) = value {
            match self.compiled.collection_at(&row.path) {
                None => {
                    let path = join_texts(&row.path, "/");
                    let message = concat3("unknown collection `", path.as_str(), "`");
                    return Err(Rejection::new(RejectionReason::Malformed, message.as_str()));
                },
                Some(c) => {
                    if c.field(field).is_none() {
                        return assign_value(value, &Fit::Stored, &row.address, field);
                    }
                },
            }
        }
        assign_value(value, fit, &row.address, field)
    }

    /// Tell what an assignment does next.
    pub fn exec_assign(
        &self,
        singletons: &Vec<String>,
        place: &Place,
        value: &Result<Cell, Rejection>,
        fit: &Fit,
        root: &RowAddress,
    ) -> (r: Result<AssignStep, Rejection>)
        ensures
            outcome(r) == assignment(*self.compiled, self@, texts(singletons@), *place, *value, *fit, root@),
    {
        let target = match self.assign_target(singletons, place) {
            Err(e) => {
                return Err(e);
            },
            Ok(target) => target,
        };
        match target {
            AssignTarget::Local(name) => {
                return Ok(AssignStep::Bind(name));
            },
            AssignTarget::Collection(loc) => {
                return Ok(AssignStep::Replace(loc));
            },
            AssignTarget::Nothing => {
                return Ok(AssignStep::Nothing);
            },
            _ => {},
        }
        if let Err(e) = self.current() {
            return Err(e);
        }
        let cell = match value {
            Err(e) => {
                return Err(e.duplicate());
            },
            Ok(cell) => cell,
        };
        match target {
            AssignTarget::Singleton(field) => match assign_value(cell, fit, root, field.as_str()) {
                Err(e) => Err(e),
                Ok(v) => {
                    let fields = self.set_singleton(root, field.as_str(), v);
                    Ok(AssignStep::Root(field, fields))
                },
            },
            AssignTarget::Field(row, field) => match self.take_value(&row, field.as_str(), cell, fit) {
                Err(e) => Err(e),
                Ok(v) => match self.set_field(&row, field.as_str(), v) {
                    Err(e) => Err(e),
                    Ok(fields) => Ok(AssignStep::Write(row, field, fields)),
                },
            },
            _ => Ok(AssignStep::Nothing),
        }
    }
}

} // verus!
