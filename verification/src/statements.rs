//! Statements of a mutation program on one row, on a set-valued field, and on the
//! rows a planned deletion names.

use crate::address::{CollectionPath, RowAddress, StepView};
use crate::cell::{lemma_cell, Cell, CellView};
use crate::interp::resolutions;
use crate::members::{canonical, lemma_take_set};
use crate::model::{name_view, named, struct_named, Compiled, CompiledCollection};
use crate::order::{Duplicate, Key};
use crate::program::{
    key_address, keyed_address, mark, marked, placed, undeclared, unknown_collection, with_drawn, CollectionLoc, Interp,
    ProgramView, RowTarget, TargetView,
};
use crate::refs::{components_of, identity, key_identity, key_value_of, normalize_key_operand, normalized};
use crate::rejection::{outcome, refused, refused_at, Rejection, RejectionReason, RejectionView};
use crate::state::{Fields, FieldsView, StateView};
use crate::table::{lemma_ascending_distinct, lemma_sorted, lemma_sorted_exists, Table};
use crate::text::{copy_texts, texts};
use crate::value::{copy_value, is_absent, lemma_denoted, views, Value, ValueView};
use vstd::prelude::*;

verus! {

/// A program after one resolved row has been inserted, and the row's address. The row
/// draws a generation.
pub open spec fn row_inserted(
    compiled: Compiled,
    p: ProgramView,
    at: (Seq<StepView>, Seq<char>),
    path: Seq<Seq<char>>,
    resolved: Result<FieldsView, RejectionView>,
) -> Result<(ProgramView, Seq<StepView>), RejectionView> {
    if compiled.at(path) is None {
        Err(unknown_collection(path))
    } else {
        match resolved {
            Err(e) => Err(e),
            Ok(row) => match keyed_address(compiled, at, path, row) {
                Err(e) => Err(e),
                Ok(address) => if p.state.contains_key(address) {
                    Err(refused_at(RejectionReason::DuplicateKey, "a row with this key already exists"@, address))
                } else {
                    Ok(
                        (
                            ProgramView {
                                state: p.state.insert(address, row),
                                receiver: p.receiver,
                                touched: marked(p.touched, address),
                                extracts: p.extracts,
                                drawn: p.drawn + 1,
                            },
                            address,
                        ),
                    )
                },
            },
        }
    }
}

/// How many generations the insertion of one row draws, whatever comes of it: one,
/// where its collection is declared.
pub open spec fn row_draws(compiled: Compiled, path: Seq<Seq<char>>) -> nat {
    if compiled.at(path) is None {
        0
    } else {
        1
    }
}

/// What a refused insertion of rows one after the other leaves: the rows before the
/// refused one stay, and that one has drawn its generation.
pub open spec fn rows_left(
    compiled: Compiled,
    p: ProgramView,
    at: (Seq<StepView>, Seq<char>),
    path: Seq<Seq<char>>,
    resolved: Seq<Result<FieldsView, RejectionView>>,
) -> ProgramView
    decreases resolved.len(),
{
    if resolved.len() == 0 {
        p
    } else {
        match rows_inserted(compiled, p, at, path, resolved.drop_last()) {
            Err(_) => rows_left(compiled, p, at, path, resolved.drop_last()),
            Ok(q) => with_drawn(q, 1),
        }
    }
}

/// A program after the rows of a nested collection have been inserted one after the
/// other. The collection has to be declared even where there are none.
pub open spec fn rows_inserted(
    compiled: Compiled,
    p: ProgramView,
    at: (Seq<StepView>, Seq<char>),
    path: Seq<Seq<char>>,
    resolved: Seq<Result<FieldsView, RejectionView>>,
) -> Result<ProgramView, RejectionView>
    decreases resolved.len(),
{
    if resolved.len() == 0 {
        if compiled.at(path) is None {
            Err(unknown_collection(path))
        } else {
            Ok(p)
        }
    } else {
        match rows_inserted(compiled, p, at, path, resolved.drop_last()) {
            Err(e) => Err(e),
            Ok(q) => match row_inserted(compiled, q, at, path, resolved.last()) {
                Err(e) => Err(e),
                Ok((after, _)) => Ok(after),
            },
        }
    }
}

proof fn lemma_rows_refusal(
    compiled: Compiled,
    p: ProgramView,
    at: (Seq<StepView>, Seq<char>),
    path: Seq<Seq<char>>,
    resolved: Seq<Result<FieldsView, RejectionView>>,
    n: int,
)
    requires
        0 <= n <= resolved.len(),
        rows_inserted(compiled, p, at, path, resolved.take(n)) is Err,
    ensures
        rows_inserted(compiled, p, at, path, resolved) == rows_inserted(compiled, p, at, path, resolved.take(n)),
        rows_left(compiled, p, at, path, resolved) == rows_left(compiled, p, at, path, resolved.take(n)),
    decreases resolved.len() - n,
{
    if n == resolved.len() {
        assert(resolved.take(n) =~= resolved);
    } else {
        assert(resolved.take(n + 1).drop_last() =~= resolved.take(n));
        lemma_rows_refusal(compiled, p, at, path, resolved, n + 1);
    }
}

/// What a member of an insert object is for.
#[derive(Debug, Clone, Copy, PartialEq, Eq, Structural)]
pub enum MemberRole {
    /// It supplies rows of a nested collection.
    Initializer,
    /// It supplies a static struct.
    Structure,
    /// It supplies a field of the row itself.
    Field,
}

/// What a member of an insert object is for. Only an explicitly named member can
/// name a nested collection or a static struct.
pub open spec fn role_of(collection: CompiledCollection, name: Option<Seq<char>>) -> MemberRole {
    match name {
        Some(n) => if named(collection.children@, n) is Some {
            MemberRole::Initializer
        } else if struct_named(collection.structs@, n) {
            MemberRole::Structure
        } else {
            MemberRole::Field
        },
        None => MemberRole::Field,
    }
}

/// Decide what a member of an insert object is for.
pub fn member_role(collection: &CompiledCollection, name: &Option<String>) -> (r: MemberRole)
    ensures
        r == role_of(*collection, name_view(*name)),
{
    match name {
        Some(n) => if collection.child(n.as_str()).is_some() {
            MemberRole::Initializer
        } else if collection.has_struct(n.as_str()) {
            MemberRole::Structure
        } else {
            MemberRole::Field
        },
        None => MemberRole::Field,
    }
}

/// The collection `child` nested in the row at `parent`.
pub fn child_loc(parent: &RowAddress, parent_decl: &Vec<String>, child: &str) -> (r: CollectionLoc)
    ensures
        r.store_path@ == (parent@, child@),
        texts(r.decl@) == texts(parent_decl@).push(child@),
{
    let mut decl = copy_texts(parent_decl);
    let ghost before = texts(decl@);
    decl.push(String::from_str(child));
    proof {
        assert(texts(decl@) =~= before.push(child@));
    }
    CollectionLoc { store_path: CollectionPath::nested(parent, String::from_str(child)), decl }
}

/// The fields of a row with one of them set.
pub open spec fn field_set(
    state: StateView,
    address: Seq<StepView>,
    field: Seq<char>,
    value: ValueView,
) -> Result<FieldsView, RejectionView> {
    if state.contains_key(address) {
        Ok(state[address].insert(field, value))
    } else {
        Err(refused_at(RejectionReason::MissingTarget, "the target row does not exist"@, address))
    }
}

impl<'a> Interp<'a> {
    /// Insert one resolved row into a collection. `resolved` is what the row came to
    /// with the generation it draws. A refused row changes nothing but that count.
    pub fn insert_row(&mut self, loc: &CollectionLoc, resolved: Result<Fields, Rejection>) -> (r: Result<
        RowTarget,
        Rejection,
    >)
        ensures
            final(self).compiled == old(self).compiled,
            match (
                r,
                row_inserted(*old(self).compiled, old(self)@, loc.store_path@, texts(loc.decl@), outcome(resolved)),
            ) {
                (Ok(t), Ok((p, address))) => final(self)@ == p && t@ == (TargetView {
                    address,
                    path: texts(loc.decl@),
                }),
                (Err(e), Err(x)) => e@ == x && final(self)@ == with_drawn(
                    old(self)@,
                    row_draws(*old(self).compiled, texts(loc.decl@)),
                ),
                _ => false,
            },
    {
        if self.compiled.collection_at(&loc.decl).is_none() {
            return Err(undeclared(&loc.decl));
        }
        let _generation = self.prospective.next_generation();
        let fields = match resolved {
            Ok(fields) => fields,
            Err(e) => {
                return Err(e);
            },
        };
        let address = match key_address(self.compiled, &loc.store_path, &loc.decl, &fields) {
            Ok(address) => address,
            Err(e) => {
                return Err(e);
            },
        };
        if self.prospective.contains(&address) {
            return Err(
                Rejection::at(RejectionReason::DuplicateKey, "a row with this key already exists", &address),
            );
        }
        self.prospective.insert(address.duplicate(), fields);
        mark(&mut self.touched, address.duplicate());
        Ok(RowTarget { address, path: copy_texts(&loc.decl) })
    }

    /// Insert the rows of a nested collection's initializer under the row at
    /// `parent`, one after the other, each with a generation of its own.
    pub fn stage_initializer(
        &mut self,
        parent: &RowAddress,
        parent_decl: &Vec<String>,
        child: &str,
        resolved: Vec<Result<Fields, Rejection>>,
    ) -> (r: Result<(), Rejection>)
        ensures
            final(self).compiled == old(self).compiled,
            match (
                r,
                rows_inserted(
                    *old(self).compiled,
                    old(self)@,
                    (parent@, child@),
                    texts(parent_decl@).push(child@),
                    resolutions(resolved@),
                ),
            ) {
                (Ok(_), Ok(p)) => final(self)@ == p,
                (Err(e), Err(x)) => e@ == x && final(self)@ == rows_left(
                    *old(self).compiled,
                    old(self)@,
                    (parent@, child@),
                    texts(parent_decl@).push(child@),
                    resolutions(resolved@),
                ),
                _ => false,
            },
    {
        let loc = child_loc(parent, parent_decl, child);
        let ghost all = resolutions(resolved@);
        let ghost start = self@;
        let ghost path = texts(parent_decl@).push(child@);
        let mut i: usize = 0;
        proof {
            assert(all.take(0) =~= Seq::<Result<FieldsView, RejectionView>>::empty());
        }
        if self.compiled.collection_at(&loc.decl).is_none() {
            proof {
                lemma_rows_refusal(*old(self).compiled, start, (parent@, child@), path, all, 0);
            }
            return Err(undeclared(&loc.decl));
        }
        while i < resolved.len()
            invariant
                all == resolutions(resolved@),
                start == old(self)@,
                i <= resolved@.len(),
                self.compiled == old(self).compiled,
                self.compiled.at(path) is Some,
                loc.store_path@ == (parent@, child@),
                texts(loc.decl@) == path,
                path == texts(parent_decl@).push(child@),
                rows_inserted(*old(self).compiled, start, (parent@, child@), path, all.take(i as int)) == Ok::<
                    ProgramView,
                    RejectionView,
                >(self@),
            decreases resolved@.len() - i,
        {
            proof {
                assert(all.take(i + 1).drop_last() =~= all.take(i as int));
                assert(all.take(i + 1).last() == all[i as int]);
            }
            let one = match &resolved[i] {
                Ok(fields) => Ok(fields.duplicate()),
                Err(e) => Err(e.duplicate()),
            };
            proof {
                assert(outcome(one) == all[i as int]);
            }
            if let Err(e) = self.insert_row(&loc, one) {
                proof {
                    lemma_rows_refusal(*old(self).compiled, start, (parent@, child@), path, all, i + 1);
                }
                return Err(e);
            }
            i = i + 1;
        }
        proof {
            assert(all.take(i as int) =~= all);
        }
        Ok(())
    }

    /// The fields of a row with one of them set, for the field's normalizer to see.
    pub fn set_field(&self, row: &RowTarget, field: &str, value: Value) -> (r: Result<Fields, Rejection>)
        ensures
            outcome(r) == field_set(self@.state, row@.address, field@, value@),
    {
        match self.prospective.get(&row.address) {
            None => Err(
                Rejection::at(RejectionReason::MissingTarget, "the target row does not exist", &row.address),
            ),
            Some(existing) => {
                let mut fields = existing.duplicate();
                fields.insert(String::from_str(field), value);
                Ok(fields)
            },
        }
    }

    /// Put the normalized fields of a written row in place.
    pub fn write_field(&mut self, row: &RowTarget, normalized: Result<Fields, Rejection>) -> (r: Result<(), Rejection>)
        ensures
            final(self).compiled == old(self).compiled,
            final(self).prospective.drawn() == old(self).prospective.drawn(),
            match (r, outcome(normalized)) {
                (Err(e), Err(x)) => e@ == x && final(self)@ == old(self)@,
                (_, Ok(fields)) => match (
                    r,
                    placed(*old(self).compiled, old(self)@, row@.address, row@.path, fields),
                ) {
                    (Ok(_), Ok(p)) => final(self)@ == p,
                    (Err(e), Err(x)) => e@ == x && final(self)@ == old(self)@,
                    _ => false,
                },
                _ => false,
            },
    {
        match normalized {
            Err(e) => Err(e),
            Ok(fields) => self.place(&row.address, &row.path, fields),
        }
    }
}

/// The operand members of a set statement: those of a set, or a lone scalar.
pub open spec fn operands(incoming: CellView) -> Result<Seq<ValueView>, RejectionView> {
    match incoming {
        CellView::Scalar(ValueView::Members(members)) => Ok(members),
        CellView::Scalar(v) => Ok(seq![v]),
        _ => Err(refused(RejectionReason::TypeError, "a set mutation takes a member or a set"@)),
    }
}

/// The form in which a set of references stores an operand: a reference and the
/// absence of a value stay, and any other operand is the key of a row.
pub open spec fn stored_member(
    target_key: Option<Seq<Seq<char>>>,
    operand: ValueView,
) -> Result<ValueView, RejectionView> {
    match target_key {
        Some(names) => if operand is Ref || operand is Absent {
            Ok(operand)
        } else {
            match normalized(names, operand) {
                Err(e) => Err(e),
                Ok(key) => Ok(ValueView::Ref(Box::new(identity(names.len(), components_of(key))))),
            }
        },
        None => Ok(operand),
    }
}

/// The members of a set after operands have been added to it, or taken from it, in
/// order. The absence of a value is never a member.
pub open spec fn set_after(
    members: Set<ValueView>,
    target_key: Option<Seq<Seq<char>>>,
    incoming: Seq<ValueView>,
    add: bool,
) -> Result<Set<ValueView>, RejectionView>
    decreases incoming.len(),
{
    if incoming.len() == 0 {
        Ok(members)
    } else {
        match set_after(members, target_key, incoming.drop_last(), add) {
            Err(e) => Err(e),
            Ok(so_far) => if incoming.last() is Absent {
                Ok(so_far)
            } else {
                match stored_member(target_key, incoming.last()) {
                    Err(e) => Err(e),
                    Ok(m) => Ok(
                        if add {
                            so_far.insert(m)
                        } else {
                            so_far.remove(m)
                        },
                    ),
                }
            },
        }
    }
}

proof fn lemma_set_refusal(
    members: Set<ValueView>,
    target_key: Option<Seq<Seq<char>>>,
    incoming: Seq<ValueView>,
    add: bool,
    n: int,
)
    requires
        0 <= n <= incoming.len(),
        set_after(members, target_key, incoming.take(n), add) is Err,
    ensures
        set_after(members, target_key, incoming, add) == set_after(members, target_key, incoming.take(n), add),
    decreases incoming.len() - n,
{
    if n == incoming.len() {
        assert(incoming.take(n) =~= incoming);
    } else {
        assert(incoming.take(n + 1).drop_last() =~= incoming.take(n));
        lemma_set_refusal(members, target_key, incoming, add, n + 1);
    }
}

/// The members a field holds; a field that holds no set has none.
pub open spec fn members_held(value: Option<ValueView>) -> Set<ValueView> {
    match value {
        Some(ValueView::Members(members)) => members.to_set(),
        _ => Set::empty(),
    }
}

/// Bring an operand to the form in which a set of references stores it.
pub fn ref_member(target_key: Option<&Vec<String>>, operand: &Value) -> (r: Result<Value, Rejection>)
    ensures
        outcome(r) == stored_member(
            match target_key {
                Some(names) => Some(texts(names@)),
                None => None,
            },
            operand@,
        ),
{
    let names = match target_key {
        Some(names) => names,
        None => {
            return Ok(copy_value(operand));
        },
    };
    match operand {
        Value::Ref(_) => {
            return Ok(copy_value(operand));
        },
        Value::Absent => {
            return Ok(Value::Absent);
        },
        _ => {},
    }
    match normalize_key_operand(names, copy_value(operand)) {
        Err(e) => Err(e),
        Ok(key) => {
            let components = key_value_of(&key);
            Ok(Value::Ref(Box::new(key_identity(names, &components))))
        },
    }
}

/// The operand members of a set statement.
pub fn set_operands(incoming: Cell) -> (r: Result<Vec<Value>, Rejection>)
    ensures
        match (r, operands(incoming@)) {
            (Ok(v), Ok(s)) => views(v@) == s,
            (Err(e), Err(x)) => e@ == x,
            _ => false,
        },
{
    proof {
        lemma_cell(incoming);
    }
    match incoming {
        Cell::Scalar(value) => {
            proof {
                lemma_denoted(value);
            }
            match value {
                Value::Members(members) => Ok(members),
                other => {
                    let mut one: Vec<Value> = Vec::new();
                    let ghost o = other@;
                    one.push(other);
                    proof {
                        assert(views(one@) =~= seq![o]);
                    }
                    Ok(one)
                },
            }
        },
        _ => Err(Rejection::new(RejectionReason::TypeError, "a set mutation takes a member or a set")),
    }
}

/// The set a field holds after operands have been added to it, or taken from it.
pub fn set_mutate(
    existing: Option<&Value>,
    target_key: Option<&Vec<String>>,
    incoming: &Vec<Value>,
    add: bool,
) -> (r: Result<Value, Rejection>)
    ensures
        ({
            let held = members_held(
                match existing {
                    Some(v) => Some(v@),
                    None => None,
                },
            );
            let names = match target_key {
                Some(names) => Some(texts(names@)),
                None => None,
            };
            match (r, set_after(held, names, views(incoming@), add)) {
                (Ok(v), Ok(s)) => v@ == ValueView::Members(canonical(s)),
                (Err(e), Err(x)) => e@ == x,
                _ => false,
            }
        }),
{
    let ghost held = members_held(
        match existing {
            Some(v) => Some(v@),
            None => None,
        },
    );
    let ghost names = match target_key {
        Some(names) => Some(texts(names@)),
        None => None,
    };
    let ghost all = views(incoming@);
    let mut table: Table<Value, bool> = Table::new();
    if let Some(value) = existing {
        proof {
            lemma_denoted(*value);
        }
        if let Value::Members(members) = value {
            let ghost base = views(members@);
            let mut j: usize = 0;
            proof {
                assert(table@.dom() =~= base.take(0).to_set());
            }
            while j < members.len()
                invariant
                    base == views(members@),
                    j <= members@.len(),
                    table@.dom() == base.take(j as int).to_set(),
                decreases members@.len() - j,
            {
                table.insert(copy_value(&members[j]), true);
                proof {
                    lemma_take_set(base, j as int);
                    assert(table@.dom() =~= base.take(j + 1).to_set());
                }
                j = j + 1;
            }
            proof {
                assert(base.take(j as int) =~= base);
            }
        }
    }
    proof {
        assert(table@.dom() =~= held);
        assert(all.take(0) =~= Seq::<ValueView>::empty());
    }
    let mut i: usize = 0;
    while i < incoming.len()
        invariant
            all == views(incoming@),
            held == members_held(
                match existing {
                    Some(v) => Some(v@),
                    None => None,
                },
            ),
            names == (match target_key {
                Some(names) => Some(texts(names@)),
                None => None,
            }),
            i <= incoming@.len(),
            set_after(held, names, all.take(i as int), add) == Ok::<Set<ValueView>, RejectionView>(table@.dom()),
        decreases incoming@.len() - i,
    {
        let ghost before = table@;
        proof {
            assert(all.take(i + 1).drop_last() =~= all.take(i as int));
            assert(all.take(i + 1).last() == all[i as int]);
        }
        if !is_absent(&incoming[i]) {
            match ref_member(target_key, &incoming[i]) {
                Err(e) => {
                    proof {
                        lemma_set_refusal(held, names, all, add, i + 1);
                    }
                    return Err(e);
                },
                Ok(member) => {
                    let ghost mv = member@;
                    if add {
                        table.insert(member, true);
                        proof {
                            assert(table@.dom() =~= before.dom().insert(mv));
                        }
                    } else {
                        table.remove(&member);
                        proof {
                            assert(table@.dom() =~= before.dom().remove(mv));
                        }
                    }
                },
            }
        }
        i = i + 1;
    }
    proof {
        assert(all.take(i as int) =~= all);
    }
    let n: usize = table.len();
    let mut members: Vec<Value> = Vec::new();
    let mut j: usize = 0;
    while j < n
        invariant
            n == table.keys().len(),
            j <= n,
            members@.len() == j,
            forall|k: int| 0 <= k < j ==> (#[trigger] members@[k])@ == table.keys()[k],
        decreases n - j,
    {
        members.push(table.key_at(j).duplicate());
        j = j + 1;
    }
    let r = Value::Members(members);
    proof {
        assert(views(members@) =~= table.keys());
        lemma_sorted::<Value>(views(members@), table@.dom());
        lemma_denoted(r);
    }
    Ok(r)
}

proof fn lemma_members_kept(
    members: Set<ValueView>,
    target_key: Option<Seq<Seq<char>>>,
    incoming: Seq<ValueView>,
    add: bool,
)
    requires
        set_after(members, target_key, incoming, add) is Ok,
        forall|i: int|
            0 <= i < incoming.len() && !((#[trigger] incoming[i]) is Absent) ==> (stored_member(
                target_key,
                incoming[i],
            ) matches Ok(m) ==> (members.contains(m) == add)),
    ensures
        set_after(members, target_key, incoming, add) == Ok::<Set<ValueView>, RejectionView>(members),
    decreases incoming.len(),
{
    if incoming.len() > 0 {
        let before = incoming.drop_last();
        assert forall|i: int| 0 <= i < before.len() && !((#[trigger] before[i]) is Absent) implies (stored_member(
            target_key,
            before[i],
        ) matches Ok(m) ==> (members.contains(m) == add)) by {
            assert(before[i] == incoming[i]);
        }
        lemma_members_kept(members, target_key, before, add);
        assert(incoming.last() == incoming[incoming.len() - 1]);
        if !(incoming.last() is Absent) {
            let m = stored_member(target_key, incoming.last())->Ok_0;
            if add {
                assert(members.insert(m) =~= members);
            } else {
                assert(members.remove(m) =~= members);
            }
        }
    }
}

/// Adding members a set already has leaves it as it is.
pub proof fn law_add_held(members: Set<ValueView>, target_key: Option<Seq<Seq<char>>>, incoming: Seq<ValueView>)
    requires
        set_after(members, target_key, incoming, true) is Ok,
        forall|i: int|
            0 <= i < incoming.len() && !((#[trigger] incoming[i]) is Absent) ==> (stored_member(
                target_key,
                incoming[i],
            ) matches Ok(m) ==> members.contains(m)),
    ensures
        set_after(members, target_key, incoming, true) == Ok::<Set<ValueView>, RejectionView>(members),
{
    lemma_members_kept(members, target_key, incoming, true);
}

/// Taking members a set does not have leaves it as it is.
pub proof fn law_remove_absent(members: Set<ValueView>, target_key: Option<Seq<Seq<char>>>, incoming: Seq<ValueView>)
    requires
        set_after(members, target_key, incoming, false) is Ok,
        forall|i: int|
            0 <= i < incoming.len() && !((#[trigger] incoming[i]) is Absent) ==> (stored_member(
                target_key,
                incoming[i],
            ) matches Ok(m) ==> !members.contains(m)),
    ensures
        set_after(members, target_key, incoming, false) == Ok::<Set<ValueView>, RejectionView>(members),
{
    lemma_members_kept(members, target_key, incoming, false);
}

/// Whether some operand that is not the absence of a value is stored as this member.
pub open spec fn stored_among(target_key: Option<Seq<Seq<char>>>, incoming: Seq<ValueView>, member: ValueView) -> bool {
    exists|i: int|
        0 <= i < incoming.len() && !((#[trigger] incoming[i]) is Absent) && stored_member(target_key, incoming[i])
            == Ok::<ValueView, RejectionView>(member)
}

proof fn lemma_stored_among(target_key: Option<Seq<Seq<char>>>, incoming: Seq<ValueView>, member: ValueView)
    requires
        incoming.len() > 0,
    ensures
        stored_among(target_key, incoming, member) <==> stored_among(target_key, incoming.drop_last(), member) || (!(
        incoming.last() is Absent) && stored_member(target_key, incoming.last()) == Ok::<ValueView, RejectionView>(
            member,
        )),
{
    let before = incoming.drop_last();
    if stored_among(target_key, before, member) {
        let i = choose|i: int|
            0 <= i < before.len() && !((#[trigger] before[i]) is Absent) && stored_member(target_key, before[i]) == Ok::<
                ValueView,
                RejectionView,
            >(member);
        assert(incoming[i] == before[i]);
    }
    if stored_among(target_key, incoming, member) {
        let i = choose|i: int|
            0 <= i < incoming.len() && !((#[trigger] incoming[i]) is Absent) && stored_member(target_key, incoming[i])
                == Ok::<ValueView, RejectionView>(member);
        if i < before.len() {
            assert(before[i] == incoming[i]);
        }
    }
    assert(incoming[incoming.len() - 1] == incoming.last());
}

/// An accepted addition gives the members held and the stored forms of all operands
/// that are not absent, and nothing else.
pub proof fn law_addition_is_union(
    members: Set<ValueView>,
    target_key: Option<Seq<Seq<char>>>,
    incoming: Seq<ValueView>,
    member: ValueView,
)
    requires
        set_after(members, target_key, incoming, true) is Ok,
    ensures
        set_after(members, target_key, incoming, true)->Ok_0.contains(member) <==> members.contains(member)
            || stored_among(target_key, incoming, member),
    decreases incoming.len(),
{
    if incoming.len() > 0 {
        law_addition_is_union(members, target_key, incoming.drop_last(), member);
        lemma_stored_among(target_key, incoming, member);
    }
}

/// An accepted removal gives the members held that are not the stored form of any
/// operand that is not absent, and nothing else.
pub proof fn law_removal_is_difference(
    members: Set<ValueView>,
    target_key: Option<Seq<Seq<char>>>,
    incoming: Seq<ValueView>,
    member: ValueView,
)
    requires
        set_after(members, target_key, incoming, false) is Ok,
    ensures
        set_after(members, target_key, incoming, false)->Ok_0.contains(member) <==> members.contains(member)
            && !stored_among(target_key, incoming, member),
    decreases incoming.len(),
{
    if incoming.len() > 0 {
        law_removal_is_difference(members, target_key, incoming.drop_last(), member);
        lemma_stored_among(target_key, incoming, member);
    }
}

/// A set statement is refused if and only if an operand that is not absent has no
/// stored form.
pub proof fn law_set_statement_accepted(
    members: Set<ValueView>,
    target_key: Option<Seq<Seq<char>>>,
    incoming: Seq<ValueView>,
    add: bool,
)
    ensures
        set_after(members, target_key, incoming, add) is Ok <==> forall|i: int|
            0 <= i < incoming.len() && !((#[trigger] incoming[i]) is Absent) ==> stored_member(target_key, incoming[i]) is Ok,
    decreases incoming.len(),
{
    if incoming.len() > 0 {
        let before = incoming.drop_last();
        law_set_statement_accepted(members, target_key, before, add);
        assert(incoming[incoming.len() - 1] == incoming.last());
        if set_after(members, target_key, incoming, add) is Ok {
            assert forall|i: int| 0 <= i < incoming.len() && !((#[trigger] incoming[i]) is Absent) implies stored_member(
                target_key,
                incoming[i],
            ) is Ok by {
                if i < before.len() {
                    assert(before[i] == incoming[i]);
                }
            }
        } else if forall|i: int|
            0 <= i < incoming.len() && !((#[trigger] incoming[i]) is Absent) ==> stored_member(target_key, incoming[i]) is Ok {
            assert forall|i: int| 0 <= i < before.len() && !((#[trigger] before[i]) is Absent) implies stored_member(
                target_key,
                before[i],
            ) is Ok by {
                assert(before[i] == incoming[i]);
            }
        }
    }
}

/// A set of plain values stores an operand as it is. A set of references stores every
/// operand as a reference, a reference as itself, and the absence of a value as such.
pub proof fn law_stored_form(target_key: Option<Seq<Seq<char>>>, operand: ValueView)
    ensures
        target_key is None ==> stored_member(target_key, operand) == Ok::<ValueView, RejectionView>(operand),
        operand is Ref || operand is Absent ==> stored_member(target_key, operand) == Ok::<ValueView, RejectionView>(
            operand,
        ),
        target_key is Some && stored_member(target_key, operand) is Ok ==> operand is Absent || stored_member(
            target_key,
            operand,
        )->Ok_0 is Ref,
        target_key matches Some(names) ==> names.len() == 1 && !(operand is Ref) && !(operand is Absent) && !(
        operand is Composite) ==> stored_member(target_key, operand) == Ok::<ValueView, RejectionView>(
            ValueView::Ref(Box::new(operand)),
        ),
{
}

/// The set a statement leaves lists each of its members once, in ascending order.
pub proof fn law_members_listed(held: Seq<ValueView>, target_key: Option<Seq<Seq<char>>>, incoming: Seq<ValueView>, add: bool)
    requires
        set_after(held.to_set(), target_key, incoming, add) is Ok,
    ensures
        ({
            let after = set_after(held.to_set(), target_key, incoming, add)->Ok_0;
            &&& forall|v: ValueView| #[trigger] canonical(after).contains(v) <==> after.contains(v)
            &&& canonical(after).no_duplicates()
            &&& forall|i: int, j: int|
                0 <= i < j < canonical(after).len() ==> Value::before(
                    #[trigger] canonical(after)[i],
                    #[trigger] canonical(after)[j],
                )
        }),
{
    let after = set_after(held.to_set(), target_key, incoming, add)->Ok_0;
    vstd::seq_lib::seq_to_set_is_finite(held);
    lemma_after_finite(held.to_set(), target_key, incoming, add);
    lemma_sorted_exists::<Value>(after);
    let s = canonical(after);
    assert forall|v: ValueView| #[trigger] s.contains(v) <==> after.contains(v) by {
        assert(s.to_set().contains(v) == s.contains(v));
    }
    assert forall|i: int, j: int| 0 <= i < s.len() && 0 <= j < s.len() && i != j implies s[i] != s[j] by {
        if s[i] == s[j] {
            lemma_ascending_distinct::<Value>(s, i, j);
        }
    }
}

proof fn lemma_after_finite(members: Set<ValueView>, target_key: Option<Seq<Seq<char>>>, incoming: Seq<ValueView>, add: bool)
    requires
        members.finite(),
        set_after(members, target_key, incoming, add) is Ok,
    ensures
        set_after(members, target_key, incoming, add)->Ok_0.finite(),
    decreases incoming.len(),
{
    if incoming.len() > 0 {
        lemma_after_finite(members, target_key, incoming.drop_last(), add);
    }
}

} // verus!
