//! Deletions: what a delete statement targets, and applying a planned deletion.

use crate::address::{top_address, CollectionPath, RowAddress, StepView};
use crate::interp::{ref_views, remove_subtree, without_subtree, RowRef, RowRefView};
use crate::members::{canonical, canonical_members, holds_value};
use crate::order::Duplicate;
use crate::program::{placed, Interp, ProgramView};
use crate::model::Compiled;
use crate::refs::{components_of, key_value_of, normalize_key_operand, normalized};
use crate::rejection::{outcome, Rejection, RejectionView};
use crate::state::{address_views, Fields, FieldsView, Prospective, StateView};
use crate::text::texts;
use crate::value::{copy_value, lemma_denoted, views, Value, ValueView};
use vstd::prelude::*;

verus! {

/// The identities of key operands, in order, or the first refusal.
pub open spec fn all_normalized(names: Seq<Seq<char>>, operands: Seq<ValueView>) -> Result<Seq<ValueView>, RejectionView>
    decreases operands.len(),
{
    if operands.len() == 0 {
        Ok(Seq::empty())
    } else {
        match all_normalized(names, operands.drop_last()) {
            Err(e) => Err(e),
            Ok(keys) => match normalized(names, operands.last()) {
                Err(e) => Err(e),
                Ok(key) => Ok(keys.push(key)),
            },
        }
    }
}

proof fn lemma_normalized_refusal(names: Seq<Seq<char>>, operands: Seq<ValueView>, n: int)
    requires
        0 <= n <= operands.len(),
        all_normalized(names, operands.take(n)) is Err,
    ensures
        all_normalized(names, operands) == all_normalized(names, operands.take(n)),
    decreases operands.len() - n,
{
    if n == operands.len() {
        assert(operands.take(n) =~= operands);
    } else {
        assert(operands.take(n + 1).drop_last() =~= operands.take(n));
        lemma_normalized_refusal(names, operands, n + 1);
    }
}

/// The key operands of a delete statement: every member of a set, or a lone value.
pub open spec fn key_operands(value: ValueView) -> Seq<ValueView> {
    match value {
        ValueView::Members(members) => members,
        _ => seq![value],
    }
}

/// The identities a `collection - keys` statement deletes, in order.
pub fn delete_key_values(key_fields: &Vec<String>, keys: Value) -> (r: Result<Vec<Value>, Rejection>)
    ensures
        match (r, all_normalized(texts(key_fields@), key_operands(keys@))) {
            (Ok(v), Ok(s)) => views(v@) == s,
            (Err(e), Err(x)) => e@ == x,
            _ => false,
        },
{
    proof {
        lemma_denoted(keys);
    }
    let operands: Vec<Value> = match keys {
        Value::Members(members) => members,
        other => {
            let mut one: Vec<Value> = Vec::new();
            let ghost o = other@;
            one.push(other);
            proof {
                assert(views(one@) =~= seq![o]);
            }
            one
        },
    };
    let ghost all = views(operands@);
    let mut r: Vec<Value> = Vec::new();
    let mut i: usize = 0;
    proof {
        assert(all.take(0) =~= Seq::<ValueView>::empty());
        assert(views(r@) =~= Seq::<ValueView>::empty());
    }
    while i < operands.len()
        invariant
            all == views(operands@),
            all == key_operands(keys@),
            i <= operands@.len(),
            all_normalized(texts(key_fields@), all.take(i as int)) == Ok::<Seq<ValueView>, RejectionView>(views(r@)),
        decreases operands@.len() - i,
    {
        let ghost prior = views(r@);
        proof {
            assert(all.take(i + 1).drop_last() =~= all.take(i as int));
            assert(all.take(i + 1).last() == all[i as int]);
        }
        match normalize_key_operand(key_fields, copy_value(&operands[i])) {
            Ok(key) => {
                let ghost k = key@;
                r.push(key);
                proof {
                    assert(views(r@) =~= prior.push(k));
                }
            },
            Err(e) => {
                proof {
                    lemma_normalized_refusal(texts(key_fields@), all, i + 1);
                }
                return Err(e);
            },
        }
        i = i + 1;
    }
    proof {
        assert(all.take(i as int) =~= all);
    }
    Ok(r)
}

/// Each value once, where it first occurs.
pub open spec fn first_occurrences(values: Seq<ValueView>) -> Seq<ValueView>
    decreases values.len(),
{
    if values.len() == 0 {
        Seq::empty()
    } else {
        let rest = first_occurrences(values.drop_last());
        if rest.contains(values.last()) {
            rest
        } else {
            rest.push(values.last())
        }
    }
}

/// Keep each key once, where it first occurs.
pub fn distinct_keys(keys: Vec<Value>) -> (r: Vec<Value>)
    ensures
        views(r@) == first_occurrences(views(keys@)),
{
    let ghost all = views(keys@);
    let mut r: Vec<Value> = Vec::new();
    let mut i: usize = 0;
    proof {
        assert(all.take(0) =~= Seq::<ValueView>::empty());
        assert(views(r@) =~= Seq::<ValueView>::empty());
    }
    while i < keys.len()
        invariant
            all == views(keys@),
            i <= keys@.len(),
            views(r@) == first_occurrences(all.take(i as int)),
        decreases keys@.len() - i,
    {
        let ghost prior = views(r@);
        proof {
            assert(all.take(i + 1).drop_last() =~= all.take(i as int));
            assert(all.take(i + 1).last() == all[i as int]);
        }
        if !holds_value(&r, &keys[i]) {
            r.push(copy_value(&keys[i]));
            proof {
                assert(views(r@) =~= prior.push(all[i as int]));
            }
        }
        i = i + 1;
    }
    proof {
        assert(all.take(i as int) =~= all);
    }
    r
}

/// The address a row with this identity has in a top-level collection.
pub open spec fn address_of(collection: Seq<char>, key: ValueView) -> Seq<StepView> {
    seq![StepView { name: collection, key: components_of(key) }]
}

/// The addresses of the rows with these identities that the state holds, in order.
pub open spec fn held_rows(state: StateView, collection: Seq<char>, keys: Seq<ValueView>) -> Seq<Seq<StepView>>
    decreases keys.len(),
{
    if keys.len() == 0 {
        Seq::empty()
    } else {
        let rest = held_rows(state, collection, keys.drop_last());
        if state.contains_key(address_of(collection, keys.last())) {
            rest.push(address_of(collection, keys.last()))
        } else {
            rest
        }
    }
}

/// What a delete statement captures of a top-level collection before the rows go,
/// and what it deletes: each key once, and of those the rows that exist.
pub fn bind_deleted(prospective: &Prospective, collection: &str, keys: Vec<Value>) -> (r: (
    Vec<RowAddress>,
    Vec<RowRef>,
))
    ensures
        address_views(r.0@) == held_rows(
            prospective@,
            collection@,
            first_occurrences(views(keys@)),
        ),
        ref_views(r.1@) == refs_to(collection@, first_occurrences(views(keys@))),
{
    let ordered = distinct_keys(keys);
    let ghost all = views(ordered@);
    let mut rows: Vec<RowAddress> = Vec::new();
    let mut refs: Vec<RowRef> = Vec::new();
    let mut i: usize = 0;
    proof {
        assert(all.take(0) =~= Seq::<ValueView>::empty());
        assert(address_views(rows@) =~= Seq::<Seq<StepView>>::empty());
    }
    while i < ordered.len()
        invariant
            all == views(ordered@),
            i <= ordered@.len(),
            address_views(rows@) == held_rows(prospective@, collection@, all.take(i as int)),
            refs@.len() == i,
            forall|j: int|
                0 <= j < i ==> (#[trigger] refs@[j])@ == (RowRefView { collection: collection@, key: all[j] }),
        decreases ordered@.len() - i,
    {
        let ghost prior = address_views(rows@);
        proof {
            assert(all.take(i + 1).drop_last() =~= all.take(i as int));
            assert(all.take(i + 1).last() == all[i as int]);
        }
        let address = top_address(collection, key_value_of(&ordered[i]));
        let ghost a = address@;
        if prospective.contains(&address) {
            rows.push(address);
            proof {
                assert(address_views(rows@) =~= prior.push(a));
            }
        }
        refs.push(RowRef { collection: String::from_str(collection), key: copy_value(&ordered[i]) });
        i = i + 1;
    }
    proof {
        assert(all.take(i as int) =~= all);
        assert(ref_views(refs@) =~= refs_to(collection@, all));
    }
    (rows, refs)
}

/// Rows of a collection, by identity.
pub open spec fn refs_to(collection: Seq<char>, keys: Seq<ValueView>) -> Seq<RowRefView> {
    Seq::new(keys.len(), |i: int| RowRefView { collection, key: keys[i] })
}

/// The state after the rows with these keys have been removed from a nested
/// collection, each with its subtree.
pub open spec fn nested_removed(
    state: StateView,
    at: (Seq<StepView>, Seq<char>),
    keys: Seq<ValueView>,
) -> StateView
    decreases keys.len(),
{
    if keys.len() == 0 {
        state
    } else {
        without_subtree(
            nested_removed(state, at, keys.drop_last()),
            at.0.push(StepView { name: at.1, key: components_of(keys.last()) }),
        )
    }
}

/// Remove the rows with these keys from a nested collection, each with its subtree.
pub fn delete_nested(prospective: &mut Prospective, at: &CollectionPath, keys: &Vec<Value>)
    ensures
        final(prospective)@ == nested_removed(old(prospective)@, at@, views(keys@)),
        final(prospective).drawn() == old(prospective).drawn(),
{
    let ghost all = views(keys@);
    let ghost start = prospective@;
    let mut i: usize = 0;
    proof {
        assert(all.take(0) =~= Seq::<ValueView>::empty());
    }
    while i < keys.len()
        invariant
            all == views(keys@),
            i <= keys@.len(),
            prospective.drawn() == old(prospective).drawn(),
            prospective@ == nested_removed(start, at@, all.take(i as int)),
        decreases keys@.len() - i,
    {
        proof {
            assert(all.take(i + 1).drop_last() =~= all.take(i as int));
            assert(all.take(i + 1).last() == all[i as int]);
        }
        let address = at.row(key_value_of(&keys[i]));
        remove_subtree(prospective, &address);
        i = i + 1;
    }
    proof {
        assert(all.take(i as int) =~= all);
    }
}

/// A row a planned deletion removes.
pub struct DeletedRow {
    pub row: RowRef,
    pub address: Option<RowAddress>,
}

/// A surviving row a planned deletion patches, with what its patched fields were
/// normalized to.
pub struct PatchedRow {
    pub row: RowRef,
    pub address: Option<RowAddress>,
    pub patch: Vec<(String, Value)>,
    pub normalized: Result<Fields, Rejection>,
}

/// A surviving row from whose set-valued fields a planned deletion takes members.
pub struct ThinnedRow {
    pub row: RowRef,
    pub address: Option<RowAddress>,
    pub removals: Vec<(String, Vec<Value>)>,
}

/// A planned deletion: the closure of removed rows, and what happens to the rows
/// that referenced them.
pub struct PlannedDeletion {
    pub deletes: Vec<DeletedRow>,
    pub patches: Vec<PatchedRow>,
    pub member_removals: Vec<ThinnedRow>,
}

/// A state without the rows a plan removes.
pub open spec fn after_deletes(state: StateView, deletes: Seq<DeletedRow>) -> StateView
    decreases deletes.len(),
{
    if deletes.len() == 0 {
        state
    } else {
        let rest = after_deletes(state, deletes.drop_last());
        match deletes.last().address {
            Some(a) => rest.remove(a@),
            None => rest,
        }
    }
}

/// A row with a patch written over it.
pub open spec fn patched(row: FieldsView, patch: Seq<(String, Value)>) -> FieldsView
    decreases patch.len(),
{
    if patch.len() == 0 {
        row
    } else {
        patched(row, patch.drop_last()).insert(patch.last().0@, patch.last().1@)
    }
}

/// Write a patch over a row's fields, for the fields' normalizers to see.
pub fn patch_fields(original: &Fields, patch: &Vec<(String, Value)>) -> (r: Fields)
    ensures
        r@ == patched(original@, patch@),
{
    let mut r = original.duplicate();
    let mut i: usize = 0;
    proof {
        assert(patch@.take(0) =~= Seq::<(String, Value)>::empty());
    }
    while i < patch.len()
        invariant
            i <= patch@.len(),
            r@ == patched(original@, patch@.take(i as int)),
        decreases patch@.len() - i,
    {
        proof {
            assert(patch@.take(i + 1).drop_last() =~= patch@.take(i as int));
            assert(patch@.take(i + 1).last() == patch@[i as int]);
        }
        r.insert(patch[i].0.clone(), copy_value(&patch[i].1));
        i = i + 1;
    }
    proof {
        assert(patch@.take(i as int) =~= patch@);
    }
    r
}

/// A program after one patched row has been put in place. A row that is gone is
/// passed over.
pub open spec fn after_patch(compiled: Compiled, p: ProgramView, row: PatchedRow) -> Result<ProgramView, RejectionView> {
    match row.address {
        Some(a) if p.state.contains_key(a@) => match outcome(row.normalized) {
            Err(e) => Err(e),
            Ok(fields) => placed(compiled, p, a@, seq![row.row.collection@], fields),
        },
        _ => Ok(p),
    }
}

/// A program after patched rows have been put in place, in order.
pub open spec fn after_patches(compiled: Compiled, p: ProgramView, rows: Seq<PatchedRow>) -> Result<
    ProgramView,
    RejectionView,
>
    decreases rows.len(),
{
    if rows.len() == 0 {
        Ok(p)
    } else {
        match after_patches(compiled, p, rows.drop_last()) {
            Err(e) => Err(e),
            Ok(q) => after_patch(compiled, q, rows.last()),
        }
    }
}

/// A row after members have been taken from one of its set-valued fields; a field
/// that holds no set stays.
pub open spec fn thinned_field(row: FieldsView, field: Seq<char>, members: Seq<ValueView>) -> FieldsView {
    if row.contains_key(field) && row[field] is Members {
        row.insert(
            field,
            ValueView::Members(canonical(row[field]->Members_0.to_set().difference(members.to_set()))),
        )
    } else {
        row
    }
}

/// A row after members have been taken from its set-valued fields, in order.
pub open spec fn thinned(row: FieldsView, removals: Seq<(String, Vec<Value>)>) -> FieldsView
    decreases removals.len(),
{
    if removals.len() == 0 {
        row
    } else {
        thinned_field(
            thinned(row, removals.drop_last()),
            removals.last().0@,
            views(removals.last().1@),
        )
    }
}

/// A program after members have been taken from one row.
pub open spec fn after_removal(compiled: Compiled, p: ProgramView, row: ThinnedRow) -> Result<ProgramView, RejectionView> {
    match row.address {
        Some(a) if p.state.contains_key(a@) => placed(
            compiled,
            p,
            a@,
            seq![row.row.collection@],
            thinned(p.state[a@], row.removals@),
        ),
        _ => Ok(p),
    }
}

/// A program after members have been taken from several rows, in order.
pub open spec fn after_removals(compiled: Compiled, p: ProgramView, rows: Seq<ThinnedRow>) -> Result<
    ProgramView,
    RejectionView,
>
    decreases rows.len(),
{
    if rows.len() == 0 {
        Ok(p)
    } else {
        match after_removals(compiled, p, rows.drop_last()) {
            Err(e) => Err(e),
            Ok(q) => after_removal(compiled, q, rows.last()),
        }
    }
}

/// A program after a planned deletion: the removed rows go, then the patched rows
/// are put in place, then members are taken from the surviving sets.
pub open spec fn deletion_applied(compiled: Compiled, p: ProgramView, plan: PlannedDeletion) -> Result<
    ProgramView,
    RejectionView,
> {
    let removed = ProgramView {
        state: after_deletes(p.state, plan.deletes@),
        receiver: p.receiver,
        touched: p.touched,
        extracts: p.extracts,
        drawn: p.drawn,
    };
    match after_patches(compiled, removed, plan.patches@) {
        Err(e) => Err(e),
        Ok(q) => after_removals(compiled, q, plan.member_removals@),
    }
}

/// What refused patches of a deletion leave: the rows before the refused one are in
/// place.
pub open spec fn patches_left(compiled: Compiled, p: ProgramView, rows: Seq<PatchedRow>) -> ProgramView
    decreases rows.len(),
{
    if rows.len() == 0 {
        p
    } else {
        match after_patches(compiled, p, rows.drop_last()) {
            Err(_) => patches_left(compiled, p, rows.drop_last()),
            Ok(q) => q,
        }
    }
}

/// What refused removals of members leave: the rows before the refused one are thinned.
pub open spec fn removals_left(compiled: Compiled, p: ProgramView, rows: Seq<ThinnedRow>) -> ProgramView
    decreases rows.len(),
{
    if rows.len() == 0 {
        p
    } else {
        match after_removals(compiled, p, rows.drop_last()) {
            Err(_) => removals_left(compiled, p, rows.drop_last()),
            Ok(q) => q,
        }
    }
}

/// What a refused deletion leaves.
pub open spec fn deletion_left(compiled: Compiled, p: ProgramView, plan: PlannedDeletion) -> ProgramView {
    let removed = ProgramView {
        state: after_deletes(p.state, plan.deletes@),
        receiver: p.receiver,
        touched: p.touched,
        extracts: p.extracts,
        drawn: p.drawn,
    };
    match after_patches(compiled, removed, plan.patches@) {
        Err(_) => patches_left(compiled, removed, plan.patches@),
        Ok(q) => removals_left(compiled, q, plan.member_removals@),
    }
}

proof fn lemma_patches_refusal(compiled: Compiled, p: ProgramView, rows: Seq<PatchedRow>, n: int)
    requires
        0 <= n <= rows.len(),
        after_patches(compiled, p, rows.take(n)) is Err,
    ensures
        after_patches(compiled, p, rows) == after_patches(compiled, p, rows.take(n)),
        patches_left(compiled, p, rows) == patches_left(compiled, p, rows.take(n)),
    decreases rows.len() - n,
{
    if n == rows.len() {
        assert(rows.take(n) =~= rows);
    } else {
        assert(rows.take(n + 1).drop_last() =~= rows.take(n));
        lemma_patches_refusal(compiled, p, rows, n + 1);
    }
}

proof fn lemma_removals_refusal(compiled: Compiled, p: ProgramView, rows: Seq<ThinnedRow>, n: int)
    requires
        0 <= n <= rows.len(),
        after_removals(compiled, p, rows.take(n)) is Err,
    ensures
        after_removals(compiled, p, rows) == after_removals(compiled, p, rows.take(n)),
        removals_left(compiled, p, rows) == removals_left(compiled, p, rows.take(n)),
    decreases rows.len() - n,
{
    if n == rows.len() {
        assert(rows.take(n) =~= rows);
    } else {
        assert(rows.take(n + 1).drop_last() =~= rows.take(n));
        lemma_removals_refusal(compiled, p, rows, n + 1);
    }
}

/// Take members from one set-valued field.
fn thin_field(fields: &mut Fields, field: &String, members: &Vec<Value>)
    ensures
        final(fields)@ == thinned_field(old(fields)@, field@, views(members@)),
{
    let kept: Option<Vec<Value>> = match fields.get(field) {
        Some(Value::Members(held)) => {
            proof {
                lemma_denoted(Value::Members(*held));
            }
            let mut kept: Vec<Value> = Vec::new();
            let ghost all = views(held@);
            let mut i: usize = 0;
            while i < held.len()
                invariant
                    all == views(held@),
                    i <= held@.len(),
                    forall|v: ValueView| #[trigger]
                        views(kept@).contains(v) <==> all.take(i as int).contains(v) && !views(members@).contains(v),
                decreases held@.len() - i,
            {
                let ghost prior = views(kept@);
                let ghost t = all.take(i as int);
                let ghost u = all.take(i + 1);
                if !holds_value(members, &held[i]) {
                    kept.push(copy_value(&held[i]));
                    proof {
                        assert(views(kept@) =~= prior.push(all[i as int]));
                    }
                }
                proof {
                    assert(u =~= t.push(all[i as int]));
                    assert forall|v: ValueView| #[trigger] views(kept@).contains(v) <==> u.contains(v) && !views(
                        members@,
                    ).contains(v) by {
                        if t.contains(v) {
                            let q = choose|q: int| 0 <= q < t.len() && t[q] == v;
                            assert(u[q] == v);
                        }
                        if u.contains(v) && v != all[i as int] {
                            let q = choose|q: int| 0 <= q < u.len() && u[q] == v;
                            assert(t[q] == v);
                        }
                        assert(u[i as int] == all[i as int]);
                        assert(prior.contains(v) <==> t.contains(v) && !views(members@).contains(v));
                        if views(kept@) != prior {
                            if prior.contains(v) {
                                let q = choose|q: int| 0 <= q < prior.len() && prior[q] == v;
                                assert(views(kept@)[q] == v);
                            }
                            assert(views(kept@)[prior.len() as int] == all[i as int]);
                            if views(kept@).contains(v) && v != all[i as int] {
                                let q = choose|q: int| 0 <= q < views(kept@).len() && views(kept@)[q] == v;
                                assert(prior[q] == v);
                            }
                        }
                    }
                }
                i = i + 1;
            }
            proof {
                assert(all.take(i as int) =~= all);
                assert(views(kept@).to_set() =~= all.to_set().difference(views(members@).to_set()));
            }
            Some(canonical_members(&kept))
        },
        Some(other) => {
            proof {
                lemma_denoted(*other);
            }
            None
        },
        None => None,
    };
    if let Some(members) = kept {
        let value = Value::Members(members);
        proof {
            lemma_denoted(value);
        }
        fields.insert(field.clone(), value);
    }
}

/// Take members from a row's set-valued fields.
pub fn thin_fields(original: &Fields, removals: &Vec<(String, Vec<Value>)>) -> (r: Fields)
    ensures
        r@ == thinned(original@, removals@),
{
    let mut r = original.duplicate();
    let mut i: usize = 0;
    proof {
        assert(removals@.take(0) =~= Seq::<(String, Vec<Value>)>::empty());
    }
    while i < removals.len()
        invariant
            i <= removals@.len(),
            r@ == thinned(original@, removals@.take(i as int)),
        decreases removals@.len() - i,
    {
        proof {
            assert(removals@.take(i + 1).drop_last() =~= removals@.take(i as int));
            assert(removals@.take(i + 1).last() == removals@[i as int]);
        }
        thin_field(&mut r, &removals[i].0, &removals[i].1);
        i = i + 1;
    }
    proof {
        assert(removals@.take(i as int) =~= removals@);
    }
    r
}

impl<'a> Interp<'a> {
    /// Remove the rows a plan removes.
    fn remove_planned(&mut self, deletes: &Vec<DeletedRow>)
        ensures
            final(self).compiled == old(self).compiled,
            final(self)@.state == after_deletes(old(self)@.state, deletes@),
            final(self)@.receiver == old(self)@.receiver,
            final(self)@.touched == old(self)@.touched,
            final(self)@.extracts == old(self)@.extracts,
            final(self)@.drawn == old(self)@.drawn,
    {
        let ghost start = self@;
        let mut i: usize = 0;
        proof {
            assert(deletes@.take(0) =~= Seq::<DeletedRow>::empty());
        }
        while i < deletes.len()
            invariant
                i <= deletes@.len(),
                self.compiled == old(self).compiled,
                self@.state == after_deletes(start.state, deletes@.take(i as int)),
                self@.receiver == start.receiver,
                self@.touched == start.touched,
                self@.extracts == start.extracts,
                self@.drawn == start.drawn,
            decreases deletes@.len() - i,
        {
            proof {
                assert(deletes@.take(i + 1).drop_last() =~= deletes@.take(i as int));
                assert(deletes@.take(i + 1).last() == deletes@[i as int]);
            }
            if let Some(address) = &deletes[i].address {
                self.prospective.remove(address);
            }
            i = i + 1;
        }
        proof {
            assert(deletes@.take(i as int) =~= deletes@);
        }
    }

    fn apply_patched(&mut self, row: &PatchedRow) -> (r: Result<(), Rejection>)
        ensures
            final(self).compiled == old(self).compiled,
            final(self).prospective.drawn() == old(self).prospective.drawn(),
            match (r, after_patch(*old(self).compiled, old(self)@, *row)) {
                (Ok(_), Ok(p)) => final(self)@ == p,
                (Err(e), Err(x)) => e@ == x && final(self)@ == old(self)@,
                _ => false,
            },
    {
        let address = match &row.address {
            Some(address) => address,
            None => {
                return Ok(());
            },
        };
        if !self.prospective.contains(address) {
            return Ok(());
        }
        match &row.normalized {
            Err(e) => Err(e.duplicate()),
            Ok(fields) => {
                let mut path: Vec<String> = Vec::new();
                path.push(row.row.collection.clone());
                proof {
                    assert(texts(path@) =~= seq![row.row.collection@]);
                }
                self.place(address, &path, fields.duplicate())
            },
        }
    }

    fn apply_thinned(&mut self, row: &ThinnedRow) -> (r: Result<(), Rejection>)
        ensures
            final(self).compiled == old(self).compiled,
            final(self).prospective.drawn() == old(self).prospective.drawn(),
            match (r, after_removal(*old(self).compiled, old(self)@, *row)) {
                (Ok(_), Ok(p)) => final(self)@ == p,
                (Err(e), Err(x)) => e@ == x && final(self)@ == old(self)@,
                _ => false,
            },
    {
        let address = match &row.address {
            Some(address) => address,
            None => {
                return Ok(());
            },
        };
        let fields = match self.prospective.get(address) {
            Some(existing) => thin_fields(existing, &row.removals),
            None => {
                return Ok(());
            },
        };
        let mut path: Vec<String> = Vec::new();
        path.push(row.row.collection.clone());
        proof {
            assert(texts(path@) =~= seq![row.row.collection@]);
        }
        self.place(address, &path, fields)
    }

    /// Apply a planned deletion.
    pub fn apply_deletion(&mut self, plan: &PlannedDeletion) -> (r: Result<(), Rejection>)
        ensures
            final(self).compiled == old(self).compiled,
            final(self).prospective.drawn() == old(self).prospective.drawn(),
            match (r, deletion_applied(*old(self).compiled, old(self)@, *plan)) {
                (Ok(_), Ok(p)) => final(self)@ == p,
                (Err(e), Err(x)) => e@ == x && final(self)@ == deletion_left(
                    *old(self).compiled,
                    old(self)@,
                    *plan,
                ),
                _ => false,
            },
    {
        self.remove_planned(&plan.deletes);
        let ghost removed = self@;
        let mut i: usize = 0;
        proof {
            assert(plan.patches@.take(0) =~= Seq::<PatchedRow>::empty());
        }
        while i < plan.patches.len()
            invariant
                i <= plan.patches@.len(),
                self.compiled == old(self).compiled,
                self.prospective.drawn() == old(self).prospective.drawn(),
                removed == (ProgramView {
                    state: after_deletes(old(self)@.state, plan.deletes@),
                    receiver: old(self)@.receiver,
                    touched: old(self)@.touched,
                    extracts: old(self)@.extracts,
                    drawn: old(self)@.drawn,
                }),
                after_patches(*old(self).compiled, removed, plan.patches@.take(i as int)) == Ok::<
                    ProgramView,
                    RejectionView,
                >(self@),
            decreases plan.patches@.len() - i,
        {
            proof {
                assert(plan.patches@.take(i + 1).drop_last() =~= plan.patches@.take(i as int));
                assert(plan.patches@.take(i + 1).last() == plan.patches@[i as int]);
            }
            if let Err(e) = self.apply_patched(&plan.patches[i]) {
                proof {
                    lemma_patches_refusal(*old(self).compiled, removed, plan.patches@, i + 1);
                }
                return Err(e);
            }
            i = i + 1;
        }
        let ghost thinner = self@;
        proof {
            assert(plan.patches@.take(i as int) =~= plan.patches@);
            assert(plan.member_removals@.take(0) =~= Seq::<ThinnedRow>::empty());
        }
        let mut j: usize = 0;
        while j < plan.member_removals.len()
            invariant
                j <= plan.member_removals@.len(),
                self.compiled == old(self).compiled,
                self.prospective.drawn() == old(self).prospective.drawn(),
                removed == (ProgramView {
                    state: after_deletes(old(self)@.state, plan.deletes@),
                    receiver: old(self)@.receiver,
                    touched: old(self)@.touched,
                    extracts: old(self)@.extracts,
                    drawn: old(self)@.drawn,
                }),
                after_patches(*old(self).compiled, removed, plan.patches@) == Ok::<ProgramView, RejectionView>(thinner),
                after_removals(*old(self).compiled, thinner, plan.member_removals@.take(j as int)) == Ok::<
                    ProgramView,
                    RejectionView,
                >(self@),
            decreases plan.member_removals@.len() - j,
        {
            proof {
                assert(plan.member_removals@.take(j + 1).drop_last() =~= plan.member_removals@.take(j as int));
                assert(plan.member_removals@.take(j + 1).last() == plan.member_removals@[j as int]);
            }
            if let Err(e) = self.apply_thinned(&plan.member_removals[j]) {
                proof {
                    lemma_removals_refusal(*old(self).compiled, thinner, plan.member_removals@, j + 1);
                }
                return Err(e);
            }
            j = j + 1;
        }
        proof {
            assert(plan.member_removals@.take(j as int) =~= plan.member_removals@);
        }
        Ok(())
    }
}

/// Deleting takes exactly the rows of the plan: they are gone, and every other row is as
/// it was.
pub proof fn law_deletes_exact(state: StateView, deletes: Seq<DeletedRow>, at: Seq<StepView>)
    ensures
        after_deletes(state, deletes).contains_key(at) <==> state.contains_key(at) && !in_plan(deletes, at),
        after_deletes(state, deletes).contains_key(at) ==> after_deletes(state, deletes)[at] == state[at],
    decreases deletes.len(),
{
    if deletes.len() > 0 {
        law_deletes_exact(state, deletes.drop_last(), at);
        let before = deletes.drop_last();
        let last = deletes.last();
        if in_plan(before, at) {
            let i = choose|i: int| 0 <= i < before.len() && is_delete_of(before[i], at);
            assert(is_delete_of(deletes[i], at));
        }
        if in_plan(deletes, at) && !in_plan(before, at) {
            let i = choose|i: int| 0 <= i < deletes.len() && is_delete_of(deletes[i], at);
            if i < before.len() {
                assert(is_delete_of(before[i], at));
            }
            assert(is_delete_of(last, at));
        }
        if is_delete_of(last, at) {
            assert(is_delete_of(deletes[deletes.len() - 1], at));
        }
    }
}

/// Whether a removed row is the one at an address.
pub open spec fn is_delete_of(row: DeletedRow, at: Seq<StepView>) -> bool {
    row.address matches Some(a) && a@ == at
}

/// Whether a plan removes the row at an address.
pub open spec fn in_plan(deletes: Seq<DeletedRow>, at: Seq<StepView>) -> bool {
    exists|i: int| 0 <= i < deletes.len() && is_delete_of(#[trigger] deletes[i], at)
}

} // verus!
