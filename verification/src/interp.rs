//! Row statements of a mutation program: insert, replace, remove.
//!
//! An expression is evaluated, and a row's defaults and normalizers run, before
//! these functions are called; what they came to is an argument.

use crate::address::{below, in_collection, RowAddress, StepView};
use crate::cell::{cell_views, lemma_cell, lemma_row, row_views, Cell, CellView, Row, RowView};
use crate::model::Compiled;
use crate::order::Duplicate;
use crate::program::{
    key_address, keyed_address, mark, marked_all, undeclared, unknown_collection, with_drawn, CollectionLoc, Interp,
    ProgramView,
};
use crate::refs::{identity, key_identity};
use crate::rejection::{outcome, refused, refused_at, Rejection, RejectionReason, RejectionView};
use crate::state::{address_views, rows_of, Fields, FieldsView, Prospective, StateView};
use crate::table::{lemma_sorted_exists, Table};
use crate::text::{concat3, texts};
use crate::value::{copy_value, Value, ValueView};
use vstd::prelude::*;

verus! {

/// The scalar cells of a row as fields; a later cell of a name wins.
pub open spec fn scalars(cells: Seq<(Seq<char>, CellView)>) -> FieldsView
    decreases cells.len(),
{
    if cells.len() == 0 {
        Map::empty()
    } else {
        let rest = scalars(cells.drop_last());
        match cells.last().1 {
            CellView::Scalar(v) => rest.insert(cells.last().0, v),
            _ => rest,
        }
    }
}

/// The fields a source row supplies: its scalar cells.
pub fn row_fields(row: &Row) -> (r: Fields)
    ensures
        r@ == scalars(row@.cells),
{
    proof {
        lemma_row(*row);
    }
    let ghost all = cell_views(row.cells@);
    let mut fields: Fields = Table::new();
    let mut i: usize = 0;
    proof {
        assert(all.take(0) =~= Seq::<(Seq<char>, CellView)>::empty());
    }
    while i < row.cells.len()
        invariant
            all == cell_views(row.cells@),
            i <= row.cells@.len(),
            fields@ == scalars(all.take(i as int)),
        decreases row.cells@.len() - i,
    {
        proof {
            assert(all.take(i + 1).drop_last() =~= all.take(i as int));
            assert(all.take(i + 1).last() == all[i as int]);
            lemma_cell(row.cells@[i as int].1);
        }
        if let Cell::Scalar(value) = &row.cells[i].1 {
            fields.insert(row.cells[i].0.clone(), copy_value(value));
        }
        i = i + 1;
    }
    proof {
        assert(all.take(i as int) =~= all);
    }
    fields
}

/// What the rows of a source are for.
#[derive(Debug)]
pub enum SourceUse {
    /// They are inserted.
    Insertion,
    /// They replace a collection.
    Replacement,
    /// They are the first rows of this nested collection.
    Initializer(String),
}

/// The message about a source that supplies no rows.
pub open spec fn no_rows(used: SourceUse) -> Seq<char> {
    match used {
        SourceUse::Insertion => "a bulk insert takes a source view of rows"@,
        SourceUse::Replacement => "a collection replacement takes a source view of rows"@,
        SourceUse::Initializer(child) => "child collection `"@ + child@ + "` initializer must be a keyed row view"@,
    }
}

/// The rows a source supplies: a collection's rows, or a single row. A scalar is no
/// row source.
pub open spec fn rows_supplied(source: CellView, used: SourceUse) -> Result<Seq<RowView>, RejectionView> {
    match source {
        CellView::Collection(rows) => Ok(rows),
        CellView::Row(row) => Ok(seq![*row]),
        CellView::Scalar(_) => Err(refused(RejectionReason::TypeError, no_rows(used))),
    }
}

/// The rows a source supplies.
pub fn source_rows(source: Cell, used: &SourceUse) -> (r: Result<Vec<Row>, Rejection>)
    ensures
        match (r, rows_supplied(source@, *used)) {
            (Ok(rows), Ok(v)) => row_views(rows@) == v,
            (Err(e), Err(x)) => e@ == x,
            _ => false,
        },
{
    proof {
        lemma_cell(source);
    }
    match source {
        Cell::Collection(rows) => Ok(rows),
        Cell::Row(row) => {
            let mut rows: Vec<Row> = Vec::new();
            let ghost one = *row;
            rows.push(*row);
            proof {
                assert(row_views(rows@) =~= seq![one@]);
            }
            Ok(rows)
        },
        Cell::Scalar(_) => {
            let message = match used {
                SourceUse::Insertion => String::from_str("a bulk insert takes a source view of rows"),
                SourceUse::Replacement => String::from_str("a collection replacement takes a source view of rows"),
                SourceUse::Initializer(child) => concat3(
                    "child collection `",
                    child.as_str(),
                    "` initializer must be a keyed row view",
                ),
            };
            Err(Rejection::new(RejectionReason::TypeError, message.as_str()))
        },
    }
}

/// What a row's resolution came to.
pub open spec fn resolutions(resolved: Seq<Result<Fields, Rejection>>) -> Seq<Result<FieldsView, RejectionView>> {
    Seq::new(resolved.len(), |i: int| outcome(resolved[i]))
}

/// The rows of a batch with their addresses, or the first refusal: a collection that
/// no package declares, a row's resolution, or its key.
pub open spec fn staged(
    compiled: Compiled,
    at: (Seq<StepView>, Seq<char>),
    path: Seq<Seq<char>>,
    resolved: Seq<Result<FieldsView, RejectionView>>,
) -> Result<Seq<(Seq<StepView>, FieldsView)>, RejectionView>
    decreases resolved.len(),
{
    if resolved.len() == 0 {
        if compiled.at(path) is None {
            Err(unknown_collection(path))
        } else {
            Ok(Seq::empty())
        }
    } else {
        match staged(compiled, at, path, resolved.drop_last()) {
            Err(e) => Err(e),
            Ok(rows) => match resolved.last() {
                Err(e) => Err(e),
                Ok(row) => match keyed_address(compiled, at, path, row) {
                    Err(e) => Err(e),
                    Ok(address) => Ok(rows.push((address, row))),
                },
            },
        }
    }
}

/// How many generations the rows of a batch draw before it is staged or refused: one
/// each, up to the row that refuses it.
pub open spec fn staged_draws(
    compiled: Compiled,
    at: (Seq<StepView>, Seq<char>),
    path: Seq<Seq<char>>,
    resolved: Seq<Result<FieldsView, RejectionView>>,
) -> nat
    decreases resolved.len(),
{
    if resolved.len() == 0 {
        0
    } else {
        match staged(compiled, at, path, resolved.drop_last()) {
            Err(_) => staged_draws(compiled, at, path, resolved.drop_last()),
            Ok(_) => resolved.len(),
        }
    }
}

/// What staged rows denote.
pub open spec fn staged_views(rows: Seq<(RowAddress, Fields)>) -> Seq<(Seq<StepView>, FieldsView)> {
    Seq::new(rows.len(), |i: int| (rows[i].0@, rows[i].1@))
}

/// The addresses of staged rows.
pub open spec fn staged_addresses(rows: Seq<(Seq<StepView>, FieldsView)>) -> Seq<Seq<StepView>> {
    Seq::new(rows.len(), |i: int| rows[i].0)
}

/// A refusal of a prefix of a batch is the refusal of the batch.
proof fn lemma_staged_refusal(
    compiled: Compiled,
    at: (Seq<StepView>, Seq<char>),
    path: Seq<Seq<char>>,
    resolved: Seq<Result<FieldsView, RejectionView>>,
    n: int,
)
    requires
        0 <= n <= resolved.len(),
        staged(compiled, at, path, resolved.take(n)) is Err,
    ensures
        staged(compiled, at, path, resolved) == staged(compiled, at, path, resolved.take(n)),
        staged_draws(compiled, at, path, resolved) == staged_draws(compiled, at, path, resolved.take(n)),
    decreases resolved.len() - n,
{
    if n == resolved.len() {
        assert(resolved.take(n) =~= resolved);
    } else {
        assert(resolved.take(n + 1).drop_last() =~= resolved.take(n));
        lemma_staged_refusal(compiled, at, path, resolved, n + 1);
    }
}

/// Address each row of a batch by its key, once it has drawn its generation.
fn stage(
    compiled: &Compiled,
    prospective: &mut Prospective,
    loc: &CollectionLoc,
    resolved: Vec<Result<Fields, Rejection>>,
) -> (r: Result<Vec<(RowAddress, Fields)>, Rejection>)
    ensures
        final(prospective)@ == old(prospective)@,
        final(prospective).drawn() == old(prospective).drawn() + staged_draws(
            *compiled,
            loc.store_path@,
            texts(loc.decl@),
            resolutions(resolved@),
        ),
        match (r, staged(*compiled, loc.store_path@, texts(loc.decl@), resolutions(resolved@))) {
            (Ok(rows), Ok(v)) => staged_views(rows@) == v && v.len() == resolved@.len(),
            (Err(e), Err(x)) => e@ == x,
            _ => false,
        },
{
    let ghost all = resolutions(resolved@);
    let ghost at = loc.store_path@;
    let ghost path = texts(loc.decl@);
    let mut rows: Vec<(RowAddress, Fields)> = Vec::new();
    let mut i: usize = 0;
    proof {
        assert(all.take(0) =~= Seq::<Result<FieldsView, RejectionView>>::empty());
        assert(staged_views(rows@) =~= Seq::<(Seq<StepView>, FieldsView)>::empty());
    }
    if compiled.collection_at(&loc.decl).is_none() {
        proof {
            lemma_staged_refusal(*compiled, at, path, all, 0);
        }
        return Err(undeclared(&loc.decl));
    }
    while i < resolved.len()
        invariant
            all == resolutions(resolved@),
            at == loc.store_path@,
            path == texts(loc.decl@),
            i <= resolved@.len(),
            rows@.len() == i,
            prospective@ == old(prospective)@,
            prospective.drawn() == old(prospective).drawn() + i,
            staged_draws(*compiled, at, path, all.take(i as int)) == i,
            staged(*compiled, at, path, all.take(i as int)) == Ok::<Seq<(Seq<StepView>, FieldsView)>, RejectionView>(
                staged_views(rows@),
            ),
        decreases resolved@.len() - i,
    {
        let ghost prior = staged_views(rows@);
        proof {
            assert(all.take(i + 1).drop_last() =~= all.take(i as int));
            assert(all.take(i + 1).last() == all[i as int]);
            assert(all[i as int] == outcome(resolved@[i as int]));
        }
        let _generation = prospective.next_generation();
        match &resolved[i] {
            Err(e) => {
                proof {
                    lemma_staged_refusal(*compiled, at, path, all, i + 1);
                }
                return Err(e.duplicate());
            },
            Ok(fields) => {
                match key_address(compiled, &loc.store_path, &loc.decl, fields) {
                    Err(e) => {
                        proof {
                            lemma_staged_refusal(*compiled, at, path, all, i + 1);
                        }
                        return Err(e);
                    },
                    Ok(address) => {
                        let ghost a = address@;
                        rows.push((address, fields.duplicate()));
                        proof {
                            assert(staged_views(rows@) =~= prior.push((a, fields@)));
                        }
                    },
                }
            },
        }
        i = i + 1;
    }
    proof {
        assert(all.take(i as int) =~= all);
    }
    Ok(rows)
}

/// The first address of a batch that repeats an earlier one of it, or that is
/// taken already.
pub open spec fn first_repeated(
    addresses: Seq<Seq<StepView>>,
    taken: spec_fn(Seq<StepView>) -> bool,
    n: int,
) -> Option<Seq<StepView>>
    decreases addresses.len() - n,
{
    if n < 0 || n >= addresses.len() {
        None
    } else if taken(addresses[n]) || addresses.take(n).contains(addresses[n]) {
        Some(addresses[n])
    } else {
        first_repeated(addresses, taken, n + 1)
    }
}

/// Which addresses a batch may not use.
pub open spec fn held_by(state: StateView) -> spec_fn(Seq<StepView>) -> bool {
    |a: Seq<StepView>| state.contains_key(a)
}

/// No address is taken.
pub open spec fn none_held() -> spec_fn(Seq<StepView>) -> bool {
    |a: Seq<StepView>| false
}

/// Find the first address of a batch that repeats an earlier one, or, where
/// `fresh` is asked for, that the state holds.
fn find_repeated(prospective: &Prospective, rows: &Vec<(RowAddress, Fields)>, fresh: bool) -> (r: Option<usize>)
    ensures
        ({
            let addresses = staged_addresses(staged_views(rows@));
            let taken = if fresh {
                held_by(prospective@)
            } else {
                none_held()
            };
            match r {
                Some(i) => i < rows@.len() && first_repeated(addresses, taken, 0) == Some(rows@[i as int].0@),
                None => first_repeated(addresses, taken, 0) is None,
            }
        }),
{
    let ghost addresses = staged_addresses(staged_views(rows@));
    let ghost taken = if fresh {
        held_by(prospective@)
    } else {
        none_held()
    };
    let mut i: usize = 0;
    while i < rows.len()
        invariant
            addresses == staged_addresses(staged_views(rows@)),
            taken == (if fresh {
                held_by(prospective@)
            } else {
                none_held()
            }),
            i <= rows@.len(),
            first_repeated(addresses, taken, 0) == first_repeated(addresses, taken, i as int),
        decreases rows@.len() - i,
    {
        if fresh && prospective.contains(&rows[i].0) {
            return Some(i);
        }
        let mut j: usize = 0;
        while j < i
            invariant
                addresses == staged_addresses(staged_views(rows@)),
                taken == (if fresh {
                    held_by(prospective@)
                } else {
                    none_held()
                }),
                j <= i < rows@.len(),
                first_repeated(addresses, taken, 0) == first_repeated(addresses, taken, i as int),
                forall|k: int| 0 <= k < j ==> #[trigger] addresses[k] != addresses[i as int],
            decreases i - j,
        {
            if rows[j].0.same(&rows[i].0) {
                proof {
                    assert(addresses.take(i as int)[j as int] == addresses[i as int]);
                }
                return Some(i);
            }
            j = j + 1;
        }
        proof {
            assert(!addresses.take(i as int).contains(addresses[i as int]));
        }
        i = i + 1;
    }
    None
}

/// A state with rows put in, in order.
pub open spec fn with_rows(state: StateView, rows: Seq<(Seq<StepView>, FieldsView)>) -> StateView
    decreases rows.len(),
{
    if rows.len() == 0 {
        state
    } else {
        with_rows(state, rows.drop_last()).insert(rows.last().0, rows.last().1)
    }
}

/// Put staged rows into a state, in order, and list them as touched.
fn put_rows(prospective: &mut Prospective, touched: &mut Vec<RowAddress>, rows: Vec<(RowAddress, Fields)>)
    ensures
        final(prospective)@ == with_rows(old(prospective)@, staged_views(rows@)),
        final(prospective).drawn() == old(prospective).drawn(),
        address_views(final(touched)@) == marked_all(
            address_views(old(touched)@),
            staged_addresses(staged_views(rows@)),
        ),
{
    let ghost all = staged_views(rows@);
    let ghost names = staged_addresses(all);
    let ghost start = prospective@;
    let ghost marks = address_views(touched@);
    let mut i: usize = 0;
    proof {
        assert(all.take(0) =~= Seq::<(Seq<StepView>, FieldsView)>::empty());
        assert(names.take(0) =~= Seq::<Seq<StepView>>::empty());
    }
    while i < rows.len()
        invariant
            all == staged_views(rows@),
            names == staged_addresses(all),
            i <= rows@.len(),
            prospective.drawn() == old(prospective).drawn(),
            prospective@ == with_rows(start, all.take(i as int)),
            address_views(touched@) == marked_all(marks, names.take(i as int)),
        decreases rows@.len() - i,
    {
        proof {
            assert(all.take(i + 1).drop_last() =~= all.take(i as int));
            assert(all.take(i + 1).last() == all[i as int]);
            assert(names.take(i + 1).drop_last() =~= names.take(i as int));
            assert(names.take(i + 1).last() == names[i as int]);
        }
        prospective.insert(rows[i].0.duplicate(), rows[i].1.duplicate());
        mark(touched, rows[i].0.duplicate());
        i = i + 1;
    }
    proof {
        assert(all.take(i as int) =~= all);
        assert(names.take(i as int) =~= names);
    }
}

/// A program after a batch of rows has been inserted into a collection. Every row
/// is resolved, with a generation of its own, before any is put in; a key that the
/// state holds, or that another row of the batch has, refuses the whole batch.
pub open spec fn batch_inserted(
    compiled: Compiled,
    p: ProgramView,
    at: (Seq<StepView>, Seq<char>),
    path: Seq<Seq<char>>,
    resolved: Seq<Result<FieldsView, RejectionView>>,
) -> Result<ProgramView, RejectionView> {
    match staged(compiled, at, path, resolved) {
        Err(e) => Err(e),
        Ok(rows) => match first_repeated(staged_addresses(rows), held_by(p.state), 0) {
            Some(address) => Err(
                refused_at(RejectionReason::DuplicateKey, "a row with this key already exists"@, address),
            ),
            None => Ok(
                ProgramView {
                    state: with_rows(p.state, rows),
                    receiver: p.receiver,
                    touched: marked_all(p.touched, staged_addresses(rows)),
                    extracts: p.extracts,
                    drawn: p.drawn + rows.len(),
                },
            ),
        },
    }
}

/// A row reference a deletion starts from: a top-level collection and the identity
/// of a row in it.
#[derive(Debug)]
pub struct RowRef {
    pub collection: String,
    pub key: Value,
}

/// What a [`RowRef`] denotes.
#[verifier::ext_equal]
pub struct RowRefView {
    pub collection: Seq<char>,
    pub key: ValueView,
}

impl View for RowRef {
    type V = RowRefView;

    open spec fn view(&self) -> RowRefView {
        RowRefView { collection: self.collection@, key: self.key@ }
    }
}

/// What row references denote.
pub open spec fn ref_views(refs: Seq<RowRef>) -> Seq<RowRefView> {
    Seq::new(refs.len(), |i: int| refs[i]@)
}

/// The state without a row and its subtree.
pub open spec fn without_subtree(state: StateView, address: Seq<StepView>) -> StateView {
    if state.contains_key(address) {
        state.remove_keys(Set::new(|a: Seq<StepView>| a == address || below(address, a)))
    } else {
        state
    }
}

/// The state without several rows and their subtrees.
pub open spec fn without_subtrees(state: StateView, addresses: Seq<Seq<StepView>>) -> StateView
    decreases addresses.len(),
{
    if addresses.len() == 0 {
        state
    } else {
        without_subtree(without_subtrees(state, addresses.drop_last()), addresses.last())
    }
}

/// Remove a row and every row below it.
pub fn remove_subtree(prospective: &mut Prospective, address: &RowAddress)
    ensures
        final(prospective)@ == without_subtree(old(prospective)@, address@),
        final(prospective).drawn() == old(prospective).drawn(),
{
    if !prospective.contains(address) {
        return;
    }
    let ghost start = prospective@;
    let subtree = prospective.addresses_below(address);
    let ghost all = address_views(subtree@);
    let mut i: usize = 0;
    while i < subtree.len()
        invariant
            i <= subtree@.len(),
            all == address_views(subtree@),
            prospective.drawn() == old(prospective).drawn(),
            prospective@ == start.remove_keys(all.take(i as int).to_set()),
        decreases subtree@.len() - i,
    {
        let ghost before = prospective@;
        prospective.remove(&subtree[i]);
        proof {
            let t = all.take(i as int);
            let u = all.take(i + 1);
            assert(u =~= t.push(all[i as int]));
            assert forall|a: Seq<StepView>| u.contains(a) <==> t.contains(a) || a == all[i as int] by {
                if t.contains(a) {
                    let q = choose|q: int| 0 <= q < t.len() && t[q] == a;
                    assert(u[q] == a);
                }
                if u.contains(a) && a != all[i as int] {
                    let q = choose|q: int| 0 <= q < u.len() && u[q] == a;
                    assert(t[q] == a);
                }
                assert(u[i as int] == all[i as int]);
            }
            assert(prospective@ =~= start.remove_keys(u.to_set()));
        }
        i = i + 1;
    }
    prospective.remove(address);
    proof {
        assert(all.take(i as int) =~= all);
        assert(prospective@ =~= without_subtree(start, address@)) by {
            assert forall|a: Seq<StepView>|
                start.contains_key(a) implies all.to_set().contains(a) == below(address@, a) by {
                assert(all.contains(a) == (start.contains_key(a) && below(address@, a)));
            }
        }
    }
}

/// The addresses that do not occur among others, in order.
pub open spec fn absent_from(addresses: Seq<Seq<StepView>>, others: Seq<Seq<StepView>>) -> Seq<Seq<StepView>>
    decreases addresses.len(),
{
    if addresses.len() == 0 {
        Seq::empty()
    } else {
        let rest = absent_from(addresses.drop_last(), others);
        if others.contains(addresses.last()) {
            rest
        } else {
            rest.push(addresses.last())
        }
    }
}

/// The identity of the row at an address of a top-level collection, by the key
/// fields the package declares for it.
pub open spec fn identity_at(compiled: Compiled, name: Seq<char>, address: Seq<StepView>) -> ValueView {
    match compiled.top(name) {
        Some(c) => identity(c.key@.len(), address.last().key),
        None => address.last().key[0],
    }
}

/// The rows of a top-level collection at these addresses, as deletion targets.
pub open spec fn targets_at(compiled: Compiled, name: Seq<char>, addresses: Seq<Seq<StepView>>) -> Seq<RowRefView> {
    Seq::new(
        addresses.len(),
        |i: int| RowRefView { collection: name, key: identity_at(compiled, name, addresses[i]) },
    )
}

/// A program after a collection has been replaced by a batch of rows, and the rows
/// whose deletion is still to be planned. A row whose key the batch has is updated
/// in place, a new key is inserted, and an existing key that the batch lacks is
/// dropped: a nested row with its subtree, a top-level row through the deletion
/// planner. Each row of the batch draws a generation.
pub open spec fn replaced(
    compiled: Compiled,
    p: ProgramView,
    at: (Seq<StepView>, Seq<char>),
    path: Seq<Seq<char>>,
    resolved: Seq<Result<FieldsView, RejectionView>>,
) -> Result<(ProgramView, Seq<RowRefView>), RejectionView> {
    match staged(compiled, at, path, resolved) {
        Err(e) => Err(e),
        Ok(rows) => match first_repeated(staged_addresses(rows), none_held(), 0) {
            Some(address) => Err(
                refused_at(
                    RejectionReason::DuplicateKey,
                    "the replacement view supplies two rows with the same key"@,
                    address,
                ),
            ),
            None => {
                let state = with_rows(p.state, rows);
                let touched = marked_all(p.touched, staged_addresses(rows));
                let drawn = p.drawn + rows.len();
                let dropped = absent_from(rows_of(p.state, at), staged_addresses(rows));
                if path.len() > 1 {
                    Ok(
                        (
                            ProgramView { state: without_subtrees(state, dropped), touched, drawn, ..p },
                            Seq::empty(),
                        ),
                    )
                } else {
                    Ok(
                        (
                            ProgramView { state, touched, drawn, ..p },
                            targets_at(
                                compiled,
                                if path.len() > 0 {
                                    path.last()
                                } else {
                                    Seq::empty()
                                },
                                dropped,
                            ),
                        ),
                    )
                }
            },
        },
    }
}

/// The addresses that no staged row has, in order.
fn dropped_addresses(existing: Vec<RowAddress>, rows: &Vec<(RowAddress, Fields)>) -> (r: Vec<RowAddress>)
    ensures
        address_views(r@) == absent_from(address_views(existing@), staged_addresses(staged_views(rows@))),
{
    let ghost all = address_views(existing@);
    let ghost others = staged_addresses(staged_views(rows@));
    let mut r: Vec<RowAddress> = Vec::new();
    let mut i: usize = 0;
    proof {
        assert(all.take(0) =~= Seq::<Seq<StepView>>::empty());
        assert(address_views(r@) =~= Seq::<Seq<StepView>>::empty());
    }
    while i < existing.len()
        invariant
            all == address_views(existing@),
            others == staged_addresses(staged_views(rows@)),
            i <= existing@.len(),
            address_views(r@) == absent_from(all.take(i as int), others),
        decreases existing@.len() - i,
    {
        proof {
            assert(all.take(i + 1).drop_last() =~= all.take(i as int));
            assert(all.take(i + 1).last() == all[i as int]);
        }
        let mut found = false;
        let mut j: usize = 0;
        while j < rows.len()
            invariant
                others == staged_addresses(staged_views(rows@)),
                all == address_views(existing@),
                i < existing@.len(),
                j <= rows@.len(),
                found ==> others.contains(all[i as int]),
                !found ==> forall|k: int| 0 <= k < j ==> #[trigger] others[k] != all[i as int],
            decreases rows@.len() - j,
        {
            if rows[j].0.same(&existing[i]) {
                proof {
                    assert(others[j as int] == all[i as int]);
                }
                found = true;
            }
            j = j + 1;
        }
        if !found {
            let ghost prior = address_views(r@);
            r.push(existing[i].duplicate());
            proof {
                assert(address_views(r@) =~= prior.push(all[i as int]));
            }
        }
        i = i + 1;
    }
    proof {
        assert(all.take(i as int) =~= all);
    }
    r
}

/// Remove several rows with everything below them.
fn remove_subtrees(prospective: &mut Prospective, addresses: &Vec<RowAddress>)
    ensures
        final(prospective)@ == without_subtrees(old(prospective)@, address_views(addresses@)),
        final(prospective).drawn() == old(prospective).drawn(),
{
    let ghost all = address_views(addresses@);
    let ghost start = prospective@;
    let mut i: usize = 0;
    proof {
        assert(all.take(0) =~= Seq::<Seq<StepView>>::empty());
    }
    while i < addresses.len()
        invariant
            all == address_views(addresses@),
            i <= addresses@.len(),
            prospective.drawn() == old(prospective).drawn(),
            prospective@ == without_subtrees(start, all.take(i as int)),
        decreases addresses@.len() - i,
    {
        proof {
            assert(all.take(i + 1).drop_last() =~= all.take(i as int));
            assert(all.take(i + 1).last() == all[i as int]);
        }
        remove_subtree(prospective, &addresses[i]);
        i = i + 1;
    }
    proof {
        assert(all.take(i as int) =~= all);
    }
}

/// Name the rows at these addresses of a top-level collection as deletion targets.
fn deletion_targets(compiled: &Compiled, name: &str, addresses: &Vec<RowAddress>) -> (r: Vec<RowRef>)
    ensures
        ref_views(r@) == targets_at(*compiled, name@, address_views(addresses@)),
{
    let mut r: Vec<RowRef> = Vec::new();
    let mut i: usize = 0;
    while i < addresses.len()
        invariant
            i <= addresses@.len(),
            r@.len() == i,
            forall|j: int|
                0 <= j < i ==> (#[trigger] r@[j])@ == (RowRefView {
                    collection: name@,
                    key: identity_at(*compiled, name@, addresses@[j]@),
                }),
        decreases addresses@.len() - i,
    {
        let steps = addresses[i].steps();
        let last = &steps[steps.len() - 1];
        proof {
            assert(addresses@[i as int]@.last() == last@);
        }
        let key = match compiled.collection(name) {
            Some(c) => key_identity(&c.key, &last.key),
            None => copy_value(&last.key.components()[0]),
        };
        r.push(RowRef { collection: String::from_str(name), key });
        i = i + 1;
    }
    proof {
        assert(ref_views(r@) =~= targets_at(*compiled, name@, address_views(addresses@)));
    }
    r
}

impl<'a> Interp<'a> {
    /// Insert every resolved row of a source view into a collection, each with a
    /// generation of its own. A refused batch changes nothing but their count.
    pub fn insert_from_view(&mut self, loc: &CollectionLoc, resolved: Vec<Result<Fields, Rejection>>) -> (r: Result<
        (),
        Rejection,
    >)
        ensures
            final(self).compiled == old(self).compiled,
            match (
                r,
                batch_inserted(
                    *old(self).compiled,
                    old(self)@,
                    loc.store_path@,
                    texts(loc.decl@),
                    resolutions(resolved@),
                ),
            ) {
                (Ok(_), Ok(p)) => final(self)@ == p,
                (Err(e), Err(x)) => e@ == x && final(self)@ == with_drawn(
                    old(self)@,
                    staged_draws(
                        *old(self).compiled,
                        loc.store_path@,
                        texts(loc.decl@),
                        resolutions(resolved@),
                    ),
                ),
                _ => false,
            },
    {
        let rows = match stage(self.compiled, &mut self.prospective, loc, resolved) {
            Ok(rows) => rows,
            Err(e) => {
                return Err(e);
            },
        };
        if let Some(i) = find_repeated(&self.prospective, &rows, true) {
            return Err(
                Rejection::at(RejectionReason::DuplicateKey, "a row with this key already exists", &rows[i].0),
            );
        }
        put_rows(&mut self.prospective, &mut self.touched, rows);
        Ok(())
    }

    /// Replace a whole collection by the resolved rows of a source view, and answer
    /// with the dropped top-level rows, whose deletion the caller plans and applies.
    /// A refused replacement changes nothing but the count of generations drawn.
    pub fn replace_collection(&mut self, loc: &CollectionLoc, resolved: Vec<Result<Fields, Rejection>>) -> (r: Result<
        Vec<RowRef>,
        Rejection,
    >)
        ensures
            final(self).compiled == old(self).compiled,
            match (
                r,
                replaced(*old(self).compiled, old(self)@, loc.store_path@, texts(loc.decl@), resolutions(resolved@)),
            ) {
                (Ok(refs), Ok((p, deletions))) => final(self)@ == p && ref_views(refs@) == deletions,
                (Err(e), Err(x)) => e@ == x && final(self)@ == with_drawn(
                    old(self)@,
                    staged_draws(
                        *old(self).compiled,
                        loc.store_path@,
                        texts(loc.decl@),
                        resolutions(resolved@),
                    ),
                ),
                _ => false,
            },
    {
        let rows = match stage(self.compiled, &mut self.prospective, loc, resolved) {
            Ok(rows) => rows,
            Err(e) => {
                return Err(e);
            },
        };
        if let Some(i) = find_repeated(&self.prospective, &rows, false) {
            return Err(
                Rejection::at(
                    RejectionReason::DuplicateKey,
                    "the replacement view supplies two rows with the same key",
                    &rows[i].0,
                ),
            );
        }
        let existing = self.prospective.addresses_in(&loc.store_path);
        let dropped = dropped_addresses(existing, &rows);
        put_rows(&mut self.prospective, &mut self.touched, rows);
        if loc.decl.len() > 1 {
            remove_subtrees(&mut self.prospective, &dropped);
            let none: Vec<RowRef> = Vec::new();
            proof {
                assert(ref_views(none@) =~= Seq::<RowRefView>::empty());
            }
            return Ok(none);
        }
        if loc.decl.len() == 0 {
            proof {
                reveal_strlit("");
                assert(""@ =~= Seq::<char>::empty());
            }
            Ok(deletion_targets(self.compiled, "", &dropped))
        } else {
            proof {
                assert(texts(loc.decl@).last() == loc.decl@[0]@);
            }
            Ok(deletion_targets(self.compiled, loc.decl[0].as_str(), &dropped))
        }
    }
}

pub proof fn lemma_with_rows(state: StateView, rows: Seq<(Seq<StepView>, FieldsView)>, at: Seq<StepView>)
    ensures
        with_rows(state, rows).contains_key(at) <==> state.contains_key(at) || staged_addresses(rows).contains(at),
    decreases rows.len(),
{
    let all = staged_addresses(rows);
    if rows.len() > 0 {
        lemma_with_rows(state, rows.drop_last(), at);
        let before = staged_addresses(rows.drop_last());
        if before.contains(at) {
            let i = choose|i: int| 0 <= i < before.len() && before[i] == at;
            assert(all[i] == at);
        }
        if all.contains(at) && !before.contains(at) {
            let i = choose|i: int| 0 <= i < all.len() && all[i] == at;
            if i < before.len() {
                assert(before[i] == at);
            }
            assert(rows.last().0 == at);
        }
        if rows.last().0 == at {
            assert(all[rows.len() - 1] == at);
        }
    }
}

proof fn lemma_without_subtrees(state: StateView, addresses: Seq<Seq<StepView>>, at: Seq<StepView>)
    requires
        forall|i: int| 0 <= i < addresses.len() ==> !below(#[trigger] addresses[i], at),
    ensures
        without_subtrees(state, addresses).contains_key(at) <==> state.contains_key(at) && !addresses.contains(at),
    decreases addresses.len(),
{
    if addresses.len() > 0 {
        let before = addresses.drop_last();
        assert forall|i: int| 0 <= i < before.len() implies !below(#[trigger] before[i], at) by {
            assert(before[i] == addresses[i]);
        }
        lemma_without_subtrees(state, before, at);
        assert(!below(addresses[addresses.len() - 1], at));
        if before.contains(at) {
            let i = choose|i: int| 0 <= i < before.len() && before[i] == at;
            assert(addresses[i] == at);
        }
        if addresses.contains(at) && !before.contains(at) {
            let i = choose|i: int| 0 <= i < addresses.len() && addresses[i] == at;
            if i < before.len() {
                assert(before[i] == at);
            }
            assert(addresses.last() == at);
        }
        if addresses.last() == at {
            assert(addresses[addresses.len() - 1] == at);
        }
    }
}

proof fn lemma_absent_from(addresses: Seq<Seq<StepView>>, others: Seq<Seq<StepView>>, at: Seq<StepView>)
    ensures
        absent_from(addresses, others).contains(at) <==> addresses.contains(at) && !others.contains(at),
    decreases addresses.len(),
{
    if addresses.len() > 0 {
        let before = addresses.drop_last();
        lemma_absent_from(before, others, at);
        let rest = absent_from(before, others);
        let all = absent_from(addresses, others);
        if before.contains(at) {
            let i = choose|i: int| 0 <= i < before.len() && before[i] == at;
            assert(addresses[i] == at);
        }
        if addresses.contains(at) && !before.contains(at) {
            let i = choose|i: int| 0 <= i < addresses.len() && addresses[i] == at;
            if i < before.len() {
                assert(before[i] == at);
            }
            assert(addresses.last() == at);
        }
        if addresses.last() == at {
            assert(addresses[addresses.len() - 1] == at);
        }
        if rest.contains(at) {
            let i = choose|i: int| 0 <= i < rest.len() && rest[i] == at;
            assert(all[i] == at);
        }
        if !others.contains(addresses.last()) && addresses.last() == at {
            assert(all[all.len() - 1] == at);
        }
        if all.contains(at) && !rest.contains(at) {
            let i = choose|i: int| 0 <= i < all.len() && all[i] == at;
            if i < rest.len() {
                assert(rest[i] == at);
            }
            assert(addresses.last() == at);
        }
    }
}

proof fn lemma_none_taken(addresses: Seq<Seq<StepView>>, taken: spec_fn(Seq<StepView>) -> bool, n: int)
    requires
        0 <= n <= addresses.len(),
        first_repeated(addresses, taken, n) is None,
    ensures
        forall|j: int| n <= j < addresses.len() ==> !taken(#[trigger] addresses[j]),
    decreases addresses.len() - n,
{
    if n < addresses.len() {
        lemma_none_taken(addresses, taken, n + 1);
    }
}

pub proof fn lemma_row_stays(state: StateView, rows: Seq<(Seq<StepView>, FieldsView)>, at: Seq<StepView>)
    requires
        !staged_addresses(rows).contains(at),
        state.contains_key(at),
    ensures
        with_rows(state, rows)[at] == state[at],
    decreases rows.len(),
{
    if rows.len() > 0 {
        let all = staged_addresses(rows);
        let before = staged_addresses(rows.drop_last());
        assert(all[rows.len() - 1] == rows.last().0);
        assert forall|i: int| 0 <= i < before.len() implies before[i] != at by {
            assert(all[i] == before[i]);
        }
        lemma_row_stays(state, rows.drop_last(), at);
    }
}

/// A bulk insert adds exactly the rows of its batch: none of them was there, and every
/// row that was is as it was.
pub proof fn law_bulk_insert(
    compiled: Compiled,
    p: ProgramView,
    at: (Seq<StepView>, Seq<char>),
    path: Seq<Seq<char>>,
    resolved: Seq<Result<FieldsView, RejectionView>>,
    address: Seq<StepView>,
)
    requires
        batch_inserted(compiled, p, at, path, resolved) is Ok,
    ensures
        ({
            let batch = staged_addresses(staged(compiled, at, path, resolved)->Ok_0);
            let after = batch_inserted(compiled, p, at, path, resolved)->Ok_0.state;
            &&& after.contains_key(address) <==> p.state.contains_key(address) || batch.contains(address)
            &&& p.state.contains_key(address) ==> !batch.contains(address) && after[address] == p.state[address]
        }),
{
    let rows = staged(compiled, at, path, resolved)->Ok_0;
    let batch = staged_addresses(rows);
    lemma_with_rows(p.state, rows, address);
    lemma_none_taken(batch, held_by(p.state), 0);
    if p.state.contains_key(address) {
        if batch.contains(address) {
            let j = choose|j: int| 0 <= j < batch.len() && batch[j] == address;
            assert(held_by(p.state)(batch[j]));
        }
        lemma_row_stays(p.state, rows, address);
    }
}

/// A replaced nested collection holds exactly the rows of the replacement.
pub proof fn law_replaced_nested(
    compiled: Compiled,
    p: ProgramView,
    at: (Seq<StepView>, Seq<char>),
    path: Seq<Seq<char>>,
    resolved: Seq<Result<FieldsView, RejectionView>>,
    address: Seq<StepView>,
)
    requires
        p.state.dom().finite(),
        path.len() > 1,
        in_collection(at.0, at.1, address),
        replaced(compiled, p, at, path, resolved) is Ok,
    ensures
        replaced(compiled, p, at, path, resolved)->Ok_0.0.state.contains_key(address) <==> staged_addresses(
            staged(compiled, at, path, resolved)->Ok_0,
        ).contains(address),
{
    let rows = staged(compiled, at, path, resolved)->Ok_0;
    let addresses = staged_addresses(rows);
    let existing = rows_of(p.state, at);
    let dropped = absent_from(existing, addresses);
    let held = p.state.dom().filter(|a: Seq<StepView>| in_collection(at.0, at.1, a));
    lemma_sorted_exists::<RowAddress>(held);
    assert(existing.to_set() == held);
    assert(existing.contains(address) == held.contains(address));
    assert forall|i: int| 0 <= i < dropped.len() implies !below(#[trigger] dropped[i], address) by {
        assert(dropped.contains(dropped[i]));
        lemma_absent_from(existing, addresses, dropped[i]);
        assert(existing.to_set().contains(dropped[i]));
        assert(held.contains(dropped[i]));
    }
    lemma_with_rows(p.state, rows, address);
    lemma_without_subtrees(with_rows(p.state, rows), dropped, address);
    lemma_absent_from(existing, addresses, address);
}

/// A replaced top-level collection holds the rows of the replacement, and besides them
/// exactly the rows whose deletion is still to be planned.
pub proof fn law_replaced_top(
    compiled: Compiled,
    p: ProgramView,
    at: (Seq<StepView>, Seq<char>),
    path: Seq<Seq<char>>,
    resolved: Seq<Result<FieldsView, RejectionView>>,
    address: Seq<StepView>,
)
    requires
        p.state.dom().finite(),
        path.len() <= 1,
        in_collection(at.0, at.1, address),
        replaced(compiled, p, at, path, resolved) is Ok,
    ensures
        ({
            let addresses = staged_addresses(staged(compiled, at, path, resolved)->Ok_0);
            let dropped = absent_from(rows_of(p.state, at), addresses);
            let (after, deletions) = replaced(compiled, p, at, path, resolved)->Ok_0;
            &&& after.state.contains_key(address) <==> addresses.contains(address) || dropped.contains(address)
            &&& deletions.len() == dropped.len()
            &&& !(addresses.contains(address) && dropped.contains(address))
        }),
{
    let rows = staged(compiled, at, path, resolved)->Ok_0;
    let addresses = staged_addresses(rows);
    let existing = rows_of(p.state, at);
    let held = p.state.dom().filter(|a: Seq<StepView>| in_collection(at.0, at.1, a));
    lemma_sorted_exists::<RowAddress>(held);
    assert(existing.to_set() == held);
    assert(existing.contains(address) == held.contains(address));
    lemma_with_rows(p.state, rows, address);
    lemma_absent_from(existing, addresses, address);
}

} // verus!
