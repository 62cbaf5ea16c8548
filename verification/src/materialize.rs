//! Building the rows a reader sees from the state.

use crate::address::{in_collection, CollectionPath, KeyValue, RowAddress, StepView};
use crate::cell::{cell_views, copy_cell, lemma_cell, lemma_row, row_views, Cell, CellView, Row, RowId, RowView};
use crate::order::Duplicate;
use crate::pools::{bound_cell, Interval};
use crate::refs::{identity, key_identity};
use crate::state::{address_views, rows_of, Fields, FieldsView, Prospective, StateView};
use crate::table::{lemma_ascending_distinct, lemma_sorted_exists, sorted, Table};
use crate::time::Timestamp;
use crate::value::{copy_value, lemma_denoted, member_views, Value, ValueView};
use vstd::prelude::*;

verus! {

/// The fields of a stored row, the last of a name counting.
pub open spec fn fields_in(members: Seq<(Seq<char>, ValueView)>) -> FieldsView
    decreases members.len(),
{
    if members.len() == 0 {
        Map::empty()
    } else {
        fields_in(members.drop_last()).insert(members.last().0, members.last().1)
    }
}

/// The fields a value is stored as: those of a struct, and none otherwise.
pub open spec fn stored_fields(value: ValueView) -> FieldsView {
    match value {
        ValueView::Struct(members) => fields_in(members),
        _ => Map::empty(),
    }
}

/// The stored form of a row: its fields in the order of their names.
pub open spec fn stored_form(fields: FieldsView) -> ValueView {
    let names = sorted::<String>(fields.dom());
    ValueView::Struct(Seq::new(names.len(), |i: int| (names[i], fields[names[i]])))
}

/// Take a stored row apart into its fields.
pub fn fields_of(value: &Value) -> (r: Fields)
    ensures
        r@ == stored_fields(value@),
{
    proof {
        lemma_denoted(*value);
    }
    let mut r: Fields = Table::new();
    if let Value::Struct(members) = value {
        let ghost all = member_views(members@);
        let mut i: usize = 0;
        proof {
            assert(all.take(0) =~= Seq::empty());
        }
        while i < members.len()
            invariant
                all == member_views(members@),
                i <= members@.len(),
                r@ == fields_in(all.take(i as int)),
            decreases members@.len() - i,
        {
            proof {
                assert(all.take(i + 1).drop_last() =~= all.take(i as int));
                assert(all.take(i + 1).last() == all[i as int]);
            }
            r.insert(members[i].0.clone(), copy_value(&members[i].1));
            i = i + 1;
        }
        proof {
            assert(all.take(i as int) =~= all);
        }
    }
    r
}

/// Put the fields of a row together into its stored form.
pub fn struct_of(fields: &Fields) -> (r: Value)
    ensures
        r@ == stored_form(fields@),
{
    let n: usize = fields.len();
    let mut members: Vec<(String, Value)> = Vec::new();
    let mut i: usize = 0;
    while i < n
        invariant
            n == fields.keys().len(),
            i <= n,
            members@.len() == i,
            forall|j: int|
                0 <= j < i ==> (#[trigger] members@[j]).0@ == fields.keys()[j] && members@[j].1@
                    == fields@[fields.keys()[j]],
        decreases n - i,
    {
        members.push((fields.key_at(i).clone(), copy_value(fields.value_at(i))));
        i = i + 1;
    }
    let r = Value::Struct(members);
    proof {
        lemma_denoted(r);
        assert(member_views(members@) =~= stored_form(fields@)->Struct_0);
    }
    r
}

/// A shape: the fields of its key, and its members in order, each a field or a nested
/// collection of some shape.
pub struct ShapeDecl {
    pub key: Vec<String>,
    pub members: Vec<MemberDecl>,
}

/// A member of a shape: its name, and the shape of the collection it is, if it is one.
pub struct MemberDecl {
    pub name: String,
    pub nested: Option<usize>,
}

/// Whether every nested collection is of a declared shape.
pub open spec fn members_ok(members: Seq<MemberDecl>, shapes: nat) -> bool {
    forall|i: int| 0 <= i < members.len() ==> ((#[trigger] members[i]).nested matches Some(s) ==> s < shapes)
}

/// Whether every shape is made of declared shapes.
pub open spec fn shapes_ok(shapes: Seq<ShapeDecl>) -> bool {
    forall|i: int| 0 <= i < shapes.len() ==> members_ok((#[trigger] shapes[i]).members@, shapes.len())
}

/// What is known of a bucketed row at the instant of a read: whether it is active, and
/// its interval.
#[derive(Debug, Clone, Copy)]
pub struct Moment {
    pub active: bool,
    pub interval: Option<Interval>,
}

impl View for Moment {
    type V = Moment;

    open spec fn view(&self) -> Moment {
        *self
    }
}

/// Whether a read shows a row: a bare read shows no inactive one.
pub open spec fn is_shown(moments: Map<Seq<StepView>, Moment>, active_only: bool, address: Seq<StepView>) -> bool {
    !active_only || !moments.contains_key(address) || moments[address].active
}

/// The rows of a collection a read shows, in order.
pub open spec fn shown_rows(
    state: StateView,
    moments: Map<Seq<StepView>, Moment>,
    active_only: bool,
    path: (Seq<StepView>, Seq<char>),
) -> Seq<Seq<StepView>> {
    rows_of(state, path).filter(|a: Seq<StepView>| is_shown(moments, active_only, a))
}

/// A row with the bounds of its interval, where it has one.
pub open spec fn with_bounds(row: RowView, moments: Map<Seq<StepView>, Moment>, address: Seq<StepView>) -> RowView {
    if moments.contains_key(address) && moments[address].interval is Some {
        let (from, until) = moments[address].interval->0;
        RowView {
            cells: row.cells.push(("$from"@, bound_cell(from))).push(("$until"@, bound_cell(until))),
            ..row
        }
    } else {
        row
    }
}

/// The value of a field, absent where the row has none.
pub open spec fn field_value(fields: FieldsView, name: Seq<char>) -> ValueView {
    if fields.contains_key(name) {
        fields[name]
    } else {
        ValueView::Absent
    }
}

/// What a read reads: the shapes, the state, and what is known of its bucketed rows.
#[verifier::ext_equal]
pub struct ReadView {
    pub shapes: Seq<ShapeDecl>,
    pub state: StateView,
    pub moments: Map<Seq<StepView>, Moment>,
    pub active_only: bool,
}

/// The row at an address, which is `depth` levels deep: a cell for each member, with
/// the nested collections as deep as the state goes, which is `limit` levels at most.
pub open spec fn row_shown(
    read: ReadView,
    address: Seq<StepView>,
    shape: int,
    id: Seq<Seq<ValueView>>,
    depth: nat,
    limit: nat,
) -> RowView
    decreases limit - depth, 1int,
{
    RowView {
        id,
        key: identity(read.shapes[shape].key@.len(), address.last().key),
        cells: Seq::new(
            read.shapes[shape].members@.len(),
            |i: int|
                (
                    read.shapes[shape].members@[i].name@,
                    match read.shapes[shape].members@[i].nested {
                        Some(nested) => CellView::Collection(
                            rows_shown(
                                read,
                                (address, read.shapes[shape].members@[i].name@),
                                nested as int,
                                id,
                                depth,
                                limit,
                            ),
                        ),
                        None => CellView::Scalar(
                            field_value(read.state[address], read.shapes[shape].members@[i].name@),
                        ),
                    },
                ),
        ),
    }
}

/// The rows of a collection nested `depth` levels deep, under the row with this
/// identity.
pub open spec fn rows_shown(
    read: ReadView,
    path: (Seq<StepView>, Seq<char>),
    shape: int,
    id: Seq<Seq<ValueView>>,
    depth: nat,
    limit: nat,
) -> Seq<RowView>
    decreases limit - depth, 0int,
{
    if depth >= limit {
        Seq::empty()
    } else {
        let shown = shown_rows(read.state, read.moments, read.active_only, path);
        Seq::new(
            shown.len(),
            |i: int|
                with_bounds(
                    row_shown(read, shown[i], shape, id.push(shown[i].last().key), depth + 1, limit),
                    read.moments,
                    shown[i],
                ),
        )
    }
}

/// Whether no row of a state is more than `limit` levels deep.
pub open spec fn within(state: StateView, limit: nat) -> bool {
    forall|a: Seq<StepView>| #[trigger] state.contains_key(a) ==> a.len() <= limit
}

/// Where the state ends is not seen: a larger limit shows the same rows.
pub proof fn lemma_limit(
    read: ReadView,
    path: (Seq<StepView>, Seq<char>),
    shape: int,
    id: Seq<Seq<ValueView>>,
    depth: nat,
    a: nat,
    b: nat,
)
    requires
        path.0.len() == depth,
        read.state.dom().finite(),
        within(read.state, a),
        within(read.state, b),
    ensures
        rows_shown(read, path, shape, id, depth, a) == rows_shown(read, path, shape, id, depth, b),
    decreases a + b - depth, 0int,
{
    broadcast use vstd::seq_lib::group_filter_ensures;

    let here = read.state.dom().filter(|x: Seq<StepView>| in_collection(path.0, path.1, x));
    lemma_sorted_exists::<RowAddress>(here);
    let all = rows_of(read.state, path);
    let keep = |x: Seq<StepView>| is_shown(read.moments, read.active_only, x);
    let shown = shown_rows(read.state, read.moments, read.active_only, path);
    assert forall|i: int| 0 <= i < shown.len() implies in_collection(path.0, path.1, #[trigger] shown[i])
        && read.state.contains_key(shown[i]) by {
        assert(shown.contains(shown[i]));
        all.lemma_filter_contains_rev(keep, shown[i]);
        assert(all.to_set().contains(shown[i]));
        assert(here.contains(shown[i]));
    }
    if depth < a && depth < b {
        assert forall|i: int| 0 <= i < shown.len() implies row_shown(
            read,
            shown[i],
            shape,
            id.push(shown[i].last().key),
            depth + 1,
            a,
        ) == row_shown(read, shown[i], shape, id.push(shown[i].last().key), depth + 1, b) by {
            lemma_limit_row(read, shown[i], shape, id.push(shown[i].last().key), depth + 1, a, b);
        }
    } else if shown.len() > 0 {
        assert(shown[0].len() == depth + 1);
    }
    assert(rows_shown(read, path, shape, id, depth, a) =~= rows_shown(read, path, shape, id, depth, b));
}

proof fn lemma_limit_row(
    read: ReadView,
    address: Seq<StepView>,
    shape: int,
    id: Seq<Seq<ValueView>>,
    depth: nat,
    a: nat,
    b: nat,
)
    requires
        address.len() == depth,
        depth <= a,
        depth <= b,
        read.state.dom().finite(),
        within(read.state, a),
        within(read.state, b),
    ensures
        row_shown(read, address, shape, id, depth, a) == row_shown(read, address, shape, id, depth, b),
    decreases a + b - depth, 1int,
{
    let members = read.shapes[shape].members@;
    let x = row_shown(read, address, shape, id, depth, a);
    let y = row_shown(read, address, shape, id, depth, b);
    assert forall|i: int| 0 <= i < members.len() implies x.cells[i] == y.cells[i] by {
        if let Some(nested) = members[i].nested {
            lemma_limit(read, (address, members[i].name@), nested as int, id, depth, a, b);
        }
    }
    assert(x.cells =~= y.cells);
}

/// A read of the state.
pub struct Read<'a> {
    pub shapes: &'a Vec<ShapeDecl>,
    pub state: &'a Prospective,
    pub moments: &'a Table<RowAddress, Moment>,
    pub active_only: bool,
}

impl<'a> View for Read<'a> {
    type V = ReadView;

    open spec fn view(&self) -> ReadView {
        ReadView {
            shapes: self.shapes@,
            state: self.state@,
            moments: self.moments@,
            active_only: self.active_only,
        }
    }
}

/// How deep the deepest row of a state is.
fn depth_limit(state: &Prospective) -> (r: usize)
    ensures
        within(state@, r as nat),
        state@.dom().finite(),
{
    let all = state.addresses();
    let mut r: usize = 0;
    let mut i: usize = 0;
    while i < all.len()
        invariant
            i <= all@.len(),
            forall|j: int| 0 <= j < i ==> (#[trigger] all@[j])@.len() <= r,
        decreases all@.len() - i,
    {
        let d: usize = all[i].depth();
        if d > r {
            r = d;
        }
        i = i + 1;
    }
    proof {
        assert forall|a: Seq<StepView>| #[trigger] state@.contains_key(a) implies a.len() <= r by {
            assert(address_views(all@).contains(a));
            let j = choose|j: int| 0 <= j < address_views(all@).len() && address_views(all@)[j] == a;
            assert(all@[j]@ == a);
        }
        assert(address_views(all@).to_set() == state@.dom());
        vstd::seq_lib::seq_to_set_is_finite(address_views(all@));
    }
    r
}

fn interval_cell(bound: Option<Timestamp>) -> (r: Cell)
    ensures
        r@ == bound_cell(bound),
{
    match bound {
        Some(t) => Cell::Scalar(Value::Timestamp(t)),
        None => Cell::Scalar(Value::Absent),
    }
}

/// Add the bounds of an interval to a row.
fn with_interval_cells(row: Row, interval: Interval) -> (r: Row)
    ensures
        r@ == (RowView {
            cells: row@.cells.push(("$from"@, bound_cell(interval.0))).push(("$until"@, bound_cell(interval.1))),
            ..row@
        }),
{
    proof {
        lemma_row(row);
    }
    let ghost before = row@.cells;
    let Row { id, key, cells } = row;
    let mut more = cells;
    more.push((String::from_str("$from"), interval_cell(interval.0)));
    more.push((String::from_str("$until"), interval_cell(interval.1)));
    let r = Row { id, key, cells: more };
    proof {
        lemma_row(r);
        assert(r@.cells =~= before.push(("$from"@, bound_cell(interval.0))).push(("$until"@, bound_cell(interval.1))));
    }
    r
}

impl<'a> Read<'a> {
    fn build_row(&self, address: &RowAddress, shape: usize, id: RowId, limit: usize) -> (r: Row)
        requires
            shapes_ok(self.shapes@),
            shape < self.shapes@.len(),
            self.state@.contains_key(address@),
            address@.len() <= limit,
        ensures
            r@ == row_shown(self@, address@, shape as int, id@, address@.len(), limit as nat),
        decreases limit - address@.len(), 1int,
    {
        let decl = &self.shapes[shape];
        let _depth: usize = address.depth();
        let steps = address.steps();
        let last = &steps[steps.len() - 1];
        proof {
            assert(address@.last() == last@);
            assert(members_ok(decl.members@, self.shapes@.len()));
        }
        let key = key_identity(&decl.key, &last.key);
        let ghost want = row_shown(self@, address@, shape as int, id@, address@.len(), limit as nat);
        let mut cells: Vec<(String, Cell)> = Vec::new();
        let n: usize = decl.members.len();
        let mut i: usize = 0;
        while i < n
            invariant
                n == decl.members@.len(),
                shape < self.shapes@.len(),
                *decl == self.shapes@[shape as int],
                shapes_ok(self.shapes@),
                members_ok(decl.members@, self.shapes@.len()),
                self.state@.contains_key(address@),
                address@.len() <= limit,
                want == row_shown(self@, address@, shape as int, id@, address@.len(), limit as nat),
                i <= n,
                cells@.len() == i,
                forall|j: int|
                    0 <= j < i ==> (#[trigger] cells@[j]).0@ == want.cells[j].0 && cells@[j].1@ == want.cells[j].1,
            decreases n - i,
        {
            let member = &decl.members[i];
            proof {
                assert(decl.members@[i as int] == *member);
            }
            let cell = match member.nested {
                Some(nested) => {
                    let path = CollectionPath::nested(address, member.name.clone());
                    proof {
                        assert(path@ == (address@, member.name@));
                    }
                    let rows = self.rows_at(&path, nested, &id, limit);
                    let cell = Cell::Collection(rows);
                    proof {
                        lemma_cell(cell);
                    }
                    cell
                },
                None => match self.state.get(address) {
                    Some(fields) => match fields.get(&member.name) {
                        Some(v) => Cell::Scalar(copy_value(v)),
                        None => Cell::Scalar(Value::Absent),
                    },
                    None => Cell::Scalar(Value::Absent),
                },
            };
            cells.push((member.name.clone(), cell));
            i = i + 1;
        }
        let r = Row { id, key, cells };
        proof {
            lemma_row(r);
            assert(cell_views(cells@) =~= want.cells);
        }
        r
    }

    fn rows_at(&self, path: &CollectionPath, shape: usize, id: &RowId, limit: usize) -> (r: Vec<Row>)
        requires
            shapes_ok(self.shapes@),
            shape < self.shapes@.len(),
            path@.0.len() <= limit,
        ensures
            row_views(r@) == rows_shown(self@, path@, shape as int, id@, path@.0.len(), limit as nat),
        decreases limit - path@.0.len(), 0int,
    {
        let mut r: Vec<Row> = Vec::new();
        if path.parent.len() >= limit {
            proof {
                assert(row_views(r@) =~= Seq::empty());
            }
            return r;
        }
        let all = self.state.addresses_in(path);
        let ghost addresses = address_views(all@);
        let ghost keep = |a: Seq<StepView>| is_shown(self@.moments, self@.active_only, a);
        let ghost show = |a: Seq<StepView>|
            with_bounds(
                row_shown(self@, a, shape as int, id@.push(a.last().key), path@.0.len() + 1, limit as nat),
                self@.moments,
                a,
            );
        let mut i: usize = 0;
        proof {
            reveal(Seq::filter);
            assert(row_views(r@) =~= addresses.take(0).filter(keep).map_values(show));
        }
        while i < all.len()
            invariant
                shapes_ok(self.shapes@),
                shape < self.shapes@.len(),
                path@.0.len() < limit,
                addresses == address_views(all@),
                forall|a: Seq<StepView>| #[trigger]
                    addresses.contains(a) <==> self.state@.contains_key(a) && in_collection(path@.0, path@.1, a),
                keep == (|a: Seq<StepView>| is_shown(self@.moments, self@.active_only, a)),
                show == (|a: Seq<StepView>|
                    with_bounds(
                        row_shown(self@, a, shape as int, id@.push(a.last().key), path@.0.len() + 1, limit as nat),
                        self@.moments,
                        a,
                    )),
                i <= all@.len(),
                row_views(r@) == addresses.take(i as int).filter(keep).map_values(show),
            decreases all@.len() - i,
        {
            let address = &all[i];
            let ghost done = row_views(r@);
            proof {
                assert(addresses[i as int] == address@);
                assert(addresses.contains(address@));
                assert(addresses.take(i + 1).drop_last() =~= addresses.take(i as int));
                assert(addresses.take(i + 1).last() == address@);
                reveal(Seq::filter);
            }
            let moment = self.moments.get(address);
            let kept = match moment {
                Some(m) => !self.active_only || m.active,
                None => true,
            };
            if kept {
                let mut own = id.duplicate();
                let steps = address.steps();
                let last = &steps[steps.len() - 1];
                let ghost above = own@;
                own.keys.push(last.key.duplicate());
                proof {
                    assert(address@.last() == last@);
                    assert(own@ =~= above.push(address@.last().key));
                }
                let row = self.build_row(address, shape, own, limit);
                let row = match moment {
                    Some(m) => match m.interval {
                        Some(interval) => with_interval_cells(row, interval),
                        None => row,
                    },
                    None => row,
                };
                r.push(row);
                proof {
                    assert(row@ == show(address@));
                    assert(row_views(r@) =~= done.push(row@));
                    let before = addresses.take(i as int).filter(keep);
                    assert(before.push(address@).map_values(show) =~= before.map_values(show).push(show(address@)));
                }
            }
            i = i + 1;
        }
        proof {
            assert(addresses.take(i as int) =~= addresses);
            assert(row_views(r@) =~= rows_shown(self@, path@, shape as int, id@, path@.0.len(), limit as nat));
        }
        r
    }

    /// Build the rows of a top-level collection.
    pub fn collection_rows(&self, name: &str, shape: usize) -> (r: Vec<Row>)
        requires
            shapes_ok(self.shapes@),
            shape < self.shapes@.len(),
        ensures
            forall|limit: nat| #[trigger]
                within(self.state@, limit) ==> row_views(r@) == rows_shown(
                    self@,
                    (Seq::empty(), name@),
                    shape as int,
                    Seq::empty(),
                    0,
                    limit,
                ),
    {
        let deepest: usize = depth_limit(self.state);
        let path = CollectionPath::top(String::from_str(name));
        let id = RowId { keys: Vec::new() };
        proof {
            assert(id@ =~= Seq::empty());
            assert(path@ == (Seq::<StepView>::empty(), name@));
        }
        let r = self.rows_at(&path, shape, &id, deepest);
        proof {
            assert forall|limit: nat| #[trigger] within(self.state@, limit) implies row_views(r@) == rows_shown(
                self@,
                (Seq::empty(), name@),
                shape as int,
                Seq::empty(),
                0,
                limit,
            ) by {
                lemma_limit(self@, path@, shape as int, id@, 0, deepest as nat, limit);
            }
        }
        r
    }

    /// Build the row at an address; none where no row lives there.
    pub fn materialize_row(&self, address: &RowAddress, shape: usize) -> (r: Option<Row>)
        requires
            shapes_ok(self.shapes@),
            shape < self.shapes@.len(),
        ensures
            match r {
                None => !self.state@.contains_key(address@),
                Some(row) => self.state@.contains_key(address@) && forall|limit: nat| #[trigger]
                    within(self.state@, limit) ==> row@ == row_shown(
                        self@,
                        address@,
                        shape as int,
                        seq![address@.last().key],
                        address@.len(),
                        limit,
                    ),
            },
    {
        if !self.state.contains(address) {
            return None;
        }
        let deepest: usize = depth_limit(self.state);
        let steps = address.steps();
        let last = &steps[steps.len() - 1];
        let mut keys: Vec<KeyValue> = Vec::new();
        keys.push(last.key.duplicate());
        let id = RowId { keys };
        proof {
            assert(address@.last() == last@);
            assert(id@ =~= seq![address@.last().key]);
        }
        let row = self.build_row(address, shape, id, deepest);
        proof {
            assert forall|limit: nat| #[trigger] within(self.state@, limit) implies row@ == row_shown(
                self@,
                address@,
                shape as int,
                seq![address@.last().key],
                address@.len(),
                limit,
            ) by {
                assert(address@.len() <= limit);
                lemma_limit_row(self@, address@, shape as int, id@, address@.len(), deepest as nat, limit);
            }
        }
        Some(row)
    }

    /// Build the root row: a cell for each collection of the root, then the given cells
    /// of its single fields.
    pub fn materialize_root(&self, root: &Vec<MemberDecl>, singles: &Vec<(String, Cell)>) -> (r: Row)
        requires
            shapes_ok(self.shapes@),
            members_ok(root@, self.shapes@.len()),
        ensures
            forall|limit: nat| #[trigger]
                within(self.state@, limit) ==> r@ == (RowView {
                    id: Seq::empty(),
                    key: ValueView::Absent,
                    cells: root_cells(self@, root@, root@.len(), limit) + cell_views(singles@),
                }),
    {
        let deepest: usize = depth_limit(self.state);
        let mut cells: Vec<(String, Cell)> = Vec::new();
        let n: usize = root.len();
        let mut i: usize = 0;
        proof {
            assert(cell_views(cells@) =~= root_cells(self@, root@, 0, deepest as nat));
        }
        while i < n
            invariant
                n == root@.len(),
                shapes_ok(self.shapes@),
                members_ok(root@, self.shapes@.len()),
                within(self.state@, deepest as nat),
                i <= n,
                cell_views(cells@) == root_cells(self@, root@, i as nat, deepest as nat),
            decreases n - i,
        {
            let ghost done = cell_views(cells@);
            let member = &root[i];
            proof {
                assert(root@[i as int] == *member);
            }
            if let Some(shape) = member.nested {
                let rows = self.collection_rows(member.name.as_str(), shape);
                let cell = Cell::Collection(rows);
                proof {
                    lemma_cell(cell);
                }
                cells.push((member.name.clone(), cell));
                proof {
                    assert(cell_views(cells@) =~= done.push((member.name@, cell@)));
                }
            }
            i = i + 1;
        }
        let ghost collections = cell_views(cells@);
        let mut k: usize = 0;
        proof {
            assert(cell_views(singles@).take(0) =~= Seq::empty());
            assert(collections + cell_views(singles@).take(0) =~= collections);
        }
        while k < singles.len()
            invariant
                k <= singles@.len(),
                cell_views(cells@) == collections + cell_views(singles@).take(k as int),
            decreases singles@.len() - k,
        {
            let ghost done = cell_views(cells@);
            let ghost more = cell_views(singles@);
            let cell = copy_cell(&singles[k].1);
            cells.push((singles[k].0.clone(), cell));
            proof {
                assert(cell_views(cells@) =~= done.push(more[k as int]));
                assert(more.take(k + 1) =~= more.take(k as int).push(more[k as int]));
                assert(collections + more.take(k + 1) =~= (collections + more.take(k as int)).push(more[k as int]));
            }
            k = k + 1;
        }
        let id = RowId { keys: Vec::new() };
        let r = Row { id, key: Value::Absent, cells };
        proof {
            lemma_row(r);
            assert(id@ =~= Seq::empty());
            assert(cell_views(singles@).take(k as int) =~= cell_views(singles@));
            assert forall|limit: nat| #[trigger] within(self.state@, limit) implies root_cells(
                self@,
                root@,
                root@.len(),
                limit,
            ) == root_cells(self@, root@, root@.len(), deepest as nat) by {
                lemma_root_limit(self@, root@, root@.len(), deepest as nat, limit);
            }
        }
        r
    }
}

/// The cells of the first `n` members of the root that are collections.
pub open spec fn root_cells(read: ReadView, root: Seq<MemberDecl>, n: nat, limit: nat) -> Seq<(Seq<char>, CellView)>
    decreases n,
{
    if n == 0 {
        Seq::empty()
    } else {
        let before = root_cells(read, root, (n - 1) as nat, limit);
        match root[n - 1].nested {
            Some(shape) => before.push(
                (
                    root[n - 1].name@,
                    CellView::Collection(
                        rows_shown(read, (Seq::empty(), root[n - 1].name@), shape as int, Seq::empty(), 0, limit),
                    ),
                ),
            ),
            None => before,
        }
    }
}

proof fn lemma_root_limit(read: ReadView, root: Seq<MemberDecl>, n: nat, a: nat, b: nat)
    requires
        read.state.dom().finite(),
        within(read.state, a),
        within(read.state, b),
    ensures
        root_cells(read, root, n, a) == root_cells(read, root, n, b),
    decreases n,
{
    if n > 0 {
        lemma_root_limit(read, root, (n - 1) as nat, a, b);
        if let Some(shape) = root[n - 1].nested {
            lemma_limit(read, (Seq::empty(), root[n - 1].name@), shape as int, Seq::empty(), 0, a, b);
        }
    }
}

/// Members of distinct names are the fields under their names.
proof fn lemma_fields_in(members: Seq<(Seq<char>, ValueView)>)
    requires
        forall|i: int, j: int| 0 <= i < j < members.len() ==> (#[trigger] members[i]).0 != (#[trigger] members[j]).0,
    ensures
        forall|i: int|
            0 <= i < members.len() ==> fields_in(members).contains_key((#[trigger] members[i]).0) && fields_in(
                members,
            )[members[i].0] == members[i].1,
        forall|k: Seq<char>| #[trigger]
            fields_in(members).contains_key(k) ==> exists|i: int| 0 <= i < members.len() && (#[trigger] members[i]).0 == k,
    decreases members.len(),
{
    if members.len() > 0 {
        let before = members.drop_last();
        let n = members.len() - 1;
        lemma_fields_in(before);
        assert forall|i: int| 0 <= i < members.len() implies fields_in(members).contains_key((#[trigger] members[i]).0)
            && fields_in(members)[members[i].0] == members[i].1 by {
            if i < n {
                assert(before[i] == members[i]);
                assert(members[i].0 != members[n].0);
            }
        }
        assert forall|k: Seq<char>| #[trigger] fields_in(members).contains_key(k) implies exists|i: int|
            0 <= i < members.len() && (#[trigger] members[i]).0 == k by {
            if k == members[n].0 {
            } else {
                assert(fields_in(before).contains_key(k));
                let i = choose|i: int| 0 <= i < before.len() && (#[trigger] before[i]).0 == k;
                assert(members[i].0 == k);
            }
        }
    }
}

/// The stored form of a row reads back as the row.
pub proof fn law_stored_read_back(fields: FieldsView)
    requires
        fields.dom().finite(),
    ensures
        stored_fields(stored_form(fields)) == fields,
{
    lemma_sorted_exists::<String>(fields.dom());
    let names = sorted::<String>(fields.dom());
    let members = Seq::new(names.len(), |i: int| (names[i], fields[names[i]]));
    assert forall|i: int, j: int| 0 <= i < j < members.len() implies (#[trigger] members[i]).0 != (
    #[trigger] members[j]).0 by {
        if names[i] == names[j] {
            lemma_ascending_distinct::<String>(names, i, j);
        }
    }
    lemma_fields_in(members);
    let back = fields_in(members);
    assert forall|k: Seq<char>| back.contains_key(k) <==> fields.contains_key(k) by {
        if fields.contains_key(k) {
            assert(names.to_set().contains(k));
            let i = choose|i: int| 0 <= i < names.len() && names[i] == k;
            assert(members[i].0 == k);
        }
        if back.contains_key(k) {
            let i = choose|i: int| 0 <= i < members.len() && (#[trigger] members[i]).0 == k;
            assert(names.to_set().contains(names[i]));
        }
    }
    assert forall|k: Seq<char>| back.contains_key(k) implies back[k] == fields[k] by {
        let i = choose|i: int| 0 <= i < members.len() && (#[trigger] members[i]).0 == k;
        assert(members[i].1 == fields[k]);
    }
    assert(back =~= fields);
}

/// A bare read shows no inactive row, and a read of everything shows every row of a
/// collection.
pub proof fn law_shown_rows(
    state: StateView,
    moments: Map<Seq<StepView>, Moment>,
    path: (Seq<StepView>, Seq<char>),
    address: Seq<StepView>,
)
    requires
        state.dom().finite(),
    ensures
        shown_rows(state, moments, true, path).contains(address) <==> state.contains_key(address) && in_collection(
            path.0,
            path.1,
            address,
        ) && (moments.contains_key(address) ==> moments[address].active),
        shown_rows(state, moments, false, path).contains(address) <==> state.contains_key(address) && in_collection(
            path.0,
            path.1,
            address,
        ),
{
    broadcast use vstd::seq_lib::group_filter_ensures;

    let here = state.dom().filter(|x: Seq<StepView>| in_collection(path.0, path.1, x));
    lemma_sorted_exists::<RowAddress>(here);
    let all = rows_of(state, path);
    assert(all.to_set().contains(address) <==> here.contains(address));
    assert(all.contains(address) <==> here.contains(address));
    assert forall|active_only: bool| shown_rows(state, moments, active_only, path).contains(address) <==> all.contains(
        address,
    ) && #[trigger] is_shown(moments, active_only, address) by {
        let keep = |a: Seq<StepView>| is_shown(moments, active_only, a);
        let kept = all.filter(keep);
        if kept.contains(address) {
            all.lemma_filter_contains_rev(keep, address);
            let i = choose|i: int| 0 <= i < kept.len() && kept[i] == address;
            assert(keep(kept[i]));
        }
        if all.contains(address) && is_shown(moments, active_only, address) {
            let i = choose|i: int| 0 <= i < all.len() && all[i] == address;
            assert(keep(all[i]));
            all.lemma_filter_contains(keep, i);
        }
    }
    assert(is_shown(moments, false, address));
    let bare = is_shown(moments, true, address);
}

} // verus!
