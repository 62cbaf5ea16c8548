//! Rows as a reader sees them: cells under names, each a value, a row, or a
//! collection of rows.

use crate::address::{KeyValue, RowAddress, StepView};
use crate::order::Duplicate;
use crate::text::same_text;
use crate::value::{copy_value, Value, ValueView};
use vstd::prelude::*;

verus! {

/// The identity of a row: the key at each level from the root down.
#[derive(Debug)]
pub struct RowId {
    pub keys: Vec<KeyValue>,
}

/// What a row of keys denotes.
pub open spec fn key_views(keys: Seq<KeyValue>) -> Seq<Seq<ValueView>> {
    Seq::new(keys.len(), |i: int| keys[i]@)
}

impl View for RowId {
    type V = Seq<Seq<ValueView>>;

    open spec fn view(&self) -> Seq<Seq<ValueView>> {
        key_views(self.keys@)
    }
}

impl Duplicate for RowId {
    fn duplicate(&self) -> (r: Self) {
        let mut keys: Vec<KeyValue> = Vec::new();
        let mut i: usize = 0;
        while i < self.keys.len()
            invariant
                i <= self.keys@.len(),
                keys@.len() == i,
                forall|j: int| 0 <= j < i ==> (#[trigger] keys@[j])@ == self.keys@[j]@,
            decreases self.keys@.len() - i,
        {
            keys.push(self.keys[i].duplicate());
            i = i + 1;
        }
        let r = RowId { keys };
        proof {
            assert(r@ =~= self@);
        }
        r
    }
}

/// The key of each step of an address.
pub open spec fn keys_along(address: Seq<StepView>) -> Seq<Seq<ValueView>> {
    Seq::new(address.len(), |i: int| address[i].key)
}

/// The identity of the row at an address: the key of each step.
pub fn row_id_of(address: &RowAddress) -> (r: RowId)
    ensures
        r@ == keys_along(address@),
{
    let steps = address.steps();
    let mut keys: Vec<KeyValue> = Vec::new();
    let mut i: usize = 0;
    while i < steps.len()
        invariant
            i <= steps@.len(),
            keys@.len() == i,
            forall|j: int| 0 <= j < i ==> (#[trigger] keys@[j])@ == steps@[j].key@,
        decreases steps@.len() - i,
    {
        keys.push(steps[i].key.duplicate());
        i = i + 1;
    }
    let r = RowId { keys };
    proof {
        assert forall|j: int| 0 <= j < steps@.len() implies r@[j] == keys_along(address@)[j] by {
            assert(address@[j] == steps@[j]@);
        }
        assert(r@ =~= keys_along(address@));
    }
    r
}

/// A cell of a row.
#[derive(Debug)]
pub enum Cell {
    Scalar(Value),
    Row(Box<Row>),
    Collection(Vec<Row>),
}

/// A row as a reader sees it.
#[derive(Debug)]
pub struct Row {
    pub id: RowId,
    pub key: Value,
    pub cells: Vec<(String, Cell)>,
}

/// What a [`Cell`] denotes.
#[verifier::ext_equal]
pub enum CellView {
    Scalar(ValueView),
    Row(Box<RowView>),
    Collection(Seq<RowView>),
}

/// What a [`Row`] denotes.
#[verifier::ext_equal]
pub struct RowView {
    pub id: Seq<Seq<ValueView>>,
    pub key: ValueView,
    pub cells: Seq<(Seq<char>, CellView)>,
}

/// What a cell denotes.
pub open spec fn cell_denoted(c: Cell) -> CellView
    decreases c,
{
    match c {
        Cell::Scalar(v) => CellView::Scalar(v@),
        Cell::Row(row) => CellView::Row(Box::new(row_denoted(*row))),
        Cell::Collection(rows) => CellView::Collection(
            Seq::new(
                rows@.len(),
                |i: int|
                    if 0 <= i < rows@.len() {
                        row_denoted(rows@[i])
                    } else {
                        arbitrary()
                    },
            ),
        ),
    }
}

/// What a row denotes.
pub open spec fn row_denoted(r: Row) -> RowView
    decreases r,
{
    RowView {
        id: r.id@,
        key: r.key@,
        cells: Seq::new(
            r.cells@.len(),
            |i: int|
                if 0 <= i < r.cells@.len() {
                    (r.cells@[i].0@, cell_denoted(r.cells@[i].1))
                } else {
                    arbitrary()
                },
        ),
    }
}

impl View for Cell {
    type V = CellView;

    open spec fn view(&self) -> CellView {
        cell_denoted(*self)
    }
}

impl View for Row {
    type V = RowView;

    open spec fn view(&self) -> RowView {
        row_denoted(*self)
    }
}

/// What a row of rows denotes.
pub open spec fn row_views(rows: Seq<Row>) -> Seq<RowView> {
    Seq::new(rows.len(), |i: int| rows[i]@)
}

/// What named cells denote.
pub open spec fn cell_views(cells: Seq<(String, Cell)>) -> Seq<(Seq<char>, CellView)> {
    Seq::new(cells.len(), |i: int| (cells[i].0@, cells[i].1@))
}

/// A row denotes what its cells denote, under their names.
pub proof fn lemma_row(r: Row)
    ensures
        r@ == (RowView { id: r.id@, key: r.key@, cells: cell_views(r.cells@) }),
{
    assert(r@.cells =~= cell_views(r.cells@));
}

/// A collection cell denotes what its rows denote.
pub proof fn lemma_cell(c: Cell)
    ensures
        c matches Cell::Collection(rows) ==> c@ == CellView::Collection(row_views(rows@)),
        c matches Cell::Row(row) ==> c@ == CellView::Row(Box::new(row@)),
        c matches Cell::Scalar(v) ==> c@ == CellView::Scalar(v@),
{
    match c {
        Cell::Collection(rows) => {
            assert(c@->Collection_0 =~= row_views(rows@));
        },
        _ => {},
    }
}

/// Copy a cell.
pub fn copy_cell(c: &Cell) -> (r: Cell)
    ensures
        r@ == c@,
    decreases *c,
{
    let r = match c {
        Cell::Scalar(v) => Cell::Scalar(copy_value(v)),
        Cell::Row(row) => Cell::Row(Box::new(copy_row(row))),
        Cell::Collection(rows) => Cell::Collection(copy_rows(rows)),
    };
    proof {
        lemma_cell(*c);
        lemma_cell(r);
    }
    r
}

/// Copy a row.
pub fn copy_row(row: &Row) -> (r: Row)
    ensures
        r@ == row@,
    decreases *row,
{
    let r = Row { id: row.id.duplicate(), key: copy_value(&row.key), cells: copy_cells(&row.cells) };
    proof {
        lemma_row(*row);
        lemma_row(r);
    }
    r
}

/// Copy rows.
pub fn copy_rows(rows: &Vec<Row>) -> (r: Vec<Row>)
    ensures
        row_views(r@) == row_views(rows@),
        r@.len() == rows@.len(),
    decreases rows@,
{
    let mut r: Vec<Row> = Vec::new();
    let mut i: usize = 0;
    while i < rows.len()
        invariant
            i <= rows@.len(),
            r@.len() == i,
            forall|j: int| 0 <= j < i ==> (#[trigger] r@[j])@ == rows@[j]@,
        decreases rows@.len() - i,
    {
        r.push(copy_row(&rows[i]));
        i = i + 1;
    }
    proof {
        assert(row_views(r@) =~= row_views(rows@));
    }
    r
}

/// Copy named cells.
pub fn copy_cells(cells: &Vec<(String, Cell)>) -> (r: Vec<(String, Cell)>)
    ensures
        cell_views(r@) == cell_views(cells@),
        r@.len() == cells@.len(),
    decreases cells@,
{
    let mut r: Vec<(String, Cell)> = Vec::new();
    let mut i: usize = 0;
    while i < cells.len()
        invariant
            i <= cells@.len(),
            r@.len() == i,
            forall|j: int|
                0 <= j < i ==> (#[trigger] r@[j]).0@ == cells@[j].0@ && r@[j].1@ == cells@[j].1@,
        decreases cells@.len() - i,
    {
        r.push((cells[i].0.clone(), copy_cell(&cells[i].1)));
        i = i + 1;
    }
    proof {
        assert(cell_views(r@) =~= cell_views(cells@));
    }
    r
}

/// The first cell under this name.
pub open spec fn cell_named(cells: Seq<(Seq<char>, CellView)>, name: Seq<char>) -> Option<CellView>
    decreases cells.len(),
{
    if cells.len() == 0 {
        None
    } else if cells[0].0 == name {
        Some(cells[0].1)
    } else {
        cell_named(cells.drop_first(), name)
    }
}

impl Row {
    /// The first cell under this name.
    pub fn cell(&self, name: &str) -> (r: Option<&Cell>)
        ensures
            match r {
                Some(c) => cell_named(self@.cells, name@) == Some(c@),
                None => cell_named(self@.cells, name@) is None,
            },
    {
        proof {
            lemma_row(*self);
        }
        let ghost all = cell_views(self.cells@);
        let mut i: usize = 0;
        proof {
            assert(all.skip(0) =~= all);
        }
        while i < self.cells.len()
            invariant
                all == cell_views(self.cells@),
                i <= self.cells@.len(),
                cell_named(all, name@) == cell_named(all.skip(i as int), name@),
                self@.cells == all,
            decreases self.cells@.len() - i,
        {
            if same_text(self.cells[i].0.as_str(), name) {
                return Some(&self.cells[i].1);
            }
            proof {
                assert(all.skip(i as int).drop_first() =~= all.skip(i + 1));
            }
            i = i + 1;
        }
        None
    }
}

} // verus!
