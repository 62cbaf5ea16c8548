//! The pools open to a spend: which are active and eligible, and in which order they
//! are drawn from.

use crate::cell::{
    cell_named, cell_views, copy_cell, copy_cells, lemma_cell, lemma_row, row_views, Cell, CellView, Row, RowId,
    RowView,
};
use crate::decimal::Decimal;
use crate::funding::{pool_views, quantity_view, Pool, PoolView};
use crate::order::{Duplicate, Key, Order};
use crate::patch::{same_id, IdView};
use crate::rejection::{outcome, refused, Rejection, RejectionReason, RejectionView};
use crate::text::{concat3, order_text, same_text, text_before};
use crate::time::Timestamp;
use crate::value::{copy_value, copy_values, order_values, same_value, value_before, views, Value, ValueView};
use vstd::prelude::*;

verus! {

/// The bounds a row is active between; a bound that is not there is open.
pub type Interval = (Option<Timestamp>, Option<Timestamp>);

/// Whether an interval holds an instant: its start does, its end does not.
pub open spec fn is_active(interval: Interval, time: Timestamp) -> bool {
    &&& interval.0 matches Some(from) ==> time.instant() >= from.instant()
    &&& interval.1 matches Some(until) ==> time.instant() < until.instant()
}

/// Whether an interval holds an instant.
pub fn active_at(interval: Interval, time: Timestamp) -> (r: bool)
    ensures
        r == is_active(interval, time),
{
    let started = match interval.0 {
        Some(from) => !time.earlier_than(from),
        None => true,
    };
    let open = match interval.1 {
        Some(until) => time.earlier_than(until),
        None => true,
    };
    started && open
}

/// The instant a row has under a name.
pub open spec fn bound_of(cells: Seq<(Seq<char>, CellView)>, name: Seq<char>) -> Option<Timestamp> {
    match cell_named(cells, name) {
        Some(CellView::Scalar(ValueView::Timestamp(t))) => Some(t),
        _ => None,
    }
}

/// The interval a row carries.
pub open spec fn row_bounds(cells: Seq<(Seq<char>, CellView)>) -> Interval {
    (bound_of(cells, "$from"@), bound_of(cells, "$until"@))
}

fn bound(row: &Row, name: &str) -> (r: Option<Timestamp>)
    ensures
        r == bound_of(row@.cells, name@),
{
    match row.cell(name) {
        Some(c) => {
            proof {
                lemma_cell(*c);
            }
            match c {
                Cell::Scalar(Value::Timestamp(t)) => Some(*t),
                _ => None,
            }
        },
        None => None,
    }
}

/// The interval a row carries.
pub fn row_interval(row: &Row) -> (r: Interval)
    ensures
        r == row_bounds(row@.cells),
{
    (bound(row, "$from"), bound(row, "$until"))
}

/// The intervals of a row and of every row in it, by identity, from the outside in.
pub open spec fn intervals_in(row: RowView) -> Seq<(IdView, Interval)>
    decreases row, 0int,
{
    let own = row_bounds(row.cells);
    let first = if own.0 is Some || own.1 is Some {
        seq![(row.id, own)]
    } else {
        Seq::empty()
    };
    first + intervals_of_cells(row.cells, row.cells.len() as int)
}

/// The intervals in the first `n` of these cells.
pub open spec fn intervals_of_cells(cells: Seq<(Seq<char>, CellView)>, n: int) -> Seq<(IdView, Interval)>
    decreases cells, n,
{
    if n <= 0 || n > cells.len() {
        Seq::empty()
    } else {
        intervals_of_cells(cells, n - 1) + intervals_of_cell(cells[n - 1].1)
    }
}

/// The intervals in a cell.
pub open spec fn intervals_of_cell(cell: CellView) -> Seq<(IdView, Interval)>
    decreases cell, 0int,
{
    match cell {
        CellView::Scalar(_) => Seq::empty(),
        CellView::Row(row) => intervals_in(*row),
        CellView::Collection(rows) => intervals_of_rows(rows, rows.len() as int),
    }
}

/// The intervals in the first `n` of these rows.
pub open spec fn intervals_of_rows(rows: Seq<RowView>, n: int) -> Seq<(IdView, Interval)>
    decreases rows, n,
{
    if n <= 0 || n > rows.len() {
        Seq::empty()
    } else {
        intervals_of_rows(rows, n - 1) + intervals_in(rows[n - 1])
    }
}

/// What intervals by identity denote.
pub open spec fn index_view(index: Seq<(RowId, Interval)>) -> Seq<(IdView, Interval)> {
    Seq::new(index.len(), |i: int| (index[i].0@, index[i].1))
}

/// The interval of a row: the last one under its identity, or an open one.
pub open spec fn interval_for(index: Seq<(IdView, Interval)>, id: IdView) -> Interval
    decreases index.len(),
{
    if index.len() == 0 {
        (None, None)
    } else if index.last().0 == id {
        index.last().1
    } else {
        interval_for(index.drop_last(), id)
    }
}

/// Collect the intervals of a row and of every row in it.
pub fn collect_intervals(row: &Row, index: &mut Vec<(RowId, Interval)>)
    ensures
        index_view(final(index)@) == index_view(old(index)@) + intervals_in(row@),
    decreases *row, 0int,
{
    let ghost start = index_view(index@);
    proof {
        lemma_row(*row);
    }
    let own = row_interval(row);
    let ghost mut first = Seq::<(IdView, Interval)>::empty();
    if own.0.is_some() || own.1.is_some() {
        index.push((row.id.duplicate(), own));
        proof {
            first = seq![(row@.id, own)];
            assert(index_view(index@) =~= start + first);
        }
    }
    proof {
        assert(index_view(index@) =~= start + first);
    }
    let ghost cells = row@.cells;
    let mut i: usize = 0;
    proof {
        assert(index_view(index@) =~= start + first + intervals_of_cells(cells, 0));
    }
    while i < row.cells.len()
        invariant
            cells == row@.cells,
            cells == cell_views(row.cells@),
            i <= row.cells@.len(),
            index_view(index@) == start + first + intervals_of_cells(cells, i as int),
        decreases row.cells@.len() - i,
    {
        let ghost before = index_view(index@);
        proof {
            assert(cells[i as int].1 == row.cells@[i as int].1@);
        }
        collect_in_cell(&row.cells[i].1, index);
        proof {
            assert(index_view(index@) =~= start + first + intervals_of_cells(cells, i + 1));
        }
        i = i + 1;
    }
    proof {
        assert(index_view(index@) =~= start + intervals_in(row@));
    }
}

fn collect_in_cell(cell: &Cell, index: &mut Vec<(RowId, Interval)>)
    ensures
        index_view(final(index)@) == index_view(old(index)@) + intervals_of_cell(cell@),
    decreases *cell, 0int,
{
    let ghost start = index_view(index@);
    proof {
        lemma_cell(*cell);
    }
    match cell {
        Cell::Scalar(_) => {
            proof {
                assert(index_view(index@) =~= start + Seq::<(IdView, Interval)>::empty());
            }
        },
        Cell::Row(row) => collect_intervals(row, index),
        Cell::Collection(rows) => collect_in_rows(rows, index),
    }
}

fn collect_in_rows(rows: &Vec<Row>, index: &mut Vec<(RowId, Interval)>)
    ensures
        index_view(final(index)@) == index_view(old(index)@) + intervals_of_rows(row_views(rows@), rows@.len() as int),
    decreases rows@, 0int,
{
    let ghost start = index_view(index@);
    let ghost all = row_views(rows@);
    let mut i: usize = 0;
    proof {
        assert(index_view(index@) =~= start + intervals_of_rows(all, 0));
    }
    while i < rows.len()
        invariant
            all == row_views(rows@),
            i <= rows@.len(),
            index_view(index@) == start + intervals_of_rows(all, i as int),
        decreases rows@.len() - i,
    {
        let ghost before = index_view(index@);
        proof {
            assert(all[i as int] == rows@[i as int]@);
        }
        collect_intervals(&rows[i], index);
        proof {
            assert(index_view(index@) =~= start + intervals_of_rows(all, i + 1));
        }
        i = i + 1;
    }
}

fn find_interval(index: &Vec<(RowId, Interval)>, id: &RowId) -> (r: Interval)
    ensures
        r == interval_for(index_view(index@), id@),
{
    let ghost all = index_view(index@);
    let mut i: usize = index.len();
    proof {
        assert(all.take(i as int) =~= all);
    }
    while i > 0
        invariant
            all == index_view(index@),
            i <= index@.len(),
            interval_for(all, id@) == interval_for(all.take(i as int), id@),
        decreases i,
    {
        proof {
            assert(all.take(i as int).drop_last() =~= all.take(i - 1));
            assert(all.take(i as int).last() == all[i - 1]);
        }
        i = i - 1;
        if same_id(&index[i].0, id) {
            return index[i].1;
        }
    }
    (None, None)
}

/// A value as a decimal: a decimal, or a whole number.
pub open spec fn number_in(value: ValueView) -> Result<real, RejectionView> {
    match value {
        ValueView::Decimal(d) => Ok(d),
        ValueView::Int(i) => Ok(i as real),
        _ => Err(refused(RejectionReason::TypeError, "meter quantity is not a number"@)),
    }
}

/// Read a value as a decimal.
pub fn decimal_of(value: &Value) -> (r: Result<Decimal, Rejection>)
    ensures
        outcome(r) == number_in(value@),
{
    match value {
        Value::Decimal(d) => Ok(d.duplicate()),
        Value::Int(i) => Ok(i.decimal()),
        _ => Err(Rejection::new(RejectionReason::TypeError, "meter quantity is not a number")),
    }
}

/// The capacity a pool row shows, where it shows one.
pub open spec fn capacity_in(cells: Seq<(Seq<char>, CellView)>) -> Result<Option<real>, RejectionView> {
    match cell_named(cells, "$quantity"@) {
        Some(CellView::Scalar(v)) => match number_in(v) {
            Ok(q) => Ok(Some(q)),
            Err(e) => Err(e),
        },
        _ => Ok(None),
    }
}

fn pool_quantity(row: &Row) -> (r: Result<Option<Decimal>, Rejection>)
    ensures
        match (r, capacity_in(row@.cells)) {
            (Ok(q), Ok(x)) => quantity_view(q) == x,
            (Err(e), Err(x)) => e@ == x,
            _ => false,
        },
{
    match row.cell("$quantity") {
        Some(c) => {
            proof {
                lemma_cell(*c);
            }
            match c {
                Cell::Scalar(v) => {
                    let q = decimal_of(v)?;
                    Ok(Some(q))
                },
                _ => Ok(None),
            }
        },
        None => Ok(None),
    }
}

/// Cells with one of them set: the first of the name, or a new one.
pub open spec fn cells_with(cells: Seq<(Seq<char>, CellView)>, name: Seq<char>, cell: CellView) -> Seq<
    (Seq<char>, CellView),
>
    decreases cells.len(),
{
    if cells.len() == 0 {
        seq![(name, cell)]
    } else if cells[0].0 == name {
        seq![(name, cell)] + cells.drop_first()
    } else {
        seq![cells[0]] + cells_with(cells.drop_first(), name, cell)
    }
}

proof fn lemma_cells_with(cells: Seq<(Seq<char>, CellView)>, name: Seq<char>, cell: CellView, n: int)
    requires
        0 <= n <= cells.len(),
        forall|j: int| 0 <= j < n ==> (#[trigger] cells[j]).0 != name,
    ensures
        cells_with(cells, name, cell) == cells.take(n) + cells_with(cells.skip(n), name, cell),
    decreases n,
{
    if n == 0 {
        assert(cells.skip(0) =~= cells);
        assert(cells.take(0) + cells_with(cells, name, cell) =~= cells_with(cells, name, cell));
    } else {
        let rest = cells.drop_first();
        assert forall|j: int| 0 <= j < n - 1 implies (#[trigger] rest[j]).0 != name by {
            assert(rest[j] == cells[j + 1]);
        }
        lemma_cells_with(rest, name, cell, n - 1);
        assert(rest.skip(n - 1) =~= cells.skip(n));
        assert(cells.take(n) =~= seq![cells[0]] + rest.take(n - 1));
        assert(cells[0].0 != name);
        assert(seq![cells[0]] + (rest.take(n - 1) + cells_with(rest.skip(n - 1), name, cell)) =~= cells.take(n)
            + cells_with(cells.skip(n), name, cell));
    }
}

/// Set a cell: the first of the name, or a new one.
pub fn set_cell(cells: &mut Vec<(String, Cell)>, name: &str, cell: Cell)
    ensures
        cell_views(final(cells)@) == cells_with(cell_views(old(cells)@), name@, cell@),
{
    let ghost all = cell_views(cells@);
    let ghost shown = cell@;
    let n: usize = cells.len();
    let mut i: usize = 0;
    while i < n && !same_text(cells[i].0.as_str(), name)
        invariant
            all == cell_views(cells@),
            all == cell_views(old(cells)@),
            n == cells@.len(),
            i <= n,
            forall|j: int| 0 <= j < i ==> (#[trigger] all[j]).0 != name@,
        decreases n - i,
    {
        i = i + 1;
    }
    proof {
        lemma_cells_with(all, name@, shown, i as int);
    }
    if i < n {
        proof {
            assert(all.skip(i as int)[0] == all[i as int]);
        }
        cells.set(i, (String::from_str(name), cell));
        proof {
            assert(cell_views(cells@) =~= all.take(i as int) + (seq![(name@, shown)] + all.skip(
                i as int,
            ).drop_first()));
        }
    } else {
        cells.push((String::from_str(name), cell));
        proof {
            assert(all.skip(i as int) =~= Seq::empty());
            assert(cell_views(cells@) =~= all.take(i as int) + seq![(name@, shown)]);
        }
    }
}

/// The cell of a bound: its instant, or absent.
pub open spec fn bound_cell(bound: Option<Timestamp>) -> CellView {
    match bound {
        Some(t) => CellView::Scalar(ValueView::Timestamp(t)),
        None => CellView::Scalar(ValueView::Absent),
    }
}

/// A pool row with the cells its eligibility and its order read: its bounds, and its
/// capacity where it has one.
pub open spec fn pool_row(row: RowView, interval: Interval, quantity: Option<real>) -> RowView {
    let bounded = cells_with(cells_with(row.cells, "$from"@, bound_cell(interval.0)), "$until"@, bound_cell(interval.1));
    RowView {
        cells: match quantity {
            Some(q) => cells_with(bounded, "$quantity"@, CellView::Scalar(ValueView::Decimal(q))),
            None => bounded,
        },
        ..row
    }
}

fn write_bound(bound: Option<Timestamp>) -> (r: Cell)
    ensures
        r@ == bound_cell(bound),
{
    match bound {
        Some(t) => Cell::Scalar(Value::Timestamp(t)),
        None => Cell::Scalar(Value::Absent),
    }
}

/// Add the cells a pool's eligibility and order read.
pub fn with_pool_cells(row: &Row, interval: Interval, quantity: &Option<Decimal>) -> (r: Row)
    ensures
        r@ == pool_row(row@, interval, quantity_view(*quantity)),
{
    proof {
        lemma_row(*row);
    }
    let mut cells = copy_cells(&row.cells);
    set_cell(&mut cells, "$from", write_bound(interval.0));
    set_cell(&mut cells, "$until", write_bound(interval.1));
    if let Some(q) = quantity {
        set_cell(&mut cells, "$quantity", Cell::Scalar(Value::Decimal(q.duplicate())));
    }
    let r = Row { id: row.id.duplicate(), key: copy_value(&row.key), cells };
    proof {
        lemma_row(r);
    }
    r
}

/// A row a source gave, and what evaluating its eligibility and its order keys came
/// to.
pub struct Candidate {
    pub row: Row,
    pub eligible: Result<bool, Rejection>,
    pub order_keys: Result<Vec<Value>, Rejection>,
}

/// A source of pools: its label, whether its rows show a capacity, and the rows it
/// gave.
pub struct SourceWork {
    pub label: String,
    pub has_quantity: bool,
    pub rows: Result<Vec<Candidate>, Rejection>,
}

/// A pool that was seen: its identity, and what another of that identity must agree
/// with.
#[verifier::ext_equal]
pub struct SeenView {
    pub source: Seq<char>,
    pub key: ValueView,
    pub quantity: Option<real>,
    pub until: Option<Timestamp>,
}

/// A resolution in progress.
#[verifier::ext_equal]
pub struct ResolveView {
    pub pools: Seq<PoolView>,
    pub seen: Seq<SeenView>,
}

/// The pool that was seen with this identity.
pub open spec fn seen_before(seen: Seq<SeenView>, source: Seq<char>, key: ValueView) -> Option<SeenView>
    decreases seen.len(),
{
    if seen.len() == 0 {
        None
    } else if seen[0].source == source && seen[0].key == key {
        Some(seen[0])
    } else {
        seen_before(seen.drop_first(), source, key)
    }
}

/// The refusal of a pool whose identity repeats with another capacity or end.
pub open spec fn disagreeing(meter: Seq<char>) -> RejectionView {
    refused(RejectionReason::Evaluation, "meter `"@ + meter + "` pool identity repeats with disagreeing capacity"@)
}

/// A resolution after one more candidate: it counts where it is active and eligible,
/// and once.
pub open spec fn candidate_resolved(
    meter: Seq<char>,
    label: Seq<char>,
    has_quantity: bool,
    index: Seq<(IdView, Interval)>,
    time: Timestamp,
    c: Candidate,
    before: ResolveView,
) -> Result<ResolveView, RejectionView> {
    let interval = interval_for(index, c.row@.id);
    if !is_active(interval, time) {
        Ok(before)
    } else {
        match if has_quantity {
            capacity_in(c.row@.cells)
        } else {
            Ok(None)
        } {
            Err(e) => Err(e),
            Ok(quantity) => match c.eligible {
                Err(e) => Err(e@),
                Ok(eligible) => if !eligible {
                    Ok(before)
                } else {
                    match seen_before(before.seen, label, c.row@.key) {
                        Some(s) => if s.quantity != quantity || s.until != interval.1 {
                            Err(disagreeing(meter))
                        } else {
                            Ok(before)
                        },
                        None => match c.order_keys {
                            Err(e) => Err(e@),
                            Ok(keys) => Ok(
                                ResolveView {
                                    pools: before.pools.push(
                                        PoolView {
                                            source: label,
                                            key: c.row@.key,
                                            quantity,
                                            order_keys: views(keys@),
                                        },
                                    ),
                                    seen: before.seen.push(
                                        SeenView { source: label, key: c.row@.key, quantity, until: interval.1 },
                                    ),
                                },
                            ),
                        },
                    }
                },
            },
        }
    }
}

/// A resolution after the first `n` candidates of a source.
pub open spec fn candidates_resolved(
    meter: Seq<char>,
    source: SourceWork,
    rows: Seq<Candidate>,
    index: Seq<(IdView, Interval)>,
    time: Timestamp,
    before: ResolveView,
    n: int,
) -> Result<ResolveView, RejectionView>
    decreases n,
{
    if n <= 0 {
        Ok(before)
    } else {
        match candidates_resolved(meter, source, rows, index, time, before, n - 1) {
            Err(e) => Err(e),
            Ok(r) => candidate_resolved(meter, source.label@, source.has_quantity, index, time, rows[n - 1], r),
        }
    }
}

/// A resolution after the first `n` sources.
pub open spec fn sources_resolved(
    meter: Seq<char>,
    sources: Seq<SourceWork>,
    index: Seq<(IdView, Interval)>,
    time: Timestamp,
    n: int,
) -> Result<ResolveView, RejectionView>
    decreases n,
{
    if n <= 0 {
        Ok(ResolveView { pools: Seq::empty(), seen: Seq::empty() })
    } else {
        match sources_resolved(meter, sources, index, time, n - 1) {
            Err(e) => Err(e),
            Ok(r) => match sources[n - 1].rows {
                Err(e) => Err(e@),
                Ok(rows) => candidates_resolved(
                    meter,
                    sources[n - 1],
                    rows@,
                    index,
                    time,
                    r,
                    rows@.len() as int,
                ),
            },
        }
    }
}

/// Whether one pool is drawn from before another by the keys from `i` on: the first
/// key that differs decides, in its direction, and then the identity.
pub open spec fn pool_before_from(a: PoolView, b: PoolView, descending: Seq<bool>, i: int) -> bool
    decreases descending.len() - i,
{
    if i < 0 || i >= descending.len() {
        text_before(a.source, b.source) || (a.source == b.source && value_before(a.key, b.key))
    } else if a.order_keys[i] == b.order_keys[i] {
        pool_before_from(a, b, descending, i + 1)
    } else if descending[i] {
        value_before(b.order_keys[i], a.order_keys[i])
    } else {
        value_before(a.order_keys[i], b.order_keys[i])
    }
}

/// Whether one pool is drawn from before another.
pub open spec fn pool_before(a: PoolView, b: PoolView, descending: Seq<bool>) -> bool {
    pool_before_from(a, b, descending, 0)
}

/// Whether pools are in the order they are drawn from.
pub open spec fn in_draw_order(pools: Seq<PoolView>, descending: Seq<bool>) -> bool {
    forall|i: int, j: int| 0 <= i < j < pools.len() ==> !pool_before(#[trigger] pools[j], #[trigger] pools[i], descending)
}

/// Whether every pool has a key for each direction.
pub open spec fn keyed(pools: Seq<PoolView>, descending: Seq<bool>) -> bool {
    forall|i: int| 0 <= i < pools.len() ==> (#[trigger] pools[i]).order_keys.len() == descending.len()
}

proof fn lemma_pool_irreflexive(a: PoolView, descending: Seq<bool>, i: int)
    requires
        0 <= i <= descending.len(),
    ensures
        !pool_before_from(a, a, descending, i),
    decreases descending.len() - i,
{
    if i < descending.len() {
        lemma_pool_irreflexive(a, descending, i + 1);
    } else {
        <String as Key>::irreflexive(a.source);
        <Value as Key>::irreflexive(a.key);
    }
}

proof fn lemma_pool_transitive(a: PoolView, b: PoolView, c: PoolView, descending: Seq<bool>, i: int)
    requires
        0 <= i <= descending.len(),
        pool_before_from(a, b, descending, i),
        pool_before_from(b, c, descending, i),
    ensures
        pool_before_from(a, c, descending, i),
    decreases descending.len() - i,
{
    if i < descending.len() {
        let x = a.order_keys[i];
        let y = b.order_keys[i];
        let z = c.order_keys[i];
        if x == y && y == z {
            lemma_pool_transitive(a, b, c, descending, i + 1);
        } else if x != y && y != z {
            if descending[i] {
                <Value as Key>::transitive(z, y, x);
            } else {
                <Value as Key>::transitive(x, y, z);
            }
            <Value as Key>::irreflexive(x);
        }
    } else {
        if text_before(a.source, b.source) && text_before(b.source, c.source) {
            <String as Key>::transitive(a.source, b.source, c.source);
        } else if a.source == b.source && b.source == c.source {
            <Value as Key>::transitive(a.key, b.key, c.key);
        }
    }
}

fn drawn_before(a: &Pool, b: &Pool, descending: &Vec<bool>) -> (r: bool)
    requires
        a@.order_keys.len() == descending@.len(),
        b@.order_keys.len() == descending@.len(),
    ensures
        r == pool_before(a@, b@, descending@),
{
    let mut i: usize = 0;
    while i < descending.len()
        invariant
            a@.order_keys.len() == descending@.len(),
            b@.order_keys.len() == descending@.len(),
            i <= descending@.len(),
            pool_before(a@, b@, descending@) == pool_before_from(a@, b@, descending@, i as int),
        decreases descending@.len() - i,
    {
        proof {
            assert(a@.order_keys[i as int] == a.order_keys@[i as int]@);
            assert(b@.order_keys[i as int] == b.order_keys@[i as int]@);
            <Value as Key>::irreflexive(a@.order_keys[i as int]);
        }
        match order_values(&a.order_keys[i], &b.order_keys[i]) {
            Order::Same => {},
            Order::Before => {
                proof {
                    if value_before(b@.order_keys[i as int], a@.order_keys[i as int]) {
                        <Value as Key>::transitive(
                            a@.order_keys[i as int],
                            b@.order_keys[i as int],
                            a@.order_keys[i as int],
                        );
                    }
                }
                return !descending[i];
            },
            Order::After => {
                proof {
                    if value_before(a@.order_keys[i as int], b@.order_keys[i as int]) {
                        <Value as Key>::transitive(
                            a@.order_keys[i as int],
                            b@.order_keys[i as int],
                            a@.order_keys[i as int],
                        );
                    }
                }
                return descending[i];
            },
        }
        i = i + 1;
    }
    proof {
        <String as Key>::irreflexive(a@.source);
        <Value as Key>::irreflexive(a@.key);
    }
    match order_text(a.source.as_str(), b.source.as_str()) {
        Order::Before => true,
        Order::Same => match order_values(&a.key, &b.key) {
            Order::Before => true,
            Order::Same => false,
            Order::After => {
                proof {
                    if value_before(a@.key, b@.key) {
                        <Value as Key>::transitive(a@.key, b@.key, a@.key);
                    }
                }
                false
            },
        },
        Order::After => {
            proof {
                if text_before(a@.source, b@.source) {
                    <String as Key>::transitive(a@.source, b@.source, a@.source);
                }
                <String as Key>::irreflexive(a@.source);
            }
            false
        },
    }
}

/// Put pools in the order they are drawn from.
pub fn sort_pools(pools: Vec<Pool>, descending: &Vec<bool>) -> (r: Vec<Pool>)
    requires
        keyed(pool_views(pools@), descending@),
    ensures
        in_draw_order(pool_views(r@), descending@),
        pool_views(r@).to_multiset() == pool_views(pools@).to_multiset(),
        keyed(pool_views(r@), descending@),
{
    let ghost all = pool_views(pools@);
    let mut rest = pools;
    let mut r: Vec<Pool> = Vec::new();
    proof {
        assert(pool_views(r@) =~= Seq::<PoolView>::empty());
        assert forall|a: PoolView| Seq::<PoolView>::empty().to_multiset().count(a) == 0 by {
            vstd::seq_lib::to_multiset_contains(Seq::<PoolView>::empty(), a);
        }
        assert(all.to_multiset() =~= all.to_multiset().add(pool_views(r@).to_multiset()));
    }
    while rest.len() > 0
        invariant
            all == pool_views(pools@),
            keyed(pool_views(rest@), descending@),
            keyed(pool_views(r@), descending@),
            in_draw_order(pool_views(r@), descending@),
            all.to_multiset() == pool_views(rest@).to_multiset().add(pool_views(r@).to_multiset()),
        decreases rest@.len(),
    {
        let ghost waiting = pool_views(rest@);
        let ghost placed = pool_views(r@);
        let pool = rest.remove(0);
        proof {
            assert(pool_views(rest@) =~= waiting.remove(0));
            assert(pool@ == waiting[0]);
        }
        let mut p: usize = 0;
        let mut found = false;
        while p < r.len() && !found
            invariant
                placed == pool_views(r@),
                keyed(placed, descending@),
                pool@.order_keys.len() == descending@.len(),
                p <= r@.len(),
                found ==> p < r@.len() && pool_before(pool@, placed[p as int], descending@),
                forall|j: int| 0 <= j < p ==> !pool_before(pool@, #[trigger] placed[j], descending@),
            decreases r@.len() - p + (if found {
                0int
            } else {
                1int
            }),
        {
            proof {
                assert(placed[p as int] == r@[p as int]@);
            }
            if drawn_before(&pool, &r[p], descending) {
                found = true;
            } else {
                p = p + 1;
            }
        }
        let ghost x = pool@;
        r.insert(p, pool);
        proof {
            let now = pool_views(r@);
            assert(now =~= placed.insert(p as int, x));
            assert forall|i: int, j: int| 0 <= i < j < now.len() implies !pool_before(
                #[trigger] now[j],
                #[trigger] now[i],
                descending@,
            ) by {
                if i == p {
                    let head = placed[p as int];
                    assert(pool_before(x, head, descending@));
                    let after = placed[j - 1];
                    if pool_before(after, x, descending@) {
                        lemma_pool_transitive(after, x, head, descending@, 0);
                        if j - 1 == p {
                            lemma_pool_irreflexive(head, descending@, 0);
                        }
                    }
                } else if j == p {
                    assert(now[i] == placed[i]);
                } else {
                    let a = if i < p {
                        i
                    } else {
                        i - 1
                    };
                    let b = if j < p {
                        j
                    } else {
                        j - 1
                    };
                    assert(now[i] == placed[a]);
                    assert(now[j] == placed[b]);
                }
            }
            vstd::seq_lib::to_multiset_insert(placed, p as int, x);
            vstd::seq_lib::to_multiset_remove(waiting, 0);
            vstd::seq_lib::to_multiset_contains(waiting, x);
            assert(waiting.contains(x));
            assert(waiting.to_multiset() =~= pool_views(rest@).to_multiset().insert(x));
            assert(all.to_multiset() =~= pool_views(rest@).to_multiset().add(now.to_multiset()));
        }
    }
    proof {
        assert(pool_views(rest@) =~= Seq::<PoolView>::empty());
        assert forall|a: PoolView| Seq::<PoolView>::empty().to_multiset().count(a) == 0 by {
            vstd::seq_lib::to_multiset_contains(Seq::<PoolView>::empty(), a);
        }
        assert(all.to_multiset() =~= pool_views(r@).to_multiset());
    }
    r
}

/// A pool that was seen.
struct Seen {
    source: String,
    key: Value,
    quantity: Option<Decimal>,
    until: Option<Timestamp>,
}

spec fn seen_views(seen: Seq<Seen>) -> Seq<SeenView> {
    Seq::new(
        seen.len(),
        |i: int|
            SeenView {
                source: seen[i].source@,
                key: seen[i].key@,
                quantity: quantity_view(seen[i].quantity),
                until: seen[i].until,
            },
    )
}

spec fn resolve_view(pools: Seq<Pool>, seen: Seq<Seen>) -> ResolveView {
    ResolveView { pools: pool_views(pools), seen: seen_views(seen) }
}

fn find_seen<'a>(seen: &'a Vec<Seen>, source: &str, key: &Value) -> (r: Option<&'a Seen>)
    ensures
        match (r, seen_before(seen_views(seen@), source@, key@)) {
            (Some(s), Some(x)) => quantity_view(s.quantity) == x.quantity && s.until == x.until,
            (None, None) => true,
            _ => false,
        },
{
    let ghost all = seen_views(seen@);
    let mut i: usize = 0;
    proof {
        assert(all.skip(0) =~= all);
    }
    while i < seen.len()
        invariant
            all == seen_views(seen@),
            i <= seen@.len(),
            seen_before(all, source@, key@) == seen_before(all.skip(i as int), source@, key@),
        decreases seen@.len() - i,
    {
        if same_text(seen[i].source.as_str(), source) && same_value(&seen[i].key, key) {
            return Some(&seen[i]);
        }
        proof {
            assert(all.skip(i as int).drop_first() =~= all.skip(i + 1));
        }
        i = i + 1;
    }
    None
}

fn same_quantity(a: &Option<Decimal>, b: &Option<Decimal>) -> (r: bool)
    ensures
        r == (quantity_view(*a) == quantity_view(*b)),
{
    match (a, b) {
        (Some(x), Some(y)) => matches!(x.order(y), Order::Same),
        (None, None) => true,
        _ => false,
    }
}

fn copy_quantity(q: &Option<Decimal>) -> (r: Option<Decimal>)
    ensures
        quantity_view(r) == quantity_view(*q),
{
    match q {
        Some(d) => Some(d.duplicate()),
        None => None,
    }
}

fn resolve_candidate(
    meter: &str,
    source: &SourceWork,
    index: &Vec<(RowId, Interval)>,
    time: Timestamp,
    c: &Candidate,
    pools: &mut Vec<Pool>,
    seen: &mut Vec<Seen>,
) -> (r: Result<(), Rejection>)
    ensures
        match (
            r,
            candidate_resolved(
                meter@,
                source.label@,
                source.has_quantity,
                index_view(index@),
                time,
                *c,
                resolve_view(old(pools)@, old(seen)@),
            ),
        ) {
            (Ok(_), Ok(v)) => resolve_view(final(pools)@, final(seen)@) == v,
            (Err(e), Err(x)) => e@ == x,
            _ => false,
        },
{
    let ghost before = resolve_view(pools@, seen@);
    proof {
        lemma_row(c.row);
    }
    let interval = find_interval(index, &c.row.id);
    if !active_at(interval, time) {
        return Ok(());
    }
    let quantity = if source.has_quantity {
        pool_quantity(&c.row)?
    } else {
        None
    };
    match &c.eligible {
        Ok(true) => {},
        Ok(false) => {
            return Ok(());
        },
        Err(e) => {
            return Err(e.duplicate());
        },
    }
    if let Some(s) = find_seen(seen, source.label.as_str(), &c.row.key) {
        if !same_quantity(&s.quantity, &quantity) || s.until != interval.1 {
            return Err(
                Rejection::new(
                    RejectionReason::Evaluation,
                    concat3("meter `", meter, "` pool identity repeats with disagreeing capacity").as_str(),
                ),
            );
        }
        return Ok(());
    }
    let order_keys = match &c.order_keys {
        Ok(keys) => copy_values(keys),
        Err(e) => {
            return Err(e.duplicate());
        },
    };
    seen.push(
        Seen {
            source: source.label.clone(),
            key: copy_value(&c.row.key),
            quantity: copy_quantity(&quantity),
            until: interval.1,
        },
    );
    pools.push(Pool { source: source.label.clone(), key: copy_value(&c.row.key), quantity, order_keys });
    proof {
        let after = resolve_view(pools@, seen@);
        assert(after.pools =~= before.pools.push(pools@.last()@));
        assert(after.seen =~= before.seen.push(
            SeenView { source: source.label@, key: c.row@.key, quantity: pools@.last()@.quantity, until: interval.1 },
        ));
    }
    Ok(())
}

proof fn lemma_candidates_refusal(
    meter: Seq<char>,
    source: SourceWork,
    rows: Seq<Candidate>,
    index: Seq<(IdView, Interval)>,
    time: Timestamp,
    before: ResolveView,
    n: int,
    m: int,
)
    requires
        0 <= n <= m,
        candidates_resolved(meter, source, rows, index, time, before, n) is Err,
    ensures
        candidates_resolved(meter, source, rows, index, time, before, m) == candidates_resolved(
            meter,
            source,
            rows,
            index,
            time,
            before,
            n,
        ),
    decreases m - n,
{
    if n < m {
        lemma_candidates_refusal(meter, source, rows, index, time, before, n, m - 1);
    }
}

proof fn lemma_sources_refusal(
    meter: Seq<char>,
    sources: Seq<SourceWork>,
    index: Seq<(IdView, Interval)>,
    time: Timestamp,
    n: int,
    m: int,
)
    requires
        0 <= n <= m,
        sources_resolved(meter, sources, index, time, n) is Err,
    ensures
        sources_resolved(meter, sources, index, time, m) == sources_resolved(meter, sources, index, time, n),
    decreases m - n,
{
    if n < m {
        lemma_sources_refusal(meter, sources, index, time, n, m - 1);
    }
}

fn resolve_source(
    meter: &str,
    source: &SourceWork,
    rows: &Vec<Candidate>,
    index: &Vec<(RowId, Interval)>,
    time: Timestamp,
    pools: &mut Vec<Pool>,
    seen: &mut Vec<Seen>,
) -> (r: Result<(), Rejection>)
    ensures
        match (
            r,
            candidates_resolved(
                meter@,
                *source,
                rows@,
                index_view(index@),
                time,
                resolve_view(old(pools)@, old(seen)@),
                rows@.len() as int,
            ),
        ) {
            (Ok(_), Ok(v)) => resolve_view(final(pools)@, final(seen)@) == v,
            (Err(e), Err(x)) => e@ == x,
            _ => false,
        },
{
    let ghost start = resolve_view(pools@, seen@);
    let mut i: usize = 0;
    while i < rows.len()
        invariant
            start == resolve_view(old(pools)@, old(seen)@),
            i <= rows@.len(),
            candidates_resolved(meter@, *source, rows@, index_view(index@), time, start, i as int) == Ok::<
                ResolveView,
                RejectionView,
            >(resolve_view(pools@, seen@)),
        decreases rows@.len() - i,
    {
        match resolve_candidate(meter, source, index, time, &rows[i], pools, seen) {
            Ok(_) => {},
            Err(e) => {
                proof {
                    lemma_candidates_refusal(
                        meter@,
                        *source,
                        rows@,
                        index_view(index@),
                        time,
                        start,
                        i + 1,
                        rows@.len() as int,
                    );
                }
                return Err(e);
            },
        }
        i = i + 1;
    }
    Ok(())
}

/// Whether every candidate that has order keys has one for each direction.
pub open spec fn candidates_keyed(sources: Seq<SourceWork>, count: nat) -> bool {
    forall|i: int, j: int|
        0 <= i < sources.len() && sources[i].rows is Ok && 0 <= j < sources[i].rows->Ok_0@.len() && (
        #[trigger] sources[i].rows->Ok_0@[j]).order_keys is Ok ==> sources[i].rows->Ok_0@[j].order_keys->Ok_0@.len()
            == count
}

proof fn lemma_candidates_keyed(
    meter: Seq<char>,
    sources: Seq<SourceWork>,
    k: int,
    index: Seq<(IdView, Interval)>,
    time: Timestamp,
    before: ResolveView,
    n: int,
    descending: Seq<bool>,
)
    requires
        candidates_keyed(sources, descending.len()),
        0 <= k < sources.len(),
        sources[k].rows is Ok,
        0 <= n <= sources[k].rows->Ok_0@.len(),
        keyed(before.pools, descending),
        candidates_resolved(meter, sources[k], sources[k].rows->Ok_0@, index, time, before, n) is Ok,
    ensures
        keyed(
            candidates_resolved(meter, sources[k], sources[k].rows->Ok_0@, index, time, before, n)->Ok_0.pools,
            descending,
        ),
    decreases n,
{
    if n > 0 {
        let rows = sources[k].rows->Ok_0@;
        lemma_candidates_keyed(meter, sources, k, index, time, before, n - 1, descending);
        let earlier = candidates_resolved(meter, sources[k], rows, index, time, before, n - 1)->Ok_0;
        let after = candidates_resolved(meter, sources[k], rows, index, time, before, n)->Ok_0;
        let c = sources[k].rows->Ok_0@[n - 1];
        assert forall|i: int| 0 <= i < after.pools.len() implies (#[trigger] after.pools[i]).order_keys.len()
            == descending.len() by {
            if i < earlier.pools.len() {
                assert(after.pools[i] == earlier.pools[i]);
            }
        }
    }
}

proof fn lemma_sources_keyed(
    meter: Seq<char>,
    sources: Seq<SourceWork>,
    index: Seq<(IdView, Interval)>,
    time: Timestamp,
    n: int,
    descending: Seq<bool>,
)
    requires
        candidates_keyed(sources, descending.len()),
        0 <= n <= sources.len(),
        sources_resolved(meter, sources, index, time, n) is Ok,
    ensures
        keyed(sources_resolved(meter, sources, index, time, n)->Ok_0.pools, descending),
    decreases n,
{
    if n > 0 {
        lemma_sources_keyed(meter, sources, index, time, n - 1, descending);
        let before = sources_resolved(meter, sources, index, time, n - 1)->Ok_0;
        lemma_candidates_keyed(
            meter,
            sources,
            n - 1,
            index,
            time,
            before,
            sources[n - 1].rows->Ok_0@.len() as int,
            descending,
        );
    }
}

/// Two pools of distinct identities are in an order.
proof fn lemma_pool_total(a: PoolView, b: PoolView, descending: Seq<bool>, i: int)
    requires
        0 <= i <= descending.len(),
        a.source != b.source || a.key != b.key,
    ensures
        pool_before_from(a, b, descending, i) || pool_before_from(b, a, descending, i),
    decreases descending.len() - i,
{
    if i < descending.len() {
        if a.order_keys[i] == b.order_keys[i] {
            lemma_pool_total(a, b, descending, i + 1);
        } else {
            <Value as Key>::total(a.order_keys[i], b.order_keys[i]);
        }
    } else {
        <String as Key>::total(a.source, b.source);
        <Value as Key>::total(a.key, b.key);
    }
}

/// Pools of distinct identities can be in the order they are drawn from in one way
/// only.
proof fn lemma_drawn_alike(a: Seq<PoolView>, b: Seq<PoolView>, descending: Seq<bool>)
    requires
        identified(a),
        in_draw_order(a, descending),
        in_draw_order(b, descending),
        a.to_multiset() == b.to_multiset(),
    ensures
        a == b,
    decreases a.len(),
{
    vstd::seq_lib::to_multiset_len(a);
    vstd::seq_lib::to_multiset_len(b);
    if a.len() == 0 {
        assert(a =~= b);
    } else {
        vstd::seq_lib::to_multiset_contains(a, a[0]);
        vstd::seq_lib::to_multiset_contains(b, a[0]);
        vstd::seq_lib::to_multiset_contains(a, b[0]);
        vstd::seq_lib::to_multiset_contains(b, b[0]);
        assert(a.contains(a[0]));
        assert(b.contains(b[0]));
        let k = choose|k: int| 0 <= k < b.len() && b[k] == a[0];
        let m = choose|m: int| 0 <= m < a.len() && a[m] == b[0];
        if a[0] != b[0] {
            lemma_pool_total(a[0], a[m], descending, 0);
            assert(!pool_before(b[k], b[0], descending));
            assert(!pool_before(a[m], a[0], descending));
        }
        vstd::seq_lib::to_multiset_remove(a, 0);
        vstd::seq_lib::to_multiset_remove(b, 0);
        lemma_drawn_alike(a.remove(0), b.remove(0), descending);
        assert(a =~= seq![a[0]] + a.remove(0));
        assert(b =~= seq![b[0]] + b.remove(0));
    }
}

/// These pools in the order they are drawn from.
pub open spec fn drawn(pools: Seq<PoolView>, descending: Seq<bool>) -> Seq<PoolView> {
    choose|s: Seq<PoolView>| in_draw_order(s, descending) && #[trigger] s.to_multiset() == pools.to_multiset()
}

/// The pools of an accepted resolution are all drawn from, each once and in order,
/// whichever of them has the same keys as another.
proof fn lemma_drawn(pools: Seq<PoolView>, sorted: Seq<PoolView>, descending: Seq<bool>)
    requires
        identified(pools),
        in_draw_order(sorted, descending),
        sorted.to_multiset() == pools.to_multiset(),
    ensures
        sorted == drawn(pools, descending),
{
    let s = drawn(pools, descending);
    lemma_identified_moves(pools, sorted);
    lemma_drawn_alike(sorted, s, descending);
}

/// However pools of distinct identities are put in order, their identities stay
/// distinct.
proof fn lemma_identified_moves(a: Seq<PoolView>, b: Seq<PoolView>)
    requires
        identified(a),
        a.to_multiset() == b.to_multiset(),
    ensures
        identified(b),
    decreases a.len(),
{
    vstd::seq_lib::to_multiset_len(a);
    vstd::seq_lib::to_multiset_len(b);
    if a.len() > 0 {
        vstd::seq_lib::to_multiset_contains(a, b[0]);
        vstd::seq_lib::to_multiset_contains(b, b[0]);
        assert(b.contains(b[0]));
        let m = choose|m: int| 0 <= m < a.len() && a[m] == b[0];
        vstd::seq_lib::to_multiset_remove(a, m);
        vstd::seq_lib::to_multiset_remove(b, 0);
        lemma_identified_moves(a.remove(m), b.remove(0));
        assert forall|i: int, j: int| 0 <= i < j < b.len() implies (#[trigger] b[i]).source != (
        #[trigger] b[j]).source || b[i].key != b[j].key by {
            assert(b[j] == b.remove(0)[j - 1]);
            if i > 0 {
                assert(b[i] == b.remove(0)[i - 1]);
            } else {
                let rest = a.remove(m);
                vstd::seq_lib::to_multiset_contains(b.remove(0), b[j]);
                vstd::seq_lib::to_multiset_contains(rest, b[j]);
                assert(b.remove(0).contains(b[j]));
                let k = choose|k: int| 0 <= k < rest.len() && rest[k] == b[j];
                if k < m {
                    assert(a[k] == rest[k]);
                } else {
                    assert(a[k + 1] == rest[k]);
                }
            }
        }
    }
}

/// Resolve the pools open to a spend at an instant, in the order they are drawn from.
/// `index` holds the intervals of pool rows by identity.
pub fn resolve_pools(
    meter: &str,
    sources: &Vec<SourceWork>,
    index: &Vec<(RowId, Interval)>,
    time: Timestamp,
    descending: &Vec<bool>,
) -> (r: Result<Vec<Pool>, Rejection>)
    requires
        candidates_keyed(sources@, descending@.len()),
    ensures
        match (r, sources_resolved(meter@, sources@, index_view(index@), time, sources@.len() as int)) {
            (Ok(pools), Ok(v)) => {
                &&& in_draw_order(pool_views(pools@), descending@)
                &&& pool_views(pools@).to_multiset() == v.pools.to_multiset()
                &&& pool_views(pools@) == drawn(v.pools, descending@)
            },
            (Err(e), Err(x)) => e@ == x,
            _ => false,
        },
{
    let mut pools: Vec<Pool> = Vec::new();
    let mut seen: Vec<Seen> = Vec::new();
    let mut i: usize = 0;
    proof {
        assert(pool_views(pools@) =~= Seq::<PoolView>::empty());
        assert(seen_views(seen@) =~= Seq::<SeenView>::empty());
    }
    while i < sources.len()
        invariant
            i <= sources@.len(),
            sources_resolved(meter@, sources@, index_view(index@), time, i as int) == Ok::<ResolveView, RejectionView>(
                resolve_view(pools@, seen@),
            ),
        decreases sources@.len() - i,
    {
        let step = match &sources[i].rows {
            Ok(rows) => resolve_source(meter, &sources[i], rows, index, time, &mut pools, &mut seen),
            Err(e) => Err(e.duplicate()),
        };
        match step {
            Ok(_) => {},
            Err(e) => {
                proof {
                    assert(sources_resolved(meter@, sources@, index_view(index@), time, i + 1) == Err::<
                        ResolveView,
                        RejectionView,
                    >(e@));
                    lemma_sources_refusal(
                        meter@,
                        sources@,
                        index_view(index@),
                        time,
                        i + 1,
                        sources@.len() as int,
                    );
                }
                return Err(e);
            },
        }
        i = i + 1;
    }
    proof {
        lemma_sources_keyed(meter@, sources@, index_view(index@), time, sources@.len() as int, descending@);
    }
    let ghost all = pool_views(pools@);
    let sorted = sort_pools(pools, descending);
    proof {
        law_pools_identified(meter@, sources@, index_view(index@), time, sources@.len() as int);
        lemma_drawn(all, pool_views(sorted@), descending@);
    }
    Ok(sorted)
}

/// Whether no two pools have one identity.
pub open spec fn identified(pools: Seq<PoolView>) -> bool {
    forall|i: int, j: int|
        0 <= i < j < pools.len() ==> (#[trigger] pools[i]).source != (#[trigger] pools[j]).source || pools[i].key
            != pools[j].key
}

/// Whether a resolution has seen exactly the pools it holds.
spec fn consistent(v: ResolveView) -> bool {
    &&& v.pools.len() == v.seen.len()
    &&& forall|i: int|
        0 <= i < v.pools.len() ==> (#[trigger] v.pools[i]).source == v.seen[i].source && v.pools[i].key == v.seen[i].key
    &&& identified(v.pools)
}

proof fn lemma_seen(seen: Seq<SeenView>, source: Seq<char>, key: ValueView)
    ensures
        seen_before(seen, source, key) is None ==> forall|i: int|
            0 <= i < seen.len() ==> (#[trigger] seen[i]).source != source || seen[i].key != key,
    decreases seen.len(),
{
    if seen.len() > 0 && seen_before(seen, source, key) is None {
        lemma_seen(seen.drop_first(), source, key);
        assert forall|i: int| 0 <= i < seen.len() implies (#[trigger] seen[i]).source != source || seen[i].key != key by {
            if i > 0 {
                assert(seen.drop_first()[i - 1] == seen[i]);
            }
        }
    }
}

proof fn lemma_candidates_consistent(
    meter: Seq<char>,
    source: SourceWork,
    rows: Seq<Candidate>,
    index: Seq<(IdView, Interval)>,
    time: Timestamp,
    before: ResolveView,
    n: int,
)
    requires
        consistent(before),
        0 <= n,
        candidates_resolved(meter, source, rows, index, time, before, n) is Ok,
    ensures
        consistent(candidates_resolved(meter, source, rows, index, time, before, n)->Ok_0),
    decreases n,
{
    if n > 0 {
        lemma_candidates_consistent(meter, source, rows, index, time, before, n - 1);
        let earlier = candidates_resolved(meter, source, rows, index, time, before, n - 1)->Ok_0;
        let after = candidates_resolved(meter, source, rows, index, time, before, n)->Ok_0;
        if after != earlier {
            let c = rows[n - 1];
            lemma_seen(earlier.seen, source.label@, c.row@.key);
            assert forall|i: int, j: int| 0 <= i < j < after.pools.len() implies (
            #[trigger] after.pools[i]).source != (#[trigger] after.pools[j]).source || after.pools[i].key
                != after.pools[j].key by {
                assert(after.pools[i] == earlier.pools[i]);
                if j < earlier.pools.len() {
                    assert(after.pools[j] == earlier.pools[j]);
                } else {
                    assert(earlier.seen[i].source != source.label@ || earlier.seen[i].key != c.row@.key);
                }
            }
            assert forall|i: int| 0 <= i < after.pools.len() implies (#[trigger] after.pools[i]).source
                == after.seen[i].source && after.pools[i].key == after.seen[i].key by {
                if i < earlier.pools.len() {
                    assert(after.pools[i] == earlier.pools[i]);
                    assert(after.seen[i] == earlier.seen[i]);
                }
            }
        }
    }
}

/// The pools of an accepted resolution have distinct identities: one that repeats
/// counts once.
pub proof fn law_pools_identified(
    meter: Seq<char>,
    sources: Seq<SourceWork>,
    index: Seq<(IdView, Interval)>,
    time: Timestamp,
    n: int,
)
    requires
        0 <= n <= sources.len(),
        sources_resolved(meter, sources, index, time, n) is Ok,
    ensures
        identified(sources_resolved(meter, sources, index, time, n)->Ok_0.pools),
{
    lemma_sources_consistent(meter, sources, index, time, n);
}

proof fn lemma_sources_consistent(
    meter: Seq<char>,
    sources: Seq<SourceWork>,
    index: Seq<(IdView, Interval)>,
    time: Timestamp,
    n: int,
)
    requires
        0 <= n <= sources.len(),
        sources_resolved(meter, sources, index, time, n) is Ok,
    ensures
        consistent(sources_resolved(meter, sources, index, time, n)->Ok_0),
    decreases n,
{
    if n > 0 {
        lemma_sources_consistent(meter, sources, index, time, n - 1);
        let before = sources_resolved(meter, sources, index, time, n - 1)->Ok_0;
        let rows = sources[n - 1].rows->Ok_0@;
        lemma_candidates_consistent(meter, sources[n - 1], rows, index, time, before, rows.len() as int);
    }
}

/// An instant is in an interval from its start on, and no longer at its end: where one
/// interval ends as the next starts, exactly one of them holds it.
pub proof fn law_half_open(from: Timestamp, turn: Timestamp, until: Timestamp, time: Timestamp)
    requires
        from.instant() <= turn.instant() <= until.instant(),
        from.instant() <= time.instant() < until.instant(),
    ensures
        is_active((Some(from), Some(turn)), time) != is_active((Some(turn), Some(until)), time),
{
}
/// Whether a pool may fund a spend: any may where nothing is declared, and otherwise one
/// whose condition came to true.
pub open spec fn admitted(condition: Option<Result<CellView, RejectionView>>) -> Result<bool, RejectionView> {
    match condition {
        None => Ok(true),
        Some(Err(e)) => Err(e),
        Some(Ok(cell)) => Ok(cell == CellView::Scalar(ValueView::Bool(true))),
    }
}

/// Tell whether a pool may fund a spend.
pub fn eligible(condition: &Option<Result<Cell, Rejection>>) -> (r: Result<bool, Rejection>)
    ensures
        match (r, admitted(match *condition { Some(c) => Some(outcome(c)), None => None })) {
            (Ok(b), Ok(x)) => b == x,
            (Err(e), Err(x)) => e@ == x,
            _ => false,
        },
{
    match condition {
        None => Ok(true),
        Some(Err(e)) => Err(e.duplicate()),
        Some(Ok(cell)) => {
            proof {
                lemma_cell(*cell);
            }
            match cell {
                Cell::Scalar(Value::Bool(b)) => Ok(*b),
                _ => Ok(false),
            }
        },
    }
}

/// The cells of a spend with its metadata folded in.
pub open spec fn with_metadata(
    cells: Seq<(Seq<char>, CellView)>,
    metadata: Seq<(String, Result<Cell, Rejection>)>,
) -> Result<Seq<(Seq<char>, CellView)>, RejectionView>
    decreases metadata.len(),
{
    if metadata.len() == 0 {
        Ok(cells)
    } else {
        match with_metadata(cells, metadata.drop_last()) {
            Err(e) => Err(e),
            Ok(so_far) => match outcome(metadata.last().1) {
                Err(e) => Err(e),
                Ok(cell) => Ok(cells_with(so_far, metadata.last().0@, cell)),
            },
        }
    }
}

proof fn lemma_metadata_refusal(
    cells: Seq<(Seq<char>, CellView)>,
    metadata: Seq<(String, Result<Cell, Rejection>)>,
    n: int,
)
    requires
        0 <= n <= metadata.len(),
        with_metadata(cells, metadata.take(n)) is Err,
    ensures
        with_metadata(cells, metadata) == with_metadata(cells, metadata.take(n)),
    decreases metadata.len() - n,
{
    if n == metadata.len() {
        assert(metadata.take(n) =~= metadata);
    } else {
        assert(metadata.take(n + 1).drop_last() =~= metadata.take(n));
        lemma_metadata_refusal(cells, metadata, n + 1);
    }
}

/// The row a pool's condition sees of a spend: its own cells, its metadata, and the
/// amount and the instant it counts with.
pub open spec fn spend_shown(
    row: RowView,
    metadata: Seq<(String, Result<Cell, Rejection>)>,
    amount: real,
    time: Timestamp,
) -> Result<RowView, RejectionView> {
    match with_metadata(row.cells, metadata) {
        Err(e) => Err(e),
        Ok(cells) => Ok(
            RowView {
                cells: cells_with(
                    cells_with(cells, "$amount"@, CellView::Scalar(ValueView::Decimal(amount))),
                    "$time"@,
                    CellView::Scalar(ValueView::Timestamp(time)),
                ),
                ..row
            },
        ),
    }
}

/// The row a pool's condition sees of a spend.
pub fn spend_context_cell(
    row: &Row,
    metadata: &Vec<(String, Result<Cell, Rejection>)>,
    amount: &Decimal,
    time: Timestamp,
) -> (r: Result<Row, Rejection>)
    ensures
        outcome(r) == spend_shown(row@, metadata@, amount@, time),
{
    proof {
        lemma_row(*row);
    }
    let mut cells = copy_cells(&row.cells);
    let ghost start = cell_views(cells@);
    let mut i: usize = 0;
    proof {
        assert(metadata@.take(0) =~= Seq::<(String, Result<Cell, Rejection>)>::empty());
    }
    while i < metadata.len()
        invariant
            start == row@.cells,
            i <= metadata@.len(),
            with_metadata(start, metadata@.take(i as int)) == Ok::<Seq<(Seq<char>, CellView)>, RejectionView>(
                cell_views(cells@),
            ),
        decreases metadata@.len() - i,
    {
        proof {
            assert(metadata@.take(i + 1).drop_last() =~= metadata@.take(i as int));
            assert(metadata@.take(i + 1).last() == metadata@[i as int]);
        }
        match &metadata[i].1 {
            Err(e) => {
                proof {
                    lemma_metadata_refusal(start, metadata@, i + 1);
                }
                return Err(e.duplicate());
            },
            Ok(cell) => {
                set_cell(&mut cells, metadata[i].0.as_str(), copy_cell(cell));
            },
        }
        i = i + 1;
    }
    proof {
        assert(metadata@.take(i as int) =~= metadata@);
    }
    set_cell(&mut cells, "$amount", Cell::Scalar(Value::Decimal(amount.duplicate())));
    set_cell(&mut cells, "$time", Cell::Scalar(Value::Timestamp(time)));
    let r = Row { id: row.id.duplicate(), key: copy_value(&row.key), cells };
    proof {
        lemma_row(r);
    }
    Ok(r)
}

/// Whatever the metadata says, a pool's condition sees the instant the spend counts
/// with.
pub proof fn law_effective_time(
    row: RowView,
    metadata: Seq<(String, Result<Cell, Rejection>)>,
    amount: real,
    time: Timestamp,
)
    requires
        spend_shown(row, metadata, amount, time) is Ok,
    ensures
        cell_named(spend_shown(row, metadata, amount, time)->Ok_0.cells, "$time"@) == Some(
            CellView::Scalar(ValueView::Timestamp(time)),
        ),
{
    let cells = with_metadata(row.cells, metadata)->Ok_0;
    let before = cells_with(cells, "$amount"@, CellView::Scalar(ValueView::Decimal(amount)));
    lemma_set_cell(before, "$time"@, CellView::Scalar(ValueView::Timestamp(time)));
}

proof fn lemma_set_cell(cells: Seq<(Seq<char>, CellView)>, name: Seq<char>, cell: CellView)
    ensures
        cell_named(cells_with(cells, name, cell), name) == Some(cell),
    decreases cells.len(),
{
    if cells.len() == 0 {
    } else if cells[0].0 == name {
        assert((seq![(name, cell)] + cells.drop_first())[0] == (name, cell));
    } else {
        let all = seq![cells[0]] + cells_with(cells.drop_first(), name, cell);
        assert(all[0] == cells[0]);
        assert(all.drop_first() =~= cells_with(cells.drop_first(), name, cell));
        lemma_set_cell(cells.drop_first(), name, cell);
    }
}

} // verus!
