//! Meters and funding as readers see them: what is left of each pool, the balance of a
//! meter, and the funding of a spend, as cells of the rows they belong to.

use crate::address::{names_of, RowAddress, StepView};
use crate::cell::{
    cell_views, copy_cell, copy_cells, copy_row, keys_along, lemma_cell, lemma_row, row_id_of, row_views, Cell,
    CellView, Row, RowId, RowView,
};
use crate::decimal::Decimal;
use crate::funding::{allocated, allocation, funding_cell, funding_rows, place_id, pool_views, Pool, PoolView};
use crate::meter::CompiledMeter;
use crate::order::{Duplicate, Order};
use crate::patch::{same_id, IdView};
use crate::pools::{cells_with, set_cell};
use crate::levels::{level_ready, level_text, open_at, LevelWork};
use crate::spending::{spend_found, CompiledMeters};
use crate::state::{address_views, in_order, Prospective, StateView};
use crate::text::{same_texts, texts};
use crate::time::Timestamp;
use crate::value::{copy_value, Value, ValueView};
use vstd::prelude::*;

verus! {

/// What is left of a pool at a level, and nothing where more is held than it has.
pub open spec fn left_of(state: StateView, level: Seq<char>, pool: PoolView) -> real {
    let left = pool.quantity->0 - allocation(state, level, pool.source, pool.key);
    if left < 0real {
        0real
    } else {
        left
    }
}

/// The balance over the first `n` pools: what is left of those with a capacity.
pub open spec fn balance_of(state: StateView, level: Seq<char>, pools: Seq<PoolView>, n: int) -> real
    decreases n,
{
    if n <= 0 {
        0real
    } else {
        balance_of(state, level, pools, n - 1) + if pools[n - 1].quantity is Some {
            left_of(state, level, pools[n - 1])
        } else {
            0real
        }
    }
}

/// The row of one pool.
pub open spec fn pool_shown(state: StateView, level: Seq<char>, pool: PoolView, place: int) -> RowView {
    RowView {
        id: seq![seq![ValueView::Int(place)]],
        key: pool.key,
        cells: seq![
            ("source"@, CellView::Scalar(ValueView::Text(pool.source))),
            ("remaining"@, CellView::Scalar(ValueView::Decimal(left_of(state, level, pool)))),
        ],
    }
}

/// The rows of the first `n` pools, of those with a capacity.
pub open spec fn pools_shown(state: StateView, level: Seq<char>, pools: Seq<PoolView>, n: int) -> Seq<RowView>
    decreases n,
{
    if n <= 0 {
        Seq::empty()
    } else if pools[n - 1].quantity is Some {
        pools_shown(state, level, pools, n - 1).push(pool_shown(state, level, pools[n - 1], n - 1))
    } else {
        pools_shown(state, level, pools, n - 1)
    }
}

/// The cell of a meter: its balance and its pools.
pub open spec fn meter_shown(state: StateView, level: Seq<char>, pools: Seq<PoolView>) -> CellView {
    CellView::Row(
        Box::new(
            RowView {
                id: seq![seq![ValueView::Int(0)]],
                key: ValueView::Absent,
                cells: seq![
                    (
                        "balance"@,
                        CellView::Scalar(ValueView::Decimal(balance_of(state, level, pools, pools.len() as int))),
                    ),
                    ("pools"@, CellView::Collection(pools_shown(state, level, pools, pools.len() as int))),
                ],
            },
        ),
    )
}

/// The pools a meter shows at a level; none where they cannot be resolved.
pub open spec fn pools_given(meter: CompiledMeter, work: LevelWork, now: Timestamp) -> Seq<PoolView> {
    match open_at(meter, work, now) {
        Ok(pools) => pools,
        Err(_) => Seq::empty(),
    }
}

/// The cell of a meter at a level: its balance and the pools it draws from now.
pub open spec fn level_shown(state: StateView, meter: CompiledMeter, work: LevelWork, now: Timestamp) -> CellView {
    meter_shown(state, level_text(work.rendered@, meter.name@), pools_given(meter, work, now))
}

/// The cell of a meter at a level: its balance and its pools.
pub fn meter_cell(prospective: &Prospective, meter: &CompiledMeter, work: &LevelWork, now: Timestamp) -> (r: Cell)
    requires
        level_ready(*meter, *work),
    ensures
        r@ == level_shown(prospective@, *meter, *work, now),
{
    let pools = match meter.pools_at(work, now) {
        Ok(pools) => pools,
        Err(_) => {
            let none: Vec<Pool> = Vec::new();
            proof {
                assert(pool_views(none@) =~= Seq::<PoolView>::empty());
            }
            none
        },
    };
    let id = meter.level_id(work.rendered.as_str());
    let level = id.as_str();
    let ghost all = pool_views(pools@);
    proof {
        assert(all =~= pools_given(*meter, *work, now));
    }
    let zero = Decimal::from_integer(0);
    let mut balance = Decimal::from_integer(0);
    let mut rows: Vec<Row> = Vec::new();
    let mut i: usize = 0;
    proof {
        assert(row_views(rows@) =~= Seq::<RowView>::empty());
    }
    while i < pools.len()
        invariant
            all == pool_views(pools@),
            zero@ == 0real,
            i <= pools@.len(),
            level@ == level_text(work.rendered@, meter.name@),
            balance@ == balance_of(prospective@, level@, all, i as int),
            row_views(rows@) == pools_shown(prospective@, level@, all, i as int),
        decreases pools@.len() - i,
    {
        let ghost before = row_views(rows@);
        let pool = &pools[i];
        proof {
            assert(all[i as int] == pool@);
        }
        if let Some(quantity) = &pool.quantity {
            let held = allocated(prospective, level, pool.source.as_str(), &pool.key);
            let difference = quantity.minus(&held);
            let left = match difference.order(&zero) {
                Order::Before => zero.duplicate(),
                _ => difference,
            };
            balance = balance.plus(&left);
            let mut cells: Vec<(String, Cell)> = Vec::new();
            cells.push((String::from_str("source"), Cell::Scalar(Value::Text(pool.source.clone()))));
            cells.push((String::from_str("remaining"), Cell::Scalar(Value::Decimal(left))));
            let row = Row { id: place_id(i), key: copy_value(&pool.key), cells };
            proof {
                lemma_row(row);
                assert(cell_views(cells@) =~= pool_shown(prospective@, level@, pool@, i as int).cells);
            }
            rows.push(row);
            proof {
                assert(row_views(rows@) =~= before.push(pool_shown(prospective@, level@, pool@, i as int)));
            }
        }
        i = i + 1;
    }
    let list = Cell::Collection(rows);
    proof {
        lemma_cell(list);
    }
    let mut cells: Vec<(String, Cell)> = Vec::new();
    cells.push((String::from_str("balance"), Cell::Scalar(Value::Decimal(balance))));
    cells.push((String::from_str("pools"), list));
    let row = Row { id: place_id(0), key: Value::Absent, cells };
    proof {
        lemma_row(row);
        assert(cell_views(cells@) =~= meter_shown(prospective@, level@, all)->Row_0.cells);
    }
    let r = Cell::Row(Box::new(row));
    proof {
        lemma_cell(r);
    }
    r
}

/// A cell that is added to every row of an identity.
pub struct Extra {
    pub id: RowId,
    pub name: String,
    pub cell: Cell,
}

/// What an [`Extra`] denotes.
#[verifier::ext_equal]
pub struct ExtraView {
    pub id: IdView,
    pub name: Seq<char>,
    pub cell: CellView,
}

/// What added cells denote.
pub open spec fn extra_views(extras: Seq<Extra>) -> Seq<ExtraView> {
    Seq::new(
        extras.len(),
        |i: int| ExtraView { id: extras[i].id@, name: extras[i].name@, cell: extras[i].cell@ },
    )
}

/// The cells of a row with those added that are for its identity, in order.
pub open spec fn with_extras(cells: Seq<(Seq<char>, CellView)>, id: IdView, extras: Seq<ExtraView>) -> Seq<
    (Seq<char>, CellView),
>
    decreases extras.len(),
{
    if extras.len() == 0 {
        cells
    } else {
        let before = with_extras(cells, id, extras.drop_last());
        if extras.last().id == id {
            cells_with(before, extras.last().name, extras.last().cell)
        } else {
            before
        }
    }
}

/// A row with the cells added that are for it, and the same of every row in it.
pub open spec fn grafted(row: RowView, extras: Seq<ExtraView>) -> RowView
    decreases row,
{
    RowView { cells: with_extras(grafted_cells(row.cells, extras), row.id, extras), ..row }
}

/// Cells with the cells added that are for the rows in them.
pub open spec fn grafted_cells(cells: Seq<(Seq<char>, CellView)>, extras: Seq<ExtraView>) -> Seq<(Seq<char>, CellView)>
    decreases cells,
{
    Seq::new(
        cells.len(),
        |i: int|
            if 0 <= i < cells.len() {
                (cells[i].0, grafted_cell(cells[i].1, extras))
            } else {
                arbitrary()
            },
    )
}

/// A cell with the cells added that are for the rows in it.
pub open spec fn grafted_cell(cell: CellView, extras: Seq<ExtraView>) -> CellView
    decreases cell,
{
    match cell {
        CellView::Scalar(v) => CellView::Scalar(v),
        CellView::Row(row) => CellView::Row(Box::new(grafted(*row, extras))),
        CellView::Collection(rows) => CellView::Collection(
            Seq::new(
                rows.len(),
                |i: int|
                    if 0 <= i < rows.len() {
                        grafted(rows[i], extras)
                    } else {
                        arbitrary()
                    },
            ),
        ),
    }
}

/// Graft added cells onto a row and every row in it.
pub fn graft(row: &Row, extras: &Vec<Extra>) -> (r: Row)
    ensures
        r@ == grafted(row@, extra_views(extras@)),
    decreases *row,
{
    proof {
        lemma_row(*row);
    }
    let ghost shown = row@.cells;
    let mut cells: Vec<(String, Cell)> = Vec::new();
    let mut i: usize = 0;
    while i < row.cells.len()
        invariant
            shown == row@.cells,
            shown == cell_views(row.cells@),
            i <= row.cells@.len(),
            cells@.len() == i,
            forall|j: int|
                0 <= j < i ==> (#[trigger] cells@[j]).0@ == shown[j].0 && cells@[j].1@ == grafted_cell(
                    shown[j].1,
                    extra_views(extras@),
                ),
        decreases row.cells@.len() - i,
    {
        proof {
            assert(shown[i as int] == (row.cells@[i as int].0@, row.cells@[i as int].1@));
        }
        cells.push((row.cells[i].0.clone(), graft_cell(&row.cells[i].1, extras)));
        i = i + 1;
    }
    let ghost base = cell_views(cells@);
    let ghost all = extra_views(extras@);
    proof {
        assert(base =~= grafted_cells(row@.cells, all));
    }
    let mut k: usize = 0;
    proof {
        assert(all.take(0) =~= Seq::<ExtraView>::empty());
    }
    while k < extras.len()
        invariant
            all == extra_views(extras@),
            k <= extras@.len(),
            cell_views(cells@) == with_extras(base, row@.id, all.take(k as int)),
            row@.id == row.id@,
        decreases extras@.len() - k,
    {
        proof {
            assert(all.take(k + 1).drop_last() =~= all.take(k as int));
            assert(all.take(k + 1).last() == all[k as int]);
        }
        if same_id(&extras[k].id, &row.id) {
            set_cell(&mut cells, extras[k].name.as_str(), copy_cell(&extras[k].cell));
        }
        k = k + 1;
    }
    proof {
        assert(all.take(k as int) =~= all);
    }
    let r = Row { id: row.id.duplicate(), key: copy_value(&row.key), cells };
    proof {
        lemma_row(r);
    }
    r
}

fn graft_cell(cell: &Cell, extras: &Vec<Extra>) -> (r: Cell)
    ensures
        r@ == grafted_cell(cell@, extra_views(extras@)),
    decreases *cell,
{
    proof {
        lemma_cell(*cell);
    }
    let r = match cell {
        Cell::Scalar(v) => Cell::Scalar(copy_value(v)),
        Cell::Row(row) => Cell::Row(Box::new(graft(row, extras))),
        Cell::Collection(rows) => Cell::Collection(graft_rows(rows, extras)),
    };
    proof {
        lemma_cell(r);
        match (cell, &r) {
            (Cell::Collection(rows), Cell::Collection(done)) => {
                assert(row_views(done@) =~= grafted_cell(cell@, extra_views(extras@))->Collection_0);
            },
            _ => {},
        }
    }
    r
}

fn graft_rows(rows: &Vec<Row>, extras: &Vec<Extra>) -> (r: Vec<Row>)
    ensures
        r@.len() == rows@.len(),
        forall|i: int| 0 <= i < rows@.len() ==> (#[trigger] r@[i])@ == grafted(rows@[i]@, extra_views(extras@)),
    decreases rows@,
{
    let mut r: Vec<Row> = Vec::new();
    let mut i: usize = 0;
    while i < rows.len()
        invariant
            i <= rows@.len(),
            r@.len() == i,
            forall|j: int| 0 <= j < i ==> (#[trigger] r@[j])@ == grafted(rows@[j]@, extra_views(extras@)),
        decreases rows@.len() - i,
    {
        r.push(graft(&rows[i], extras));
        i = i + 1;
    }
    r
}

/// The meters of a path, in order.
pub open spec fn meters_on(meters: Seq<CompiledMeter>, path: Seq<Seq<char>>) -> Seq<CompiledMeter>
    decreases meters.len(),
{
    if meters.len() == 0 {
        Seq::empty()
    } else if texts(meters.last().path@) == path {
        meters_on(meters.drop_last(), path).push(meters.last())
    } else {
        meters_on(meters.drop_last(), path)
    }
}

/// The cells a row shows of its meters, and of its funding where it is a spend.
pub open spec fn own_cells(
    meters: CompiledMeters,
    state: StateView,
    at: Seq<StepView>,
    work: Seq<LevelWork>,
    now: Timestamp,
) -> Seq<(Seq<char>, CellView)> {
    let own = meters_on(meters.meters@, names_of(at));
    let shown = Seq::new(own.len(), |i: int| (own[i].name@, level_shown(state, own[i], work[i], now)));
    if spend_found(meters.spends@, names_of(at)) is Some && state.contains_key(at) {
        shown.push(("funding"@, funding_rows(state[at])))
    } else {
        shown
    }
}

/// What named cells are as added cells.
pub open spec fn as_extras(id: IdView, cells: Seq<(Seq<char>, CellView)>) -> Seq<ExtraView> {
    Seq::new(cells.len(), |i: int| ExtraView { id, name: cells[i].0, cell: cells[i].1 })
}

/// The cells the rows at the first `n` addresses show of their meters and funding.
pub open spec fn all_extras(
    meters: CompiledMeters,
    state: StateView,
    addresses: Seq<Seq<StepView>>,
    work: Seq<Vec<LevelWork>>,
    now: Timestamp,
    n: int,
) -> Seq<ExtraView>
    decreases n,
{
    if n <= 0 {
        Seq::empty()
    } else {
        let at = addresses[n - 1];
        all_extras(meters, state, addresses, work, now, n - 1) + as_extras(
            keys_along(at),
            own_cells(meters, state, at, work[n - 1]@, now),
        )
    }
}

fn add_own_cells(
    meters: &CompiledMeters,
    prospective: &Prospective,
    at: &RowAddress,
    work: &Vec<LevelWork>,
    now: Timestamp,
    out: &mut Vec<(String, Cell)>,
)
    requires
        shown_ready(meters_on(meters.meters@, names_of(at@)), work@),
    ensures
        cell_views(final(out)@) == cell_views(old(out)@) + own_cells(*meters, prospective@, at@, work@, now),
{
    let ghost start = cell_views(out@);
    let path = at.declaration();
    let ghost names = names_of(at@);
    let ghost all = meters.meters@;
    let ghost own = meters_on(all, names);
    let ghost shown = Seq::new(
        own.len(),
        |i: int| (own[i].name@, level_shown(prospective@, own[i], work@[i], now)),
    );
    let total: usize = work.len();
    let mut used: usize = 0;
    let mut i: usize = 0;
    proof {
        assert(all.take(0) =~= Seq::<CompiledMeter>::empty());
        assert(start + shown.take(0) =~= start);
    }
    while i < meters.meters.len()
        invariant
            texts(path@) == names,
            all == meters.meters@,
            own == meters_on(all, names),
            total == work@.len(),
            shown_ready(own, work@),
            shown == Seq::new(
                own.len(),
                |i: int| (own[i].name@, level_shown(prospective@, own[i], work@[i], now)),
            ),
            i <= all.len(),
            used == meters_on(all.take(i as int), names).len(),
            meters_on(all.take(i as int), names) == own.take(used as int),
            used <= own.len(),
            cell_views(out@) == start + shown.take(used as int),
        decreases all.len() - i,
    {
        let ghost before = cell_views(out@);
        proof {
            assert(all.take(i + 1).drop_last() =~= all.take(i as int));
            assert(all.take(i + 1).last() == all[i as int]);
            lemma_meters_prefix(all, names, i + 1);
        }
        if same_texts(&meters.meters[i].path, &path) {
            proof {
                let here = meters_on(all.take(i + 1), names);
                assert(here.len() == used + 1);
                assert(here == own.take(used + 1));
                assert(here[used as int] == all[i as int]);
                assert(level_ready(own[used as int], work@[used as int]));
                assert(own[used as int] == own.take(used + 1)[used as int]);
            }
            out.push((meters.meters[i].name.clone(), meter_cell(prospective, &meters.meters[i], &work[used], now)));
            proof {
                assert(cell_views(out@) =~= before.push(shown[used as int]));
                assert(start + shown.take(used + 1) =~= (start + shown.take(used as int)).push(shown[used as int]));
            }
            used = used + 1;
        }
        i = i + 1;
    }
    proof {
        assert(all.take(i as int) =~= all);
        assert(shown.take(used as int) =~= shown);
    }
    if meters.spend_at(&path).is_some() {
        if let Some(fields) = prospective.get(at) {
            let ghost before = cell_views(out@);
            out.push((String::from_str("funding"), funding_cell(fields)));
            proof {
                let added = ("funding"@, funding_rows(prospective@[at@]));
                assert(cell_views(out@) =~= before.push(added));
                assert(start + shown.push(added) =~= (start + shown).push(added));
            }
        }
    }
}

proof fn lemma_meters_prefix(meters: Seq<CompiledMeter>, path: Seq<Seq<char>>, n: int)
    requires
        0 <= n <= meters.len(),
    ensures
        meters_on(meters.take(n), path).len() <= meters_on(meters, path).len(),
        meters_on(meters, path).take(meters_on(meters.take(n), path).len() as int) == meters_on(meters.take(n), path),
    decreases meters.len() - n,
{
    let short = meters_on(meters.take(n), path);
    if n == meters.len() {
        assert(meters.take(n) =~= meters);
        assert(short.take(short.len() as int) =~= short);
    } else {
        assert(meters.take(n + 1).drop_last() =~= meters.take(n));
        lemma_meters_prefix(meters, path, n + 1);
        let longer = meters_on(meters.take(n + 1), path);
        let whole = meters_on(meters, path);
        assert(longer.take(short.len() as int) =~= short);
        assert(whole.take(short.len() as int) =~= whole.take(longer.len() as int).take(short.len() as int));
    }
}

/// Whether there is evaluation work for each of the meters a row shows.
pub open spec fn shown_ready(meters: Seq<CompiledMeter>, work: Seq<LevelWork>) -> bool {
    &&& work.len() == meters.len()
    &&& forall|k: int| 0 <= k < meters.len() ==> level_ready(meters[k], #[trigger] work[k])
}

/// Whether there is evaluation work for each meter of each row.
pub open spec fn shows_ready(meters: CompiledMeters, state: StateView, work: Seq<Vec<LevelWork>>) -> bool {
    let rows = in_order(state.dom());
    &&& work.len() == rows.len()
    &&& forall|i: int|
        0 <= i < rows.len() ==> shown_ready(meters_on(meters.meters@, names_of(#[trigger] rows[i])), work[i]@)
}

/// Show the meters and the funding of every row of a tree. `work` holds, for each row
/// of the state, the levels of its meters.
pub fn expose(
    meters: &CompiledMeters,
    prospective: &Prospective,
    root: &Row,
    work: &Vec<Vec<LevelWork>>,
    now: Timestamp,
) -> (r: Row)
    requires
        shows_ready(*meters, prospective@, work@),
    ensures
        r@ == (if meters.meters@.len() == 0 && meters.spends@.len() == 0 {
            root@
        } else {
            let rows = in_order(prospective@.dom());
            grafted(root@, all_extras(*meters, prospective@, rows, work@, now, rows.len() as int))
        }),
{
    if meters.meters.len() == 0 && meters.spends.len() == 0 {
        return copy_row(root);
    }
    let addresses = prospective.addresses();
    let ghost rows = address_views(addresses@);
    let mut extras: Vec<Extra> = Vec::new();
    let mut i: usize = 0;
    proof {
        assert(extra_views(extras@) =~= Seq::<ExtraView>::empty());
    }
    while i < addresses.len()
        invariant
            rows == address_views(addresses@),
            rows == in_order(prospective@.dom()),
            shows_ready(*meters, prospective@, work@),
            i <= addresses@.len(),
            extra_views(extras@) == all_extras(*meters, prospective@, rows, work@, now, i as int),
        decreases addresses@.len() - i,
    {
        let ghost before = extra_views(extras@);
        proof {
            assert(rows[i as int] == addresses@[i as int]@);
        }
        let mut cells: Vec<(String, Cell)> = Vec::new();
        proof {
            assert(cell_views(cells@) =~= Seq::<(Seq<char>, CellView)>::empty());
        }
        add_own_cells(meters, prospective, &addresses[i], &work[i], now, &mut cells);
        let ghost own = own_cells(*meters, prospective@, addresses@[i as int]@, work@[i as int]@, now);
        let ghost id = keys_along(addresses@[i as int]@);
        let ghost added = as_extras(id, own);
        proof {
            assert(cell_views(cells@) =~= own);
            assert(before + added.take(0) =~= before);
        }
        let mut k: usize = 0;
        while k < cells.len()
            invariant
                i < addresses@.len(),
                cell_views(cells@) == own,
                id == keys_along(addresses@[i as int]@),
                added == as_extras(id, own),
                k <= cells@.len(),
                extra_views(extras@) == before + added.take(k as int),
            decreases cells@.len() - k,
        {
            let ghost so_far = extra_views(extras@);
            extras.push(
                Extra {
                    id: row_id_of(&addresses[i]),
                    name: cells[k].0.clone(),
                    cell: copy_cell(&cells[k].1),
                },
            );
            proof {
                assert(own[k as int] == (cells@[k as int].0@, cells@[k as int].1@));
                assert(extra_views(extras@) =~= so_far.push(added[k as int]));
                assert(before + added.take(k + 1) =~= (before + added.take(k as int)).push(added[k as int]));
            }
            k = k + 1;
        }
        proof {
            assert(added.take(k as int) =~= added);
        }
        i = i + 1;
    }
    graft(root, &extras)
}

/// A row with its own meters and funding set.
pub open spec fn augmented(cells: Seq<(Seq<char>, CellView)>, own: Seq<(Seq<char>, CellView)>) -> Seq<
    (Seq<char>, CellView),
>
    decreases own.len(),
{
    if own.len() == 0 {
        cells
    } else {
        cells_with(augmented(cells, own.drop_last()), own.last().0, own.last().1)
    }
}

/// Show the meters and the funding of one row.
pub fn augment_row(
    meters: &CompiledMeters,
    prospective: &Prospective,
    at: &RowAddress,
    row: &Row,
    work: &Vec<LevelWork>,
    now: Timestamp,
) -> (r: Row)
    requires
        shown_ready(meters_on(meters.meters@, names_of(at@)), work@),
    ensures
        r@ == (RowView {
            cells: augmented(row@.cells, own_cells(*meters, prospective@, at@, work@, now)),
            ..row@
        }),
{
    let mut own: Vec<(String, Cell)> = Vec::new();
    proof {
        assert(cell_views(own@) =~= Seq::<(Seq<char>, CellView)>::empty());
    }
    add_own_cells(meters, prospective, at, work, now, &mut own);
    let ghost shown = own_cells(*meters, prospective@, at@, work@, now);
    proof {
        assert(cell_views(own@) =~= shown);
        lemma_row(*row);
    }
    let mut cells = copy_cells(&row.cells);
    let mut i: usize = 0;
    proof {
        assert(shown.take(0) =~= Seq::<(Seq<char>, CellView)>::empty());
    }
    while i < own.len()
        invariant
            cell_views(own@) == shown,
            i <= own@.len(),
            cell_views(cells@) == augmented(row@.cells, shown.take(i as int)),
        decreases own@.len() - i,
    {
        proof {
            assert(shown.take(i + 1).drop_last() =~= shown.take(i as int));
            assert(shown.take(i + 1).last() == (own@[i as int].0@, own@[i as int].1@));
        }
        set_cell(&mut cells, own[i].0.as_str(), copy_cell(&own[i].1));
        i = i + 1;
    }
    proof {
        assert(shown.take(i as int) =~= shown);
    }
    let r = Row { id: row.id.duplicate(), key: copy_value(&row.key), cells };
    proof {
        lemma_row(r);
    }
    r
}

/// A balance is never negative.
pub proof fn law_balance_not_negative(state: StateView, level: Seq<char>, pools: Seq<PoolView>, n: int)
    requires
        0 <= n <= pools.len(),
    ensures
        balance_of(state, level, pools, n) >= 0real,
    decreases n,
{
    if n > 0 {
        law_balance_not_negative(state, level, pools, n - 1);
    }
}

/// What is shown to remain of a pool and what is held of it make up its capacity, as
/// long as no more is held than it has; where more is held, nothing remains.
pub proof fn law_remaining(state: StateView, level: Seq<char>, pool: PoolView, capacity: real)
    requires
        pool.quantity == Some(capacity),
    ensures
        allocation(state, level, pool.source, pool.key) <= capacity ==> left_of(state, level, pool) + allocation(
            state,
            level,
            pool.source,
            pool.key,
        ) == capacity,
        allocation(state, level, pool.source, pool.key) >= capacity ==> left_of(state, level, pool) == 0real,
{
}

/// What the row of a pool shows to remain.
pub open spec fn remaining_in(row: RowView) -> real {
    match row.cells[1].1 {
        CellView::Scalar(ValueView::Decimal(d)) => d,
        _ => 0real,
    }
}

/// The sum of what rows of pools show to remain.
pub open spec fn remaining_sum(rows: Seq<RowView>) -> real
    decreases rows.len(),
{
    if rows.len() == 0 {
        0real
    } else {
        remaining_sum(rows.drop_last()) + remaining_in(rows.last())
    }
}

/// A balance is the sum of what the rows of its pools show to remain.
pub proof fn law_balance_sums(state: StateView, level: Seq<char>, pools: Seq<PoolView>, n: int)
    requires
        0 <= n <= pools.len(),
    ensures
        balance_of(state, level, pools, n) == remaining_sum(pools_shown(state, level, pools, n)),
    decreases n,
{
    if n > 0 {
        law_balance_sums(state, level, pools, n - 1);
        if pools[n - 1].quantity is Some {
            let before = pools_shown(state, level, pools, n - 1);
            let after = pools_shown(state, level, pools, n);
            assert(after.drop_last() =~= before);
        }
    }
}

/// Whether a row shows this pool at this place: its key, its source, and what remains.
pub open spec fn shows_pool(row: RowView, state: StateView, level: Seq<char>, pool: PoolView, place: int) -> bool {
    &&& row.id == seq![seq![ValueView::Int(place)]]
    &&& row.key == pool.key
    &&& row.cells.len() == 2
    &&& row.cells[0] == ("source"@, CellView::Scalar(ValueView::Text(pool.source)))
    &&& row.cells[1] == ("remaining"@, CellView::Scalar(ValueView::Decimal(left_of(state, level, pool))))
}

/// The pools with a capacity among the first `n`.
pub open spec fn limited(pools: Seq<PoolView>, n: int) -> Set<int> {
    Set::new(|i: int| 0 <= i < n && pools[i].quantity is Some)
}

/// Every pool with a capacity has its row, and there is one row for each of them; a
/// pool without a capacity has none. The rows of more pools follow those of fewer.
pub proof fn law_pools_shown(state: StateView, level: Seq<char>, pools: Seq<PoolView>, n: int)
    requires
        0 <= n <= pools.len(),
    ensures
        limited(pools, n).finite(),
        pools_shown(state, level, pools, n).len() == limited(pools, n).len(),
        forall|i: int|
            0 <= i < n && (#[trigger] pools[i]).quantity is Some ==> {
                let rows = pools_shown(state, level, pools, n);
                let k = limited(pools, i).len() as int;
                &&& 0 <= k < rows.len()
                &&& shows_pool(rows[k], state, level, pools[i], i)
            },
    decreases n,
{
    let rows = pools_shown(state, level, pools, n);
    if n > 0 {
        law_pools_shown(state, level, pools, n - 1);
        let before = pools_shown(state, level, pools, n - 1);
        if pools[n - 1].quantity is Some {
            assert(limited(pools, n) =~= limited(pools, n - 1).insert(n - 1));
        } else {
            assert(limited(pools, n) =~= limited(pools, n - 1));
        }
        assert forall|i: int| 0 <= i < n && (#[trigger] pools[i]).quantity is Some implies {
            let k = limited(pools, i).len() as int;
            &&& 0 <= k < rows.len()
            &&& shows_pool(rows[k], state, level, pools[i], i)
        } by {
            let k = limited(pools, i).len() as int;
            if i < n - 1 {
                assert(rows[k] == before[k]);
            } else {
                assert(rows[k] == pool_shown(state, level, pools[i], i));
            }
        }
    } else {
        assert(limited(pools, n) =~= Set::<int>::empty());
    }
}

/// A meter is shown as one row: its balance, and the rows of all its pools.
pub proof fn law_meter_shown(state: StateView, level: Seq<char>, pools: Seq<PoolView>)
    ensures
        meter_shown(state, level, pools) matches CellView::Row(row) && row.cells == seq![
            (
                "balance"@,
                CellView::Scalar(
                    ValueView::Decimal(remaining_sum(pools_shown(state, level, pools, pools.len() as int))),
                ),
            ),
            ("pools"@, CellView::Collection(pools_shown(state, level, pools, pools.len() as int))),
        ],
{
    law_balance_sums(state, level, pools, pools.len() as int);
}

} // verus!
