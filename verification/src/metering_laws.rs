//! What metering keeps to: which pools are open to a spend and in which order, which
//! levels a spend clears, what its funding comes to, and where capacities are checked.

use crate::address::{names_of, StepView};
use crate::cell::{cell_named, Cell, CellView, RowView};
use crate::funding::{drained, funding_of, law_drain_sums, total, EntryView, PoolView};
use crate::levels::{level_text, open_at, LevelWork};
use crate::meter::{first_failure, CompiledMeter, CompiledSpend};
use crate::patch::IdView;
use crate::pools::{
    admitted, candidate_resolved, candidates_resolved, capacity_in, cells_with, interval_for, is_active, number_in,
    pool_before, pool_before_from, pool_row, seen_before, sources_resolved, spend_shown, with_metadata, Candidate,
    Interval, ResolveView, SeenView, SourceWork,
};
use crate::rejection::{Rejection, RejectionView};
use crate::spending::{
    capacity_checks, consume_funded, counted_at, enforced, first_refusal, first_verdict, levels_above, levels_funded,
    levels_of, meter_found, on_path, rows_on, spend_found, spend_funded, spends_funded, CompiledMeters, ConsumeEval,
    SpendEval,
};
use crate::state::{in_order, StateView};
use crate::table::lemma_sorted_exists;
use crate::text::texts;
use crate::time::Timestamp;
use crate::update::EngineError;
use crate::value::{value_before, views, ValueView};
use crate::address::RowAddress;
use crate::text::text_before;
use vstd::prelude::*;

verus! {

/// A row is active from its start on, and until its end; a bound that is not there
/// bounds nothing.
pub proof fn law_active(from: Timestamp, until: Timestamp, time: Timestamp)
    ensures
        is_active((None, None), time),
        is_active((Some(from), None), time) <==> from.instant() <= time.instant(),
        is_active((None, Some(until)), time) <==> time.instant() < until.instant(),
        is_active((Some(from), Some(until)), time) <==> from.instant() <= time.instant() < until.instant(),
{
}

/// The interval of a row is the last one listed under its identity, and an open one
/// where none is.
pub proof fn law_interval_for(index: Seq<(IdView, Interval)>, id: IdView)
    ensures
        (forall|i: int| 0 <= i < index.len() ==> (#[trigger] index[i]).0 != id) ==> interval_for(index, id) == (
            None::<Timestamp>,
            None::<Timestamp>,
        ),
        forall|i: int|
            0 <= i < index.len() && (#[trigger] index[i]).0 == id && (forall|j: int|
                i < j < index.len() ==> (#[trigger] index[j]).0 != id) ==> interval_for(index, id) == index[i].1,
    decreases index.len(),
{
    if index.len() > 0 {
        let rest = index.drop_last();
        law_interval_for(rest, id);
        assert(index[index.len() - 1] == index.last());
        assert forall|i: int|
            0 <= i < index.len() && (#[trigger] index[i]).0 == id && (forall|j: int|
                i < j < index.len() ==> (#[trigger] index[j]).0 != id) implies interval_for(index, id) == index[i].1 by {
            if i < rest.len() {
                assert(index[index.len() - 1].0 != id);
                assert(rest[i] == index[i]);
                assert forall|j: int| i < j < rest.len() implies (#[trigger] rest[j]).0 != id by {
                    assert(rest[j] == index[j]);
                }
            }
        }
        if forall|i: int| 0 <= i < index.len() ==> (#[trigger] index[i]).0 != id {
            assert forall|i: int| 0 <= i < rest.len() implies (#[trigger] rest[i]).0 != id by {
                assert(rest[i] == index[i]);
            }
            assert(index[index.len() - 1].0 != id);
        }
    }
}

/// A quantity is a decimal or a whole number, and nothing else is.
pub proof fn law_quantity(d: real, i: int, other: ValueView)
    ensures
        number_in(ValueView::Decimal(d)) == Ok::<real, RejectionView>(d),
        number_in(ValueView::Int(i)) == Ok::<real, RejectionView>(i as real),
        !(other is Decimal) && !(other is Int) ==> number_in(other) is Err,
{
}

/// The capacity of a pool row is the number it shows as its quantity.
pub proof fn law_capacity(cells: Seq<(Seq<char>, CellView)>, d: real, i: int)
    ensures
        cell_named(cells, "$quantity"@) == Some(CellView::Scalar(ValueView::Decimal(d))) ==> capacity_in(cells) == Ok::<
            Option<real>,
            RejectionView,
        >(Some(d)),
        cell_named(cells, "$quantity"@) == Some(CellView::Scalar(ValueView::Int(i))) ==> capacity_in(cells) == Ok::<
            Option<real>,
            RejectionView,
        >(Some(i as real)),
        cell_named(cells, "$quantity"@) is None ==> capacity_in(cells) == Ok::<Option<real>, RejectionView>(None),
{
}

/// A cell that was set is the one under its name, and every other name keeps what it
/// had.
pub proof fn law_cell_set(cells: Seq<(Seq<char>, CellView)>, name: Seq<char>, cell: CellView, other: Seq<char>)
    ensures
        cell_named(cells_with(cells, name, cell), name) == Some(cell),
        other != name ==> cell_named(cells_with(cells, name, cell), other) == cell_named(cells, other),
    decreases cells.len(),
{
    let after = cells_with(cells, name, cell);
    reveal_with_fuel(cell_named, 2);
    if cells.len() == 0 {
        assert(after.drop_first() =~= Seq::<(Seq<char>, CellView)>::empty());
    } else if cells[0].0 == name {
        assert(after.drop_first() =~= cells.drop_first());
    } else {
        law_cell_set(cells.drop_first(), name, cell, other);
        assert(after.drop_first() =~= cells_with(cells.drop_first(), name, cell));
    }
}

/// The row a pool's eligibility and its order see has the pool's bounds and, where it
/// has one, its capacity; every other cell is the row's own.
pub proof fn law_pool_row(row: RowView, interval: Interval, quantity: Option<real>, other: Seq<char>)
    ensures
        pool_row(row, interval, quantity).id == row.id,
        pool_row(row, interval, quantity).key == row.key,
        interval.0 matches Some(t) ==> cell_named(pool_row(row, interval, quantity).cells, "$from"@) == Some(
            CellView::Scalar(ValueView::Timestamp(t)),
        ),
        interval.1 matches Some(t) ==> cell_named(pool_row(row, interval, quantity).cells, "$until"@) == Some(
            CellView::Scalar(ValueView::Timestamp(t)),
        ),
        interval.0 is None ==> cell_named(pool_row(row, interval, quantity).cells, "$from"@) == Some(
            CellView::Scalar(ValueView::Absent),
        ),
        interval.1 is None ==> cell_named(pool_row(row, interval, quantity).cells, "$until"@) == Some(
            CellView::Scalar(ValueView::Absent),
        ),
        quantity matches Some(q) ==> cell_named(pool_row(row, interval, quantity).cells, "$quantity"@) == Some(
            CellView::Scalar(ValueView::Decimal(q)),
        ),
        other != "$from"@ && other != "$until"@ && other != "$quantity"@ ==> cell_named(
            pool_row(row, interval, quantity).cells,
            other,
        ) == cell_named(row.cells, other),
{
    reveal_strlit("$from");
    reveal_strlit("$until");
    reveal_strlit("$quantity");
    assert("$from"@[1] == 'f' && "$until"@[1] == 'u' && "$quantity"@[1] == 'q');
    let from = crate::pools::bound_cell(interval.0);
    let until = crate::pools::bound_cell(interval.1);
    let one = cells_with(row.cells, "$from"@, from);
    let two = cells_with(one, "$until"@, until);
    law_cell_set(row.cells, "$from"@, from, other);
    law_cell_set(one, "$until"@, until, other);
    law_cell_set(one, "$until"@, until, "$from"@);
    if let Some(q) = quantity {
        let cell = CellView::Scalar(ValueView::Decimal(q));
        law_cell_set(two, "$quantity"@, cell, other);
        law_cell_set(two, "$quantity"@, cell, "$from"@);
        law_cell_set(two, "$quantity"@, cell, "$until"@);
    }
}

/// A pool's condition sees the amount and the instant a spend counts with, and of its
/// other cells what the spend has where no metadata names them.
pub proof fn law_spend_shown(
    row: RowView,
    metadata: Seq<(String, Result<Cell, Rejection>)>,
    amount: real,
    time: Timestamp,
    other: Seq<char>,
)
    requires
        spend_shown(row, metadata, amount, time) is Ok,
    ensures
        spend_shown(row, metadata, amount, time)->Ok_0.id == row.id,
        spend_shown(row, metadata, amount, time)->Ok_0.key == row.key,
        cell_named(spend_shown(row, metadata, amount, time)->Ok_0.cells, "$amount"@) == Some(
            CellView::Scalar(ValueView::Decimal(amount)),
        ),
        cell_named(spend_shown(row, metadata, amount, time)->Ok_0.cells, "$time"@) == Some(
            CellView::Scalar(ValueView::Timestamp(time)),
        ),
        other != "$amount"@ && other != "$time"@ && (forall|i: int|
            0 <= i < metadata.len() ==> (#[trigger] metadata[i]).0@ != other) ==> cell_named(
            spend_shown(row, metadata, amount, time)->Ok_0.cells,
            other,
        ) == cell_named(row.cells, other),
        other != "$amount"@ && other != "$time"@ ==> forall|i: int|
            0 <= i < metadata.len() && (#[trigger] metadata[i]).0@ == other && (forall|j: int|
                i < j < metadata.len() ==> (#[trigger] metadata[j]).0@ != other) ==> metadata[i].1 is Ok && cell_named(
                spend_shown(row, metadata, amount, time)->Ok_0.cells,
                other,
            ) == Some(metadata[i].1->Ok_0@),
{
    reveal_strlit("$amount");
    reveal_strlit("$time");
    assert("$amount"@[1] == 'a' && "$time"@[1] == 't');
    let cells = with_metadata(row.cells, metadata)->Ok_0;
    let a = CellView::Scalar(ValueView::Decimal(amount));
    let t = CellView::Scalar(ValueView::Timestamp(time));
    let one = cells_with(cells, "$amount"@, a);
    law_cell_set(cells, "$amount"@, a, other);
    law_cell_set(one, "$time"@, t, other);
    law_cell_set(one, "$time"@, t, "$amount"@);
    lemma_metadata(row.cells, metadata, other);
}

proof fn lemma_metadata(
    cells: Seq<(Seq<char>, CellView)>,
    metadata: Seq<(String, Result<Cell, Rejection>)>,
    other: Seq<char>,
)
    requires
        with_metadata(cells, metadata) is Ok,
    ensures
        (forall|i: int| 0 <= i < metadata.len() ==> (#[trigger] metadata[i]).0@ != other) ==> cell_named(
            with_metadata(cells, metadata)->Ok_0,
            other,
        ) == cell_named(cells, other),
        forall|i: int|
            0 <= i < metadata.len() && (#[trigger] metadata[i]).0@ == other && (forall|j: int|
                i < j < metadata.len() ==> (#[trigger] metadata[j]).0@ != other) ==> metadata[i].1 is Ok && cell_named(
                with_metadata(cells, metadata)->Ok_0,
                other,
            ) == Some(metadata[i].1->Ok_0@),
    decreases metadata.len(),
{
    if metadata.len() > 0 {
        let rest = metadata.drop_last();
        lemma_metadata(cells, rest, other);
        let so_far = with_metadata(cells, rest)->Ok_0;
        let last = metadata.last();
        assert(metadata[metadata.len() - 1] == last);
        law_cell_set(so_far, last.0@, last.1->Ok_0@, other);
        if forall|i: int| 0 <= i < metadata.len() ==> (#[trigger] metadata[i]).0@ != other {
            assert forall|i: int| 0 <= i < rest.len() implies (#[trigger] rest[i]).0@ != other by {
                assert(rest[i] == metadata[i]);
            }
            assert(metadata[metadata.len() - 1].0@ != other);
        }
        assert forall|i: int|
            0 <= i < metadata.len() && (#[trigger] metadata[i]).0@ == other && (forall|j: int|
                i < j < metadata.len() ==> (#[trigger] metadata[j]).0@ != other) implies metadata[i].1 is Ok && cell_named(
            with_metadata(cells, metadata)->Ok_0,
            other,
        ) == Some(metadata[i].1->Ok_0@) by {
            if i < rest.len() {
                assert(metadata[metadata.len() - 1].0@ != other);
                assert(rest[i] == metadata[i]);
                assert forall|j: int| i < j < rest.len() implies (#[trigger] rest[j]).0@ != other by {
                    assert(rest[j] == metadata[j]);
                }
            }
        }
    }
}

/// Whether a candidate is open to a spend: it is active at the instant, and eligible.
pub open spec fn is_open(c: Candidate, index: Seq<(IdView, Interval)>, time: Timestamp) -> bool {
    is_active(interval_for(index, c.row@.id), time) && c.eligible == Ok::<bool, Rejection>(true)
}

/// Whether a pool is that of a candidate of a source.
pub open spec fn is_pool_of(p: PoolView, source: SourceWork, c: Candidate) -> bool {
    &&& p.source == source.label@
    &&& p.key == c.row@.key
    &&& source.has_quantity ==> capacity_in(c.row@.cells) == Ok::<Option<real>, RejectionView>(p.quantity)
    &&& !source.has_quantity ==> p.quantity is None
    &&& c.order_keys matches Ok(keys) && views(keys@) == p.order_keys
}

spec fn lists(pools: Seq<PoolView>, source: Seq<char>, key: ValueView) -> bool {
    exists|k: int| 0 <= k < pools.len() && (#[trigger] pools[k]).source == source && pools[k].key == key
}

spec fn came(
    p: PoolView,
    sources: Seq<SourceWork>,
    index: Seq<(IdView, Interval)>,
    time: Timestamp,
    i: int,
    j: int,
) -> bool {
    &&& 0 <= i < sources.len()
    &&& sources[i].rows is Ok
    &&& 0 <= j < sources[i].rows->Ok_0@.len()
    &&& is_open(sources[i].rows->Ok_0@[j], index, time)
    &&& is_pool_of(p, sources[i], sources[i].rows->Ok_0@[j])
}

spec fn originates(p: PoolView, sources: Seq<SourceWork>, index: Seq<(IdView, Interval)>, time: Timestamp) -> bool {
    exists|i: int, j: int| #[trigger] came(p, sources, index, time, i, j)
}

spec fn matched(v: ResolveView) -> bool {
    &&& v.pools.len() == v.seen.len()
    &&& forall|k: int|
        0 <= k < v.pools.len() ==> (#[trigger] v.pools[k]).source == v.seen[k].source && v.pools[k].key == v.seen[k].key
}

proof fn lemma_seen_listed(seen: Seq<SeenView>, source: Seq<char>, key: ValueView)
    ensures
        seen_before(seen, source, key) is Some <==> exists|k: int|
            0 <= k < seen.len() && (#[trigger] seen[k]).source == source && seen[k].key == key,
    decreases seen.len(),
{
    if seen.len() > 0 {
        let rest = seen.drop_first();
        lemma_seen_listed(rest, source, key);
        if exists|k: int| 0 <= k < rest.len() && (#[trigger] rest[k]).source == source && rest[k].key == key {
            let k = choose|k: int| 0 <= k < rest.len() && (#[trigger] rest[k]).source == source && rest[k].key == key;
            assert(seen[k + 1] == rest[k]);
        }
        if exists|k: int| 0 <= k < seen.len() && (#[trigger] seen[k]).source == source && seen[k].key == key {
            let k = choose|k: int| 0 <= k < seen.len() && (#[trigger] seen[k]).source == source && seen[k].key == key;
            if k > 0 {
                assert(rest[k - 1] == seen[k]);
            }
        }
    }
}

proof fn lemma_candidate(
    meter: Seq<char>,
    source: SourceWork,
    index: Seq<(IdView, Interval)>,
    time: Timestamp,
    c: Candidate,
    before: ResolveView,
)
    requires
        matched(before),
        candidate_resolved(meter, source.label@, source.has_quantity, index, time, c, before) is Ok,
    ensures
        ({
            let after = candidate_resolved(meter, source.label@, source.has_quantity, index, time, c, before)->Ok_0;
            &&& matched(after)
            &&& after.pools == before.pools || (after.pools.len() == before.pools.len() + 1 && after.pools.drop_last()
                == before.pools && is_open(c, index, time) && is_pool_of(after.pools.last(), source, c))
            &&& is_open(c, index, time) ==> lists(after.pools, source.label@, c.row@.key)
        }),
{
    let after = candidate_resolved(meter, source.label@, source.has_quantity, index, time, c, before)->Ok_0;
    lemma_seen_listed(before.seen, source.label@, c.row@.key);
    if after.pools != before.pools {
        assert(after.pools.drop_last() =~= before.pools);
        assert(after.pools[after.pools.len() - 1].source == source.label@);
    } else if is_open(c, index, time) {
        let k = choose|k: int|
            0 <= k < before.seen.len() && (#[trigger] before.seen[k]).source == source.label@ && before.seen[k].key
                == c.row@.key;
        assert(before.pools[k].source == source.label@);
    }
}

proof fn lemma_listed_grows(a: Seq<PoolView>, b: Seq<PoolView>, source: Seq<char>, key: ValueView)
    requires
        a == b || (b.len() == a.len() + 1 && b.drop_last() == a),
        lists(a, source, key),
    ensures
        lists(b, source, key),
{
    let k = choose|k: int| 0 <= k < a.len() && (#[trigger] a[k]).source == source && a[k].key == key;
    assert(b[k] == a[k]);
}

proof fn lemma_candidates(
    meter: Seq<char>,
    sources: Seq<SourceWork>,
    i: int,
    index: Seq<(IdView, Interval)>,
    time: Timestamp,
    before: ResolveView,
    n: int,
)
    requires
        0 <= i < sources.len(),
        sources[i].rows is Ok,
        0 <= n <= sources[i].rows->Ok_0@.len(),
        matched(before),
        candidates_resolved(meter, sources[i], sources[i].rows->Ok_0@, index, time, before, n) is Ok,
        forall|k: int|
            0 <= k < before.pools.len() ==> originates(#[trigger] before.pools[k], sources, index, time),
    ensures
        ({
            let after = candidates_resolved(meter, sources[i], sources[i].rows->Ok_0@, index, time, before, n)->Ok_0;
            &&& matched(after)
            &&& forall|k: int|
                0 <= k < after.pools.len() ==> originates(#[trigger] after.pools[k], sources, index, time)
            &&& forall|j: int|
                0 <= j < n && is_open(#[trigger] sources[i].rows->Ok_0@[j], index, time) ==> lists(
                    after.pools,
                    sources[i].label@,
                    sources[i].rows->Ok_0@[j].row@.key,
                )
            &&& forall|s: Seq<char>, key: ValueView|
                lists(before.pools, s, key) ==> #[trigger] lists(after.pools, s, key)
        }),
    decreases n,
{
    if n > 0 {
        lemma_candidates(meter, sources, i, index, time, before, n - 1);
        let rows = sources[i].rows->Ok_0@;
        let mid = candidates_resolved(meter, sources[i], rows, index, time, before, n - 1)->Ok_0;
        let after = candidates_resolved(meter, sources[i], rows, index, time, before, n)->Ok_0;
        lemma_candidate(meter, sources[i], index, time, rows[n - 1], mid);
        assert forall|k: int| 0 <= k < after.pools.len() implies originates(#[trigger] after.pools[k], sources, index, time) by {
            if k < mid.pools.len() {
                assert(after.pools[k] == mid.pools[k]);
            } else {
                assert(came(after.pools[k], sources, index, time, i, n - 1));
            }
        }
        assert forall|j: int| 0 <= j < n && is_open(#[trigger] rows[j], index, time) implies lists(
            after.pools,
            sources[i].label@,
            rows[j].row@.key,
        ) by {
            if j < n - 1 {
                lemma_listed_grows(mid.pools, after.pools, sources[i].label@, rows[j].row@.key);
            }
        }
        assert forall|s: Seq<char>, key: ValueView| lists(before.pools, s, key) implies #[trigger] lists(
            after.pools,
            s,
            key,
        ) by {
            assert(lists(mid.pools, s, key));
            lemma_listed_grows(mid.pools, after.pools, s, key);
        }
    }
}

proof fn lemma_sources(meter: Seq<char>, sources: Seq<SourceWork>, index: Seq<(IdView, Interval)>, time: Timestamp, n: int)
    requires
        0 <= n <= sources.len(),
        sources_resolved(meter, sources, index, time, n) is Ok,
    ensures
        ({
            let v = sources_resolved(meter, sources, index, time, n)->Ok_0;
            &&& matched(v)
            &&& forall|k: int|
                0 <= k < v.pools.len() ==> originates(#[trigger] v.pools[k], sources, index, time)
            &&& forall|i: int, j: int|
                0 <= i < n && sources[i].rows is Ok && 0 <= j < sources[i].rows->Ok_0@.len() && is_open(
                    #[trigger] sources[i].rows->Ok_0@[j],
                    index,
                    time,
                ) ==> lists(v.pools, sources[i].label@, sources[i].rows->Ok_0@[j].row@.key)
        }),
    decreases n,
{
    if n > 0 {
        lemma_sources(meter, sources, index, time, n - 1);
        let before = sources_resolved(meter, sources, index, time, n - 1)->Ok_0;
        let rows = sources[n - 1].rows->Ok_0@;
        lemma_candidates(meter, sources, n - 1, index, time, before, rows.len() as int);
        let v = sources_resolved(meter, sources, index, time, n)->Ok_0;
        assert forall|i: int, j: int|
            0 <= i < n && sources[i].rows is Ok && 0 <= j < sources[i].rows->Ok_0@.len() && is_open(
                #[trigger] sources[i].rows->Ok_0@[j],
                index,
                time,
            ) implies lists(v.pools, sources[i].label@, sources[i].rows->Ok_0@[j].row@.key) by {
            if i < n - 1 {
                assert(lists(before.pools, sources[i].label@, sources[i].rows->Ok_0@[j].row@.key));
            }
        }
    }
}

/// Every row a source gave that is active and eligible has its pool, under the
/// source's label and the row's key.
pub proof fn law_open_pools_counted(
    meter: Seq<char>,
    sources: Seq<SourceWork>,
    index: Seq<(IdView, Interval)>,
    time: Timestamp,
    i: int,
    j: int,
)
    requires
        sources_resolved(meter, sources, index, time, sources.len() as int) is Ok,
        0 <= i < sources.len(),
        sources[i].rows is Ok,
        0 <= j < sources[i].rows->Ok_0@.len(),
        is_open(sources[i].rows->Ok_0@[j], index, time),
    ensures
        ({
            let pools = sources_resolved(meter, sources, index, time, sources.len() as int)->Ok_0.pools;
            exists|k: int|
                0 <= k < pools.len() && (#[trigger] pools[k]).source == sources[i].label@ && pools[k].key
                    == sources[i].rows->Ok_0@[j].row@.key
        }),
{
    lemma_sources(meter, sources, index, time, sources.len() as int);
}

/// Every pool is that of a row some source gave that is active and eligible, with that
/// row's capacity and order keys.
pub proof fn law_pools_are_open(
    meter: Seq<char>,
    sources: Seq<SourceWork>,
    index: Seq<(IdView, Interval)>,
    time: Timestamp,
    k: int,
)
    requires
        sources_resolved(meter, sources, index, time, sources.len() as int) is Ok,
        0 <= k < sources_resolved(meter, sources, index, time, sources.len() as int)->Ok_0.pools.len(),
    ensures
        exists|i: int, j: int|
            0 <= i < sources.len() && sources[i].rows is Ok && 0 <= j < sources[i].rows->Ok_0@.len() && is_open(
                #[trigger] sources[i].rows->Ok_0@[j],
                index,
                time,
            ) && is_pool_of(
                sources_resolved(meter, sources, index, time, sources.len() as int)->Ok_0.pools[k],
                sources[i],
                sources[i].rows->Ok_0@[j],
            ),
{
    lemma_sources(meter, sources, index, time, sources.len() as int);
    let p = sources_resolved(meter, sources, index, time, sources.len() as int)->Ok_0.pools[k];
    assert(originates(p, sources, index, time));
    let (i, j) = choose|i: int, j: int| #[trigger] came(p, sources, index, time, i, j);
    assert(is_open(sources[i].rows->Ok_0@[j], index, time));
}

/// Two rows of one identity that are both open and differ in capacity or end are
/// refused.
pub proof fn law_disagreement_refused(
    meter: Seq<char>,
    source: SourceWork,
    index: Seq<(IdView, Interval)>,
    time: Timestamp,
    c: Candidate,
    before: ResolveView,
    s: SeenView,
)
    requires
        is_open(c, index, time),
        seen_before(before.seen, source.label@, c.row@.key) == Some(s),
        source.has_quantity,
        capacity_in(c.row@.cells) != Ok::<Option<real>, RejectionView>(s.quantity) || interval_for(index, c.row@.id).1
            != s.until,
    ensures
        candidate_resolved(meter, source.label@, source.has_quantity, index, time, c, before) is Err,
{
}

/// Any pool may fund a spend where no condition is declared; where one is, those for
/// which it came to true.
pub proof fn law_eligible(condition: Result<CellView, RejectionView>)
    ensures
        admitted(None) == Ok::<bool, RejectionView>(true),
        condition matches Ok(cell) ==> admitted(Some(condition)) == Ok::<bool, RejectionView>(
            cell matches CellView::Scalar(v) && v == ValueView::Bool(true),
        ),
        condition matches Err(e) ==> admitted(Some(condition)) == Err::<bool, RejectionView>(e),
{
}

/// Pools are drawn from by the first order key in which they differ: the lesser first,
/// or the greater first where that key descends. Pools that agree in every key are
/// drawn from by source, and then by key.
pub proof fn law_draw_order(a: PoolView, b: PoolView, descending: Seq<bool>, i: int)
    requires
        a.order_keys.len() == descending.len(),
        b.order_keys.len() == descending.len(),
        0 <= i <= descending.len(),
        forall|j: int| 0 <= j < i ==> #[trigger] a.order_keys[j] == b.order_keys[j],
        i < descending.len() ==> a.order_keys[i] != b.order_keys[i],
    ensures
        i < descending.len() && !descending[i] ==> (pool_before(a, b, descending) <==> value_before(
            a.order_keys[i],
            b.order_keys[i],
        )),
        i < descending.len() && descending[i] ==> (pool_before(a, b, descending) <==> value_before(
            b.order_keys[i],
            a.order_keys[i],
        )),
        i == descending.len() && a.source != b.source ==> (pool_before(a, b, descending) <==> text_before(
            a.source,
            b.source,
        )),
        i == descending.len() && a.source == b.source ==> value_before(a.key, b.key) ==> pool_before(a, b, descending),
{
    lemma_draw_order(a, b, descending, i, 0);
}

proof fn lemma_draw_order(a: PoolView, b: PoolView, descending: Seq<bool>, i: int, from: int)
    requires
        a.order_keys.len() == descending.len(),
        b.order_keys.len() == descending.len(),
        0 <= from <= i <= descending.len(),
        forall|j: int| 0 <= j < i ==> #[trigger] a.order_keys[j] == b.order_keys[j],
    ensures
        pool_before_from(a, b, descending, from) == pool_before_from(a, b, descending, i),
    decreases i - from,
{
    if from < i {
        lemma_draw_order(a, b, descending, i, from + 1);
    }
}

/// The meter of a name at a path is the first declared with both, and there is none
/// only if none is declared with both.
pub proof fn law_meter_found(meters: Seq<CompiledMeter>, path: Seq<Seq<char>>, name: Seq<char>)
    ensures
        meter_found(meters, path, name) is None <==> forall|i: int|
            0 <= i < meters.len() ==> !(texts((#[trigger] meters[i]).path@) == path && meters[i].name@ == name),
        forall|i: int|
            0 <= i < meters.len() && texts((#[trigger] meters[i]).path@) == path && meters[i].name@ == name && (forall|
                j: int,
            |
                0 <= j < i ==> !(texts((#[trigger] meters[j]).path@) == path && meters[j].name@ == name)) ==> meter_found(
                meters,
                path,
                name,
            ) == Some(meters[i]),
    decreases meters.len(),
{
    if meters.len() > 0 {
        let rest = meters.drop_first();
        law_meter_found(rest, path, name);
        if texts(meters[0].path@) == path && meters[0].name@ == name {
            assert(meter_found(meters, path, name) == Some(meters[0]));
        } else {
            if meter_found(meters, path, name) is None {
                assert forall|i: int| 0 <= i < meters.len() implies !(texts((#[trigger] meters[i]).path@) == path
                    && meters[i].name@ == name) by {
                    if i > 0 {
                        assert(rest[i - 1] == meters[i]);
                    }
                }
            } else if forall|i: int|
                0 <= i < meters.len() ==> !(texts((#[trigger] meters[i]).path@) == path && meters[i].name@ == name) {
                assert forall|i: int| 0 <= i < rest.len() implies !(texts((#[trigger] rest[i]).path@) == path
                    && rest[i].name@ == name) by {
                    assert(rest[i] == meters[i + 1]);
                }
            }
            assert forall|i: int|
                0 <= i < meters.len() && texts((#[trigger] meters[i]).path@) == path && meters[i].name@ == name && (forall|
                    j: int,
                |
                    0 <= j < i ==> !(texts((#[trigger] meters[j]).path@) == path && meters[j].name@
                        == name)) implies meter_found(meters, path, name) == Some(meters[i]) by {
                assert(rest[i - 1] == meters[i]);
                assert forall|j: int| 0 <= j < i - 1 implies !(texts((#[trigger] rest[j]).path@) == path && rest[j].name@
                    == name) by {
                    assert(rest[j] == meters[j + 1]);
                }
            }
        }
    }
}

/// The spend collection at a path is the first declared there, and there is none only
/// if none is declared there.
pub proof fn law_spend_found(spends: Seq<CompiledSpend>, path: Seq<Seq<char>>)
    ensures
        spend_found(spends, path) is None <==> forall|i: int|
            0 <= i < spends.len() ==> texts((#[trigger] spends[i]).path@) != path,
        forall|i: int|
            0 <= i < spends.len() && texts((#[trigger] spends[i]).path@) == path && (forall|j: int|
                0 <= j < i ==> texts((#[trigger] spends[j]).path@) != path) ==> spend_found(spends, path) == Some(
                spends[i],
            ),
    decreases spends.len(),
{
    if spends.len() > 0 {
        let rest = spends.drop_first();
        law_spend_found(rest, path);
        if texts(spends[0].path@) == path {
            assert(spend_found(spends, path) == Some(spends[0]));
        } else {
            if spend_found(spends, path) is None {
                assert forall|i: int| 0 <= i < spends.len() implies texts((#[trigger] spends[i]).path@) != path by {
                    if i > 0 {
                        assert(rest[i - 1] == spends[i]);
                    }
                }
            } else if forall|i: int| 0 <= i < spends.len() ==> texts((#[trigger] spends[i]).path@) != path {
                assert forall|i: int| 0 <= i < rest.len() implies texts((#[trigger] rest[i]).path@) != path by {
                    assert(rest[i] == spends[i + 1]);
                }
            }
            assert forall|i: int|
                0 <= i < spends.len() && texts((#[trigger] spends[i]).path@) == path && (forall|j: int|
                    0 <= j < i ==> texts((#[trigger] spends[j]).path@) != path) implies spend_found(spends, path) == Some(
                spends[i],
            ) by {
                assert(rest[i - 1] == spends[i]);
                assert forall|j: int| 0 <= j < i - 1 implies texts((#[trigger] rest[j]).path@) != path by {
                    assert(rest[j] == spends[j + 1]);
                }
            }
        }
    }
}

proof fn lemma_levels_above(meters: Seq<CompiledMeter>, spend: Seq<StepView>, name: Seq<char>, depth: int)
    requires
        0 <= depth < spend.len() || (depth == 0 && spend.len() == 0),
    ensures
        ({
            let levels = levels_above(meters, spend, name, depth);
            &&& forall|k: int|
                0 <= k < levels.len() ==> {
                    let d = (#[trigger] levels[k]).1.len() as int;
                    &&& 0 < d <= depth
                    &&& levels[k].1 == spend.take(d)
                    &&& meter_found(meters, names_of(spend.take(d)), name) == Some(levels[k].0)
                }
            &&& forall|d: int|
                0 < d <= depth && meter_found(meters, names_of(#[trigger] spend.take(d)), name) is Some ==> exists|k: int|
                    0 <= k < levels.len() && (#[trigger] levels[k]).1 == spend.take(d)
            &&& forall|j: int, k: int|
                0 <= j < k < levels.len() ==> (#[trigger] levels[j]).1.len() > (#[trigger] levels[k]).1.len()
        }),
    decreases depth,
{
    if depth > 0 {
        lemma_levels_above(meters, spend, name, depth - 1);
        let above = levels_above(meters, spend, name, depth - 1);
        let levels = levels_above(meters, spend, name, depth);
        if let Some(m) = meter_found(meters, names_of(spend.take(depth)), name) {
            assert forall|k: int| 0 <= k < levels.len() implies {
                let d = (#[trigger] levels[k]).1.len() as int;
                &&& 0 < d <= depth
                &&& levels[k].1 == spend.take(d)
                &&& meter_found(meters, names_of(spend.take(d)), name) == Some(levels[k].0)
            } by {
                if k > 0 {
                    assert(levels[k] == above[k - 1]);
                } else {
                    assert(levels[k] == (m, spend.take(depth)));
                }
            }
            assert forall|d: int|
                0 < d <= depth && meter_found(meters, names_of(#[trigger] spend.take(d)), name) is Some implies exists|
                k: int,
            |
                0 <= k < levels.len() && (#[trigger] levels[k]).1 == spend.take(d) by {
                if d < depth {
                    let k = choose|k: int| 0 <= k < above.len() && (#[trigger] above[k]).1 == spend.take(d);
                    assert(levels[k + 1] == above[k]);
                } else {
                    assert(levels[0].1 == spend.take(d));
                }
            }
            assert forall|j: int, k: int| 0 <= j < k < levels.len() implies (#[trigger] levels[j]).1.len() > (
            #[trigger] levels[k]).1.len() by {
                assert(levels[k] == above[k - 1]);
                if j > 0 {
                    assert(levels[j] == above[j - 1]);
                }
            }
        }
    }
}

/// A spend clears a level at every row above it whose collection declares the meter,
/// with that meter, at no other row, and from the nearest row up.
pub proof fn law_levels_cleared(meters: Seq<CompiledMeter>, spend: Seq<StepView>, name: Seq<char>)
    requires
        spend.len() > 0,
    ensures
        ({
            let levels = levels_of(meters, spend, name);
            &&& forall|k: int|
                0 <= k < levels.len() ==> {
                    let d = (#[trigger] levels[k]).1.len() as int;
                    &&& 0 < d < spend.len()
                    &&& levels[k].1 == spend.take(d)
                    &&& meter_found(meters, names_of(spend.take(d)), name) == Some(levels[k].0)
                }
            &&& forall|d: int|
                0 < d < spend.len() && meter_found(meters, names_of(#[trigger] spend.take(d)), name) is Some ==> exists|
                    k: int,
                |
                    0 <= k < levels.len() && (#[trigger] levels[k]).1 == spend.take(d)
            &&& forall|j: int, k: int|
                0 <= j < k < levels.len() ==> (#[trigger] levels[j]).1.len() > (#[trigger] levels[k]).1.len()
        }),
{
    lemma_levels_above(meters, spend, name, spend.len() - 1);
}

/// How many of the first `n` levels limit.
pub open spec fn limiting_levels(levels: Seq<(CompiledMeter, Seq<StepView>)>, n: int) -> nat
    decreases n,
{
    if n <= 0 {
        0
    } else {
        limiting_levels(levels, n - 1) + if levels[n - 1].0.limiting {
            1nat
        } else {
            0nat
        }
    }
}

proof fn lemma_total(a: Seq<EntryView>, b: Seq<EntryView>)
    ensures
        total(a + b) == total(a) + total(b),
    decreases b.len(),
{
    if b.len() == 0 {
        assert(a + b =~= a);
    } else {
        assert((a + b).drop_last() =~= a + b.drop_last());
        lemma_total(a, b.drop_last());
    }
}

/// Consumed units draw their amount at every level that limits, and nothing where no
/// level limits or nothing is consumed. What was drawn before stays.
pub proof fn law_every_level_draws(
    state: StateView,
    levels: Seq<(CompiledMeter, Seq<StepView>)>,
    work: Seq<LevelWork>,
    amount: real,
    time: Timestamp,
    entries: Seq<EntryView>,
    n: int,
)
    requires
        0 <= n <= levels.len(),
        amount >= 0real,
        levels_funded(state, levels, work, amount, time, entries, n) is Ok,
    ensures
        ({
            let all = levels_funded(state, levels, work, amount, time, entries, n)->Ok_0;
            &&& total(all) == total(entries) + amount * (limiting_levels(levels, n) as real)
            &&& all.len() >= entries.len()
            &&& all.take(entries.len() as int) == entries
            &&& amount == 0real ==> all == entries
        }),
    decreases n,
{
    if n > 0 {
        law_every_level_draws(state, levels, work, amount, time, entries, n - 1);
        let before = levels_funded(state, levels, work, amount, time, entries, n - 1)->Ok_0;
        let all = levels_funded(state, levels, work, amount, time, entries, n)->Ok_0;
        let c = limiting_levels(levels, n - 1) as real;
        assert(limiting_levels(levels, n) as real == c + (if levels[n - 1].0.limiting {
            1real
        } else {
            0real
        }));
        if levels[n - 1].0.limiting && amount != 0real {
            let pools = open_at(levels[n - 1].0, work[n - 1], time)->Ok_0;
            let level = level_text(work[n - 1].rendered@, levels[n - 1].0.name@);
            let d = drained(state, level, pools, amount, pools.len() as int);
            law_drain_sums(state, level, pools, amount);
            lemma_total(before, d.planned);
            assert(amount * (c + 1real) == amount * c + amount) by (nonlinear_arith);
            assert(all.take(entries.len() as int) =~= before.take(entries.len() as int));
        } else if amount == 0real {
            assert(amount * c == 0real) by (nonlinear_arith)
                requires
                    amount == 0real,
            ;
            assert(amount * (limiting_levels(levels, n) as real) == 0real) by (nonlinear_arith)
                requires
                    amount == 0real,
            ;
        }
    } else {
        assert(entries.take(entries.len() as int) =~= entries);
        assert(amount * 0real == 0real) by (nonlinear_arith);
    }
}

/// Consumed units are refused only at a level that limits: where its pools cannot be
/// resolved, or have not what is consumed.
pub proof fn law_levels_accepted(
    state: StateView,
    levels: Seq<(CompiledMeter, Seq<StepView>)>,
    work: Seq<LevelWork>,
    amount: real,
    time: Timestamp,
    entries: Seq<EntryView>,
    n: int,
)
    requires
        0 <= n <= levels.len(),
    ensures
        levels_funded(state, levels, work, amount, time, entries, n) is Ok <==> forall|k: int|
            0 <= k < n && (#[trigger] levels[k]).0.limiting && amount != 0real ==> (open_at(
                levels[k].0,
                work[k],
                time,
            ) matches Ok(pools) && drained(
                state,
                level_text(work[k].rendered@, levels[k].0.name@),
                pools,
                amount,
                pools.len() as int,
            ).needed <= 0real),
    decreases n,
{
    if n > 0 {
        law_levels_accepted(state, levels, work, amount, time, entries, n - 1);
        if levels_funded(state, levels, work, amount, time, entries, n) is Ok {
            assert forall|k: int| 0 <= k < n && (#[trigger] levels[k]).0.limiting && amount != 0real implies (open_at(
                levels[k].0,
                work[k],
                time,
            ) matches Ok(pools) && drained(
                state,
                level_text(work[k].rendered@, levels[k].0.name@),
                pools,
                amount,
                pools.len() as int,
            ).needed <= 0real) by {}
        } else if levels_funded(state, levels, work, amount, time, entries, n - 1) is Ok {
            assert(levels[n - 1].0.limiting && amount != 0real);
        }
    }
}

/// A spend of a negative amount is refused, and so is one whose amount is no number.
pub proof fn law_amount_required(
    state: StateView,
    meters: Seq<CompiledMeter>,
    at: Seq<StepView>,
    meter: Seq<char>,
    eval: ConsumeEval,
    now: Timestamp,
    entries: Seq<EntryView>,
)
    requires
        consume_funded(state, meters, at, meter, eval, now, entries) is Ok,
    ensures
        eval.amount is Ok,
        eval.time is Ok,
        forall|i: int| 0 <= i < eval.metadata@.len() ==> (#[trigger] eval.metadata@[i]) is Ok,
        eval.amount->Ok_0@ matches CellView::Scalar(v) && match v {
            ValueView::Decimal(d) => d >= 0real,
            ValueView::Int(i) => i >= 0,
            _ => false,
        },
{
    lemma_no_refusal(eval.metadata@);
}

proof fn lemma_no_refusal(outcomes: Seq<Result<Cell, Rejection>>)
    ensures
        first_refusal(outcomes) is None <==> forall|i: int| 0 <= i < outcomes.len() ==> (#[trigger] outcomes[i]) is Ok,
    decreases outcomes.len(),
{
    if outcomes.len() > 0 {
        let rest = outcomes.drop_first();
        lemma_no_refusal(rest);
        if first_refusal(outcomes) is None {
            assert forall|i: int| 0 <= i < outcomes.len() implies (#[trigger] outcomes[i]) is Ok by {
                if i > 0 {
                    assert(rest[i - 1] == outcomes[i]);
                }
            }
        } else if forall|i: int| 0 <= i < outcomes.len() ==> (#[trigger] outcomes[i]) is Ok {
            assert(outcomes[0] is Ok);
            assert forall|i: int| 0 <= i < rest.len() implies (#[trigger] rest[i]) is Ok by {
                assert(rest[i] == outcomes[i + 1]);
            }
        }
    }
}

/// A spend counts at the instant its time expression gave, and now where it gave none.
pub proof fn law_counted_at(cell: CellView, t: Timestamp, now: Timestamp)
    ensures
        counted_at(CellView::Scalar(ValueView::Timestamp(t)), now) == t,
        !(cell matches CellView::Scalar(v) && v is Timestamp) ==> counted_at(cell, now) == now,
{
}

/// A spend that is funded keeps every other field it has, and one that cannot be read
/// keeps no funding.
pub proof fn law_spend_keeps_fields(
    state: StateView,
    meters: Seq<CompiledMeter>,
    at: Seq<StepView>,
    spend: CompiledSpend,
    eval: SpendEval,
    now: Timestamp,
    name: Seq<char>,
)
    requires
        state.contains_key(at),
        spend_funded(state, meters, at, spend, eval, now) is Ok,
    ensures
        ({
            let after = spend_funded(state, meters, at, spend, eval, now)->Ok_0;
            &&& after.contains_key(at)
            &&& name != "$funding"@ ==> (after[at].contains_key(name) <==> state[at].contains_key(name))
            &&& name != "$funding"@ && state[at].contains_key(name) ==> after[at][name] == state[at][name]
            &&& after[at].contains_key("$funding"@) <==> eval.readable
            &&& !eval.readable ==> funding_of(after[at]).len() == 0
        }),
{
}

/// The rows at a path are those of the state whose names are the path.
pub proof fn law_rows_on(state: StateView, path: Seq<Seq<char>>, at: Seq<StepView>)
    requires
        state.dom().finite(),
    ensures
        rows_on(state, path).contains(at) <==> state.contains_key(at) && names_of(at) == path,
{
    let all = in_order(state.dom());
    lemma_sorted_exists::<RowAddress>(state.dom());
    assert(all.to_set().contains(at) <==> state.contains_key(at));
    lemma_on_path(all, path, at);
}

proof fn lemma_on_path(addresses: Seq<Seq<StepView>>, path: Seq<Seq<char>>, at: Seq<StepView>)
    ensures
        on_path(addresses, path).contains(at) <==> addresses.contains(at) && names_of(at) == path,
    decreases addresses.len(),
{
    if addresses.len() > 0 {
        let rest = addresses.drop_last();
        lemma_on_path(rest, path, at);
        let before = on_path(rest, path);
        let after = on_path(addresses, path);
        assert(addresses[addresses.len() - 1] == addresses.last());
        if rest.contains(at) {
            let i = choose|i: int| 0 <= i < rest.len() && rest[i] == at;
            assert(addresses[i] == at);
        }
        if addresses.contains(at) && at != addresses.last() {
            let i = choose|i: int| 0 <= i < addresses.len() && addresses[i] == at;
            assert(rest[i] == at);
        }
        if names_of(addresses.last()) == path {
            if before.contains(at) {
                let i = choose|i: int| 0 <= i < before.len() && before[i] == at;
                assert(after[i] == at);
            }
            assert(after[before.len() as int] == addresses.last());
            if after.contains(at) && at != addresses.last() {
                let i = choose|i: int| 0 <= i < after.len() && after[i] == at;
                assert(before[i] == at);
            }
        }
    }
}

/// Capacities are checked at every row of every meter that limits, and nowhere else.
pub proof fn law_capacities_checked(
    meters: Seq<CompiledMeter>,
    state: StateView,
    n: int,
    i: int,
    at: Seq<StepView>,
)
    requires
        state.dom().finite(),
        0 <= n <= meters.len(),
        0 <= i < n,
    ensures
        meters[i].limiting && state.contains_key(at) && names_of(at) == texts(meters[i].path@) ==> capacity_checks(
            meters,
            state,
            n,
        ).contains((meters[i], at)),
        forall|k: int|
            0 <= k < capacity_checks(meters, state, n).len() ==> {
                let c = #[trigger] capacity_checks(meters, state, n)[k];
                c.0.limiting && state.contains_key(c.1) && names_of(c.1) == texts(c.0.path@)
            },
    decreases n,
{
    lemma_only_limiting(meters, state, n);
    let rows = rows_on(state, texts(meters[n - 1].path@));
    let all = capacity_checks(meters, state, n);
    let before = capacity_checks(meters, state, n - 1);
    if i < n - 1 {
        law_capacities_checked(meters, state, n - 1, i, at);
        if meters[i].limiting && state.contains_key(at) && names_of(at) == texts(meters[i].path@) {
            let k = choose|k: int| 0 <= k < before.len() && before[k] == (meters[i], at);
            assert(all[k] == (meters[i], at));
        }
    } else if meters[i].limiting && state.contains_key(at) && names_of(at) == texts(meters[i].path@) {
        law_rows_on(state, texts(meters[i].path@), at);
        let k = choose|k: int| 0 <= k < rows.len() && rows[k] == at;
        assert(all[before.len() + k] == (meters[i], at));
    }
}

proof fn lemma_only_limiting(meters: Seq<CompiledMeter>, state: StateView, n: int)
    requires
        state.dom().finite(),
        0 <= n <= meters.len(),
    ensures
        forall|k: int|
            0 <= k < capacity_checks(meters, state, n).len() ==> {
                let c = #[trigger] capacity_checks(meters, state, n)[k];
                c.0.limiting && state.contains_key(c.1) && names_of(c.1) == texts(c.0.path@)
            },
    decreases n,
{
    if n > 0 {
        lemma_only_limiting(meters, state, n - 1);
        let before = capacity_checks(meters, state, n - 1);
        let all = capacity_checks(meters, state, n);
        let rows = rows_on(state, texts(meters[n - 1].path@));
        assert forall|k: int| 0 <= k < all.len() implies {
            let c = #[trigger] all[k];
            c.0.limiting && state.contains_key(c.1) && names_of(c.1) == texts(c.0.path@)
        } by {
            if k < before.len() {
                assert(all[k] == before[k]);
            } else {
                let at = rows[k - before.len()];
                assert(all[k] == (meters[n - 1], at));
                assert(rows.contains(at));
                law_rows_on(state, texts(meters[n - 1].path@), at);
            }
        }
    }
}

/// The first refused capacity is the refusal, and there is none only if every capacity
/// was accepted.
pub proof fn law_first_verdict(verdicts: Seq<Result<(), Rejection>>, k: int)
    ensures
        first_verdict(verdicts) is None <==> forall|i: int| 0 <= i < verdicts.len() ==> (#[trigger] verdicts[i]) is Ok,
        0 <= k < verdicts.len() && verdicts[k] is Err && (forall|i: int|
            0 <= i < k ==> (#[trigger] verdicts[i]) is Ok) ==> first_verdict(verdicts) == Some(verdicts[k]->Err_0@),
    decreases verdicts.len(),
{
    if verdicts.len() > 0 {
        let rest = verdicts.drop_first();
        law_first_verdict(rest, k - 1);
        if first_verdict(verdicts) is None {
            assert forall|i: int| 0 <= i < verdicts.len() implies (#[trigger] verdicts[i]) is Ok by {
                if i > 0 {
                    assert(rest[i - 1] == verdicts[i]);
                }
            }
        } else if forall|i: int| 0 <= i < verdicts.len() ==> (#[trigger] verdicts[i]) is Ok {
            assert(verdicts[0] is Ok);
            assert forall|i: int| 0 <= i < rest.len() implies (#[trigger] rest[i]) is Ok by {
                assert(rest[i] == verdicts[i + 1]);
            }
        }
        if 0 <= k < verdicts.len() && verdicts[k] is Err && (forall|i: int|
            0 <= i < k ==> (#[trigger] verdicts[i]) is Ok) {
            if k > 0 {
                assert(verdicts[0] is Ok);
                assert(rest[k - 1] == verdicts[k]);
                assert forall|i: int| 0 <= i < k - 1 implies (#[trigger] rest[i]) is Ok by {
                    assert(rest[i] == verdicts[i + 1]);
                }
            }
        }
    }
}

/// Enforcing the meters changes no row but spends that were touched, and of those no
/// field but the funding.
pub proof fn law_enforcement_local(
    meters: CompiledMeters,
    state: StateView,
    touched: Seq<Seq<StepView>>,
    evals: Seq<SpendEval>,
    now: Timestamp,
    n: int,
    at: Seq<StepView>,
    name: Seq<char>,
)
    requires
        0 <= n <= touched.len(),
        spends_funded(meters, state, touched, evals, now, n) is Ok,
        state.contains_key(at),
        name != "$funding"@,
    ensures
        ({
            let after = spends_funded(meters, state, touched, evals, now, n)->Ok_0;
            &&& after.contains_key(at)
            &&& after[at].contains_key(name) <==> state[at].contains_key(name)
            &&& state[at].contains_key(name) ==> after[at][name] == state[at][name]
            &&& (forall|i: int|
                0 <= i < n && #[trigger] touched[i] == at ==> spend_found(meters.spends@, names_of(at)) is None)
                ==> after[at] == state[at]
        }),
    decreases n,
{
    if n > 0 {
        law_enforcement_local(meters, state, touched, evals, now, n - 1, at, name);
        let before = spends_funded(meters, state, touched, evals, now, n - 1)->Ok_0;
        if let Some(spend) = spend_found(meters.spends@, names_of(touched[n - 1])) {
            if touched[n - 1] == at {
                law_spend_keeps_fields(before, meters.meters@, at, spend, evals[n - 1], now, name);
            }
        }
    }
}

/// Every touched spend that can be read is funded: it keeps a funding of its own.
pub proof fn law_spends_are_funded(
    meters: CompiledMeters,
    state: StateView,
    touched: Seq<Seq<StepView>>,
    evals: Seq<SpendEval>,
    now: Timestamp,
    n: int,
    i: int,
)
    requires
        0 <= i < n <= touched.len(),
        spends_funded(meters, state, touched, evals, now, n) is Ok,
        spend_found(meters.spends@, names_of(touched[i])) is Some,
        forall|k: int| i < k < n ==> #[trigger] touched[k] != touched[i],
        evals[i].readable,
    ensures
        ({
            let after = spends_funded(meters, state, touched, evals, now, n)->Ok_0;
            let before = spends_funded(meters, state, touched, evals, now, i)->Ok_0;
            let spend = spend_found(meters.spends@, names_of(touched[i]))->0;
            &&& spend_funded(before, meters.meters@, touched[i], spend, evals[i], now) is Ok
            &&& after.contains_key(touched[i])
            &&& after[touched[i]].contains_key("$funding"@)
            &&& after[touched[i]] == spend_funded(before, meters.meters@, touched[i], spend, evals[i], now)->Ok_0[touched[i]]
        }),
    decreases n,
{
    if n > i + 1 {
        assert(touched[n - 1] != touched[i]);
        law_spends_are_funded(meters, state, touched, evals, now, n - 1, i);
    }
}

/// Nothing is enforced where a capacity was refused, and a package without spends
/// leaves the state alone.
pub proof fn law_enforced(
    meters: CompiledMeters,
    state: StateView,
    checks: Seq<Result<(), Rejection>>,
    touched: Seq<Seq<StepView>>,
    evals: Seq<SpendEval>,
    now: Timestamp,
)
    ensures
        (exists|i: int| 0 <= i < checks.len() && (#[trigger] checks[i]) is Err) ==> enforced(
            meters,
            state,
            checks,
            touched,
            evals,
            now,
        ) is Err,
        (forall|i: int| 0 <= i < checks.len() ==> (#[trigger] checks[i]) is Ok) && meters.spends@.len() == 0
            ==> enforced(meters, state, checks, touched, evals, now) == Ok::<StateView, RejectionView>(state),
        (forall|i: int| 0 <= i < checks.len() ==> (#[trigger] checks[i]) is Ok) && meters.spends@.len() > 0 ==> enforced(
            meters,
            state,
            checks,
            touched,
            evals,
            now,
        ) == spends_funded(meters, state, touched, evals, now, touched.len() as int),
{
    law_first_verdict(checks, 0);
    if exists|i: int| 0 <= i < checks.len() && (#[trigger] checks[i]) is Err {
        let i = choose|i: int| 0 <= i < checks.len() && (#[trigger] checks[i]) is Err;
        assert(!(checks[i] is Ok));
    }
}

/// The first outcome that failed is the failure, and there is none only if every
/// outcome succeeded.
pub proof fn law_first_failure<T>(outcomes: Seq<Result<T, EngineError>>, k: int)
    ensures
        first_failure(outcomes) is None <==> forall|i: int| 0 <= i < outcomes.len() ==> (#[trigger] outcomes[i]) is Ok,
        0 <= k < outcomes.len() && outcomes[k] is Err && (forall|i: int|
            0 <= i < k ==> (#[trigger] outcomes[i]) is Ok) ==> first_failure(outcomes) == Some(outcomes[k]->Err_0@),
    decreases outcomes.len(),
{
    if outcomes.len() > 0 {
        let rest = outcomes.drop_first();
        law_first_failure(rest, k - 1);
        if first_failure(outcomes) is None {
            assert forall|i: int| 0 <= i < outcomes.len() implies (#[trigger] outcomes[i]) is Ok by {
                if i > 0 {
                    assert(rest[i - 1] == outcomes[i]);
                }
            }
        } else if forall|i: int| 0 <= i < outcomes.len() ==> (#[trigger] outcomes[i]) is Ok {
            assert(outcomes[0] is Ok);
            assert forall|i: int| 0 <= i < rest.len() implies (#[trigger] rest[i]) is Ok by {
                assert(rest[i] == outcomes[i + 1]);
            }
        }
        if 0 <= k < outcomes.len() && outcomes[k] is Err && (forall|i: int|
            0 <= i < k ==> (#[trigger] outcomes[i]) is Ok) {
            if k > 0 {
                assert(outcomes[0] is Ok);
                assert(rest[k - 1] == outcomes[k]);
                assert forall|i: int| 0 <= i < k - 1 implies (#[trigger] rest[i]) is Ok by {
                    assert(rest[i] == outcomes[i + 1]);
                }
            }
        }
    }
}

} // verus!
