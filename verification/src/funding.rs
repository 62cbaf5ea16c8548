//! The funding of spends: what a spend has drawn from which pool, and how an amount
//! is drained from the pools that are open to it.

use crate::address::{KeyValue, RowAddress, StepView};
use crate::cell::{cell_views, lemma_cell, lemma_row, row_views, Cell, CellView, Row, RowId, RowView};
use crate::decimal::Decimal;
use crate::integer::Integer;
use crate::members::{canonical, canonical_members};
use crate::order::{Duplicate, Key, Order};
use crate::refs::{find_member, member_named};
use crate::rejection::{refused, Rejection, RejectionReason, RejectionView};
use crate::state::{address_views, in_order, Fields, FieldsView, Prospective, StateView};
use crate::table::{ascending, lemma_ascending_distinct, lemma_sorted, lemma_sorted_exists};
use crate::text::{concat3, same_text};
use crate::value::{copy_value, lemma_denoted, member_views, same_value, views, Value, ValueView};
use vstd::prelude::*;

verus! {

/// The field a spend keeps its funding in. No shape declares it.
pub const FUNDING_FIELD: &'static str = "$funding";

/// A part of a spend's funding: the enforcing level it clears, the source and the
/// pool it draws from, and the amount.
#[derive(Debug)]
pub struct Entry {
    pub level: String,
    pub source: String,
    pub pool: Value,
    pub amount: Decimal,
}

/// What an [`Entry`] denotes.
#[verifier::ext_equal]
pub struct EntryView {
    pub level: Seq<char>,
    pub source: Seq<char>,
    pub pool: ValueView,
    pub amount: real,
}

impl View for Entry {
    type V = EntryView;

    open spec fn view(&self) -> EntryView {
        EntryView { level: self.level@, source: self.source@, pool: self.pool@, amount: self.amount@ }
    }
}

impl Duplicate for Entry {
    fn duplicate(&self) -> (r: Self) {
        Entry {
            level: self.level.clone(),
            source: self.source.clone(),
            pool: copy_value(&self.pool),
            amount: self.amount.duplicate(),
        }
    }
}

/// What entries denote.
pub open spec fn entry_views(entries: Seq<Entry>) -> Seq<EntryView> {
    Seq::new(entries.len(), |i: int| entries[i]@)
}

/// A part of a funding as a value.
pub open spec fn entry_value(e: EntryView) -> ValueView {
    ValueView::Struct(
        seq![
            ("amount"@, ValueView::Decimal(e.amount)),
            ("level"@, ValueView::Text(e.level)),
            ("pool"@, e.pool),
            ("source"@, ValueView::Text(e.source)),
        ],
    )
}

/// The part of a funding a value records, where it records one.
pub open spec fn entry_in(value: ValueView) -> Option<EntryView> {
    match value {
        ValueView::Struct(members) => match (
            member_named(members, "level"@),
            member_named(members, "source"@),
            member_named(members, "amount"@),
        ) {
            (Some(ValueView::Text(level)), Some(ValueView::Text(source)), Some(ValueView::Decimal(amount))) => Some(
                EntryView {
                    level,
                    source,
                    pool: match member_named(members, "pool"@) {
                        Some(pool) => pool,
                        None => ValueView::Absent,
                    },
                    amount,
                },
            ),
            _ => None,
        },
        _ => None,
    }
}

/// The parts of a funding these values record, in order.
pub open spec fn entries_in(values: Seq<ValueView>) -> Seq<EntryView>
    decreases values.len(),
{
    if values.len() == 0 {
        Seq::empty()
    } else {
        match entry_in(values.last()) {
            Some(e) => entries_in(values.drop_last()).push(e),
            None => entries_in(values.drop_last()),
        }
    }
}

/// The funding a row keeps.
pub open spec fn funding_of(row: FieldsView) -> Seq<EntryView> {
    if row.contains_key("$funding"@) {
        match row["$funding"@] {
            ValueView::Members(values) => entries_in(values),
            _ => Seq::empty(),
        }
    } else {
        Seq::empty()
    }
}

/// The values of the parts of a funding.
pub open spec fn entry_values(entries: Seq<EntryView>) -> Seq<ValueView> {
    Seq::new(entries.len(), |i: int| entry_value(entries[i]))
}

/// A funding as a value: the set of its parts.
pub open spec fn funding_value(entries: Seq<EntryView>) -> ValueView {
    ValueView::Members(canonical(entry_values(entries).to_set()))
}

/// Whether a part of a funding draws from this pool, at this level.
pub open spec fn draws(e: EntryView, level: Seq<char>, source: Seq<char>, pool: ValueView) -> bool {
    e.level == level && e.source == source && e.pool == pool
}

/// How much of a pool these parts of a funding hold.
pub open spec fn held_by(entries: Seq<EntryView>, level: Seq<char>, source: Seq<char>, pool: ValueView) -> real
    decreases entries.len(),
{
    if entries.len() == 0 {
        0real
    } else {
        held_by(entries.drop_last(), level, source, pool) + if draws(entries.last(), level, source, pool) {
            entries.last().amount
        } else {
            0real
        }
    }
}

/// How much of a pool the rows at these addresses hold.
pub open spec fn held_at(
    state: StateView,
    addresses: Seq<Seq<StepView>>,
    level: Seq<char>,
    source: Seq<char>,
    pool: ValueView,
) -> real
    decreases addresses.len(),
{
    if addresses.len() == 0 {
        0real
    } else {
        held_at(state, addresses.drop_last(), level, source, pool) + held_by(
            funding_of(state[addresses.last()]),
            level,
            source,
            pool,
        )
    }
}

/// How much of a pool the rows of a state hold.
pub open spec fn allocation(state: StateView, level: Seq<char>, source: Seq<char>, pool: ValueView) -> real {
    held_at(state, in_order(state.dom()), level, source, pool)
}

fn read_entry(value: &Value) -> (r: Option<Entry>)
    ensures
        match r {
            Some(e) => entry_in(value@) == Some(e@),
            None => entry_in(value@) is None,
        },
{
    proof {
        lemma_denoted(*value);
    }
    match value {
        Value::Struct(members) => match (
            find_member(members, "level"),
            find_member(members, "source"),
            find_member(members, "amount"),
        ) {
            (Some(Value::Text(level)), Some(Value::Text(source)), Some(Value::Decimal(amount))) => {
                let pool = match find_member(members, "pool") {
                    Some(pool) => copy_value(pool),
                    None => Value::Absent,
                };
                Some(Entry { level: level.clone(), source: source.clone(), pool, amount: amount.duplicate() })
            },
            _ => None,
        },
        _ => None,
    }
}

/// Read the funding a row keeps.
pub fn decode(fields: &Fields) -> (r: Vec<Entry>)
    ensures
        entry_views(r@) == funding_of(fields@),
{
    let mut r: Vec<Entry> = Vec::new();
    proof {
        assert(entry_views(r@) =~= Seq::<EntryView>::empty());
    }
    let name = String::from_str(FUNDING_FIELD);
    let found = fields.get(&name);
    if let Some(value) = found {
        proof {
            lemma_denoted(*value);
        }
        if let Value::Members(items) = value {
            let ghost all = views(items@);
            let mut i: usize = 0;
            proof {
                assert(all.take(0) =~= Seq::<ValueView>::empty());
            }
            while i < items.len()
                invariant
                    all == views(items@),
                    i <= items@.len(),
                    entry_views(r@) == entries_in(all.take(i as int)),
                decreases items@.len() - i,
            {
                let ghost before = entry_views(r@);
                proof {
                    assert(all.take(i + 1).drop_last() =~= all.take(i as int));
                    assert(all.take(i + 1).last() == items@[i as int]@);
                }
                if let Some(e) = read_entry(&items[i]) {
                    r.push(e);
                    proof {
                        assert(entry_views(r@) =~= before.push(e@));
                    }
                }
                i = i + 1;
            }
            proof {
                assert(all.take(i as int) =~= all);
            }
        }
    }
    r
}

fn write_entry(e: &Entry) -> (r: Value)
    ensures
        r@ == entry_value(e@),
{
    let mut members: Vec<(String, Value)> = Vec::new();
    members.push((String::from_str("amount"), Value::Decimal(e.amount.duplicate())));
    members.push((String::from_str("level"), Value::Text(e.level.clone())));
    members.push((String::from_str("pool"), copy_value(&e.pool)));
    members.push((String::from_str("source"), Value::Text(e.source.clone())));
    let r = Value::Struct(members);
    proof {
        lemma_denoted(r);
        assert(member_views(members@) =~= entry_value(e@)->Struct_0);
    }
    r
}

/// Write a funding as the value a spend keeps.
pub fn encode(entries: &Vec<Entry>) -> (r: Value)
    ensures
        r@ == funding_value(entry_views(entries@)),
{
    let mut values: Vec<Value> = Vec::new();
    let mut i: usize = 0;
    while i < entries.len()
        invariant
            i <= entries@.len(),
            values@.len() == i,
            forall|j: int| 0 <= j < i ==> (#[trigger] values@[j])@ == entry_value(entries@[j]@),
        decreases entries@.len() - i,
    {
        values.push(write_entry(&entries[i]));
        i = i + 1;
    }
    proof {
        assert(views(values@) =~= entry_values(entry_views(entries@)));
    }
    let members = canonical_members(&values);
    let r = Value::Members(members);
    proof {
        lemma_denoted(r);
    }
    r
}

fn draws_from(e: &Entry, level: &str, source: &str, pool: &Value) -> (r: bool)
    ensures
        r == draws(e@, level@, source@, pool@),
{
    same_text(e.level.as_str(), level) && same_text(e.source.as_str(), source) && same_value(&e.pool, pool)
}

fn held_in(entries: &Vec<Entry>, level: &str, source: &str, pool: &Value) -> (r: Decimal)
    ensures
        r@ == held_by(entry_views(entries@), level@, source@, pool@),
{
    let ghost all = entry_views(entries@);
    let mut total = Decimal::from_integer(0);
    let mut i: usize = 0;
    proof {
        assert(all.take(0) =~= Seq::<EntryView>::empty());
    }
    while i < entries.len()
        invariant
            all == entry_views(entries@),
            i <= entries@.len(),
            total@ == held_by(all.take(i as int), level@, source@, pool@),
        decreases entries@.len() - i,
    {
        proof {
            assert(all.take(i + 1).drop_last() =~= all.take(i as int));
            assert(all.take(i + 1).last() == entries@[i as int]@);
        }
        if draws_from(&entries[i], level, source, pool) {
            total = total.plus(&entries[i].amount);
        }
        i = i + 1;
    }
    proof {
        assert(all.take(i as int) =~= all);
    }
    total
}

/// How much of a pool the spends of a state hold.
pub fn allocated(prospective: &Prospective, level: &str, source: &str, pool: &Value) -> (r: Decimal)
    ensures
        r@ == allocation(prospective@, level@, source@, pool@),
{
    let addresses = prospective.addresses();
    let ghost all = address_views(addresses@);
    let mut total = Decimal::from_integer(0);
    let mut i: usize = 0;
    proof {
        assert(all.take(0) =~= Seq::<Seq<StepView>>::empty());
    }
    while i < addresses.len()
        invariant
            all == address_views(addresses@),
            forall|a: Seq<StepView>| prospective@.contains_key(a) <==> #[trigger] all.contains(a),
            i <= addresses@.len(),
            total@ == held_at(prospective@, all.take(i as int), level@, source@, pool@),
        decreases addresses@.len() - i,
    {
        proof {
            assert(all.take(i + 1).drop_last() =~= all.take(i as int));
            assert(all.take(i + 1).last() == addresses@[i as int]@);
            assert(all[i as int] == addresses@[i as int]@);
            assert(all.contains(addresses@[i as int]@));
        }
        if let Some(fields) = prospective.get(&addresses[i]) {
            let entries = decode(fields);
            total = total.plus(&held_in(&entries, level, source, pool));
        }
        i = i + 1;
    }
    proof {
        assert(all.take(i as int) =~= all);
    }
    total
}

/// A pool: its source and key, its capacity, and the keys it is ordered by. Without a
/// capacity it parts spends and limits none.
#[derive(Debug)]
pub struct Pool {
    pub source: String,
    pub key: Value,
    pub quantity: Option<Decimal>,
    pub order_keys: Vec<Value>,
}

/// What a [`Pool`] denotes.
#[verifier::ext_equal]
pub struct PoolView {
    pub source: Seq<char>,
    pub key: ValueView,
    pub quantity: Option<real>,
    pub order_keys: Seq<ValueView>,
}

/// What an optional decimal denotes.
pub open spec fn quantity_view(q: Option<Decimal>) -> Option<real> {
    match q {
        Some(d) => Some(d@),
        None => None,
    }
}

impl View for Pool {
    type V = PoolView;

    open spec fn view(&self) -> PoolView {
        PoolView {
            source: self.source@,
            key: self.key@,
            quantity: quantity_view(self.quantity),
            order_keys: views(self.order_keys@),
        }
    }
}

/// What pools denote.
pub open spec fn pool_views(pools: Seq<Pool>) -> Seq<PoolView> {
    Seq::new(pools.len(), |i: int| pools[i]@)
}

/// A drain in progress: what is planned, what is still needed, and whether it is done.
#[verifier::ext_equal]
pub struct DrainView {
    pub planned: Seq<EntryView>,
    pub needed: real,
    pub done: bool,
}

/// What is left of a pool at a level, beside what the state and these entries hold.
pub open spec fn available(state: StateView, level: Seq<char>, pool: PoolView, planned: Seq<EntryView>) -> real {
    pool.quantity->0 - (allocation(state, level, pool.source, pool.key) + held_by(planned, level, pool.source, pool.key))
}

/// A drain after one more pool: as much as is needed is taken, up to what is left.
pub open spec fn drained_once(state: StateView, level: Seq<char>, pool: PoolView, before: DrainView) -> DrainView {
    if before.done || pool.quantity is None {
        before
    } else {
        let left = available(state, level, pool, before.planned);
        if left <= 0real {
            before
        } else {
            let take = if left < before.needed {
                left
            } else {
                before.needed
            };
            DrainView {
                planned: before.planned.push(
                    EntryView { level, source: pool.source, pool: pool.key, amount: take },
                ),
                needed: before.needed - take,
                done: before.needed - take == 0real,
            }
        }
    }
}

/// A drain of an amount from the first `n` pools, in order.
pub open spec fn drained(state: StateView, level: Seq<char>, pools: Seq<PoolView>, amount: real, n: int) -> DrainView
    decreases n,
{
    if n <= 0 {
        DrainView { planned: Seq::empty(), needed: amount, done: false }
    } else {
        drained_once(state, level, pools[n - 1], drained(state, level, pools, amount, n - 1))
    }
}

/// The refusal of a spend that the pools cannot fund.
pub open spec fn no_capacity(meter: Seq<char>) -> RejectionView {
    refused(RejectionReason::Evaluation, "meter `"@ + meter + "` lacks eligible capacity for the spend"@)
}

/// Drain an amount from the pools of a level, in order. Where they do not hold it,
/// nothing is drawn.
pub fn drain(
    prospective: &Prospective,
    meter: &str,
    level: &str,
    pools: &Vec<Pool>,
    amount: &Decimal,
    entries: &mut Vec<Entry>,
) -> (r: Result<(), Rejection>)
    ensures
        ({
            let d = drained(prospective@, level@, pool_views(pools@), amount@, pools@.len() as int);
            match r {
                Ok(_) => d.needed <= 0real && entry_views(final(entries)@) == entry_views(old(entries)@) + d.planned,
                Err(e) => d.needed > 0real && e@ == no_capacity(meter@) && final(entries)@ == old(entries)@,
            }
        }),
{
    let ghost all = pool_views(pools@);
    let zero = Decimal::from_integer(0);
    let mut needed = amount.duplicate();
    let mut planned: Vec<Entry> = Vec::new();
    let mut done = false;
    let mut i: usize = 0;
    proof {
        assert(entry_views(planned@) =~= Seq::<EntryView>::empty());
    }
    while i < pools.len()
        invariant
            all == pool_views(pools@),
            zero@ == 0real,
            i <= pools@.len(),
            drained(prospective@, level@, all, amount@, i as int) == (DrainView {
                planned: entry_views(planned@),
                needed: needed@,
                done,
            }),
        decreases pools@.len() - i,
    {
        let ghost before = entry_views(planned@);
        proof {
            assert(all[i as int] == pools@[i as int]@);
        }
        if !done {
            let pool = &pools[i];
            if let Some(quantity) = &pool.quantity {
                let state_held = allocated(prospective, level, pool.source.as_str(), &pool.key);
                let plan_held = held_in(&planned, level, pool.source.as_str(), &pool.key);
                let held = state_held.plus(&plan_held);
                let left = quantity.minus(&held);
                if let Order::After = left.order(&zero) {
                    let take = match left.order(&needed) {
                        Order::Before => left,
                        _ => needed.duplicate(),
                    };
                    needed = needed.minus(&take);
                    planned.push(
                        Entry {
                            level: String::from_str(level),
                            source: pool.source.clone(),
                            pool: copy_value(&pool.key),
                            amount: take,
                        },
                    );
                    done = matches!(needed.order(&zero), Order::Same);
                    proof {
                        assert(entry_views(planned@) =~= before.push(planned@.last()@));
                    }
                }
            }
        }
        i = i + 1;
    }
    if let Order::After = needed.order(&zero) {
        return Err(
            Rejection::new(
                RejectionReason::Evaluation,
                concat3("meter `", meter, "` lacks eligible capacity for the spend").as_str(),
            ),
        );
    }
    let ghost start = entry_views(entries@);
    let ghost plan = entry_views(planned@);
    let mut k: usize = 0;
    proof {
        assert(start + plan.take(0) =~= start);
    }
    while k < planned.len()
        invariant
            plan == entry_views(planned@),
            k <= planned@.len(),
            entry_views(entries@) == start + plan.take(k as int),
        decreases planned@.len() - k,
    {
        let ghost before = entry_views(entries@);
        entries.push(planned[k].duplicate());
        proof {
            assert(entry_views(entries@) =~= before.push(plan[k as int]));
            assert(plan.take(k + 1) =~= plan.take(k as int).push(plan[k as int]));
            assert(start + plan.take(k + 1) =~= (start + plan.take(k as int)).push(plan[k as int]));
        }
        k = k + 1;
    }
    proof {
        assert(plan.take(k as int) =~= plan);
    }
    Ok(())
}

/// The sum of the amounts of entries.
pub open spec fn total(entries: Seq<EntryView>) -> real
    decreases entries.len(),
{
    if entries.len() == 0 {
        0real
    } else {
        total(entries.drop_last()) + entries.last().amount
    }
}

proof fn lemma_drain(state: StateView, level: Seq<char>, pools: Seq<PoolView>, amount: real, n: int)
    requires
        amount > 0real,
        0 <= n <= pools.len(),
    ensures
        ({
            let d = drained(state, level, pools, amount, n);
            &&& total(d.planned) + d.needed == amount
            &&& d.needed >= 0real
            &&& d.done <==> d.needed == 0real
            &&& forall|i: int| 0 <= i < d.planned.len() ==> (#[trigger] d.planned[i]).amount > 0real
            &&& forall|i: int| 0 <= i < d.planned.len() ==> (#[trigger] d.planned[i]).level == level
        }),
    decreases n,
{
    if n > 0 {
        lemma_drain(state, level, pools, amount, n - 1);
        let before = drained(state, level, pools, amount, n - 1);
        let after = drained(state, level, pools, amount, n);
        if after != before {
            assert(after.planned.drop_last() =~= before.planned);
        }
    }
}

/// What an accepted drain takes sums to the amount, and every part of it is more than
/// nothing.
pub proof fn law_drain_sums(state: StateView, level: Seq<char>, pools: Seq<PoolView>, amount: real)
    requires
        amount > 0real,
        drained(state, level, pools, amount, pools.len() as int).needed <= 0real,
    ensures
        ({
            let d = drained(state, level, pools, amount, pools.len() as int);
            &&& total(d.planned) == amount
            &&& forall|i: int| 0 <= i < d.planned.len() ==> (#[trigger] d.planned[i]).amount > 0real
        }),
{
    lemma_drain(state, level, pools, amount, pools.len() as int);
}

proof fn lemma_no_overdraft(state: StateView, level: Seq<char>, pools: Seq<PoolView>, amount: real, n: int, i: int)
    requires
        amount > 0real,
        0 <= i < n <= pools.len(),
        pools[i].quantity is Some,
        forall|j: int, k: int|
            0 <= j < k < pools.len() ==> (#[trigger] pools[j]).source != (#[trigger] pools[k]).source || pools[j].key
                != pools[k].key,
    ensures
        ({
            let d = drained(state, level, pools, amount, n);
            let held = held_by(d.planned, level, pools[i].source, pools[i].key);
            &&& held >= 0real
            &&& held > 0real ==> allocation(state, level, pools[i].source, pools[i].key) + held
                <= pools[i].quantity->0
            &&& !d.done ==> available(state, level, pools[i], d.planned) <= 0real
        }),
    decreases n,
{
    lemma_drain(state, level, pools, amount, n - 1);
    lemma_drain(state, level, pools, amount, n);
    let before = drained(state, level, pools, amount, n - 1);
    let after = drained(state, level, pools, amount, n);
    if i < n - 1 {
        lemma_no_overdraft(state, level, pools, amount, n - 1, i);
        if after != before {
            assert(after.planned.drop_last() =~= before.planned);
            assert(pools[i].source != pools[n - 1].source || pools[i].key != pools[n - 1].key);
        }
    } else {
        lemma_untouched(state, level, pools, amount, n - 1, i);
        if after != before {
            assert(after.planned.drop_last() =~= before.planned);
        }
    }
}

proof fn lemma_untouched(state: StateView, level: Seq<char>, pools: Seq<PoolView>, amount: real, n: int, i: int)
    requires
        0 <= n <= i < pools.len(),
        forall|j: int, k: int|
            0 <= j < k < pools.len() ==> (#[trigger] pools[j]).source != (#[trigger] pools[k]).source || pools[j].key
                != pools[k].key,
    ensures
        held_by(drained(state, level, pools, amount, n).planned, level, pools[i].source, pools[i].key) == 0real,
    decreases n,
{
    if n > 0 {
        lemma_untouched(state, level, pools, amount, n - 1, i);
        let before = drained(state, level, pools, amount, n - 1);
        let after = drained(state, level, pools, amount, n);
        if after != before {
            assert(after.planned.drop_last() =~= before.planned);
            assert(pools[n - 1].source != pools[i].source || pools[n - 1].key != pools[i].key);
        }
    }
}

/// A drain never takes more of a pool than is left of it, and it is refused only where
/// every pool with a capacity is used up.
pub proof fn law_drain_within_capacity(
    state: StateView,
    level: Seq<char>,
    pools: Seq<PoolView>,
    amount: real,
    i: int,
)
    requires
        amount > 0real,
        0 <= i < pools.len(),
        pools[i].quantity is Some,
        forall|j: int, k: int|
            0 <= j < k < pools.len() ==> (#[trigger] pools[j]).source != (#[trigger] pools[k]).source || pools[j].key
                != pools[k].key,
    ensures
        ({
            let d = drained(state, level, pools, amount, pools.len() as int);
            let held = held_by(d.planned, level, pools[i].source, pools[i].key);
            &&& held > 0real ==> allocation(state, level, pools[i].source, pools[i].key) + held
                <= pools[i].quantity->0
            &&& d.needed > 0real ==> available(state, level, pools[i], d.planned) <= 0real
        }),
{
    lemma_drain(state, level, pools, amount, pools.len() as int);
    lemma_no_overdraft(state, level, pools, amount, pools.len() as int, i);
}

proof fn lemma_entry_value(e: EntryView)
    ensures
        entry_in(entry_value(e)) == Some(e),
{
    reveal_strlit("amount");
    reveal_strlit("level");
    reveal_strlit("pool");
    reveal_strlit("source");
    let members = entry_value(e)->Struct_0;
    assert("amount"@[0] != "level"@[0]);
    assert("amount"@[0] != "pool"@[0]);
    assert("amount"@[0] != "source"@[0]);
    assert("level"@[0] != "pool"@[0]);
    assert("level"@[0] != "source"@[0]);
    assert("pool"@[0] != "source"@[0]);
    reveal_with_fuel(member_named, 5);
    assert(members.drop_first() =~= members.skip(1));
    assert(members.drop_first().drop_first() =~= members.skip(2));
    assert(members.drop_first().drop_first().drop_first() =~= members.skip(3));
}

proof fn lemma_entries_in(values: Seq<ValueView>, e: EntryView)
    ensures
        entries_in(values).contains(e) <==> exists|i: int|
            0 <= i < values.len() && entry_in(#[trigger] values[i]) == Some(e),
    decreases values.len(),
{
    if values.len() > 0 {
        let shorter = values.drop_last();
        lemma_entries_in(shorter, e);
        let before = entries_in(shorter);
        let after = entries_in(values);
        if before.contains(e) {
            let k = choose|k: int| 0 <= k < before.len() && before[k] == e;
            assert(after[k] == e);
            let i = choose|i: int| 0 <= i < shorter.len() && entry_in(#[trigger] shorter[i]) == Some(e);
            assert(values[i] == shorter[i]);
        }
        if entry_in(values.last()) == Some(e) {
            assert(after[after.len() - 1] == e);
            assert(entry_in(values[values.len() - 1]) == Some(e));
        }
        if after.contains(e) && !before.contains(e) {
            let k = choose|k: int| 0 <= k < after.len() && after[k] == e;
            if k < before.len() {
                assert(before[k] == e);
            }
            assert(entry_in(values[values.len() - 1]) == Some(e));
        }
        if exists|i: int| 0 <= i < values.len() && entry_in(#[trigger] values[i]) == Some(e) {
            let i = choose|i: int| 0 <= i < values.len() && entry_in(#[trigger] values[i]) == Some(e);
            if i < shorter.len() {
                assert(shorter[i] == values[i]);
            }
        }
    }
}

/// Reading a funding back from the value a spend keeps gives its parts.
pub proof fn law_funding_read_back(entries: Seq<EntryView>, row: FieldsView, e: EntryView)
    requires
        row.contains_key("$funding"@),
        row["$funding"@] == funding_value(entries),
    ensures
        funding_of(row).contains(e) <==> entries.contains(e),
{
    let values = entry_values(entries);
    let set = values.to_set();
    let kept = canonical(set);
    vstd::seq_lib::seq_to_set_is_finite(values);
    lemma_sorted_exists::<Value>(set);
    lemma_entries_in(kept, e);
    if entries.contains(e) {
        let i = choose|i: int| 0 <= i < entries.len() && entries[i] == e;
        assert(values[i] == entry_value(e));
        assert(set.contains(entry_value(e)));
        assert(kept.to_set().contains(entry_value(e)));
        let k = choose|k: int| 0 <= k < kept.len() && kept[k] == entry_value(e);
        lemma_entry_value(e);
        assert(entry_in(kept[k]) == Some(e));
    }
    if funding_of(row).contains(e) {
        let k = choose|k: int| 0 <= k < kept.len() && entry_in(#[trigger] kept[k]) == Some(e);
        assert(kept.to_set().contains(kept[k]));
        assert(values.contains(kept[k]));
        let i = choose|i: int| 0 <= i < values.len() && values[i] == kept[k];
        lemma_entry_value(entries[i]);
        assert(entries[i] == e);
    }
}

/// The row of one part of a funding, as a reader sees it.
pub open spec fn funding_row(e: EntryView, place: int) -> RowView {
    RowView {
        id: seq![seq![ValueView::Int(place)]],
        key: ValueView::Absent,
        cells: seq![
            ("source"@, CellView::Scalar(ValueView::Text(e.source))),
            ("pool"@, CellView::Scalar(e.pool)),
            ("amount"@, CellView::Scalar(ValueView::Decimal(e.amount))),
        ],
    }
}

/// The funding of a spend as a reader sees it: the parts, without their levels.
pub open spec fn funding_rows(row: FieldsView) -> CellView {
    let entries = funding_of(row);
    CellView::Collection(Seq::new(entries.len(), |i: int| funding_row(entries[i], i)))
}

/// The identity of the row at a place of a list.
pub fn place_id(place: usize) -> (r: RowId)
    ensures
        r@ == seq![seq![ValueView::Int(place as int)]],
{
    let mut keys: Vec<KeyValue> = Vec::new();
    keys.push(KeyValue::single(Value::Int(Integer::of(place as i128))));
    let r = RowId { keys };
    proof {
        assert(r@ =~= seq![seq![ValueView::Int(place as int)]]);
    }
    r
}

/// The funding of a spend as a reader sees it.
pub fn funding_cell(fields: &Fields) -> (r: Cell)
    ensures
        r@ == funding_rows(fields@),
{
    let entries = decode(fields);
    let mut rows: Vec<Row> = Vec::new();
    let mut i: usize = 0;
    while i < entries.len()
        invariant
            i <= entries@.len(),
            rows@.len() == i,
            forall|j: int| 0 <= j < i ==> (#[trigger] rows@[j])@ == funding_row(entries@[j]@, j),
        decreases entries@.len() - i,
    {
        let mut cells: Vec<(String, Cell)> = Vec::new();
        cells.push((String::from_str("source"), Cell::Scalar(Value::Text(entries[i].source.clone()))));
        cells.push((String::from_str("pool"), Cell::Scalar(copy_value(&entries[i].pool))));
        cells.push((String::from_str("amount"), Cell::Scalar(Value::Decimal(entries[i].amount.duplicate()))));
        let row = Row { id: place_id(i), key: Value::Absent, cells };
        proof {
            lemma_row(row);
            assert(cell_views(cells@) =~= funding_row(entries@[i as int]@, i as int).cells);
        }
        rows.push(row);
        i = i + 1;
    }
    let r = Cell::Collection(rows);
    proof {
        lemma_cell(r);
        assert(row_views(rows@) =~= funding_rows(fields@)->Collection_0);
    }
    r
}

/// What parts of a funding hold of a pool adds up: nothing holds nothing, one part
/// holds its amount of the pool that it draws from at its level and nothing of any
/// other, and two lists together hold what each of them holds.
pub proof fn law_held_adds_up(
    a: Seq<EntryView>,
    b: Seq<EntryView>,
    e: EntryView,
    level: Seq<char>,
    source: Seq<char>,
    pool: ValueView,
)
    ensures
        held_by(Seq::<EntryView>::empty(), level, source, pool) == 0real,
        e.level == level && e.source == source && e.pool == pool ==> held_by(seq![e], level, source, pool) == e.amount,
        e.level != level || e.source != source || e.pool != pool ==> held_by(seq![e], level, source, pool) == 0real,
        held_by(a + b, level, source, pool) == held_by(a, level, source, pool) + held_by(b, level, source, pool),
    decreases b.len(),
{
    assert(seq![e].drop_last() =~= Seq::<EntryView>::empty());
    reveal_with_fuel(held_by, 2);
    if b.len() == 0 {
        assert(a + b =~= a);
    } else {
        assert((a + b).drop_last() =~= a + b.drop_last());
        assert((a + b).last() == b.last());
        law_held_adds_up(a, b.drop_last(), e, level, source, pool);
    }
}

/// The parts of a funding that values record, value by value.
pub proof fn law_entries_recorded(a: Seq<ValueView>, b: Seq<ValueView>, v: ValueView)
    ensures
        entries_in(Seq::<ValueView>::empty()) == Seq::<EntryView>::empty(),
        entry_in(v) is None ==> entries_in(seq![v]) == Seq::<EntryView>::empty(),
        entry_in(v) matches Some(e) ==> entries_in(seq![v]) == seq![e],
        entries_in(a + b) == entries_in(a) + entries_in(b),
    decreases b.len(),
{
    assert(seq![v].drop_last() =~= Seq::<ValueView>::empty());
    reveal_with_fuel(entries_in, 2);
    assert(entries_in(Seq::<ValueView>::empty()) =~= Seq::<EntryView>::empty());
    if b.len() == 0 {
        assert(a + b =~= a);
        assert(entries_in(a) + entries_in(b) =~= entries_in(a));
    } else {
        assert((a + b).drop_last() =~= a + b.drop_last());
        assert((a + b).last() == b.last());
        law_entries_recorded(a, b.drop_last(), v);
        assert(entries_in(a + b) =~= entries_in(a) + entries_in(b));
    }
}

proof fn lemma_held_local(
    one: StateView,
    other: StateView,
    addresses: Seq<Seq<StepView>>,
    level: Seq<char>,
    source: Seq<char>,
    pool: ValueView,
)
    requires
        forall|i: int| 0 <= i < addresses.len() ==> one[#[trigger] addresses[i]] == other[addresses[i]],
    ensures
        held_at(one, addresses, level, source, pool) == held_at(other, addresses, level, source, pool),
    decreases addresses.len(),
{
    if addresses.len() > 0 {
        let shorter = addresses.drop_last();
        assert forall|i: int| 0 <= i < shorter.len() implies one[#[trigger] shorter[i]] == other[shorter[i]] by {
            assert(shorter[i] == addresses[i]);
        }
        lemma_held_local(one, other, shorter, level, source, pool);
        assert(addresses[addresses.len() - 1] == addresses.last());
    }
}

proof fn lemma_held_without(
    state: StateView,
    addresses: Seq<Seq<StepView>>,
    k: int,
    level: Seq<char>,
    source: Seq<char>,
    pool: ValueView,
)
    requires
        0 <= k < addresses.len(),
    ensures
        held_at(state, addresses, level, source, pool) == held_at(state, addresses.remove(k), level, source, pool)
            + held_by(funding_of(state[addresses[k]]), level, source, pool),
    decreases addresses.len(),
{
    if k == addresses.len() - 1 {
        assert(addresses.remove(k) =~= addresses.drop_last());
    } else {
        let shorter = addresses.drop_last();
        lemma_held_without(state, shorter, k, level, source, pool);
        assert(addresses.remove(k).drop_last() =~= shorter.remove(k));
        assert(addresses.remove(k).last() == addresses.last());
    }
}

/// What is held of a pool is the sum over all rows of a state: nothing where there are
/// no rows, and a row more holds what its funding holds more.
pub proof fn law_allocation_adds_up(
    state: StateView,
    address: Seq<StepView>,
    row: FieldsView,
    level: Seq<char>,
    source: Seq<char>,
    pool: ValueView,
)
    requires
        state.dom().finite(),
        !state.contains_key(address),
    ensures
        allocation(Map::<Seq<StepView>, FieldsView>::empty(), level, source, pool) == 0real,
        allocation(state.insert(address, row), level, source, pool) == allocation(state, level, source, pool) + held_by(
            funding_of(row),
            level,
            source,
            pool,
        ),
{
    let none = Map::<Seq<StepView>, FieldsView>::empty();
    assert(ascending::<RowAddress>(Seq::<Seq<StepView>>::empty()));
    assert(Seq::<Seq<StepView>>::empty().to_set() =~= none.dom());
    lemma_sorted::<RowAddress>(Seq::<Seq<StepView>>::empty(), none.dom());
    let after = state.insert(address, row);
    let all = in_order(after.dom());
    lemma_sorted_exists::<RowAddress>(after.dom());
    assert(after.dom().contains(address));
    assert(all.to_set().contains(address));
    let k = choose|k: int| 0 <= k < all.len() && all[k] == address;
    let rest = all.remove(k);
    assert forall|i: int, j: int| 0 <= i < j < rest.len() implies RowAddress::before(
        #[trigger] rest[i],
        #[trigger] rest[j],
    ) by {
        let p = if i < k {
            i
        } else {
            i + 1
        };
        let q = if j < k {
            j
        } else {
            j + 1
        };
        assert(rest[i] == all[p] && rest[j] == all[q]);
    }
    assert forall|a: Seq<StepView>| rest.to_set().contains(a) <==> state.dom().contains(a) by {
        if rest.contains(a) {
            let i = choose|i: int| 0 <= i < rest.len() && rest[i] == a;
            let p = if i < k {
                i
            } else {
                i + 1
            };
            assert(all[p] == a);
            assert(all.to_set().contains(a));
            if a == address {
                lemma_ascending_distinct::<RowAddress>(all, p, k);
            }
        }
        if state.dom().contains(a) {
            assert(after.dom().contains(a));
            assert(all.to_set().contains(a));
            let p = choose|p: int| 0 <= p < all.len() && all[p] == a;
            if p < k {
                assert(rest[p] == a);
            } else {
                assert(rest[p - 1] == a);
            }
        }
    }
    assert(rest.to_set() =~= state.dom());
    lemma_sorted::<RowAddress>(rest, state.dom());
    lemma_held_without(after, all, k, level, source, pool);
    assert forall|i: int| 0 <= i < rest.len() implies after[#[trigger] rest[i]] == state[rest[i]] by {
        assert(rest.to_set().contains(rest[i]));
    }
    lemma_held_local(after, state, rest, level, source, pool);
}

/// Where the row at an address is another, what is held changes by what the two rows
/// hold.
pub proof fn law_allocation_of_change(
    state: StateView,
    address: Seq<StepView>,
    row: FieldsView,
    level: Seq<char>,
    source: Seq<char>,
    pool: ValueView,
)
    requires
        state.dom().finite(),
        state.contains_key(address),
    ensures
        allocation(state.insert(address, row), level, source, pool) + held_by(
            funding_of(state[address]),
            level,
            source,
            pool,
        ) == allocation(state, level, source, pool) + held_by(funding_of(row), level, source, pool),
{
    let rest = state.remove(address);
    law_allocation_adds_up(rest, address, row, level, source, pool);
    law_allocation_adds_up(rest, address, state[address], level, source, pool);
    assert(rest.insert(address, row) =~= state.insert(address, row));
    assert(rest.insert(address, state[address]) =~= state);
}

proof fn lemma_held_positive(entries: Seq<EntryView>, level: Seq<char>, source: Seq<char>, pool: ValueView)
    requires
        forall|i: int| 0 <= i < entries.len() ==> (#[trigger] entries[i]).amount > 0real,
    ensures
        held_by(entries, level, source, pool) >= 0real,
    decreases entries.len(),
{
    if entries.len() > 0 {
        assert forall|i: int| 0 <= i < entries.drop_last().len() implies (#[trigger] entries.drop_last()[i]).amount
            > 0real by {
            assert(entries.drop_last()[i] == entries[i]);
        }
        lemma_held_positive(entries.drop_last(), level, source, pool);
        assert(entries[entries.len() - 1] == entries.last());
    }
}

proof fn lemma_held_within(small: Seq<EntryView>, large: Seq<EntryView>, level: Seq<char>, source: Seq<char>, pool: ValueView)
    requires
        small.no_duplicates(),
        forall|i: int| 0 <= i < small.len() ==> large.contains(#[trigger] small[i]),
        forall|i: int| 0 <= i < large.len() ==> (#[trigger] large[i]).amount > 0real,
    ensures
        held_by(small, level, source, pool) <= held_by(large, level, source, pool),
    decreases small.len(),
{
    if small.len() == 0 {
        lemma_held_positive(large, level, source, pool);
    } else {
        let e = small.last();
        let shorter = small.drop_last();
        assert(small[small.len() - 1] == e);
        let k = choose|k: int| 0 <= k < large.len() && large[k] == e;
        let rest = large.remove(k);
        assert forall|i: int| 0 <= i < shorter.len() implies rest.contains(#[trigger] shorter[i]) by {
            assert(small[i] == shorter[i]);
            assert(small[i] != small[small.len() - 1]);
            let j = choose|j: int| 0 <= j < large.len() && large[j] == small[i];
            if j < k {
                assert(rest[j] == shorter[i]);
            } else {
                assert(rest[j - 1] == shorter[i]);
            }
        }
        assert forall|i: int| 0 <= i < rest.len() implies (#[trigger] rest[i]).amount > 0real by {
            if i < k {
                assert(rest[i] == large[i]);
            } else {
                assert(rest[i] == large[i + 1]);
            }
        }
        lemma_held_within(shorter, rest, level, source, pool);
        assert(large =~= large.take(k) + (seq![e] + large.skip(k + 1)));
        assert(rest =~= large.take(k) + large.skip(k + 1));
        law_held_adds_up(large.take(k), seq![e] + large.skip(k + 1), e, level, source, pool);
        law_held_adds_up(seq![e], large.skip(k + 1), e, level, source, pool);
        law_held_adds_up(large.take(k), large.skip(k + 1), e, level, source, pool);
    }
}

proof fn lemma_kept_once(entries: Seq<EntryView>, row: FieldsView)
    requires
        row.contains_key("$funding"@),
        row["$funding"@] == funding_value(entries),
    ensures
        funding_of(row).no_duplicates(),
{
    let values = entry_values(entries);
    let set = values.to_set();
    let kept = canonical(set);
    vstd::seq_lib::seq_to_set_is_finite(values);
    lemma_sorted_exists::<Value>(set);
    assert forall|i: int| 0 <= i < kept.len() implies records_part(#[trigger] kept[i]) by {
        assert(kept.to_set().contains(kept[i]));
        assert(values.contains(kept[i]));
        let j = choose|j: int| 0 <= j < values.len() && values[j] == kept[i];
        assert(kept[i] == entry_value(entries[j]));
    }
    lemma_entries_once(kept);
}

/// Whether a value is a part of a funding as it is written.
spec fn records_part(value: ValueView) -> bool {
    exists|e: EntryView| value == #[trigger] entry_value(e)
}

proof fn lemma_entries_once(values: Seq<ValueView>)
    requires
        ascending::<Value>(values),
        forall|i: int| 0 <= i < values.len() ==> records_part(#[trigger] values[i]),
    ensures
        entries_in(values).no_duplicates(),
    decreases values.len(),
{
    if values.len() > 0 {
        let shorter = values.drop_last();
        assert forall|i: int| 0 <= i < shorter.len() implies records_part(#[trigger] shorter[i]) by {
            assert(shorter[i] == values[i]);
        }
        assert(ascending::<Value>(shorter));
        lemma_entries_once(shorter);
        let n = values.len() - 1;
        assert(records_part(values[n]));
        let e = choose|e: EntryView| values[n] == #[trigger] entry_value(e);
        lemma_entry_value(e);
        let before = entries_in(shorter);
        if before.contains(e) {
            lemma_entries_in(shorter, e);
            let i = choose|i: int| 0 <= i < shorter.len() && entry_in(#[trigger] shorter[i]) == Some(e);
            assert(shorter[i] == values[i]);
            assert(records_part(values[i]));
            let d = choose|d: EntryView| values[i] == #[trigger] entry_value(d);
            lemma_entry_value(d);
            lemma_ascending_distinct::<Value>(values, i, n);
        }
        let after = entries_in(values);
        assert(after == before.push(e));
        assert forall|i: int, j: int| 0 <= i < after.len() && 0 <= j < after.len() && i != j implies after[i] != after[j] by {
            if i < before.len() && j < before.len() {
                assert(before[i] != before[j]);
            } else if i < before.len() {
                assert(before.contains(before[i]));
            } else {
                assert(before.contains(before[j]));
            }
        }
    }
}

/// A state that keeps what an accepted drain took stays within the capacity of every
/// pool: where the rows held no more than a pool has, they hold no more of it once the
/// drained parts are kept with a row that kept none.
pub proof fn law_capacity_kept(
    state: StateView,
    address: Seq<StepView>,
    row: FieldsView,
    level: Seq<char>,
    pools: Seq<PoolView>,
    amount: real,
    i: int,
)
    requires
        state.dom().finite(),
        amount > 0real,
        drained(state, level, pools, amount, pools.len() as int).needed <= 0real,
        state.contains_key(address) ==> !state[address].contains_key("$funding"@),
        row.contains_key("$funding"@),
        row["$funding"@] == funding_value(drained(state, level, pools, amount, pools.len() as int).planned),
        0 <= i < pools.len(),
        pools[i].quantity is Some,
        allocation(state, level, pools[i].source, pools[i].key) <= pools[i].quantity->0,
        forall|j: int, k: int|
            0 <= j < k < pools.len() ==> (#[trigger] pools[j]).source != (#[trigger] pools[k]).source || pools[j].key
                != pools[k].key,
    ensures
        allocation(state.insert(address, row), level, pools[i].source, pools[i].key) <= pools[i].quantity->0,
{
    let n = pools.len() as int;
    let d = drained(state, level, pools, amount, n);
    let source = pools[i].source;
    let key = pools[i].key;
    lemma_drain(state, level, pools, amount, n);
    lemma_no_overdraft(state, level, pools, amount, n, i);
    if state.contains_key(address) {
        law_allocation_of_change(state, address, row, level, source, key);
        assert(funding_of(state[address]) =~= Seq::<EntryView>::empty());
    } else {
        law_allocation_adds_up(state, address, row, level, source, key);
    }
    lemma_kept_once(d.planned, row);
    assert forall|k: int| 0 <= k < funding_of(row).len() implies d.planned.contains(#[trigger] funding_of(row)[k]) by {
        law_funding_read_back(d.planned, row, funding_of(row)[k]);
        assert(funding_of(row).contains(funding_of(row)[k]));
    }
    lemma_held_within(funding_of(row), d.planned, level, source, key);
}

/// A drain takes from the pools in their order: one that comes later is drawn on only
/// where every earlier one with a capacity is used up. A pool without a capacity is not
/// drawn on, nor one of which nothing is left.
pub proof fn law_drained_in_order(
    state: StateView,
    level: Seq<char>,
    pools: Seq<PoolView>,
    amount: real,
    i: int,
    k: int,
)
    requires
        amount > 0real,
        0 <= i < k < pools.len(),
        pools[i].quantity is Some,
        forall|p: int, q: int|
            0 <= p < q < pools.len() ==> (#[trigger] pools[p]).source != (#[trigger] pools[q]).source || pools[p].key
                != pools[q].key,
        held_by(
            drained(state, level, pools, amount, pools.len() as int).planned,
            level,
            pools[k].source,
            pools[k].key,
        ) > 0real,
    ensures
        pools[k].quantity is Some,
        allocation(state, level, pools[k].source, pools[k].key) < pools[k].quantity->0,
        allocation(state, level, pools[i].source, pools[i].key) + held_by(
            drained(state, level, pools, amount, pools.len() as int).planned,
            level,
            pools[i].source,
            pools[i].key,
        ) >= pools[i].quantity->0,
{
    lemma_untouched(state, level, pools, amount, k, k);
    lemma_drain(state, level, pools, amount, k);
    lemma_no_overdraft(state, level, pools, amount, k, i);
    lemma_later_drains(state, level, pools, amount, k + 1, pools.len() as int, k);
    lemma_later_drains(state, level, pools, amount, k, pools.len() as int, i);
    let before = drained(state, level, pools, amount, k);
    let after = drained(state, level, pools, amount, k + 1);
    if after != before {
        assert(after.planned.drop_last() =~= before.planned);
    }
}

proof fn lemma_later_drains(
    state: StateView,
    level: Seq<char>,
    pools: Seq<PoolView>,
    amount: real,
    n: int,
    m: int,
    i: int,
)
    requires
        0 <= i < n <= m <= pools.len(),
        forall|p: int, q: int|
            0 <= p < q < pools.len() ==> (#[trigger] pools[p]).source != (#[trigger] pools[q]).source || pools[p].key
                != pools[q].key,
    ensures
        held_by(drained(state, level, pools, amount, m).planned, level, pools[i].source, pools[i].key) == held_by(
            drained(state, level, pools, amount, n).planned,
            level,
            pools[i].source,
            pools[i].key,
        ),
    decreases m - n,
{
    if n < m {
        lemma_later_drains(state, level, pools, amount, n, m - 1, i);
        let before = drained(state, level, pools, amount, m - 1);
        let after = drained(state, level, pools, amount, m);
        if after != before {
            assert(after.planned.drop_last() =~= before.planned);
            assert(pools[i].source != pools[m - 1].source || pools[i].key != pools[m - 1].key);
        }
    }
}

/// A drain is accepted if and only if the pools that are told apart have, beside what
/// the state holds of them, the amount between them; it is refused where they do not.
pub proof fn law_drain_accepted(state: StateView, level: Seq<char>, pools: Seq<PoolView>, amount: real)
    requires
        amount > 0real,
        forall|j: int, k: int|
            0 <= j < k < pools.len() ==> (#[trigger] pools[j]).source != (#[trigger] pools[k]).source || pools[j].key
                != pools[k].key,
    ensures
        drained(state, level, pools, amount, pools.len() as int).needed <= 0real <==> spare(
            state,
            level,
            pools,
            pools.len() as int,
        ) >= amount,
{
    lemma_spare(state, level, pools, amount, pools.len() as int);
}

/// What the first `n` pools have beside what the state holds of them. A pool without a
/// capacity adds nothing, nor one that is overdrawn.
pub open spec fn spare(state: StateView, level: Seq<char>, pools: Seq<PoolView>, n: int) -> real
    decreases n,
{
    if n <= 0 {
        0real
    } else {
        let held = allocation(state, level, pools[n - 1].source, pools[n - 1].key);
        spare(state, level, pools, n - 1) + if pools[n - 1].quantity is Some && pools[n - 1].quantity->0 > held {
            pools[n - 1].quantity->0 - held
        } else {
            0real
        }
    }
}

proof fn lemma_spare(state: StateView, level: Seq<char>, pools: Seq<PoolView>, amount: real, n: int)
    requires
        amount > 0real,
        0 <= n <= pools.len(),
        forall|j: int, k: int|
            0 <= j < k < pools.len() ==> (#[trigger] pools[j]).source != (#[trigger] pools[k]).source || pools[j].key
                != pools[k].key,
    ensures
        ({
            let d = drained(state, level, pools, amount, n);
            &&& d.done ==> spare(state, level, pools, n) >= amount
            &&& !d.done ==> spare(state, level, pools, n) + d.needed == amount
            &&& !d.done ==> d.needed > 0real
            &&& d.done ==> d.needed == 0real
        }),
    decreases n,
{
    if n > 0 {
        lemma_spare(state, level, pools, amount, n - 1);
        lemma_drain(state, level, pools, amount, n - 1);
        lemma_drain(state, level, pools, amount, n);
        lemma_untouched(state, level, pools, amount, n - 1, n - 1);
    }
}

} // verus!
