//! Spends: the levels of a meter that a spend clears, the funding of a spend, and the
//! enforcement of meters over a transition.

use crate::address::{names_of, RowAddress, StepView};
use crate::cell::{lemma_cell, Cell, CellView};
use crate::decimal::Decimal;
use crate::funding::{drain, drained, encode, entry_views, funding_value, no_capacity, Entry, EntryView, FUNDING_FIELD};
use crate::levels::{level_ready, level_text, open_at, LevelWork};
use crate::meter::{CompiledMeter, CompiledSpend, ConsumeDecl, MeterView, SpendView};
use crate::order::{Duplicate, Order};
use crate::pools::{decimal_of, number_in};
use crate::rejection::{outcome, refused, refused_at, Rejection, RejectionReason, RejectionView};
use crate::state::{address_views, in_order, Fields, FieldsView, Prospective, StateView};
use crate::table::Table;
use crate::text::{concat3, same_text, same_texts, texts};
use crate::update::{EngineError, EngineErrorView};
use crate::time::Timestamp;
use crate::value::{Value, ValueView};
use vstd::prelude::*;

verus! {

/// The meters and the spends a package declares.
pub struct CompiledMeters {
    pub meters: Vec<CompiledMeter>,
    pub spends: Vec<CompiledSpend>,
}

/// The first spend collection at a path.
pub open spec fn spend_found(spends: Seq<CompiledSpend>, path: Seq<Seq<char>>) -> Option<CompiledSpend>
    decreases spends.len(),
{
    if spends.len() == 0 {
        None
    } else if texts(spends[0].path@) == path {
        Some(spends[0])
    } else {
        spend_found(spends.drop_first(), path)
    }
}

/// The first meter of a name at a path.
pub open spec fn meter_found(meters: Seq<CompiledMeter>, path: Seq<Seq<char>>, name: Seq<char>) -> Option<CompiledMeter>
    decreases meters.len(),
{
    if meters.len() == 0 {
        None
    } else if texts(meters[0].path@) == path && meters[0].name@ == name {
        Some(meters[0])
    } else {
        meter_found(meters.drop_first(), path, name)
    }
}

impl CompiledMeters {
    /// The spend collection at a path.
    pub fn spend_at(&self, path: &Vec<String>) -> (r: Option<&CompiledSpend>)
        ensures
            match r {
                Some(s) => spend_found(self.spends@, texts(path@)) == Some(*s),
                None => spend_found(self.spends@, texts(path@)) is None,
            },
    {
        let mut i: usize = 0;
        proof {
            assert(self.spends@.skip(0) =~= self.spends@);
        }
        while i < self.spends.len()
            invariant
                i <= self.spends@.len(),
                spend_found(self.spends@, texts(path@)) == spend_found(self.spends@.skip(i as int), texts(path@)),
            decreases self.spends@.len() - i,
        {
            if same_texts(&self.spends[i].path, path) {
                return Some(&self.spends[i]);
            }
            proof {
                assert(self.spends@.skip(i as int).drop_first() =~= self.spends@.skip(i + 1));
            }
            i = i + 1;
        }
        None
    }

    /// The meter of a name at a path.
    pub fn meter_at(&self, path: &Vec<String>, name: &str) -> (r: Option<&CompiledMeter>)
        ensures
            match r {
                Some(m) => meter_found(self.meters@, texts(path@), name@) == Some(*m),
                None => meter_found(self.meters@, texts(path@), name@) is None,
            },
    {
        let mut i: usize = 0;
        proof {
            assert(self.meters@.skip(0) =~= self.meters@);
        }
        while i < self.meters.len()
            invariant
                i <= self.meters@.len(),
                meter_found(self.meters@, texts(path@), name@) == meter_found(
                    self.meters@.skip(i as int),
                    texts(path@),
                    name@,
                ),
            decreases self.meters@.len() - i,
        {
            if same_texts(&self.meters[i].path, path) && same_text(self.meters[i].name.as_str(), name) {
                return Some(&self.meters[i]);
            }
            proof {
                assert(self.meters@.skip(i as int).drop_first() =~= self.meters@.skip(i + 1));
            }
            i = i + 1;
        }
        None
    }
}

/// The levels of a meter that a spend clears: the rows above it, from the nearest up,
/// whose collection declares the meter.
pub open spec fn levels_above(
    meters: Seq<CompiledMeter>,
    spend: Seq<StepView>,
    name: Seq<char>,
    depth: int,
) -> Seq<(CompiledMeter, Seq<StepView>)>
    decreases depth,
{
    if depth <= 0 {
        Seq::empty()
    } else {
        let above = levels_above(meters, spend, name, depth - 1);
        match meter_found(meters, names_of(spend.take(depth)), name) {
            Some(m) => seq![(m, spend.take(depth))] + above,
            None => above,
        }
    }
}

/// The levels of a meter that a spend clears.
pub open spec fn levels_of(meters: Seq<CompiledMeter>, spend: Seq<StepView>, name: Seq<char>) -> Seq<
    (CompiledMeter, Seq<StepView>),
> {
    levels_above(meters, spend, name, spend.len() - 1)
}

/// What levels denote.
pub open spec fn level_views(levels: Seq<(&CompiledMeter, RowAddress)>) -> Seq<(CompiledMeter, Seq<StepView>)> {
    Seq::new(levels.len(), |i: int| (*levels[i].0, levels[i].1@))
}

/// Find the levels of a meter that a spend clears, from the nearest up.
pub fn reachable_levels<'a>(meters: &'a CompiledMeters, spend: &RowAddress, name: &str) -> (r: Vec<
    (&'a CompiledMeter, RowAddress),
>)
    ensures
        level_views(r@) == levels_of(meters.meters@, spend@, name@),
{
    let mut r: Vec<(&'a CompiledMeter, RowAddress)> = Vec::new();
    let mut here = spend.duplicate();
    let ghost all = spend@;
    let mut depth: usize = spend.depth();
    proof {
        assert(level_views(r@) =~= Seq::<(CompiledMeter, Seq<StepView>)>::empty());
        assert(all.take(all.len() as int) =~= all);
        assert(level_views(r@) + levels_above(meters.meters@, all, name@, all.len() - 1) =~= levels_of(
            meters.meters@,
            all,
            name@,
        ));
    }
    while depth > 1
        invariant
            all == spend@,
            1 <= depth <= all.len(),
            here@ == all.take(depth as int),
            levels_of(meters.meters@, all, name@) == level_views(r@) + levels_above(
                meters.meters@,
                all,
                name@,
                depth - 1,
            ),
        decreases depth,
    {
        let ghost before = level_views(r@);
        match here.parent() {
            Some(parent) => {
                here = parent;
            },
            None => {
                proof {
                    assert(false);
                }
                return r;
            },
        }
        depth = depth - 1;
        proof {
            assert(here@ =~= all.take(depth as int));
        }
        let path = here.declaration();
        if let Some(meter) = meters.meter_at(&path, name) {
            r.push((meter, here.duplicate()));
            proof {
                let found = (*meter, all.take(depth as int));
                assert(level_views(r@) =~= before.push(found));
                let above = levels_above(meters.meters@, all, name@, depth - 1);
                assert(before + (seq![found] + above) =~= before.push(found) + above);
            }
        }
    }
    proof {
        assert(levels_above(meters.meters@, all, name@, 0) =~= Seq::<(CompiledMeter, Seq<StepView>)>::empty());
        assert(level_views(r@) + Seq::<(CompiledMeter, Seq<StepView>)>::empty() =~= level_views(r@));
    }
    r
}

/// What evaluation came to for a meter a spend consumes.
pub struct ConsumeEval {
    pub amount: Result<Cell, Rejection>,
    pub time: Result<Cell, Rejection>,
    pub metadata: Vec<Result<Cell, Rejection>>,
    pub levels: Vec<LevelWork>,
}

/// What evaluation came to for a spend: whether its row can be read, and each meter it
/// consumes.
pub struct SpendEval {
    pub readable: bool,
    pub consumes: Vec<ConsumeEval>,
}

/// The amount of a spend.
pub open spec fn amount_in(cell: Result<Cell, Rejection>) -> Result<real, RejectionView> {
    match cell {
        Err(e) => Err(e@),
        Ok(c) => match c@ {
            CellView::Scalar(v) => number_in(v),
            _ => Err(refused(RejectionReason::TypeError, "spend amount is not a number"@)),
        },
    }
}

/// The first failure among outcomes.
pub open spec fn first_refusal(outcomes: Seq<Result<Cell, Rejection>>) -> Option<RejectionView>
    decreases outcomes.len(),
{
    if outcomes.len() == 0 {
        None
    } else {
        match outcomes[0] {
            Err(e) => Some(e@),
            Ok(_) => first_refusal(outcomes.drop_first()),
        }
    }
}

/// The instant a spend counts at: the one its time expression gave, or now.
pub open spec fn counted_at(cell: CellView, now: Timestamp) -> Timestamp {
    match cell {
        CellView::Scalar(ValueView::Timestamp(t)) => t,
        _ => now,
    }
}

/// The funding of a consumed amount at the first `n` levels: a level that does not
/// limit takes nothing, and nothing of no amount; of any other, the pools open at the
/// instant the spend counts at are drained.
pub open spec fn levels_funded(
    state: StateView,
    levels: Seq<(CompiledMeter, Seq<StepView>)>,
    work: Seq<LevelWork>,
    amount: real,
    time: Timestamp,
    entries: Seq<EntryView>,
    n: int,
) -> Result<Seq<EntryView>, RejectionView>
    decreases n,
{
    if n <= 0 {
        Ok(entries)
    } else {
        match levels_funded(state, levels, work, amount, time, entries, n - 1) {
            Err(e) => Err(e),
            Ok(before) => {
                let meter = levels[n - 1].0;
                if !meter.limiting || amount == 0real {
                    Ok(before)
                } else {
                    match open_at(meter, work[n - 1], time) {
                        Err(e) => Err(e),
                        Ok(pools) => {
                            let level = level_text(work[n - 1].rendered@, meter.name@);
                            let d = drained(state, level, pools, amount, pools.len() as int);
                            if d.needed > 0real {
                                Err(no_capacity(meter.name@))
                            } else {
                                Ok(before + d.planned)
                            }
                        },
                    }
                }
            },
        }
    }
}

/// The funding of a spend by one of the meters it consumes.
pub open spec fn consume_funded(
    state: StateView,
    meters: Seq<CompiledMeter>,
    at: Seq<StepView>,
    meter: Seq<char>,
    eval: ConsumeEval,
    now: Timestamp,
    entries: Seq<EntryView>,
) -> Result<Seq<EntryView>, RejectionView> {
    match amount_in(eval.amount) {
        Err(e) => Err(e),
        Ok(amount) => if amount < 0real {
            Err(
                refused_at(
                    RejectionReason::Evaluation,
                    "spend $amount MUST be non-negative for meter `"@ + meter + "`"@,
                    at,
                ),
            )
        } else {
            match eval.time {
                Err(e) => Err(e@),
                Ok(cell) => match first_refusal(eval.metadata@) {
                    Some(e) => Err(e),
                    None => {
                        let levels = levels_of(meters, at, meter);
                        let time = counted_at(cell@, now);
                        levels_funded(state, levels, eval.levels@, amount, time, entries, levels.len() as int)
                    },
                },
            }
        },
    }
}

/// The funding of a spend by the first `n` meters it consumes.
pub open spec fn consumes_funded(
    state: StateView,
    meters: Seq<CompiledMeter>,
    at: Seq<StepView>,
    consumes: Seq<ConsumeDecl>,
    evals: Seq<ConsumeEval>,
    now: Timestamp,
    n: int,
) -> Result<Seq<EntryView>, RejectionView>
    decreases n,
{
    if n <= 0 {
        Ok(Seq::empty())
    } else {
        match consumes_funded(state, meters, at, consumes, evals, now, n - 1) {
            Err(e) => Err(e),
            Ok(entries) => consume_funded(state, meters, at, consumes[n - 1].meter@, evals[n - 1], now, entries),
        }
    }
}

/// A row without its funding; one that is not there has no fields.
pub open spec fn released(state: StateView, at: Seq<StepView>) -> FieldsView {
    (if state.contains_key(at) {
        state[at]
    } else {
        Map::empty()
    }).remove("$funding"@)
}

/// A state after a spend has been funded: its old funding is given back first, and the
/// new one is kept with it.
pub open spec fn spend_funded(
    state: StateView,
    meters: Seq<CompiledMeter>,
    at: Seq<StepView>,
    spend: CompiledSpend,
    eval: SpendEval,
    now: Timestamp,
) -> Result<StateView, RejectionView> {
    let row = released(state, at);
    let open = state.insert(at, row);
    if !eval.readable {
        Ok(open)
    } else {
        match consumes_funded(
            open,
            meters,
            at,
            spend.consumes@,
            eval.consumes@,
            now,
            spend.consumes@.len() as int,
        ) {
            Err(e) => Err(e),
            Ok(entries) => Ok(open.insert(at, row.insert("$funding"@, funding_value(entries)))),
        }
    }
}

/// Whether there is evaluation work for each of these levels.
pub open spec fn levels_ready(levels: Seq<(CompiledMeter, Seq<StepView>)>, work: Seq<LevelWork>) -> bool {
    &&& work.len() == levels.len()
    &&& forall|k: int| 0 <= k < levels.len() ==> level_ready(levels[k].0, #[trigger] work[k])
}

/// Whether there is evaluation work for each meter and each level of a spend.
pub open spec fn eval_ready(
    meters: Seq<CompiledMeter>,
    at: Seq<StepView>,
    consumes: Seq<ConsumeDecl>,
    eval: SpendEval,
) -> bool {
    &&& eval.consumes@.len() == consumes.len()
    &&& forall|i: int|
        0 <= i < consumes.len() ==> levels_ready(
            levels_of(meters, at, consumes[i].meter@),
            (#[trigger] eval.consumes@[i]).levels@,
        )
}

fn read_amount(cell: &Result<Cell, Rejection>) -> (r: Result<Decimal, Rejection>)
    ensures
        outcome(r) == amount_in(*cell),
{
    match cell {
        Err(e) => Err(e.duplicate()),
        Ok(c) => {
            proof {
                lemma_cell(*c);
            }
            match c {
                Cell::Scalar(v) => decimal_of(v),
                _ => Err(Rejection::new(RejectionReason::TypeError, "spend amount is not a number")),
            }
        },
    }
}

/// The instant a spend counts at: the one its time expression gave, or now.
pub fn spend_time(cell: &Cell, now: Timestamp) -> (r: Timestamp)
    ensures
        r == counted_at(cell@, now),
{
    proof {
        lemma_cell(*cell);
    }
    match cell {
        Cell::Scalar(Value::Timestamp(t)) => *t,
        _ => now,
    }
}

fn check_metadata(outcomes: &Vec<Result<Cell, Rejection>>) -> (r: Result<(), Rejection>)
    ensures
        match (r, first_refusal(outcomes@)) {
            (Ok(_), None) => true,
            (Err(e), Some(x)) => e@ == x,
            _ => false,
        },
{
    let mut i: usize = 0;
    proof {
        assert(outcomes@.skip(0) =~= outcomes@);
    }
    while i < outcomes.len()
        invariant
            i <= outcomes@.len(),
            first_refusal(outcomes@) == first_refusal(outcomes@.skip(i as int)),
        decreases outcomes@.len() - i,
    {
        proof {
            assert(outcomes@.skip(i as int)[0] == outcomes@[i as int]);
            assert(outcomes@.skip(i as int).drop_first() =~= outcomes@.skip(i + 1));
        }
        if let Err(e) = &outcomes[i] {
            return Err(e.duplicate());
        }
        i = i + 1;
    }
    Ok(())
}

proof fn lemma_levels_refusal(
    state: StateView,
    levels: Seq<(CompiledMeter, Seq<StepView>)>,
    work: Seq<LevelWork>,
    amount: real,
    time: Timestamp,
    entries: Seq<EntryView>,
    n: int,
    m: int,
)
    requires
        0 <= n <= m,
        levels_funded(state, levels, work, amount, time, entries, n) is Err,
    ensures
        levels_funded(state, levels, work, amount, time, entries, m) == levels_funded(state, levels, work, amount, time, entries, n),
    decreases m - n,
{
    if n < m {
        lemma_levels_refusal(state, levels, work, amount, time, entries, n, m - 1);
    }
}

proof fn lemma_consumes_refusal(
    state: StateView,
    meters: Seq<CompiledMeter>,
    at: Seq<StepView>,
    consumes: Seq<ConsumeDecl>,
    evals: Seq<ConsumeEval>,
    now: Timestamp,
    n: int,
    m: int,
)
    requires
        0 <= n <= m,
        consumes_funded(state, meters, at, consumes, evals, now, n) is Err,
    ensures
        consumes_funded(state, meters, at, consumes, evals, now, m) == consumes_funded(state, meters, at, consumes, evals, now, n),
    decreases m - n,
{
    if n < m {
        lemma_consumes_refusal(state, meters, at, consumes, evals, now, n, m - 1);
    }
}

/// Fund a consumed amount at every level it clears.
fn fund_levels(
    prospective: &Prospective,
    levels: &Vec<(&CompiledMeter, RowAddress)>,
    work: &Vec<LevelWork>,
    amount: &Decimal,
    time: Timestamp,
    entries: &mut Vec<Entry>,
) -> (r: Result<(), Rejection>)
    requires
        levels_ready(level_views(levels@), work@),
    ensures
        match (
            r,
            levels_funded(
                prospective@,
                level_views(levels@),
                work@,
                amount@,
                time,
                entry_views(old(entries)@),
                levels@.len() as int,
            ),
        ) {
            (Ok(_), Ok(all)) => entry_views(final(entries)@) == all,
            (Err(e), Err(x)) => e@ == x,
            _ => false,
        },
{
    let ghost start = entry_views(entries@);
    let ghost all = level_views(levels@);
    let zero = Decimal::from_integer(0);
    let mut i: usize = 0;
    while i < levels.len()
        invariant
            start == entry_views(old(entries)@),
            all == level_views(levels@),
            zero@ == 0real,
            levels_ready(all, work@),
            i <= levels@.len(),
            levels_funded(prospective@, all, work@, amount@, time, start, i as int) == Ok::<
                Seq<EntryView>,
                RejectionView,
            >(entry_views(entries@)),
        decreases levels@.len() - i,
    {
        let meter = levels[i].0;
        proof {
            assert(all[i as int].0 == *meter);
        }
        let nothing = matches!(amount.order(&zero), Order::Same);
        if meter.limiting && !nothing {
            let step = match meter.pools_at(&work[i], time) {
                Ok(pools) => {
                    let level = meter.level_id(work[i].rendered.as_str());
                    drain(prospective, meter.name.as_str(), level.as_str(), &pools, amount, entries)
                },
                Err(e) => Err(e),
            };
            match step {
                Ok(_) => {},
                Err(e) => {
                    proof {
                        assert(levels_funded(prospective@, all, work@, amount@, time, start, i + 1) == Err::<
                            Seq<EntryView>,
                            RejectionView,
                        >(e@));
                        lemma_levels_refusal(prospective@, all, work@, amount@, time, start, i + 1, levels@.len() as int);
                    }
                    return Err(e);
                },
            }
        }
        i = i + 1;
    }
    Ok(())
}

fn fund_consume(
    meters: &CompiledMeters,
    prospective: &Prospective,
    at: &RowAddress,
    meter: &str,
    eval: &ConsumeEval,
    now: Timestamp,
    entries: &mut Vec<Entry>,
) -> (r: Result<(), Rejection>)
    requires
        levels_ready(levels_of(meters.meters@, at@, meter@), eval.levels@),
    ensures
        match (
            r,
            consume_funded(prospective@, meters.meters@, at@, meter@, *eval, now, entry_views(old(entries)@)),
        ) {
            (Ok(_), Ok(all)) => entry_views(final(entries)@) == all,
            (Err(e), Err(x)) => e@ == x,
            _ => false,
        },
{
    let amount = read_amount(&eval.amount)?;
    let zero = Decimal::from_integer(0);
    if let Order::Before = amount.order(&zero) {
        return Err(
            Rejection::at(
                RejectionReason::Evaluation,
                concat3("spend $amount MUST be non-negative for meter `", meter, "`").as_str(),
                at,
            ),
        );
    }
    let time = match &eval.time {
        Err(e) => {
            return Err(e.duplicate());
        },
        Ok(cell) => spend_time(cell, now),
    };
    check_metadata(&eval.metadata)?;
    let levels = reachable_levels(meters, at, meter);
    fund_levels(prospective, &levels, &eval.levels, &amount, time, entries)
}

/// Fund a spend: give its old funding back, draw what each meter it consumes needs at
/// every level it clears, and keep that with the spend. `eval` holds what evaluation
/// came to.
pub fn fund_spend(
    meters: &CompiledMeters,
    prospective: &mut Prospective,
    at: &RowAddress,
    spend: &CompiledSpend,
    eval: &SpendEval,
    now: Timestamp,
) -> (r: Result<(), Rejection>)
    requires
        eval_ready(meters.meters@, at@, spend.consumes@, *eval),
    ensures
        match (r, spend_funded(old(prospective)@, meters.meters@, at@, *spend, *eval, now)) {
            (Ok(_), Ok(state)) => final(prospective)@ == state,
            (Err(e), Err(x)) => e@ == x && final(prospective)@ == old(prospective)@.insert(
                at@,
                released(old(prospective)@, at@),
            ),
            _ => false,
        },
        final(prospective).drawn() == old(prospective).drawn(),
{
    let ghost start = prospective@;
    let name = String::from_str(FUNDING_FIELD);
    let mut fields: Fields = match prospective.get(at) {
        Some(row) => row.duplicate(),
        None => Table::new(),
    };
    fields.remove(&name);
    let ghost row = fields@;
    proof {
        assert(row == released(start, at@));
    }
    prospective.replace(at, fields.duplicate());
    let ghost open = prospective@;
    if !eval.readable {
        return Ok(());
    }
    let mut entries: Vec<Entry> = Vec::new();
    let mut i: usize = 0;
    proof {
        assert(entry_views(entries@) =~= Seq::<EntryView>::empty());
    }
    while i < spend.consumes.len()
        invariant
            start == old(prospective)@,
            row == released(start, at@),
            fields@ == row,
            open == start.insert(at@, row),
            open == prospective@,
            prospective.drawn() == old(prospective).drawn(),
            eval.readable,
            eval_ready(meters.meters@, at@, spend.consumes@, *eval),
            i <= spend.consumes@.len(),
            consumes_funded(open, meters.meters@, at@, spend.consumes@, eval.consumes@, now, i as int) == Ok::<
                Seq<EntryView>,
                RejectionView,
            >(entry_views(entries@)),
        decreases spend.consumes@.len() - i,
    {
        proof {
            assert(levels_ready(
                levels_of(meters.meters@, at@, spend.consumes@[i as int].meter@),
                eval.consumes@[i as int].levels@,
            ));
        }
        match fund_consume(
            meters,
            prospective,
            at,
            spend.consumes[i].meter.as_str(),
            &eval.consumes[i],
            now,
            &mut entries,
        ) {
            Ok(_) => {},
            Err(e) => {
                proof {
                    lemma_consumes_refusal(
                        open,
                        meters.meters@,
                        at@,
                        spend.consumes@,
                        eval.consumes@,
                        now,
                        i + 1,
                        spend.consumes@.len() as int,
                    );
                }
                return Err(e);
            },
        }
        i = i + 1;
    }
    fields.insert(name, encode(&entries));
    prospective.replace(at, fields);
    Ok(())
}

/// The rows of a state at a path of names, in order.
pub open spec fn rows_on(state: StateView, path: Seq<Seq<char>>) -> Seq<Seq<StepView>> {
    on_path(in_order(state.dom()), path)
}

/// Those of these addresses whose names are this path.
pub open spec fn on_path(addresses: Seq<Seq<StepView>>, path: Seq<Seq<char>>) -> Seq<Seq<StepView>>
    decreases addresses.len(),
{
    if addresses.len() == 0 {
        Seq::empty()
    } else if names_of(addresses.last()) == path {
        on_path(addresses.drop_last(), path).push(addresses.last())
    } else {
        on_path(addresses.drop_last(), path)
    }
}

/// The rows a meter is enforced at.
pub fn enforcing_addresses(prospective: &Prospective, path: &Vec<String>) -> (r: Vec<RowAddress>)
    ensures
        address_views(r@) == rows_on(prospective@, texts(path@)),
{
    let addresses = prospective.addresses();
    let ghost all = address_views(addresses@);
    let mut r: Vec<RowAddress> = Vec::new();
    let mut i: usize = 0;
    proof {
        assert(all.take(0) =~= Seq::<Seq<StepView>>::empty());
        assert(address_views(r@) =~= Seq::<Seq<StepView>>::empty());
    }
    while i < addresses.len()
        invariant
            all == address_views(addresses@),
            i <= addresses@.len(),
            address_views(r@) == on_path(all.take(i as int), texts(path@)),
        decreases addresses@.len() - i,
    {
        let ghost before = address_views(r@);
        proof {
            assert(all.take(i + 1).drop_last() =~= all.take(i as int));
            assert(all.take(i + 1).last() == addresses@[i as int]@);
        }
        let names = addresses[i].declaration();
        if same_texts(&names, path) {
            r.push(addresses[i].duplicate());
            proof {
                assert(address_views(r@) =~= before.push(addresses@[i as int]@));
            }
        }
        i = i + 1;
    }
    proof {
        assert(all.take(i as int) =~= all);
    }
    r
}

/// Where capacities must not be negative: every row each limiting meter is enforced
/// at.
pub open spec fn capacity_checks(meters: Seq<CompiledMeter>, state: StateView, n: int) -> Seq<
    (CompiledMeter, Seq<StepView>),
>
    decreases n,
{
    if n <= 0 {
        Seq::empty()
    } else {
        let before = capacity_checks(meters, state, n - 1);
        let m = meters[n - 1];
        if m.limiting {
            let rows = rows_on(state, texts(m.path@));
            before + Seq::new(rows.len(), |i: int| (m, rows[i]))
        } else {
            before
        }
    }
}

/// List where capacities must not be negative, in the order they are checked.
pub fn quantity_checks<'a>(meters: &'a CompiledMeters, prospective: &Prospective) -> (r: Vec<
    (&'a CompiledMeter, RowAddress),
>)
    ensures
        level_views(r@) == capacity_checks(meters.meters@, prospective@, meters.meters@.len() as int),
{
    let mut r: Vec<(&'a CompiledMeter, RowAddress)> = Vec::new();
    let mut i: usize = 0;
    proof {
        assert(level_views(r@) =~= Seq::<(CompiledMeter, Seq<StepView>)>::empty());
    }
    while i < meters.meters.len()
        invariant
            i <= meters.meters@.len(),
            level_views(r@) == capacity_checks(meters.meters@, prospective@, i as int),
        decreases meters.meters@.len() - i,
    {
        let ghost before = level_views(r@);
        let meter = &meters.meters[i];
        if meter.limiting {
            let rows = enforcing_addresses(prospective, &meter.path);
            let ghost added = Seq::new(rows@.len(), |k: int| (*meter, rows@[k]@));
            let mut k: usize = 0;
            proof {
                assert(before + added.take(0) =~= before);
            }
            while k < rows.len()
                invariant
                    added == Seq::new(rows@.len(), |k: int| (*meter, rows@[k]@)),
                    k <= rows@.len(),
                    level_views(r@) == before + added.take(k as int),
                decreases rows@.len() - k,
            {
                let ghost so_far = level_views(r@);
                r.push((meter, rows[k].duplicate()));
                proof {
                    assert(level_views(r@) =~= so_far.push(added[k as int]));
                    assert(before + added.take(k + 1) =~= (before + added.take(k as int)).push(added[k as int]));
                }
                k = k + 1;
            }
            proof {
                assert(added.take(k as int) =~= added);
                let at = rows_on(prospective@, texts(meter.path@));
                assert(added =~= Seq::new(at.len(), |k: int| (*meter, at[k])));
            }
        }
        i = i + 1;
    }
    r
}

/// The first failure among verdicts.
pub open spec fn first_verdict(verdicts: Seq<Result<(), Rejection>>) -> Option<RejectionView>
    decreases verdicts.len(),
{
    if verdicts.len() == 0 {
        None
    } else {
        match verdicts[0] {
            Err(e) => Some(e@),
            Ok(_) => first_verdict(verdicts.drop_first()),
        }
    }
}

/// A state after the first `n` touched rows that are spends have been funded.
pub open spec fn spends_funded(
    meters: CompiledMeters,
    state: StateView,
    touched: Seq<Seq<StepView>>,
    evals: Seq<SpendEval>,
    now: Timestamp,
    n: int,
) -> Result<StateView, RejectionView>
    decreases n,
{
    if n <= 0 {
        Ok(state)
    } else {
        match spends_funded(meters, state, touched, evals, now, n - 1) {
            Err(e) => Err(e),
            Ok(s) => match spend_found(meters.spends@, names_of(touched[n - 1])) {
                None => Ok(s),
                Some(spend) => spend_funded(s, meters.meters@, touched[n - 1], spend, evals[n - 1], now),
            },
        }
    }
}

/// A state after the meters have been enforced over a transition: no capacity is
/// negative, and every spend among the touched rows is funded.
pub open spec fn enforced(
    meters: CompiledMeters,
    state: StateView,
    checks: Seq<Result<(), Rejection>>,
    touched: Seq<Seq<StepView>>,
    evals: Seq<SpendEval>,
    now: Timestamp,
) -> Result<StateView, RejectionView> {
    match first_verdict(checks) {
        Some(e) => Err(e),
        None => if meters.spends@.len() == 0 {
            Ok(state)
        } else {
            spends_funded(meters, state, touched, evals, now, touched.len() as int)
        },
    }
}

/// What refused spends leave: those before the refused one are funded, and that one has
/// given its old funding back.
pub open spec fn spends_left(
    meters: CompiledMeters,
    state: StateView,
    touched: Seq<Seq<StepView>>,
    evals: Seq<SpendEval>,
    now: Timestamp,
    n: int,
) -> StateView
    decreases n,
{
    if n <= 0 {
        state
    } else {
        match spends_funded(meters, state, touched, evals, now, n - 1) {
            Err(_) => spends_left(meters, state, touched, evals, now, n - 1),
            Ok(s) => s.insert(touched[n - 1], released(s, touched[n - 1])),
        }
    }
}

/// What a refused enforcement leaves: nothing where a capacity is refused.
pub open spec fn unenforced(
    meters: CompiledMeters,
    state: StateView,
    checks: Seq<Result<(), Rejection>>,
    touched: Seq<Seq<StepView>>,
    evals: Seq<SpendEval>,
    now: Timestamp,
) -> StateView {
    match first_verdict(checks) {
        Some(_) => state,
        None => spends_left(meters, state, touched, evals, now, touched.len() as int),
    }
}

/// Whether there is evaluation work for every touched row that is a spend.
pub open spec fn evals_ready(meters: CompiledMeters, touched: Seq<Seq<StepView>>, evals: Seq<SpendEval>) -> bool {
    &&& evals.len() == touched.len()
    &&& forall|i: int|
        0 <= i < touched.len() ==> (spend_found(meters.spends@, names_of(#[trigger] touched[i])) matches Some(spend)
            ==> eval_ready(meters.meters@, touched[i], spend.consumes@, evals[i]))
}

proof fn lemma_spends_refusal(
    meters: CompiledMeters,
    state: StateView,
    touched: Seq<Seq<StepView>>,
    evals: Seq<SpendEval>,
    now: Timestamp,
    n: int,
    m: int,
)
    requires
        0 <= n <= m,
        spends_funded(meters, state, touched, evals, now, n) is Err,
    ensures
        spends_funded(meters, state, touched, evals, now, m) == spends_funded(meters, state, touched, evals, now, n),
        spends_left(meters, state, touched, evals, now, m) == spends_left(meters, state, touched, evals, now, n),
    decreases m - n,
{
    if n < m {
        lemma_spends_refusal(meters, state, touched, evals, now, n, m - 1);
    }
}

fn check_capacities(checks: &Vec<Result<(), Rejection>>) -> (r: Result<(), Rejection>)
    ensures
        match (r, first_verdict(checks@)) {
            (Ok(_), None) => true,
            (Err(e), Some(x)) => e@ == x,
            _ => false,
        },
{
    let mut i: usize = 0;
    proof {
        assert(checks@.skip(0) =~= checks@);
    }
    while i < checks.len()
        invariant
            i <= checks@.len(),
            first_verdict(checks@) == first_verdict(checks@.skip(i as int)),
        decreases checks@.len() - i,
    {
        proof {
            assert(checks@.skip(i as int)[0] == checks@[i as int]);
            assert(checks@.skip(i as int).drop_first() =~= checks@.skip(i + 1));
        }
        if let Err(e) = &checks[i] {
            return Err(e.duplicate());
        }
        i = i + 1;
    }
    Ok(())
}

/// Enforce the meters over a transition. `checks` holds the verdict on each row that
/// [`quantity_checks`] lists, and `evals` what evaluation came to for each touched
/// row.
pub fn enforce(
    meters: &CompiledMeters,
    prospective: &mut Prospective,
    checks: &Vec<Result<(), Rejection>>,
    touched: &Vec<RowAddress>,
    evals: &Vec<SpendEval>,
    now: Timestamp,
) -> (r: Result<(), Rejection>)
    requires
        checks@.len() == capacity_checks(meters.meters@, old(prospective)@, meters.meters@.len() as int).len(),
        evals_ready(*meters, address_views(touched@), evals@),
    ensures
        match (r, enforced(*meters, old(prospective)@, checks@, address_views(touched@), evals@, now)) {
            (Ok(_), Ok(state)) => final(prospective)@ == state,
            (Err(e), Err(x)) => e@ == x && final(prospective)@ == unenforced(
                *meters,
                old(prospective)@,
                checks@,
                address_views(touched@),
                evals@,
                now,
            ),
            _ => false,
        },
        final(prospective).drawn() == old(prospective).drawn(),
{
    check_capacities(checks)?;
    if meters.spends.len() == 0 {
        return Ok(());
    }
    let ghost start = prospective@;
    let ghost all = address_views(touched@);
    let mut i: usize = 0;
    while i < touched.len()
        invariant
            first_verdict(checks@) is None,
            meters.spends@.len() != 0,
            start == old(prospective)@,
            prospective.drawn() == old(prospective).drawn(),
            all == address_views(touched@),
            evals_ready(*meters, all, evals@),
            i <= touched@.len(),
            spends_funded(*meters, start, all, evals@, now, i as int) == Ok::<StateView, RejectionView>(prospective@),
        decreases touched@.len() - i,
    {
        let path = touched[i].declaration();
        proof {
            assert(all[i as int] == touched@[i as int]@);
        }
        if let Some(spend) = meters.spend_at(&path) {
            match fund_spend(meters, prospective, &touched[i], spend, &evals[i], now) {
                Ok(_) => {},
                Err(e) => {
                    proof {
                        lemma_spends_refusal(*meters, start, all, evals@, now, i + 1, touched@.len() as int);
                    }
                    return Err(e);
                },
            }
        }
        i = i + 1;
    }
    Ok(())
}

/// What compiling one collection's meters and spends came to, and those of the
/// collections nested in it. An audit fails where an expression that reads the state
/// calls into a registered namespace.
pub struct MeteredCollection {
    pub limits: Option<(Result<(), EngineError>, Vec<Result<CompiledMeter, EngineError>>)>,
    pub consumes: Option<(Result<(), EngineError>, Result<CompiledSpend, EngineError>)>,
    pub children: Vec<MeteredCollection>,
}

/// The meters that compiled. One that did not is left out.
pub open spec fn compiled_ones(meters: Seq<Result<CompiledMeter, EngineError>>) -> Seq<MeterView>
    decreases meters.len(),
{
    if meters.len() == 0 {
        Seq::empty()
    } else {
        match meters.last() {
            Ok(m) => compiled_ones(meters.drop_last()).push(m@),
            Err(_) => compiled_ones(meters.drop_last()),
        }
    }
}

/// What the meters and spends of a package denote.
#[verifier::ext_equal]
pub struct MetersView {
    pub meters: Seq<MeterView>,
    pub spends: Seq<SpendView>,
}

/// What meters denote.
pub open spec fn meter_views(meters: Seq<CompiledMeter>) -> Seq<MeterView> {
    Seq::new(meters.len(), |i: int| meters[i]@)
}

/// What spend collections denote.
pub open spec fn spend_views(spends: Seq<CompiledSpend>) -> Seq<SpendView> {
    Seq::new(spends.len(), |i: int| spends[i]@)
}

impl View for CompiledMeters {
    type V = MetersView;

    open spec fn view(&self) -> MetersView {
        MetersView { meters: meter_views(self.meters@), spends: spend_views(self.spends@) }
    }
}

/// Meters and spends with a collection's own meters.
pub open spec fn with_meters(c: MeteredCollection, before: MetersView) -> Result<MetersView, EngineErrorView> {
    match c.limits {
        None => Ok(before),
        Some((Err(e), _)) => Err(e@),
        Some((Ok(_), meters)) => Ok(MetersView { meters: before.meters + compiled_ones(meters@), ..before }),
    }
}

/// Meters and spends with a collection's own spend.
pub open spec fn with_spend(c: MeteredCollection, before: MetersView) -> Result<MetersView, EngineErrorView> {
    match c.consumes {
        None => Ok(before),
        Some((Err(e), _)) => Err(e@),
        Some((Ok(_), Ok(spend))) => Ok(MetersView { spends: before.spends.push(spend@), ..before }),
        Some((Ok(_), Err(_))) => Ok(before),
    }
}

/// Meters and spends with those of a collection and of what is nested in it: the
/// collection first, then what is nested, in order. An audit that failed is the
/// failure.
pub open spec fn collected(c: MeteredCollection, before: MetersView) -> Result<MetersView, EngineErrorView>
    decreases c, 1int, 0int,
{
    match with_meters(c, before) {
        Err(e) => Err(e),
        Ok(v) => match with_spend(c, v) {
            Err(e) => Err(e),
            Ok(w) => children_collected(c, w, c.children@.len() as int),
        },
    }
}

/// Meters and spends with those of the first `n` nested collections.
pub open spec fn children_collected(c: MeteredCollection, before: MetersView, n: int) -> Result<
    MetersView,
    EngineErrorView,
>
    decreases c, 0int, n,
{
    if n <= 0 || n > c.children@.len() {
        Ok(before)
    } else {
        match children_collected(c, before, n - 1) {
            Err(e) => Err(e),
            Ok(v) => collected(c.children@[n - 1], v),
        }
    }
}

/// What a refused collection leaves: what was collected before the audit that failed.
pub open spec fn collected_left(c: MeteredCollection, before: MetersView) -> MetersView
    decreases c, 1int, 0int,
{
    match with_meters(c, before) {
        Err(_) => before,
        Ok(v) => match with_spend(c, v) {
            Err(_) => v,
            Ok(w) => children_left(c, w, c.children@.len() as int),
        },
    }
}

/// What a refusal among the first `n` nested collections leaves.
pub open spec fn children_left(c: MeteredCollection, before: MetersView, n: int) -> MetersView
    decreases c, 0int, n,
{
    if n <= 0 || n > c.children@.len() {
        before
    } else {
        match children_collected(c, before, n - 1) {
            Err(_) => children_left(c, before, n - 1),
            Ok(v) => collected_left(c.children@[n - 1], v),
        }
    }
}

proof fn lemma_collected_refusal(c: MeteredCollection, before: MetersView, n: int, m: int)
    requires
        0 <= n <= m <= c.children@.len(),
        children_collected(c, before, n) is Err,
    ensures
        children_collected(c, before, m) == children_collected(c, before, n),
        children_left(c, before, m) == children_left(c, before, n),
    decreases m - n,
{
    if n < m {
        lemma_collected_refusal(c, before, n, m - 1);
    }
}

fn add_meters(meters: Vec<Result<CompiledMeter, EngineError>>, out: &mut Vec<CompiledMeter>)
    ensures
        meter_views(final(out)@) == meter_views(old(out)@) + compiled_ones(meters@),
{
    let ghost start = meter_views(out@);
    let ghost all = meters@;
    let mut rest = meters;
    let mut i: usize = 0;
    let n: usize = rest.len();
    proof {
        assert(all.take(0) =~= Seq::<Result<CompiledMeter, EngineError>>::empty());
        assert(start + compiled_ones(all.take(0)) =~= start);
        assert(rest@ =~= all.skip(0));
    }
    while i < n
        invariant
            all == meters@,
            n == all.len(),
            i <= n,
            rest@ == all.skip(i as int),
            meter_views(out@) == start + compiled_ones(all.take(i as int)),
        decreases n - i,
    {
        let ghost before = meter_views(out@);
        let ghost earlier = compiled_ones(all.take(i as int));
        proof {
            assert(all.take(i + 1).drop_last() =~= all.take(i as int));
            assert(all.take(i + 1).last() == all[i as int]);
            assert(rest@[0] == all[i as int]);
        }
        let next = rest.remove(0);
        proof {
            assert(rest@ =~= all.skip(i + 1));
        }
        if let Ok(m) = next {
            let ghost shown = m@;
            out.push(m);
            proof {
                assert(meter_views(out@) =~= before.push(shown));
                assert(start + earlier.push(shown) =~= (start + earlier).push(shown));
            }
        }
        i = i + 1;
    }
    proof {
        assert(all.take(i as int) =~= all);
    }
}

/// Collect the meters and spends of a collection and of what is nested in it.
pub fn compile_at(c: MeteredCollection, out: &mut CompiledMeters) -> (r: Result<(), EngineError>)
    ensures
        match (r, collected(c, old(out)@)) {
            (Ok(_), Ok(v)) => final(out)@ == v,
            (Err(e), Err(x)) => e@ == x && final(out)@ == collected_left(c, old(out)@),
            _ => false,
        },
    decreases c,
{
    let ghost given = c;
    let ghost start = out@;
    match c.limits {
        None => {},
        Some((Err(e), _)) => {
            return Err(e);
        },
        Some((Ok(_), meters)) => {
            add_meters(meters, &mut out.meters);
        },
    }
    let ghost before = out@;
    match c.consumes {
        None => {},
        Some((Err(e), _)) => {
            return Err(e);
        },
        Some((Ok(_), Ok(spend))) => {
            out.spends.push(spend);
            proof {
                assert(out@.spends =~= before.spends.push(spend@));
            }
        },
        Some((Ok(_), Err(_))) => {},
    }
    let ghost with = out@;
    let ghost all = given.children@;
    let mut rest = c.children;
    let n: usize = rest.len();
    let mut i: usize = 0;
    proof {
        assert(rest@ =~= all.skip(0));
    }
    while i < n
        invariant
            given == c,
            start == old(out)@,
            all == given.children@,
            n == all.len(),
            i <= n,
            rest@ == all.skip(i as int),
            collected(given, start) == children_collected(given, with, n as int),
            collected_left(given, start) == children_left(given, with, n as int),
            children_collected(given, with, i as int) == Ok::<MetersView, EngineErrorView>(out@),
        decreases n - i,
    {
        proof {
            assert(rest@[0] == all[i as int]);
        }
        let child = rest.remove(0);
        proof {
            assert(rest@ =~= all.skip(i + 1));
            assert(child == given.children@[i as int]);
            assert(decreases_to!(c => c.children@[i as int]));
        }
        match compile_at(child, out) {
            Ok(_) => {},
            Err(e) => {
                proof {
                    lemma_collected_refusal(given, with, i + 1, n as int);
                }
                return Err(e);
            },
        }
        i = i + 1;
    }
    Ok(())
}

/// A spend that is funded keeps no more of its old funding: funding it again from the
/// same evaluation gives the same state.
pub proof fn law_refunding(
    state: StateView,
    meters: Seq<CompiledMeter>,
    at: Seq<StepView>,
    spend: CompiledSpend,
    eval: SpendEval,
    now: Timestamp,
)
    requires
        spend_funded(state, meters, at, spend, eval, now) is Ok,
    ensures
        spend_funded(spend_funded(state, meters, at, spend, eval, now)->Ok_0, meters, at, spend, eval, now) == spend_funded(
            state,
            meters,
            at,
            spend,
            eval,
            now,
        ),
{
    let after = spend_funded(state, meters, at, spend, eval, now)->Ok_0;
    assert(released(after, at) =~= released(state, at));
    assert(after.insert(at, released(after, at)) =~= state.insert(at, released(state, at)));
}

/// Funding a spend changes its row alone.
pub proof fn law_funding_local(
    state: StateView,
    meters: Seq<CompiledMeter>,
    at: Seq<StepView>,
    spend: CompiledSpend,
    eval: SpendEval,
    now: Timestamp,
    other: Seq<StepView>,
)
    requires
        spend_funded(state, meters, at, spend, eval, now) is Ok,
        other != at,
    ensures
        spend_funded(state, meters, at, spend, eval, now)->Ok_0.contains_key(other) == state.contains_key(other),
        state.contains_key(other) ==> spend_funded(state, meters, at, spend, eval, now)->Ok_0[other] == state[other],
{
}

/// The meters and spends of the first `n` top-level collections of a package.
pub open spec fn package_collected(collections: Seq<MeteredCollection>, n: int) -> Result<MetersView, EngineErrorView>
    decreases n,
{
    if n <= 0 {
        Ok(MetersView { meters: Seq::empty(), spends: Seq::empty() })
    } else {
        match package_collected(collections, n - 1) {
            Err(e) => Err(e),
            Ok(v) => collected(collections[n - 1], v),
        }
    }
}

proof fn lemma_package_refusal(collections: Seq<MeteredCollection>, n: int, m: int)
    requires
        n <= m,
        package_collected(collections, n) is Err,
    ensures
        package_collected(collections, m) == package_collected(collections, n),
    decreases m - n,
{
    if n < m {
        lemma_package_refusal(collections, n, m - 1);
    }
}

/// Collect the meters and spends of a package.
pub fn compile(collections: Vec<MeteredCollection>) -> (r: Result<CompiledMeters, EngineError>)
    ensures
        match (r, package_collected(collections@, collections@.len() as int)) {
            (Ok(m), Ok(v)) => m@ == v,
            (Err(e), Err(x)) => e@ == x,
            _ => false,
        },
{
    let ghost all = collections@;
    let mut rest = collections;
    let n: usize = rest.len();
    let mut out = CompiledMeters { meters: Vec::new(), spends: Vec::new() };
    let mut i: usize = 0;
    proof {
        assert(meter_views(out.meters@) =~= Seq::<MeterView>::empty());
        assert(spend_views(out.spends@) =~= Seq::<SpendView>::empty());
        assert(rest@ =~= all.skip(0));
    }
    while i < n
        invariant
            all == collections@,
            n == all.len(),
            i <= n,
            rest@ == all.skip(i as int),
            package_collected(all, i as int) == Ok::<MetersView, EngineErrorView>(out@),
        decreases n - i,
    {
        proof {
            assert(rest@[0] == all[i as int]);
        }
        let next = rest.remove(0);
        proof {
            assert(rest@ =~= all.skip(i + 1));
        }
        if let Err(e) = compile_at(next, &mut out) {
            proof {
                lemma_package_refusal(all, i + 1, n as int);
            }
            return Err(e);
        }
        i = i + 1;
    }
    Ok(out)
}

} // verus!
