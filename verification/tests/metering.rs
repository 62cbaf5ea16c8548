use liasse_runtime::address::{top_address, AddressStep, KeyValue, RowAddress};
use liasse_runtime::balance::{augment_row, graft, meter_cell, Extra};
use liasse_runtime::cell::{Cell, Row, RowId};
use liasse_runtime::decimal::Decimal;
use liasse_runtime::doc::Doc;
use liasse_runtime::funding::{allocated, decode, drain, encode, funding_cell, Entry, Pool, FUNDING_FIELD};
use liasse_runtime::integer::Integer;
use liasse_runtime::levels::{LevelRow, LevelWork};
use liasse_runtime::meter::{
    audit_limits_positions, compile_consumes, compile_limits, compile_meter, read_consumes, read_meter, CompiledMeter, CompiledSource,
    CompiledSpend, ConsumeDecl, ConsumeWork, MeterWork,
};
use liasse_runtime::order::Order;
use liasse_runtime::pools::{
    active_at, collect_intervals, decimal_of, eligible, resolve_pools, row_interval, sort_pools, spend_context_cell,
    with_pool_cells, Candidate, SourceWork,
};
use liasse_runtime::rejection::{Rejection, RejectionReason};
use liasse_runtime::row_types::{
    bounded_root, collect_spend_fields, old_root_type, pool_row_type, spend_binding_type, MemberType, SpendMember, SpendShape,
};
use liasse_runtime::spending::{
    compile, compile_at, enforce, enforcing_addresses, fund_spend, quantity_checks, reachable_levels, spend_time, CompiledMeters,
    ConsumeEval, MeteredCollection, SpendEval,
};
use liasse_runtime::state::{Fields, Prospective};
use liasse_runtime::table::Table;
use liasse_runtime::time::{Precision, Timestamp};
use liasse_runtime::update::EngineError;
use liasse_runtime::value::{copy_value, same_value, Value};

fn integer(n: i128) -> Value {
    Value::Int(Integer::of(n))
}

fn text(s: &str) -> Value {
    Value::Text(s.to_string())
}

fn texts(items: &[&str]) -> Vec<String> {
    items.iter().map(|s| s.to_string()).collect()
}

fn number(s: &str) -> Decimal {
    Decimal::parse(s).unwrap()
}

fn is(d: &Decimal, s: &str) -> bool {
    d.order(&number(s)) == Order::Same
}

fn at(count: i128) -> Timestamp {
    Timestamp { count, precision: Precision::Seconds }
}

fn fields(items: &[(&str, Value)]) -> Fields {
    let mut f: Fields = Table::new();
    for (name, value) in items {
        f.insert(name.to_string(), copy_value(value));
    }
    f
}

fn pool(key: &str, quantity: Option<&str>) -> Pool {
    Pool {
        source: "credits".to_string(),
        key: text(key),
        quantity: quantity.map(number),
        order_keys: Vec::new(),
    }
}

fn account(id: &str) -> RowAddress {
    top_address("accounts", KeyValue::single(text(id)))
}

fn spend_at(id: &str, n: &str) -> RowAddress {
    RowAddress::nested(
        account(id).steps(),
        AddressStep { name: "spends".to_string(), key: KeyValue::single(text(n)) },
    )
}

fn row(key: &str, cells: Vec<(&str, Cell)>) -> Row {
    Row {
        id: RowId { keys: vec![KeyValue::single(text(key))] },
        key: text(key),
        cells: cells.into_iter().map(|(n, c)| (n.to_string(), c)).collect(),
    }
}

fn word(s: &str) -> Doc {
    Doc::Text(s.to_string())
}

fn object(items: Vec<(&str, Doc)>) -> Doc {
    Doc::Object(items.into_iter().map(|(n, d)| (n.to_string(), d)).collect())
}

#[test]
fn a_drain_takes_from_the_pools_in_order() {
    let state = Prospective::empty();
    let mut entries: Vec<Entry> = Vec::new();
    drain(
        &state,
        "credit",
        "L",
        &vec![pool("a", Some("3")), pool("b", Some("10"))],
        &number("5.5"),
        &mut entries,
    )
    .unwrap();
    assert_eq!(entries.len(), 2);
    assert!(is(&entries[0].amount, "3"));
    assert!(is(&entries[1].amount, "2.5"));
    assert!(is(&entries[0].amount.plus(&entries[1].amount), "5.5"));
}

#[test]
fn a_drain_beyond_the_pools_takes_nothing() {
    let state = Prospective::empty();
    let mut entries: Vec<Entry> = Vec::new();
    let refused =
        drain(&state, "credit", "L", &vec![pool("a", Some("3"))], &number("3.1"), &mut entries).unwrap_err();
    assert_eq!(refused.reason, RejectionReason::Evaluation);
    assert_eq!(refused.message, "meter `credit` lacks eligible capacity for the spend");
    assert!(entries.is_empty());
}

#[test]
fn what_is_allocated_is_not_drained_again() {
    let mut state = Prospective::empty();
    let held = encode(&vec![Entry {
        level: "L".to_string(),
        source: "credits".to_string(),
        pool: text("a"),
        amount: number("2"),
    }]);
    state.insert(spend_at("x", "1"), fields(&[(FUNDING_FIELD, held)]));
    assert!(is(&allocated(&state, "L", "credits", &text("a")), "2"));
    assert!(is(&allocated(&state, "M", "credits", &text("a")), "0"));
    let mut entries: Vec<Entry> = Vec::new();
    assert!(drain(&state, "credit", "L", &vec![pool("a", Some("3"))], &number("2"), &mut entries).is_err());
    drain(&state, "credit", "L", &vec![pool("a", Some("3"))], &number("1"), &mut entries).unwrap();
    assert!(is(&entries[0].amount, "1"));
}

#[test]
fn funding_is_read_back() {
    let entries = vec![
        Entry { level: "L".to_string(), source: "s".to_string(), pool: text("a"), amount: number("1.5") },
        Entry { level: "M".to_string(), source: "s".to_string(), pool: text("b"), amount: number("2") },
    ];
    let f = fields(&[(FUNDING_FIELD, encode(&entries))]);
    let back = decode(&f);
    assert_eq!(back.len(), 2);
    assert!(back.iter().any(|e| e.level == "L" && is(&e.amount, "1.5")));
    assert!(back.iter().any(|e| e.level == "M" && same_value(&e.pool, &text("b"))));
    assert!(decode(&fields(&[])).is_empty());
    assert!(matches!(funding_cell(&f), Cell::Collection(rows) if rows.len() == 2));
}

#[test]
fn an_interval_holds_its_start_and_not_its_end() {
    let interval = (Some(at(10)), Some(at(20)));
    assert!(!active_at(interval, at(9)));
    assert!(active_at(interval, at(10)));
    assert!(active_at(interval, at(19)));
    assert!(!active_at(interval, at(20)));
    assert!(active_at((None, None), at(0)));
    let r = row("p", vec![("$from", Cell::Scalar(Value::Timestamp(at(10)))), ("$until", Cell::Scalar(Value::Absent))]);
    assert_eq!(row_interval(&r), (Some(at(10)), None));
    let parent = row("q", vec![("pools", Cell::Collection(vec![r]))]);
    let mut index = Vec::new();
    collect_intervals(&parent, &mut index);
    assert!(index.iter().any(|(_, i)| *i == (Some(at(10)), None)));
}

fn candidate(key: &str, quantity: &str, order: i128) -> Candidate {
    Candidate {
        row: row(key, vec![("$quantity", Cell::Scalar(Value::Decimal(number(quantity))))]),
        eligible: Ok(true),
        order_keys: Ok(vec![integer(order)]),
    }
}

#[test]
fn pools_are_resolved_in_their_order() {
    let source = SourceWork {
        label: "credits".to_string(),
        has_quantity: true,
        rows: Ok(vec![candidate("late", "1", 2), candidate("early", "1", 1)]),
    };
    let pools = resolve_pools("credit", &vec![source], &Vec::new(), at(0), &vec![false]).ok().unwrap();
    assert_eq!(pools.len(), 2);
    assert!(same_value(&pools[0].key, &text("early")));
    let turned = sort_pools(pools, &vec![true]);
    assert!(same_value(&turned[0].key, &text("late")));
}

#[test]
fn an_ineligible_or_inactive_pool_is_left_out() {
    let mut closed = candidate("closed", "1", 1);
    closed.eligible = Ok(false);
    let ended = candidate("ended", "1", 1);
    let index = vec![(RowId { keys: vec![KeyValue::single(text("ended"))] }, (None, Some(at(5))))];
    let source = SourceWork {
        label: "credits".to_string(),
        has_quantity: true,
        rows: Ok(vec![closed, ended, candidate("open", "1", 1)]),
    };
    let pools = resolve_pools("credit", &vec![source], &index, at(9), &vec![false]).ok().unwrap();
    assert_eq!(pools.len(), 1);
    assert!(same_value(&pools[0].key, &text("open")));
    let failed = SourceWork {
        label: "credits".to_string(),
        has_quantity: true,
        rows: Err(Rejection::new(RejectionReason::Evaluation, "no rows")),
    };
    assert_eq!(resolve_pools("credit", &vec![failed], &Vec::new(), at(0), &vec![]).err().unwrap().message, "no rows");
}

#[test]
fn eligibility_is_true_or_nothing() {
    assert!(eligible(&None).unwrap());
    assert!(eligible(&Some(Ok(Cell::Scalar(Value::Bool(true))))).unwrap());
    assert!(!eligible(&Some(Ok(Cell::Scalar(integer(1))))).unwrap());
    assert!(eligible(&Some(Err(Rejection::new(RejectionReason::Evaluation, "no")))).is_err());
}

#[test]
fn a_condition_sees_the_effective_spend() {
    let spend = row("s", vec![("amount", Cell::Scalar(integer(1))), ("$time", Cell::Scalar(text("raw")))]);
    let metadata = vec![
        ("kind".to_string(), Ok(Cell::Scalar(text("api")))),
        ("$time".to_string(), Ok(Cell::Scalar(text("claimed")))),
    ];
    let seen = spend_context_cell(&spend, &metadata, &number("4"), at(7)).ok().unwrap();
    assert!(matches!(seen.cell("$time").unwrap(), Cell::Scalar(Value::Timestamp(t)) if *t == at(7)));
    assert!(matches!(seen.cell("$amount").unwrap(), Cell::Scalar(Value::Decimal(d)) if is(d, "4")));
    assert!(matches!(seen.cell("kind").unwrap(), Cell::Scalar(v) if same_value(v, &text("api"))));
    let refused = vec![("kind".to_string(), Err(Rejection::new(RejectionReason::Evaluation, "no")))];
    assert!(spend_context_cell(&spend, &refused, &number("4"), at(7)).is_err());
    let shown = with_pool_cells(&row("p", vec![]), (None, Some(at(3))), &Some(number("2")));
    assert!(matches!(shown.cell("$from").unwrap(), Cell::Scalar(Value::Absent)));
    assert!(matches!(shown.cell("$until").unwrap(), Cell::Scalar(Value::Timestamp(t)) if *t == at(3)));
}

#[test]
fn a_quantity_is_a_number() {
    assert!(is(&decimal_of(&integer(3)).ok().unwrap(), "3"));
    assert!(is(&decimal_of(&Value::Decimal(number("1.5"))).ok().unwrap(), "1.5"));
    assert_eq!(decimal_of(&text("3")).err().unwrap().message, "meter quantity is not a number");
    assert_eq!(spend_time(&Cell::Scalar(Value::Timestamp(at(3))), at(9)), at(3));
    assert_eq!(spend_time(&Cell::Scalar(text("x")), at(9)), at(9));
}

fn meter_doc() -> Doc {
    object(vec![
        ("$sources", object(vec![("credits", word(".credits")), ("bonus", word(".bonus"))])),
        ("$eligible", word("pool.kind == spend.kind")),
        ("$order", Doc::List(vec![word(" -$until"), word("$from")])),
    ])
}

#[test]
fn a_meter_is_read_and_compiled() {
    let body = meter_doc();
    if let Doc::Object(members) = &body {
        let declared = read_meter(members);
        assert_eq!(declared.sources.len(), 2);
        assert_eq!(declared.order[0].text, "$until");
        assert!(declared.order[0].descending);
        assert!(!declared.order[1].descending);
    }
    let work = MeterWork { sources: vec![Ok(true), Ok(false)], eligible: Ok(()), order: vec![Ok(()), Ok(())] };
    let meter = compile_meter(&texts(&["accounts"]), "credit", &body, &work).ok().unwrap();
    assert_eq!(meter.name, "credit");
    assert_eq!(meter.sources.len(), 2);
    assert!(meter.limiting);
    let plain = compile_meter(
        &texts(&["accounts"]),
        "credit",
        &word("x"),
        &MeterWork { sources: vec![], eligible: Ok(()), order: vec![] },
    );
    assert!(matches!(plain.err().unwrap(), EngineError::Internal(m) if m == "meter `credit` is not an object"));
    let broken = MeterWork {
        sources: vec![Err(EngineError::Invalid("bad source".to_string())), Ok(false)],
        eligible: Ok(()),
        order: vec![Ok(()), Ok(())],
    };
    assert!(compile_meter(&texts(&["accounts"]), "credit", &body, &broken).is_err());
    assert_eq!(audit_limits_positions(&object(vec![("credit", meter_doc())])).len(), 5);
}

#[test]
fn the_consumed_meters_are_read() {
    let short = read_consumes(&word(" credit "));
    assert_eq!(short.len(), 1);
    assert_eq!(short[0].meter, "credit");
    assert_eq!(short[0].amount, ".amount");
    assert_eq!(short[0].time, ".occurred_at");
    let long = read_consumes(&object(vec![
        ("credit", word(".cost")),
        ("quota", object(vec![("$amount", word("1")), ("$time", word(".at")), ("kind", word(".kind"))])),
    ]));
    assert_eq!(long[0].amount, ".cost");
    assert_eq!(long[1].time, ".at");
    assert_eq!(long[1].metadata, vec![("kind".to_string(), ".kind".to_string())]);
    let work = vec![ConsumeWork { metadata: vec![], amount: Ok(()), time: Ok(()) }];
    let spend = compile_consumes(&texts(&["accounts", "spends"]), &word("credit"), &work).ok().unwrap();
    assert_eq!(spend.consumes.len(), 1);
}

fn meters() -> CompiledMeters {
    CompiledMeters {
        meters: vec![CompiledMeter {
            path: texts(&["accounts"]),
            name: "credit".to_string(),
            sources: vec![CompiledSource {
                label: "credits".to_string(),
                text: ".credits".to_string(),
                has_quantity: true,
            }],
            eligible: None,
            order: Vec::new(),
            limiting: true,
        }],
        spends: vec![CompiledSpend {
            path: texts(&["accounts", "spends"]),
            consumes: vec![ConsumeDecl {
                meter: "credit".to_string(),
                amount: ".amount".to_string(),
                time: ".occurred_at".to_string(),
                metadata: Vec::new(),
            }],
        }],
    }
}

/// A pool row that shows this capacity.
fn credit(key: &str, quantity: Option<&str>) -> Candidate {
    let cells = match quantity {
        Some(q) => vec![("$quantity", Cell::Scalar(Value::Decimal(number(q))))],
        None => vec![],
    };
    Candidate { row: row(key, cells), eligible: Ok(true), order_keys: Ok(Vec::new()) }
}

/// The level of account `x`, whose credits are these.
fn level(credits: Result<Vec<Candidate>, Rejection>) -> LevelWork {
    LevelWork {
        rendered: "/accounts/x".to_string(),
        row: Some(LevelRow {
            row: row("x", vec![]),
            derived: vec![(
                RowId { keys: vec![KeyValue::single(text("late"))] },
                (Some(at(100)), None),
            )],
            sources: vec![SourceWork { label: "credits".to_string(), has_quantity: true, rows: credits }],
        }),
    }
}

const LEVEL: &str = "/accounts/x\0credit";

fn eval(amount: &str, credits: Vec<Candidate>) -> SpendEval {
    SpendEval {
        readable: true,
        consumes: vec![ConsumeEval {
            amount: Ok(Cell::Scalar(Value::Decimal(number(amount)))),
            time: Ok(Cell::Scalar(Value::Absent)),
            metadata: Vec::new(),
            levels: vec![level(Ok(credits))],
        }],
    }
}

fn spends() -> Prospective {
    let mut state = Prospective::empty();
    state.insert(account("x"), fields(&[("id", text("x"))]));
    state.insert(spend_at("x", "1"), fields(&[("id", text("1"))]));
    state
}

#[test]
fn a_spend_is_funded_from_the_levels_above_it() {
    let meters = meters();
    let mut state = spends();
    let at_spend = spend_at("x", "1");
    assert_eq!(reachable_levels(&meters, &at_spend, "credit").len(), 1);
    assert!(reachable_levels(&meters, &at_spend, "other").is_empty());
    let spend = &meters.spends[0];
    fund_spend(&meters, &mut state, &at_spend, spend, &eval("2", vec![credit("a", Some("5"))]), at(50)).unwrap();
    assert!(is(&allocated(&state, LEVEL, "credits", &text("a")), "2"));
    fund_spend(&meters, &mut state, &at_spend, spend, &eval("3", vec![credit("a", Some("5"))]), at(50)).unwrap();
    assert!(is(&allocated(&state, LEVEL, "credits", &text("a")), "3"));
}

#[test]
fn a_spend_draws_from_the_pools_active_when_it_counts() {
    let meters = meters();
    let mut state = spends();
    let at_spend = spend_at("x", "1");
    let spend = &meters.spends[0];
    let late = || eval("2", vec![credit("late", Some("5"))]);
    let refused = fund_spend(&meters, &mut state, &at_spend, spend, &late(), at(50)).unwrap_err();
    assert!(refused.message.contains("meter `credit` lacks eligible capacity for the spend"));
    fund_spend(&meters, &mut state, &at_spend, spend, &late(), at(100)).unwrap();
    assert!(is(&allocated(&state, LEVEL, "credits", &text("late")), "2"));
    let mut dated = late();
    dated.consumes[0].time = Ok(Cell::Scalar(Value::Timestamp(at(120))));
    fund_spend(&meters, &mut state, &at_spend, spend, &dated, at(50)).unwrap();
    let mut unread = late();
    unread.consumes[0].levels[0].row = None;
    assert!(fund_spend(&meters, &mut state, &at_spend, spend, &unread, at(100)).is_err());
    let mut broken = late();
    broken.consumes[0].levels = vec![level(Err(Rejection::new(RejectionReason::Evaluation, "no source")))];
    let refused = fund_spend(&meters, &mut state, &at_spend, spend, &broken, at(100)).unwrap_err();
    assert_eq!(refused.message, "no source");
}

#[test]
fn an_admission_funds_every_touched_spend() {
    let meters = meters();
    let mut state = spends();
    enforce(
        &meters,
        &mut state,
        &vec![Ok(())],
        &vec![account("x"), spend_at("x", "1")],
        &vec![
            SpendEval { readable: true, consumes: Vec::new() },
            eval("2", vec![credit("a", Some("5"))]),
        ],
        at(50),
    )
    .unwrap();
    assert!(is(&allocated(&state, LEVEL, "credits", &text("a")), "2"));
    let refused = enforce(
        &meters,
        &mut state,
        &vec![Err(Rejection::new(RejectionReason::Check, "a pool is negative"))],
        &vec![],
        &vec![],
        at(50),
    )
    .unwrap_err();
    assert_eq!(refused.message, "a pool is negative");
    assert!(is(&allocated(&state, LEVEL, "credits", &text("a")), "2"));
    let lacking = enforce(
        &meters,
        &mut state,
        &vec![Ok(())],
        &vec![spend_at("x", "1")],
        &vec![eval("9", vec![credit("a", Some("5"))])],
        at(50),
    );
    assert!(lacking.is_err());
    assert!(is(&allocated(&state, LEVEL, "credits", &text("a")), "0"));
    assert_eq!(quantity_checks(&meters, &state).len(), 1);
    assert_eq!(enforcing_addresses(&state, &texts(&["accounts"])).len(), 1);
    assert!(meters.spend_at(&texts(&["accounts"])).is_none());
    assert!(meters.meter_at(&texts(&["accounts"]), "credit").is_some());
    assert_eq!(meters.meters[0].level_id("/accounts/x"), "/accounts/x\0credit");
}

#[test]
fn meters_are_compiled_down_the_tree() {
    let mut out = CompiledMeters { meters: Vec::new(), spends: Vec::new() };
    let meter = || CompiledMeter {
        path: texts(&["accounts"]),
        name: "credit".to_string(),
        sources: Vec::new(),
        eligible: None,
        order: Vec::new(),
        limiting: true,
    };
    let spends = MeteredCollection {
        limits: None,
        consumes: Some((
            Ok(()),
            Ok(CompiledSpend { path: texts(&["accounts", "spends"]), consumes: Vec::new() }),
        )),
        children: Vec::new(),
    };
    compile_at(
        MeteredCollection { limits: Some((Ok(()), vec![Ok(meter())])), consumes: None, children: vec![spends] },
        &mut out,
    )
    .unwrap();
    assert_eq!(out.meters.len(), 1);
    assert_eq!(out.spends.len(), 1);
    let refused = MeteredCollection {
        limits: Some((Err(EngineError::Invalid("a host call in a limit".to_string())), Vec::new())),
        consumes: None,
        children: Vec::new(),
    };
    assert!(compile_at(refused, &mut out).is_err());
    assert_eq!(out.meters.len(), 1);
    assert_eq!(out.spends.len(), 1);
    let half = MeteredCollection {
        limits: Some((Ok(()), vec![Ok(meter())])),
        consumes: Some((
            Err(EngineError::Invalid("a host call in a spend".to_string())),
            Ok(CompiledSpend { path: texts(&["accounts", "spends"]), consumes: Vec::new() }),
        )),
        children: Vec::new(),
    };
    assert!(compile_at(half, &mut out).is_err());
    assert_eq!(out.meters.len(), 2);
    assert_eq!(out.spends.len(), 1);
}

#[test]
fn a_balance_is_what_is_left() {
    let mut state = Prospective::empty();
    let held = encode(&vec![Entry {
        level: LEVEL.to_string(),
        source: "credits".to_string(),
        pool: text("a"),
        amount: number("9"),
    }]);
    state.insert(spend_at("x", "1"), fields(&[(FUNDING_FIELD, held)]));
    let work = level(Ok(vec![credit("a", Some("5")), credit("b", Some("2")), credit("c", None)]));
    match meter_cell(&state, &meters().meters[0], &work, at(50)) {
        Cell::Row(r) => {
            assert!(matches!(r.cell("balance").unwrap(), Cell::Scalar(Value::Decimal(d)) if is(d, "2")));
            assert!(matches!(r.cell("pools").unwrap(), Cell::Collection(rows) if rows.len() == 2));
        }
        _ => panic!("a meter is shown as a row"),
    }
}

#[test]
fn a_shown_row_carries_its_meters() {
    let meters = meters();
    let state = spends();
    let shown = augment_row(
        &meters,
        &state,
        &account("x"),
        &row("x", vec![]),
        &vec![level(Ok(vec![credit("a", Some("5"))]))],
        at(50),
    );
    assert!(shown.cell("credit").is_some());
    let extra = Extra {
        id: RowId { keys: vec![KeyValue::single(text("x"))] },
        name: "note".to_string(),
        cell: Cell::Scalar(text("n")),
    };
    let root = row("root", vec![("accounts", Cell::Collection(vec![row("x", vec![])]))]);
    let grafted = graft(&root, &vec![extra]);
    match grafted.cell("accounts").unwrap() {
        Cell::Collection(rows) => assert!(rows[0].cell("note").is_some()),
        _ => panic!("a collection stays a collection"),
    }
}

#[test]
fn the_meters_of_a_limit_are_compiled_in_order() {
    let work = || MeterWork { sources: vec![Ok(true), Ok(false)], eligible: Ok(()), order: vec![Ok(()), Ok(())] };
    let broken = MeterWork {
        sources: vec![Err(EngineError::Invalid("bad source".to_string())), Ok(false)],
        eligible: Ok(()),
        order: vec![Ok(()), Ok(())],
    };
    let limits = object(vec![("credit", meter_doc()), ("broken", meter_doc()), ("quota", meter_doc())]);
    let meters = compile_limits(&texts(&["accounts"]), &limits, &vec![work(), broken, work()]);
    let names: Vec<&str> = meters.iter().map(|m| m.name.as_str()).collect();
    assert_eq!(names, vec!["credit", "quota"]);
    assert!(compile_limits(&texts(&["accounts"]), &word("none"), &Vec::new()).is_empty());
}

#[test]
fn a_package_collects_the_meters_of_its_collections() {
    let spend = |name: &str| MeteredCollection {
        limits: None,
        consumes: Some((Ok(()), Ok(CompiledSpend { path: texts(&[name]), consumes: Vec::new() }))),
        children: Vec::new(),
    };
    let found = compile(vec![spend("orders"), spend("calls")]).ok().unwrap();
    assert_eq!(found.spends.len(), 2);
    assert_eq!(found.spends[1].path, texts(&["calls"]));
    assert!(found.meters.is_empty());
    let refused = MeteredCollection {
        limits: None,
        consumes: Some((
            Err(EngineError::Invalid("a host call in an amount".to_string())),
            Ok(CompiledSpend { path: texts(&["calls"]), consumes: Vec::new() }),
        )),
        children: Vec::new(),
    };
    assert!(matches!(
        compile(vec![spend("orders"), refused]).err().unwrap(),
        EngineError::Invalid(m) if m == "a host call in an amount"
    ));
}

#[test]
fn a_pool_has_one_member_of_a_name() {
    let named = |name: &str, ty: &str| (name.to_string(), MemberType::Other(ty.to_string()));
    let sources = vec![
        Some(vec![named("tier", "text"), named("$quantity", "int")]),
        None,
        Some(vec![named("tier", "int"), named("region", "text")]),
    ];
    let pool = pool_row_type(&sources);
    assert_eq!(
        format!("{:?}", pool),
        "[(\"tier\", Other(\"text\")), (\"$quantity\", Other(\"int\")), (\"region\", Other(\"text\")), \
         (\"$from\", Instant), (\"$until\", Instant)]",
    );
    assert_eq!(
        format!("{:?}", pool_row_type(&Vec::new())),
        "[(\"$quantity\", Decimal), (\"$from\", Instant), (\"$until\", Instant)]",
    );
}

#[test]
fn a_spend_has_the_scalars_of_every_spending_collection() {
    let scalar = |name: &str, ty: &str| (name.to_string(), SpendMember::Scalar(ty.to_string()));
    let calls = SpendShape { consumes: true, members: vec![scalar("amount", "decimal"), scalar("kind", "text")] };
    let notes = SpendShape { consumes: false, members: vec![scalar("body", "text")] };
    let account = SpendShape {
        consumes: true,
        members: vec![
            ("calls".to_string(), SpendMember::Collection(calls)),
            scalar("amount", "int"),
            ("notes".to_string(), SpendMember::Collection(notes)),
            ("other".to_string(), SpendMember::Other),
        ],
    };
    assert_eq!(
        format!("{:?}", spend_binding_type(Some(&account))),
        "[(\"amount\", Other(\"int\")), (\"kind\", Other(\"text\"))]",
    );
    assert!(spend_binding_type(None).is_empty());
    let mut fields = vec![("kind".to_string(), MemberType::Decimal)];
    collect_spend_fields(&account, &mut fields);
    assert_eq!(format!("{:?}", fields), "[(\"kind\", Decimal), (\"amount\", Other(\"int\"))]");
}

#[test]
fn the_roots_expressions_read_are_typed() {
    let view = |name: &str, unbounded: bool| {
        (name.to_string(), MemberType::View { row: "{day}".to_string(), unbounded })
    };
    let root = vec![view("days", true), view("weeks", false), ("label".to_string(), MemberType::Decimal)];
    assert_eq!(
        format!("{:?}", bounded_root(&root)),
        "[(\"days\", View { row: \"{day}\", unbounded: false }), (\"weeks\", View { row: \"{day}\", unbounded: false }), \
         (\"label\", Decimal)]",
    );
    let shown = vec![
        ("label".to_string(), MemberType::Other("text".to_string())),
        ("label".to_string(), MemberType::Other("int".to_string())),
        ("gone".to_string(), MemberType::Decimal),
    ];
    assert_eq!(
        format!("{:?}", old_root_type(&vec![("label".to_string(), MemberType::Decimal), view("days", true)], &shown)),
        "[(\"label\", Other(\"int\")), (\"days\", View { row: \"{day}\", unbounded: true })]",
    );
}
