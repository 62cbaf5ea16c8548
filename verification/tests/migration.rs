use liasse_runtime::address::{top_address, AddressStep, CollectionPath, KeyValue, RowAddress};
use liasse_runtime::captured::{CapturedRow, StateSection};
use liasse_runtime::cell::Cell;
use liasse_runtime::coerce::{coerce_and_require, rekey_coerced, DecodedRow};
use liasse_runtime::copy::{carry_state, map_members, CarryWork, RowWork, Shape};
use liasse_runtime::decimal::Decimal;
use liasse_runtime::doc::Doc;
use liasse_runtime::downgrade::downgrade_representable;
use liasse_runtime::funding::FUNDING_FIELD;
use liasse_runtime::integer::Integer;
use liasse_runtime::mapping::{apply_mapping, map_row, Transformed};
use liasse_runtime::meter::{CompiledSpend, ConsumeDecl};
use liasse_runtime::migrate::{build_migrated, report_paths, settle_rows, MeteringWork, MigrationWork, ProgramWork};
use liasse_runtime::model::{Compiled, CompiledCollection, CompiledField};
use liasse_runtime::plan::{downgrade_plan, CollectionMigration, FieldMigration, MigrationPlan};
use liasse_runtime::program::CollectionLoc;
use liasse_runtime::rejection::{Rejection, RejectionReason};
use liasse_runtime::run::Step;
use liasse_runtime::seed_merge::SeedMerge;
use liasse_runtime::spending::{CompiledMeters, ConsumeEval, SpendEval};
use liasse_runtime::state::{same_fields, Fields, Prospective};
use liasse_runtime::table::Table;
use liasse_runtime::time::{Precision, Timestamp};
use liasse_runtime::update::{
    apply_update, finish_update, prepare_update, Decision, EngineError, Preparation, Release, UpdateBasis, UpdateError,
    UpdateRelation,
};
use liasse_runtime::value::{copy_value, same_value, Value};
use liasse_runtime::version::Version;

fn integer(n: i128) -> Value {
    Value::Int(Integer::of(n))
}

fn text(s: &str) -> Value {
    Value::Text(s.to_string())
}

fn texts(items: &[&str]) -> Vec<String> {
    items.iter().map(|s| s.to_string()).collect()
}

fn fields(items: &[(&str, Value)]) -> Fields {
    let mut f: Fields = Table::new();
    for (name, value) in items {
        f.insert(name.to_string(), copy_value(value));
    }
    f
}

fn field(name: &str, required: bool) -> CompiledField {
    CompiledField {
        name: name.to_string(),
        required,
        set_valued: false,
        enumerated: false,
        reference: None,
        element_reference: None,
    }
}

fn notes(names: &[&str]) -> Compiled {
    Compiled {
        collections: vec![CompiledCollection {
            name: "notes".to_string(),
            key: texts(&["id"]),
            fields: names.iter().map(|n| field(n, *n == "id")).collect(),
            structs: Vec::new(),
            children: Vec::new(),
        }],
    }
}

fn shape(names: &[&str]) -> Shape {
    Shape { compiled: notes(names), members: Vec::new() }
}

fn at(id: &str) -> RowAddress {
    top_address("notes", KeyValue::single(text(id)))
}

fn reserved() -> RowAddress {
    top_address("$root", KeyValue::single(text("root")))
}

fn untouched() -> Transformed {
    Transformed { transformed: Ok(Value::Absent), restored: Ok(Value::Absent) }
}

fn captured(rows: Vec<Fields>) -> StateSection {
    StateSection {
        collections: vec![(
            "notes".to_string(),
            rows.into_iter().map(|fields| CapturedRow { fields, children: Vec::new() }).collect(),
        )],
        singleton: None,
    }
}

fn no_plan() -> MigrationPlan {
    MigrationPlan { collections: Vec::new(), singleton_fields: Table::new() }
}

fn renames(to: &str, from: &str) -> MigrationPlan {
    let mut table: Table<String, FieldMigration> = Table::new();
    table.insert(to.to_string(), FieldMigration { from: from.to_string(), transform: None, back: None });
    MigrationPlan {
        collections: vec![(
            "notes".to_string(),
            CollectionMigration { from: None, fields: table, children: Vec::new() },
        )],
        singleton_fields: Table::new(),
    }
}

fn carry(rows: usize, columns: usize) -> CarryWork {
    let one = || RowWork {
        transforms: (0..columns).map(|_| untouched()).collect(),
        writes: Vec::new(),
        children: Vec::new(),
    };
    CarryWork {
        collections: vec![(0..rows).map(|_| one()).collect()],
        singleton: Vec::new(),
        singleton_writes: Vec::new(),
    }
}

fn doc(items: Vec<(&str, Doc)>) -> Doc {
    Doc::Object(items.into_iter().map(|(n, d)| (n.to_string(), d)).collect())
}

fn word(s: &str) -> Doc {
    Doc::Text(s.to_string())
}

#[test]
fn a_plan_is_read_from_a_definition() {
    let definition = doc(vec![(
        "$model",
        doc(vec![
            (
                "notes",
                doc(vec![
                    ("$key", word("id")),
                    ("$from", word("memos")),
                    ("label", doc(vec![("$from", word("title")), ("$as", word(".")), ("$back", word("."))])),
                    ("id", word("text")),
                ]),
            ),
            ("motto", doc(vec![("$from", word("slogan"))])),
            ("plain", doc(vec![("$key", word("id"))])),
        ]),
    )]);
    let plan = MigrationPlan::read(&definition);
    assert_eq!(plan.collections.len(), 1);
    let (name, notes) = &plan.collections[0];
    assert_eq!(name, "notes");
    assert_eq!(notes.from.as_deref(), Some("memos"));
    assert!(notes.declares_a_mapping());
    assert_eq!(notes.fields.get(&"label".to_string()).unwrap().from, "title");
    assert_eq!(plan.singleton_fields.get(&"motto".to_string()).unwrap().from, "slogan");
    assert!(!CollectionMigration::none().declares_a_mapping());
    assert!(MigrationPlan::read(&Doc::Other).collections.is_empty());
}

#[test]
fn a_downgrade_keeps_what_the_target_declares() {
    let model = |from: &str| {
        doc(vec![(
            "$model",
            doc(vec![(
                "notes",
                doc(vec![
                    ("$key", word("id")),
                    ("label", doc(vec![("$from", word(from)), ("$as", word("x")), ("$back", word("y"))])),
                ]),
            )]),
        )])
    };
    let plan = downgrade_plan(&model("title"), &model("name"));
    let (_, notes) = plan.collections.iter().find(|(n, _)| n == "notes").unwrap();
    assert_eq!(notes.fields.get(&"label".to_string()).unwrap().from, "name");
}

#[test]
fn a_downgrade_inverts_nested_mappings() {
    let model = |heading: Doc| {
        let pages = doc(vec![("$key", word("no")), ("heading", heading)]);
        doc(vec![("$model", doc(vec![("notes", doc(vec![("$key", word("id")), ("pages", pages)]))]))])
    };
    let active = model(doc(vec![("$from", word("caption")), ("$as", word("up(.)")), ("$back", word("down(.)"))]));
    let plan = downgrade_plan(&active, &model(word("text")));
    let (_, notes) = plan.collections.iter().find(|(n, _)| n == "notes").unwrap();
    let (_, pages) = notes.children.iter().find(|(n, _)| n == "pages").unwrap();
    let back = pages.fields.get(&"caption".to_string()).unwrap();
    assert_eq!(back.from, "heading");
    assert_eq!(back.transform.as_deref(), Some("down(.)"));
}

#[test]
fn a_mapping_copies_transforms_and_checks_its_inverse() {
    let plain = FieldMigration { from: "a".to_string(), transform: None, back: None };
    assert!(same_value(&apply_mapping(&plain, &text("x"), &untouched()).unwrap(), &text("x")));
    let both = FieldMigration { from: "a".to_string(), transform: Some("f".to_string()), back: Some("g".to_string()) };
    let good = Transformed { transformed: Ok(text("X")), restored: Ok(text("x")) };
    assert!(same_value(&apply_mapping(&both, &text("x"), &good).unwrap(), &text("X")));
    let lossy = Transformed { transformed: Ok(text("X")), restored: Ok(text("z")) };
    let refused = apply_mapping(&both, &text("x"), &lossy).unwrap_err();
    assert_eq!(refused.reason, RejectionReason::Check);
    assert_eq!(refused.message, "reversible transform round trip `$back($as(x)) == x` failed");
}

#[test]
fn a_row_is_mapped_by_declaration_and_by_name() {
    let target = notes(&["id", "label"]);
    let source = notes(&["id", "title"]);
    let plan = renames("label", "title");
    let row = map_row(
        &target.collections[0],
        Some(&plan.collections[0].1),
        &fields(&[("id", text("n")), ("title", text("T"))]),
        Some(&source.collections[0]),
        &vec![untouched(), untouched()],
    )
    .ok()
    .unwrap();
    assert!(same_fields(&row, &fields(&[("id", text("n")), ("label", text("T"))])));
    let wrong = renames("label", "nothing");
    let refused = map_row(
        &target.collections[0],
        Some(&wrong.collections[0].1),
        &fields(&[("id", text("n"))]),
        Some(&source.collections[0]),
        &vec![untouched(), untouched()],
    )
    .err()
    .unwrap();
    assert_eq!(
        refused.message,
        "migration `$from: \"nothing\"` for `label` names no field of source collection `notes`",
    );
    let members = map_members(
        &texts(&["motto"]),
        &Table::new(),
        &fields(&[("motto", text("m"))]),
        &texts(&["motto"]),
        &vec![untouched()],
    )
    .ok()
    .unwrap();
    assert!(same_fields(&members, &fields(&[("motto", text("m"))])));
}

#[test]
fn every_captured_row_is_carried_over() {
    let state = captured(vec![fields(&[("id", text("a"))]), fields(&[("id", text("b"))])]);
    let carried =
        carry_state(&shape(&["id"]), &state, &shape(&["id"]), &no_plan(), &carry(2, 1), &reserved()).ok().unwrap();
    assert!(carried.prospective.contains(&at("a")));
    assert!(carried.prospective.contains(&at("b")));
    assert!(carried.migrated.is_empty());
    let state = captured(vec![fields(&[("id", text("a")), ("title", text("T"))])]);
    let mapped = carry_state(
        &shape(&["id", "title"]),
        &state,
        &shape(&["id", "label"]),
        &renames("label", "title"),
        &carry(1, 2),
        &reserved(),
    )
    .ok()
    .unwrap();
    assert_eq!(mapped.migrated.len(), 1);
    assert!(same_fields(
        mapped.prospective.get(&at("a")).unwrap(),
        &fields(&[("id", text("a")), ("label", text("T"))]),
    ));
}

#[test]
fn two_rows_on_one_key_are_refused() {
    let state = captured(vec![fields(&[("id", text("a"))]), fields(&[("id", text("a"))])]);
    let refused =
        carry_state(&shape(&["id"]), &state, &shape(&["id"]), &no_plan(), &carry(2, 1), &reserved()).err().unwrap();
    assert_eq!(refused.reason, RejectionReason::DuplicateKey);
}

#[test]
fn a_migrated_row_holds_its_required_fields() {
    let compiled = notes(&["id", "label"]);
    let mut state = Prospective::empty();
    state.insert(at("a"), fields(&[("id", text("a")), ("label", integer(3))]));
    let read = DecodedRow { fields: vec![Ok(text("a")), Ok(text("three"))], structs: Vec::new() };
    coerce_and_require(&compiled, &mut state, &at("a"), &read).unwrap();
    assert!(same_value(state.get(&at("a")).unwrap().get(&"label".to_string()).unwrap(), &text("three")));
    let mut empty = Prospective::empty();
    empty.insert(at("a"), fields(&[("label", text("x"))]));
    let refused = coerce_and_require(
        &compiled,
        &mut empty,
        &at("a"),
        &DecodedRow { fields: vec![Ok(Value::Absent), Ok(text("x"))], structs: Vec::new() },
    )
    .unwrap_err();
    assert!(refused.message.contains("id"));
    let mut unreadable = Prospective::empty();
    unreadable.insert(at("a"), fields(&[("id", text("a")), ("label", text("x"))]));
    let torn = DecodedRow { fields: vec![Ok(text("a")), Err("no reading".to_string())], structs: Vec::new() };
    let refused = coerce_and_require(&compiled, &mut unreadable, &at("a"), &torn).unwrap_err();
    assert_eq!(refused.reason, RejectionReason::TypeError);
    assert!(refused.message.ends_with("no reading"));
}

#[test]
fn a_coerced_key_moves_its_row() {
    let compiled = notes(&["id"]);
    let mut state = Prospective::empty();
    state.insert(at("a"), fields(&[("id", text("b"))]));
    let moved = rekey_coerced(&compiled, &mut state, vec![at("a")]).unwrap();
    assert_eq!(moved.len(), 1);
    assert!(moved[0].same(&at("b")));
    assert!(state.contains(&at("b")));
    assert!(!state.contains(&at("a")));
    let mut two = Prospective::empty();
    two.insert(at("a"), fields(&[("id", text("c"))]));
    two.insert(at("b"), fields(&[("id", text("c"))]));
    assert_eq!(
        rekey_coerced(&compiled, &mut two, vec![at("a"), at("b")]).unwrap_err().reason,
        RejectionReason::DuplicateKey,
    );
    assert!(two.contains(&at("a")) && two.contains(&at("b")));
}

#[test]
fn references_follow_rows_that_change_keys() {
    let mut compiled = notes(&["id"]);
    let mut about = field("about", false);
    about.reference = Some("notes".to_string());
    let mut page = field("page", false);
    page.reference = Some("notes/pages".to_string());
    compiled.collections[0].children = vec![CompiledCollection {
        name: "pages".to_string(),
        key: texts(&["no"]),
        fields: vec![field("no", true)],
        structs: Vec::new(),
        children: Vec::new(),
    }];
    compiled.collections[0].fields.push(about);
    compiled.collections[0].fields.push(page);
    let points = |v: Value| Value::Ref(Box::new(v));
    let mut state = Prospective::empty();
    state.insert(at("a"), fields(&[("id", text("b")), ("about", points(text("a")))]));
    state.insert(at("b"), fields(&[("id", text("a")), ("about", points(text("a")))]));
    let page_at = |id: &str, no: &str| {
        RowAddress::nested(at(id).steps(), AddressStep { name: "pages".to_string(), key: KeyValue::single(text(no)) })
    };
    state.insert(page_at("b", "1"), fields(&[("no", text("2"))]));
    let moved = rekey_coerced(&compiled, &mut state, vec![at("a"), at("b"), page_at("b", "1")]).unwrap();
    assert!(moved[0].same(&at("b")) && moved[1].same(&at("a")) && moved[2].same(&page_at("a", "2")));
    for id in ["a", "b"] {
        let row = state.get(&at(id)).unwrap();
        assert!(same_value(row.get(&"about".to_string()).unwrap(), &points(text("b"))));
    }
}

#[test]
fn settled_rows_stand_where_their_keys_put_them() {
    let compiled = notes(&["id"]);
    let mut state = Prospective::empty();
    state.insert(at("a"), fields(&[("id", text("a"))]));
    let decoded = vec![DecodedRow { fields: vec![Ok(text("z"))], structs: Vec::new() }];
    let settled = settle_rows(&compiled, &mut state, &decoded).unwrap();
    assert!(settled[0].same(&at("z")));
    assert!(state.contains(&at("z")));
}

#[test]
fn only_rows_that_remain_are_reported() {
    let mut rows: Table<RowAddress, Fields> = Table::new();
    rows.insert(at("a"), fields(&[]));
    let reported = report_paths(&vec![at("a"), at("gone"), at("a")], &rows);
    assert_eq!(reported.len(), 1);
    assert!(reported[0].same(&at("a")));
}

#[test]
fn a_downgrade_loses_no_populated_value() {
    let active = notes(&["id", "extra"]);
    let target = notes(&["id"]);
    let none = Vec::new();
    let kept = captured(vec![fields(&[("id", text("a"))])]);
    assert!(downgrade_representable(&active, &none, &kept, &target, &none, &no_plan()).is_ok());
    let lost = captured(vec![fields(&[("id", text("a")), ("extra", text("x"))])]);
    let refused = downgrade_representable(&active, &none, &lost, &target, &none, &no_plan()).unwrap_err();
    assert_eq!(
        refused.message,
        "downgrade drops populated field `extra` of `notes`: the older shape cannot represent it and no declared downgrade transform preserves it",
    );
    assert!(downgrade_representable(&active, &none, &lost, &target, &none, &renames("id", "extra")).is_ok());
}

#[test]
fn a_seed_moves_only_what_was_not_edited() {
    let old_seed = fields(&[("x", text("1")), ("y", text("1"))]);
    let new_seed = fields(&[("x", text("2")), ("y", text("2"))]);
    let edited = fields(&[("x", text("1")), ("y", text("mine"))]);
    let m = SeedMerge { old_seed: &old_seed, new_seed: &new_seed, current: &edited }.merge();
    assert!(same_fields(&m, &fields(&[("x", text("2")), ("y", text("mine"))])));
    let untouched_row = SeedMerge { old_seed: &old_seed, new_seed: &new_seed, current: &old_seed }.merge();
    assert!(same_fields(&untouched_row, &new_seed));
    let unchanged = SeedMerge { old_seed: &old_seed, new_seed: &old_seed, current: &edited }.merge();
    assert!(same_fields(&unchanged, &edited));
}

fn work(rows: usize) -> MigrationWork {
    MigrationWork {
        carry: carry(rows, 1),
        programs: Vec::new(),
        decoded: (0..rows).map(|_| DecodedRow { fields: vec![Ok(text("a"))], structs: Vec::new() }).collect(),
        seed: None,
        bundle: None,
        admission: Ok(()),
        metering: unmetered(rows),
    }
}

fn unmetered(rows: usize) -> MeteringWork {
    MeteringWork {
        meters: CompiledMeters { meters: Vec::new(), spends: Vec::new() },
        checks: Vec::new(),
        evals: (0..rows).map(|_| no_spend()).collect(),
        now: Timestamp { count: 9, precision: Precision::Seconds },
    }
}

fn no_spend() -> SpendEval {
    SpendEval { readable: true, consumes: Vec::new() }
}

/// A step that inserts a note.
fn insert_step(id: &str) -> Step {
    Step::Insert(
        CollectionLoc { store_path: CollectionPath::top("notes".to_string()), decl: texts(&["notes"]) },
        Ok(fields(&[("id", text(id))])),
    )
}

#[test]
fn a_migration_program_and_a_seed_work_on_what_was_carried_over() {
    let state = || captured(vec![fields(&[("id", text("a"))])]);
    let mut w = work(1);
    w.programs = vec![
        ("0.9.0".to_string(), ProgramWork { parsed: vec![Ok(())], steps: vec![insert_step("z")] }),
        ("1.0.0".to_string(), ProgramWork { parsed: vec![Ok(())], steps: vec![insert_step("b")] }),
    ];
    w.decoded = ["a", "b"]
        .iter()
        .map(|id| DecodedRow { fields: vec![Ok(text(id))], structs: Vec::new() })
        .collect();
    w.seed = Some(Ok(vec![
        (at("b"), fields(&[("id", text("b")), ("extra", text("seed"))])),
        (at("c"), fields(&[("id", text("c"))])),
    ]));
    w.metering.evals = vec![no_spend(), no_spend(), no_spend()];
    let built = build_migrated(&shape(&["id"]), &state(), &shape(&["id"]), &no_plan(), w, &reserved(), "1.0.0").ok().unwrap();
    assert_eq!(built.rows.len(), 3);
    assert!(built.migrated.len() == 1 && built.migrated[0].same(&at("b")));
    assert!(built.seeded.len() == 1 && built.seeded[0].same(&at("c")));
    assert!(!built.rows.get(&at("b")).unwrap().contains(&"extra".to_string()));
    let mut twice = work(1);
    twice.programs =
        vec![("1.0.0".to_string(), ProgramWork { parsed: vec![Ok(())], steps: vec![insert_step("a")] })];
    let refused =
        build_migrated(&shape(&["id"]), &state(), &shape(&["id"]), &no_plan(), twice, &reserved(), "1.0.0").err().unwrap();
    assert_eq!(refused.message, "a row with this key already exists");
}

#[test]
fn a_migrated_spend_is_funded_anew() {
    let spend = CompiledSpend {
        path: texts(&["notes"]),
        consumes: vec![ConsumeDecl {
            meter: "credit".to_string(),
            amount: ".amount".to_string(),
            time: ".at".to_string(),
            metadata: Vec::new(),
        }],
    };
    let consumed = |amount: &str| SpendEval {
        readable: true,
        consumes: vec![ConsumeEval {
            amount: Ok(Cell::Scalar(Value::Decimal(Decimal::parse(amount).unwrap()))),
            time: Ok(Cell::Scalar(Value::Absent)),
            metadata: Vec::new(),
            levels: Vec::new(),
        }],
    };
    let metered = |amount: &str| {
        let mut w = work(1);
        w.metering.meters.spends.push(CompiledSpend {
            path: spend.path.clone(),
            consumes: vec![ConsumeDecl {
                meter: spend.consumes[0].meter.clone(),
                amount: spend.consumes[0].amount.clone(),
                time: spend.consumes[0].time.clone(),
                metadata: Vec::new(),
            }],
        });
        w.metering.evals = vec![consumed(amount)];
        w
    };
    let state = captured(vec![fields(&[("id", text("a"))])]);
    let built = build_migrated(&shape(&["id"]), &state, &shape(&["id"]), &no_plan(), metered("2"), &reserved(), "1.0.0");
    assert!(built.ok().unwrap().rows.get(&at("a")).unwrap().contains(&FUNDING_FIELD.to_string()));
    let refused = build_migrated(&shape(&["id"]), &state, &shape(&["id"]), &no_plan(), metered("-2"), &reserved(), "1.0.0");
    assert!(refused.err().unwrap().message.contains("MUST be non-negative for meter `credit`"));
}

#[test]
fn a_migration_is_built_and_admitted() {
    let state = captured(vec![fields(&[("id", text("a"))])]);
    let built =
        build_migrated(&shape(&["id"]), &state, &shape(&["id"]), &no_plan(), work(1), &reserved(), "1.0.0").ok().unwrap();
    assert!(built.rows.contains(&at("a")));
    assert!(built.migrated.is_empty());
    assert!(built.seeded.is_empty());
    let mut refused = work(1);
    refused.admission = Err(Rejection::new(RejectionReason::Check, "a check failed"));
    let state = captured(vec![fields(&[("id", text("a"))])]);
    let e = build_migrated(&shape(&["id"]), &state, &shape(&["id"]), &no_plan(), refused, &reserved(), "1.0.0").err().unwrap();
    assert_eq!(e.message, "a check failed");
    let mut failed = work(1);
    failed.programs =
        vec![("1.0.0".to_string(), ProgramWork { parsed: vec![Err("no program".to_string())], steps: Vec::new() })];
    let e = build_migrated(&shape(&["id"]), &state, &shape(&["id"]), &no_plan(), failed, &reserved(), "1.0.0").err().unwrap();
    assert_eq!(e.message, "migration statement: no program");
}

fn version(minor: u64) -> Version {
    Version { major: 1, minor, patch: 0 }
}

fn basis(head: u64) -> UpdateBasis {
    UpdateBasis {
        instance: "app".to_string(),
        package: "notes".to_string(),
        version: version(0),
        head,
        clock: Timestamp { count: 9, precision: Precision::Seconds },
    }
}

fn preparation(relation: UpdateRelation) -> Preparation {
    Preparation {
        basis: Ok(basis(4)),
        release: Ok(Release {
            name: "notes".to_string(),
            version: version(1),
            shape: shape(&["id"]),
            definition: Doc::Other,
            model: None,
        }),
        decision: Ok(Decision { relation, requires_non_narrowing: true }),
        narrowing: None,
        active: shape(&["id"]),
        active_definition: Ok(None),
        captured: Ok(captured(vec![fields(&[("id", text("a"))])])),
        source_root: Ok(()),
        work: work(1),
        rebind: Ok(()),
        policy: Ok(()),
        reserved: reserved(),
    }
}

#[test]
fn a_prepared_update_is_committed_where_it_was_computed() {
    let prepared = prepare_update(preparation(UpdateRelation::Minor)).ok().unwrap();
    assert_eq!(prepared.relation(), UpdateRelation::Minor);
    assert_eq!(prepared.basis().head(), 4);
    assert_eq!(prepared.basis().clock().count, 9);
    assert_eq!(prepared.target().name, "notes");
    assert!(prepared.migrated().is_empty());
    assert!(prepared.seeded().is_empty());
    assert!(prepared.reconciliation().is_clean());
    let request = apply_update(prepared, Ok(basis(4))).ok().unwrap();
    assert!(request.rows.contains(&at("a")));
    let report = finish_update(request, Ok(5)).ok().unwrap();
    assert_eq!(report.commit, 5);
}

#[test]
fn a_moved_instance_refuses_a_prepared_update() {
    let prepared = prepare_update(preparation(UpdateRelation::Minor)).ok().unwrap();
    let refused = apply_update(prepared, Ok(basis(5))).err().unwrap();
    assert!(matches!(&refused, UpdateError::Stale { prepared, current } if prepared.head == 4 && current.head == 5));
    assert!(refused.text().contains("at commit 4"));
    assert!(basis(4).same(&basis(4)));
    assert!(!basis(4).same(&basis(5)));
    assert_eq!(basis(4).text(), "instance `app` on `notes@1.0.0` at commit 4, clock 9");
}

#[test]
fn an_update_is_refused_before_it_is_built() {
    let unrelated = prepare_update(preparation(UpdateRelation::Unrelated)).err().unwrap();
    assert!(matches!(unrelated, UpdateError::Incompatible(m)
        if m == "`notes` is a different compatibility line than the active package"));
    let mut narrowed = preparation(UpdateRelation::Minor);
    narrowed.narrowing = Some("a view is gone".to_string());
    assert!(matches!(prepare_update(narrowed).err().unwrap(), UpdateError::Rejected(r)
        if r.message == "update narrows the boundary contract: a view is gone"));
    let mut unread = preparation(UpdateRelation::Minor);
    unread.basis = Err(EngineError::Store("down".to_string()));
    assert!(matches!(prepare_update(unread).err().unwrap(), UpdateError::Engine(EngineError::Store(_))));
    let mut gap = preparation(UpdateRelation::Minor);
    if let Ok(release) = &mut gap.release {
        release.version = version(9);
        release.model = Some(doc(vec![("$migrations", doc(vec![("1.5.0", doc(vec![]))]))]));
    }
    assert!(matches!(prepare_update(gap).err().unwrap(), UpdateError::Rejected(r)
        if r.message.starts_with("no connected single-hop delta path from the active `1.0.0` to the target `1.9.0`")));
    let mut unbound = preparation(UpdateRelation::Minor);
    unbound.rebind = Err(EngineError::Requirement("codec".to_string()));
    assert!(matches!(prepare_update(unbound).err().unwrap(), UpdateError::Engine(EngineError::Requirement(_))));
}
