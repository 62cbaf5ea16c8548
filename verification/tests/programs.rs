use liasse_runtime::address::{top_address, AddressStep, CollectionPath, KeyValue, RowAddress};
use liasse_runtime::calls::{
    call_depth, eval_cose_call, exec_assert, internal_args, CompiledMutation, Parameter, SuppliedArg, MAX_CALL_DEPTH,
};
use liasse_runtime::cell::{Cell, Row, RowId};
use liasse_runtime::deletion::{
    bind_deleted, delete_key_values, distinct_keys, thin_fields, DeletedRow, PatchedRow, PlannedDeletion, ThinnedRow,
};
use liasse_runtime::erasure::{occurrence_id, Extracts};
use liasse_runtime::execution::{
    assign_value, exec, host_arguments, patch_value, scalar_value, selection_key_values, struct_value, AssignStep, Fit,
    InsertForm, PatchBase, PatchPlan, Statement, StatementForm, StructMember,
};
use liasse_runtime::integer::Integer;
use liasse_runtime::generation::Generation;
use liasse_runtime::interp::{row_fields, source_rows, RowRef, SourceUse};
use liasse_runtime::locals::{local_bindings, LocalBind};
use liasse_runtime::materialize::{fields_of, struct_of, MemberDecl, Moment, Read, ShapeDecl};
use liasse_runtime::model::{Compiled, CompiledCollection, CompiledField};
use liasse_runtime::order::Duplicate;
use liasse_runtime::outcome::CallOutcome;
use liasse_runtime::program::{CollectionLoc, Interp, RowTarget};
use liasse_runtime::rejection::{Rejection, RejectionReason};
use liasse_runtime::run::{run_program, Step};
use liasse_runtime::state::{same_fields, Fields, Prospective};
use liasse_runtime::statements::{set_mutate, set_operands};
use liasse_runtime::syntax::{
    assert_message, bind_local, exec_bare, host_call, insert_members, internal_call_target, keyring_ref, patch_member, Arg, BareStatement,
    BindingForm, Expr, Member,
};
use liasse_runtime::table::Table;
use liasse_runtime::target::{key_from_value, AssignTarget, Place};
use liasse_runtime::value::{copy_value, same_value, Value};

fn integer(n: i128) -> Value {
    Value::Int(Integer::of(n))
}

fn text(s: &str) -> Value {
    Value::Text(s.to_string())
}

fn texts(items: &[&str]) -> Vec<String> {
    items.iter().map(|s| s.to_string()).collect()
}

fn shown<T: std::fmt::Debug>(t: &T) -> String {
    format!("{:?}", t)
}

fn fields(items: &[(&str, Value)]) -> Fields {
    let mut f: Fields = Table::new();
    for (name, value) in items {
        f.insert(name.to_string(), copy_value(value));
    }
    f
}

fn field(name: &str) -> CompiledField {
    CompiledField {
        name: name.to_string(),
        required: false,
        set_valued: false,
        enumerated: false,
        reference: None,
        element_reference: None,
    }
}

/// Companies with nested offices, people who work at one company and follow several,
/// and regions with a key of two fields.
fn package() -> Compiled {
    let mut employer = field("employer");
    employer.reference = Some("companies".to_string());
    let mut follows = field("follows");
    follows.set_valued = true;
    follows.element_reference = Some("companies".to_string());
    let offices = CompiledCollection {
        name: "offices".to_string(),
        key: texts(&["city"]),
        fields: vec![field("city"), field("seats")],
        structs: Vec::new(),
        children: Vec::new(),
    };
    Compiled {
        collections: vec![
            CompiledCollection {
                name: "companies".to_string(),
                key: texts(&["id"]),
                fields: vec![field("id"), field("label")],
                structs: Vec::new(),
                children: vec![offices],
            },
            CompiledCollection {
                name: "people".to_string(),
                key: texts(&["id"]),
                fields: vec![field("id"), employer, follows],
                structs: Vec::new(),
                children: Vec::new(),
            },
            CompiledCollection {
                name: "regions".to_string(),
                key: texts(&["zone", "code"]),
                fields: vec![field("zone"), field("code")],
                structs: Vec::new(),
                children: Vec::new(),
            },
        ],
    }
}

fn company(id: &str) -> RowAddress {
    top_address("companies", KeyValue::single(text(id)))
}

fn person(id: &str) -> RowAddress {
    top_address("people", KeyValue::single(text(id)))
}

fn office(id: &str, city: &str) -> RowAddress {
    RowAddress::nested(
        company(id).steps(),
        AddressStep { name: "offices".to_string(), key: KeyValue::single(text(city)) },
    )
}

fn populated() -> Prospective {
    let mut state = Prospective::empty();
    state.insert(company("acme"), fields(&[("id", text("acme")), ("label", text("Acme"))]));
    state.insert(company("zeta"), fields(&[("id", text("zeta"))]));
    state.insert(office("acme", "paris"), fields(&[("city", text("paris"))]));
    state.insert(
        person("ada"),
        fields(&[
            ("id", text("ada")),
            ("employer", Value::Ref(Box::new(text("acme")))),
            (
                "follows",
                Value::Members(vec![Value::Ref(Box::new(text("acme"))), Value::Ref(Box::new(text("zeta")))]),
            ),
        ]),
    );
    state
}

fn program<'a>(compiled: &'a Compiled, receiver: Option<RowTarget>) -> Interp<'a> {
    Interp { compiled, prospective: populated(), receiver, touched: Vec::new(), extracts: Vec::new() }
}

fn companies_loc() -> CollectionLoc {
    CollectionLoc { store_path: CollectionPath::top("companies".to_string()), decl: texts(&["companies"]) }
}

fn offices_loc(id: &str) -> CollectionLoc {
    CollectionLoc {
        store_path: CollectionPath::nested(&company(id), "offices".to_string()),
        decl: texts(&["companies", "offices"]),
    }
}

fn row(key: &str) -> Row {
    Row {
        id: RowId { keys: vec![KeyValue::single(text(key))] },
        key: text(key),
        cells: vec![("id".to_string(), Cell::Scalar(text(key)))],
    }
}

fn bad(reason: RejectionReason, message: &str) -> Rejection {
    Rejection::new(reason, message)
}

fn member(base: Place, name: &str) -> Place {
    Place::Member(Box::new(base), name.to_string())
}

fn keyed(base: Place, key: Value) -> Place {
    Place::Keyed(Box::new(base), Some(Ok(key)))
}

#[test]
fn a_rekey_takes_the_subtree_and_the_references_along() {
    let compiled = package();
    let mut p = program(&compiled, Some(RowTarget { address: company("acme"), path: texts(&["companies"]) }));
    p.place(&company("acme"), &texts(&["companies"]), fields(&[("id", text("apex")), ("label", text("Apex"))])).unwrap();
    assert!(!p.prospective.contains(&company("acme")));
    assert!(!p.prospective.contains(&office("acme", "paris")));
    assert!(p.prospective.contains(&company("apex")));
    assert!(p.prospective.contains(&office("apex", "paris")));
    assert!(p.receiver.as_ref().unwrap().address.same(&company("apex")));
    let ada = p.prospective.get(&person("ada")).unwrap();
    assert!(same_value(ada.get(&"employer".to_string()).unwrap(), &Value::Ref(Box::new(text("apex")))));
    assert!(same_value(
        ada.get(&"follows".to_string()).unwrap(),
        &Value::Members(vec![Value::Ref(Box::new(text("apex"))), Value::Ref(Box::new(text("zeta")))]),
    ));
    assert!(p.touched.iter().any(|a| a.same(&person("ada"))));
    assert!(p.touched.iter().any(|a| a.same(&company("apex"))));
}

#[test]
fn a_rekey_onto_a_held_key_is_refused() {
    let compiled = package();
    let mut p = program(&compiled, None);
    let refused =
        p.place(&company("acme"), &texts(&["companies"]), fields(&[("id", text("zeta"))])).unwrap_err();
    assert_eq!(refused.reason, RejectionReason::DuplicateKey);
    assert_eq!(refused.message, "rekey target already exists");
    assert!(refused.at.unwrap().same(&company("zeta")));
    assert!(p.prospective.contains(&company("acme")));
    assert!(p.prospective.contains(&office("acme", "paris")));
}

#[test]
fn a_rekey_onto_a_held_subtree_is_refused() {
    let compiled = package();
    let mut p = program(&compiled, None);
    p.prospective.insert(office("apex", "paris"), fields(&[("city", text("paris"))]));
    let refused =
        p.place(&company("acme"), &texts(&["companies"]), fields(&[("id", text("apex"))])).unwrap_err();
    assert_eq!(refused.message, "rekey descendant target already exists");
    assert!(p.prospective.contains(&company("acme")));
}

#[test]
fn a_row_without_its_key_or_collection_has_no_place() {
    let compiled = package();
    let mut p = program(&compiled, None);
    let keyless = p.place(&company("acme"), &texts(&["companies"]), fields(&[])).unwrap_err();
    assert_eq!(keyless.message, "the row is missing a key field");
    let unknown = p.place(&company("acme"), &texts(&["firms", "offices"]), fields(&[])).unwrap_err();
    assert_eq!(unknown.message, "unknown collection `firms/offices`");
    assert_eq!(unknown.reason, RejectionReason::Malformed);
}

#[test]
fn a_bulk_insert_is_all_or_nothing() {
    let compiled = package();
    let mut p = program(&compiled, None);
    let refused = p
        .insert_from_view(
            &companies_loc(),
            vec![Ok(fields(&[("id", text("new"))])), Ok(fields(&[("id", text("acme"))]))],
        )
        .unwrap_err();
    assert_eq!(refused.message, "a row with this key already exists");
    assert!(!p.prospective.contains(&company("new")));
    let twice = p
        .insert_from_view(
            &companies_loc(),
            vec![Ok(fields(&[("id", text("new"))])), Ok(fields(&[("id", text("new"))]))],
        )
        .unwrap_err();
    assert_eq!(twice.reason, RejectionReason::DuplicateKey);
    p.insert_from_view(&companies_loc(), vec![Ok(fields(&[("id", text("new"))]))]).unwrap();
    assert!(p.prospective.contains(&company("new")));
    assert_eq!(p.touched.len(), 1);
}

#[test]
fn a_replaced_collection_holds_the_replacement() {
    let compiled = package();
    let mut p = program(&compiled, None);
    let deletions = p
        .replace_collection(
            &companies_loc(),
            vec![Ok(fields(&[("id", text("zeta")), ("label", text("Zeta"))])), Ok(fields(&[("id", text("new"))]))],
        )
        .unwrap();
    assert_eq!(deletions.len(), 1);
    assert_eq!(deletions[0].collection, "companies");
    assert!(same_value(&deletions[0].key, &text("acme")));
    assert!(p.prospective.contains(&company("new")));
    assert!(p.prospective.get(&company("zeta")).unwrap().contains(&"label".to_string()));
    let twice = p
        .replace_collection(
            &companies_loc(),
            vec![Ok(fields(&[("id", text("a"))])), Ok(fields(&[("id", text("a"))]))],
        )
        .unwrap_err();
    assert_eq!(twice.message, "the replacement view supplies two rows with the same key");
}

#[test]
fn a_replaced_nested_collection_drops_rows_at_once() {
    let compiled = package();
    let mut p = program(&compiled, None);
    let deletions =
        p.replace_collection(&offices_loc("acme"), vec![Ok(fields(&[("city", text("oslo"))]))]).unwrap();
    assert!(deletions.is_empty());
    assert!(!p.prospective.contains(&office("acme", "paris")));
    assert!(p.prospective.contains(&office("acme", "oslo")));
    assert_eq!(p.prospective.addresses_in(&offices_loc("acme").store_path).len(), 1);
}

#[test]
fn one_row_is_inserted_once() {
    let compiled = package();
    let mut p = program(&compiled, None);
    let target = p.insert_row(&companies_loc(), Ok(fields(&[("id", text("new"))]))).unwrap();
    assert!(target.address.same(&company("new")));
    let refused = p.insert_row(&companies_loc(), Ok(fields(&[("id", text("new"))]))).unwrap_err();
    assert_eq!(refused.reason, RejectionReason::DuplicateKey);
    p.stage_initializer(&company("new"), &texts(&["companies"]), "offices", vec![Ok(fields(&[("city", text("rome"))]))])
        .unwrap();
    assert!(p.prospective.contains(&office("new", "rome")));
}

#[test]
fn a_source_is_a_view_of_rows() {
    let insertion = SourceUse::Insertion;
    assert_eq!(source_rows(Cell::Collection(vec![row("a"), row("b")]), &insertion).unwrap().len(), 2);
    assert_eq!(source_rows(Cell::Row(Box::new(row("a"))), &insertion).unwrap().len(), 1);
    let refused = |used: SourceUse| source_rows(Cell::Scalar(text("a")), &used).unwrap_err().message;
    assert_eq!(refused(insertion), "a bulk insert takes a source view of rows");
    assert_eq!(refused(SourceUse::Replacement), "a collection replacement takes a source view of rows");
    assert_eq!(
        refused(SourceUse::Initializer("offices".to_string())),
        "child collection `offices` initializer must be a keyed row view",
    );
    assert!(same_fields(&row_fields(&row("a")), &fields(&[("id", text("a"))])));
}

#[test]
fn adding_a_held_member_changes_nothing() {
    let held = Value::Members(vec![text("a"), text("b")]);
    let again = set_mutate(Some(&held), None, &vec![text("b")], true).unwrap();
    assert!(same_value(&again, &held));
    let more = set_mutate(Some(&held), None, &vec![text("c"), Value::Absent], true).unwrap();
    assert!(same_value(&more, &Value::Members(vec![text("a"), text("b"), text("c")])));
}

#[test]
fn taking_an_absent_member_changes_nothing() {
    let held = Value::Members(vec![text("a"), text("b")]);
    assert!(same_value(&set_mutate(Some(&held), None, &vec![text("z")], false).unwrap(), &held));
    let fewer = set_mutate(Some(&held), None, &vec![text("a")], false).unwrap();
    assert!(same_value(&fewer, &Value::Members(vec![text("b")])));
    assert!(same_value(&set_mutate(None, None, &vec![text("a")], false).unwrap(), &Value::Members(Vec::new())));
}

#[test]
fn members_of_a_reference_set_are_stored_as_references() {
    let names = texts(&["id"]);
    let set = set_mutate(None, Some(&names), &vec![text("acme")], true).unwrap();
    assert!(same_value(&set, &Value::Members(vec![Value::Ref(Box::new(text("acme")))])));
    assert_eq!(set_operands(Cell::Scalar(Value::Members(vec![text("a"), text("b")]))).unwrap().len(), 2);
    assert_eq!(
        set_operands(Cell::Row(Box::new(row("a")))).unwrap_err().message,
        "a set mutation takes a member or a set",
    );
}

#[test]
fn the_keys_of_a_deletion_are_normalized() {
    let names = texts(&["zone", "code"]);
    let object = Value::Struct(vec![("code".to_string(), text("7")), ("zone".to_string(), text("eu"))]);
    let keys = delete_key_values(&names, object).unwrap();
    assert_eq!(shown(&keys), shown(&vec![Value::Composite(vec![text("eu"), text("7")])]));
    let many = delete_key_values(&texts(&["id"]), Value::Members(vec![text("a"), text("b")])).unwrap();
    assert_eq!(many.len(), 2);
    assert_eq!(shown(&distinct_keys(vec![text("b"), text("a"), text("b")])), shown(&vec![text("b"), text("a")]));
}

#[test]
fn a_captured_deletion_names_each_row_once() {
    let state = populated();
    let (rows, refs) = bind_deleted(&state, "companies", vec![text("acme"), text("gone"), text("acme")]);
    assert_eq!(rows.len(), 1);
    assert!(rows[0].same(&company("acme")));
    assert_eq!(refs.len(), 2);
}

#[test]
fn a_planned_deletion_takes_its_rows_and_mends_the_rest() {
    let compiled = package();
    let mut p = program(&compiled, None);
    let ada = fields(&[
        ("id", text("ada")),
        ("employer", Value::Absent),
        (
            "follows",
            Value::Members(vec![Value::Ref(Box::new(text("acme"))), Value::Ref(Box::new(text("zeta")))]),
        ),
    ]);
    let plan = PlannedDeletion {
        deletes: vec![
            DeletedRow {
                row: RowRef { collection: "companies".to_string(), key: text("acme") },
                address: Some(company("acme")),
            },
            DeletedRow { row: RowRef { collection: "companies".to_string(), key: text("gone") }, address: None },
        ],
        patches: vec![PatchedRow {
            row: RowRef { collection: "people".to_string(), key: text("ada") },
            address: Some(person("ada")),
            patch: vec![("employer".to_string(), Value::Absent)],
            normalized: Ok(ada),
        }],
        member_removals: vec![ThinnedRow {
            row: RowRef { collection: "people".to_string(), key: text("ada") },
            address: Some(person("ada")),
            removals: vec![("follows".to_string(), vec![Value::Ref(Box::new(text("acme")))])],
        }],
    };
    let captured = p.capture(&plan);
    assert_eq!(captured.len(), 1);
    assert!(same_value(
        &captured[0].1,
        &Value::Struct(vec![("id".to_string(), text("acme")), ("label".to_string(), text("Acme"))]),
    ));
    p.apply_deletion(&plan).unwrap();
    assert!(!p.prospective.contains(&company("acme")));
    assert!(p.prospective.contains(&company("zeta")));
    let after = p.prospective.get(&person("ada")).unwrap();
    assert!(same_value(after.get(&"employer".to_string()).unwrap(), &Value::Absent));
    assert!(same_value(
        after.get(&"follows".to_string()).unwrap(),
        &Value::Members(vec![Value::Ref(Box::new(text("zeta")))]),
    ));
}

#[test]
fn thinning_leaves_other_fields_alone() {
    let thinned = thin_fields(
        &fields(&[("tags", Value::Members(vec![text("a"), text("b")])), ("id", text("x"))]),
        &vec![("tags".to_string(), vec![text("a")]), ("id".to_string(), vec![text("x")])],
    );
    assert!(same_fields(&thinned, &fields(&[("tags", Value::Members(vec![text("b")])), ("id", text("x"))])));
}

#[test]
fn a_place_names_a_collection_a_row_or_a_field() {
    let compiled = package();
    let p = program(&compiled, None);
    let loc = p.collection_ref(&Place::Name("companies".to_string())).unwrap().unwrap();
    assert_eq!(loc.decl, texts(&["companies"]));
    let nested = member(keyed(member(Place::Receiver, "companies"), text("acme")), "offices");
    assert_eq!(p.collection_ref(&nested).unwrap().unwrap().decl, texts(&["companies", "offices"]));
    let paris = p.row_target(&keyed(nested, text("paris"))).unwrap().unwrap();
    assert!(paris.address.same(&office("acme", "paris")));
    let (target, name) =
        p.field_target(&member(keyed(Place::Name("companies".to_string()), text("acme")), "label")).unwrap().unwrap();
    assert!(target.address.same(&company("acme")));
    assert_eq!(name, "label");
    assert!(p.row_target(&Place::Other).unwrap().is_none());
    let failed = Place::Keyed(
        Box::new(Place::Name("companies".to_string())),
        Some(Err(bad(RejectionReason::Evaluation, "no key"))),
    );
    assert_eq!(p.row_target(&failed).unwrap_err().message, "no key");
    assert!(p
        .set_field_target(&member(keyed(Place::Name("people".to_string()), text("ada")), "follows"))
        .unwrap()
        .is_some());
    assert!(p
        .set_field_target(&member(keyed(Place::Name("people".to_string()), text("ada")), "employer"))
        .unwrap()
        .is_none());
}

#[test]
fn a_selector_of_several_parts_is_read_in_key_order() {
    let names = texts(&["zone", "code"]);
    let object = Value::Struct(vec![("code".to_string(), text("7")), ("zone".to_string(), text("eu"))]);
    assert!(key_from_value(&names, object).unwrap().same(&KeyValue::composite(text("eu"), vec![text("7")])));
    let short = Value::Struct(vec![("zone".to_string(), text("eu"))]);
    assert_eq!(
        key_from_value(&names, short).unwrap_err().message,
        "composite key selector is missing a component",
    );
    assert!(key_from_value(&texts(&["id"]), text("x")).unwrap().same(&KeyValue::single(text("x"))));
}

#[test]
fn a_gone_receiver_refuses_reads() {
    let compiled = package();
    let p = program(&compiled, Some(RowTarget { address: company("gone"), path: texts(&["companies"]) }));
    let refused = p.current().unwrap_err();
    assert_eq!(refused.reason, RejectionReason::MissingTarget);
    assert_eq!(refused.message, "the selected row no longer exists");
    assert_eq!(p.eval_host_call(&Vec::new()).unwrap_err().reason, RejectionReason::MissingTarget);
}

#[test]
fn an_assignment_is_told_by_its_target() {
    let compiled = package();
    let p = program(&compiled, None);
    let singletons = texts(&["title"]);
    let root = top_address("$root", KeyValue::single(text("root")));
    let value: Result<Cell, Rejection> = Ok(Cell::Scalar(text("new")));
    let local = p.exec_assign(&singletons, &Place::Name("x".to_string()), &value, &Fit::Stored, &root).unwrap();
    assert!(matches!(local, AssignStep::Bind(n) if n == "x"));
    let whole =
        p.exec_assign(&singletons, &member(Place::Receiver, "companies"), &value, &Fit::Stored, &root).unwrap();
    assert!(matches!(whole, AssignStep::Replace(_)));
    let one = p.exec_assign(&singletons, &member(Place::Receiver, "title"), &value, &Fit::Stored, &root).unwrap();
    assert!(matches!(one, AssignStep::Root(f, v) if f == "title" && same_fields(&v, &fields(&[("title", text("new"))]))));
    let place = member(keyed(Place::Name("companies".to_string()), text("acme")), "label");
    let write = p.exec_assign(&singletons, &place, &value, &Fit::Stored, &root).unwrap();
    assert!(matches!(write, AssignStep::Write(_, f, v)
        if f == "label" && same_fields(&v, &fields(&[("id", text("acme")), ("label", text("new"))]))));
    assert!(matches!(
        p.exec_assign(&singletons, &Place::Other, &value, &Fit::Stored, &root).unwrap(),
        AssignStep::Nothing
    ));
    assert!(matches!(
        p.assign_target(&singletons, &member(Place::Receiver, "title")).unwrap(),
        AssignTarget::Singleton(_)
    ));
}

#[test]
fn an_assigned_value_fits_its_field() {
    let at = company("acme");
    let stored = assign_value(&Cell::Scalar(text("x")), &Fit::Stored, &at, "label").unwrap();
    assert!(same_value(&stored, &text("x")));
    let label = assign_value(
        &Cell::Scalar(text("x")),
        &Fit::Label(Ok(Value::Enum(2, "x".to_string()))),
        &at,
        "label",
    )
    .unwrap();
    assert!(same_value(&label, &Value::Enum(2, "x".to_string())));
    let mismatch = Fit::Mismatch { from: "int".to_string(), to: "text".to_string() };
    let refused = assign_value(&Cell::Scalar(integer(1)), &mismatch, &at, "label").unwrap_err();
    assert_eq!(refused.reason, RejectionReason::TypeError);
    assert_eq!(refused.message, "value of type `int` is not assignable to `text`");
    assert_eq!(refused.field, Some("label".to_string()));
    assert_eq!(
        assign_value(&Cell::Collection(Vec::new()), &Fit::Stored, &at, "label").unwrap_err().message,
        "a field is assigned a scalar value",
    );
}

#[test]
fn a_written_field_needs_its_row() {
    let compiled = package();
    let mut p = program(&compiled, None);
    let gone = RowTarget { address: company("gone"), path: texts(&["companies"]) };
    let refused = p.set_field(&gone, "label", text("x")).err().unwrap();
    assert_eq!(refused.message, "the target row does not exist");
    let acme = RowTarget { address: company("acme"), path: texts(&["companies"]) };
    let written = p.set_field(&acme, "label", text("x")).ok().unwrap();
    p.write_field(&acme, Ok(written)).unwrap();
    assert!(same_value(
        p.prospective.get(&company("acme")).unwrap().get(&"label".to_string()).unwrap(),
        &text("x"),
    ));
    let (target, name, cleared) = p
        .exec_clear(&member(keyed(Place::Name("companies".to_string()), text("acme")), "label"))
        .ok()
        .unwrap()
        .unwrap();
    assert!(target.address.same(&company("acme")));
    assert_eq!(name, "label");
    assert!(same_value(cleared.get(&"label".to_string()).unwrap(), &Value::Absent));
    assert!(p.exec_clear(&Place::Other).ok().unwrap().is_none());
}

#[test]
fn root_members_live_in_one_row() {
    let compiled = package();
    let mut p = program(&compiled, None);
    let root = top_address("$root", KeyValue::single(text("root")));
    let first = p.set_singleton(&root, "title", text("A"));
    p.write_singleton_field(&root, Ok(first)).unwrap();
    let second = p.set_singleton(&root, "motto", text("B"));
    assert!(same_fields(&second, &fields(&[("title", text("A")), ("motto", text("B"))])));
    let refused = p.write_singleton_field(&root, Err(bad(RejectionReason::Check, "no"))).unwrap_err();
    assert_eq!(refused.reason, RejectionReason::Check);
    assert!(same_fields(p.prospective.get(&root).unwrap(), &fields(&[("title", text("A"))])));
}

#[test]
fn an_insertion_is_told_by_its_operand() {
    let compiled = package();
    let p = program(&compiled, None);
    let whole = Place::Name("companies".to_string());
    assert!(matches!(p.exec_insert(&whole, true).unwrap(), InsertForm::Row(_)));
    assert!(matches!(p.exec_insert(&whole, false).unwrap(), InsertForm::View(_)));
    let set = member(keyed(Place::Name("people".to_string()), text("ada")), "follows");
    assert!(matches!(p.exec_insert(&set, false).unwrap(), InsertForm::Members(_, f) if f == "follows"));
    assert!(matches!(p.exec_insert(&Place::Other, true).unwrap(), InsertForm::Nothing));
}

#[test]
fn a_nested_row_is_deleted_at_once_and_a_top_level_one_is_planned() {
    let compiled = package();
    let mut p = program(&compiled, None);
    assert!(p.exec_delete(&offices_loc("acme"), &vec![text("paris"), text("nowhere")]).is_empty());
    assert!(!p.prospective.contains(&office("acme", "paris")));
    let refs = p.exec_delete(&companies_loc(), &vec![text("acme")]);
    assert_eq!(refs.len(), 1);
    assert_eq!(refs[0].collection, "companies");
    assert!(p.prospective.contains(&company("acme")));
    let selected = p.exec_delete_selection(&companies_loc(), &Cell::Collection(vec![row("acme"), row("zeta")]));
    assert_eq!(selected.len(), 2);
    assert!(p.exec_delete_selection(&companies_loc(), &Cell::Scalar(text("acme"))).is_empty());
}

#[test]
fn a_single_patch_needs_its_row_and_a_bulk_patch_does_not() {
    let compiled = package();
    let mut p = program(&compiled, None);
    let gone = PatchPlan::Single(RowTarget { address: company("gone"), path: texts(&["companies"]) });
    let refused = p.exec_patch(&gone, &vec![Ok(fields(&[("id", text("gone"))]))]).unwrap_err();
    assert_eq!(refused.message, "the patched row does not exist");
    let base = PatchBase::Selection {
        collection: Place::Name("companies".to_string()),
        matched: Ok(Cell::Collection(vec![row("gone"), row("zeta")])),
    };
    let plan = p.patch_plan(&base).unwrap();
    let rows = match &plan {
        PatchPlan::Many(rows) => rows,
        PatchPlan::Single(_) => panic!("a selection patches many rows"),
    };
    let updates = vec![("label".to_string(), text("Z"))];
    assert!(p.patch_start(&rows[0], &updates).is_none());
    let zeta = p.patch_start(&rows[1], &updates).unwrap();
    p.exec_patch(&plan, &vec![Ok(fields(&[])), Ok(zeta)]).unwrap();
    assert!(same_fields(
        p.prospective.get(&company("zeta")).unwrap(),
        &fields(&[("id", text("zeta")), ("label", text("Z"))]),
    ));
    let empty = PatchBase::Selection {
        collection: Place::Name("companies".to_string()),
        matched: Ok(Cell::Scalar(text("zeta"))),
    };
    assert!(matches!(p.patch_plan(&empty).unwrap(), PatchPlan::Many(rows) if rows.is_empty()));
    assert_eq!(p.patch_plan(&PatchBase::Row(Place::Other)).err().unwrap().message, "a patch needs a row source");
    assert_eq!(
        patch_value(&Cell::Collection(Vec::new())).unwrap_err().message,
        "a patch assigns a scalar value",
    );
}

#[test]
fn a_refused_bulk_patch_leaves_the_rows_before_it_patched() {
    let compiled = package();
    let mut p = program(&compiled, None);
    let target = |id: &str| RowTarget { address: company(id), path: texts(&["companies"]) };
    let plan = PatchPlan::Many(vec![target("acme"), target("zeta")]);
    let acme = fields(&[("id", text("acme")), ("label", text("A"))]);
    let refused = p
        .exec_patch(&plan, &vec![Ok(acme), Err(Rejection::new(RejectionReason::Check, "no label"))])
        .unwrap_err();
    assert_eq!(refused.message, "no label");
    assert!(same_fields(
        p.prospective.get(&company("acme")).unwrap(),
        &fields(&[("id", text("acme")), ("label", text("A"))]),
    ));
    assert!(p.prospective.contains(&company("zeta")));
}

#[test]
fn a_row_stands_for_its_key() {
    assert!(same_value(&scalar_value(&Cell::Row(Box::new(row("a")))).unwrap(), &text("a")));
    assert!(same_value(&scalar_value(&Cell::Scalar(integer(3))).unwrap(), &integer(3)));
    assert_eq!(
        scalar_value(&Cell::Collection(Vec::new())).unwrap_err().message,
        "expected a scalar value here",
    );
    let args = vec![Ok(Cell::Scalar(text("a"))), Ok(Cell::Row(Box::new(row("b"))))];
    assert_eq!(shown(&host_arguments(&args).unwrap()), shown(&vec![text("a"), text("b")]));
    let refused = vec![Err(bad(RejectionReason::Evaluation, "first")), Ok(Cell::Collection(Vec::new()))];
    assert_eq!(host_arguments(&refused).unwrap_err().message, "first");
    assert_eq!(shown(&selection_key_values(&Cell::Row(Box::new(row("a"))))), shown(&vec![text("a")]));
}

#[test]
fn an_erasure_names_top_level_rows() {
    let compiled = package();
    let p = program(&compiled, None);
    assert_eq!(p.exec_erase(&None).unwrap_err().message, "`erase` requires a row selector");
    assert_eq!(
        p.exec_erase(&Some((Place::Other, Ok(Cell::Scalar(text("acme")))))).unwrap_err().message,
        "`erase` targets a top-level collection row",
    );
    let place = Place::Name("companies".to_string());
    let refs = p.exec_erase(&Some((place, Ok(Cell::Scalar(text("acme")))))).unwrap();
    assert_eq!(refs.len(), 1);
    assert!(same_value(&refs[0].key, &text("acme")));
}

#[test]
fn every_erasure_is_kept_and_only_a_returned_one_answers() {
    let mut extracts = Extracts::new();
    extracts.record("h1".to_string(), false);
    assert!(extracts.returned.is_none());
    extracts.record("h2".to_string(), true);
    assert_eq!(shown(&extracts.exports), shown(&vec![text("h1"), text("h2")]));
    assert!(same_value(extracts.returned.as_ref().unwrap(), &text("h2")));
}

#[test]
fn two_rows_with_one_payload_are_two_occurrences() {
    assert_eq!(occurrence_id("people", "\"a\"", "{}"), "people\u{1f}\"a\"\u{1f}{}");
    assert_ne!(occurrence_id("people", "\"a\"", "{}"), occurrence_id("people", "\"b\"", "{}"));
    assert_ne!(occurrence_id("people", "\"a\"", "{}"), occurrence_id("firms", "\"a\"", "{}"));
}

fn mutation(params: Vec<Parameter>) -> CompiledMutation {
    CompiledMutation { name: "rename".to_string(), path: texts(&["companies"]), receiver_is_root: false, params }
}

#[test]
fn a_called_mutation_takes_its_arguments_by_name() {
    let m = mutation(vec![
        Parameter { name: "id".to_string(), optional: false },
        Parameter { name: "note".to_string(), optional: true },
    ]);
    let bound = internal_args(&m, &vec![SuppliedArg::Object(vec![("id".to_string(), Ok(text("x")))])]).ok().unwrap();
    assert!(same_fields(&bound, &fields(&[("id", text("x")), ("note", Value::Absent)])));
    let missing = internal_args(&m, &Vec::new()).err().unwrap();
    assert_eq!(missing.message, "internal call is missing argument `@id`");
    let wrong = internal_args(&m, &vec![SuppliedArg::Other]).err().unwrap();
    assert_eq!(wrong.message, "an internal call takes an argument object mapping parameter names to values");
    let named = internal_args(&m, &vec![SuppliedArg::Named("id".to_string(), Ok(text("y")))]).ok().unwrap();
    assert!(same_value(named.get(&"id".to_string()).unwrap(), &text("y")));
}

#[test]
fn calls_nest_only_so_deep() {
    assert_eq!(call_depth(0).unwrap(), 1);
    assert_eq!(call_depth(MAX_CALL_DEPTH - 1).unwrap(), MAX_CALL_DEPTH);
    assert_eq!(call_depth(MAX_CALL_DEPTH).unwrap_err().message, "internal mutation calls are nested too deeply");
}

#[test]
fn a_called_row_mutation_runs_on_the_callers_row() {
    let compiled = package();
    let here = RowTarget { address: company("acme"), path: texts(&["companies"]) };
    let p = program(&compiled, Some(here));
    let m = mutation(Vec::new());
    let (depth, receiver, params) = p.exec_internal_call(0, &m, &Vec::new()).ok().unwrap();
    assert_eq!(depth, 1);
    assert!(receiver.as_ref().unwrap().address.same(&company("acme")));
    assert!(params.is_empty());
    let elsewhere = program(&compiled, None);
    assert_eq!(
        elsewhere.exec_internal_call(0, &m, &Vec::new()).err().unwrap().message,
        "internal call to row mutation `rename` cannot resolve its receiver here",
    );
    let mut p = p;
    p.extracts.push(text("earlier"));
    let (mut called, caller, touched, extracts) = p.enter_call(receiver);
    assert!(called.touched.is_empty());
    assert!(called.extracts.is_empty());
    called.extracts.push(text("later"));
    called.insert_row(&companies_loc(), Ok(fields(&[("id", text("new"))]))).unwrap();
    let back = called.leave_call(caller, touched, extracts);
    assert_eq!(shown(&back.extracts), shown(&vec![text("earlier"), text("later")]));
    assert_eq!(back.touched.len(), 1);
    assert!(back.prospective.contains(&company("new")));
}

fn name(n: &str) -> Expr {
    Expr::Name(n.to_string())
}

fn dot(base: Expr, member: &str) -> Expr {
    Expr::Field { base: Box::new(base), member: member.to_string(), structural: false }
}

fn call(callee: Expr, args: Vec<Arg>) -> Expr {
    Expr::Call { callee: Box::new(callee), args }
}

#[test]
fn a_statement_is_told_by_its_form() {
    assert_eq!(exec(&Statement::Return(call(name("erase"), Vec::new()))), StatementForm::ReturnErase);
    assert_eq!(exec(&Statement::Return(name("x"))), StatementForm::Return);
    assert_eq!(exec(&Statement::Clear(name("x"))), StatementForm::Clear);
    assert_eq!(exec(&Statement::Assign { target: name("x"), value: name("y") }), StatementForm::Assign);
    assert_eq!(
        exec(&Statement::Bare(call(name("assert"), Vec::new()))),
        StatementForm::Bare(BareStatement::Assert),
    );
    assert_eq!(exec_bare(&call(name("erase"), Vec::new())), BareStatement::Erase);
    assert_eq!(exec_bare(&call(dot(Expr::Current, "rename"), Vec::new())), BareStatement::Call);
    assert_eq!(
        exec_bare(&Expr::Plus { lhs: Box::new(name("a")), rhs: Box::new(name("b")) }),
        BareStatement::Insert,
    );
    assert_eq!(
        exec_bare(&Expr::Minus { lhs: Box::new(name("a")), rhs: Box::new(name("b")) }),
        BareStatement::Delete,
    );
    assert_eq!(exec_bare(&Expr::Negative(Box::new(name("a")))), BareStatement::DeleteSelection);
    assert_eq!(exec_bare(&Expr::Block { base: Box::new(name("a")), members: Vec::new() }), BareStatement::Patch);
    assert_eq!(exec_bare(&Expr::Current), BareStatement::Nothing);
}

#[test]
fn a_local_is_told_by_what_it_is_bound_to() {
    let namespaces = texts(&["codec"]);
    let hosted = call(dot(name("codec"), "encode"), Vec::new());
    assert_eq!(bind_local(&hosted, &namespaces, false), BindingForm::HostCall);
    assert_eq!(host_call(&hosted, &namespaces).unwrap().1, "encode");
    assert!(host_call(&hosted, &texts(&["other"])).is_none());
    let plus = Expr::Plus { lhs: Box::new(name("a")), rhs: Box::new(name("b")) };
    assert_eq!(bind_local(&plus, &namespaces, true), BindingForm::InsertedRow);
    assert_eq!(bind_local(&plus, &namespaces, false), BindingForm::Value);
    let minus = Expr::Minus { lhs: Box::new(name("a")), rhs: Box::new(name("b")) };
    assert_eq!(bind_local(&minus, &namespaces, true), BindingForm::DeletedKeys);
    let selected = Expr::Negative(Box::new(Expr::Bound { base: Box::new(name("a")) }));
    assert_eq!(bind_local(&selected, &namespaces, true), BindingForm::DeletedSelection);
    assert_eq!(internal_call_target(&dot(Expr::Current, "rename")).unwrap(), "rename");
    assert!(internal_call_target(&dot(name("codec"), "rename")).is_none());
    assert_eq!(keyring_ref(&dot(Expr::Root, "ring")).unwrap(), "ring");
    assert!(keyring_ref(&dot(Expr::Current, "ring")).is_none());
    assert!(matches!(patch_member(&Member::Clear("x".to_string())), Some((n, None)) if n == "x"));
}

#[test]
fn an_assertion_fails_with_its_message() {
    let args = vec![Arg::Positional(name("ok")), Arg::Positional(Expr::Text("too many".to_string()))];
    assert!(exec_assert(&args, &Cell::Scalar(Value::Bool(true))).is_ok());
    let refused = exec_assert(&args, &Cell::Scalar(Value::Bool(false))).unwrap_err();
    assert_eq!(refused.reason, RejectionReason::Assertion);
    assert_eq!(refused.message, "too many");
    assert_eq!(assert_message(&vec![Arg::Positional(name("ok"))]), "assertion failed");
    assert_eq!(
        exec_assert(&Vec::new(), &Cell::Scalar(Value::Bool(true))).unwrap_err().message,
        "`assert` requires a condition",
    );
}

#[test]
fn only_signing_runs_in_a_program() {
    let args = vec![Arg::Positional(dot(Expr::Root, "ring")), Arg::Positional(name("claims"))];
    let (ring, _) = eval_cose_call("sign", &args).ok().unwrap();
    assert_eq!(ring, "ring");
    assert_eq!(
        eval_cose_call("sign", &Vec::new()).err().unwrap().message,
        "`cose.sign` takes a keyring path and a claims object",
    );
    let swapped = vec![Arg::Positional(name("claims")), Arg::Positional(name("claims"))];
    assert_eq!(
        eval_cose_call("sign", &swapped).err().unwrap().message,
        "`cose.sign` first argument must be a keyring path `/ring`",
    );
    assert_eq!(
        eval_cose_call("verify", &args).err().unwrap().message,
        "`cose.verify` runs during authentication (`$verify`), not in a mutation program",
    );
    assert_eq!(eval_cose_call("mint", &args).err().unwrap().message, "unknown cose function `mint`");
}

#[test]
fn a_struct_is_completed_around_what_is_supplied() {
    let members = vec![
        StructMember { name: "unit".to_string(), default: Some(Ok(Cell::Scalar(text("kg")))), container: None },
        StructMember { name: "tags".to_string(), default: None, container: Some(Value::Members(Vec::new())) },
        StructMember { name: "note".to_string(), default: None, container: None },
    ];
    let built = struct_value(&vec![("unit".to_string(), Ok(text("lb")))], &members).unwrap();
    assert!(same_value(
        &built,
        &Value::Struct(vec![("tags".to_string(), Value::Members(Vec::new())), ("unit".to_string(), text("lb"))]),
    ));
    let defaulted = struct_value(&Vec::new(), &members).unwrap();
    assert!(same_value(
        &defaulted,
        &Value::Struct(vec![("tags".to_string(), Value::Members(Vec::new())), ("unit".to_string(), text("kg"))]),
    ));
    let refused =
        struct_value(&vec![("unit".to_string(), Err(bad(RejectionReason::Evaluation, "no")))], &members).unwrap_err();
    assert_eq!(refused.message, "no");
}

#[test]
fn stored_fields_are_read_back() {
    let f = fields(&[("b", text("2")), ("a", text("1"))]);
    assert!(same_fields(&fields_of(&struct_of(&f)), &f));
    assert!(fields_of(&text("x")).is_empty());
    assert!(same_value(
        &struct_of(&f),
        &Value::Struct(vec![("a".to_string(), text("1")), ("b".to_string(), text("2"))]),
    ));
}

fn shapes() -> Vec<ShapeDecl> {
    vec![
        ShapeDecl {
            key: texts(&["id"]),
            members: vec![
                MemberDecl { name: "id".to_string(), nested: None },
                MemberDecl { name: "offices".to_string(), nested: Some(1) },
            ],
        },
        ShapeDecl { key: texts(&["city"]), members: vec![MemberDecl { name: "city".to_string(), nested: None }] },
    ]
}

#[test]
fn a_row_is_read_with_what_is_nested_in_it() {
    let state = populated();
    let shapes = shapes();
    let mut moments: Table<RowAddress, Moment> = Table::new();
    {
        let read = Read { shapes: &shapes, state: &state, moments: &moments, active_only: true };
        let rows = read.collection_rows("companies", 0);
        assert_eq!(rows.len(), 2);
        assert!(same_value(&rows[0].key, &text("acme")));
        assert!(matches!(rows[0].cell("offices").unwrap(), Cell::Collection(o) if o.len() == 1));
        assert!(matches!(rows[1].cell("offices").unwrap(), Cell::Collection(o) if o.is_empty()));
        assert!(read.materialize_row(&company("gone"), 0).is_none());
        assert!(read.materialize_row(&company("acme"), 0).is_some());
    }
    moments.insert(company("zeta"), Moment { active: false, interval: None });
    let active = Read { shapes: &shapes, state: &state, moments: &moments, active_only: true };
    assert_eq!(active.collection_rows("companies", 0).len(), 1);
    let every = Read { shapes: &shapes, state: &state, moments: &moments, active_only: false };
    assert_eq!(every.collection_rows("companies", 0).len(), 2);
}

#[test]
fn a_bound_row_is_read_where_it_stands() {
    let state = populated();
    let shapes = shapes();
    let moments: Table<RowAddress, Moment> = Table::new();
    let read = Read { shapes: &shapes, state: &state, moments: &moments, active_only: false };
    let at = |id: &str| RowTarget { address: company(id), path: texts(&["companies"]) };
    let locals = vec![
        ("kept".to_string(), LocalBind::Value(Cell::Scalar(text("v")))),
        ("here".to_string(), LocalBind::Row(at("acme"), Some(0))),
        ("gone".to_string(), LocalBind::Row(at("gone"), Some(0))),
        ("untyped".to_string(), LocalBind::Row(at("acme"), None)),
    ];
    let cells = local_bindings(&read, &locals);
    let names: Vec<&String> = cells.iter().map(|(n, _)| n).collect();
    assert_eq!(names, vec!["kept", "here"]);
}

#[test]
fn a_refusal_is_an_outcome() {
    let refused = CallOutcome::Rejected(bad(RejectionReason::Check, "no"));
    assert_eq!(refused.rejection().unwrap().message, "no");
    assert!(refused.response().is_none());
    let committed = CallOutcome::Committed { seq: 7, response: Some(text("ok")) };
    assert_eq!(committed.committed_at(), Some(7));
    assert!(same_value(committed.response().unwrap(), &text("ok")));
    assert!(CallOutcome::Unchanged { response: None }.committed_at().is_none());
    assert!(committed.rejection().is_none());
    assert_eq!(bad(RejectionReason::Host, "x").duplicate().reason, RejectionReason::Host);
}

fn acme_target() -> RowTarget {
    RowTarget { address: company("acme"), path: texts(&["companies"]) }
}

fn insert_step(id: &str) -> Step {
    Step::Insert(companies_loc(), Ok(fields(&[("id", text(id))])))
}

#[test]
fn a_program_runs_its_steps_in_order() {
    let compiled = package();
    let renamed = fields(&[("id", text("apex")), ("label", text("Acme"))]);
    let condition = Cell::Scalar(Value::Bool(true));
    let steps = vec![
        Step::Nothing,
        Step::Assert(vec![Arg::Positional(Expr::Name("ok".to_string()))], condition),
        insert_step("new"),
        Step::Write(acme_target(), Ok(renamed)),
    ];
    let after = program(&compiled, None).run(0, steps).ok().unwrap();
    assert!(after.prospective.contains(&company("new")));
    assert!(after.prospective.contains(&company("apex")));
    assert!(after.prospective.contains(&office("apex", "paris")));
    assert!(!after.prospective.contains(&company("acme")));
    let listed = |address: &RowAddress| after.touched.iter().any(|a| a.same(address));
    for address in [company("new"), company("apex"), office("apex", "paris"), person("ada")] {
        assert!(listed(&address), "{:?} is listed", address);
    }
    assert!(!listed(&company("zeta")));
}

#[test]
fn the_first_refused_step_refuses_the_program() {
    let compiled = package();
    let condition = Cell::Scalar(Value::Bool(false));
    let steps = vec![
        insert_step("new"),
        insert_step("zeta"),
        Step::Assert(Vec::new(), condition),
    ];
    let refused = program(&compiled, None).run(0, steps).err().unwrap();
    assert_eq!(refused.message, "a row with this key already exists");
    let steps = vec![Step::Refused(Rejection::new(RejectionReason::TypeError, "no such field")), insert_step("zeta")];
    assert_eq!(program(&compiled, None).run(0, steps).err().unwrap().message, "no such field");
}

#[test]
fn a_called_program_runs_on_the_state_of_its_caller() {
    let compiled = package();
    let call = |steps: Vec<Step>| Step::Call { mutation: mutation(Vec::new()), args: Vec::new(), steps };
    let after = program(&compiled, Some(acme_target()))
        .run(0, vec![insert_step("one"), call(vec![insert_step("two")])])
        .ok()
        .unwrap();
    assert_eq!(after.touched.len(), 2);
    assert!(after.prospective.contains(&company("two")));
    let refused = program(&compiled, Some(acme_target()))
        .run(0, vec![insert_step("one"), call(vec![insert_step("one")])])
        .err()
        .unwrap();
    assert_eq!(refused.message, "a row with this key already exists");
    let deep = program(&compiled, Some(acme_target())).run(MAX_CALL_DEPTH, vec![call(Vec::new())]).err().unwrap();
    assert_eq!(deep.message, "internal mutation calls are nested too deeply");
}

/// The deletion of one row, as it was planned.
fn removal(collection: &str, key: &str, at: RowAddress) -> PlannedDeletion {
    PlannedDeletion {
        deletes: vec![DeletedRow {
            row: RowRef { collection: collection.to_string(), key: text(key) },
            address: Some(at),
        }],
        patches: Vec::new(),
        member_removals: Vec::new(),
    }
}

#[test]
fn a_replaced_collection_holds_only_the_new_rows() {
    let compiled = package();
    let rows = || vec![Ok(fields(&[("id", text("zeta")), ("label", text("Zeta"))]))];
    let planned = Ok(removal("companies", "acme", company("acme")));
    let after =
        program(&compiled, None).run(0, vec![Step::Replace(companies_loc(), rows(), planned)]).ok().unwrap();
    assert!(!after.prospective.contains(&company("acme")));
    let label = after.prospective.get(&company("zeta")).unwrap().get(&"label".to_string()).unwrap();
    assert!(same_value(label, &text("Zeta")));
    let held = Err(bad(RejectionReason::Check, "restricted"));
    let refused = program(&compiled, None).run(0, vec![Step::Replace(companies_loc(), rows(), held)]).err().unwrap();
    assert_eq!(refused.message, "restricted");
}

#[test]
fn an_erasure_removes_its_rows_and_keeps_the_hash() {
    let compiled = package();
    let erase = |hash: Result<String, Rejection>| Step::Erase {
        selector: Some((Place::Name("companies".to_string()), Ok(Cell::Scalar(text("zeta"))))),
        plan: Ok(removal("companies", "zeta", company("zeta"))),
        hash,
    };
    let call = |steps: Vec<Step>| Step::Call { mutation: mutation(Vec::new()), args: Vec::new(), steps };
    let after = program(&compiled, Some(acme_target()))
        .run(0, vec![call(vec![erase(Ok("h1".to_string()))])])
        .ok()
        .unwrap();
    assert!(!after.prospective.contains(&company("zeta")));
    assert_eq!(shown(&after.extracts), shown(&vec![text("h1")]));
    let refused = program(&compiled, None)
        .run(0, vec![erase(Err(bad(RejectionReason::Evaluation, "no extract")))])
        .err()
        .unwrap();
    assert_eq!(refused.message, "no extract");
}

#[test]
fn every_inserted_row_draws_a_generation() {
    let compiled = package();
    let start = program(&compiled, Some(acme_target()));
    let coming = start.prospective.upcoming(6);
    for i in 0..6 {
        for j in 0..i {
            assert_ne!(coming[i], coming[j]);
        }
    }
    let call = |steps: Vec<Step>| Step::Call { mutation: mutation(Vec::new()), args: Vec::new(), steps };
    let view = vec![Ok(fields(&[("id", text("v"))])), Ok(fields(&[("id", text("w"))]))];
    let offices = Step::Stage {
        parent: company("zeta"),
        decl: texts(&["companies"]),
        child: "offices".to_string(),
        rows: vec![Ok(fields(&[("city", text("rome"))]))],
    };
    let steps = vec![insert_step("one"), Step::InsertView(companies_loc(), view), call(vec![insert_step("two"), offices])];
    let mut after = start.run(0, steps).ok().unwrap();
    assert_eq!(after.prospective.upcoming(1)[0], coming[5]);
    let refused = after.insert_row(&companies_loc(), Ok(fields(&[("id", text("one"))]))).unwrap_err();
    assert!(matches!(refused.reason, RejectionReason::DuplicateKey));
    let next = after.prospective.next_generation();
    assert_ne!(next, coming[5]);
    assert_eq!(after.prospective.upcoming(1)[0], next.next());
}

#[test]
fn a_generation_has_no_last_one() {
    let full = Generation::Limb(u64::MAX, Box::new(Generation::Zero));
    assert_eq!(full.next(), Generation::Limb(0, Box::new(Generation::Limb(1, Box::new(Generation::Zero)))));
}

#[test]
fn a_row_is_inserted_from_an_object() {
    assert!(insert_members(&Expr::Object(Vec::new())).ok().unwrap().is_empty());
    assert_eq!(insert_members(&Expr::Current).err().unwrap().message, "insert takes a `{ field: value }` row");
}

#[test]
fn an_undeclared_collection_takes_not_even_an_empty_batch() {
    let compiled = package();
    let gardens =
        CollectionLoc { store_path: CollectionPath::top("gardens".to_string()), decl: texts(&["gardens"]) };
    let refused = program(&compiled, None).run(0, vec![Step::InsertView(gardens, Vec::new())]).err().unwrap();
    assert!(refused.message.contains("gardens"));
    let stage = Step::Stage {
        parent: company("acme"),
        decl: texts(&["companies"]),
        child: "gardens".to_string(),
        rows: Vec::new(),
    };
    let refused = program(&compiled, None).run(0, vec![stage]).err().unwrap();
    assert_eq!(refused.message, "unknown collection `companies/gardens`");
}

#[test]
fn every_step_of_a_program_writes_what_it_is_given() {
    let compiled = package();
    let offices = CollectionLoc {
        store_path: CollectionPath::nested(&company("acme"), "offices".to_string()),
        decl: texts(&["companies", "offices"]),
    };
    let root = top_address("$root", KeyValue::single(text("")));
    let steps = vec![
        Step::Stage {
            parent: company("zeta"),
            decl: texts(&["companies"]),
            child: "offices".to_string(),
            rows: vec![Ok(fields(&[("city", text("rome"))]))],
        },
        Step::InsertView(companies_loc(), vec![Ok(fields(&[("id", text("x"))])), Ok(fields(&[("id", text("y"))]))]),
        Step::Root(root.duplicate(), Ok(fields(&[("motto", text("onward"))]))),
        Step::Patch(
            PatchPlan::Single(acme_target()),
            vec![Ok(fields(&[("id", text("acme")), ("label", text("ACME"))]))],
        ),
        Step::Delete(offices, vec![text("paris")], Ok(removal("offices", "paris", office("acme", "paris")))),
        Step::Remove(PlannedDeletion {
            deletes: vec![DeletedRow {
                row: RowRef { collection: "companies".to_string(), key: text("y") },
                address: Some(company("y")),
            }],
            patches: Vec::new(),
            member_removals: Vec::new(),
        }),
    ];
    let after = program(&compiled, None).run(0, steps).ok().unwrap();
    assert!(after.prospective.contains(&office("zeta", "rome")));
    assert!(after.prospective.contains(&company("x")));
    assert!(!after.prospective.contains(&company("y")));
    assert!(!after.prospective.contains(&office("acme", "paris")));
    assert!(after.prospective.contains(&root));
    let label = after.prospective.get(&company("acme")).unwrap().get(&"label".to_string()).unwrap();
    assert!(same_value(label, &text("ACME")));
}

#[test]
fn a_migration_program_parses_before_it_runs() {
    let compiled = package();
    let run = run_program(&compiled, &vec![Ok(()), Ok(())], populated(), vec![insert_step("new")]).ok().unwrap();
    assert!(run.prospective.contains(&company("new")));
    assert_eq!(run.touched.len(), 1);
    let parsed = vec![Ok(()), Err("expected `=`".to_string()), Err("later".to_string())];
    let refused = run_program(&compiled, &parsed, populated(), vec![insert_step("zeta")]).err().unwrap();
    assert!(matches!(refused.reason, RejectionReason::Malformed));
    assert_eq!(refused.message, "migration statement: expected `=`");
}
