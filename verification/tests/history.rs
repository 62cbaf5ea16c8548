use liasse_runtime::address::{top_address, KeyValue, RowAddress};
use liasse_runtime::cell::RowId;
use liasse_runtime::history::{
    import_decision, merge_field, ConflictCoordinate, ConflictKind, ImportRelation, MergeOutcome, ThreeWayMerge,
};
use liasse_runtime::index::{history_index, history_index_bytes};
use liasse_runtime::json::{get_json, parse_json, write_json, Json};
use liasse_runtime::lineage::{HistoryCursor, HistoryPoint};
use liasse_runtime::model::{Compiled, CompiledCollection};
use liasse_runtime::movement::{Instance, Sections};
use liasse_runtime::order::Duplicate;
use liasse_runtime::patch::{diff, PatchOp, ViewRow};
use liasse_runtime::state::{same_fields, Fields, Prospective};
use liasse_runtime::table::Table;
use liasse_runtime::value::{copy_value, same_value, Value};

fn text(s: &str) -> Value {
    Value::Text(s.to_string())
}

fn fields(items: &[(&str, Value)]) -> Fields {
    let mut f: Fields = Table::new();
    for (name, value) in items {
        f.insert(name.to_string(), copy_value(value));
    }
    f
}

fn at(id: &str) -> RowAddress {
    top_address("notes", KeyValue::single(text(id)))
}

fn notes() -> Compiled {
    Compiled {
        collections: vec![CompiledCollection {
            name: "notes".to_string(),
            key: vec!["id".to_string()],
            fields: Vec::new(),
            structs: Vec::new(),
            children: Vec::new(),
        }],
    }
}

fn state(rows: &[(&str, &[(&str, Value)])]) -> Table<RowAddress, Fields> {
    let mut t: Table<RowAddress, Fields> = Table::new();
    for (id, items) in rows {
        t.insert(at(id), fields(items));
    }
    t
}

fn merged(
    base: Table<RowAddress, Fields>,
    local: Table<RowAddress, Fields>,
    incoming: Table<RowAddress, Fields>,
) -> MergeOutcome {
    let compiled = notes();
    ThreeWayMerge { compiled: &compiled, base, local, incoming }.resolve()
}

#[test]
fn a_new_history_starts_at_its_first_point() {
    let cursor = HistoryCursor::genesis("app");
    let point = cursor.point();
    assert_eq!(point.lineage, "app#L0");
    assert_eq!(point.point, "1");
    assert_eq!(cursor.classify(&point), ImportRelation::SamePoint);
    assert_eq!(cursor.lineages().len(), 1);
}

#[test]
fn a_later_point_is_a_fast_forward_and_an_earlier_one_a_rollback() {
    let mut cursor = HistoryCursor::genesis("app");
    let first = cursor.point();
    cursor.advance();
    cursor.advance();
    assert_eq!(cursor.point().point, "3");
    assert_eq!(cursor.classify(&first), ImportRelation::Rollback);
    let later = HistoryPoint { lineage: "app#L0".to_string(), point: "9".to_string() };
    assert_eq!(cursor.classify(&later), ImportRelation::FastForward);
    cursor.apply_fast_forward(&later);
    assert_eq!(cursor.point().point, "9");
    cursor.advance();
    assert_eq!(cursor.point().point, "10");
    let other = HistoryPoint { lineage: "other#L0".to_string(), point: "1".to_string() };
    assert_eq!(cursor.classify(&other), ImportRelation::Unrelated);
}

#[test]
fn work_after_a_rollback_is_on_a_branch() {
    let mut cursor = HistoryCursor::genesis("app");
    let first = cursor.point();
    cursor.advance();
    let second = cursor.point();
    cursor.apply_rollback(&first);
    assert_eq!(cursor.point().point, "1");
    cursor.advance();
    let branched = cursor.point();
    assert_eq!(branched.lineage, "app#L0#b3");
    assert_eq!(branched.point, "3");
    assert_eq!(cursor.classify(&second), ImportRelation::Merge);
    assert_eq!(cursor.classify(&first), ImportRelation::Rollback);
    assert_eq!(cursor.lineages().len(), 2);
}

#[test]
fn a_reconciled_history_has_a_lineage_of_its_own() {
    let mut cursor = HistoryCursor::genesis("app");
    cursor.advance();
    cursor.begin_reconciled();
    assert_eq!(cursor.point().lineage, "app#L0#m3");
    assert_eq!(cursor.lineages().len(), 2);
}

#[test]
fn an_exported_history_is_restored() {
    let mut cursor = HistoryCursor::genesis("app");
    let first = cursor.point();
    cursor.advance();
    cursor.apply_rollback(&first);
    cursor.advance();
    let bytes = history_index_bytes(&cursor.point(), &cursor.lineages());
    let restored = HistoryCursor::restored(&cursor.point(), &bytes);
    assert_eq!(restored.point().lineage, cursor.point().lineage);
    assert_eq!(restored.point().point, cursor.point().point);
    assert_eq!(restored.lineages().len(), cursor.lineages().len());
    assert_eq!(restored.classify(&first), ImportRelation::Rollback);
    let json = history_index(&cursor.point(), &cursor.lineages());
    assert!(matches!(json, Json::Object(_)));
    assert!(get_json(&json, "no such member").is_none());
}

#[test]
fn the_index_is_written_as_json() {
    let cursor = HistoryCursor::genesis("app");
    let bytes = history_index_bytes(&cursor.point(), &cursor.lineages());
    let read: serde_json::Value = serde_json::from_slice(&bytes).unwrap();
    assert!(read.is_object());
    assert!(String::from_utf8(bytes).unwrap().contains("app#L0"));
}

#[test]
fn a_broken_index_restores_the_selected_point_alone() {
    let cursor = HistoryCursor::genesis("app");
    let restored = HistoryCursor::restored(&cursor.point(), b"not json");
    assert_eq!(restored.point().lineage, "app#L0");
    assert_eq!(restored.point().point, "1");
    let again = HistoryCursor::restored_from(&cursor.point(), &None);
    assert_eq!(again.point().point, "1");
}

#[test]
fn only_a_permitted_movement_is_made() {
    let policy = vec![ImportRelation::FastForward, ImportRelation::Merge];
    assert!(import_decision(ImportRelation::FastForward, &policy).applied);
    assert!(!import_decision(ImportRelation::Rollback, &policy).applied);
    assert!(!import_decision(ImportRelation::Merge, &policy).applied);
    assert!(!import_decision(ImportRelation::SamePoint, &policy).applied);
    assert_eq!(import_decision(ImportRelation::Rollback, &policy).relation, ImportRelation::Rollback);
}

#[test]
fn a_field_merges_where_one_side_moved() {
    let (a, b, c) = (text("a"), text("b"), text("c"));
    assert!(same_value(&merge_field(Some(&a), Some(&a), Some(&b)).unwrap().unwrap(), &b));
    assert!(same_value(&merge_field(Some(&a), Some(&b), Some(&a)).unwrap().unwrap(), &b));
    assert!(same_value(&merge_field(Some(&a), Some(&b), Some(&b)).unwrap().unwrap(), &b));
    assert!(merge_field(Some(&a), Some(&b), Some(&c)).is_err());
    assert!(merge_field(Some(&a), None, Some(&a)).unwrap().is_none());
}

#[test]
fn disjoint_edits_of_a_row_are_both_kept() {
    let base = || state(&[("n", &[("id", text("n")), ("x", text("1")), ("y", text("1"))])]);
    let local = state(&[("n", &[("id", text("n")), ("x", text("2")), ("y", text("1"))])]);
    let incoming = state(&[("n", &[("id", text("n")), ("x", text("1")), ("y", text("2"))])]);
    let m = merged(base(), local, incoming);
    assert!(m.is_clean());
    assert!(same_fields(
        m.merged.get(&at("n")).unwrap(),
        &fields(&[("id", text("n")), ("x", text("2")), ("y", text("2"))]),
    ));
}

#[test]
fn an_unchanged_side_takes_the_other() {
    let base = || state(&[("n", &[("id", text("n"))])]);
    let incoming = state(&[("m", &[("id", text("m"))])]);
    let m = merged(base(), base(), incoming);
    assert!(m.is_clean());
    assert!(m.merged.contains(&at("m")));
    assert!(!m.merged.contains(&at("n")));
}

#[test]
fn conflicts_are_the_same_from_either_side() {
    let base = || state(&[("n", &[("id", text("n")), ("x", text("1"))]), ("d", &[("id", text("d")), ("x", text("1"))])]);
    let one = || state(&[("n", &[("id", text("n")), ("x", text("2"))])]);
    let two = || {
        state(&[("n", &[("id", text("n")), ("x", text("3"))]), ("d", &[("id", text("d")), ("x", text("9"))])])
    };
    let m = merged(base(), one(), two());
    let w = merged(base(), two(), one());
    assert_eq!(m.conflicts.len(), 2);
    assert_eq!(w.conflicts.len(), 2);
    assert_eq!(m.conflicts[0].kind, ConflictKind::DeleteVsModify);
    assert_eq!(m.conflicts[1].kind, ConflictKind::IncompatibleValue);
    assert_eq!(w.conflicts[0].kind, m.conflicts[0].kind);
    match &m.conflicts[1].coordinate {
        ConflictCoordinate::Row { collection, key, field } => {
            assert_eq!(collection, "notes");
            assert!(same_value(key, &text("n")));
            assert_eq!(field.as_deref(), Some("x"));
        }
        ConflictCoordinate::RootSingleton { .. } => panic!("a row conflict"),
    }
}

#[test]
fn two_different_inserts_of_one_key_compete() {
    let m = merged(
        state(&[]),
        state(&[("n", &[("id", text("n")), ("x", text("1"))])]),
        state(&[("n", &[("id", text("n")), ("x", text("2"))])]),
    );
    assert_eq!(m.conflicts.len(), 1);
    assert_eq!(m.conflicts[0].kind, ConflictKind::CompetingInsert);
    assert!(!m.merged.contains(&at("n")));
}

fn shown_row(id: &str, value: &str) -> ViewRow {
    ViewRow { id: RowId { keys: vec![KeyValue::single(text(id))] }, value: text(value) }
}

/// The rows after the operations of a patch.
fn applied(rows: &[ViewRow], ops: &[PatchOp]) -> Vec<(String, String)> {
    let mut out: Vec<(String, String)> =
        rows.iter().map(|r| (format!("{:?}", r.id), format!("{:?}", r.value))).collect();
    for op in ops {
        let id = format!("{:?}", op.id());
        match op {
            PatchOp::Insert { at, row } => out.insert(*at, (id, format!("{:?}", row.value))),
            PatchOp::Remove { .. } => out.retain(|r| r.0 != id),
            PatchOp::Move { to, .. } => {
                let from = out.iter().position(|r| r.0 == id).unwrap();
                let moved = out.remove(from);
                out.insert(*to, moved);
            }
            PatchOp::Update { row } => {
                let place = out.iter().position(|r| r.0 == id).unwrap();
                out[place].1 = format!("{:?}", row.value);
            }
            PatchOp::Rekey { .. } => {}
        }
    }
    out
}

#[test]
fn a_patch_leads_from_one_view_to_the_next() {
    let prev = vec![shown_row("a", "1"), shown_row("b", "1"), shown_row("c", "1")];
    let next = vec![shown_row("c", "1"), shown_row("d", "1"), shown_row("a", "2")];
    let ops = diff(&prev, &next);
    let want: Vec<(String, String)> =
        next.iter().map(|r| (format!("{:?}", r.id), format!("{:?}", r.value))).collect();
    assert_eq!(applied(&prev, &ops), want);
}

#[test]
fn an_unchanged_view_needs_no_patch() {
    let rows = vec![shown_row("a", "1"), shown_row("b", "1")];
    let same: Vec<ViewRow> = rows.iter().map(|r| r.duplicate()).collect();
    assert!(diff(&rows, &same).is_empty());
}

#[test]
fn an_import_moves_the_history_where_it_is_permitted() {
    let mut cursor = HistoryCursor::genesis("app");
    cursor.advance();
    let later = HistoryPoint { lineage: "app#L0".to_string(), point: "7".to_string() };
    let policy = vec![ImportRelation::FastForward];
    let failed = cursor.import(true, &later, &policy, Err("no store"));
    assert_eq!(failed.unwrap_err(), "no store");
    assert_eq!(cursor.point().point, "2");
    let other = cursor.import::<()>(false, &later, &policy, Ok(())).unwrap();
    assert_eq!(other.relation, ImportRelation::Unrelated);
    assert!(!other.applied);
    let done = cursor.import::<()>(true, &later, &policy, Ok(())).unwrap();
    assert!(done.applied);
    assert_eq!(cursor.point().point, "7");
    let back = HistoryPoint { lineage: "app#L0".to_string(), point: "2".to_string() };
    let refused = cursor.import::<()>(true, &back, &policy, Ok(())).unwrap();
    assert_eq!(refused.relation, ImportRelation::Rollback);
    assert!(!refused.applied);
    assert_eq!(cursor.point().point, "7");
}

fn sections(definition: &str, id: &str) -> Sections {
    let mut rows = Prospective::empty();
    rows.insert(at(id), fields(&[("id", text(id))]));
    Sections { definition: definition.to_string(), rows }
}

#[test]
fn an_instance_moves_with_its_rows_and_its_definition() {
    let mut cursor = HistoryCursor::genesis("app");
    let first = cursor.point();
    cursor.advance();
    let second = cursor.point();
    let now = sections("v2", "b");
    let mut instance = Instance { definition: now.definition, rows: now.rows, cursor };
    let policy = vec![ImportRelation::FastForward, ImportRelation::Rollback];
    assert_eq!(instance.import(true, &first, &policy, Err("torn")).unwrap_err(), "torn");
    assert_eq!(instance.definition, "v2");
    let kept = instance.import::<()>(true, &first, &Vec::new(), Ok(sections("v1", "a"))).unwrap();
    assert!(!kept.applied);
    assert!(instance.rows.contains(&at("b")));
    assert!(instance.import::<()>(true, &first, &policy, Ok(sections("v1", "a"))).unwrap().applied);
    assert_eq!(instance.definition, "v1");
    assert!(instance.rows.contains(&at("a")) && !instance.rows.contains(&at("b")));
    assert_eq!(instance.cursor.classify(&first), ImportRelation::SamePoint);
    assert!(instance.import::<()>(true, &second, &policy, Ok(sections("v2", "b"))).unwrap().applied);
    assert_eq!(instance.definition, "v2");
    assert!(instance.rows.contains(&at("b")));
    assert_eq!(instance.cursor.classify(&second), ImportRelation::SamePoint);
}

#[test]
fn lineages_that_name_each_other_start_at_genesis() {
    let origin = |parent: &str| {
        Json::Object(vec![(
            "origin".to_string(),
            Json::Object(vec![
                ("lineage".to_string(), Json::Text(parent.to_string())),
                ("point".to_string(), Json::Text("1".to_string())),
            ]),
        )])
    };
    let index = Json::Object(vec![(
        "lineages".to_string(),
        Json::Object(vec![("a".to_string(), origin("b")), ("b".to_string(), origin("a"))]),
    )]);
    let selected = HistoryPoint { lineage: "a".to_string(), point: "4".to_string() };
    let mut restored = HistoryCursor::restored_from(&selected, &Some(index));
    assert_eq!(restored.classify(&selected), ImportRelation::SamePoint);
    let origins: Vec<_> = restored.lineages().into_iter().map(|l| (l.lineage, l.origin.is_none())).collect();
    assert_eq!(origins.iter().filter(|(_, genesis)| *genesis).count(), 1);
    assert_eq!(origins.len(), 3);
    restored.advance();
    assert_eq!(restored.point().lineage, "a");
    assert_eq!(restored.point().point, "5");
    assert_eq!(restored.classify(&selected), ImportRelation::Rollback);
}

#[test]
fn a_written_document_is_read_back() {
    let document = Json::Object(vec![
        ("flag".to_string(), Json::Bool(true)),
        ("items".to_string(), Json::List(vec![Json::Number(7), Json::Null])),
        ("name".to_string(), Json::Text("a \"b\" c".to_string())),
    ]);
    let bytes = write_json(&document);
    assert_eq!(
        String::from_utf8(bytes.clone()).unwrap(),
        "{\"flag\":true,\"items\":[7,null],\"name\":\"a \\\"b\\\" c\"}",
    );
    assert_eq!(format!("{:?}", parse_json(&bytes).unwrap()), format!("{:?}", document));
    assert!(parse_json(b"{").is_none());
    let numbers = parse_json(b"[-1, 2.5, 3]").unwrap();
    assert_eq!(
        format!("{:?}", numbers),
        format!(
            "{:?}",
            Json::List(vec![Json::Numeral("-1".to_string()), Json::Numeral("2.5".to_string()), Json::Number(3)])
        ),
    );
}
