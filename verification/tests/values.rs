use liasse_runtime::address::{is_prefix, reroot, top_address, AddressStep, CollectionPath, KeyValue, RowAddress};
use liasse_runtime::decimal::Decimal;
use liasse_runtime::integer::Integer;
use liasse_runtime::members::{canonical_members, holds_value};
use liasse_runtime::order::{Duplicate, Key, Order};
use liasse_runtime::refs::{key_identity, key_value_of, normalize_key_operand, ref_identity, rewrite_ref_value};
use liasse_runtime::rejection::RejectionReason;
use liasse_runtime::table::Table;
use liasse_runtime::text::{
    join_texts, order_text, parse_position, render_integer, render_number, split_once, split_text, strip_prefix,
    strip_suffix, trim, trim_minus, trim_start,
};
use liasse_runtime::time::{instant_add, sub_duration, ticks_of, Duration, Precision, Timestamp};
use liasse_runtime::value::{copy_value, order_values, same_value, Value};
use liasse_runtime::version::{connected_delta_path, declared_migration_sources, parse_version_triple, Version};
use liasse_runtime::doc::Doc;

fn integer(n: i128) -> Value {
    Value::Int(Integer::of(n))
}

fn text(s: &str) -> Value {
    Value::Text(s.to_string())
}

fn texts(items: &[&str]) -> Vec<String> {
    items.iter().map(|s| s.to_string()).collect()
}

fn step(name: &str, key: &str) -> AddressStep {
    AddressStep { name: name.to_string(), key: KeyValue::single(text(key)) }
}

fn shown<T: std::fmt::Debug>(t: &T) -> String {
    format!("{:?}", t)
}

#[test]
fn split_and_join_undo_each_other() {
    assert_eq!(split_text("a/b//c", '/'), texts(&["a", "b", "", "c"]));
    assert_eq!(split_text("", '/'), texts(&[""]));
    assert_eq!(join_texts(&split_text("a/b//c", '/'), "/"), "a/b//c");
    assert_eq!(split_text(&join_texts(&texts(&["x", "y"]), "."), '.'), texts(&["x", "y"]));
    assert_eq!(join_texts(&Vec::new(), "."), "");
}

#[test]
fn numerals_are_read_back() {
    for n in [0u64, 7, 10, 4096, u64::MAX] {
        assert_eq!(parse_position(&render_number(n as u128)), Some(n));
    }
    assert_eq!(render_number(1200), "1200");
    assert_eq!(render_integer(-42), "-42");
    assert_eq!(render_integer(0), "0");
    assert_eq!(parse_position("18446744073709551616"), None);
    assert_eq!(parse_position(""), None);
    assert_eq!(parse_position("+7"), Some(7));
    assert_eq!(parse_position("-7"), None);
    assert_eq!(parse_position("0x7"), None);
}

#[test]
fn affixes_are_stripped_once() {
    assert_eq!(strip_prefix("module.child", "module."), Some("child".to_string()));
    assert_eq!(strip_prefix("mod", "module"), None);
    assert_eq!(strip_suffix("a;b;", ";"), Some("a;b".to_string()));
    assert_eq!(strip_suffix("a", ";"), None);
    assert_eq!(split_once("line@1@2", '@'), Some(("line".to_string(), "1@2".to_string())));
    assert_eq!(split_once("line", '@'), None);
}

#[test]
fn blanks_and_signs_are_trimmed() {
    assert_eq!(trim("  a b "), "a b");
    assert_eq!(trim_start("  a "), "a ");
    assert_eq!(trim_minus("-amount"), "amount");
    assert_eq!(trim_minus("amount"), "amount");
}

#[test]
fn texts_are_ordered_by_characters() {
    assert_eq!(order_text("a", "b"), Order::Before);
    assert_eq!(order_text("ab", "a"), Order::After);
    assert_eq!(order_text("a", "a"), Order::Same);
    assert_eq!("Z".to_string().order(&"a".to_string()), Order::Before);
}

#[test]
fn a_table_keeps_one_value_a_key_in_order() {
    let mut table: Table<String, bool> = Table::new();
    assert!(table.is_empty());
    table.insert("b".to_string(), false);
    table.insert("a".to_string(), false);
    table.insert("b".to_string(), true);
    assert_eq!(table.len(), 2);
    assert_eq!(table.key_at(0), "a");
    assert_eq!(table.get(&"b".to_string()), Some(&true));
    table.remove(&"a".to_string());
    table.remove(&"zz".to_string());
    assert_eq!(table.len(), 1);
    assert!(!table.contains(&"a".to_string()));
}

#[test]
fn decimals_are_added_and_ordered_exactly() {
    let a = Decimal::parse("0.1").unwrap();
    let b = Decimal::parse("0.2").unwrap();
    let sum = a.plus(&b);
    assert_eq!(sum.order(&Decimal::parse("0.3").unwrap()), Order::Same);
    assert_eq!(sum.order(&Decimal::parse("0.30").unwrap()), Order::Same);
    assert_eq!(b.minus(&a).order(&a), Order::Same);
    assert_eq!(a.order(&b), Order::Before);
    assert_eq!(a.minus(&b).order(&Decimal::from_integer(0)), Order::Before);
    assert_eq!(Decimal::from_integer(10).order(&Decimal::from_integer(9)), Order::After);
    assert_eq!(Decimal::parse("-2.5").unwrap().plus(&Decimal::parse("2.5").unwrap()).order(&Decimal::from_integer(0)), Order::Same);
    assert!(Decimal::parse("ten").is_none());
    assert!(Decimal::parse("").is_none());
}

#[test]
fn large_decimals_lose_nothing() {
    let a = Decimal::parse("123456789012345678901234567890").unwrap();
    let one = Decimal::from_integer(1);
    let b = a.plus(&one);
    assert_eq!(b.order(&Decimal::parse("123456789012345678901234567891").unwrap()), Order::Same);
    assert_eq!(b.minus(&a).order(&one), Order::Same);
}

#[test]
fn instants_move_by_whole_ticks() {
    let t = Timestamp { count: 100, precision: Precision::Seconds };
    let day = Duration { nanos: 86_400_000_000_000 };
    assert_eq!(ticks_of(day, Precision::Seconds), 86_400);
    assert_eq!(ticks_of(day, Precision::Milliseconds), 86_400_000);
    assert_eq!(instant_add(t, day).count, 86_500);
    assert_eq!(sub_duration(instant_add(t, day), day).count, 100);
    assert_eq!(Precision::Nanoseconds.ticks_per_second(), 1_000_000_000);
}

#[test]
fn instants_of_two_precisions_are_compared() {
    let a = Timestamp { count: 1, precision: Precision::Seconds };
    let b = Timestamp { count: 1_001, precision: Precision::Milliseconds };
    assert!(a.earlier_than(b));
    assert!(!b.earlier_than(a));
    let same = Timestamp { count: 1_000, precision: Precision::Milliseconds };
    assert!(!a.earlier_than(same));
    assert!(!same.earlier_than(a));
}

#[test]
fn values_are_copied_and_compared() {
    let v = Value::Struct(vec![
        ("name".to_string(), text("Ada")),
        ("tags".to_string(), Value::Members(vec![text("a"), text("b")])),
    ]);
    assert!(same_value(&v, &copy_value(&v)));
    assert!(!same_value(&text("a"), &integer(1)));
    assert_eq!(order_values(&integer(2), &integer(10)), Order::Before);
    let huge = |s: &str| Value::Int(Integer::parse(s).unwrap());
    let far = huge("340282366920938463463374607431768211456000000000000000001");
    assert_eq!(order_values(&integer(i128::MAX), &far), Order::Before);
    assert_eq!(order_values(&huge("-340282366920938463463374607431768211457"), &integer(i128::MIN)), Order::Before);
    assert!(same_value(&huge("007"), &integer(7)));
    assert!(Integer::parse("1.0").is_none() && Integer::parse("-").is_none() && Integer::parse("").is_none());
    assert_eq!(order_values(&Value::Bool(false), &Value::Bool(true)), Order::Before);
    assert!(same_value(&Value::Decimal(Decimal::parse("1.0").unwrap()), &Value::Decimal(Decimal::parse("1").unwrap())));
}

#[test]
fn members_are_kept_once_in_order() {
    let members = canonical_members(&vec![text("b"), text("a"), text("b")]);
    assert_eq!(shown(&members), shown(&vec![text("a"), text("b")]));
    assert!(holds_value(&members, &text("a")));
    assert!(!holds_value(&members, &text("c")));
}

#[test]
fn a_key_has_one_identity() {
    let one = texts(&["id"]);
    let two = texts(&["region", "code"]);
    let single = KeyValue::single(text("x"));
    let pair = KeyValue::composite(text("eu"), vec![text("7")]);
    assert!(same_value(&key_identity(&one, &single), &text("x")));
    let identity = key_identity(&two, &pair);
    assert!(same_value(&identity, &Value::Composite(vec![text("eu"), text("7")])));
    assert!(key_value_of(&identity).same(&pair));
    assert!(key_value_of(&text("x")).same(&single));
}

#[test]
fn a_key_object_is_read_in_key_order() {
    let names = texts(&["region", "code"]);
    let object = Value::Struct(vec![("code".to_string(), text("7")), ("region".to_string(), text("eu"))]);
    let key = normalize_key_operand(&names, object).unwrap();
    assert!(same_value(&key, &Value::Composite(vec![text("eu"), text("7")])));
    let short = Value::Struct(vec![("code".to_string(), text("7"))]);
    let refused = normalize_key_operand(&names, short).unwrap_err();
    assert_eq!(refused.reason, RejectionReason::Malformed);
    assert!(same_value(&normalize_key_operand(&texts(&["id"]), text("x")).unwrap(), &text("x")));
}

#[test]
fn a_reference_follows_the_row_it_points_at() {
    let names = texts(&["id"]);
    let reference = Value::Ref(Box::new(text("old")));
    let moved = rewrite_ref_value(&reference, &names, &text("old"), &text("new")).unwrap();
    assert!(same_value(&moved, &Value::Ref(Box::new(text("new")))));
    let bare = rewrite_ref_value(&text("old"), &names, &text("old"), &text("new")).unwrap();
    assert!(same_value(&bare, &text("new")));
    assert!(rewrite_ref_value(&text("other"), &names, &text("old"), &text("new")).is_none());
    assert!(same_value(&ref_identity(&names, &text("k")), &text("k")));
}

#[test]
fn an_address_is_moved_under_another_ancestor() {
    let company = RowAddress::root(step("companies", "acme"));
    let office = RowAddress::nested(company.steps(), step("offices", "paris"));
    let renamed = RowAddress::root(step("companies", "apex"));
    assert!(is_prefix(&company, &office));
    assert!(!is_prefix(&renamed, &office));
    let moved = reroot(&renamed, &office, 1);
    assert!(is_prefix(&renamed, &moved));
    assert_eq!(moved.depth(), 2);
    assert!(reroot(&company, &moved, 1).same(&office));
    assert_eq!(moved.declaration(), texts(&["companies", "offices"]));
    assert!(office.parent().unwrap().same(&company));
    assert!(company.parent().is_none());
}

#[test]
fn a_collection_contains_its_own_rows_only() {
    let company = top_address("companies", KeyValue::single(text("acme")));
    let offices = CollectionPath::nested(&company, "offices".to_string());
    let paris = offices.row(KeyValue::single(text("paris")));
    assert!(offices.contains(&paris));
    assert!(!CollectionPath::top("companies".to_string()).contains(&paris));
    assert!(CollectionPath::top("companies".to_string()).contains(&company));
    assert!(paris.collection().contains(&paris));
    assert!(paris.duplicate().same(&paris));
    assert!(KeyValue::of_components(Vec::new()).is_none());
}

#[test]
fn a_version_is_three_numbers() {
    let v = parse_version_triple("1.20.3").unwrap();
    assert_eq!(v, Version { major: 1, minor: 20, patch: 3 });
    assert_eq!(v.text(), "1.20.3");
    assert_eq!(parse_version_triple(&v.text()), Some(v));
    assert_eq!(parse_version_triple("1.2"), None);
    assert_eq!(parse_version_triple("1.2.3.4"), None);
    assert_eq!(parse_version_triple("1.x.3"), None);
    assert!(Version { major: 1, minor: 9, patch: 9 }.precedes(&Version { major: 2, minor: 0, patch: 0 }));
    assert!(!v.precedes(&v));
}

fn migrations(keys: &[&str]) -> Doc {
    let entries = keys.iter().map(|k| (k.to_string(), Doc::Object(Vec::new()))).collect();
    Doc::Object(vec![("$migrations".to_string(), Doc::Object(entries))])
}

#[test]
fn one_hop_has_no_declared_source_between() {
    let v = |major, minor| Version { major, minor, patch: 0 };
    let model = migrations(&["1.0.0", "2.0.0"]);
    assert_eq!(declared_migration_sources(Some(&model)).len(), 2);
    assert!(connected_delta_path(&v(1, 0), &v(2, 0), Some(&model)) == connected_delta_path(&v(2, 0), &v(1, 0), Some(&model)));
    assert!(!connected_delta_path(&v(1, 0), &v(3, 0), Some(&model)));
    assert!(connected_delta_path(&v(2, 0), &v(3, 0), Some(&model)));
    assert!(connected_delta_path(&v(1, 0), &v(3, 0), None));
}
