use docstore::transaction::{any_missing, any_undeclared, has_entry};
use docstore::schema::SchemaItem;
use docstore::value::{last_entry, Value};

fn text(value: &str) -> Value {
    Value::String(value.to_string())
}

fn record(items: Vec<(&str, Value)>) -> Value {
    Value::Object(
        items
            .into_iter()
            .map(|(key, value)| (key.to_string(), value))
            .collect(),
    )
}

fn entries(items: Vec<(&str, Value)>) -> Vec<(String, Value)> {
    items
        .into_iter()
        .map(|(key, value)| (key.to_string(), value))
        .collect()
}

fn fields(names: &[&str]) -> Vec<(String, SchemaItem)> {
    names
        .iter()
        .map(|name| (name.to_string(), SchemaItem::Scalar))
        .collect()
}

#[test]
fn records_are_the_same_whatever_the_order() {
    let a = record(vec![("world", text("v")), ("new york", text("w"))]);
    let b = record(vec![("new york", text("w")), ("world", text("v"))]);
    assert!(a.same_as(&b));
    assert!(b.same_as(&a));
    assert_ne!(a, b);
}

#[test]
fn records_differ_by_a_value_or_a_name() {
    let a = record(vec![("world", text("v")), ("new york", text("w"))]);
    assert!(!a.same_as(&record(vec![("world", text("v")), ("new york", text("x"))])));
    assert!(!a.same_as(&record(vec![("world", text("v"))])));
    assert!(!record(vec![("world", text("v"))]).same_as(&a));
    assert!(!a.same_as(&record(vec![("world", text("v")), ("york", text("w"))])));
}

#[test]
fn nested_records_are_compared_through() {
    let a = record(vec![
        ("apple", record(vec![("color", text("red")), ("size", text("s"))])),
        ("banana", record(vec![("color", text("yellow"))])),
    ]);
    let b = record(vec![
        ("banana", record(vec![("color", text("yellow"))])),
        ("apple", record(vec![("size", text("s")), ("color", text("red"))])),
    ]);
    let c = record(vec![
        ("banana", record(vec![("color", text("yellow"))])),
        ("apple", record(vec![("size", text("m")), ("color", text("red"))])),
    ]);
    assert!(a.same_as(&b));
    assert!(!a.same_as(&c));
}

#[test]
fn the_later_entry_of_a_name_counts() {
    let twice = record(vec![("a", text("1")), ("a", text("2"))]);
    assert!(twice.same_as(&record(vec![("a", text("2"))])));
    assert!(!twice.same_as(&record(vec![("a", text("1"))])));
}

#[test]
fn lists_are_compared_in_order() {
    let a = Value::Array(vec![text("x"), Value::Bool(true)]);
    assert!(a.same_as(&Value::Array(vec![text("x"), Value::Bool(true)])));
    assert!(!a.same_as(&Value::Array(vec![Value::Bool(true), text("x")])));
    assert!(!a.same_as(&Value::Array(vec![text("x")])));
}

#[test]
fn values_of_different_kinds_differ() {
    assert!(Value::Null.same_as(&Value::Null));
    assert!(!Value::Null.same_as(&Value::Bool(false)));
    assert!(!text("1").same_as(&Value::Number("1".to_string())));
    assert!(Value::Number("1".to_string()).same_as(&Value::Number("1".to_string())));
    assert!(!Value::Object(Vec::new()).same_as(&Value::Array(Vec::new())));
    assert!(Value::Object(Vec::new()).same_as(&Value::Object(Vec::new())));
    assert!(!Value::Bool(true).same_as(&Value::Bool(false)));
}

#[test]
fn duplicate_is_the_same_value() {
    let a = record(vec![
        ("apple", record(vec![("color", text("red"))])),
        ("list", Value::Array(vec![Value::Null, Value::Number("7".to_string())])),
        ("flag", Value::Bool(true)),
    ]);
    assert_eq!(a.duplicate(), a);
    assert!(a.duplicate().same_as(&a));
}

#[test]
fn last_entry_finds_the_last_of_a_name() {
    let list = entries(vec![("a", text("1")), ("b", text("2")), ("a", text("3"))]);
    assert_eq!(last_entry(&list, &"a".to_string()), Some(2));
    assert_eq!(last_entry(&list, &"b".to_string()), Some(1));
    assert_eq!(last_entry(&list, &"c".to_string()), None);
}

#[test]
fn has_entry_finds_names() {
    let list = entries(vec![("a", text("1")), ("b", text("2"))]);
    assert!(has_entry(&list, &"b".to_string()));
    assert!(!has_entry(&list, &"c".to_string()));
}

#[test]
fn undeclared_and_missing_names() {
    let declared = fields(&["world", "new york"]);
    let exact = entries(vec![("new york", text("w")), ("world", text("v"))]);
    let more = entries(vec![("world", text("v")), ("new york", text("w")), ("mars", text("m"))]);
    let fewer = entries(vec![("world", text("v"))]);
    assert!(!any_undeclared(&declared, &exact));
    assert!(!any_missing(&declared, &exact));
    assert!(any_undeclared(&declared, &more));
    assert!(!any_missing(&declared, &more));
    assert!(!any_undeclared(&declared, &fewer));
    assert!(any_missing(&declared, &fewer));
}

#[test]
fn field_finds_the_first_of_a_name() {
    let declared = vec![
        ("a".to_string(), SchemaItem::Scalar),
        (
            "b".to_string(),
            SchemaItem::Collection(Box::new(SchemaItem::Scalar)),
        ),
    ];
    assert!(matches!(
        SchemaItem::field(&declared, &"a".to_string()),
        Some(SchemaItem::Scalar)
    ));
    assert!(matches!(
        SchemaItem::field(&declared, &"b".to_string()),
        Some(SchemaItem::Collection(_))
    ));
    assert!(SchemaItem::field(&declared, &"c".to_string()).is_none());
}
