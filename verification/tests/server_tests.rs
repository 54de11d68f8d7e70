use docstore::error::ServerError;
use docstore::message::Ref;
use docstore::schema::{Schema, SchemaItem};
use docstore::server::Server;
use docstore::value::Value;

fn temporary_store() -> sled::Db {
    sled::Config::new()
        .temporary(true)
        .flush_every_ms(None)
        .open()
        .unwrap()
}

fn collection_server() -> Server {
    let test_schema = Schema::create(SchemaItem::Document(vec![(
        "fruits".to_string(),
        SchemaItem::Collection(Box::new(SchemaItem::Document(vec![(
            "color".to_string(),
            SchemaItem::Scalar,
        )]))),
    )]));
    Server::with_store(temporary_store(), test_schema)
}

fn document_server() -> Server {
    let test_schema = Schema::create(SchemaItem::Document(vec![(
        "hello".to_string(),
        SchemaItem::Document(vec![
            ("world".to_string(), SchemaItem::Scalar),
            ("new york".to_string(), SchemaItem::Scalar),
        ]),
    )]));
    Server::with_store(temporary_store(), test_schema)
}

fn create_ref(components: &[&str]) -> Ref {
    Ref(components
        .iter()
        .map(|component| component.to_string())
        .collect())
}

fn text(value: &str) -> Value {
    Value::String(value.to_string())
}

fn map(items: &[(&str, &str)]) -> Value {
    Value::Object(
        items
            .iter()
            .map(|(key, value)| (key.to_string(), text(value)))
            .collect(),
    )
}

fn record(items: Vec<(&str, Value)>) -> Value {
    Value::Object(
        items
            .into_iter()
            .map(|(key, value)| (key.to_string(), value))
            .collect(),
    )
}

#[test]
fn values() {
    let mut server = document_server();
    server
        .insert(
            &create_ref(&["hello"]),
            map(&[("world", "value"), ("new york", "value 2")]),
        )
        .unwrap();
    assert_eq!(
        server.get(&create_ref(&["hello", "world"])).unwrap(),
        text("value")
    );
}

#[test]
fn set_object() {
    let mut server = document_server();
    let r = Ref(vec!["hello".to_string()]);
    let obj = map(&[("world", "1"), ("new york", "2")]);
    server.insert(&r, obj).unwrap();

    assert_eq!(
        server.get(&create_ref(&["hello", "world"])).unwrap(),
        Value::String("1".to_string()),
    );
    assert_eq!(
        server.get(&create_ref(&["hello", "new york"])).unwrap(),
        Value::String("2".to_string()),
    );
}

#[test]
fn get_object() {
    let mut server = document_server();
    let r = Ref(vec!["hello".to_string()]);
    let obj = map(&[("world", "1"), ("new york", "2")]);
    server.insert(&r, obj.duplicate()).unwrap();
    let result_obj = server.get(&Ref(vec!["hello".to_string()])).unwrap();

    assert_eq!(obj, result_obj);
}

#[test]
fn get_collection() {
    let mut server = collection_server();

    server
        .insert(&create_ref(&["fruits", "apple"]), map(&[("color", "red")]))
        .unwrap();
    server
        .insert(
            &create_ref(&["fruits", "banana"]),
            map(&[("color", "yellow")]),
        )
        .unwrap();
    server
        .insert(
            &create_ref(&["fruits", "blueberry"]),
            map(&[("color", "purple")]),
        )
        .unwrap();
    let all_fruits = server.get(&create_ref(&["fruits"])).unwrap();
    assert_eq!(
        all_fruits,
        record(vec![
            ("apple", map(&[("color", "red")])),
            ("banana", map(&[("color", "yellow")])),
            ("blueberry", map(&[("color", "purple")])),
        ])
    );
}

#[test]
fn delete_document() {
    let mut server = collection_server();

    server
        .insert(&create_ref(&["fruits", "apple"]), map(&[("color", "red")]))
        .unwrap();

    server.remove(&create_ref(&["fruits", "apple"])).unwrap();

    let all_fruits = server.get(&create_ref(&["fruits"])).unwrap();
    assert_eq!(all_fruits, Value::Object(Vec::new()));
}

#[test]
fn delete_collection() {
    let mut server = collection_server();

    server
        .insert(&create_ref(&["fruits", "apple"]), map(&[("color", "red")]))
        .unwrap();
    server
        .insert(
            &create_ref(&["fruits", "banana"]),
            map(&[("color", "yellow")]),
        )
        .unwrap();

    server.remove(&create_ref(&["fruits"])).unwrap();

    let all_fruits = server.get(&create_ref(&["fruits"])).unwrap();
    assert_eq!(all_fruits, Value::Object(Vec::new()));
}

#[test]
fn legal_but_not_found() {
    let server = document_server();

    let value = server.get(&create_ref(&["hello"])).unwrap();
    assert_eq!(value, Value::Null);
}

#[test]
fn transactional_inserts() {
    let mut server = document_server();

    let obj = record(vec![
        ("world", text("1")),
        ("new york", Value::Array(vec![])), // doesn't match schema
    ]);
    let result = server.insert(&create_ref(&["hello"]), obj);
    assert!(result.is_err());

    let value = server.get(&create_ref(&["hello"])).unwrap();
    assert_eq!(value, Value::Null);
}

#[test]
fn failed_insert_leaves_no_stray_key() {
    let mut server = document_server();
    let obj = record(vec![
        ("world", text("1")),
        ("new york", Value::Array(vec![])),
    ]);
    assert!(matches!(
        server.insert(&create_ref(&["hello"]), obj),
        Err(ServerError::SchemaMismatch)
    ));
    assert!(matches!(
        server.get(&create_ref(&["hello", "world"])),
        Err(ServerError::KeyNotFound)
    ));
}

#[test]
fn remove_member_leaves_the_others() {
    let mut server = collection_server();
    for (name, color) in [("apple", "red"), ("banana", "yellow"), ("blueberry", "purple")] {
        server
            .insert(&create_ref(&["fruits", name]), map(&[("color", color)]))
            .unwrap();
    }
    server.remove(&create_ref(&["fruits", "apple"])).unwrap();
    assert_eq!(
        server.get(&create_ref(&["fruits"])).unwrap(),
        record(vec![
            ("banana", map(&[("color", "yellow")])),
            ("blueberry", map(&[("color", "purple")])),
        ])
    );
    assert!(matches!(
        server.get(&create_ref(&["fruits", "apple", "color"])),
        Err(ServerError::KeyNotFound)
    ));
}

#[test]
fn insert_collection_as_a_whole() {
    let mut server = collection_server();
    let fruits = record(vec![
        ("apple", map(&[("color", "red")])),
        ("banana", map(&[("color", "yellow")])),
    ]);
    server.insert(&create_ref(&["fruits"]), fruits).unwrap();
    assert_eq!(
        server.get(&create_ref(&["fruits"])).unwrap(),
        record(vec![
            ("apple", map(&[("color", "red")])),
            ("banana", map(&[("color", "yellow")])),
        ])
    );
    assert_eq!(
        server.get(&create_ref(&["fruits", "banana", "color"])).unwrap(),
        text("yellow")
    );
}

#[test]
fn insert_same_member_twice_lists_it_once() {
    let mut server = collection_server();
    server
        .insert(&create_ref(&["fruits", "apple"]), map(&[("color", "red")]))
        .unwrap();
    server
        .insert(&create_ref(&["fruits", "apple"]), map(&[("color", "green")]))
        .unwrap();
    assert_eq!(
        server.get(&create_ref(&["fruits"])).unwrap(),
        record(vec![("apple", map(&[("color", "green")]))])
    );
}

#[test]
fn insert_at_scalar_is_refused() {
    let mut server = document_server();
    assert!(matches!(
        server.insert(&create_ref(&["hello", "world"]), text("v")),
        Err(ServerError::NonDocumentInsert)
    ));
}

#[test]
fn insert_with_extra_key_is_refused() {
    let mut server = document_server();
    let obj = map(&[("world", "1"), ("new york", "2"), ("mars", "3")]);
    assert!(matches!(
        server.insert(&create_ref(&["hello"]), obj),
        Err(ServerError::ExtraKeyFound)
    ));
    assert_eq!(server.get(&create_ref(&["hello"])).unwrap(), Value::Null);
}

#[test]
fn insert_with_missing_field_is_refused() {
    let mut server = document_server();
    assert!(matches!(
        server.insert(&create_ref(&["hello"]), map(&[("world", "1")])),
        Err(ServerError::SchemaMismatch)
    ));
    assert_eq!(server.get(&create_ref(&["hello"])).unwrap(), Value::Null);
}

#[test]
fn insert_of_a_string_at_a_document_is_refused() {
    let mut server = document_server();
    assert!(matches!(
        server.insert(&create_ref(&["hello"]), text("v")),
        Err(ServerError::SchemaMismatch)
    ));
}

#[test]
fn unknown_path_is_refused() {
    let mut server = document_server();
    assert!(matches!(
        server.get(&create_ref(&["goodbye"])),
        Err(ServerError::SchemaError(_))
    ));
    assert!(matches!(
        server.insert(&create_ref(&["goodbye"]), map(&[])),
        Err(ServerError::SchemaError(_))
    ));
    assert!(matches!(
        server.remove(&create_ref(&["hello", "world", "deeper"])),
        Err(ServerError::SchemaError(_))
    ));
}

#[test]
fn absent_scalar_is_key_not_found() {
    let server = document_server();
    assert!(matches!(
        server.get(&create_ref(&["hello", "world"])),
        Err(ServerError::KeyNotFound)
    ));
}

#[test]
fn update_scalar_overwrites() {
    let mut server = document_server();
    server
        .insert(&create_ref(&["hello"]), map(&[("world", "1"), ("new york", "2")]))
        .unwrap();
    server
        .update(&create_ref(&["hello", "world"]), text("3"))
        .unwrap();
    assert_eq!(
        server.get(&create_ref(&["hello"])).unwrap(),
        map(&[("world", "3"), ("new york", "2")])
    );
}

#[test]
fn update_document_is_partial() {
    let mut server = document_server();
    server
        .insert(&create_ref(&["hello"]), map(&[("world", "1"), ("new york", "2")]))
        .unwrap();
    server
        .update(&create_ref(&["hello"]), map(&[("new york", "9")]))
        .unwrap();
    assert_eq!(
        server.get(&create_ref(&["hello"])).unwrap(),
        map(&[("world", "1"), ("new york", "9")])
    );
}

#[test]
fn update_of_absent_document_is_key_not_found() {
    let mut server = document_server();
    assert!(matches!(
        server.update(&create_ref(&["hello"]), map(&[("world", "1")])),
        Err(ServerError::KeyNotFound)
    ));
    assert_eq!(server.get(&create_ref(&["hello"])).unwrap(), Value::Null);
}

#[test]
fn update_of_absent_scalar_is_key_not_found() {
    let mut server = document_server();
    assert!(matches!(
        server.update(&create_ref(&["hello", "world"]), text("1")),
        Err(ServerError::KeyNotFound)
    ));
}

#[test]
fn update_with_extra_key_changes_nothing() {
    let mut server = document_server();
    server
        .insert(&create_ref(&["hello"]), map(&[("world", "1"), ("new york", "2")]))
        .unwrap();
    assert!(matches!(
        server.update(&create_ref(&["hello"]), map(&[("world", "7"), ("mars", "3")])),
        Err(ServerError::ExtraKeyFound)
    ));
    assert_eq!(
        server.get(&create_ref(&["hello"])).unwrap(),
        map(&[("world", "1"), ("new york", "2")])
    );
}

#[test]
fn update_collection_member() {
    let mut server = collection_server();
    server
        .insert(&create_ref(&["fruits", "apple"]), map(&[("color", "red")]))
        .unwrap();
    server
        .update(
            &create_ref(&["fruits"]),
            record(vec![("apple", map(&[("color", "green")]))]),
        )
        .unwrap();
    assert_eq!(
        server.get(&create_ref(&["fruits", "apple", "color"])).unwrap(),
        text("green")
    );
    assert!(matches!(
        server.update(
            &create_ref(&["fruits"]),
            record(vec![("cherry", map(&[("color", "red")]))]),
        ),
        Err(ServerError::KeyNotFound)
    ));
}

#[test]
fn remove_scalar_then_get() {
    let mut server = document_server();
    server
        .insert(&create_ref(&["hello"]), map(&[("world", "1"), ("new york", "2")]))
        .unwrap();
    server.remove(&create_ref(&["hello", "world"])).unwrap();
    assert!(matches!(
        server.get(&create_ref(&["hello", "world"])),
        Err(ServerError::KeyNotFound)
    ));
}

#[test]
fn remove_document_then_get_is_null() {
    let mut server = document_server();
    server
        .insert(&create_ref(&["hello"]), map(&[("world", "1"), ("new york", "2")]))
        .unwrap();
    server.remove(&create_ref(&["hello"])).unwrap();
    assert_eq!(server.get(&create_ref(&["hello"])).unwrap(), Value::Null);
}

#[test]
fn remove_of_absent_collection_is_key_not_found() {
    let mut server = collection_server();
    assert!(matches!(
        server.remove(&create_ref(&["fruits"])),
        Err(ServerError::KeyNotFound)
    ));
}

#[test]
fn subscription() {
    let mut server = document_server();
    server
        .insert(
            &create_ref(&["hello"]),
            map(&[("world", "value"), ("new york", "value 2")]),
        )
        .unwrap();
    let r = create_ref(&["hello", "world"]);
    let mut subscription = server.subscribe(&r);
    for i in 0..5 {
        server.update(&r, Value::String(i.to_string())).unwrap();
    }
    for expected in 0..5 {
        match subscription.next_event() {
            Some(Ok(docstore::server::PathEvent::Insert { key, value })) => {
                assert_eq!(&key, &r);
                assert_eq!(String::from_utf8(value), Ok(expected.to_string()));
            }
            _ => panic!("expected insert event"),
        }
    }
}

#[test]
fn scalar_round_trip() {
    let mut server = document_server();
    server
        .insert(&create_ref(&["hello"]), map(&[("world", "v"), ("new york", "w")]))
        .unwrap();
    assert_eq!(
        server.get(&create_ref(&["hello", "world"])).unwrap(),
        text("v")
    );
}

#[test]
fn document_read() {
    let mut server = document_server();
    server
        .insert(&create_ref(&["hello"]), map(&[("world", "v"), ("new york", "w")]))
        .unwrap();
    assert_eq!(
        server.get(&create_ref(&["hello"])).unwrap(),
        map(&[("world", "v"), ("new york", "w")])
    );
}

#[test]
fn document_read_is_in_declared_order() {
    let mut server = document_server();
    server
        .insert(&create_ref(&["hello"]), map(&[("new york", "w"), ("world", "v")]))
        .unwrap();
    assert_eq!(
        server.get(&create_ref(&["hello"])).unwrap(),
        map(&[("world", "v"), ("new york", "w")])
    );
}
