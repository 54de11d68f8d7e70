use docstore::index::read_members;
use docstore::message::Ref;
use docstore::schema::{Schema, SchemaItem};
use docstore::server::Server;
use docstore::value::Value;

fn create_ref(components: &[&str]) -> Ref {
    Ref(components
        .iter()
        .map(|component| component.to_string())
        .collect())
}

fn text(value: &str) -> Value {
    Value::String(value.to_string())
}

fn map(items: &[(&str, &str)]) -> Value {
    Value::Object(
        items
            .iter()
            .map(|(key, value)| (key.to_string(), text(value)))
            .collect(),
    )
}

fn record(items: Vec<(&str, Value)>) -> Value {
    Value::Object(
        items
            .into_iter()
            .map(|(key, value)| (key.to_string(), value))
            .collect(),
    )
}

fn sample_schema() -> Schema {
    Schema::create(SchemaItem::Document(vec![
        (
            "hello".to_string(),
            SchemaItem::Document(vec![
                ("world".to_string(), SchemaItem::Scalar),
                ("new york".to_string(), SchemaItem::Scalar),
            ]),
        ),
        (
            "fruits".to_string(),
            SchemaItem::Collection(Box::new(SchemaItem::Document(vec![(
                "color".to_string(),
                SchemaItem::Scalar,
            )]))),
        ),
        (
            "shops".to_string(),
            SchemaItem::Collection(Box::new(SchemaItem::Document(vec![
                ("city".to_string(), SchemaItem::Scalar),
                (
                    "shelves".to_string(),
                    SchemaItem::Collection(Box::new(SchemaItem::Scalar)),
                ),
            ]))),
        ),
    ]))
}

fn temporary_store() -> sled::Db {
    sled::Config::new()
        .temporary(true)
        .flush_every_ms(None)
        .open()
        .unwrap()
}

fn open_server() -> Server {
    Server::with_store(temporary_store(), sample_schema())
}

fn key_of(components: &[&str]) -> Vec<u8> {
    Schema::empty().encode_ref(&create_ref(components).0)
}

fn stored(server: &Server, components: &[&str]) -> Option<Vec<u8>> {
    server.stored_at(&create_ref(components)).unwrap()
}

fn members(server: &Server, components: &[&str]) -> Vec<String> {
    read_members(&stored(server, components).unwrap()).unwrap()
}

fn nothing_stored(server: &Server, paths: &[&[&str]]) -> bool {
    paths.iter().all(|path| stored(server, path).is_none())
}

#[test]
fn document_is_stored_as_mark_and_strings() {
    let mut server = open_server();
    server
        .insert(&create_ref(&["hello"]), map(&[("world", "v"), ("new york", "w")]))
        .unwrap();
    assert_eq!(stored(&server, &["hello"]), Some(vec![1]));
    assert_eq!(stored(&server, &["hello", "world"]), Some(vec![b'v']));
    assert_eq!(stored(&server, &["hello", "new york"]), Some(vec![b'w']));
    assert_eq!(stored(&server, &[]), None);
}

#[test]
fn failed_insert_writes_no_key() {
    let mut server = open_server();
    let obj = record(vec![
        ("world", text("1")),
        ("new york", Value::Array(vec![])),
    ]);
    assert!(server.insert(&create_ref(&["hello"]), obj).is_err());
    assert!(nothing_stored(
        &server,
        &[&[], &["hello"], &["hello", "world"], &["hello", "new york"]]
    ));
}

#[test]
fn failed_insert_keeps_what_was_stored() {
    let mut server = open_server();
    server
        .insert(&create_ref(&["hello"]), map(&[("world", "1"), ("new york", "2")]))
        .unwrap();
    let obj = record(vec![("world", text("9")), ("new york", Value::Bool(true))]);
    assert!(server.insert(&create_ref(&["hello"]), obj).is_err());
    assert_eq!(
        server.get(&create_ref(&["hello"])).unwrap(),
        map(&[("world", "1"), ("new york", "2")])
    );
    assert_eq!(stored(&server, &["hello", "world"]), Some(vec![b'1']));
}

#[test]
fn members_are_listed_in_the_order_of_insertion() {
    let mut server = open_server();
    for (name, color) in [("banana", "yellow"), ("apple", "red"), ("blueberry", "purple")] {
        server
            .insert(&create_ref(&["fruits", name]), map(&[("color", color)]))
            .unwrap();
    }
    assert_eq!(
        members(&server, &["fruits"]),
        vec!["banana".to_string(), "apple".to_string(), "blueberry".to_string()]
    );
}

#[test]
fn removed_member_leaves_the_membership_value() {
    let mut server = open_server();
    for (name, color) in [("apple", "red"), ("banana", "yellow"), ("blueberry", "purple")] {
        server
            .insert(&create_ref(&["fruits", name]), map(&[("color", color)]))
            .unwrap();
    }
    server.remove(&create_ref(&["fruits", "apple"])).unwrap();
    assert_eq!(
        members(&server, &["fruits"]),
        vec!["banana".to_string(), "blueberry".to_string()]
    );
    assert_eq!(stored(&server, &["fruits", "apple"]), None);
    assert_eq!(stored(&server, &["fruits", "apple", "color"]), None);
    assert_eq!(stored(&server, &["fruits", "banana"]), Some(vec![1]));
}

#[test]
fn removing_the_last_member_writes_back_no_members() {
    let mut server = open_server();
    server
        .insert(&create_ref(&["fruits", "apple"]), map(&[("color", "red")]))
        .unwrap();
    server.remove(&create_ref(&["fruits", "apple"])).unwrap();
    assert_eq!(members(&server, &["fruits"]), Vec::<String>::new());
    assert_eq!(
        server.get(&create_ref(&["fruits"])).unwrap(),
        Value::Object(Vec::new())
    );
}

#[test]
fn removed_collection_has_no_key_left() {
    let mut server = open_server();
    for (name, color) in [("apple", "red"), ("banana", "yellow")] {
        server
            .insert(&create_ref(&["fruits", name]), map(&[("color", color)]))
            .unwrap();
    }
    server.remove(&create_ref(&["fruits"])).unwrap();
    assert!(nothing_stored(
        &server,
        &[
            &["fruits"],
            &["fruits", "apple"],
            &["fruits", "apple", "color"],
            &["fruits", "banana"],
            &["fruits", "banana", "color"],
        ]
    ));
}

#[test]
fn nested_collections_round_trip() {
    let mut server = open_server();
    let shop = record(vec![
        ("city", text("york")),
        (
            "shelves",
            record(vec![("top", text("jam")), ("low", text("tea"))]),
        ),
    ]);
    server.insert(&create_ref(&["shops", "corner"]), shop).unwrap();
    assert_eq!(
        server.get(&create_ref(&["shops", "corner"])).unwrap(),
        record(vec![
            ("city", text("york")),
            (
                "shelves",
                record(vec![("top", text("jam")), ("low", text("tea"))]),
            ),
        ])
    );
    assert_eq!(members(&server, &["shops"]), vec!["corner".to_string()]);
    assert_eq!(
        members(&server, &["shops", "corner", "shelves"]),
        vec!["top".to_string(), "low".to_string()]
    );
    assert_eq!(
        server
            .get(&create_ref(&["shops", "corner", "shelves", "low"]))
            .unwrap(),
        text("tea")
    );
    server.remove(&create_ref(&["shops", "corner"])).unwrap();
    assert_eq!(members(&server, &["shops"]), Vec::<String>::new());
    assert!(nothing_stored(
        &server,
        &[
            &["shops", "corner"],
            &["shops", "corner", "city"],
            &["shops", "corner", "shelves"],
            &["shops", "corner", "shelves", "top"],
            &["shops", "corner", "shelves", "low"],
        ]
    ));
}

#[test]
fn insert_below_a_member_joins_the_nearest_collection_only() {
    let mut server = open_server();
    server
        .insert(
            &create_ref(&["shops", "corner", "shelves"]),
            record(vec![("top", text("jam"))]),
        )
        .unwrap();
    assert_eq!(
        members(&server, &["shops", "corner", "shelves"]),
        vec!["top".to_string()]
    );
    assert_eq!(stored(&server, &["shops"]), None);
}

#[test]
fn scalar_that_is_not_utf8_reads_as_corrupt() {
    let db = temporary_store();
    db.insert(key_of(&["hello"]), vec![1]).unwrap();
    db.insert(key_of(&["hello", "world"]), vec![0xff]).unwrap();
    let server = Server::with_store(db, sample_schema());
    assert!(matches!(
        server.get(&create_ref(&["hello", "world"])),
        Err(docstore::error::ServerError::CorruptKey)
    ));
}

#[test]
fn collection_with_unreadable_members_reads_as_corrupt() {
    let db = temporary_store();
    db.insert(key_of(&["fruits"]), vec![1, 2, 3]).unwrap();
    let mut server = Server::with_store(db, sample_schema());
    assert!(matches!(
        server.get(&create_ref(&["fruits"])),
        Err(docstore::error::ServerError::CorruptKey)
    ));
    assert!(matches!(
        server.insert(&create_ref(&["fruits", "apple"]), map(&[("color", "red")])),
        Err(docstore::error::ServerError::CorruptKey)
    ));
    assert_eq!(stored(&server, &["fruits", "apple"]), None);
}

#[test]
fn present_document_with_an_absent_scalar_field_leaves_it_out() {
    let db = temporary_store();
    db.insert(key_of(&["hello"]), vec![1]).unwrap();
    db.insert(key_of(&["hello", "world"]), vec![b'v']).unwrap();
    let server = Server::with_store(db, sample_schema());
    assert_eq!(
        server.get(&create_ref(&["hello"])).unwrap(),
        map(&[("world", "v")])
    );
}

#[test]
fn present_document_without_any_field_reads_as_the_empty_record() {
    let db = temporary_store();
    db.insert(key_of(&["hello"]), vec![1]).unwrap();
    let server = Server::with_store(db, sample_schema());
    assert_eq!(
        server.get(&create_ref(&["hello"])).unwrap(),
        Value::Object(Vec::new())
    );
}

#[test]
fn document_after_the_removal_of_a_field_leaves_it_out() {
    let mut server = open_server();
    server
        .insert(&create_ref(&["hello"]), map(&[("world", "v"), ("new york", "w")]))
        .unwrap();
    server.remove(&create_ref(&["hello", "world"])).unwrap();
    assert_eq!(
        server.get(&create_ref(&["hello"])).unwrap(),
        map(&[("new york", "w")])
    );
}

#[test]
fn absent_collection_field_is_read_as_the_empty_record() {
    let db = temporary_store();
    db.insert(key_of(&["shops"]), docstore::index::write_members(&vec!["corner".to_string()]))
        .unwrap();
    db.insert(key_of(&["shops", "corner"]), vec![1]).unwrap();
    let server = Server::with_store(db, sample_schema());
    assert_eq!(
        server.get(&create_ref(&["shops", "corner"])).unwrap(),
        record(vec![("shelves", Value::Object(Vec::new()))])
    );
}

#[test]
fn stored_at_gives_the_bytes_under_a_key() {
    let mut server = open_server();
    assert_eq!(stored(&server, &["hello", "world"]), None);
    server
        .insert(&create_ref(&["hello"]), map(&[("world", "v\u{e9}"), ("new york", "")]))
        .unwrap();
    assert_eq!(stored(&server, &["hello", "world"]), Some(vec![b'v', 0xc3, 0xa9]));
    assert_eq!(stored(&server, &["hello", "new york"]), Some(Vec::new()));
}

#[test]
fn refusal_by_the_schema_comes_first_and_changes_nothing() {
    let mut server = open_server();
    assert!(matches!(
        server.insert(&create_ref(&["hello", "world"]), Value::Array(vec![])),
        Err(docstore::error::ServerError::NonDocumentInsert)
    ));
    assert!(matches!(
        server.insert(&create_ref(&["nope"]), text("x")),
        Err(docstore::error::ServerError::SchemaError(
            docstore::schema::SchemaResolutionError::UnknownField(name)
        )) if name == "nope"
    ));
    assert!(matches!(
        server.update(&create_ref(&["hello", "world", "x"]), text("x")),
        Err(docstore::error::ServerError::SchemaError(
            docstore::schema::SchemaResolutionError::IllegalRefOnScalar
        ))
    ));
    assert!(matches!(
        server.remove(&create_ref(&["nope"])),
        Err(docstore::error::ServerError::SchemaError(_))
    ));
    assert!(matches!(
        server.get(&create_ref(&["nope"])),
        Err(docstore::error::ServerError::SchemaError(
            docstore::schema::SchemaResolutionError::UnknownField(name)
        )) if name == "nope"
    ));
    assert!(nothing_stored(&server, &[&[], &["hello"], &["hello", "world"], &["nope"]]));
}

#[test]
fn update_of_a_scalar_by_what_is_no_string_is_a_mismatch() {
    let mut server = open_server();
    server
        .insert(&create_ref(&["hello"]), map(&[("world", "v"), ("new york", "w")]))
        .unwrap();
    assert!(matches!(
        server.update(&create_ref(&["hello", "world"]), Value::Bool(true)),
        Err(docstore::error::ServerError::SchemaMismatch)
    ));
    assert_eq!(stored(&server, &["hello", "world"]), Some(vec![b'v']));
}

#[test]
fn read_record_names_each_entry_once() {
    let mut server = open_server();
    server
        .insert(
            &create_ref(&["fruits"]),
            record(vec![
                ("apple", map(&[("color", "red")])),
                ("banana", map(&[("color", "yellow")])),
            ]),
        )
        .unwrap();
    assert!(server.schema().is_wf());
    assert!(server.get(&create_ref(&[])).unwrap().is_wf());
    assert!(server.get(&create_ref(&["fruits"])).unwrap().is_wf());
}

#[test]
fn open_creates_a_store_on_disk() {
    let nanos = std::time::SystemTime::now()
        .duration_since(std::time::UNIX_EPOCH)
        .unwrap()
        .as_nanos();
    let path = format!("/tmp/docstore-open-{}", nanos);
    let mut server = Server::open(&path, sample_schema()).unwrap();
    server
        .insert(&create_ref(&["hello"]), map(&[("world", "v"), ("new york", "w")]))
        .unwrap();
    assert_eq!(
        server.get(&create_ref(&["hello", "new york"])).unwrap(),
        text("w")
    );
    assert!(matches!(
        server.schema().resolve(&create_ref(&["fruits", "apple"]).0),
        Ok(SchemaItem::Document(_))
    ));
}

#[test]
fn insert_over_listed_members_reads_back_as_inserted() {
    let mut server = open_server();
    server
        .insert(
            &create_ref(&["fruits"]),
            record(vec![
                ("apple", map(&[("color", "red")])),
                ("banana", map(&[("color", "yellow")])),
            ]),
        )
        .unwrap();
    server
        .insert(
            &create_ref(&["fruits"]),
            record(vec![
                ("apple", map(&[("color", "green")])),
                ("banana", map(&[("color", "brown")])),
                ("cherry", map(&[("color", "red")])),
            ]),
        )
        .unwrap();
    assert_eq!(
        server.get(&create_ref(&["fruits"])).unwrap(),
        record(vec![
            ("apple", map(&[("color", "green")])),
            ("banana", map(&[("color", "brown")])),
            ("cherry", map(&[("color", "red")])),
        ])
    );
    assert_eq!(
        members(&server, &["fruits"]),
        vec!["apple".to_string(), "banana".to_string(), "cherry".to_string()]
    );
}

#[test]
fn insert_beside_a_listed_member_keeps_that_member() {
    let mut server = open_server();
    server
        .insert(&create_ref(&["fruits", "apple"]), map(&[("color", "red")]))
        .unwrap();
    server
        .insert(
            &create_ref(&["fruits"]),
            record(vec![("banana", map(&[("color", "yellow")]))]),
        )
        .unwrap();
    assert_eq!(
        server.get(&create_ref(&["fruits"])).unwrap(),
        record(vec![
            ("apple", map(&[("color", "red")])),
            ("banana", map(&[("color", "yellow")])),
        ])
    );
}

#[test]
fn insert_of_an_empty_record_at_a_collection_writes_nothing() {
    let mut server = open_server();
    server
        .insert(&create_ref(&["fruits"]), Value::Object(Vec::new()))
        .unwrap();
    assert!(nothing_stored(&server, &[&["fruits"]]));
    assert_eq!(
        server.get(&create_ref(&["fruits"])).unwrap(),
        Value::Object(Vec::new())
    );
}
