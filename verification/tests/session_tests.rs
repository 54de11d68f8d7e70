use docstore::error::ServerError;
use docstore::message::{ClientMessage, Ref, ServerMessage};
use docstore::permission::{required_operation, Operation};
use docstore::schema::{Schema, SchemaItem, SchemaResolutionError};
use docstore::server::{project_event, PathEvent, Server};
use docstore::session::{
    reply_to_read, reply_to_write, subscription_update, Action, Session,
};
use docstore::store::RawEvent;
use docstore::value::Value;
use docstore::{ClientId, ClientManager};

fn create_ref(components: &[&str]) -> Ref {
    Ref(components
        .iter()
        .map(|component| component.to_string())
        .collect())
}

fn text(value: &str) -> Value {
    Value::String(value.to_string())
}

fn map(items: &[(&str, &str)]) -> Value {
    Value::Object(
        items
            .iter()
            .map(|(key, value)| (key.to_string(), text(value)))
            .collect(),
    )
}

fn document_server() -> Server {
    let db = sled::Config::new()
        .temporary(true)
        .flush_every_ms(None)
        .open()
        .unwrap();
    let test_schema = Schema::create(SchemaItem::Document(vec![(
        "hello".to_string(),
        SchemaItem::Document(vec![
            ("world".to_string(), SchemaItem::Scalar),
            ("new york".to_string(), SchemaItem::Scalar),
        ]),
    )]));
    Server::with_store(db, test_schema)
}

fn key_of(path: &Ref) -> Vec<u8> {
    Schema::empty().encode_ref(&path.0)
}

#[test]
fn operation_names() {
    assert_eq!(Operation::Read.name(), "read");
    assert_eq!(Operation::Insert.name(), "insert");
    assert_eq!(Operation::Update.name(), "update");
    assert_eq!(Operation::Remove.name(), "remove");
}

#[test]
fn operation_needed_for_each_request() {
    let key = create_ref(&["hello"]);
    assert_eq!(
        required_operation(&ClientMessage::Get(key.duplicate())),
        Some(Operation::Read)
    );
    assert_eq!(
        required_operation(&ClientMessage::Insert(key.duplicate(), Value::Null)),
        Some(Operation::Insert)
    );
    assert_eq!(
        required_operation(&ClientMessage::Update(key.duplicate(), Value::Null)),
        Some(Operation::Update)
    );
    assert_eq!(
        required_operation(&ClientMessage::Remove(key.duplicate())),
        Some(Operation::Remove)
    );
    assert_eq!(
        required_operation(&ClientMessage::Subscribe(key.duplicate())),
        Some(Operation::Read)
    );
    assert_eq!(required_operation(&ClientMessage::Unsubscribe(key)), None);
}

#[test]
fn error_words() {
    assert_eq!(ServerError::KeyNotFound.to_text(), "key not found");
    assert_eq!(ServerError::ExtraKeyFound.to_text(), "extra key found");
    assert_eq!(ServerError::SchemaMismatch.to_text(), "schema mismatch");
    assert_eq!(
        ServerError::NonDocumentInsert.to_text(),
        "only documents and collections may be inserted, scalar values"
    );
    assert_eq!(ServerError::CorruptKey.to_text(), "corrupt key");
    assert_eq!(
        ServerError::SchemaError(SchemaResolutionError::UnknownField("mars".to_string()))
            .to_text(),
        "unknown field: mars"
    );
    assert_eq!(
        ServerError::SchemaError(SchemaResolutionError::IllegalRefOnScalar).to_text(),
        "path continues through scalar value"
    );
}

#[test]
fn replies() {
    assert!(matches!(
        reply_to_read(Ok(text("v"))),
        ServerMessage::Value(Value::String(s)) if s == "v"
    ));
    assert!(matches!(
        reply_to_read(Err(ServerError::KeyNotFound)),
        ServerMessage::Error(s) if s == "key not found"
    ));
    assert!(matches!(
        reply_to_write(Ok(())),
        ServerMessage::Value(Value::Null)
    ));
    assert!(matches!(
        reply_to_write(Err(ServerError::SchemaMismatch)),
        ServerMessage::Error(s) if s == "schema mismatch"
    ));
}

#[test]
fn refused_request_is_answered_and_skipped() {
    let mut server = document_server();
    let mut session = Session::new(false);
    let actions = session.handle(
        &mut server,
        false,
        ClientMessage::Insert(
            create_ref(&["hello"]),
            map(&[("world", "1"), ("new york", "2")]),
        ),
    );
    assert_eq!(actions.len(), 1);
    assert!(matches!(
        &actions[0],
        Action::Respond(ServerMessage::Error(s)) if s == "permissions"
    ));
    assert_eq!(server.get(&create_ref(&["hello"])).unwrap(), Value::Null);
}

#[test]
fn refused_subscription_starts_no_watch() {
    let mut server = document_server();
    let mut session = Session::new(true);
    let actions = session.handle(
        &mut server,
        false,
        ClientMessage::Subscribe(create_ref(&["hello"])),
    );
    assert_eq!(actions.len(), 1);
    assert!(matches!(
        &actions[0],
        Action::Respond(ServerMessage::Error(s)) if s == "permissions"
    ));
    assert!(session.close().is_empty());
}

#[test]
fn insert_then_get_through_a_session() {
    let mut server = document_server();
    let mut session = Session::new(false);
    let actions = session.handle(
        &mut server,
        true,
        ClientMessage::Insert(
            create_ref(&["hello"]),
            map(&[("world", "v"), ("new york", "w")]),
        ),
    );
    assert_eq!(actions.len(), 1);
    assert!(matches!(
        &actions[0],
        Action::Respond(ServerMessage::Value(Value::Null))
    ));
    let actions = session.handle(
        &mut server,
        true,
        ClientMessage::Get(create_ref(&["hello", "world"])),
    );
    assert_eq!(actions.len(), 1);
    assert!(matches!(
        &actions[0],
        Action::Respond(ServerMessage::Value(Value::String(s))) if s == "v"
    ));
}

#[test]
fn failed_requests_are_answered_by_their_error() {
    let mut server = document_server();
    let mut session = Session::new(false);
    let actions = session.handle(
        &mut server,
        true,
        ClientMessage::Get(create_ref(&["hello", "world"])),
    );
    assert!(matches!(
        &actions[0],
        Action::Respond(ServerMessage::Error(s)) if s == "key not found"
    ));
    let actions = session.handle(
        &mut server,
        true,
        ClientMessage::Update(create_ref(&["hello", "world"]), text("1")),
    );
    assert!(matches!(
        &actions[0],
        Action::Respond(ServerMessage::Error(s)) if s == "key not found"
    ));
    let actions = session.handle(
        &mut server,
        true,
        ClientMessage::Remove(create_ref(&["goodbye"])),
    );
    assert!(matches!(
        &actions[0],
        Action::Respond(ServerMessage::Error(s)) if s == "unknown field: goodbye"
    ));
}

#[test]
fn update_and_remove_through_a_session() {
    let mut server = document_server();
    let mut session = Session::new(false);
    server
        .insert(&create_ref(&["hello"]), map(&[("world", "1"), ("new york", "2")]))
        .unwrap();
    let actions = session.handle(
        &mut server,
        true,
        ClientMessage::Update(create_ref(&["hello", "world"]), text("3")),
    );
    assert!(matches!(
        &actions[0],
        Action::Respond(ServerMessage::Value(Value::Null))
    ));
    assert_eq!(
        server.get(&create_ref(&["hello", "world"])).unwrap(),
        text("3")
    );
    let actions = session.handle(
        &mut server,
        true,
        ClientMessage::Remove(create_ref(&["hello"])),
    );
    assert!(matches!(
        &actions[0],
        Action::Respond(ServerMessage::Value(Value::Null))
    ));
    assert_eq!(server.get(&create_ref(&["hello"])).unwrap(), Value::Null);
}

#[test]
fn subscribe_without_acknowledgement() {
    let mut server = document_server();
    let mut session = Session::new(false);
    let key = create_ref(&["hello", "world"]);
    let actions = session.handle(&mut server, true, ClientMessage::Subscribe(key.duplicate()));
    assert_eq!(actions.len(), 1);
    assert!(matches!(&actions[0], Action::Watch(k) if *k == key));
}

#[test]
fn subscribe_with_acknowledgement() {
    let mut server = document_server();
    let mut session = Session::new(true);
    let key = create_ref(&["hello", "world"]);
    let actions = session.handle(&mut server, true, ClientMessage::Subscribe(key.duplicate()));
    assert_eq!(actions.len(), 2);
    assert!(matches!(
        &actions[0],
        Action::Respond(ServerMessage::Value(Value::Null))
    ));
    assert!(matches!(&actions[1], Action::Watch(k) if *k == key));
}

#[test]
fn unsubscribe_cancels_once_and_is_not_answered() {
    let mut server = document_server();
    let mut session = Session::new(false);
    let key = create_ref(&["hello", "world"]);
    session.handle(&mut server, true, ClientMessage::Subscribe(key.duplicate()));
    let actions = session.handle(&mut server, false, ClientMessage::Unsubscribe(key.duplicate()));
    assert_eq!(actions.len(), 1);
    assert!(matches!(&actions[0], Action::Cancel(k) if *k == key));
    let actions = session.handle(&mut server, true, ClientMessage::Unsubscribe(key));
    assert!(actions.is_empty());
}

#[test]
fn close_cancels_every_subscription_in_order() {
    let mut server = document_server();
    let mut session = Session::new(false);
    let first = create_ref(&["hello", "world"]);
    let second = create_ref(&["hello"]);
    session.handle(&mut server, true, ClientMessage::Subscribe(first.duplicate()));
    session.handle(&mut server, true, ClientMessage::Subscribe(second.duplicate()));
    session.handle(&mut server, true, ClientMessage::Subscribe(first.duplicate()));
    let actions = session.close();
    assert_eq!(actions.len(), 2);
    assert!(matches!(&actions[0], Action::Cancel(k) if *k == first));
    assert!(matches!(&actions[1], Action::Cancel(k) if *k == second));
    assert!(session.close().is_empty());
}

#[test]
fn raw_insert_becomes_insert_event() {
    let path = create_ref(&["hello", "world"]);
    let event = project_event(RawEvent::Insert {
        key: key_of(&path),
        value: vec![b'v'],
    });
    match event {
        Ok(PathEvent::Insert { key, value }) => {
            assert_eq!(key, path);
            assert_eq!(value, vec![b'v']);
        }
        _ => panic!("expected insert event"),
    }
}

#[test]
fn raw_remove_becomes_remove_event() {
    let path = create_ref(&["fruits", "apple"]);
    let event = project_event(RawEvent::Remove { key: key_of(&path) });
    match event {
        Ok(PathEvent::Remove { key }) => assert_eq!(key, path),
        _ => panic!("expected remove event"),
    }
}

#[test]
fn raw_event_with_corrupt_key_is_an_error() {
    assert!(matches!(
        project_event(RawEvent::Remove { key: vec![1, 2, 3] }),
        Err(ServerError::CorruptKey)
    ));
    assert!(matches!(
        project_event(RawEvent::Insert {
            key: vec![1, 2, 3],
            value: vec![]
        }),
        Err(ServerError::CorruptKey)
    ));
}

#[test]
fn stream_ends_after_an_error() {
    let server = document_server();
    let path = create_ref(&["hello"]);
    let mut stream = server.subscribe(&path);
    assert!(!stream.ended());
    assert_eq!(*stream.key(), path);
    let good = stream.project(Some(RawEvent::Remove { key: key_of(&path) }));
    assert!(matches!(good, Some(Ok(PathEvent::Remove { .. }))));
    assert!(!stream.ended());
    let bad = stream.project(Some(RawEvent::Remove { key: vec![7] }));
    assert!(matches!(bad, Some(Err(ServerError::CorruptKey))));
    assert!(stream.ended());
    let later = stream.project(Some(RawEvent::Remove { key: key_of(&path) }));
    assert!(later.is_none());
    assert!(stream.next_event().is_none());
}

#[test]
fn stream_ends_when_there_is_no_change() {
    let server = document_server();
    let mut stream = server.subscribe(&create_ref(&["hello"]));
    assert!(stream.project(None).is_none());
    assert!(stream.ended());
}

#[test]
fn subscription_update_carries_the_subscribed_path() {
    let subscribed = create_ref(&["hello"]);
    let changed = create_ref(&["hello", "world"]);
    let (msg, stop) = subscription_update(
        &subscribed,
        Ok(PathEvent::Insert {
            key: changed.duplicate(),
            value: vec![b'4'],
        }),
    );
    assert!(!stop);
    assert!(matches!(
        msg,
        ServerMessage::SubscriptionUpdate(k, Some(s)) if k == subscribed && s == "4"
    ));
    let (msg, stop) = subscription_update(&subscribed, Ok(PathEvent::Remove { key: changed }));
    assert!(!stop);
    assert!(matches!(
        msg,
        ServerMessage::SubscriptionUpdate(k, None) if k == subscribed
    ));
}

#[test]
fn subscription_update_for_what_is_no_string_is_the_last() {
    let subscribed = create_ref(&["hello"]);
    let (msg, stop) = subscription_update(
        &subscribed,
        Ok(PathEvent::Insert {
            key: create_ref(&["hello", "world"]),
            value: vec![0xff],
        }),
    );
    assert!(stop);
    assert!(matches!(msg, ServerMessage::Error(s) if s == "corrupt key"));
    let (msg, stop) = subscription_update(&subscribed, Err(ServerError::CorruptKey));
    assert!(stop);
    assert!(matches!(msg, ServerMessage::Error(s) if s == "corrupt key"));
}

#[test]
fn subscription_sees_only_what_is_at_or_below_its_path() {
    let db = sled::Config::new()
        .temporary(true)
        .flush_every_ms(None)
        .open()
        .unwrap();
    let schema = Schema::create(SchemaItem::Document(vec![
        (
            "hello".to_string(),
            SchemaItem::Document(vec![("world".to_string(), SchemaItem::Scalar)]),
        ),
        (
            "other".to_string(),
            SchemaItem::Document(vec![("world".to_string(), SchemaItem::Scalar)]),
        ),
    ]));
    let mut server = Server::with_store(db, schema);
    let mut stream = server.subscribe(&create_ref(&["hello"]));
    server
        .insert(&create_ref(&["other"]), map(&[("world", "a")]))
        .unwrap();
    server
        .insert(&create_ref(&["hello"]), map(&[("world", "b")]))
        .unwrap();
    let mut seen = Vec::new();
    for _ in 0..2 {
        match stream.next_event() {
            Some(Ok(PathEvent::Insert { key, .. })) => seen.push(key),
            _ => panic!("expected insert event"),
        }
    }
    seen.sort_by(|a, b| a.0.len().cmp(&b.0.len()));
    assert_eq!(seen, vec![create_ref(&["hello"]), create_ref(&["hello", "world"])]);
}

#[test]
fn schema_errors_are_answered_by_their_words() {
    let mut server = document_server();
    let mut session = Session::new(false);
    let actions = session.handle(
        &mut server,
        true,
        ClientMessage::Get(create_ref(&["hello", "world", "deeper"])),
    );
    assert!(matches!(
        &actions[0],
        Action::Respond(ServerMessage::Error(s)) if s == "path continues through scalar value"
    ));
    let actions = session.handle(
        &mut server,
        true,
        ClientMessage::Insert(create_ref(&["hello", "world"]), text("v")),
    );
    assert!(matches!(
        &actions[0],
        Action::Respond(ServerMessage::Error(s))
            if s == "only documents and collections may be inserted, scalar values"
    ));
    let actions = session.handle(
        &mut server,
        true,
        ClientMessage::Update(create_ref(&["mars"]), text("v")),
    );
    assert!(matches!(
        &actions[0],
        Action::Respond(ServerMessage::Error(s)) if s == "unknown field: mars"
    ));
}

#[test]
fn schema_checks() {
    assert!(Schema::empty().is_wf());
    let twice = SchemaItem::Document(vec![
        ("a".to_string(), SchemaItem::Scalar),
        ("a".to_string(), SchemaItem::Scalar),
    ]);
    assert!(!twice.is_wf());
    assert!(Schema::checked(twice).is_none());
    let nested_twice = SchemaItem::Document(vec![(
        "c".to_string(),
        SchemaItem::Collection(Box::new(SchemaItem::Document(vec![
            ("a".to_string(), SchemaItem::Scalar),
            ("b".to_string(), SchemaItem::Scalar),
            ("a".to_string(), SchemaItem::Scalar),
        ]))),
    )]);
    assert!(!nested_twice.is_wf());
    assert!(SchemaItem::Scalar.is_wf());
    assert!(!Schema::create(SchemaItem::Scalar).is_wf());
    assert!(Schema::checked(SchemaItem::Scalar).is_none());
    let good = SchemaItem::Document(vec![
        ("a".to_string(), SchemaItem::Scalar),
        (
            "b".to_string(),
            SchemaItem::Collection(Box::new(SchemaItem::Scalar)),
        ),
    ]);
    assert!(Schema::checked(good).is_some());
}

#[test]
fn value_checks() {
    assert!(Value::Null.is_wf());
    assert!(map(&[("a", "1"), ("b", "2")]).is_wf());
    assert!(!map(&[("a", "1"), ("a", "2")]).is_wf());
    assert!(!Value::Array(vec![Value::Null, map(&[("a", "1"), ("a", "2")])]).is_wf());
    assert!(!Value::Object(vec![("x".to_string(), map(&[("a", "1"), ("a", "2")]))]).is_wf());
}

#[test]
fn ref_child_and_same() {
    let path = create_ref(&["fruits"]);
    let below = path.child(&"apple".to_string());
    assert_eq!(below, create_ref(&["fruits", "apple"]));
    assert!(below.same(&create_ref(&["fruits", "apple"])));
    assert!(!below.same(&path));
    assert!(!below.same(&create_ref(&["fruits", "pear"])));
    assert!(path.duplicate().same(&path));
}

#[test]
fn registry_hands_out_fresh_numbers() {
    let mut manager = ClientManager::new();
    let first = manager.new_client();
    let second = manager.new_client();
    assert_eq!(first, ClientId(0));
    assert_eq!(second, ClientId(1));
    assert!(manager.is_registered(first));
    manager.remove(first);
    assert!(!manager.is_registered(first));
    assert!(manager.is_registered(second));
    let third = manager.new_client();
    assert_eq!(third, ClientId(2));
    manager.remove(ClientId(77));
    assert!(manager.is_registered(third));
}
