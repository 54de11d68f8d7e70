use docstore::codec::CorruptKey;
use docstore::message::Ref;
use docstore::schema::{Schema, SchemaItem, SchemaResolutionError};

fn names(components: &[&str]) -> Vec<String> {
    components.iter().map(|component| component.to_string()).collect()
}

fn sample_schema() -> Schema {
    Schema::create(SchemaItem::Document(vec![
        (
            "hello".to_string(),
            SchemaItem::Document(vec![
                ("world".to_string(), SchemaItem::Scalar),
                ("new york".to_string(), SchemaItem::Scalar),
            ]),
        ),
        (
            "fruits".to_string(),
            SchemaItem::Collection(Box::new(SchemaItem::Document(vec![(
                "color".to_string(),
                SchemaItem::Scalar,
            )]))),
        ),
    ]))
}

#[test]
fn it_works() {
    let result = docstore::add(2, 2);
    assert_eq!(result, 4);
}

#[test]
fn round_trip_ref() {
    let schema = Schema::empty();
    let r = Ref(vec![
        "apple".to_string(),
        "banana".to_string(),
        "cherry".to_string(),
        "date".to_string(),
        "elderberry".to_string(),
    ]);
    let encoded = schema.encode_ref(&r.0);
    let decoded = schema.decode_ref(&encoded).unwrap();
    assert_eq!(r, Ref(decoded));
}

#[test]
fn encode_writes_length_then_bytes() {
    let schema = Schema::empty();
    let encoded = schema.encode_ref(&names(&["ab", "c"]));
    assert_eq!(
        encoded,
        vec![2, 0, 0, 0, 0, 0, 0, 0, b'a', b'b', 1, 0, 0, 0, 0, 0, 0, 0, b'c']
    );
}

#[test]
fn encode_empty_path_is_empty_key() {
    let schema = Schema::empty();
    assert_eq!(schema.encode_ref(&[]), Vec::<u8>::new());
    assert_eq!(schema.decode_ref(&[]).unwrap(), Vec::<String>::new());
}

#[test]
fn round_trip_empty_and_non_ascii_names() {
    let schema = Schema::empty();
    let path = names(&["", "na\u{ef}ve", "\u{1f34e}", "new york"]);
    let encoded = schema.encode_ref(&path);
    assert_eq!(schema.decode_ref(&encoded).unwrap(), path);
}

#[test]
fn ancestor_key_is_prefix_of_descendant_key() {
    let schema = Schema::empty();
    let above = schema.encode_ref(&names(&["fruits"]));
    let below = schema.encode_ref(&names(&["fruits", "apple", "color"]));
    let beside = schema.encode_ref(&names(&["fruit", "apple"]));
    assert!(below.starts_with(&above));
    assert!(!beside.starts_with(&above));
    assert!(!above.starts_with(&below));
}

#[test]
fn decode_rejects_truncated_length() {
    let schema = Schema::empty();
    assert_eq!(schema.decode_ref(&[1, 0, 0]), Err(CorruptKey));
}

#[test]
fn decode_rejects_truncated_body() {
    let schema = Schema::empty();
    assert_eq!(
        schema.decode_ref(&[3, 0, 0, 0, 0, 0, 0, 0, b'a', b'b']),
        Err(CorruptKey)
    );
}

#[test]
fn decode_rejects_huge_length() {
    let schema = Schema::empty();
    assert_eq!(
        schema.decode_ref(&[255, 255, 255, 255, 255, 255, 255, 255, b'a']),
        Err(CorruptKey)
    );
}

#[test]
fn decode_rejects_invalid_utf8() {
    let schema = Schema::empty();
    assert_eq!(
        schema.decode_ref(&[1, 0, 0, 0, 0, 0, 0, 0, 0xff]),
        Err(CorruptKey)
    );
}

#[test]
fn resolve_empty_path_is_root() {
    let schema = sample_schema();
    assert!(matches!(schema.resolve(&[]), Ok(SchemaItem::Document(_))));
}

#[test]
fn resolve_walks_documents_and_collections() {
    let schema = sample_schema();
    assert!(matches!(
        schema.resolve(&names(&["hello"])),
        Ok(SchemaItem::Document(_))
    ));
    assert!(matches!(
        schema.resolve(&names(&["hello", "world"])),
        Ok(SchemaItem::Scalar)
    ));
    assert!(matches!(
        schema.resolve(&names(&["fruits"])),
        Ok(SchemaItem::Collection(_))
    ));
    assert!(matches!(
        schema.resolve(&names(&["fruits", "any name at all"])),
        Ok(SchemaItem::Document(_))
    ));
    assert!(matches!(
        schema.resolve(&names(&["fruits", "apple", "color"])),
        Ok(SchemaItem::Scalar)
    ));
}

#[test]
fn resolve_unknown_field() {
    let schema = sample_schema();
    match schema.resolve(&names(&["hello", "mars"])) {
        Err(e) => assert_eq!(e, SchemaResolutionError::UnknownField("mars".to_string())),
        Ok(_) => panic!("expected an unknown field"),
    }
}

#[test]
fn resolve_past_scalar() {
    let schema = sample_schema();
    match schema.resolve(&names(&["hello", "world", "deeper"])) {
        Err(e) => assert_eq!(e, SchemaResolutionError::IllegalRefOnScalar),
        Ok(_) => panic!("expected an illegal path"),
    }
}

#[test]
fn resolve_on_empty_schema() {
    let schema = Schema::empty();
    assert!(matches!(schema.resolve(&[]), Ok(SchemaItem::Document(_))));
    assert!(schema.resolve(&names(&["hello"])).is_err());
}
