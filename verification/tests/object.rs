use object_system::json::{JsonObject, JsonValue};
use object_system::object::{extract_reason, WriteBusinessObjectError};
use object_system::{BusinessObject, Payload, ReadBusinessObjectError};

fn strings(items: &[&str]) -> JsonValue {
    JsonValue::Array(items.iter().map(|s| JsonValue::String(s.to_string())).collect())
}

fn plain(event: Option<&str>) -> BusinessObject {
    BusinessObject {
        event: event.map(|e| e.to_string()),
        _type: None,
        size: None,
        payload: None,
        metadata: JsonObject::new(),
    }
}

#[test]
fn smoke_test_serialization_and_deserialization() {
    let mut metadata = JsonObject::new();
    metadata.insert(
        "subscriptions".to_string(),
        strings(&["@routing/*", "@services/*", "@ping", "@pong"]),
    );
    metadata.insert("subscriptions".to_string(), strings(&["*"]));

    let subscription = BusinessObject {
        _type: None,
        payload: None,
        size: None,
        event: Some("routing/subscribe".to_string()),
        metadata: metadata,
    };

    let json_repr_from = subscription.to_json();
    let string_repr = json_repr_from.to_text();
    let json_repr_to = JsonValue::from_text(&string_repr).unwrap();
    let back = BusinessObject::from_json(&json_repr_to).unwrap();

    assert!(json_repr_from == json_repr_to);
    assert!(subscription == back);
}

#[test]
fn header_text_is_compact_with_sorted_keys() {
    let mut object = plain(Some("note"));
    object.metadata.insert("natures".to_string(), strings(&["chat"]));
    object.metadata.insert("id".to_string(), JsonValue::String("a1".to_string()));
    assert_eq!(
        object.to_json().to_text(),
        "{\"event\":\"note\",\"id\":\"a1\",\"natures\":[\"chat\"]}"
    );
}

#[test]
fn to_json_adds_the_fields_that_are_present() {
    let mut object = plain(Some("note"));
    object._type = Some("text/plain".to_string());
    object.size = Some(5);
    object.payload = Some(Payload::Bytes(b"hello".to_vec()));
    let header = object.to_json();
    let fields = header.as_object().unwrap();
    assert!(*fields.get("event").unwrap() == JsonValue::String("note".to_string()));
    assert!(*fields.get("type").unwrap() == JsonValue::String("text/plain".to_string()));
    assert!(*fields.get("size").unwrap() == JsonValue::U64(5));
    assert!(fields.get("payload").is_none());

    let bare = plain(None).to_json();
    assert_eq!(bare.to_text(), "{}");
}

#[test]
fn to_bytes_frames_header_nul_payload() {
    let mut object = plain(Some("note"));
    object._type = Some("text/plain".to_string());
    object.size = Some(5);
    object.payload = Some(Payload::Bytes(b"hello".to_vec()));
    let bytes = object.to_bytes().unwrap();
    assert_eq!(
        bytes,
        b"{\"event\":\"note\",\"size\":5,\"type\":\"text/plain\"}\0hello".to_vec()
    );

    assert_eq!(plain(Some("ping")).to_bytes().unwrap(), b"{\"event\":\"ping\"}\0".to_vec());
}

#[test]
fn to_bytes_escapes_nul_inside_strings() {
    let mut object = plain(Some("a\0b"));
    object.metadata.insert("k\0".to_string(), JsonValue::String("\0".to_string()));
    let bytes = object.to_bytes().unwrap();
    let nul = bytes.iter().position(|b| *b == 0).unwrap();
    assert_eq!(nul, bytes.len() - 1);
}

#[test]
fn to_bytes_refuses_a_broken_invariant() {
    let mut size_without_payload = plain(None);
    size_without_payload.size = Some(3);
    assert_eq!(
        size_without_payload.to_bytes(),
        Err(WriteBusinessObjectError::EncodeInvariantViolated)
    );

    let mut payload_without_size = plain(None);
    payload_without_size.payload = Some(Payload::Bytes(vec![1, 2, 3]));
    assert!(payload_without_size.to_bytes().is_err());

    let mut wrong_length = plain(None);
    wrong_length.size = Some(4);
    wrong_length.payload = Some(Payload::Bytes(vec![1, 2, 3]));
    assert!(wrong_length.to_bytes().is_err());

    let mut empty_payload = plain(None);
    empty_payload.size = Some(0);
    empty_payload.payload = Some(Payload::Bytes(vec![]));
    assert!(empty_payload.to_bytes().is_err());
    empty_payload.size = None;
    assert!(empty_payload.to_bytes().is_err());

    for key in ["event", "type", "size"] {
        let mut reserved = plain(None);
        reserved.metadata.insert(key.to_string(), JsonValue::Null);
        assert!(!reserved.is_well_formed());
        assert!(reserved.to_bytes().is_err());
    }

    let mut fine = plain(Some("x"));
    fine.size = Some(3);
    fine.payload = Some(Payload::Bytes(vec![1, 2, 3]));
    assert!(fine.is_well_formed());
    assert!(fine.to_bytes().is_ok());
}

#[test]
fn from_json_takes_reserved_fields_by_type() {
    let value = JsonValue::from_text(
        "{\"event\":\"note\",\"type\":\"text/plain\",\"size\":7,\"id\":\"x\",\"n\":[1,2]}",
    )
    .unwrap();
    let object = BusinessObject::from_json(&value).unwrap();
    assert_eq!(object.event, Some("note".to_string()));
    assert_eq!(object._type, Some("text/plain".to_string()));
    assert_eq!(object.size, Some(7));
    assert!(object.payload.is_none());
    assert!(object.metadata.get("event").is_none());
    assert!(object.metadata.get("type").is_none());
    assert!(object.metadata.get("size").is_none());
    assert!(*object.metadata.get("id").unwrap() == JsonValue::String("x".to_string()));
    assert!(
        *object.metadata.get("n").unwrap()
            == JsonValue::Array(vec![JsonValue::U64(1), JsonValue::U64(2)])
    );
}

#[test]
fn from_json_ignores_reserved_fields_of_the_wrong_type() {
    let value =
        JsonValue::from_text("{\"event\":5,\"type\":[\"a\"],\"size\":\"7\",\"k\":true}").unwrap();
    let object = BusinessObject::from_json(&value).unwrap();
    assert_eq!(object.event, None);
    assert_eq!(object._type, None);
    assert_eq!(object.size, None);
    assert!(object.metadata.get("event").is_none());
    assert!(*object.metadata.get("k").unwrap() == JsonValue::Boolean(true));
}

#[test]
fn from_json_treats_size_zero_and_negative_as_absent() {
    for text in ["{\"size\":0}", "{\"size\":-3}", "{\"size\":1.5}", "{\"size\":null}"] {
        let value = JsonValue::from_text(text).unwrap();
        let object = BusinessObject::from_json(&value).unwrap();
        assert_eq!(object.size, None);
        assert!(!object.has_payload());
    }
    let value = JsonValue::from_text("{\"size\":1}").unwrap();
    let object = BusinessObject::from_json(&value).unwrap();
    assert_eq!(object.size, Some(1));
    assert!(object.has_payload());
}

#[test]
fn from_json_refuses_what_is_no_object() {
    for text in ["[1,2]", "\"text\"", "5", "null", "true"] {
        let value = JsonValue::from_text(text).unwrap();
        match BusinessObject::from_json(&value) {
            Err(ReadBusinessObjectError::JsonSemanticsError(reason)) => {
                assert_eq!(reason, "Unsupported JSON type")
            }
            _ => panic!("expected a semantics error for {}", text),
        }
    }
}

#[test]
fn has_payload_goes_by_size() {
    let mut object = plain(None);
    assert!(!object.has_payload());
    object.size = Some(0);
    assert!(!object.has_payload());
    object.size = Some(9);
    assert!(object.has_payload());
}

#[test]
fn natures_are_the_strings_of_the_array() {
    let mut object = plain(None);
    assert_eq!(object.natures(), Vec::<&str>::new());

    object.metadata.insert("natures".to_string(), JsonValue::String("chat".to_string()));
    assert_eq!(object.natures(), Vec::<&str>::new());

    object.metadata.insert(
        "natures".to_string(),
        JsonValue::Array(vec![
            JsonValue::String("chat".to_string()),
            JsonValue::U64(4),
            JsonValue::Null,
            JsonValue::String("news".to_string()),
            JsonValue::Array(vec![JsonValue::String("nested".to_string())]),
        ]),
    );
    assert_eq!(object.natures(), vec!["chat", "news"]);
}

#[test]
fn a_size_of_zero_goes_without_payload() {
    let mut zero = plain(Some("note"));
    zero.size = Some(0);
    assert!(zero.is_well_formed());
    assert!(!zero.has_payload());
    assert_eq!(zero.to_bytes().unwrap(), b"{\"event\":\"note\",\"size\":0}\0".to_vec());

    let header = JsonValue::from_text("{\"event\":\"note\",\"size\":0}").unwrap();
    let back = BusinessObject::from_json(&header).unwrap();
    assert_eq!(back.size, None);
    assert!(back != zero);
}

#[test]
fn equality_looks_at_every_field_and_at_the_metadata() {
    let mut left = plain(Some("note"));
    let mut right = plain(Some("note"));
    assert!(left == right);
    left.metadata.insert("a".to_string(), JsonValue::U64(1));
    assert!(left != right);
    right.metadata.insert("a".to_string(), JsonValue::U64(2));
    assert!(left != right);
    right.metadata.insert("a".to_string(), JsonValue::U64(1));
    assert!(left == right);

    left.metadata.insert("b".to_string(), strings(&["x", "y"]));
    right.metadata.insert("c".to_string(), JsonValue::Null);
    right.metadata.insert("b".to_string(), strings(&["x", "y"]));
    assert!(left != right);
    left.metadata.insert("c".to_string(), JsonValue::Null);
    assert!(left == right);

    right.event = Some("other".to_string());
    assert!(left != right);

    let mut with_payload = plain(Some("note"));
    with_payload.size = Some(2);
    with_payload.payload = Some(Payload::Bytes(vec![1, 2]));
    assert!(plain(Some("note")) != with_payload);
    let mut same_payload = with_payload.clone();
    assert!(same_payload == with_payload);
    same_payload.payload = Some(Payload::Bytes(vec![1, 3]));
    assert!(same_payload != with_payload);
    same_payload.payload = Some(Payload::Bytes(vec![1, 2]));
    same_payload._type = Some("t".to_string());
    assert!(same_payload != with_payload);
    same_payload._type = None;
    same_payload.size = Some(3);
    assert!(same_payload != with_payload);
}

#[test]
fn duplicate_keeps_every_field() {
    let mut object = plain(Some("note"));
    object._type = Some("text/plain".to_string());
    object.size = Some(2);
    object.payload = Some(Payload::Bytes(vec![7, 8]));
    object.metadata.insert("natures".to_string(), strings(&["chat"]));
    let copy = object.duplicate();
    assert!(copy == object);
    assert!(copy.to_json() == object.to_json());
    assert_eq!(copy.to_bytes().unwrap(), object.to_bytes().unwrap());
}

#[test]
fn extract_reason_names_the_cause() {
    assert_eq!(
        extract_reason(&ReadBusinessObjectError::JsonSemanticsError("Unsupported JSON type")),
        "Unsupported JSON type"
    );
    assert_eq!(
        extract_reason(&ReadBusinessObjectError::JsonSyntaxError(
            "{".to_string(),
            "broken".to_string()
        )),
        "broken"
    );
    assert_eq!(
        extract_reason(&ReadBusinessObjectError::BufferCharacterDecodingError),
        "Character encoding error"
    );
    let io = std::io::Error::new(std::io::ErrorKind::Other, "gone");
    let error = ReadBusinessObjectError::ReadError(io);
    assert_eq!(extract_reason(&error), "Read error");
    assert_eq!(error.description(), "Read error");
}
