use object_system::json::{JsonObject, JsonValue};
use object_system::stream::{read_frame, read_header, BusinessObjectStream, FrameRead};
use object_system::{BusinessObject, Payload, ReadBusinessObjectError};

fn note(event: &str, nature: &str, payload: Option<&[u8]>) -> BusinessObject {
    let mut metadata = JsonObject::new();
    metadata.insert(
        "natures".to_string(),
        JsonValue::Array(vec![JsonValue::String(nature.to_string())]),
    );
    BusinessObject {
        event: Some(event.to_string()),
        _type: payload.map(|_| "application/octet-stream".to_string()),
        size: payload.map(|p| p.len()),
        payload: payload.map(|p| Payload::Bytes(p.to_vec())),
        metadata,
    }
}

fn same(left: &BusinessObject, right: &BusinessObject) -> bool {
    left == right && left.to_json() == right.to_json()
}

#[test]
fn frame_round_trip() {
    for object in [
        note("note", "chat", None),
        note("note", "chat", Some(b"hello")),
        note("blob", "bin", Some(&[0, 0, 255, 0, 1])),
    ] {
        let bytes = object.to_bytes().unwrap();
        match read_frame(&bytes) {
            FrameRead::Complete(back, length) => {
                assert_eq!(length, bytes.len());
                assert!(same(&back, &object));
            }
            _ => panic!("expected a whole frame"),
        }
    }
}

#[test]
fn read_frame_waits_for_the_nul_and_for_the_payload() {
    let bytes = note("note", "chat", Some(b"hello")).to_bytes().unwrap();
    assert!(matches!(read_frame(&[]), FrameRead::Incomplete));
    let nul = bytes.iter().position(|b| *b == 0).unwrap();
    for cut in 0..bytes.len() {
        assert!(matches!(read_frame(&bytes[..cut]), FrameRead::Incomplete), "cut at {}", cut);
    }
    assert_eq!(nul + 1 + 5, bytes.len());
    assert!(matches!(read_frame(&bytes), FrameRead::Complete(_, _)));
}

#[test]
fn read_frame_takes_exactly_one_frame() {
    let first = note("a", "x", Some(b"12")).to_bytes().unwrap();
    let second = note("b", "y", None).to_bytes().unwrap();
    let mut both = first.clone();
    both.extend_from_slice(&second);
    match read_frame(&both) {
        FrameRead::Complete(object, length) => {
            assert_eq!(length, first.len());
            assert_eq!(object.event, Some("a".to_string()));
            assert_eq!(object.payload, Some(Payload::Bytes(b"12".to_vec())));
        }
        _ => panic!("expected a whole frame"),
    }
}

#[test]
fn read_header_tells_the_three_errors_apart() {
    match read_header(&[0xff, 0xfe]) {
        Err(ReadBusinessObjectError::BufferCharacterDecodingError) => {}
        _ => panic!("expected a character decoding error"),
    }
    match read_header(b"{event:\"x\"}") {
        Err(ReadBusinessObjectError::JsonSyntaxError(text, reason)) => {
            assert_eq!(text, "{event:\"x\"}");
            assert_eq!(reason, "SyntaxError(\"key must be a string\", 1, 2)");
        }
        _ => panic!("expected a syntax error"),
    }
    match read_header(b"[1,2,3]") {
        Err(ReadBusinessObjectError::JsonSemanticsError(reason)) => {
            assert_eq!(reason, "Unsupported JSON type")
        }
        _ => panic!("expected a semantics error"),
    }
    match read_header(b"{\"a\":1e12345678901234567890}") {
        Err(ReadBusinessObjectError::JsonSyntaxError(_, reason)) => {
            assert_eq!(reason, "JSON text beyond the limits of the parser")
        }
        _ => panic!("expected a syntax error"),
    }
    let object = read_header("{\"event\":\"\u{e9}v\"}".as_bytes()).unwrap();
    assert_eq!(object.event, Some("\u{e9}v".to_string()));
}

#[test]
fn stream_concatenation_in_any_chunks() {
    let objects = vec![
        note("one", "a", None),
        note("two", "b", Some(b"payload with \0 inside")),
        note("three", "c", Some(b"x")),
        note("four", "d", None),
    ];
    let mut wire = Vec::new();
    for object in &objects {
        wire.extend_from_slice(&object.to_bytes().unwrap());
    }
    for chunk in [1, 2, 3, 7, 16, 64, wire.len()] {
        let mut stream = BusinessObjectStream::new();
        let mut seen = Vec::new();
        for piece in wire.chunks(chunk) {
            stream.feed(piece);
            seen.extend(stream.read_business_objects().unwrap());
        }
        assert_eq!(seen.len(), objects.len(), "chunks of {}", chunk);
        for (back, object) in seen.iter().zip(objects.iter()) {
            assert!(same(back, object));
        }
        assert!(stream.buffer.is_empty());
    }
}

#[test]
fn stream_keeps_an_unfinished_frame() {
    let bytes = note("note", "chat", Some(b"hello")).to_bytes().unwrap();
    let mut stream = BusinessObjectStream::new();
    stream.feed(&bytes);
    stream.feed(&bytes[..bytes.len() - 2]);
    let objects = stream.read_business_objects().unwrap();
    assert_eq!(objects.len(), 1);
    assert_eq!(stream.buffer, bytes[..bytes.len() - 2].to_vec());
    assert!(stream.read_business_objects().unwrap().is_empty());
    stream.feed(&bytes[bytes.len() - 2..]);
    assert_eq!(stream.read_business_objects().unwrap().len(), 1);
    assert!(stream.buffer.is_empty());
}

#[test]
fn stream_stops_at_a_broken_header_and_keeps_it() {
    let good = note("note", "chat", None).to_bytes().unwrap();
    let mut rest = b"{event:\"x\"}\0".to_vec();
    rest.extend_from_slice(&good);

    let mut stream = BusinessObjectStream::new();
    stream.feed(&good);
    stream.feed(&good);
    stream.feed(&rest);
    let objects = stream.read_business_objects().unwrap();
    assert_eq!(objects.len(), 2);
    assert_eq!(stream.buffer, rest);
    for _ in 0..2 {
        match stream.read_business_objects() {
            Err(ReadBusinessObjectError::JsonSyntaxError(_, _)) => {}
            _ => panic!("expected a syntax error"),
        }
        assert_eq!(stream.buffer, rest);
    }

    let mut stream = BusinessObjectStream::new();
    stream.feed(&good);
    stream.feed(&rest);
    let read = stream.read_frames();
    assert_eq!(read.objects.len(), 1);
    assert!(matches!(read.failure, Some(ReadBusinessObjectError::JsonSyntaxError(_, _))));
    assert_eq!(stream.buffer, rest);
    let read = stream.read_frames();
    assert!(read.objects.is_empty());
    assert!(read.failure.is_some());

    let mut stream = BusinessObjectStream::new();
    stream.feed(&good);
    let read = stream.read_frames();
    assert_eq!(read.objects.len(), 1);
    assert!(read.failure.is_none());
    assert!(stream.buffer.is_empty());
}

#[test]
fn emitted_objects_have_payloads_of_their_size_and_no_reserved_keys() {
    let mut stream = BusinessObjectStream::new();
    stream.feed(b"{\"event\":\"a\",\"size\":3,\"type\":\"t\",\"k\":1}\0abc");
    stream.feed(b"{\"event\":\"b\",\"size\":0}\0");
    stream.feed(b"{\"size\":\"3\",\"type\":7}\0");
    let objects = stream.read_business_objects().unwrap();
    assert_eq!(objects.len(), 3);
    for object in &objects {
        let size = object.size.unwrap_or(0);
        let length = match &object.payload {
            Some(Payload::Bytes(bytes)) => bytes.len(),
            None => 0,
        };
        assert_eq!(size, length);
        assert!(object.metadata.get("event").is_none());
        assert!(object.metadata.get("type").is_none());
        assert!(object.metadata.get("size").is_none());
        assert!(object.is_well_formed());
    }
    assert_eq!(objects[0].payload, Some(Payload::Bytes(b"abc".to_vec())));
    assert_eq!(objects[1].size, None);
    assert_eq!(objects[2]._type, None);
}

#[test]
fn payload_bytes_are_not_read_as_headers() {
    let mut stream = BusinessObjectStream::new();
    stream.feed(b"{\"size\":4}\0\0{}\0{\"event\":\"after\"}\0");
    let objects = stream.read_business_objects().unwrap();
    assert_eq!(objects.len(), 2);
    assert_eq!(objects[0].payload, Some(Payload::Bytes(b"\0{}\0".to_vec())));
    assert_eq!(objects[1].event, Some("after".to_string()));
}
