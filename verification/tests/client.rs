use std::rc::Rc;

use object_system::client::{BusinessClient, Interest, Timestamp, WriteError};
use object_system::json::JsonObject;
use object_system::json_guard::is_within_limits;
use object_system::{BusinessObject, Payload};

const NOW: Timestamp = Timestamp { sec: 42, nsec: 7 };

fn event(name: &str) -> BusinessObject {
    BusinessObject {
        event: Some(name.to_string()),
        _type: None,
        size: None,
        payload: None,
        metadata: JsonObject::new(),
    }
}

#[test]
fn a_new_client_asks_for_hup_only() {
    let mut client = BusinessClient::new(9, NOW);
    assert_eq!(client.token, 9);
    assert_eq!(client.interest, Interest { readable: false, writable: false, hup: true });
    assert_eq!(client.reregister(), client.interest);
    assert_eq!(client.last_activity, NOW);
    assert!(client.subscription.is_none());
    assert!(client.send_queue.is_empty());
    assert!(client.unsent.is_empty());
    assert!(client.stream.buffer.is_empty());

    let interest = client.register();
    assert_eq!(interest, Interest { readable: true, writable: false, hup: true });
    assert_eq!(client.interest, interest);
}

#[test]
fn touch_moves_the_time_of_the_last_activity() {
    let mut client = BusinessClient::new(2, NOW);
    let later = Timestamp { sec: 43, nsec: 0 };
    client.touch(later);
    assert_eq!(client.last_activity, later);
    assert_eq!(client.token, 2);
}

#[test]
fn send_object_queues_at_the_back_and_asks_for_writable() {
    let mut client = BusinessClient::new(2, NOW);
    client.send_object(Rc::new(event("a")));
    assert!(client.interest.writable);
    client.send_object(Rc::new(event("b")));
    client.send_object(Rc::new(event("c")));
    let queued: Vec<String> =
        client.send_queue.iter().map(|o| o.event.clone().unwrap()).collect();
    assert_eq!(queued, vec!["a", "b", "c"]);
}

#[test]
fn writable_takes_the_oldest_object_and_written_takes_bytes_from_the_front() {
    let mut client = BusinessClient::new(2, NOW);
    client.send_object(Rc::new(event("a")));
    client.send_object(Rc::new(event("b")));

    assert_eq!(client.writable(), Ok(()));
    assert_eq!(client.unsent, b"{\"event\":\"a\"}\0".to_vec());
    assert_eq!(client.send_queue.len(), 2);
    assert_eq!(client.send_queue[0].event, Some("a".to_string()));

    client.written(0);
    assert_eq!(client.unsent, b"{\"event\":\"a\"}\0".to_vec());
    assert_eq!(client.send_queue.len(), 2);
    assert_eq!(client.send_queue[0].event, Some("a".to_string()));
    assert!(client.interest.writable);

    assert_eq!(client.writable(), Ok(()));
    assert_eq!(client.unsent, b"{\"event\":\"a\"}\0".to_vec());
    assert_eq!(client.send_queue.len(), 2);

    client.written(10);
    assert_eq!(client.unsent, b"a\"}\0".to_vec());
    assert_eq!(client.send_queue.len(), 2);
    assert_eq!(client.send_queue[0].event, Some("a".to_string()));
    client.written(4);
    assert!(client.unsent.is_empty());
    assert_eq!(client.send_queue.len(), 1);
    assert_eq!(client.send_queue[0].event, Some("b".to_string()));
    assert!(client.interest.writable);

    client.written(0);
    assert_eq!(client.send_queue.len(), 1);

    assert_eq!(client.writable(), Ok(()));
    assert_eq!(client.unsent, b"{\"event\":\"b\"}\0".to_vec());
    assert_eq!(client.send_queue.len(), 1);
    client.written(14);
    assert!(client.unsent.is_empty());
    assert!(client.send_queue.is_empty());
    assert!(!client.interest.writable);
    assert!(client.interest.hup);

    assert_eq!(client.writable(), Err(WriteError::EmptyQueue));
}

#[test]
fn one_object_can_wait_on_several_connections() {
    let object = Rc::new(event("shared"));
    let mut first = BusinessClient::new(2, NOW);
    let mut second = BusinessClient::new(3, NOW);
    first.send_object(object.clone());
    second.send_object(object.clone());
    assert!(Rc::ptr_eq(&first.send_queue[0], &second.send_queue[0]));
    assert_eq!(first.writable(), Ok(()));
    assert_eq!(second.writable(), Ok(()));
    assert_eq!(first.unsent, second.unsent);
    assert_eq!(first.unsent, b"{\"event\":\"shared\"}\0".to_vec());
}

#[test]
fn writable_drops_an_object_that_cannot_be_encoded() {
    let mut client = BusinessClient::new(2, NOW);
    let mut broken = event("broken");
    broken.payload = Some(Payload::Bytes(vec![1, 2, 3]));
    client.send_object(Rc::new(broken));
    client.send_object(Rc::new(event("fine")));
    assert_eq!(client.writable(), Err(WriteError::EncodeInvariantViolated));
    assert!(client.unsent.is_empty());
    assert_eq!(client.send_queue.len(), 1);
    assert_eq!(client.writable(), Ok(()));
    assert_eq!(client.unsent, b"{\"event\":\"fine\"}\0".to_vec());
}

#[test]
fn read_objects_gives_whole_frames_and_keeps_the_rest() {
    let mut client = BusinessClient::new(2, NOW);
    let objects = client.read_objects(b"{\"event\":\"a\"}\0{\"eve").unwrap();
    assert_eq!(objects.len(), 1);
    assert_eq!(objects[0].event, Some("a".to_string()));
    assert_eq!(client.stream.buffer, b"{\"eve".to_vec());
    let objects = client.read_objects(b"nt\":\"b\",\"size\":2}\0x").unwrap();
    assert!(objects.is_empty());
    let objects = client.read_objects(b"y").unwrap();
    assert_eq!(objects.len(), 1);
    assert_eq!(objects[0].payload, Some(Payload::Bytes(b"xy".to_vec())));
    assert!(client.read_objects(b"\0").is_err());
    assert_eq!(client.stream.buffer, b"\0".to_vec());

    let mut client = BusinessClient::new(2, NOW);
    let read = client.read_frames(b"{\"event\":\"a\"}\0[1]\0{\"event\":\"b\"}\0");
    assert_eq!(read.objects.len(), 1);
    assert!(read.failure.is_some());
    assert_eq!(client.stream.buffer, b"[1]\0{\"event\":\"b\"}\0".to_vec());
}

#[test]
fn the_limits_count_outside_strings_only() {
    assert!(is_within_limits(b""));
    assert!(is_within_limits(b"{\"a\":[1,2,{\"b\":1e10}]}"));
    assert!(is_within_limits(b"1e1234567890123456789"));
    assert!(!is_within_limits(b"1e12345678901234567890"));
    assert!(!is_within_limits(b"1E-12345678901234567890"));
    assert!(is_within_limits(b"\"1e12345678901234567890\""));
    assert!(is_within_limits(b"\"\\\"\", 1e5"));
    assert!(!is_within_limits(b"\"\\\\\", 1e12345678901234567890"));
    assert!(is_within_limits(&[b'['; 512]));
    assert!(!is_within_limits(&[b'['; 513]));
    assert!(!is_within_limits(&[b'{'; 513]));
    let mut levels = Vec::new();
    for _ in 0..1000 {
        levels.extend_from_slice(b"[]{}");
    }
    assert!(is_within_limits(&levels));
    let mut key = vec![b'{', b'"'];
    key.extend_from_slice(&vec![b'k'; 65536]);
    key.push(b'"');
    assert!(is_within_limits(&key));
    key.push(b':');
    assert!(!is_within_limits(&key));
}
