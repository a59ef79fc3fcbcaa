use object_system::client::{Interest, Timestamp, WriteError};
use object_system::control::{
    is_ping, parse_subscription, ping_reply, subscription_reply, subscription_request,
    BusinessSubscriptionError,
};
use object_system::json::{JsonObject, JsonValue};
use object_system::router::Handled;
use object_system::server::{Plan, Readiness, Server, LISTENER};
use object_system::stream::{read_frame, FrameRead};
use object_system::table::{CAPACITY, FIRST_CLIENT};
use object_system::{BusinessObject, ReadBusinessObjectError};

fn parser(value: &JsonValue) -> Result<JsonValue, String> {
    match value.as_array() {
        Some(items) if items.iter().all(|item| item.is_string()) => Ok(value.clone()),
        Some(_) => Err("a pattern is no string".to_string()),
        None => Err("no list of patterns".to_string()),
    }
}

fn matches(
    subscription: &JsonValue,
    natures: &Vec<&str>,
    event: Option<&str>,
    _payload_type: Option<&str>,
) -> bool {
    match subscription.as_array() {
        Some(items) => items.iter().any(|item| match item.as_string() {
            Some("*") => true,
            Some(wanted) => natures.contains(&wanted) || event == Some(wanted),
            None => false,
        }),
        None => false,
    }
}

/// Hands bytes to a readable connection whose headers can all be read.
fn read(server: &mut Server, token: usize, bytes: &[u8]) -> Vec<Handled> {
    let read = server.readable(token, bytes, &parser, &matches);
    assert!(read.failure.is_none());
    read.handled
}

const NOW: Timestamp = Timestamp { sec: 1_000, nsec: 5 };

fn subscribe(server: &mut Server, filter: &str) -> usize {
    let token = server.new_client_at(NOW).unwrap();
    let frame = format!(
        "{{\"event\":\"routing/subscribe\",\"subscriptions\":[\"{}\"]}}\0",
        filter
    );
    let handled = read(server, token, frame.as_bytes());
    assert!(matches!(handled.as_slice(), [Handled::Subscribed]));
    let reply = sent(server, token);
    assert_eq!(reply.len(), 1);
    token
}

/// Writes out everything that waits on a connection and gives the frames.
fn sent_bytes(server: &mut Server, token: usize) -> Vec<u8> {
    let mut wire = Vec::new();
    while server.client(token).interest.writable {
        server.writable(token).unwrap();
        let bytes = server.client(token).unsent.clone();
        wire.extend_from_slice(&bytes);
        server.written(token, bytes.len());
    }
    wire
}

fn frames(mut wire: &[u8]) -> Vec<BusinessObject> {
    let mut objects = Vec::new();
    while !wire.is_empty() {
        match read_frame(wire) {
            FrameRead::Complete(object, length) => {
                objects.push(object);
                wire = &wire[length..];
            }
            _ => panic!("expected whole frames"),
        }
    }
    objects
}

fn sent(server: &mut Server, token: usize) -> Vec<BusinessObject> {
    frames(&sent_bytes(server, token))
}

#[test]
fn subscribe_is_answered_with_a_reply_to_the_request() {
    let mut server = Server::new();
    let token = server.new_client().unwrap();
    assert!(token >= FIRST_CLIENT && token != LISTENER);
    assert!(server.client(token).subscription.is_none());
    let stamp = server.client(token).last_activity;
    assert!(stamp.sec > 1_500_000_000);
    assert!(stamp.nsec >= 0 && stamp.nsec < 1_000_000_000);
    let handled = read(&mut server, token, b"{\"event\":\"routing/subscribe\",\"subscriptions\":[\"*\"],\"id\":\"x1\"}\0");
    assert!(matches!(handled.as_slice(), [Handled::Subscribed]));
    assert!(server.client(token).subscription.is_some());
    assert!(server.client(token).interest.writable);

    let wire = sent_bytes(&mut server, token);
    assert_eq!(
        wire,
        b"{\"event\":\"routing/subscribe/reply\",\"in-reply-to\":\"x1\",\"subscriptions\":[\"*\"]}\0"
            .to_vec()
    );
    let replies = frames(&wire);
    assert_eq!(replies.len(), 1);
    assert_eq!(replies[0].event, Some("routing/subscribe/reply".to_string()));
    assert!(*replies[0].metadata.get("in-reply-to").unwrap() == JsonValue::String("x1".to_string()));
    assert!(replies[0].payload.is_none() && replies[0].size.is_none() && replies[0]._type.is_none());
    assert!(!server.client(token).interest.writable);
}

#[test]
fn ping_is_answered_with_a_pong_to_the_sender_alone() {
    let mut server = Server::new();
    let sender = subscribe(&mut server, "*");
    let other = subscribe(&mut server, "*");
    let handled = read(&mut server, sender, b"{\"event\":\"ping\",\"id\":\"p1\"}\0");
    assert!(matches!(handled.as_slice(), [Handled::Pong(true)]));
    assert_eq!(
        sent_bytes(&mut server, sender),
        b"{\"event\":\"pong\",\"in-reply-to\":\"p1\"}\0".to_vec()
    );
    assert!(!server.client(other).interest.writable);
    assert!(server.client(other).send_queue.is_empty());
}

#[test]
fn ping_is_not_answered_where_the_senders_filter_stops_the_pong() {
    let mut server = Server::new();
    let sender = subscribe(&mut server, "chat");
    let handled =
        read(&mut server, sender, b"{\"event\":\"ping\"}\0");
    assert!(matches!(handled.as_slice(), [Handled::Pong(false)]));
    assert!(!server.client(sender).interest.writable);

    let wants_pong = subscribe(&mut server, "pong");
    let handled =
        read(&mut server, wants_pong, b"{\"event\":\"ping\",\"id\":7}\0");
    assert!(matches!(handled.as_slice(), [Handled::Pong(true)]));
    assert_eq!(sent_bytes(&mut server, wants_pong), b"{\"event\":\"pong\"}\0".to_vec());
}

#[test]
fn objects_go_to_every_matching_peer_and_to_the_sender() {
    let mut server = Server::new();
    let a = subscribe(&mut server, "*");
    let b = subscribe(&mut server, "*");
    let frame = b"{\"event\":\"note\",\"natures\":[\"chat\"],\"size\":5}\0hello";
    let handled = read(&mut server, a, frame);
    match handled.as_slice() {
        [Handled::Routed(delivered)] => {
            let mut tokens = delivered.clone();
            tokens.sort();
            assert_eq!(tokens, vec![a, b]);
        }
        _ => panic!("expected fan-out"),
    }
    assert!(std::rc::Rc::ptr_eq(
        &server.client(a).send_queue[0],
        &server.client(b).send_queue[0]
    ));
    assert_eq!(sent_bytes(&mut server, b), frame.to_vec());
    assert_eq!(sent_bytes(&mut server, a), frame.to_vec());
}

#[test]
fn a_first_frame_that_is_no_subscription_closes_the_connection() {
    let mut server = Server::new();
    let token = server.new_client_at(NOW).unwrap();
    let handled = read(&mut server, token, b"{\"event\":\"note\"}\0");
    assert!(matches!(
        handled.as_slice(),
        [Handled::Closed(BusinessSubscriptionError::UnknownSubscriptionEvent)]
    ));
    assert!(!server.contains(token));
}

#[test]
fn a_broken_header_closes_the_connection() {
    let mut server = Server::new();
    let token = subscribe(&mut server, "*");
    let peer = subscribe(&mut server, "*");
    let broken = server.readable(token, b"{event:\"x\"}\0", &parser, &matches);
    assert!(broken.handled.is_empty());
    match broken.failure {
        Some(ReadBusinessObjectError::JsonSyntaxError(_, _)) => {}
        _ => panic!("expected a syntax error"),
    }
    assert!(!server.contains(token));
    assert!(server.contains(peer));
    assert!(server.client(peer).send_queue.is_empty());

    let fresh = server.new_client_at(NOW).unwrap();
    match server.readable(fresh, &[0xc3, 0x28, 0], &parser, &matches).failure {
        Some(ReadBusinessObjectError::BufferCharacterDecodingError) => {}
        _ => panic!("expected a character decoding error"),
    }
    assert!(!server.contains(fresh));
}

#[test]
fn objects_before_a_broken_header_are_handled_before_the_connection_closes() {
    let mut server = Server::new();
    let sender = subscribe(&mut server, "none");
    let peer = subscribe(&mut server, "*");
    let read = server.readable(
        sender,
        b"{\"event\":\"a\"}\0{\"event\":\"b\"}\0{broken}\0{\"event\":\"c\"}\0",
        &parser,
        &matches,
    );
    assert_eq!(read.handled.len(), 2);
    assert!(matches!(read.failure, Some(ReadBusinessObjectError::JsonSyntaxError(_, _))));
    assert!(!server.contains(sender));
    let received = sent(&mut server, peer);
    let events: Vec<String> = received.into_iter().map(|o| o.event.unwrap()).collect();
    assert_eq!(events, vec!["a", "b"]);
}

#[test]
fn objects_pass_by_a_peer_whose_filter_does_not_match() {
    let mut server = Server::new();
    let first = subscribe(&mut server, "chat");
    let publisher = subscribe(&mut server, "nothing");
    let third = subscribe(&mut server, "other");
    let frame = b"{\"event\":\"note\",\"natures\":[\"other\"]}\0";
    let handled = read(&mut server, publisher, frame);
    match handled.as_slice() {
        [Handled::Routed(delivered)] => assert_eq!(delivered, &vec![third]),
        _ => panic!("expected fan-out"),
    }
    assert!(sent_bytes(&mut server, first).is_empty());
    assert!(sent_bytes(&mut server, publisher).is_empty());
    assert_eq!(sent_bytes(&mut server, third), frame.to_vec());
}

#[test]
fn nothing_is_routed_to_a_connection_before_its_handshake() {
    let mut server = Server::new();
    let waiting = server.new_client_at(NOW).unwrap();
    let sender = subscribe(&mut server, "*");
    let later = server.new_client_at(NOW).unwrap();
    let peer = subscribe(&mut server, "*");
    let handled =
        read(&mut server, sender, b"{\"event\":\"note\"}\0");
    match handled.as_slice() {
        [Handled::Routed(delivered)] => {
            let mut tokens = delivered.clone();
            tokens.sort();
            assert_eq!(tokens, vec![sender, peer]);
        }
        _ => panic!("expected fan-out"),
    }
    for token in [waiting, later] {
        assert!(server.client(token).send_queue.is_empty());
        assert!(!server.client(token).interest.writable);
    }
}

#[test]
fn each_peer_gets_its_objects_in_the_order_they_were_routed() {
    let mut server = Server::new();
    let sender = subscribe(&mut server, "none");
    let peer = subscribe(&mut server, "*");
    let mut wire = Vec::new();
    for n in 0..5 {
        wire.extend_from_slice(format!("{{\"event\":\"e{}\"}}\0", n).as_bytes());
    }
    let handled = read(&mut server, sender, &wire);
    assert_eq!(handled.len(), 5);
    assert_eq!(server.client(peer).send_queue.len(), 5);
    let received = sent(&mut server, peer);
    let events: Vec<String> = received.into_iter().map(|o| o.event.unwrap()).collect();
    assert_eq!(events, vec!["e0", "e1", "e2", "e3", "e4"]);
    assert_eq!(sent_bytes(&mut server, peer), Vec::<u8>::new());
}

#[test]
fn objects_behind_a_failed_handshake_are_dropped() {
    let mut server = Server::new();
    let peer = subscribe(&mut server, "*");
    let token = server.new_client_at(NOW).unwrap();
    let handled = read(&mut server, token, b"{\"event\":\"ping\"}\0{\"event\":\"note\"}\0");
    assert_eq!(handled.len(), 1);
    assert!(matches!(
        handled[0],
        Handled::Closed(BusinessSubscriptionError::UnknownSubscriptionEvent)
    ));
    assert!(!server.contains(token));
    assert!(server.client(peer).send_queue.is_empty());
}

#[test]
fn handshake_and_traffic_in_one_read() {
    let mut server = Server::new();
    let token = server.new_client_at(NOW).unwrap();
    let wire = b"{\"event\":\"routing/subscribe\",\"subscriptions\":[\"chat\"]}\0{\"event\":\"ping\"}\0{\"natures\":[\"chat\"]}\0";
    let handled = read(&mut server, token, wire);
    assert_eq!(handled.len(), 3);
    assert!(matches!(handled[0], Handled::Subscribed));
    assert!(matches!(handled[1], Handled::Pong(false)));
    match &handled[2] {
        Handled::Routed(delivered) => assert_eq!(delivered, &vec![token]),
        _ => panic!("expected fan-out"),
    }
    let received = sent(&mut server, token);
    assert_eq!(received.len(), 2);
    assert_eq!(received[0].event, Some("routing/subscribe/reply".to_string()));
    assert_eq!(received[1].natures(), vec!["chat"]);
}

#[test]
fn handshake_errors_name_what_is_missing() {
    let no_event = BusinessObject {
        event: None,
        _type: None,
        size: None,
        payload: None,
        metadata: JsonObject::new(),
    };
    assert_eq!(
        subscription_request(&no_event).unwrap_err(),
        BusinessSubscriptionError::SubscriptionNotEvent
    );
    assert_eq!(
        parse_subscription(&no_event, &parser).unwrap_err(),
        BusinessSubscriptionError::SubscriptionNotEvent
    );

    let mut other = no_event.clone();
    other.event = Some("routing/subscribe/reply".to_string());
    assert_eq!(
        parse_subscription(&other, &parser).unwrap_err(),
        BusinessSubscriptionError::UnknownSubscriptionEvent
    );

    let mut bare = no_event.clone();
    bare.event = Some("routing/subscribe".to_string());
    assert_eq!(
        parse_subscription(&bare, &parser).unwrap_err(),
        BusinessSubscriptionError::NoSubscriptionMetadataKey
    );

    let mut refused = bare.clone();
    refused.metadata.insert("subscriptions".to_string(), JsonValue::U64(1));
    assert!(*subscription_request(&refused).unwrap() == JsonValue::U64(1));
    assert_eq!(
        parse_subscription(&refused, &parser).unwrap_err(),
        BusinessSubscriptionError::SubscriptionRejected("no list of patterns".to_string())
    );
    refused.metadata.insert(
        "subscriptions".to_string(),
        JsonValue::Array(vec![JsonValue::String("a".to_string()), JsonValue::Null]),
    );
    assert_eq!(
        parse_subscription(&refused, &parser).unwrap_err(),
        BusinessSubscriptionError::SubscriptionRejected("a pattern is no string".to_string())
    );

    let mut fine = bare.clone();
    let wanted = JsonValue::Array(vec![JsonValue::String("chat".to_string())]);
    fine.metadata.insert("subscriptions".to_string(), wanted.clone());
    assert!(parse_subscription(&fine, &parser).unwrap() == wanted);

    for (frame, expected) in [
        (
            &b"{\"subscriptions\":[\"*\"]}\0"[..],
            BusinessSubscriptionError::SubscriptionNotEvent,
        ),
        (
            &b"{\"event\":\"routing/subscribe\"}\0"[..],
            BusinessSubscriptionError::NoSubscriptionMetadataKey,
        ),
        (
            &b"{\"event\":\"routing/subscribe\",\"subscriptions\":{\"a\":1}}\0"[..],
            BusinessSubscriptionError::SubscriptionRejected("no list of patterns".to_string()),
        ),
    ] {
        let mut server = Server::new();
        let token = server.new_client_at(NOW).unwrap();
        let handled = read(&mut server, token, frame);
        match handled.as_slice() {
            [Handled::Closed(error)] => assert_eq!(*error, expected),
            _ => panic!("expected a failed handshake"),
        }
        assert!(!server.contains(token));
    }
}

#[test]
fn replies_copy_the_id_only_where_it_is_a_string() {
    let accepted = JsonValue::Array(vec![JsonValue::String("*".to_string())]);
    let mut request = BusinessObject {
        event: Some("ping".to_string()),
        _type: None,
        size: None,
        payload: None,
        metadata: JsonObject::new(),
    };
    assert!(is_ping(&request));
    assert_eq!(ping_reply(&request).to_bytes().unwrap(), b"{\"event\":\"pong\"}\0".to_vec());

    request.metadata.insert("id".to_string(), JsonValue::U64(4));
    assert_eq!(ping_reply(&request).to_bytes().unwrap(), b"{\"event\":\"pong\"}\0".to_vec());
    assert_eq!(
        subscription_reply(&accepted, &request).to_bytes().unwrap(),
        b"{\"event\":\"routing/subscribe/reply\",\"subscriptions\":[\"*\"]}\0".to_vec()
    );

    request.metadata.insert("id".to_string(), JsonValue::String("r9".to_string()));
    let pong = ping_reply(&request);
    assert_eq!(pong.event, Some("pong".to_string()));
    assert!(*pong.metadata.get("in-reply-to").unwrap() == JsonValue::String("r9".to_string()));
    assert!(pong.metadata.get("id").is_none());
    let reply = subscription_reply(&accepted, &request);
    assert!(*reply.metadata.get("subscriptions").unwrap() == accepted);
    assert!(*reply.metadata.get("in-reply-to").unwrap() == JsonValue::String("r9".to_string()));

    request.event = Some("pong".to_string());
    assert!(!is_ping(&request));
    request.event = None;
    assert!(!is_ping(&request));
}

#[test]
fn the_table_has_room_for_its_capacity_and_reuses_tokens() {
    let mut server = Server::new();
    let mut tokens = Vec::new();
    for _ in 0..CAPACITY {
        tokens.push(server.new_client_at(NOW).unwrap());
    }
    let mut sorted = tokens.clone();
    sorted.sort();
    sorted.dedup();
    assert_eq!(sorted.len(), CAPACITY);
    assert_eq!(sorted[0], FIRST_CLIENT);
    assert_eq!(sorted[CAPACITY - 1], FIRST_CLIENT + CAPACITY - 1);
    assert!(server.new_client_at(NOW).is_none());
    assert!(server.new_client().is_none());

    assert!(!server.reset_connection(tokens[17]));
    assert!(!server.contains(tokens[17]));
    assert!(!server.reset_connection(tokens[17]));
    let again = server.new_client_at(NOW).unwrap();
    assert_eq!(again, tokens[17]);
    assert!(server.new_client_at(NOW).is_none());
    assert!(!server.contains(0));
    assert!(!server.contains(LISTENER));
    assert!(!server.contains(FIRST_CLIENT + CAPACITY));
    assert!(!server.contains(usize::MAX));
}

#[test]
fn a_new_connection_asks_for_readable_and_hup() {
    let mut server = Server::new();
    let token = server.new_client_at(NOW).unwrap();
    let client = server.client(token);
    assert_eq!(client.token, token);
    assert_eq!(client.interest, Interest { readable: true, writable: false, hup: true });
    assert_eq!(client.reregister(), client.interest);
    assert_eq!(client.last_activity, NOW);
    assert!(client.subscription.is_none());
    assert!(client.send_queue.is_empty() && client.unsent.is_empty());
}

#[test]
fn resetting_the_listener_shuts_down_and_keeps_the_table() {
    let mut server = Server::new();
    let token = server.new_client_at(NOW).unwrap();
    assert_eq!(server.token, LISTENER);
    assert!(server.reset_connection(LISTENER));
    assert!(server.contains(token));
    assert!(!server.reset_connection(token));
    assert!(!server.contains(token));
}

#[test]
fn peers_that_fail_after_a_fan_out_leave_together() {
    let mut server = Server::new();
    let sender = subscribe(&mut server, "*");
    let first = subscribe(&mut server, "*");
    let second = subscribe(&mut server, "*");
    let third = subscribe(&mut server, "*");
    let aside = subscribe(&mut server, "none");
    let handled = read(&mut server, sender, b"{\"event\":\"note\"}\0");
    match handled.as_slice() {
        [Handled::Routed(delivered)] => assert_eq!(delivered.len(), 4),
        _ => panic!("expected fan-out"),
    }
    let shutdown = server.reset_connections(&vec![first, third, first, 77, 0]);
    assert!(!shutdown);
    assert!(!server.contains(first));
    assert!(!server.contains(third));
    for token in [sender, second] {
        assert!(server.contains(token));
        assert_eq!(sent_bytes(&mut server, token), b"{\"event\":\"note\"}\0".to_vec());
    }
    assert!(server.contains(aside));
    assert!(server.client(aside).send_queue.is_empty());

    assert!(server.reset_connections(&vec![second, LISTENER]));
    assert!(!server.contains(second));
    assert!(server.contains(sender));
    assert!(!server.reset_connections(&vec![]));
}

#[test]
fn partial_writes_keep_the_rest_of_the_frame_first_in_line() {
    let mut server = Server::new();
    let peer = subscribe(&mut server, "*");
    let sender = subscribe(&mut server, "none");
    read(&mut server, sender, b"{\"event\":\"a\"}\0{\"event\":\"b\"}\0");

    server.writable(peer).unwrap();
    assert_eq!(server.client(peer).unsent, b"{\"event\":\"a\"}\0".to_vec());
    server.written(peer, 0);
    assert_eq!(server.client(peer).unsent, b"{\"event\":\"a\"}\0".to_vec());
    assert!(server.client(peer).interest.writable);

    server.writable(peer).unwrap();
    assert_eq!(server.client(peer).unsent, b"{\"event\":\"a\"}\0".to_vec());
    server.written(peer, 4);
    assert_eq!(server.client(peer).unsent, b"ent\":\"a\"}\0".to_vec());
    assert!(server.client(peer).interest.writable);

    server.writable(peer).unwrap();
    let rest = server.client(peer).unsent.len();
    server.written(peer, rest);
    assert!(server.client(peer).unsent.is_empty());
    assert!(server.client(peer).interest.writable);

    server.writable(peer).unwrap();
    assert_eq!(server.client(peer).unsent, b"{\"event\":\"b\"}\0".to_vec());
    let rest = server.client(peer).unsent.len();
    server.written(peer, rest);
    assert!(!server.client(peer).interest.writable);
}

#[test]
fn a_writable_connection_with_nothing_to_write_is_closed() {
    let mut server = Server::new();
    let token = server.new_client_at(NOW).unwrap();
    assert_eq!(server.writable(token), Err(WriteError::EmptyQueue));
    assert!(!server.contains(token));
}

#[test]
fn events_are_planned_in_the_order_reset_write_accept_read() {
    let server = Server::new();
    let none = Readiness { readable: false, writable: false, hup: false, error: false };
    let reset = Plan { reset: true, write: false, accept: false, read: false };
    assert_eq!(server.ready(5, Readiness { error: true, readable: true, writable: true, ..none }), reset);
    assert_eq!(server.ready(5, Readiness { hup: true, readable: true, ..none }), reset);
    assert_eq!(server.ready(LISTENER, Readiness { error: true, writable: true, ..none }), reset);
    assert_eq!(
        server.ready(LISTENER, Readiness { readable: true, ..none }),
        Plan { reset: false, write: false, accept: true, read: false }
    );
    assert_eq!(
        server.ready(5, Readiness { readable: true, ..none }),
        Plan { reset: false, write: false, accept: false, read: true }
    );
    assert_eq!(
        server.ready(5, Readiness { readable: true, writable: true, ..none }),
        Plan { reset: false, write: true, accept: false, read: true }
    );
    assert_eq!(
        server.ready(5, none),
        Plan { reset: false, write: false, accept: false, read: false }
    );
}
