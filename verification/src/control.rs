use vstd::prelude::*;

use crate::json::{text_eq, JsonModel, JsonObject, JsonValue};
use crate::object::{BusinessObject, ObjectModel};

verus! {

/// Why a first object does not establish a subscription.
#[derive(Debug, Clone, PartialEq, Eq)]
pub enum BusinessSubscriptionError {
    /// The object has no event.
    SubscriptionNotEvent,
    /// The object's event is not `routing/subscribe`.
    UnknownSubscriptionEvent,
    /// The object's metadata have no `subscriptions`.
    NoSubscriptionMetadataKey,
    /// The filter parser does not accept what stands under
    /// `subscriptions`; the words are the parser's own.
    SubscriptionRejected(String),
}

/// The mathematical value of a subscription error.
pub enum SubscriptionFailure {
    SubscriptionNotEvent,
    UnknownSubscriptionEvent,
    NoSubscriptionMetadataKey,
    SubscriptionRejected(Seq<char>),
}

impl View for BusinessSubscriptionError {
    type V = SubscriptionFailure;

    open spec fn view(&self) -> SubscriptionFailure {
        match self {
            BusinessSubscriptionError::SubscriptionNotEvent => SubscriptionFailure::SubscriptionNotEvent,
            BusinessSubscriptionError::UnknownSubscriptionEvent => SubscriptionFailure::UnknownSubscriptionEvent,
            BusinessSubscriptionError::NoSubscriptionMetadataKey => SubscriptionFailure::NoSubscriptionMetadataKey,
            BusinessSubscriptionError::SubscriptionRejected(reason) => SubscriptionFailure::SubscriptionRejected(
                reason@,
            ),
        }
    }
}

/// What a first object asks to subscribe to: the value under
/// `subscriptions` of a `routing/subscribe` event.
pub open spec fn requested_subscription(object: ObjectModel) -> Result<JsonModel, SubscriptionFailure> {
    match object.event {
        None => Err(SubscriptionFailure::SubscriptionNotEvent),
        Some(event) => if event != "routing/subscribe"@ {
            Err(SubscriptionFailure::UnknownSubscriptionEvent)
        } else if !object.metadata.contains_key("subscriptions"@) {
            Err(SubscriptionFailure::NoSubscriptionMetadataKey)
        } else {
            Ok(object.metadata["subscriptions"@])
        },
    }
}

/// The metadata of a reply to `request`: what `base` holds and, where the
/// request carries a string as its `id`, that string as `in-reply-to`.
pub open spec fn in_reply_to(base: Map<Seq<char>, JsonModel>, request: ObjectModel) -> Map<
    Seq<char>,
    JsonModel,
> {
    if request.metadata.contains_key("id"@) {
        match request.metadata["id"@] {
            JsonModel::String(id) => base.insert("in-reply-to"@, JsonModel::String(id)),
            _ => base,
        }
    } else {
        base
    }
}

/// The answer to an accepted subscription.
pub open spec fn subscription_reply_model(accepted: JsonModel, request: ObjectModel) -> ObjectModel {
    ObjectModel {
        event: Some("routing/subscribe/reply"@),
        payload_type: None,
        size: None,
        payload: None,
        metadata: in_reply_to(Map::empty().insert("subscriptions"@, accepted), request),
    }
}

/// The answer to a ping.
pub open spec fn ping_reply_model(request: ObjectModel) -> ObjectModel {
    ObjectModel {
        event: Some("pong"@),
        payload_type: None,
        size: None,
        payload: None,
        metadata: in_reply_to(Map::empty(), request),
    }
}

/// Whether the object is a ping.
pub open spec fn is_ping_model(object: ObjectModel) -> bool {
    object.event == Some("ping"@)
}

/// Both replies keep the invariant of business objects, and neither has a
/// payload.
pub proof fn lemma_replies_well_formed(accepted: JsonModel, request: ObjectModel)
    ensures
        subscription_reply_model(accepted, request).well_formed(),
        ping_reply_model(request).well_formed(),
{
    reveal_strlit("event");
    reveal_strlit("type");
    reveal_strlit("size");
    reveal_strlit("subscriptions");
    reveal_strlit("in-reply-to");
    assert("event"@.len() == 5 && "type"@.len() == 4 && "size"@.len() == 4);
    assert("subscriptions"@.len() == 13 && "in-reply-to"@.len() == 11);
}

/// The value under `subscriptions` of a `routing/subscribe` event, or why
/// the object is no request to subscribe.
pub fn subscription_request(obj: &BusinessObject) -> (outcome: Result<
    &JsonValue,
    BusinessSubscriptionError,
>)
    ensures
        match outcome {
            Ok(value) => requested_subscription(obj@) == Ok::<JsonModel, SubscriptionFailure>(value@),
            Err(error) => requested_subscription(obj@) == Err::<JsonModel, SubscriptionFailure>(error@),
        },
{
    match &obj.event {
        Some(event) => {
            if text_eq(event.as_str(), "routing/subscribe") {
                match obj.metadata.get("subscriptions") {
                    Some(subscriptions) => Ok(subscriptions),
                    None => Err(BusinessSubscriptionError::NoSubscriptionMetadataKey),
                }
            } else {
                Err(BusinessSubscriptionError::UnknownSubscriptionEvent)
            }
        },
        None => Err(BusinessSubscriptionError::SubscriptionNotEvent),
    }
}

/// Whether `parser`, asked about a value that stands for `requested`, may
/// accept it and give `accepted` as the subscription's own JSON form.
pub open spec fn parser_accepted<P: Fn(&JsonValue) -> Result<JsonValue, String>>(
    parser: &P,
    requested: JsonModel,
    accepted: JsonModel,
) -> bool {
    exists|value: JsonValue, answer: JsonValue|
        value@ == requested && answer@ == accepted && #[trigger] call_ensures(
            *parser,
            (&value,),
            Ok::<JsonValue, String>(answer),
        )
}

/// Whether `parser`, asked about a value that stands for `requested`, may
/// refuse it in the words `reason`.
pub open spec fn parser_refused<P: Fn(&JsonValue) -> Result<JsonValue, String>>(
    parser: &P,
    requested: JsonModel,
    reason: Seq<char>,
) -> bool {
    exists|value: JsonValue, words: String|
        value@ == requested && words@ == reason && #[trigger] call_ensures(
            *parser,
            (&value,),
            Err::<JsonValue, String>(words),
        )
}

/// The subscription that a first object establishes: what the filter
/// parser makes of the value under `subscriptions`. The parser is asked
/// only about a well-shaped request, and its refusal is an error that
/// carries the parser's words.
pub fn parse_subscription<P: Fn(&JsonValue) -> Result<JsonValue, String>>(
    obj: &BusinessObject,
    parser: &P,
) -> (outcome: Result<JsonValue, BusinessSubscriptionError>)
    requires
        forall|value: JsonValue| call_requires(*parser, (&value,)),
    ensures
        match requested_subscription(obj@) {
            Err(failure) => outcome matches Err(error) && error@ == failure,
            Ok(requested) => match outcome {
                Ok(accepted) => parser_accepted(parser, requested, accepted@),
                Err(error) => match error@ {
                    SubscriptionFailure::SubscriptionRejected(reason) => parser_refused(
                        parser,
                        requested,
                        reason,
                    ),
                    _ => false,
                },
            },
        },
{
    match subscription_request(obj) {
        Ok(subscriptions) => {
            match parser(subscriptions) {
                Ok(accepted) => Ok(accepted),
                Err(reason) => Err(BusinessSubscriptionError::SubscriptionRejected(reason)),
            }
        },
        Err(error) => Err(error),
    }
}

/// Adds `in-reply-to` to the metadata of a reply, where the request has a
/// string as its `id`.
fn add_in_reply_to(metadata: &mut JsonObject, request: &BusinessObject)
    ensures
        final(metadata)@ == in_reply_to(old(metadata)@, request@),
{
    match request.metadata.get("id") {
        Some(id) => {
            match id.as_string() {
                Some(text) => {
                    metadata.insert("in-reply-to".to_owned(), JsonValue::String(text.to_owned()));
                },
                None => {},
            }
        },
        None => {},
    }
}

/// The answer to an accepted subscription: a `routing/subscribe/reply`
/// with the accepted subscription and the request's id.
pub fn subscription_reply(subscriptions: &JsonValue, request: &BusinessObject) -> (reply: BusinessObject)
    ensures
        reply@ == subscription_reply_model(subscriptions@, request@),
{
    let mut metadata = JsonObject::new();
    metadata.insert("subscriptions".to_owned(), subscriptions.duplicate());
    add_in_reply_to(&mut metadata, request);
    BusinessObject {
        _type: None,
        payload: None,
        size: None,
        event: Some("routing/subscribe/reply".to_owned()),
        metadata,
    }
}

/// The answer to a ping: a `pong` with the request's id.
pub fn ping_reply(request: &BusinessObject) -> (reply: BusinessObject)
    ensures
        reply@ == ping_reply_model(request@),
{
    let mut metadata = JsonObject::new();
    add_in_reply_to(&mut metadata, request);
    BusinessObject { _type: None, payload: None, size: None, event: Some("pong".to_owned()), metadata }
}

/// Whether the object is a ping.
pub fn is_ping(object: &BusinessObject) -> (yes: bool)
    ensures
        yes == is_ping_model(object@),
{
    match &object.event {
        Some(event) => text_eq(event.as_str(), "ping"),
        None => false,
    }
}

} // verus!
