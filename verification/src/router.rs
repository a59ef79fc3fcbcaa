use std::rc::Rc;
use vstd::prelude::*;

use crate::client::{current_time, share, ClientModel, Timestamp};
use crate::control::{
    is_ping, is_ping_model, parse_subscription, parser_accepted, parser_refused, ping_reply,
    ping_reply_model, requested_subscription, subscription_reply, subscription_reply_model,
    BusinessSubscriptionError, SubscriptionFailure,
};
use crate::json::{JsonModel, JsonValue};
use crate::object::{natures_of, texts_model, BusinessObject, ObjectModel, ReadBusinessObjectError};
use crate::stream::{drain, failure_model, objects_model};
use crate::server::{without, Server};
use crate::table::{table_clients, table_get, table_get_mut, table_remove, table_tokens};

verus! {

/// The view of an optional text.
pub open spec fn opt_text_model(text: Option<&str>) -> Option<Seq<char>> {
    match text {
        Some(t) => Some(t@),
        None => None,
    }
}

/// Whether the filter can be asked about every subscription and object.
pub open spec fn filter_callable<F: Fn(&JsonValue, &Vec<&str>, Option<&str>, Option<&str>) -> bool>(
    matches: &F,
) -> bool {
    forall|subscription: JsonValue, natures: Vec<&str>, event: Option<&str>, payload_type: Option<&str>|
        call_requires(*matches, (&subscription, &natures, event, payload_type))
}

/// Whether the filter, asked if `subscription` matches an object with
/// these natures, event and payload type, may answer `answer`.
pub open spec fn filter_said<F: Fn(&JsonValue, &Vec<&str>, Option<&str>, Option<&str>) -> bool>(
    matches: &F,
    subscription: JsonModel,
    natures: Seq<Seq<char>>,
    event: Option<Seq<char>>,
    payload_type: Option<Seq<char>>,
    answer: bool,
) -> bool {
    exists|s: JsonValue, n: Vec<&str>, e: Option<&str>, t: Option<&str>|
        {
            &&& s@ == subscription
            &&& texts_model(n@) == natures
            &&& opt_text_model(e) == event
            &&& opt_text_model(t) == payload_type
            &&& #[trigger] call_ensures(*matches, (&s, &n, e, t), answer)
        }
}

/// Whether the filter may give `answer` for `subscription` and `object`.
pub open spec fn filter_said_of<F: Fn(&JsonValue, &Vec<&str>, Option<&str>, Option<&str>) -> bool>(
    matches: &F,
    subscription: JsonModel,
    object: ObjectModel,
    answer: bool,
) -> bool {
    filter_said(
        matches,
        subscription,
        natures_of(object.metadata),
        object.event,
        object.payload_type,
        answer,
    )
}

/// The connections after `object` was queued once on each connection of
/// `delivered`.
pub open spec fn delivered_to(
    clients: Map<usize, ClientModel>,
    delivered: Seq<usize>,
    object: ObjectModel,
) -> Map<usize, ClientModel> {
    Map::new(
        |token: usize| clients.contains_key(token),
        |token: usize|
            if delivered.contains(token) {
                clients[token].sent(object)
            } else {
                clients[token]
            },
    )
}

/// Whether `after` is what fan-out of `object` makes of `before`, with
/// `delivered` the connections that got it: each of them is subscribed and
/// the filter said yes for it, for every other subscribed connection the
/// filter said no, and the object was queued once on each of `delivered`
/// and nowhere else.
pub open spec fn routed<F: Fn(&JsonValue, &Vec<&str>, Option<&str>, Option<&str>) -> bool>(
    matches: &F,
    before: Map<usize, ClientModel>,
    object: ObjectModel,
    delivered: Seq<usize>,
    after: Map<usize, ClientModel>,
) -> bool {
    &&& delivered.no_duplicates()
    &&& forall|token: usize| #[trigger]
        delivered.contains(token) ==> {
            &&& before.contains_key(token)
            &&& before[token].subscription matches Some(subscription)
            &&& filter_said_of(matches, subscription, object, true)
        }
    &&& forall|token: usize| #[trigger]
        before.contains_key(token) && !delivered.contains(token) ==> (before[token].subscription matches Some(
            subscription,
        ) ==> filter_said_of(matches, subscription, object, false))
    &&& after == delivered_to(before, delivered, object)
}

/// What a list holds after a push: what it held, and the new item.
pub proof fn lemma_contains_after_push(list: Seq<usize>, item: usize)
    requires
        list.no_duplicates(),
        !list.contains(item),
    ensures
        list.push(item).no_duplicates(),
        forall|other: usize| list.push(item).contains(other) <==> list.contains(other) || other == item,
{
    let longer = list.push(item);
    assert forall|other: usize| longer.contains(other) <==> list.contains(other) || other == item by {
        if longer.contains(other) {
            let k = choose|k: int| 0 <= k < longer.len() && longer[k] == other;
            if k < list.len() {
                assert(list[k] == other);
            }
        }
        if list.contains(other) {
            let k = choose|k: int| 0 <= k < list.len() && list[k] == other;
            assert(longer[k] == other);
        }
        if other == item {
            assert(longer[longer.len() - 1] == other);
        }
    }
    assert forall|a: int, b: int| 0 <= a < longer.len() && 0 <= b < longer.len() && a != b implies longer[a]
        != longer[b] by {
        if a < list.len() && b < list.len() {
        } else if a < list.len() {
            assert(list.contains(list[a]));
        } else {
            assert(list.contains(list[b]));
        }
    }
}

/// Asks the filter whether a subscription matches.
fn ask<F: Fn(&JsonValue, &Vec<&str>, Option<&str>, Option<&str>) -> bool>(
    matches: &F,
    subscription: &JsonValue,
    natures: &Vec<&str>,
    event: Option<&str>,
    payload_type: Option<&str>,
) -> (answer: bool)
    requires
        filter_callable(matches),
    ensures
        filter_said(
            matches,
            subscription@,
            texts_model(natures@),
            opt_text_model(event),
            opt_text_model(payload_type),
            answer,
        ),
{
    let answer = matches(subscription, natures, event, payload_type);
    assert(call_ensures(*matches, (subscription, natures, event, payload_type), answer));
    answer
}

/// A text, if there is one, as a slice.
fn as_text(text: &Option<String>) -> (slice: Option<&str>)
    ensures
        opt_text_model(slice) == crate::object::text_model(*text),
{
    match text {
        Some(t) => Some(t.as_str()),
        None => None,
    }
}

impl Server {
    /// Fan-out: asks the filter, for every subscribed connection, whether
    /// its subscription matches the object, and queues a handle to the
    /// object on those for which it says yes. The sender is a connection
    /// like any other. Gives the tokens of the connections that got one.
    pub fn route<F: Fn(&JsonValue, &Vec<&str>, Option<&str>, Option<&str>) -> bool>(
        &mut self,
        object: &Rc<BusinessObject>,
        matches: &F,
    ) -> (delivered: Vec<usize>)
        requires
            old(self).wf(),
            filter_callable(matches),
        ensures
            final(self).wf(),
            final(self).token == old(self).token,
            routed(matches, old(self)@, object@, delivered@, final(self)@),
    {
        let tokens = table_tokens(&self.clients);
        let natures = object.natures();
        let event = as_text(&object.event);
        let payload_type = as_text(&object._type);
        let mut delivered: Vec<usize> = Vec::new();
        let ghost before = self@;
        let mut i: usize = 0;
        assert(self@ =~= delivered_to(before, delivered@, object@));
        while i < tokens.len()
            invariant
                self.wf(),
                self.token == old(self).token,
                filter_callable(matches),
                i <= tokens@.len(),
                tokens@.no_duplicates(),
                forall|token: usize| tokens@.contains(token) <==> before.contains_key(token),
                texts_model(natures@) == natures_of(object@.metadata),
                opt_text_model(event) == object@.event,
                opt_text_model(payload_type) == object@.payload_type,
                self@ == delivered_to(before, delivered@, object@),
                delivered@.no_duplicates(),
                forall|k: int| i <= k < tokens@.len() ==> !delivered@.contains(#[trigger] tokens@[k]),
                forall|token: usize| #[trigger]
                    delivered@.contains(token) ==> {
                        &&& before.contains_key(token)
                        &&& before[token].subscription matches Some(subscription)
                        &&& filter_said_of(matches, subscription, object@, true)
                    },
                forall|k: int|
                    0 <= k < i && !delivered@.contains(#[trigger] tokens@[k]) ==> (before[tokens@[k]].subscription matches Some(
                        subscription,
                    ) ==> filter_said_of(matches, subscription, object@, false)),
            decreases tokens@.len() - i,
        {
            let token = tokens[i];
            let ghost sent_before = delivered@;
            let ghost table_before = table_clients(self.clients);
            proof {
                assert(tokens@.contains(token));
                assert(before.contains_key(token));
                assert(!delivered@.contains(tokens@[i as int]));
                assert(self@.contains_key(token));
                assert(table_before.contains_key(token));
                assert(self@[token] == before[token]);
            }
            let ghost state_before = self@;
            let current = table_get(&self.clients, token);
            let answer = match &current.subscription {
                None => false,
                Some(subscription) => ask(matches, subscription, &natures, event, payload_type),
            };
            proof {
                assert(current@ == before[token]);
                if answer {
                    assert(before[token].subscription matches Some(subscription) && filter_said_of(
                        matches,
                        subscription,
                        object@,
                        true,
                    ));
                } else {
                    assert(before[token].subscription matches Some(subscription) ==> filter_said_of(
                        matches,
                        subscription,
                        object@,
                        false,
                    ));
                }
            }
            if answer {
                let handle = share(object);
                let client = table_get_mut(&mut self.clients, token);
                client.send_object(handle);
                delivered.push(token);
                proof {
                    lemma_contains_after_push(sent_before, token);
                    let table_after = table_clients(self.clients);
                    assert(table_after.dom() =~= table_before.dom());
                    assert(table_after[token]@ == before[token].sent(object@));
                    assert forall|t: usize| self@.contains_key(t) implies #[trigger] self@[t] == delivered_to(
                        before,
                        delivered@,
                        object@,
                    )[t] by {
                        if t != token {
                            assert(table_after[t] == table_before[t]);
                            assert(state_before[t] == table_before[t]@);
                            assert(delivered@.contains(t) == sent_before.contains(t));
                        }
                    }
                    assert(self@ =~= delivered_to(before, delivered@, object@));
                    assert forall|t: usize| #[trigger] delivered@.contains(t) implies {
                        &&& before.contains_key(t)
                        &&& before[t].subscription matches Some(subscription)
                        &&& filter_said_of(matches, subscription, object@, true)
                    } by {
                        if t != token {
                            assert(sent_before.contains(t));
                        }
                    }
                    assert forall|k: int| i + 1 <= k < tokens@.len() implies !delivered@.contains(
                        #[trigger] tokens@[k],
                    ) by {
                        assert(tokens@[k] != tokens@[i as int]);
                    }
                }
            }
            i += 1;
        }
        proof {
            assert forall|token: usize| #[trigger]
                before.contains_key(token) && !delivered@.contains(token) implies (before[token].subscription matches Some(
                subscription,
            ) ==> filter_said_of(matches, subscription, object@, false)) by {
                assert(tokens@.contains(token));
                let k = choose|k: int| 0 <= k < tokens@.len() && tokens@[k] == token;
                assert(!delivered@.contains(tokens@[k]));
            }
        }
        delivered
    }
}

/// What became of one inbound object.
#[derive(Debug)]
pub enum Handled {
    /// The handshake is done: the subscription is stored and the reply is
    /// queued for the sender.
    Subscribed,
    /// The handshake failed, for this reason: the sender left the table
    /// without a reply.
    Closed(BusinessSubscriptionError),
    /// A ping; the pong is queued for the sender if its own filter lets
    /// the pong pass.
    Pong(bool),
    /// Fan-out to the connections with these tokens.
    Routed(Vec<usize>),
}

/// The connections after the one under `token` was seen active at `now`.
pub open spec fn touched(clients: Map<usize, ClientModel>, token: usize, now: Timestamp) -> Map<
    usize,
    ClientModel,
> {
    clients.insert(token, ClientModel { last_activity: now, ..clients[token] })
}

/// The connection after its handshake: it holds the accepted subscription,
/// the reply waits in its queue, and it was active at `now`.
pub open spec fn subscribed_client(
    client: ClientModel,
    accepted: JsonModel,
    request: ObjectModel,
    now: Timestamp,
) -> ClientModel {
    ClientModel {
        subscription: Some(accepted),
        last_activity: now,
        ..client.sent(subscription_reply_model(accepted, request))
    }
}

/// Whether `outcome` and `after` are what handling `object`, which came
/// in at `now` on the connection under `token`, makes of `before`.
///
/// Before the handshake the object must be a request to subscribe that
/// the filter parser accepts; anything else closes the connection. After
/// it a ping is answered to the sender alone, if the sender's filter lets
/// a pong pass, and every other object goes to fan-out.
pub open spec fn handled<
    P: Fn(&JsonValue) -> Result<JsonValue, String>,
    F: Fn(&JsonValue, &Vec<&str>, Option<&str>, Option<&str>) -> bool,
>(
    parser: &P,
    matches: &F,
    before: Map<usize, ClientModel>,
    token: usize,
    object: ObjectModel,
    now: Timestamp,
    outcome: Handled,
    after: Map<usize, ClientModel>,
) -> bool {
    match before[token].subscription {
        None => match requested_subscription(object) {
            Err(failure) => match outcome {
                Handled::Closed(error) => error@ == failure && after == before.remove(token),
                _ => false,
            },
            Ok(requested) => match outcome {
                Handled::Subscribed => {
                    &&& after.contains_key(token)
                    &&& after[token].subscription matches Some(accepted)
                    &&& parser_accepted(parser, requested, accepted)
                    &&& after == before.insert(
                        token,
                        subscribed_client(before[token], accepted, object, now),
                    )
                },
                Handled::Closed(error) => match error@ {
                    SubscriptionFailure::SubscriptionRejected(reason) => parser_refused(
                        parser,
                        requested,
                        reason,
                    ) && after == before.remove(token),
                    _ => false,
                },
                _ => false,
            },
        },
        Some(subscription) => if is_ping_model(object) {
            match outcome {
                Handled::Pong(answered) => {
                    &&& filter_said(matches, subscription, Seq::empty(), Some("pong"@), None, answered)
                    &&& after == if answered {
                        delivered_to(touched(before, token, now), seq![token], ping_reply_model(object))
                    } else {
                        touched(before, token, now)
                    }
                },
                _ => false,
            }
        } else {
            match outcome {
                Handled::Routed(delivered) => routed(
                    matches,
                    touched(before, token, now),
                    object,
                    delivered@,
                    after,
                ),
                _ => false,
            }
        },
    }
}

impl Server {
    /// Handles one object that came in at `now` on the connection under
    /// `token`.
    pub fn handle_incoming_object_at<
        P: Fn(&JsonValue) -> Result<JsonValue, String>,
        F: Fn(&JsonValue, &Vec<&str>, Option<&str>, Option<&str>) -> bool,
    >(&mut self, token: usize, object: Rc<BusinessObject>, now: Timestamp, parser: &P, matches: &F) -> (outcome:
        Handled)
        requires
            old(self).wf(),
            old(self)@.contains_key(token),
            forall|value: JsonValue| call_requires(*parser, (&value,)),
            filter_callable(matches),
        ensures
            final(self).wf(),
            final(self).token == old(self).token,
            handled(parser, matches, old(self)@, token, object@, now, outcome, final(self)@),
    {
        let ghost before = self@;
        let ghost table_before = table_clients(self.clients);
        let subscribed = table_get(&self.clients, token).subscription.is_some();
        if subscribed {
            let client = table_get_mut(&mut self.clients, token);
            client.touch(now);
            let ghost table_touched = table_clients(self.clients);
            proof {
                assert(table_touched.dom() =~= table_before.dom());
                assert(self@ =~= touched(before, token, now));
            }
            if is_ping(&object) {
                let current = table_get(&self.clients, token);
                let answered = match &current.subscription {
                    Some(subscription) => {
                        let none: Vec<&str> = Vec::new();
                        proof {
                            assert(texts_model(none@) =~= Seq::empty());
                        }
                        ask(matches, subscription, &none, Some("pong"), None)
                    },
                    None => false,
                };
                if answered {
                    let pong = Rc::new(ping_reply(&object));
                    let client = table_get_mut(&mut self.clients, token);
                    client.send_object(pong);
                    proof {
                        assert(table_clients(self.clients).dom() =~= table_before.dom());
                        assert(seq![token].contains(token)) by {
                            assert(seq![token][0] == token);
                        }
                        assert(self@ =~= delivered_to(
                            touched(before, token, now),
                            seq![token],
                            ping_reply_model(object@),
                        ));
                    }
                }
                Handled::Pong(answered)
            } else {
                let delivered = self.route(&object, matches);
                Handled::Routed(delivered)
            }
        } else {
            match parse_subscription(&object, parser) {
                Ok(subscription) => {
                    let reply = Rc::new(subscription_reply(&subscription, &object));
                    let client = table_get_mut(&mut self.clients, token);
                    client.send_object(reply);
                    client.subscription = Some(subscription);
                    client.last_activity = now;
                    proof {
                        assert(table_clients(self.clients).dom() =~= table_before.dom());
                        let accepted = self@[token].subscription->0;
                        assert(self@ =~= before.insert(
                            token,
                            subscribed_client(before[token], accepted, object@, now),
                        ));
                    }
                    Handled::Subscribed
                },
                Err(error) => {
                    let _ = table_remove(&mut self.clients, token);
                    assert(self@ =~= before.remove(token));
                    Handled::Closed(error)
                },
            }
        }
    }

    /// Handles one object that came in now, by the system's clock, on the
    /// connection under `token`. Whatever moment the clock gives, the
    /// outcome is the one that `handle_incoming_object_at` has for it.
    pub fn handle_incoming_object<
        P: Fn(&JsonValue) -> Result<JsonValue, String>,
        F: Fn(&JsonValue, &Vec<&str>, Option<&str>, Option<&str>) -> bool,
    >(&mut self, token: usize, object: Rc<BusinessObject>, parser: &P, matches: &F) -> (outcome: Handled)
        requires
            old(self).wf(),
            old(self)@.contains_key(token),
            forall|value: JsonValue| call_requires(*parser, (&value,)),
            filter_callable(matches),
        ensures
            final(self).wf(),
            final(self).token == old(self).token,
            exists|now: Timestamp|
                handled(parser, matches, old(self)@, token, object@, now, outcome, final(self)@),
    {
        let now = current_time();
        let ghost seen = object@;
        let outcome = self.handle_incoming_object_at(token, object, now, parser, matches);
        assert(handled(parser, matches, old(self)@, token, seen, now, outcome, self@));
        outcome
    }
}

/// Whether `outcomes` and `states` are what handling `objects` in turn, all
/// of them from the connection under `token`, comes to: each object is
/// handled in the state that the one before it left, and the objects
/// behind one that closed the connection are dropped.
pub open spec fn handled_in_turn<
    P: Fn(&JsonValue) -> Result<JsonValue, String>,
    F: Fn(&JsonValue, &Vec<&str>, Option<&str>, Option<&str>) -> bool,
>(
    parser: &P,
    matches: &F,
    states: Seq<Map<usize, ClientModel>>,
    token: usize,
    objects: Seq<ObjectModel>,
    moments: Seq<Timestamp>,
    outcomes: Seq<Handled>,
) -> bool {
    &&& states.len() == outcomes.len() + 1
    &&& moments.len() == outcomes.len()
    &&& outcomes.len() <= objects.len()
    &&& forall|i: int|
        0 <= i < outcomes.len() ==> (#[trigger] states[i]).contains_key(token) && handled(
            parser,
            matches,
            states[i],
            token,
            objects[i],
            moments[i],
            outcomes[i],
            states[i + 1],
        )
    &&& outcomes.len() < objects.len() ==> !states.last().contains_key(token)
}

/// Whether handling `objects` in turn leads from `start` to `end` with
/// these outcomes, through some states and at some moments.
pub open spec fn handled_all<
    P: Fn(&JsonValue) -> Result<JsonValue, String>,
    F: Fn(&JsonValue, &Vec<&str>, Option<&str>, Option<&str>) -> bool,
>(
    parser: &P,
    matches: &F,
    start: Map<usize, ClientModel>,
    token: usize,
    objects: Seq<ObjectModel>,
    outcomes: Seq<Handled>,
    end: Map<usize, ClientModel>,
) -> bool {
    exists|states: Seq<Map<usize, ClientModel>>, moments: Seq<Timestamp>|
        {
            &&& #[trigger] handled_in_turn(parser, matches, states, token, objects, moments, outcomes)
            &&& states[0] == start
            &&& states.last() == end
        }
}

/// Whether handling `objects` in turn, and then, where `close` holds,
/// closing the connection under `token`, leads from `start` to `end` with
/// these outcomes.
pub open spec fn handled_then_closed<
    P: Fn(&JsonValue) -> Result<JsonValue, String>,
    F: Fn(&JsonValue, &Vec<&str>, Option<&str>, Option<&str>) -> bool,
>(
    parser: &P,
    matches: &F,
    start: Map<usize, ClientModel>,
    token: usize,
    objects: Seq<ObjectModel>,
    outcomes: Seq<Handled>,
    close: bool,
    end: Map<usize, ClientModel>,
) -> bool {
    exists|mid: Map<usize, ClientModel>|
        {
            &&& #[trigger] handled_all(parser, matches, start, token, objects, outcomes, mid)
            &&& end == if close {
                mid.remove(token)
            } else {
                mid
            }
        }
}

/// What a readable connection came to: what became of each object that was
/// handled, and the error of the broken header that closed the connection,
/// if one did.
#[derive(Debug)]
pub struct Readable {
    pub handled: Vec<Handled>,
    pub failure: Option<ReadBusinessObjectError>,
}

/// The connections after the inbox of the one under `token` became `inbox`.
pub open spec fn with_inbox(clients: Map<usize, ClientModel>, token: usize, inbox: Seq<u8>) -> Map<
    usize,
    ClientModel,
> {
    clients.insert(token, ClientModel { inbox, ..clients[token] })
}

impl Server {
    /// A readable connection: takes the bytes that were read on it, and
    /// handles the objects of the frames that are now whole, in wire
    /// order, each as of the moment the system's clock gives for it. A
    /// header that cannot be read closes the connection, once the objects
    /// of the frames before it are handled.
    pub fn readable<
        P: Fn(&JsonValue) -> Result<JsonValue, String>,
        F: Fn(&JsonValue, &Vec<&str>, Option<&str>, Option<&str>) -> bool,
    >(&mut self, token: usize, bytes: &[u8], parser: &P, matches: &F) -> (outcome: Readable)
        requires
            old(self).wf(),
            old(self)@.contains_key(token),
            forall|value: JsonValue| call_requires(*parser, (&value,)),
            filter_callable(matches),
        ensures
            final(self).wf(),
            final(self).token == old(self).token,
            failure_model(outcome.failure) == drain(old(self)@[token].inbox + bytes@).failure,
            handled_then_closed(
                parser,
                matches,
                with_inbox(old(self)@, token, drain(old(self)@[token].inbox + bytes@).rest),
                token,
                drain(old(self)@[token].inbox + bytes@).objects,
                outcome.handled@,
                outcome.failure is Some,
                final(self)@,
            ),
    {
        let client = table_get_mut(&mut self.clients, token);
        let read = client.read_frames(bytes);
        let mut objects = read.objects;
        let failure = read.failure;
        proof {
            assert(self@ =~= with_inbox(
                old(self)@,
                token,
                drain(old(self)@[token].inbox + bytes@).rest,
            ));
            assert(table_clients(self.clients).dom() =~= table_clients(old(self).clients).dom());
        }
        let ghost arrived = drain(old(self)@[token].inbox + bytes@).objects;
        let ghost mut states: Seq<Map<usize, ClientModel>> = seq![self@];
        let ghost mut moments: Seq<Timestamp> = Seq::empty();
        let mut outcomes: Vec<Handled> = Vec::new();
        proof {
            assert(arrived.subrange(0, arrived.len() as int) =~= arrived);
        }
        while objects.len() > 0 && self.contains(token)
            invariant
                self.wf(),
                self.token == old(self).token,
                forall|value: JsonValue| call_requires(*parser, (&value,)),
                filter_callable(matches),
                outcomes@.len() + objects@.len() == arrived.len(),
                objects_model(objects@) == arrived.subrange(outcomes@.len() as int, arrived.len() as int),
                arrived == drain(old(self)@[token].inbox + bytes@).objects,
                states.len() == outcomes@.len() + 1,
                moments.len() == outcomes@.len(),
                states[0] == with_inbox(old(self)@, token, drain(old(self)@[token].inbox + bytes@).rest),
                states.last() == self@,
                forall|k: int|
                    0 <= k < outcomes@.len() ==> (#[trigger] states[k]).contains_key(token) && handled(
                        parser,
                        matches,
                        states[k],
                        token,
                        arrived[k],
                        moments[k],
                        outcomes@[k],
                        states[k + 1],
                    ),
            decreases objects@.len(),
        {
            let now = current_time();
            let ghost state = self@;
            let ghost states_before = states;
            let ghost moments_before = moments;
            let ghost outcomes_before = outcomes@;
            let ghost waiting = objects@;
            let ghost i = outcomes@.len() as int;
            let object = Rc::new(objects.remove(0));
            proof {
                assert(object@ == objects_model(waiting)[0]);
                assert(object@ == arrived[i]);
                assert(objects_model(objects@) =~= arrived.subrange(i + 1, arrived.len() as int)) by {
                    assert forall|k: int| 0 <= k < objects@.len() implies objects@[k]@ == arrived[i + 1 + k] by {
                        assert(objects@[k] == waiting[k + 1]);
                        assert(objects_model(waiting)[k + 1] == arrived[i + 1 + k]);
                    }
                }
            }
            let outcome = self.handle_incoming_object_at(token, object, now, parser, matches);
            outcomes.push(outcome);
            proof {
                states = states.push(self@);
                moments = moments.push(now);
                assert forall|k: int| 0 <= k < i + 1 implies (#[trigger] states[k]).contains_key(token)
                    && handled(
                    parser,
                    matches,
                    states[k],
                    token,
                    arrived[k],
                    moments[k],
                    outcomes@[k],
                    states[k + 1],
                ) by {
                    if k < i {
                        assert(states[k] == states_before[k]);
                        assert(states[k + 1] == states_before[k + 1]);
                        assert(moments[k] == moments_before[k]);
                        assert(outcomes@[k] == outcomes_before[k]);
                    } else {
                        assert(states[k] == state);
                    }
                }
            }
        }
        let ghost mid = self@;
        proof {
            let rest = drain(old(self)@[token].inbox + bytes@).rest;
            assert(handled_in_turn(parser, matches, states, token, arrived, moments, outcomes@));
            assert(states[0] == with_inbox(old(self)@, token, rest));
            assert(states.last() == mid);
            assert(handled_all(
                parser,
                matches,
                with_inbox(old(self)@, token, rest),
                token,
                arrived,
                outcomes@,
                mid,
            ));
        }
        if failure.is_some() {
            if self.contains(token) {
                let _ = table_remove(&mut self.clients, token);
            }
            assert(self@ =~= mid.remove(token));
        }
        Readable { handled: outcomes, failure }
    }
}

/// Whether the connection under `token` is subscribed and the filter says
/// that its subscription matches the object.
pub open spec fn matching<F: Fn(&JsonValue, &Vec<&str>, Option<&str>, Option<&str>) -> bool>(
    matches: &F,
    clients: Map<usize, ClientModel>,
    object: ObjectModel,
    token: usize,
) -> bool {
    clients.contains_key(token) && match clients[token].subscription {
        Some(subscription) => filter_said_of(matches, subscription, object, true),
        None => false,
    }
}

/// Handshake gating: fan-out queues nothing on a connection that has not
/// completed the handshake.
pub proof fn lemma_handshake_gating<F: Fn(&JsonValue, &Vec<&str>, Option<&str>, Option<&str>) -> bool>(
    matches: &F,
    before: Map<usize, ClientModel>,
    object: ObjectModel,
    delivered: Seq<usize>,
    after: Map<usize, ClientModel>,
    token: usize,
)
    requires
        routed(matches, before, object, delivered, after),
        before.contains_key(token),
        !before[token].subscribed(),
    ensures
        !delivered.contains(token),
        after.contains_key(token),
        after[token] == before[token],
{
}

/// Fan-out correctness: where the filter gives one answer for each
/// subscribed connection, the connections that get the object are exactly
/// the subscribed ones whose subscription matches it, each of them gets
/// it once, behind what waited already, and no other connection changes.
pub proof fn lemma_fan_out<F: Fn(&JsonValue, &Vec<&str>, Option<&str>, Option<&str>) -> bool>(
    matches: &F,
    before: Map<usize, ClientModel>,
    object: ObjectModel,
    delivered: Seq<usize>,
    after: Map<usize, ClientModel>,
)
    requires
        routed(matches, before, object, delivered, after),
        forall|token: usize| #[trigger]
            before.contains_key(token) ==> (before[token].subscription matches Some(subscription) ==> !(
            filter_said_of(matches, subscription, object, true) && filter_said_of(
                matches,
                subscription,
                object,
                false,
            ))),
    ensures
        delivered.no_duplicates(),
        forall|token: usize| delivered.contains(token) <==> #[trigger] matching(matches, before, object, token),
        after.dom() == before.dom(),
        forall|token: usize| #[trigger]
            before.contains_key(token) ==> after[token] == if delivered.contains(token) {
                before[token].sent(object)
            } else {
                before[token]
            },
{
    assert(after.dom() =~= before.dom());
    assert forall|token: usize| delivered.contains(token) <==> #[trigger] matching(
        matches,
        before,
        object,
        token,
    ) by {
        if before.contains_key(token) && !delivered.contains(token) {
        }
    }
}

/// Self-delivery: a subscribed sender gets a copy of its own object unless
/// its own filter says no.
pub proof fn lemma_self_delivery<F: Fn(&JsonValue, &Vec<&str>, Option<&str>, Option<&str>) -> bool>(
    matches: &F,
    before: Map<usize, ClientModel>,
    object: ObjectModel,
    delivered: Seq<usize>,
    after: Map<usize, ClientModel>,
    sender: usize,
)
    requires
        routed(matches, before, object, delivered, after),
        before.contains_key(sender),
        before[sender].subscription matches Some(subscription) && !filter_said_of(
            matches,
            subscription,
            object,
            false,
        ),
    ensures
        delivered.contains(sender),
        after[sender].queue == before[sender].queue.push(object),
{
}

/// Closed on failure: a connection whose handshake fails is gone from the
/// table, and no other connection has changed.
pub proof fn lemma_closed_on_handshake_failure<
    P: Fn(&JsonValue) -> Result<JsonValue, String>,
    F: Fn(&JsonValue, &Vec<&str>, Option<&str>, Option<&str>) -> bool,
>(
    parser: &P,
    matches: &F,
    before: Map<usize, ClientModel>,
    token: usize,
    object: ObjectModel,
    now: Timestamp,
    outcome: Handled,
    after: Map<usize, ClientModel>,
)
    requires
        before.contains_key(token),
        handled(parser, matches, before, token, object, now, outcome, after),
        outcome is Closed,
    ensures
        !before[token].subscribed(),
        after == before.remove(token),
        !after.contains_key(token),
{
}

/// Closed on failure, for the peers of a fan-out: once the peers that
/// failed are torn down, none of them is in the table, every other peer
/// that matched holds the object behind what waited already, and the
/// remaining peers are as they were.
pub proof fn lemma_failed_peers_leave<F: Fn(&JsonValue, &Vec<&str>, Option<&str>, Option<&str>) -> bool>(
    matches: &F,
    before: Map<usize, ClientModel>,
    object: ObjectModel,
    delivered: Seq<usize>,
    after: Map<usize, ClientModel>,
    failed: Seq<usize>,
)
    requires
        routed(matches, before, object, delivered, after),
    ensures
        forall|token: usize| #[trigger] failed.contains(token) ==> !without(after, failed).contains_key(token),
        forall|token: usize| #[trigger]
            before.contains_key(token) && !failed.contains(token) ==> {
                &&& without(after, failed).contains_key(token)
                &&& without(after, failed)[token] == if delivered.contains(token) {
                    before[token].sent(object)
                } else {
                    before[token]
                }
            },
        forall|token: usize| #[trigger]
            without(after, failed).contains_key(token) ==> before.contains_key(token),
{
}

} // verus!
