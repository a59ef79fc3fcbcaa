use std::collections::VecDeque;
use std::rc::Rc;
use vstd::prelude::*;

use crate::json::{JsonModel, JsonValue};
use crate::object::{BusinessObject, ObjectModel, ReadBusinessObjectError};
use crate::stream::{
    drain, failure_model, objects_model, pass_model, pass_outcome, wire_stream, BusinessObjectStream,
    FramesRead,
};

verus! {

/// A moment: seconds and nanoseconds since 1970-01-01T00:00:00Z.
#[derive(Debug, Clone, Copy, PartialEq, Eq, Structural)]
pub struct Timestamp {
    pub sec: i64,
    pub nsec: i32,
}

/// `time::get_time`: the moment at which it is called, by the system's
/// clock. Which moment comes back is open; its nanoseconds are below one
/// second, as `Timespec::new` asserts.
#[verifier::external_body]
pub(crate) fn current_time() -> (now: Timestamp)
    ensures
        0 <= now.nsec < 1_000_000_000,
{
    let now = time::get_time();
    Timestamp { sec: now.sec, nsec: now.nsec }
}

/// The kinds of readiness that a connection asks the reactor for.
#[derive(Debug, Clone, Copy, PartialEq, Eq, Structural)]
pub struct Interest {
    pub readable: bool,
    pub writable: bool,
    pub hup: bool,
}

/// Why nothing can be written on a writable connection.
#[derive(Debug, Clone, Copy, PartialEq, Eq, Structural)]
pub enum WriteError {
    /// Nothing is queued and nothing is left over from an earlier write.
    EmptyQueue,
    /// The oldest queued object breaks the invariant of business objects.
    EncodeInvariantViolated,
}

/// The state of one accepted connection, without its socket.
pub struct BusinessClient {
    pub token: usize,
    pub stream: BusinessObjectStream,
    pub interest: Interest,
    /// The objects that wait to be written, the oldest first: handles to
    /// objects that other connections may hold as well.
    pub send_queue: VecDeque<Rc<BusinessObject>>,
    /// The bytes of the frame in flight that the socket has not taken yet.
    pub unsent: Vec<u8>,
    pub subscription: Option<JsonValue>,
    pub last_activity: Timestamp,
}

/// The mathematical value of a connection's state.
pub struct ClientModel {
    pub token: usize,
    /// The bytes that arrived and are not yet taken as frames.
    pub inbox: Seq<u8>,
    pub interest: Interest,
    /// The objects that wait to be written, the oldest first.
    pub queue: Seq<ObjectModel>,
    pub unsent: Seq<u8>,
    /// The accepted filter, in the JSON form that the filter gave for it;
    /// none until the handshake is done.
    pub subscription: Option<JsonModel>,
    pub last_activity: Timestamp,
}

/// The views of the objects behind a list of handles.
pub open spec fn handles_model(handles: Seq<Rc<BusinessObject>>) -> Seq<ObjectModel> {
    Seq::new(handles.len(), |i: int| handles[i]@)
}

/// `Rc::clone`: one more handle to the object that a handle points to.
#[verifier::external_body]
pub(crate) fn share(handle: &Rc<BusinessObject>) -> (other: Rc<BusinessObject>)
    ensures
        other == *handle,
{
    Rc::clone(handle)
}

pub open spec fn subscription_model(subscription: Option<JsonValue>) -> Option<JsonModel> {
    match subscription {
        Some(accepted) => Some(accepted@),
        None => None,
    }
}

impl View for BusinessClient {
    type V = ClientModel;

    open spec fn view(&self) -> ClientModel {
        ClientModel {
            token: self.token,
            inbox: self.stream@,
            interest: self.interest,
            queue: handles_model(self.send_queue@),
            unsent: self.unsent@,
            subscription: subscription_model(self.subscription),
            last_activity: self.last_activity,
        }
    }
}

impl ClientModel {
    /// A connection as it is right after accept.
    pub open spec fn fresh(token: usize, now: Timestamp) -> ClientModel {
        ClientModel {
            token,
            inbox: Seq::empty(),
            interest: Interest { readable: false, writable: false, hup: true },
            queue: Seq::empty(),
            unsent: Seq::empty(),
            subscription: None,
            last_activity: now,
        }
    }

    /// The connection after `object` was queued for it.
    pub open spec fn sent(self, object: ObjectModel) -> ClientModel {
        ClientModel {
            queue: self.queue.push(object),
            interest: Interest { writable: true, ..self.interest },
            ..self
        }
    }

    /// Whether the handshake is done.
    pub open spec fn subscribed(self) -> bool {
        self.subscription is Some
    }

    /// Whether anything waits to be written.
    pub open spec fn has_output(self) -> bool {
        self.unsent.len() > 0 || self.queue.len() > 0
    }

    /// Whether the bytes in flight belong to an object: where bytes of a
    /// frame are left to write, the object of that frame stands at the head
    /// of the queue.
    pub open spec fn consistent(self) -> bool {
        self.unsent.len() > 0 ==> self.queue.len() > 0
    }

    /// The bytes that the connection has yet to write, in the order in
    /// which the socket gets them: what is left of the frame in flight, and
    /// the frames of the objects that are queued behind its object.
    pub open spec fn backlog(self) -> Seq<u8> {
        if self.unsent.len() > 0 {
            self.unsent + wire_stream(self.queue.drop_first())
        } else {
            wire_stream(self.queue)
        }
    }

    /// What making ready the next write comes to: an error where nothing
    /// waits to be written, or where the oldest queued object cannot be
    /// encoded.
    pub open spec fn write_outcome(self) -> Result<(), WriteError> {
        if self.unsent.len() > 0 {
            Ok(())
        } else if self.queue.len() == 0 {
            Err(WriteError::EmptyQueue)
        } else if self.queue[0].well_formed() {
            Ok(())
        } else {
            Err(WriteError::EncodeInvariantViolated)
        }
    }

    /// The connection after the next write was made ready: bytes left
    /// over stay what is written next; else the frame of the oldest queued
    /// object becomes the bytes to write, and the object stays at the head
    /// of the queue. An object that has no frame leaves the queue.
    pub open spec fn after_writable(self) -> ClientModel {
        if self.unsent.len() > 0 || self.queue.len() == 0 {
            self
        } else if self.queue[0].well_formed() {
            ClientModel { unsent: self.queue[0].wire_bytes(), ..self }
        } else {
            ClientModel { queue: self.queue.drop_first(), ..self }
        }
    }

    /// The connection after the socket took `count` bytes of the frame in
    /// flight: the rest of the frame stays, with its object at the head of
    /// the queue; the object leaves the queue when nothing of its frame is
    /// left; and the interest in writing ends when nothing is left to
    /// write.
    pub open spec fn written(self, count: int) -> ClientModel {
        let rest = self.unsent.subrange(count, self.unsent.len() as int);
        let queue = if self.unsent.len() > 0 && rest.len() == 0 && self.queue.len() > 0 {
            self.queue.drop_first()
        } else {
            self.queue
        };
        ClientModel {
            unsent: rest,
            queue,
            interest: Interest { writable: rest.len() > 0 || queue.len() > 0, ..self.interest },
            ..self
        }
    }
}

impl BusinessClient {
    /// The state of a connection that was just accepted under `token`.
    pub fn new(token: usize, now: Timestamp) -> (client: BusinessClient)
        ensures
            client@ == ClientModel::fresh(token, now),
    {
        let client = BusinessClient {
            token,
            stream: BusinessObjectStream::new(),
            interest: Interest { readable: false, writable: false, hup: true },
            send_queue: VecDeque::new(),
            unsent: Vec::new(),
            subscription: None,
            last_activity: now,
        };
        assert(handles_model(client.send_queue@) =~= Seq::empty());
        client
    }

    /// Takes the bytes that were read from the socket and gives the objects
    /// of the frames that are now whole, or the error of a broken header at
    /// the front of the buffer.
    pub fn read_objects(&mut self, bytes: &[u8]) -> (outcome: Result<
        Vec<BusinessObject>,
        ReadBusinessObjectError,
    >)
        ensures
            final(self)@ == (ClientModel { inbox: drain(old(self)@.inbox + bytes@).rest, ..old(self)@ }),
            pass_outcome(outcome) == pass_model(drain(old(self)@.inbox + bytes@)),
    {
        self.stream.feed(bytes);
        self.stream.read_business_objects()
    }

    /// Takes the bytes that were read from the socket and gives the objects
    /// of the frames that are now whole, together with the error of a broken
    /// header behind them, if there is one.
    pub fn read_frames(&mut self, bytes: &[u8]) -> (read: FramesRead)
        ensures
            final(self)@ == (ClientModel { inbox: drain(old(self)@.inbox + bytes@).rest, ..old(self)@ }),
            objects_model(read.objects@) == drain(old(self)@.inbox + bytes@).objects,
            failure_model(read.failure) == drain(old(self)@.inbox + bytes@).failure,
    {
        self.stream.feed(bytes);
        self.stream.read_frames()
    }

    /// Queues an object behind those that wait already and asks for
    /// writable events.
    pub fn send_object(&mut self, object: Rc<BusinessObject>)
        ensures
            final(self)@ == old(self)@.sent(object@),
    {
        let ghost before = self.send_queue@;
        self.send_queue.push_back(object);
        self.interest.writable = true;
        assert(handles_model(self.send_queue@) =~= handles_model(before).push(object@));
    }

    /// The interest to register a new connection with: readable is added to
    /// what the connection asks for.
    pub fn register(&mut self) -> (interest: Interest)
        ensures
            interest == (Interest { readable: true, ..old(self)@.interest }),
            final(self)@ == (ClientModel { interest, ..old(self)@ }),
    {
        self.interest.readable = true;
        self.interest
    }

    /// The interest to arm the connection with again after an event.
    pub fn reregister(&self) -> (interest: Interest)
        ensures
            interest == self@.interest,
    {
        self.interest
    }

    /// Records that the connection was active at `now`.
    pub fn touch(&mut self, now: Timestamp)
        ensures
            final(self)@ == (ClientModel { last_activity: now, ..old(self)@ }),
    {
        self.last_activity = now;
    }

    /// Makes ready what a writable connection writes next. Where bytes of
    /// an earlier frame are left over, they stay what is written next;
    /// else the frame of the oldest queued object becomes the bytes to
    /// write, and the object stays at the head of the queue until its frame
    /// is written. An empty queue is an error, and so is an object that
    /// cannot be encoded, which is dropped.
    pub fn writable(&mut self) -> (outcome: Result<(), WriteError>)
        ensures
            outcome == old(self)@.write_outcome(),
            final(self)@ == old(self)@.after_writable(),
    {
        if self.unsent.len() > 0 {
            return Ok(());
        }
        if self.send_queue.len() == 0 {
            return Err(WriteError::EmptyQueue);
        }
        let ghost before = self.send_queue@;
        let encoded = self.send_queue[0].to_bytes();
        assert(handles_model(before)[0] == before[0]@);
        match encoded {
            Ok(bytes) => {
                self.unsent = bytes;
                Ok(())
            },
            Err(_) => {
                let _ = self.send_queue.pop_front();
                assert(handles_model(self.send_queue@) =~= handles_model(before).drop_first());
                Err(WriteError::EncodeInvariantViolated)
            },
        }
    }

    /// Records that the socket took the first `count` bytes of what was to
    /// be written. With `count` zero nothing changes but the interest: the
    /// object stays at the head of the queue and its frame first in line.
    /// The object leaves the queue with the last byte of its frame.
    pub fn written(&mut self, count: usize)
        requires
            count <= old(self)@.unsent.len(),
        ensures
            final(self)@ == old(self)@.written(count as int),
    {
        let in_flight = self.unsent.len() > 0;
        let rest = self.unsent.split_off(count);
        self.unsent = rest;
        if in_flight && self.unsent.len() == 0 && self.send_queue.len() > 0 {
            let ghost before = self.send_queue@;
            let _ = self.send_queue.pop_front();
            assert(handles_model(self.send_queue@) =~= handles_model(before).drop_first());
        }
        self.interest.writable = self.unsent.len() > 0 || self.send_queue.len() > 0;
    }
}

/// The frames of a list of objects that has one object more at its end
/// are the frames of the list and, behind them, the frame of that object.
pub proof fn lemma_wire_stream_push(objects: Seq<ObjectModel>, object: ObjectModel)
    ensures
        wire_stream(objects.push(object)) == wire_stream(objects) + object.wire_bytes(),
    decreases objects.len(),
{
    let longer = objects.push(object);
    if objects.len() == 0 {
        assert(longer.drop_first() =~= Seq::<ObjectModel>::empty());
        assert(longer.first() == object);
        assert(wire_stream(longer.drop_first()) =~= Seq::<u8>::empty());
        assert(wire_stream(objects) =~= Seq::<u8>::empty());
        assert(wire_stream(longer) =~= wire_stream(objects) + object.wire_bytes());
    } else {
        assert(longer.drop_first() =~= objects.drop_first().push(object));
        assert(longer.first() == objects.first());
        lemma_wire_stream_push(objects.drop_first(), object);
        assert(wire_stream(longer) =~= wire_stream(objects) + object.wire_bytes());
    }
}

/// A new connection has no bytes in flight, and queueing, making a write
/// ready and writing keep the bytes in flight with their object.
pub proof fn lemma_consistent(client: ClientModel, object: ObjectModel, count: int)
    requires
        client.consistent(),
        0 <= count <= client.unsent.len(),
    ensures
        ClientModel::fresh(client.token, client.last_activity).consistent(),
        client.sent(object).consistent(),
        client.after_writable().consistent(),
        client.written(count).consistent(),
{
}

/// Per-peer FIFO: of two objects that are queued one after the other for
/// a connection, the first stands in the queue before the second, both
/// behind what waited already, and so do their frames among the bytes that
/// the connection has yet to write.
pub proof fn lemma_fifo(client: ClientModel, first: ObjectModel, second: ObjectModel)
    requires
        client.consistent(),
    ensures
        client.sent(first).sent(second).queue == client.queue + seq![first, second],
        client.sent(first).sent(second).backlog() == client.backlog() + first.wire_bytes()
            + second.wire_bytes(),
{
    let one = client.sent(first);
    let both = one.sent(second);
    assert(both.queue =~= client.queue + seq![first, second]);
    if client.unsent.len() > 0 {
        let behind = client.queue.drop_first();
        assert(one.queue.drop_first() =~= behind.push(first));
        assert(both.queue.drop_first() =~= behind.push(first).push(second));
        lemma_wire_stream_push(behind, first);
        lemma_wire_stream_push(behind.push(first), second);
    } else {
        lemma_wire_stream_push(client.queue, first);
        lemma_wire_stream_push(one.queue, second);
    }
    assert(both.backlog() =~= client.backlog() + first.wire_bytes() + second.wire_bytes());
}

/// Making the next write ready changes nothing in the bytes that the
/// connection has yet to write, and nothing in the queue: the frame of the
/// object at its head becomes the bytes in flight.
pub proof fn lemma_writable_keeps_backlog(client: ClientModel)
    requires
        client.write_outcome() is Ok,
    ensures
        client.after_writable().backlog() == client.backlog(),
        client.after_writable().queue == client.queue,
{
    if client.unsent.len() == 0 {
        let head = client.queue[0];
        assert(head.wire_bytes().len() > 0);
        assert(client.after_writable().backlog() =~= client.backlog());
    }
}

/// What the socket takes, it takes from the front of the bytes that the
/// connection has yet to write. While bytes of a frame are left, its
/// object stays at the head of the queue; a write of no bytes changes
/// neither.
pub proof fn lemma_written_takes_front(client: ClientModel, count: int)
    requires
        client.consistent(),
        0 <= count <= client.unsent.len(),
    ensures
        client.written(count).backlog() == client.backlog().subrange(
            count,
            client.backlog().len() as int,
        ),
        count < client.unsent.len() ==> client.written(count).queue == client.queue,
        count == 0 ==> client.written(count).unsent == client.unsent,
{
    assert(client.written(count).backlog() =~= client.backlog().subrange(
        count,
        client.backlog().len() as int,
    ));
    if count == 0 {
        assert(client.written(count).unsent =~= client.unsent);
    }
}

} // verus!
