use vstd::prelude::*;
use vstd::slice::{slice_subrange, slice_to_vec};

use crate::json::{JsonModel, JsonValue};
use crate::json_text::parse_model;
use crate::object::{
    header_of_object, header_terminated, lemma_header_round_trip, object_of_header, BusinessObject,
    ObjectModel, Payload, ReadBusinessObjectError, ReadFailure,
};

verus! {

/// Whether `at` is where the header of the first frame ends: the place of
/// the first NUL.
pub open spec fn is_header_end(buffer: Seq<u8>, at: int) -> bool {
    &&& 0 <= at < buffer.len()
    &&& buffer[at] == 0u8
    &&& forall|k: int| 0 <= k < at ==> buffer[k] != 0u8
}

/// The place of the first NUL of a buffer, if it holds one.
pub open spec fn header_end(buffer: Seq<u8>) -> Option<int> {
    if exists|at: int| is_header_end(buffer, at) {
        Some(choose|at: int| is_header_end(buffer, at))
    } else {
        None
    }
}

/// What the bytes of a header denote: the text must be UTF-8, the text a
/// JSON value, the value an object.
pub open spec fn decode_header(head: Seq<u8>) -> Result<ObjectModel, ReadFailure> {
    if !vstd::utf8::valid_utf8(head) {
        Err(ReadFailure::BufferCharacterDecoding)
    } else {
        let text = vstd::utf8::decode_utf8(head);
        match parse_model(text) {
            Err(reason) => Err(ReadFailure::JsonSyntax(text, reason)),
            Ok(JsonModel::Object(header)) => Ok(object_of_header(header)),
            Ok(_) => Err(ReadFailure::JsonSemantics("Unsupported JSON type"@)),
        }
    }
}

/// What stands at the front of a buffer.
pub enum Frame {
    /// No whole frame yet: the header's NUL or a part of the payload is
    /// still to come.
    Incomplete,
    /// One object, and the number of bytes that its frame takes.
    Complete(ObjectModel, int),
    /// A header that cannot be read.
    Broken(ReadFailure),
}

/// The first frame of a buffer: the header up to the first NUL and, where
/// the header announces a size, as many bytes of payload behind the NUL.
pub open spec fn first_frame(buffer: Seq<u8>) -> Frame {
    match header_end(buffer) {
        None => Frame::Incomplete,
        Some(end) => match decode_header(buffer.subrange(0, end)) {
            Err(failure) => Frame::Broken(failure),
            Ok(object) => match object.size {
                None => Frame::Complete(object, end + 1),
                Some(n) => if end + 1 + n <= buffer.len() {
                    Frame::Complete(
                        ObjectModel { payload: Some(buffer.subrange(end + 1, end + 1 + n)), ..object },
                        end + 1 + n,
                    )
                } else {
                    Frame::Incomplete
                },
            },
        },
    }
}

/// What one pass over a buffer gives: the objects of the whole frames at
/// its front, the bytes that stay, and the failure, if a header was broken.
pub struct Drained {
    pub objects: Seq<ObjectModel>,
    pub rest: Seq<u8>,
    pub failure: Option<ReadFailure>,
}

/// One pass over a buffer: frames are taken from the front until one is
/// incomplete or broken. A broken frame stays in the buffer.
pub open spec fn drain(buffer: Seq<u8>) -> Drained
    decreases buffer.len(),
{
    match first_frame(buffer) {
        Frame::Incomplete => Drained { objects: Seq::empty(), rest: buffer, failure: None },
        Frame::Broken(failure) => Drained { objects: Seq::empty(), rest: buffer, failure: Some(failure) },
        Frame::Complete(object, length) => if 0 < length <= buffer.len() {
            let tail = drain(buffer.subrange(length, buffer.len() as int));
            Drained { objects: seq![object] + tail.objects, rest: tail.rest, failure: tail.failure }
        } else {
            Drained { objects: Seq::empty(), rest: buffer, failure: None }
        },
    }
}

/// The views of a list of objects.
pub open spec fn objects_model(objects: Seq<BusinessObject>) -> Seq<ObjectModel> {
    Seq::new(objects.len(), |i: int| objects[i]@)
}

/// The frames of a list of objects, one behind the other.
pub open spec fn wire_stream(objects: Seq<ObjectModel>) -> Seq<u8>
    decreases objects.len(),
{
    if objects.len() == 0 {
        Seq::empty()
    } else {
        objects.first().wire_bytes() + wire_stream(objects.drop_first())
    }
}

/// Whether an object comes back from its own frame: its size is not zero,
/// which a reader takes as no size; its header's text holds no NUL and
/// stays within the limits of the JSON parser; and the parser reads from
/// that text the header it was printed from.
pub open spec fn survives_printing(object: ObjectModel) -> bool {
    &&& object.size != Some(0usize)
    &&& header_terminated(object)
    &&& parse_model(object.header_text()) == Ok::<JsonModel, Seq<char>>(
        JsonModel::Object(header_of_object(object)),
    )
}

/// A buffer has at most one place where its first header ends.
pub proof fn lemma_header_end(buffer: Seq<u8>, at: int)
    requires
        is_header_end(buffer, at),
    ensures
        header_end(buffer) == Some(at),
{
    let chosen = choose|c: int| is_header_end(buffer, c);
    assert(is_header_end(buffer, chosen));
    if chosen < at {
        assert(buffer[chosen] != 0u8);
    }
    if at < chosen {
        assert(buffer[at] != 0u8);
    }
}

/// A buffer without NUL has no first frame yet.
pub proof fn lemma_no_header_end(buffer: Seq<u8>)
    requires
        forall|k: int| 0 <= k < buffer.len() ==> buffer[k] != 0u8,
    ensures
        header_end(buffer) is None,
{
}

/// Every object of a whole frame keeps the invariant of business objects:
/// its size is the length of its payload, and its metadata bind no reserved
/// key. Its size is never zero.
pub proof fn lemma_frame_well_formed(buffer: Seq<u8>)
    ensures
        first_frame(buffer) matches Frame::Complete(object, length) ==> object.well_formed()
            && object.size != Some(0usize) && 0 < length <= buffer.len(),
{
    match header_end(buffer) {
        Some(end) => {
            assert(is_header_end(buffer, end));
        },
        None => {},
    }
}

/// Every object that a pass gives keeps the invariant of business objects,
/// and what stays in the buffer is an end of it.
pub proof fn lemma_drain_well_formed(buffer: Seq<u8>)
    ensures
        forall|i: int| 0 <= i < drain(buffer).objects.len() ==> (#[trigger] drain(buffer).objects[i]).well_formed(),
        drain(buffer).rest.len() <= buffer.len(),
        drain(buffer).rest == buffer.subrange(buffer.len() - drain(buffer).rest.len(), buffer.len() as int),
    decreases buffer.len(),
{
    lemma_frame_well_formed(buffer);
    match first_frame(buffer) {
        Frame::Complete(object, length) => {
            let after = buffer.subrange(length, buffer.len() as int);
            lemma_drain_well_formed(after);
            let tail = drain(after);
            assert forall|i: int| 0 <= i < drain(buffer).objects.len() implies (#[trigger] drain(
                buffer,
            ).objects[i]).well_formed() by {
                if i > 0 {
                    assert(drain(buffer).objects[i] == tail.objects[i - 1]);
                }
            }
            assert(drain(buffer).rest =~= buffer.subrange(
                buffer.len() - drain(buffer).rest.len(),
                buffer.len() as int,
            ));
        },
        _ => {
            assert(buffer =~= buffer.subrange(0, buffer.len() as int));
        },
    }
}

/// A whole or broken frame at the front of a buffer stays what it is when
/// more bytes arrive behind it.
pub proof fn lemma_frame_stable(buffer: Seq<u8>, more: Seq<u8>)
    requires
        !(first_frame(buffer) is Incomplete),
    ensures
        first_frame(buffer + more) == first_frame(buffer),
{
    let end = header_end(buffer).unwrap();
    assert(is_header_end(buffer, end));
    let longer = buffer + more;
    assert forall|k: int| 0 <= k < end implies longer[k] != 0u8 by {
        assert(longer[k] == buffer[k]);
    }
    assert(is_header_end(longer, end));
    lemma_header_end(longer, end);
    assert(longer.subrange(0, end) =~= buffer.subrange(0, end));
    match decode_header(buffer.subrange(0, end)) {
        Ok(object) => match object.size {
            Some(n) => {
                assert(longer.subrange(end + 1, end + 1 + n) =~= buffer.subrange(end + 1, end + 1 + n));
            },
            None => {},
        },
        Err(_) => {},
    }
}

/// Chunk boundaries do not matter: a pass over a buffer, followed by a pass
/// over what stayed together with the bytes that arrived since, gives what
/// one pass over all the bytes gives.
pub proof fn lemma_drain_in_chunks(buffer: Seq<u8>, more: Seq<u8>)
    requires
        drain(buffer).failure is None,
    ensures
        drain(buffer + more).objects == drain(buffer).objects + drain(drain(buffer).rest + more).objects,
        drain(buffer + more).rest == drain(drain(buffer).rest + more).rest,
        drain(buffer + more).failure == drain(drain(buffer).rest + more).failure,
    decreases buffer.len(),
{
    lemma_frame_well_formed(buffer);
    match first_frame(buffer) {
        Frame::Complete(object, length) => {
            lemma_frame_stable(buffer, more);
            let after = buffer.subrange(length, buffer.len() as int);
            let longer = buffer + more;
            assert(longer.subrange(length, longer.len() as int) =~= after + more);
            lemma_drain_in_chunks(after, more);
            assert(drain(longer).objects =~= drain(buffer).objects + drain(drain(buffer).rest + more).objects);
        },
        _ => {
            assert(drain(buffer).objects + drain(buffer + more).objects =~= drain(buffer + more).objects);
        },
    }
}

/// The frame of an object, with whatever follows it, reads back as that
/// object and takes exactly the bytes of the frame.
pub proof fn lemma_frame_round_trip(object: ObjectModel, more: Seq<u8>)
    requires
        object.well_formed(),
        survives_printing(object),
    ensures
        first_frame(object.wire_bytes() + more) == Frame::Complete(object, object.wire_bytes().len() as int),
{
    broadcast use {vstd::utf8::encode_utf8_valid_utf8, vstd::utf8::encode_utf8_decode_utf8};

    let text = object.header_text();
    let head = vstd::utf8::encode_utf8(text);
    let buffer = object.wire_bytes() + more;
    let end = head.len() as int;
    assert forall|k: int| 0 <= k < end implies buffer[k] != 0u8 by {
        assert(buffer[k] == head[k]);
    }
    assert(buffer[end] == 0u8);
    lemma_header_end(buffer, end);
    assert(buffer.subrange(0, end) =~= head);
    assert(vstd::utf8::valid_utf8(head));
    assert(vstd::utf8::decode_utf8(head) == text);
    lemma_header_round_trip(object);
    match object.size {
        Some(n) => {
            assert(buffer.subrange(end + 1, end + 1 + n) =~= object.payload_bytes());
        },
        None => {},
    }
}

/// A stream of frames reads back as the objects it was made of, in order,
/// and nothing stays in the buffer.
pub proof fn lemma_stream_round_trip(objects: Seq<ObjectModel>)
    requires
        forall|i: int| 0 <= i < objects.len() ==> (#[trigger] objects[i]).well_formed() && survives_printing(objects[i]),
    ensures
        drain(wire_stream(objects)).objects == objects,
        drain(wire_stream(objects)).rest == Seq::<u8>::empty(),
        drain(wire_stream(objects)).failure is None,
    decreases objects.len(),
{
    if objects.len() == 0 {
        lemma_no_header_end(wire_stream(objects));
        assert(drain(wire_stream(objects)).objects =~= objects);
    } else {
        let first = objects.first();
        let others = objects.drop_first();
        assert(first == objects[0]);
        assert forall|i: int| 0 <= i < others.len() implies (#[trigger] others[i]).well_formed()
            && survives_printing(others[i]) by {
            assert(others[i] == objects[i + 1]);
        }
        let stream = wire_stream(objects);
        let length = first.wire_bytes().len() as int;
        lemma_frame_round_trip(first, wire_stream(others));
        assert(stream.subrange(length, stream.len() as int) =~= wire_stream(others));
        lemma_stream_round_trip(others);
        assert(drain(stream).objects =~= objects);
    }
}

/// The bytes of a list of chunks, one behind the other.
pub open spec fn joined(chunks: Seq<Seq<u8>>) -> Seq<u8>
    decreases chunks.len(),
{
    if chunks.len() == 0 {
        Seq::empty()
    } else {
        chunks.first() + joined(chunks.drop_first())
    }
}

/// What a reader gives that starts with `buffer` and makes one pass after
/// each chunk that arrives: the objects of all the passes in order, and
/// what stays in the buffer at the end. A pass that ends in a failure is
/// the last one.
pub open spec fn drain_in_passes(buffer: Seq<u8>, chunks: Seq<Seq<u8>>) -> Drained
    decreases chunks.len(),
{
    if chunks.len() == 0 {
        Drained { objects: Seq::empty(), rest: buffer, failure: None }
    } else {
        let pass = drain(buffer + chunks.first());
        if pass.failure is Some {
            pass
        } else {
            let later = drain_in_passes(pass.rest, chunks.drop_first());
            Drained { objects: pass.objects + later.objects, rest: later.rest, failure: later.failure }
        }
    }
}

/// A pass that ends in a failure ends in the same failure, with the same
/// objects before it, when more bytes stand behind the buffer.
pub proof fn lemma_failure_stable(buffer: Seq<u8>, more: Seq<u8>)
    requires
        drain(buffer).failure is Some,
    ensures
        drain(buffer + more).failure == drain(buffer).failure,
        drain(buffer + more).objects == drain(buffer).objects,
    decreases buffer.len(),
{
    lemma_frame_well_formed(buffer);
    match first_frame(buffer) {
        Frame::Complete(object, length) => {
            lemma_frame_stable(buffer, more);
            let after = buffer.subrange(length, buffer.len() as int);
            let longer = buffer + more;
            assert(longer.subrange(length, longer.len() as int) =~= after + more);
            lemma_failure_stable(after, more);
        },
        Frame::Broken(_) => {
            lemma_frame_stable(buffer, more);
        },
        Frame::Incomplete => {},
    }
}

/// A second pass over what a pass left finds nothing to take.
pub proof fn lemma_drain_settles(buffer: Seq<u8>)
    ensures
        drain(drain(buffer).rest).objects == Seq::<ObjectModel>::empty(),
        drain(drain(buffer).rest).rest == drain(buffer).rest,
        drain(drain(buffer).rest).failure == drain(buffer).failure,
    decreases buffer.len(),
{
    lemma_frame_well_formed(buffer);
    match first_frame(buffer) {
        Frame::Complete(object, length) => {
            lemma_drain_settles(buffer.subrange(length, buffer.len() as int));
        },
        _ => {},
    }
}

/// Chunk boundaries do not matter, however many chunks there are: where
/// one pass over all the bytes meets no broken header, a pass after each
/// chunk gives the same objects in the same order and leaves the same
/// bytes.
pub proof fn lemma_passes_are_one_pass(buffer: Seq<u8>, chunks: Seq<Seq<u8>>)
    requires
        drain(buffer + joined(chunks)).failure is None,
        drain(buffer).objects.len() == 0,
    ensures
        drain_in_passes(buffer, chunks).objects == drain(buffer + joined(chunks)).objects,
        drain_in_passes(buffer, chunks).rest == drain(buffer + joined(chunks)).rest,
        drain_in_passes(buffer, chunks).failure is None,
    decreases chunks.len(),
{
    if chunks.len() == 0 {
        assert(buffer + joined(chunks) =~= buffer);
        lemma_frame_well_formed(buffer);
        assert(drain(buffer).rest == buffer);
        assert(drain(buffer).objects =~= Seq::<ObjectModel>::empty());
    } else {
        let first = chunks.first();
        let others = chunks.drop_first();
        let pass = drain(buffer + first);
        assert((buffer + first) + joined(others) =~= buffer + joined(chunks));
        if pass.failure is Some {
            lemma_failure_stable(buffer + first, joined(others));
        }
        lemma_drain_in_chunks(buffer + first, joined(others));
        lemma_drain_settles(buffer + first);
        lemma_passes_are_one_pass(pass.rest, others);
        assert(drain_in_passes(buffer, chunks).objects =~= drain(buffer + joined(chunks)).objects);
    }
}

/// Stream concatenation: the frames of a list of objects, cut into chunks
/// at any places and read with a pass after each chunk, give the objects of
/// the list in order, and nothing stays in the buffer.
pub proof fn lemma_stream_in_any_chunks(objects: Seq<ObjectModel>, chunks: Seq<Seq<u8>>)
    requires
        joined(chunks) == wire_stream(objects),
        forall|i: int| 0 <= i < objects.len() ==> (#[trigger] objects[i]).well_formed() && survives_printing(objects[i]),
    ensures
        drain_in_passes(Seq::empty(), chunks).objects == objects,
        drain_in_passes(Seq::empty(), chunks).rest == Seq::<u8>::empty(),
        drain_in_passes(Seq::empty(), chunks).failure is None,
{
    let nothing = Seq::<u8>::empty();
    lemma_stream_round_trip(objects);
    assert(nothing + joined(chunks) =~= wire_stream(objects));
    lemma_no_header_end(nothing);
    assert(drain(nothing).objects =~= Seq::<ObjectModel>::empty());
    lemma_passes_are_one_pass(nothing, chunks);
}

/// `std::str::from_utf8`: the text of the bytes where they are UTF-8, and
/// nothing where they are not.
#[verifier::external_body]
fn utf8_text(bytes: &[u8]) -> (text: Option<&str>)
    ensures
        text is Some == vstd::utf8::valid_utf8(bytes@),
        text matches Some(t) ==> t@ == vstd::utf8::decode_utf8(bytes@),
{
    std::str::from_utf8(bytes).ok()
}

/// What `read_frame` found at the front of a buffer.
pub enum FrameRead {
    /// No whole frame yet.
    Incomplete,
    /// One object, and the number of bytes that its frame takes.
    Complete(BusinessObject, usize),
    /// A header that cannot be read.
    Broken(ReadBusinessObjectError),
}

impl View for FrameRead {
    type V = Frame;

    open spec fn view(&self) -> Frame {
        match self {
            FrameRead::Incomplete => Frame::Incomplete,
            FrameRead::Complete(object, length) => Frame::Complete(object@, *length as int),
            FrameRead::Broken(error) => Frame::Broken(error@),
        }
    }
}

/// The place of the first NUL of a buffer.
fn find_header_end(buffer: &[u8]) -> (end: Option<usize>)
    ensures
        match end {
            Some(at) => header_end(buffer@) == Some(at as int) && at < buffer@.len(),
            None => header_end(buffer@) is None,
        },
{
    let mut i: usize = 0;
    while i < buffer.len()
        invariant
            i <= buffer@.len(),
            forall|k: int| 0 <= k < i ==> buffer@[k] != 0u8,
        decreases buffer@.len() - i,
    {
        if buffer[i] == 0u8 {
            proof {
                lemma_header_end(buffer@, i as int);
            }
            return Some(i);
        }
        i += 1;
    }
    proof {
        lemma_no_header_end(buffer@);
    }
    None
}

/// The object that the bytes of a header denote.
pub fn read_header(head: &[u8]) -> (outcome: Result<BusinessObject, ReadBusinessObjectError>)
    ensures
        match outcome {
            Ok(object) => decode_header(head@) == Ok::<ObjectModel, ReadFailure>(object@),
            Err(error) => decode_header(head@) == Err::<ObjectModel, ReadFailure>(error@),
        },
{
    match utf8_text(head) {
        None => Err(ReadBusinessObjectError::BufferCharacterDecodingError),
        Some(text) => match JsonValue::from_text(text) {
            Err(reason) => Err(ReadBusinessObjectError::JsonSyntaxError(text.to_owned(), reason)),
            Ok(value) => BusinessObject::from_json(&value),
        },
    }
}

/// Reads the first frame of a buffer.
pub fn read_frame(buffer: &[u8]) -> (frame: FrameRead)
    ensures
        frame@ == first_frame(buffer@),
{
    let total = buffer.len();
    let end = match find_header_end(buffer) {
        Some(end) => end,
        None => {
            return FrameRead::Incomplete;
        },
    };
    let mut object = match read_header(slice_subrange(buffer, 0, end)) {
        Ok(object) => object,
        Err(error) => {
            return FrameRead::Broken(error);
        },
    };
    match object.size {
        None => FrameRead::Complete(object, end + 1),
        Some(n) => {
            let start = end + 1;
            if n <= total - start {
                let bytes = slice_to_vec(slice_subrange(buffer, start, start + n));
                object.payload = Some(Payload::Bytes(bytes));
                FrameRead::Complete(object, start + n)
            } else {
                FrameRead::Incomplete
            }
        },
    }
}

/// What one pass over a buffer gave: the objects of the whole frames, and
/// the error of the broken header that ended the pass, if one did.
pub struct FramesRead {
    pub objects: Vec<BusinessObject>,
    pub failure: Option<ReadBusinessObjectError>,
}

/// What a pass hands out: the error of a broken header at the front of the
/// buffer, and else the objects of the whole frames.
pub open spec fn pass_model(drained: Drained) -> Result<Seq<ObjectModel>, ReadFailure> {
    match drained.failure {
        Some(failure) => if drained.objects.len() == 0 {
            Err(failure)
        } else {
            Ok(drained.objects)
        },
        None => Ok(drained.objects),
    }
}

/// The outcome of a pass, with the objects and the error taken by their
/// views.
pub open spec fn pass_outcome(outcome: Result<Vec<BusinessObject>, ReadBusinessObjectError>) -> Result<
    Seq<ObjectModel>,
    ReadFailure,
> {
    match outcome {
        Ok(objects) => Ok(objects_model(objects@)),
        Err(error) => Err(error@),
    }
}

/// The view of an optional read error.
pub open spec fn failure_model(failure: Option<ReadBusinessObjectError>) -> Option<ReadFailure> {
    match failure {
        Some(error) => Some(error@),
        None => None,
    }
}

/// The bytes that have arrived on one connection and are not yet taken as
/// frames.
pub struct BusinessObjectStream {
    pub buffer: Vec<u8>,
}

impl View for BusinessObjectStream {
    type V = Seq<u8>;

    open spec fn view(&self) -> Seq<u8> {
        self.buffer@
    }
}

impl BusinessObjectStream {
    /// A stream on which nothing has arrived.
    pub fn new() -> (stream: BusinessObjectStream)
        ensures
            stream@ == Seq::<u8>::empty(),
    {
        BusinessObjectStream { buffer: Vec::new() }
    }

    /// Appends bytes that have arrived to the end of the buffer.
    pub fn feed(&mut self, bytes: &[u8])
        ensures
            final(self)@ == old(self)@ + bytes@,
    {
        let mut copy = slice_to_vec(bytes);
        self.buffer.append(&mut copy);
    }

    /// One pass over the buffer: takes the whole frames from its front and
    /// gives their objects in wire order. A broken header ends the pass and
    /// stays in the buffer: the pass that finds it at the front gives its
    /// error, a pass that finds it behind whole frames gives their objects.
    pub fn read_business_objects(&mut self) -> (outcome: Result<
        Vec<BusinessObject>,
        ReadBusinessObjectError,
    >)
        ensures
            final(self)@ == drain(old(self)@).rest,
            pass_outcome(outcome) == pass_model(drain(old(self)@)),
    {
        let read = self.read_frames();
        match read.failure {
            Some(error) => if read.objects.len() == 0 {
                Err(error)
            } else {
                Ok(read.objects)
            },
            None => Ok(read.objects),
        }
    }

    /// One pass over the buffer: takes the whole frames from its front and
    /// gives their objects in wire order, together with the error of the
    /// broken header that ended the pass, if one did. The buffer stays at
    /// the broken frame.
    pub fn read_frames(&mut self) -> (read: FramesRead)
        ensures
            final(self)@ == drain(old(self)@).rest,
            objects_model(read.objects@) == drain(old(self)@).objects,
            failure_model(read.failure) == drain(old(self)@).failure,
    {
        let mut objects: Vec<BusinessObject> = Vec::new();
        let mut failure: Option<ReadBusinessObjectError> = None;
        let mut taken: usize = 0;
        let ghost whole = self.buffer@;
        proof {
            assert(whole.subrange(0, whole.len() as int) =~= whole);
            assert(objects_model(objects@) =~= Seq::empty());
        }
        loop
            invariant_except_break
                self.buffer@ == whole,
                taken <= whole.len(),
                failure is None,
                drain(whole).objects == objects_model(objects@) + drain(
                    whole.subrange(taken as int, whole.len() as int),
                ).objects,
                drain(whole).rest == drain(whole.subrange(taken as int, whole.len() as int)).rest,
                drain(whole).failure == drain(whole.subrange(taken as int, whole.len() as int)).failure,
            ensures
                self.buffer@ == whole,
                taken <= whole.len(),
                drain(whole).rest == whole.subrange(taken as int, whole.len() as int),
                drain(whole).objects == objects_model(objects@),
                failure_model(failure) == drain(whole).failure,
            decreases whole.len() - taken,
        {
            let ghost rest = whole.subrange(taken as int, whole.len() as int);
            let ghost before = objects@;
            let frame = read_frame(slice_subrange(self.buffer.as_slice(), taken, self.buffer.len()));
            proof {
                lemma_frame_well_formed(rest);
            }
            match frame {
                FrameRead::Incomplete => {
                    proof {
                        assert(drain(whole).objects =~= objects_model(objects@));
                    }
                    break ;
                },
                FrameRead::Broken(error) => {
                    proof {
                        assert(drain(whole).objects =~= objects_model(objects@));
                    }
                    failure = Some(error);
                    break ;
                },
                FrameRead::Complete(object, length) => {
                    objects.push(object);
                    proof {
                        assert(rest.subrange(length as int, rest.len() as int) =~= whole.subrange(
                            taken + length,
                            whole.len() as int,
                        ));
                        assert(objects_model(objects@) =~= objects_model(before) + seq![object@]);
                        assert(drain(whole).objects =~= objects_model(objects@) + drain(
                            whole.subrange(taken + length, whole.len() as int),
                        ).objects);
                    }
                    taken = taken + length;
                },
            }
        }
        let rest = self.buffer.split_off(taken);
        self.buffer = rest;
        FramesRead { objects, failure }
    }
}

} // verus!
