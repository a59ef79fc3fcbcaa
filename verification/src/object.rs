use vstd::prelude::*;
use vstd::slice::slice_to_vec;
use vstd::string::StrSliceExecFns;

use crate::json::{entries_model, items_model, lemma_items_model, text_eq, JsonModel, JsonObject, JsonValue};
use crate::json_text::json_text;

verus! {

/// `std::io::Error`: carried inside a read error as it came from the
/// socket, and never looked into.
#[verifier::external_type_specification]
#[verifier::external_body]
pub struct ExIoError(std::io::Error);

/// A message of the bus: a JSON header, given by its three reserved fields
/// and the remaining keys, and an optional payload of bytes.
#[derive(Debug)]
pub struct BusinessObject {
    pub event: Option<String>,
    pub _type: Option<String>,
    pub size: Option<usize>,
    pub payload: Option<Payload>,
    pub metadata: JsonObject,
}

/// The payload of a business object.
#[derive(Debug, Clone, PartialEq, Eq)]
pub enum Payload {
    Bytes(Vec<u8>),
}

/// Why no business object could be read.
#[derive(Debug)]
pub enum ReadBusinessObjectError {
    /// The socket could not be read.
    ReadError(std::io::Error),
    /// The header is JSON, but no JSON that describes an object; the words
    /// say why.
    JsonSemanticsError(&'static str),
    /// The header is no JSON: its text, and the parser's reason.
    JsonSyntaxError(String, String),
    /// The header is no UTF-8.
    BufferCharacterDecodingError,
}

/// Why a business object could not be put on the wire.
#[derive(Debug, Clone, Copy, PartialEq, Eq)]
pub enum WriteBusinessObjectError {
    EncodeInvariantViolated,
}

/// The mathematical value of a business object.
pub struct ObjectModel {
    pub event: Option<Seq<char>>,
    pub payload_type: Option<Seq<char>>,
    pub size: Option<usize>,
    pub payload: Option<Seq<u8>>,
    pub metadata: Map<Seq<char>, JsonModel>,
}

/// The mathematical value of a read error; of a failed read no more is kept
/// than that it failed.
pub enum ReadFailure {
    Read,
    JsonSemantics(Seq<char>),
    JsonSyntax(Seq<char>, Seq<char>),
    BufferCharacterDecoding,
}

pub open spec fn text_model(text: Option<String>) -> Option<Seq<char>> {
    match text {
        Some(t) => Some(t@),
        None => None,
    }
}

pub open spec fn payload_model(payload: Option<Payload>) -> Option<Seq<u8>> {
    match payload {
        Some(Payload::Bytes(bytes)) => Some(bytes@),
        None => None,
    }
}

impl View for BusinessObject {
    type V = ObjectModel;

    open spec fn view(&self) -> ObjectModel {
        ObjectModel {
            event: text_model(self.event),
            payload_type: text_model(self._type),
            size: self.size,
            payload: payload_model(self.payload),
            metadata: self.metadata@,
        }
    }
}

impl View for ReadBusinessObjectError {
    type V = ReadFailure;

    open spec fn view(&self) -> ReadFailure {
        match self {
            ReadBusinessObjectError::ReadError(_) => ReadFailure::Read,
            ReadBusinessObjectError::JsonSemanticsError(reason) => ReadFailure::JsonSemantics(reason@),
            ReadBusinessObjectError::JsonSyntaxError(text, reason) => ReadFailure::JsonSyntax(
                text@,
                reason@,
            ),
            ReadBusinessObjectError::BufferCharacterDecodingError => ReadFailure::BufferCharacterDecoding,
        }
    }
}

/// The three keys of a header that are fields of the object and never part
/// of its metadata.
pub open spec fn reserved_key(key: Seq<char>) -> bool {
    key == "event"@ || key == "type"@ || key == "size"@
}

/// A header without its reserved keys.
pub open spec fn strip_reserved(header: Map<Seq<char>, JsonModel>) -> Map<Seq<char>, JsonModel> {
    header.remove("event"@).remove("type"@).remove("size"@)
}

/// The text under a key of a header, where the key is bound to a string.
pub open spec fn header_text(header: Map<Seq<char>, JsonModel>, key: Seq<char>) -> Option<Seq<char>> {
    if header.contains_key(key) {
        header[key].as_string()
    } else {
        None
    }
}

/// The payload length that a header announces: its `size`, where that is a
/// positive integer that a length on this machine can be. Zero counts as
/// absent.
pub open spec fn header_size(header: Map<Seq<char>, JsonModel>) -> Option<usize> {
    if header.contains_key("size"@) {
        match header["size"@].as_u64() {
            Some(n) => if 0 < n <= usize::MAX {
                Some(n as usize)
            } else {
                None
            },
            None => None,
        }
    } else {
        None
    }
}

/// The object that a header describes, before any payload is attached.
pub open spec fn object_of_header(header: Map<Seq<char>, JsonModel>) -> ObjectModel {
    ObjectModel {
        event: header_text(header, "event"@),
        payload_type: header_text(header, "type"@),
        size: header_size(header),
        payload: None,
        metadata: strip_reserved(header),
    }
}

/// The header of an object: its metadata and, over them, whichever of
/// `type`, `size` and `event` the object has.
pub open spec fn header_of_object(object: ObjectModel) -> Map<Seq<char>, JsonModel> {
    let with_type = match object.payload_type {
        Some(t) => object.metadata.insert("type"@, JsonModel::String(t)),
        None => object.metadata,
    };
    let with_size = match object.size {
        Some(n) => with_type.insert("size"@, JsonModel::U64(n as u64)),
        None => with_type,
    };
    match object.event {
        Some(e) => with_size.insert("event"@, JsonModel::String(e)),
        None => with_size,
    }
}

/// The strings among the items of an array, in order.
pub open spec fn string_items(items: Seq<JsonModel>) -> Seq<Seq<char>>
    decreases items.len(),
{
    if items.len() == 0 {
        Seq::empty()
    } else {
        let front = string_items(items.drop_last());
        match items.last() {
            JsonModel::String(text) => front.push(text),
            _ => front,
        }
    }
}

/// The routing tags of an object: the strings of the array under
/// `natures`, and nothing where that key is missing or holds no array.
pub open spec fn natures_of(metadata: Map<Seq<char>, JsonModel>) -> Seq<Seq<char>> {
    if metadata.contains_key("natures"@) {
        match metadata["natures"@] {
            JsonModel::Array(items) => string_items(items),
            _ => Seq::empty(),
        }
    } else {
        Seq::empty()
    }
}

/// The views of a list of texts.
pub open spec fn texts_model(texts: Seq<&str>) -> Seq<Seq<char>> {
    Seq::new(texts.len(), |i: int| texts[i]@)
}

impl ObjectModel {
    /// Whether the object announces a payload: it has a size, and the size
    /// is not zero.
    pub open spec fn announces_payload(self) -> bool {
        match self.size {
            Some(n) => n > 0,
            None => false,
        }
    }

    /// The invariant of a business object: it has a payload exactly when it
    /// announces one, the payload is as long as the size says, and no
    /// reserved key is bound in the metadata. A size of zero goes without
    /// payload, as no size does.
    pub open spec fn well_formed(self) -> bool {
        &&& self.payload is Some <==> self.announces_payload()
        &&& self.size matches Some(n) ==> self.payload_bytes().len() == n
        &&& !self.metadata.contains_key("event"@)
        &&& !self.metadata.contains_key("type"@)
        &&& !self.metadata.contains_key("size"@)
    }

    /// The bytes of the payload; none where there is no payload.
    pub open spec fn payload_bytes(self) -> Seq<u8> {
        match self.payload {
            Some(bytes) => bytes,
            None => Seq::empty(),
        }
    }

    /// The JSON text of the header.
    pub open spec fn header_text(self) -> Seq<char> {
        json_text(JsonModel::Object(header_of_object(self)))
    }

    /// The frame of the object: the header's text in UTF-8, one NUL, the
    /// payload.
    pub open spec fn wire_bytes(self) -> Seq<u8> {
        vstd::utf8::encode_utf8(self.header_text()) + seq![0u8] + self.payload_bytes()
    }
}

/// Whether the text of the object's header holds no NUL, so that the first
/// NUL of the object's frame is the one that ends the header.
pub open spec fn header_terminated(object: ObjectModel) -> bool {
    let head = vstd::utf8::encode_utf8(object.header_text());
    forall|i: int| 0 <= i < head.len() ==> head[i] != 0u8
}

/// The three reserved keys are three different texts.
pub proof fn lemma_reserved_keys_differ()
    ensures
        "event"@ != "type"@,
        "event"@ != "size"@,
        "type"@ != "size"@,
        "natures"@ != "event"@,
        "natures"@ != "type"@,
        "natures"@ != "size"@,
{
    reveal_strlit("event");
    reveal_strlit("type");
    reveal_strlit("size");
    reveal_strlit("natures");
    assert("event"@.len() == 5 && "type"@.len() == 4 && "size"@.len() == 4 && "natures"@.len() == 7);
    assert("type"@[0] != "size"@[0]);
}

/// Reading the header of a well-formed object gives the object back,
/// without its payload. An object with a size of zero is left out: read
/// back, it has no size.
pub proof fn lemma_header_round_trip(object: ObjectModel)
    requires
        object.well_formed(),
        object.size != Some(0usize),
    ensures
        object_of_header(header_of_object(object)) == (ObjectModel { payload: None, ..object }),
{
    lemma_reserved_keys_differ();
    let header = header_of_object(object);
    assert(strip_reserved(header) =~= object.metadata);
    match object.size {
        Some(n) => {
            assert(header["size"@] == JsonModel::U64(n as u64));
            assert((n as u64) as usize == n);
        },
        None => {},
    }
}

/// The cause of a read error, in words.
pub fn extract_reason(error: &ReadBusinessObjectError) -> (reason: &str)
    ensures
        reason@ == match error@ {
            ReadFailure::JsonSemantics(cause) => cause,
            ReadFailure::JsonSyntax(_, cause) => cause,
            ReadFailure::BufferCharacterDecoding => "Character encoding error"@,
            ReadFailure::Read => "Read error"@,
        },
{
    match error {
        ReadBusinessObjectError::JsonSemanticsError(reason) => reason,
        ReadBusinessObjectError::JsonSyntaxError(_, reason) => reason.as_str(),
        ReadBusinessObjectError::BufferCharacterDecodingError => "Character encoding error",
        ReadBusinessObjectError::ReadError(_) => "Read error",
    }
}

impl ReadBusinessObjectError {
    /// The cause of the error, in words.
    pub fn description(&self) -> (reason: &str)
        ensures
            reason@ == match self@ {
                ReadFailure::JsonSemantics(cause) => cause,
                ReadFailure::JsonSyntax(_, cause) => cause,
                ReadFailure::BufferCharacterDecoding => "Character encoding error"@,
                ReadFailure::Read => "Read error"@,
            },
    {
        extract_reason(self)
    }
}

/// Whether a key is one of the three reserved ones.
fn is_reserved(key: &str) -> (reserved: bool)
    ensures
        reserved == reserved_key(key@),
{
    text_eq(key, "event") || text_eq(key, "type") || text_eq(key, "size")
}

/// The text under `key`, copied, where the header binds `key` to a string.
fn text_field(header: &JsonObject, key: &str) -> (text: Option<String>)
    ensures
        text_model(text) == header_text(header@, key@),
{
    match header.get(key) {
        Some(value) => match value.as_string() {
            Some(text) => Some(text.to_owned()),
            None => None,
        },
        None => None,
    }
}

/// The payload length that the header announces.
fn size_field(header: &JsonObject) -> (size: Option<usize>)
    ensures
        size == header_size(header@),
{
    match header.get("size") {
        Some(value) => match value.as_u64() {
            Some(n) => if n > 0 && n <= usize::MAX as u64 {
                Some(n as usize)
            } else {
                None
            },
            None => None,
        },
        None => None,
    }
}

impl JsonObject {
    /// The business object that this header describes: the reserved keys
    /// become fields where their values have the right type, every other
    /// binding passes into the metadata unchanged, and no payload is
    /// attached yet.
    pub fn to_business_object(&self) -> (object: BusinessObject)
        ensures
            object@ == object_of_header(self@),
    {
        let event = text_field(self, "event");
        let _type = text_field(self, "type");
        let size = size_field(self);
        let mut metadata = JsonObject::new();
        let mut i: usize = 0;
        assert(self.entries@.take(0) =~= Seq::empty());
        assert(strip_reserved(Map::<Seq<char>, JsonModel>::empty()) =~= Map::<Seq<char>, JsonModel>::empty());
        while i < self.entries.len()
            invariant
                i <= self.entries@.len(),
                metadata@ == strip_reserved(entries_model(self.entries@.take(i as int))),
            decreases self.entries@.len() - i,
        {
            let ghost before = entries_model(self.entries@.take(i as int));
            proof {
                assert(self.entries@.take(i + 1).drop_last() =~= self.entries@.take(i as int));
                assert(self.entries@.take(i + 1).last() == self.entries@[i as int]);
            }
            let key = &self.entries[i].0;
            let value = &self.entries[i].1;
            if !is_reserved(key.as_str()) {
                metadata.insert(key.clone(), value.duplicate());
                assert(metadata@ =~= strip_reserved(before.insert(key@, value@)));
            } else {
                assert(metadata@ =~= strip_reserved(before.insert(key@, value@)));
            }
            i += 1;
        }
        assert(self.entries@.take(i as int) =~= self.entries@);
        BusinessObject { event, _type, size, payload: None, metadata }
    }
}

/// A copy of an optional text.
fn copy_text(text: &Option<String>) -> (copy: Option<String>)
    ensures
        text_model(copy) == text_model(*text),
{
    match text {
        Some(t) => Some(t.clone()),
        None => None,
    }
}

impl Clone for BusinessObject {
    fn clone(&self) -> (copy: BusinessObject)
        ensures
            copy@ == self@,
    {
        self.duplicate()
    }
}

impl BusinessObject {
    /// A copy that stands for the same object.
    pub fn duplicate(&self) -> (copy: BusinessObject)
        ensures
            copy@ == self@,
    {
        let payload = match &self.payload {
            Some(Payload::Bytes(bytes)) => Some(Payload::Bytes(slice_to_vec(bytes.as_slice()))),
            None => None,
        };
        BusinessObject {
            event: copy_text(&self.event),
            _type: copy_text(&self._type),
            size: self.size,
            payload,
            metadata: self.metadata.duplicate(),
        }
    }

    /// The object that a JSON value describes as a header. Only an object
    /// at the root is a header.
    pub fn from_json(obj: &JsonValue) -> (outcome: Result<BusinessObject, ReadBusinessObjectError>)
        ensures
            match outcome {
                Ok(object) => obj@ matches JsonModel::Object(header) && object@ == object_of_header(
                    header,
                ),
                Err(error) => !(obj@ is Object) && error@ == ReadFailure::JsonSemantics(
                    "Unsupported JSON type"@,
                ),
            },
    {
        match obj.as_object() {
            Some(header) => Ok(header.to_business_object()),
            None => Err(ReadBusinessObjectError::JsonSemanticsError("Unsupported JSON type")),
        }
    }

    /// Whether the object keeps the invariant of business objects.
    pub fn is_well_formed(&self) -> (yes: bool)
        ensures
            yes == self@.well_formed(),
    {
        let fields_agree = match (&self.payload, self.size) {
            (Some(Payload::Bytes(bytes)), Some(n)) => n > 0 && bytes.len() == n,
            (Some(_), None) => false,
            (None, Some(n)) => n == 0,
            (None, None) => true,
        };
        fields_agree && self.metadata.get("event").is_none() && self.metadata.get("type").is_none()
            && self.metadata.get("size").is_none()
    }

    /// The frame of the object: the header as JSON text, one NUL, the
    /// payload. An object that breaks the invariant has no frame. An
    /// object with a size of zero has one: its header holds the size, and
    /// no payload follows.
    pub fn to_bytes(&self) -> (outcome: Result<Vec<u8>, WriteBusinessObjectError>)
        ensures
            outcome is Ok == self@.well_formed(),
            outcome matches Ok(bytes) ==> bytes@ == self@.wire_bytes() && header_terminated(self@),
    {
        if !self.is_well_formed() {
            return Err(WriteBusinessObjectError::EncodeInvariantViolated);
        }
        let text = self.to_json().to_text();
        let mut result = text.as_str().as_bytes_vec();
        result.push(0u8);
        match &self.payload {
            Some(Payload::Bytes(payload)) => {
                let mut copy = slice_to_vec(payload.as_slice());
                result.append(&mut copy);
            },
            None => {
                assert(result@ =~= self@.wire_bytes());
            },
        }
        Ok(result)
    }

    /// The header of the object as a JSON value.
    pub fn to_json(&self) -> (header: JsonValue)
        ensures
            header@ == JsonModel::Object(header_of_object(self@)),
    {
        let mut d = self.metadata.duplicate();
        match &self._type {
            Some(t) => {
                d.insert("type".to_owned(), JsonValue::String(t.clone()));
            },
            None => {},
        }
        match self.size {
            Some(n) => {
                d.insert("size".to_owned(), JsonValue::U64(n as u64));
            },
            None => {},
        }
        match &self.event {
            Some(e) => {
                d.insert("event".to_owned(), JsonValue::String(e.clone()));
            },
            None => {},
        }
        JsonValue::Object(d)
    }

    /// Whether the object announces a payload.
    pub fn has_payload(&self) -> (yes: bool)
        ensures
            yes == self@.announces_payload(),
    {
        match self.size {
            Some(size) => size > 0,
            None => false,
        }
    }

    /// The routing tags of the object.
    pub fn natures(&self) -> (tags: Vec<&str>)
        ensures
            texts_model(tags@) == natures_of(self@.metadata),
    {
        let mut result: Vec<&str> = Vec::new();
        assert(texts_model(result@) =~= Seq::empty());
        match self.metadata.get("natures") {
            Some(natures) => {
                match natures.as_array() {
                    Some(list) => {
                        let ghost items = items_model(list@);
                        proof {
                            lemma_items_model(list@);
                            assert(items.take(0) =~= Seq::empty());
                        }
                        let mut i: usize = 0;
                        while i < list.len()
                            invariant
                                i <= list@.len(),
                                items == items_model(list@),
                                items.len() == list@.len(),
                                forall|k: int| 0 <= k < list@.len() ==> #[trigger] items[k] == list@[k]@,
                                texts_model(result@) == string_items(items.take(i as int)),
                            decreases list@.len() - i,
                        {
                            let ghost before = result@;
                            proof {
                                assert(items.take(i + 1).drop_last() =~= items.take(i as int));
                                assert(items.take(i + 1).last() == items[i as int]);
                            }
                            match list[i].as_string() {
                                Some(nature) => {
                                    result.push(nature);
                                    assert(texts_model(result@) =~= texts_model(before).push(nature@));
                                },
                                None => {},
                            }
                            i += 1;
                        }
                        assert(items.take(i as int) =~= items);
                    },
                    None => {},
                }
            },
            None => {},
        }
        result
    }
}

} // verus!
