use rustc_serialize::json::Json;
use vstd::prelude::*;

use crate::json::{tidy, JsonModel, JsonObject, JsonValue};
use crate::json_guard::{is_within_limits, within_limits};

verus! {

/// `rustc_serialize::json::Json`: the form in which values are handed to
/// the crate's printer and come from its parser. It is never looked into
/// but by the two conversions below.
#[verifier::external_type_specification]
#[verifier::external_body]
pub struct ExJson(Json);

/// The compact text that `rustc_serialize` prints for a JSON value.
pub uninterp spec fn json_text(value: JsonModel) -> Seq<char>;

/// What `rustc_serialize` makes of a text: the JSON value it reads, or the
/// words in which it refuses the text.
pub uninterp spec fn json_parse(text: Seq<char>) -> Result<JsonModel, Seq<char>>;

/// The outcome of reading a text, with the value and the reason taken by
/// their views.
pub open spec fn outcome_model(outcome: Result<JsonValue, String>) -> Result<JsonModel, Seq<char>> {
    match outcome {
        Ok(value) => Ok(value@),
        Err(reason) => Err(reason@),
    }
}

/// Rebuilds a value as a `rustc_serialize::json::Json`, variant by variant.
/// A number with a fraction is read back from its text by std's `parse`,
/// which reads every text of a number; the bindings of an object go into
/// the map in order, so that a later one replaces an earlier one of the
/// same key.
#[verifier::external_body]
fn to_outside(value: &JsonValue) -> Json {
    match value {
        JsonValue::I64(n) => Json::I64(*n),
        JsonValue::U64(n) => Json::U64(*n),
        JsonValue::F64(digits) => Json::F64(digits.parse().unwrap_or_default()),
        JsonValue::String(text) => Json::String(text.clone()),
        JsonValue::Boolean(b) => Json::Boolean(*b),
        JsonValue::Array(items) => Json::Array(items.iter().map(to_outside).collect()),
        JsonValue::Object(object) => Json::Object(fields_to_outside(object)),
        JsonValue::Null => Json::Null,
    }
}

/// Fills the map of a `Json::Object` with the bindings of an object, by
/// `BTreeMap::insert` in the order of the list.
#[verifier::external_body]
fn fields_to_outside(object: &JsonObject) -> rustc_serialize::json::Object {
    let mut fields = rustc_serialize::json::Object::new();
    for entry in object.entries.iter() {
        fields.insert(entry.0.clone(), to_outside(&entry.1));
    }
    fields
}

/// Copies a `rustc_serialize::json::Json` into a value, variant by variant.
/// A number with a fraction is kept as the decimal digits that std prints
/// for it; the bindings of an object come in the order of the map's keys.
#[verifier::external_body]
fn from_outside(json: &Json) -> JsonValue {
    match json {
        Json::I64(n) => JsonValue::I64(*n),
        Json::U64(n) => JsonValue::U64(*n),
        Json::F64(x) => JsonValue::F64(x.to_string()),
        Json::String(text) => JsonValue::String(text.clone()),
        Json::Boolean(b) => JsonValue::Boolean(*b),
        Json::Array(items) => JsonValue::Array(items.iter().map(from_outside).collect()),
        Json::Object(fields) => JsonValue::Object(
            JsonObject { entries: fields.iter().map(|(k, v)| (k.clone(), from_outside(v))).collect() },
        ),
        Json::Null => JsonValue::Null,
    }
}

/// `Json::to_string`, the `Display` of `rustc_serialize::json::Json`: the
/// compact encoding of the value, asked for values in which every `F64`
/// holds the text of a number. The result is named, not described. The
/// one fact stated of it is that its bytes hold no NUL: the encoder writes
/// digits, punctuation, the three literals and strings, and it escapes every
/// control byte of a string, NUL among them.
#[verifier::external_body]
fn print_json(value: &JsonValue) -> (text: String)
    requires
        tidy(*value),
    ensures
        text@ == json_text(value@),
        forall|i: int|
            0 <= i < vstd::utf8::encode_utf8(text@).len() ==> vstd::utf8::encode_utf8(text@)[i] != 0u8,
{
    to_outside(value).to_string()
}

/// Whether the JSON parser may be asked about a text: the text stays within
/// the limits inside which the parser is known to return.
pub open spec fn parser_safe(text: Seq<char>) -> bool {
    within_limits(vstd::utf8::encode_utf8(text))
}

/// What reading a text gives: what the parser makes of it, where the parser
/// may be asked, and else an error of its own.
pub open spec fn parse_model(text: Seq<char>) -> Result<JsonModel, Seq<char>> {
    if parser_safe(text) {
        json_parse(text)
    } else {
        Err("JSON text beyond the limits of the parser"@)
    }
}

/// `Json::from_str` of `rustc_serialize`: the value that the text denotes,
/// or the parser's error in its `Debug` form. The result is named, not
/// described. Texts beyond the limits are left out, because the parser does
/// not return on all of them: it adds up the digits of an exponent without
/// a check, it keeps the keys on the path to a value in a buffer that it
/// indexes with 16 bits, it counts the items of an array in 32 bits, it
/// descends into nested values by recursion, and at a closing brace behind
/// a comma it drops the enclosing value's place from its stack, which its
/// builder then misses.
#[verifier::external_body]
fn read_json(text: &str) -> (outcome: Result<JsonValue, String>)
    requires
        parser_safe(text@),
    ensures
        outcome_model(outcome) == json_parse(text@),
{
    match Json::from_str(text) {
        Ok(json) => Ok(from_outside(&json)),
        Err(error) => Err(format!("{:?}", error)),
    }
}

impl JsonValue {
    /// The value as compact JSON text.
    pub fn to_text(&self) -> (text: String)
        ensures
            text@ == json_text(self@),
            forall|i: int|
                0 <= i < vstd::utf8::encode_utf8(text@).len() ==> vstd::utf8::encode_utf8(text@)[i]
                    != 0u8,
    {
        if self.is_tidy() {
            print_json(self)
        } else {
            let copy = self.duplicate();
            print_json(&copy)
        }
    }

    /// Reads a value from JSON text; the error holds the parser's reason.
    /// A text beyond the limits of the parser is refused without asking
    /// the parser.
    pub fn from_text(text: &str) -> (outcome: Result<JsonValue, String>)
        ensures
            outcome_model(outcome) == parse_model(text@),
    {
        if is_within_limits(text.as_bytes()) {
            read_json(text)
        } else {
            Err("JSON text beyond the limits of the parser".to_owned())
        }
    }
}

} // verus!
