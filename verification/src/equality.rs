use vstd::prelude::*;
use vstd::std_specs::cmp::PartialEqSpecImpl;

use crate::json::{text_eq, JsonValue};
use crate::object::{BusinessObject, Payload};

verus! {

/// Whether both texts are missing, or both are there and equal.
fn same_text(left: &Option<String>, right: &Option<String>) -> (same: bool)
    ensures
        same == (crate::object::text_model(*left) == crate::object::text_model(*right)),
{
    match (left, right) {
        (Some(a), Some(b)) => text_eq(a.as_str(), b.as_str()),
        (None, None) => true,
        _ => false,
    }
}

/// Whether two lists hold the same bytes.
fn same_bytes(a: &Vec<u8>, b: &Vec<u8>) -> (same: bool)
    ensures
        same == (a@ == b@),
{
    if a.len() != b.len() {
        return false;
    }
    let mut i: usize = 0;
    while i < a.len()
        invariant
            i <= a@.len(),
            a@.len() == b@.len(),
            forall|k: int| 0 <= k < i ==> a@[k] == b@[k],
        decreases a@.len() - i,
    {
        if a[i] != b[i] {
            return false;
        }
        i += 1;
    }
    assert(a@ =~= b@);
    true
}

/// Whether both payloads are missing, or both are there with the same bytes.
fn same_payload(left: &Option<Payload>, right: &Option<Payload>) -> (same: bool)
    ensures
        same == (crate::object::payload_model(*left) == crate::object::payload_model(*right)),
{
    match (left, right) {
        (Some(Payload::Bytes(a)), Some(Payload::Bytes(b))) => same_bytes(a, b),
        (None, None) => true,
        _ => false,
    }
}

impl PartialEq for JsonValue {
    fn eq(&self, other: &JsonValue) -> (same: bool) {
        self.same_as(other)
    }
}

impl PartialEqSpecImpl for JsonValue {
    open spec fn obeys_eq_spec() -> bool {
        true
    }

    /// Two values are equal when they stand for the same JSON value.
    open spec fn eq_spec(&self, other: &JsonValue) -> bool {
        self@ == other@
    }
}

impl PartialEq for BusinessObject {
    fn eq(&self, other: &BusinessObject) -> (same: bool) {
        same_text(&self.event, &other.event) && same_text(&self._type, &other._type) && self.size
            == other.size && same_payload(&self.payload, &other.payload) && self.metadata.same_as(
            &other.metadata,
        )
    }
}

impl PartialEqSpecImpl for BusinessObject {
    open spec fn obeys_eq_spec() -> bool {
        true
    }

    /// Two objects are equal when event, type, size and payload agree and
    /// the metadata bind the same keys to the same JSON values.
    open spec fn eq_spec(&self, other: &BusinessObject) -> bool {
        &&& self@.event == other@.event
        &&& self@.payload_type == other@.payload_type
        &&& self@.size == other@.size
        &&& self@.payload == other@.payload
        &&& self@.metadata == other@.metadata
    }
}

} // verus!
