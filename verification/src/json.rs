use vstd::prelude::*;

use crate::json_number::{digits_or_zero, is_number_text, number_or_zero, number_text};

verus! {

/// A JSON value, held as plain data.
///
/// A number is an `I64` where it is a negative integer, a `U64` where it
/// is any other integer, and an `F64` where it is written with a fraction
/// or an exponent. An `F64` holds the text of its number: an optional
/// minus sign, and then `NaN`, `inf`, or digits with an optional fraction.
/// Any other text stands for zero. Two texts of one number, such as `1.5`
/// and `1.50`, are two values.
#[derive(Debug)]
pub enum JsonValue {
    I64(i64),
    U64(u64),
    F64(String),
    String(String),
    Boolean(bool),
    Array(Vec<JsonValue>),
    Object(JsonObject),
    Null,
}

/// A JSON object: a list of bindings. Where a key occurs more than once,
/// its last entry counts; `insert` adds no second entry for a key.
#[derive(Debug)]
pub struct JsonObject {
    pub entries: Vec<(String, JsonValue)>,
}

/// The mathematical value that a `JsonValue` stands for.
pub enum JsonModel {
    I64(i64),
    U64(u64),
    F64(Seq<char>),
    String(Seq<char>),
    Boolean(bool),
    Array(Seq<JsonModel>),
    Object(Map<Seq<char>, JsonModel>),
    Null,
}

/// The value that a `JsonValue` stands for.
pub open spec fn value_model(value: JsonValue) -> JsonModel
    decreases value,
{
    match value {
        JsonValue::I64(n) => JsonModel::I64(n),
        JsonValue::U64(n) => JsonModel::U64(n),
        JsonValue::F64(digits) => JsonModel::F64(number_or_zero(digits@)),
        JsonValue::String(text) => JsonModel::String(text@),
        JsonValue::Boolean(b) => JsonModel::Boolean(b),
        JsonValue::Array(items) => JsonModel::Array(items_model(items@)),
        JsonValue::Object(object) => JsonModel::Object(entries_model(object.entries@)),
        JsonValue::Null => JsonModel::Null,
    }
}

/// The values that the items of an array stand for, in order.
pub open spec fn items_model(items: Seq<JsonValue>) -> Seq<JsonModel>
    decreases items,
{
    if items.len() == 0 {
        Seq::empty()
    } else {
        items_model(items.drop_last()).push(value_model(items.last()))
    }
}

/// The bindings that a list of entries stands for: each key is bound to
/// the value of the last entry that carries it.
pub open spec fn entries_model(entries: Seq<(String, JsonValue)>) -> Map<Seq<char>, JsonModel>
    decreases entries,
{
    if entries.len() == 0 {
        Map::empty()
    } else {
        entries_model(entries.drop_last()).insert(
            entries.last().0@,
            value_model(entries.last().1),
        )
    }
}

/// Whether every `F64` in a value holds the text of a number.
pub open spec fn tidy(value: JsonValue) -> bool
    decreases value,
{
    match value {
        JsonValue::F64(digits) => number_text(digits@),
        JsonValue::Array(items) => items_tidy(items@),
        JsonValue::Object(object) => entries_tidy(object.entries@),
        _ => true,
    }
}

/// Whether every `F64` in the items of an array holds the text of a number.
pub open spec fn items_tidy(items: Seq<JsonValue>) -> bool
    decreases items,
{
    items.len() == 0 || (items_tidy(items.drop_last()) && tidy(items.last()))
}

/// Whether every `F64` in the entries of an object holds the text of a
/// number.
pub open spec fn entries_tidy(entries: Seq<(String, JsonValue)>) -> bool
    decreases entries,
{
    entries.len() == 0 || (entries_tidy(entries.drop_last()) && tidy(entries.last().1))
}

/// Tidy items have a tidy front.
pub proof fn lemma_items_tidy_front(items: Seq<JsonValue>, upto: int)
    requires
        0 <= upto <= items.len(),
        items_tidy(items),
    ensures
        items_tidy(items.take(upto)),
    decreases items.len(),
{
    if upto == items.len() {
        assert(items.take(upto) =~= items);
    } else {
        lemma_items_tidy_front(items.drop_last(), upto);
        assert(items.drop_last().take(upto) =~= items.take(upto));
    }
}

/// Tidy entries have a tidy front.
pub proof fn lemma_entries_tidy_front(entries: Seq<(String, JsonValue)>, upto: int)
    requires
        0 <= upto <= entries.len(),
        entries_tidy(entries),
    ensures
        entries_tidy(entries.take(upto)),
    decreases entries.len(),
{
    if upto == entries.len() {
        assert(entries.take(upto) =~= entries);
    } else {
        lemma_entries_tidy_front(entries.drop_last(), upto);
        assert(entries.drop_last().take(upto) =~= entries.take(upto));
    }
}

impl View for JsonValue {
    type V = JsonModel;

    open spec fn view(&self) -> JsonModel {
        value_model(*self)
    }
}

impl View for JsonObject {
    type V = Map<Seq<char>, JsonModel>;

    open spec fn view(&self) -> Map<Seq<char>, JsonModel> {
        entries_model(self.entries@)
    }
}

impl JsonModel {
    /// The text of a string value.
    pub open spec fn as_string(self) -> Option<Seq<char>> {
        match self {
            JsonModel::String(text) => Some(text),
            _ => None,
        }
    }

    /// The number held by an integer value that is not negative.
    pub open spec fn as_u64(self) -> Option<u64> {
        match self {
            JsonModel::I64(n) => if n >= 0 {
                Some(n as u64)
            } else {
                None
            },
            JsonModel::U64(n) => Some(n),
            _ => None,
        }
    }

    /// The items of an array value.
    pub open spec fn as_array(self) -> Option<Seq<JsonModel>> {
        match self {
            JsonModel::Array(items) => Some(items),
            _ => None,
        }
    }

    /// The bindings of an object value.
    pub open spec fn as_object(self) -> Option<Map<Seq<char>, JsonModel>> {
        match self {
            JsonModel::Object(fields) => Some(fields),
            _ => None,
        }
    }
}

/// `items_model` keeps the length and works item by item.
pub proof fn lemma_items_model(items: Seq<JsonValue>)
    ensures
        items_model(items).len() == items.len(),
        forall|i: int| 0 <= i < items.len() ==> #[trigger] items_model(items)[i] == value_model(items[i]),
    decreases items.len(),
{
    if items.len() > 0 {
        lemma_items_model(items.drop_last());
    }
}

/// A key is bound in the model exactly when some entry carries it.
pub proof fn lemma_entries_model_dom(entries: Seq<(String, JsonValue)>, key: Seq<char>)
    ensures
        entries_model(entries).contains_key(key) <==> exists|i: int|
            0 <= i < entries.len() && (#[trigger] entries[i]).0@ == key,
    decreases entries.len(),
{
    if entries.len() > 0 {
        let front = entries.drop_last();
        lemma_entries_model_dom(front, key);
        if entries_model(entries).contains_key(key) {
            if entries.last().0@ == key {
                assert(entries[entries.len() - 1].0@ == key);
            } else {
                let i = choose|i: int| 0 <= i < front.len() && (#[trigger] front[i]).0@ == key;
                assert(entries[i].0@ == key);
            }
        }
        if exists|i: int| 0 <= i < entries.len() && (#[trigger] entries[i]).0@ == key {
            let i = choose|i: int| 0 <= i < entries.len() && (#[trigger] entries[i]).0@ == key;
            if i < entries.len() - 1 {
                assert(front[i].0@ == key);
            }
        }
    }
}

/// The last entry that carries a key decides what the key is bound to.
pub proof fn lemma_entries_model_last(entries: Seq<(String, JsonValue)>, key: Seq<char>, at: int)
    requires
        0 <= at < entries.len(),
        entries[at].0@ == key,
        forall|k: int| at < k < entries.len() ==> (#[trigger] entries[k]).0@ != key,
    ensures
        entries_model(entries).contains_key(key),
        entries_model(entries)[key] == value_model(entries[at].1),
    decreases entries.len(),
{
    if at < entries.len() - 1 {
        let front = entries.drop_last();
        assert(entries[entries.len() - 1].0@ != key);
        assert forall|k: int| at < k < front.len() implies (#[trigger] front[k]).0@ != key by {
            assert(entries[k].0@ != key);
        }
        lemma_entries_model_last(front, key, at);
    }
}

/// An entry that takes the place of the last entry of its key binds the key
/// anew and leaves every other binding as it was.
pub proof fn lemma_entries_model_update(
    entries: Seq<(String, JsonValue)>,
    at: int,
    entry: (String, JsonValue),
)
    requires
        0 <= at < entries.len(),
        entries[at].0@ == entry.0@,
        forall|k: int| at < k < entries.len() ==> (#[trigger] entries[k]).0@ != entry.0@,
    ensures
        entries_model(entries.update(at, entry)) == entries_model(entries).insert(
            entry.0@,
            value_model(entry.1),
        ),
    decreases entries.len(),
{
    let changed = entries.update(at, entry);
    let front = entries.drop_last();
    if at == entries.len() - 1 {
        assert(changed.drop_last() =~= front);
        assert(changed.last() == entry);
        assert(entries_model(changed) =~= entries_model(entries).insert(entry.0@, value_model(entry.1)));
    } else {
        assert(entries[entries.len() - 1].0@ != entry.0@);
        assert(changed.drop_last() =~= front.update(at, entry));
        assert(changed.last() == entries.last());
        assert forall|k: int| at < k < front.len() implies (#[trigger] front[k]).0@ != entry.0@ by {
            assert(entries[k].0@ != entry.0@);
        }
        lemma_entries_model_update(front, at, entry);
        assert(entries_model(changed) =~= entries_model(entries).insert(entry.0@, value_model(entry.1)));
    }
}

/// Two texts hold the same characters exactly when their bytes agree.
pub fn text_eq(left: &str, right: &str) -> (same: bool)
    ensures
        same == (left@ == right@),
{
    let a = left.as_bytes();
    let b = right.as_bytes();
    if a.len() != b.len() {
        return false;
    }
    let mut i: usize = 0;
    while i < a.len()
        invariant
            i <= a.len(),
            a.len() == b.len(),
            a@ == vstd::utf8::encode_utf8(left@),
            b@ == vstd::utf8::encode_utf8(right@),
            forall|k: int| 0 <= k < i ==> a@[k] == b@[k],
        decreases a.len() - i,
    {
        if a[i] != b[i] {
            return false;
        }
        i += 1;
    }
    assert(a@ =~= b@);
    proof {
        vstd::utf8::encode_utf8_decode_utf8(left@);
        vstd::utf8::encode_utf8_decode_utf8(right@);
    }
    true
}

impl JsonObject {
    /// An object without bindings.
    pub fn new() -> (object: JsonObject)
        ensures
            object@ == Map::<Seq<char>, JsonModel>::empty(),
    {
        JsonObject { entries: Vec::new() }
    }

    /// Binds `key` to `value`, in place of what `key` was bound to before:
    /// the last entry that carries the key takes the value, and a key that
    /// no entry carries gets an entry at the end.
    pub fn insert(&mut self, key: String, value: JsonValue)
        ensures
            final(self)@ == old(self)@.insert(key@, value@),
    {
        let ghost before = self.entries@;
        let mut i: usize = self.entries.len();
        while i > 0
            invariant
                self.entries@ == before,
                before == old(self).entries@,
                i <= before.len(),
                forall|k: int| i <= k < before.len() ==> (#[trigger] before[k]).0@ != key@,
            decreases i,
        {
            i -= 1;
            if text_eq(self.entries[i].0.as_str(), key.as_str()) {
                proof {
                    lemma_entries_model_update(before, i as int, (key, value));
                }
                self.entries.set(i, (key, value));
                return ;
            }
        }
        self.entries.push((key, value));
        assert(self.entries@.drop_last() =~= before);
    }

    /// What `key` is bound to, if it is bound.
    pub fn get(&self, key: &str) -> (found: Option<&JsonValue>)
        ensures
            found is Some <==> self@.contains_key(key@),
            found matches Some(value) ==> value@ == self@[key@] && exists|i: int|
                0 <= i < self.entries@.len() && (#[trigger] self.entries@[i]).1 == *value,
    {
        let mut i: usize = self.entries.len();
        while i > 0
            invariant
                i <= self.entries@.len(),
                forall|k: int| i <= k < self.entries@.len() ==> (#[trigger] self.entries@[k]).0@ != key@,
            decreases i,
        {
            i -= 1;
            if text_eq(self.entries[i].0.as_str(), key) {
                proof {
                    lemma_entries_model_last(self.entries@, key@, i as int);
                }
                return Some(&self.entries[i].1);
            }
        }
        proof {
            lemma_entries_model_dom(self.entries@, key@);
        }
        None
    }

    /// A copy that stands for the same bindings, with every `F64` holding
    /// the text of a number.
    pub fn duplicate(&self) -> (copy: JsonObject)
        ensures
            copy@ == self@,
            entries_tidy(copy.entries@),
        decreases self,
    {
        let mut entries: Vec<(String, JsonValue)> = Vec::new();
        let mut i: usize = 0;
        while i < self.entries.len()
            invariant
                i <= self.entries@.len(),
                entries_model(entries@) == entries_model(self.entries@.take(i as int)),
                entries_tidy(entries@),
            decreases self.entries@.len() - i,
        {
            let ghost before = entries@;
            let key = self.entries[i].0.clone();
            let value = self.entries[i].1.duplicate();
            entries.push((key, value));
            proof {
                assert(entries@.drop_last() =~= before);
                assert(self.entries@.take(i + 1).drop_last() =~= self.entries@.take(i as int));
            }
            i += 1;
        }
        assert(self.entries@.take(i as int) =~= self.entries@);
        JsonObject { entries }
    }

    /// Whether every `F64` in the entries holds the text of a number.
    pub fn is_tidy(&self) -> (yes: bool)
        ensures
            yes == entries_tidy(self.entries@),
        decreases self,
    {
        let mut i: usize = 0;
        assert(self.entries@.take(0) =~= Seq::empty());
        while i < self.entries.len()
            invariant
                i <= self.entries@.len(),
                entries_tidy(self.entries@.take(i as int)),
            decreases self.entries@.len() - i,
        {
            proof {
                assert(self.entries@.take(i + 1).drop_last() =~= self.entries@.take(i as int));
                assert(self.entries@.take(i + 1).last() == self.entries@[i as int]);
            }
            if !self.entries[i].1.is_tidy() {
                proof {
                    if entries_tidy(self.entries@) {
                        lemma_entries_tidy_front(self.entries@, i + 1);
                    }
                }
                return false;
            }
            i += 1;
        }
        assert(self.entries@.take(i as int) =~= self.entries@);
        true
    }

    /// Whether both objects bind the same keys to the same values.
    pub fn same_as(&self, other: &JsonObject) -> (same: bool)
        ensures
            same == (self@ == other@),
        decreases self,
    {
        let mut i: usize = 0;
        while i < self.entries.len()
            invariant
                i <= self.entries@.len(),
                forall|k: int| 0 <= k < i ==> {
                    let key = (#[trigger] self.entries@[k]).0@;
                    other@.contains_key(key) && other@[key] == self@[key]
                },
            decreases self.entries@.len() - i,
        {
            let key = self.entries[i].0.as_str();
            proof {
                lemma_entries_model_dom(self.entries@, key@);
            }
            let mine = self.get(key);
            let theirs = other.get(key);
            match (mine, theirs) {
                (Some(a), Some(b)) => {
                    if !a.same_as(b) {
                        return false;
                    }
                },
                _ => {
                    return false;
                },
            }
            i += 1;
        }
        let mut j: usize = 0;
        while j < other.entries.len()
            invariant
                j <= other.entries@.len(),
                forall|k: int| 0 <= k < j ==> self@.contains_key((#[trigger] other.entries@[k]).0@),
            decreases other.entries@.len() - j,
        {
            let key = other.entries[j].0.as_str();
            proof {
                lemma_entries_model_dom(other.entries@, key@);
            }
            if self.get(key).is_none() {
                return false;
            }
            j += 1;
        }
        proof {
            assert forall|key: Seq<char>| #[trigger] self@.contains_key(key) implies other@.contains_key(key)
                && other@[key] == self@[key] by {
                lemma_entries_model_dom(self.entries@, key);
                let k = choose|k: int| 0 <= k < self.entries@.len() && (#[trigger] self.entries@[k]).0@ == key;
                assert(self.entries@[k].0@ == key);
            }
            assert forall|key: Seq<char>| #[trigger] other@.contains_key(key) implies self@.contains_key(key) by {
                lemma_entries_model_dom(other.entries@, key);
                let k = choose|k: int| 0 <= k < other.entries@.len() && (#[trigger] other.entries@[k]).0@ == key;
                assert(other.entries@[k].0@ == key);
            }
            assert(self@.dom() =~= other@.dom());
            assert(self@ =~= other@);
        }
        true
    }
}

/// A copy of a list of values, item by item, with every `F64` holding the
/// text of a number.
fn duplicate_items(items: &Vec<JsonValue>) -> (copy: Vec<JsonValue>)
    ensures
        items_model(copy@) == items_model(items@),
        items_tidy(copy@),
    decreases items,
{
    let mut copy: Vec<JsonValue> = Vec::new();
    let mut i: usize = 0;
    while i < items.len()
        invariant
            i <= items@.len(),
            items_model(copy@) == items_model(items@.take(i as int)),
            items_tidy(copy@),
        decreases items@.len() - i,
    {
        let ghost before = copy@;
        copy.push(items[i].duplicate());
        proof {
            assert(copy@.drop_last() =~= before);
            assert(items@.take(i + 1).drop_last() =~= items@.take(i as int));
        }
        i += 1;
    }
    assert(items@.take(i as int) =~= items@);
    copy
}

/// Whether every `F64` in the items holds the text of a number.
fn tidy_items(items: &Vec<JsonValue>) -> (yes: bool)
    ensures
        yes == items_tidy(items@),
    decreases items,
{
    let mut i: usize = 0;
    assert(items@.take(0) =~= Seq::empty());
    while i < items.len()
        invariant
            i <= items@.len(),
            items_tidy(items@.take(i as int)),
        decreases items@.len() - i,
    {
        proof {
            assert(items@.take(i + 1).drop_last() =~= items@.take(i as int));
            assert(items@.take(i + 1).last() == items@[i as int]);
        }
        if !items[i].is_tidy() {
            proof {
                if items_tidy(items@) {
                    lemma_items_tidy_front(items@, i + 1);
                }
            }
            return false;
        }
        i += 1;
    }
    assert(items@.take(i as int) =~= items@);
    true
}

/// Whether two lists hold the same values in the same order.
fn same_items(left: &Vec<JsonValue>, right: &Vec<JsonValue>) -> (same: bool)
    ensures
        same == (items_model(left@) == items_model(right@)),
    decreases left,
{
    proof {
        lemma_items_model(left@);
        lemma_items_model(right@);
    }
    if left.len() != right.len() {
        return false;
    }
    let mut i: usize = 0;
    while i < left.len()
        invariant
            i <= left@.len(),
            left@.len() == right@.len(),
            items_model(left@).len() == left@.len(),
            items_model(right@).len() == right@.len(),
            forall|k: int| 0 <= k < left@.len() ==> #[trigger] items_model(left@)[k] == value_model(left@[k]),
            forall|k: int| 0 <= k < right@.len() ==> #[trigger] items_model(right@)[k] == value_model(right@[k]),
            forall|k: int| 0 <= k < i ==> value_model(#[trigger] left@[k]) == value_model(right@[k]),
        decreases left@.len() - i,
    {
        if !left[i].same_as(&right[i]) {
            assert(items_model(left@)[i as int] != items_model(right@)[i as int]);
            return false;
        }
        i += 1;
    }
    assert(items_model(left@) =~= items_model(right@));
    true
}

impl JsonValue {
    /// The text, if the value is a string.
    pub fn as_string(&self) -> (text: Option<&str>)
        ensures
            text is Some == self@.as_string() is Some,
            text matches Some(t) ==> self@.as_string() == Some(t@),
    {
        match self {
            JsonValue::String(text) => Some(text.as_str()),
            _ => None,
        }
    }

    /// Whether the value is a string.
    pub fn is_string(&self) -> (yes: bool)
        ensures
            yes == self@.as_string() is Some,
    {
        self.as_string().is_some()
    }

    /// The number, if the value is an integer that is not negative.
    pub fn as_u64(&self) -> (number: Option<u64>)
        ensures
            number == self@.as_u64(),
    {
        match self {
            JsonValue::I64(n) => if *n >= 0 {
                Some(*n as u64)
            } else {
                None
            },
            JsonValue::U64(n) => Some(*n),
            _ => None,
        }
    }

    /// The items, if the value is an array.
    pub fn as_array(&self) -> (items: Option<&Vec<JsonValue>>)
        ensures
            items is Some == self@.as_array() is Some,
            items matches Some(list) ==> self@.as_array() == Some(items_model(list@)),
    {
        match self {
            JsonValue::Array(items) => Some(items),
            _ => None,
        }
    }

    /// The bindings, if the value is an object.
    pub fn as_object(&self) -> (fields: Option<&JsonObject>)
        ensures
            fields is Some == self@.as_object() is Some,
            fields matches Some(object) ==> self@.as_object() == Some(object@),
    {
        match self {
            JsonValue::Object(object) => Some(object),
            _ => None,
        }
    }

    /// Whether every `F64` in the value holds the text of a number.
    pub fn is_tidy(&self) -> (yes: bool)
        ensures
            yes == tidy(*self),
        decreases self,
    {
        match self {
            JsonValue::F64(digits) => is_number_text(digits.as_str()),
            JsonValue::Array(items) => tidy_items(items),
            JsonValue::Object(object) => object.is_tidy(),
            _ => true,
        }
    }

    /// A copy that stands for the same value, with every `F64` holding the
    /// text of a number.
    pub fn duplicate(&self) -> (copy: JsonValue)
        ensures
            copy@ == self@,
            tidy(copy),
        decreases self,
    {
        match self {
            JsonValue::I64(n) => JsonValue::I64(*n),
            JsonValue::U64(n) => JsonValue::U64(*n),
            JsonValue::F64(digits) => {
                let kept = digits_or_zero(digits.as_str());
                proof {
                    crate::json_number::lemma_zero_is_number();
                }
                JsonValue::F64(kept.to_owned())
            },
            JsonValue::String(text) => JsonValue::String(text.clone()),
            JsonValue::Boolean(b) => JsonValue::Boolean(*b),
            JsonValue::Array(items) => JsonValue::Array(duplicate_items(items)),
            JsonValue::Object(object) => JsonValue::Object(object.duplicate()),
            JsonValue::Null => JsonValue::Null,
        }
    }

    /// Whether both stand for the same value: objects are compared as
    /// bindings, whatever the order they were written in.
    pub fn same_as(&self, other: &JsonValue) -> (same: bool)
        ensures
            same == (self@ == other@),
        decreases self,
    {
        match (self, other) {
            (JsonValue::I64(a), JsonValue::I64(b)) => *a == *b,
            (JsonValue::U64(a), JsonValue::U64(b)) => *a == *b,
            (JsonValue::F64(a), JsonValue::F64(b)) => text_eq(
                digits_or_zero(a.as_str()),
                digits_or_zero(b.as_str()),
            ),
            (JsonValue::String(a), JsonValue::String(b)) => text_eq(a.as_str(), b.as_str()),
            (JsonValue::Boolean(a), JsonValue::Boolean(b)) => *a == *b,
            (JsonValue::Array(a), JsonValue::Array(b)) => same_items(a, b),
            (JsonValue::Object(a), JsonValue::Object(b)) => a.same_as(b),
            (JsonValue::Null, JsonValue::Null) => true,
            _ => false,
        }
    }
}

impl Clone for JsonValue {
    fn clone(&self) -> (copy: JsonValue)
        ensures
            copy@ == self@,
    {
        self.duplicate()
    }
}

impl Clone for JsonObject {
    fn clone(&self) -> (copy: JsonObject)
        ensures
            copy@ == self@,
    {
        self.duplicate()
    }
}

} // verus!
