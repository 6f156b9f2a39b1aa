//! The document value model: the backend-neutral tree that every codec
//! round-trips against a schema.

use crate::assoc::{
    keys_of, lemma_map_of_dom, lemma_map_of_index, lemma_map_of_len, lemma_map_of_update, map_of,
};
use crate::text::str_eq;
use vstd::prelude::*;

verus! {

/// Whether a bit pattern is a finite binary64 number: neither an infinity
/// nor a NaN.
pub open spec fn finite_bits(bits: u64) -> bool {
    (bits >> 52) & 0x7ff != 0x7ff
}

/// Whether `bits` is a finite binary64 number.
pub fn is_finite_bits(bits: u64) -> (r: bool)
    ensures
        r == finite_bits(bits),
{
    (bits >> 52) & 0x7ff != 0x7ff
}

/// The bit pattern of the binary64 number that an integer converts to.
pub uninterp spec fn float_bits_of(i: int) -> u64;

/// Converts an unsigned integer to a float with `serde_json::Number::as_f64`
/// and returns the float's bit pattern. Of an integer that call always
/// returns a number, and the number is finite.
#[verifier::external_body]
fn u64_to_float_bits(n: u64) -> (r: Option<u64>)
    ensures
        r == Some(float_bits_of(n as int)),
        match r {
            Some(bits) => finite_bits(bits),
            None => false,
        },
{
    serde_json::Number::from(n).as_f64().map(|x| x.to_bits())
}

/// Converts a signed integer to a float with `serde_json::Number::as_f64`
/// and returns the float's bit pattern. Of an integer that call always
/// returns a number, and the number is finite.
#[verifier::external_body]
fn i64_to_float_bits(i: i64) -> (r: Option<u64>)
    ensures
        r == Some(float_bits_of(i as int)),
        match r {
            Some(bits) => finite_bits(bits),
            None => false,
        },
{
    serde_json::Number::from(i).as_f64().map(|x| x.to_bits())
}

/// The model of a number: a non-negative integer, a negative integer, or a
/// finite float given by its binary64 bit pattern.
#[derive(Clone, Copy, Debug, PartialEq, Eq, Structural)]
pub enum Num {
    PosInt(u64),
    NegInt(i64),
    Float(u64),
}

impl Num {
    /// A negative integer is negative, and a float is finite.
    pub open spec fn wf(self) -> bool {
        match self {
            Num::PosInt(_) => true,
            Num::NegInt(i) => i < 0,
            Num::Float(bits) => finite_bits(bits),
        }
    }

    /// The number as an unsigned integer.
    pub open spec fn as_u64(self) -> Option<u64> {
        match self {
            Num::PosInt(n) => Some(n),
            _ => None,
        }
    }

    /// The number as a signed integer.
    pub open spec fn as_i64(self) -> Option<i64> {
        match self {
            Num::PosInt(n) => if n <= i64::MAX as u64 {
                Some(n as i64)
            } else {
                None
            },
            Num::NegInt(i) => Some(i),
            Num::Float(_) => None,
        }
    }

    /// The number as a float, by its bit pattern.
    pub open spec fn as_float_bits(self) -> u64 {
        match self {
            Num::PosInt(n) => float_bits_of(n as int),
            Num::NegInt(i) => float_bits_of(i as int),
            Num::Float(bits) => bits,
        }
    }

    /// The number that a signed integer stands for.
    pub open spec fn of_i64(i: i64) -> Num {
        if i < 0 {
            Num::NegInt(i)
        } else {
            Num::PosInt(i as u64)
        }
    }
}

/// A number of a document. An integer is kept exactly; a float is kept as
/// its binary64 bit pattern and is always finite.
#[derive(Clone, Copy, Debug, PartialEq, Eq)]
pub struct Number {
    repr: Num,
}

impl View for Number {
    type V = Num;

    closed spec fn view(&self) -> Num {
        self.repr
    }
}

impl Number {
    #[verifier::type_invariant]
    spec fn inv(self) -> bool {
        self.repr.wf()
    }

    /// The number `n`.
    pub fn from_u64(n: u64) -> (r: Number)
        ensures
            r@ == Num::PosInt(n),
    {
        Number { repr: Num::PosInt(n) }
    }

    /// The number `i`.
    pub fn from_i64(i: i64) -> (r: Number)
        ensures
            r@ == Num::of_i64(i),
    {
        if i < 0 {
            Number { repr: Num::NegInt(i) }
        } else {
            Number { repr: Num::PosInt(i as u64) }
        }
    }

    /// The float with the given bit pattern, unless it is infinite or NaN.
    pub fn from_float_bits(bits: u64) -> (r: Option<Number>)
        ensures
            match r {
                Some(n) => finite_bits(bits) && n@ == Num::Float(bits),
                None => !finite_bits(bits),
            },
    {
        if is_finite_bits(bits) {
            Some(Number { repr: Num::Float(bits) })
        } else {
            None
        }
    }

    /// The number's model, which is always well formed.
    pub fn get(&self) -> (r: Num)
        ensures
            r == self@,
            r.wf(),
    {
        proof {
            use_type_invariant(self);
        }
        self.repr
    }

    /// The number as a `u64`, if it is a non-negative integer.
    pub fn as_u64(&self) -> (r: Option<u64>)
        ensures
            r == self@.as_u64(),
    {
        match self.repr {
            Num::PosInt(n) => Some(n),
            _ => None,
        }
    }

    /// The number as an `i64`, if it is an integer in range.
    pub fn as_i64(&self) -> (r: Option<i64>)
        ensures
            r == self@.as_i64(),
    {
        match self.repr {
            Num::PosInt(n) => if n <= i64::MAX as u64 {
                Some(n as i64)
            } else {
                None
            },
            Num::NegInt(i) => Some(i),
            Num::Float(_) => None,
        }
    }

    /// The number as a float, by its bit pattern. An integer is converted
    /// to the nearest float; the result is always finite.
    pub fn as_float_bits(&self) -> (r: Option<u64>)
        ensures
            r == Some(self@.as_float_bits()),
            finite_bits(self@.as_float_bits()),
    {
        proof {
            use_type_invariant(self);
        }
        match self.repr {
            Num::PosInt(n) => u64_to_float_bits(n),
            Num::NegInt(i) => i64_to_float_bits(i),
            Num::Float(bits) => Some(bits),
        }
    }
}

/// The model of a document value.
pub enum Doc {
    Null,
    Bool(bool),
    Number(Num),
    String(Seq<char>),
    Array(Seq<Doc>),
    Object(Map<Seq<char>, Doc>),
}

impl Doc {
    /// The boolean, if this is one.
    pub open spec fn as_bool(self) -> Option<bool> {
        match self {
            Doc::Bool(b) => Some(b),
            _ => None,
        }
    }

    /// The unsigned integer, if this is one.
    pub open spec fn as_u64(self) -> Option<u64> {
        match self {
            Doc::Number(n) => n.as_u64(),
            _ => None,
        }
    }

    /// The signed integer, if this is one.
    pub open spec fn as_i64(self) -> Option<i64> {
        match self {
            Doc::Number(n) => n.as_i64(),
            _ => None,
        }
    }

    /// The bit pattern of the number as a float, if this is a number.
    pub open spec fn as_float_bits(self) -> Option<u64> {
        match self {
            Doc::Number(n) => Some(n.as_float_bits()),
            _ => None,
        }
    }

    /// The string, if this is one.
    pub open spec fn as_str(self) -> Option<Seq<char>> {
        match self {
            Doc::String(s) => Some(s),
            _ => None,
        }
    }

    /// The elements, if this is an array.
    pub open spec fn as_array(self) -> Option<Seq<Doc>> {
        match self {
            Doc::Array(items) => Some(items),
            _ => None,
        }
    }

    /// The mapping, if this is an object.
    pub open spec fn as_object(self) -> Option<Map<Seq<char>, Doc>> {
        match self {
            Doc::Object(members) => Some(members),
            _ => None,
        }
    }

    /// The name of the value's kind, as errors report it.
    pub open spec fn kind_name(self) -> Seq<char> {
        match self {
            Doc::Null => "null"@,
            Doc::Bool(_) => "a boolean"@,
            Doc::Number(_) => "a number"@,
            Doc::String(_) => "a string"@,
            Doc::Array(_) => "an array"@,
            Doc::Object(_) => "an object"@,
        }
    }
}

/// The models of a list of values.
pub open spec fn docs_of(items: Seq<Value>) -> Seq<Doc> {
    Seq::new(items.len(), |i: int| items[i]@)
}

/// One member of an object.
#[derive(Debug)]
struct Member {
    key: String,
    value: Value,
}

/// An object: a mapping from distinct string keys to values. Members keep
/// the order in which their keys were first inserted.
#[derive(Debug)]
pub struct Object {
    entries: Vec<Member>,
}

/// A document value.
#[derive(Debug)]
pub enum Value {
    Null,
    Bool(bool),
    Number(Number),
    String(String),
    Array(Vec<Value>),
    Object(Object),
}

impl Value {
    /// The model of this value.
    pub open spec fn doc(&self) -> Doc
        decreases self, 0nat,
    {
        match self {
            Value::Null => Doc::Null,
            Value::Bool(b) => Doc::Bool(*b),
            Value::Number(n) => Doc::Number(n@),
            Value::String(s) => Doc::String(s@),
            Value::Array(items) => Doc::Array(
                Seq::new(
                    items@.len(),
                    |i: int|
                        if 0 <= i < items@.len() {
                            items@[i].doc()
                        } else {
                            Doc::Null
                        },
                ),
            ),
            Value::Object(object) => Doc::Object(object.model()),
        }
    }
}

impl View for Value {
    type V = Doc;

    open spec fn view(&self) -> Doc {
        self.doc()
    }
}

impl Value {
    /// The model of an array is the list of its elements' models.
    pub proof fn lemma_array_view(items: Vec<Value>)
        ensures
            Value::Array(items)@ == Doc::Array(docs_of(items@)),
    {
        assert(Value::Array(items)@->Array_0 =~= docs_of(items@));
    }

    /// The boolean, if this is one.
    pub fn as_bool(&self) -> (r: Option<bool>)
        ensures
            r == self@.as_bool(),
    {
        match self {
            Value::Bool(b) => Some(*b),
            _ => None,
        }
    }

    /// The number as a `u64`, if this is a non-negative integer.
    pub fn as_u64(&self) -> (r: Option<u64>)
        ensures
            r == self@.as_u64(),
    {
        match self {
            Value::Number(n) => n.as_u64(),
            _ => None,
        }
    }

    /// The number as an `i64`, if this is an integer in range.
    pub fn as_i64(&self) -> (r: Option<i64>)
        ensures
            r == self@.as_i64(),
    {
        match self {
            Value::Number(n) => n.as_i64(),
            _ => None,
        }
    }

    /// The bit pattern of the number as a float, if this is a number.
    pub fn as_float_bits(&self) -> (r: Option<u64>)
        ensures
            r == self@.as_float_bits(),
            r matches Some(bits) ==> finite_bits(bits),
    {
        match self {
            Value::Number(n) => n.as_float_bits(),
            _ => None,
        }
    }

    /// The string, if this is one.
    pub fn as_str(&self) -> (r: Option<&str>)
        ensures
            match r {
                Some(s) => self@.as_str() == Some(s@),
                None => self@.as_str() is None,
            },
    {
        match self {
            Value::String(s) => Some(s.as_str()),
            _ => None,
        }
    }

    /// The elements, if this is an array.
    pub fn as_array(&self) -> (r: Option<&Vec<Value>>)
        ensures
            match r {
                Some(items) => self@.as_array() == Some(docs_of(items@)),
                None => self@.as_array() is None,
            },
    {
        match self {
            Value::Array(items) => {
                proof {
                    Value::lemma_array_view(*items);
                }
                Some(items)
            },
            _ => None,
        }
    }

    /// The object, if this is one.
    pub fn as_object(&self) -> (r: Option<&Object>)
        ensures
            match r {
                Some(object) => self@.as_object() == Some(object@),
                None => self@.as_object() is None,
            },
    {
        match self {
            Value::Object(object) => Some(object),
            _ => None,
        }
    }

    /// The name of the value's kind, as errors report it.
    pub fn kind(&self) -> (r: &'static str)
        ensures
            r@ == self@.kind_name(),
    {
        match self {
            Value::Null => "null",
            Value::Bool(_) => "a boolean",
            Value::Number(_) => "a number",
            Value::String(_) => "a string",
            Value::Array(_) => "an array",
            Value::Object(_) => "an object",
        }
    }
}

impl Object {
    /// The members as pairs of models, in order.
    pub closed spec fn pairs(&self) -> Seq<(Seq<char>, Doc)>
        decreases self, 0nat,
    {
        Seq::new(
            self.entries@.len(),
            |i: int|
                if 0 <= i < self.entries@.len() {
                    (self.entries@[i].key@, self.entries@[i].value.doc())
                } else {
                    (Seq::empty(), Doc::Null)
                },
        )
    }

    /// The mapping that this object stands for.
    pub closed spec fn model(&self) -> Map<Seq<char>, Doc>
        decreases self, 1nat,
    {
        map_of(self.pairs())
    }

    /// The keys in member order.
    pub open spec fn keys(&self) -> Seq<Seq<char>> {
        keys_of(self.pairs())
    }

    /// The value that stands under `key`, where the object has that key.
    pub closed spec fn value_of(&self, key: Seq<char>) -> Value {
        self.entries@[self.place_of(key)].value
    }

    /// A position at which `key` stands.
    spec fn place_of(&self, key: Seq<char>) -> int {
        choose|i: int| 0 <= i < self.entries@.len() && self.entries@[i].key@ == key
    }

    /// With distinct keys, the value under the key at position `i` is the
    /// value at position `i`.
    proof fn lemma_value_of(&self, i: int)
        requires
            keys_of(self.pairs()).no_duplicates(),
            0 <= i < self.entries@.len(),
        ensures
            self.place_of(self.entries@[i].key@) == i,
            self.value_of(self.entries@[i].key@) == self.entries@[i].value,
    {
        let c = self.place_of(self.entries@[i].key@);
        assert(keys_of(self.pairs())[c] == keys_of(self.pairs())[i]);
    }

    #[verifier::type_invariant]
    spec fn inv(&self) -> bool {
        keys_of(self.pairs()).no_duplicates()
    }
}

impl View for Object {
    type V = Map<Seq<char>, Doc>;

    open spec fn view(&self) -> Map<Seq<char>, Doc> {
        self.model()
    }
}

impl Object {
    /// An object without members.
    pub fn new() -> (r: Object)
        ensures
            r@ == Map::<Seq<char>, Doc>::empty(),
            r.keys() == Seq::<Seq<char>>::empty(),
    {
        let r = Object { entries: Vec::new() };
        r
    }

    /// The number of members. The listed keys are distinct and are exactly
    /// the keys of the mapping.
    pub fn len(&self) -> (r: usize)
        ensures
            r == self@.len(),
            r == self.keys().len(),
            self@.dom().finite(),
            self.keys().no_duplicates(),
            forall|k: Seq<char>| #[trigger] self@.contains_key(k) <==> self.keys().contains(k),
    {
        proof {
            use_type_invariant(self);
            lemma_map_of_len(self.pairs());
            lemma_map_of_dom(self.pairs());
        }
        self.entries.len()
    }

    fn position(&self, key: &str) -> (r: Option<usize>)
        ensures
            match r {
                Some(i) => i < self.entries@.len() && self.entries@[i as int].key@ == key@,
                None => forall|j: int| 0 <= j < self.entries@.len() ==> self.entries@[j].key@ != key@,
            },
    {
        let mut i: usize = 0;
        while i < self.entries.len()
            invariant
                i <= self.entries@.len(),
                forall|j: int| 0 <= j < i ==> self.entries@[j].key@ != key@,
            decreases self.entries@.len() - i,
        {
            if str_eq(self.entries[i].key.as_str(), key) {
                return Some(i);
            }
            i += 1;
        }
        None
    }

    /// The value under `key`, if the object has that key.
    pub fn get(&self, key: &str) -> (r: Option<&Value>)
        ensures
            match r {
                Some(v) => self@.contains_key(key@) && v@ == self@[key@] && *v == self.value_of(
                    key@,
                ),
                None => !self@.contains_key(key@),
            },
    {
        proof {
            use_type_invariant(self);
            lemma_map_of_dom(self.pairs());
        }
        match self.position(key) {
            Some(i) => {
                proof {
                    lemma_map_of_index(self.pairs(), i as int);
                    self.lemma_value_of(i as int);
                }
                Some(&self.entries[i].value)
            },
            None => {
                proof {
                    if keys_of(self.pairs()).contains(key@) {
                        let j = choose|j: int|
                            0 <= j < keys_of(self.pairs()).len() && keys_of(self.pairs())[j]
                                == key@;
                    }
                }
                None
            },
        }
    }

    /// Puts `value` under `key`. A value already under that key is replaced,
    /// and the key keeps its place; a new key goes to the end.
    pub fn insert(&mut self, key: String, value: Value)
        ensures
            final(self)@ == old(self)@.insert(key@, value@),
            final(self).keys() == if old(self)@.contains_key(key@) {
                old(self).keys()
            } else {
                old(self).keys().push(key@)
            },
            old(self)@.contains_key(key@) <==> old(self).keys().contains(key@),
            final(self).value_of(key@) == value,
            forall|k: Seq<char>|
                k != key@ && old(self)@.contains_key(k) ==> #[trigger] final(self).value_of(k)
                    == old(self).value_of(k),
    {
        proof {
            use_type_invariant(&*self);
            lemma_map_of_dom(self.pairs());
        }
        let ghost before = self.pairs();
        let ghost whole = *self;
        let found = self.position(key.as_str());
        let mut entries: Vec<Member> = Vec::new();
        core::mem::swap(&mut self.entries, &mut entries);
        match found {
            Some(i) => {
                proof {
                    lemma_map_of_update(before, i as int, value@);
                    lemma_map_of_index(before, i as int);
                }
                entries.set(i, Member { key, value });
                proof {
                    let next = Object { entries };
                    assert(next.pairs() =~= before.update(i as int, (key@, value@)));
                    assert(keys_of(next.pairs()) =~= keys_of(before));
                    next.lemma_value_of(i as int);
                    assert forall|k: Seq<char>| k != key@ && whole@.contains_key(k) implies (
                    #[trigger] next.value_of(k)) == whole.value_of(k) by {
                        let j = choose|j: int| 0 <= j < keys_of(before).len() && keys_of(before)[j]
                            == k;
                        whole.lemma_value_of(j);
                        next.lemma_value_of(j);
                    }
                }
                self.entries = entries;
            },
            None => {
                proof {
                    if keys_of(before).contains(key@) {
                        let j = choose|j: int|
                            0 <= j < keys_of(before).len() && keys_of(before)[j] == key@;
                    }
                }
                entries.push(Member { key, value });
                proof {
                    let next = Object { entries };
                    assert(next.pairs().drop_last() =~= before);
                    assert(keys_of(next.pairs()) =~= keys_of(before).push(key@));
                    next.lemma_value_of(before.len() as int);
                    assert forall|k: Seq<char>| k != key@ && whole@.contains_key(k) implies (
                    #[trigger] next.value_of(k)) == whole.value_of(k) by {
                        let j = choose|j: int| 0 <= j < keys_of(before).len() && keys_of(before)[j]
                            == k;
                        whole.lemma_value_of(j);
                        next.lemma_value_of(j);
                    }
                }
                self.entries = entries;
            },
        }
    }

    /// The member at position `i`, if there is one.
    pub fn entry(&self, i: usize) -> (r: Option<(&String, &Value)>)
        ensures
            match r {
                Some((k, v)) => i < self.keys().len() && k@ == self.keys()[i as int]
                    && self@.contains_key(k@) && v@ == self@[k@] && *v == self.value_of(k@)
                    && decreases_to!(self => v),
                None => i >= self.keys().len(),
            },
    {
        if i < self.entries.len() {
            proof {
                use_type_invariant(self);
                lemma_map_of_index(self.pairs(), i as int);
                self.lemma_value_of(i as int);
            }
            Some((&self.entries[i].key, &self.entries[i].value))
        } else {
            None
        }
    }
}

} // verus!
