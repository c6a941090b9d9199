//! JSON values and their mathematical model.

use crate::number::same_number;
use crate::number::Number;
use crate::text::text_eq;
use vstd::prelude::*;

verus! {

/// The model of a JSON value: a finite tree. An object is the sequence of its
/// `(key, value)` members in insertion order.
pub enum Json {
    Null,
    Boolean(bool),
    Number(Number),
    Text(Seq<char>),
    Array(Seq<Json>),
    Object(Seq<(Seq<char>, Json)>),
}

/// The index of the first member at or after `from` whose key is `key`, or the
/// number of members if there is none.
pub open spec fn first_index(members: Seq<(Seq<char>, Json)>, key: Seq<char>, from: int) -> int
    decreases members.len() - from,
{
    if from < 0 || from >= members.len() {
        members.len() as int
    } else if members[from].0 == key {
        from
    } else {
        first_index(members, key, from + 1)
    }
}

impl Json {
    /// The members of an object; no members for any other value.
    pub open spec fn members(self) -> Seq<(Seq<char>, Json)> {
        match self {
            Json::Object(members) => members,
            _ => Seq::empty(),
        }
    }

    /// The elements of an array; no elements for any other value.
    pub open spec fn elements(self) -> Seq<Json> {
        match self {
            Json::Array(elements) => elements,
            _ => Seq::empty(),
        }
    }

    /// Whether the value is an object with a member named `key`.
    pub open spec fn has_key(self, key: Seq<char>) -> bool {
        first_index(self.members(), key, 0) < self.members().len()
    }

    /// The value of the first member named `key`; `Null` where there is none.
    pub open spec fn get(self, key: Seq<char>) -> Json {
        if self.has_key(key) {
            self.members()[first_index(self.members(), key, 0)].1
        } else {
            Json::Null
        }
    }

    /// Whether both values are objects or both are arrays.
    pub open spec fn same_container(self, other: Json) -> bool {
        (self is Object && other is Object) || (self is Array && other is Array)
    }

    /// No object anywhere in the tree holds two members with the same key.
    pub open spec fn well_formed(self) -> bool
        decreases self,
    {
        match self {
            Json::Array(elements) => forall|i: int|
                0 <= i < elements.len() ==> (#[trigger] elements[i]).well_formed(),
            Json::Object(members) => {
                &&& forall|i: int, j: int|
                    0 <= i < j < members.len() ==> (#[trigger] members[i]).0
                        != (#[trigger] members[j]).0
                &&& forall|i: int|
                    0 <= i < members.len() ==> (#[trigger] members[i]).1.well_formed()
            },
            _ => true,
        }
    }
}

/// Structural equality of two JSON values.
///
/// Values of different kinds are never equal. Arrays are equal element by element.
/// Objects are equal when each holds every key of the other and the values under
/// each key are equal; the order of the members does not count.
pub open spec fn same(a: Json, b: Json) -> bool
    decreases a,
{
    match (a, b) {
        (Json::Null, Json::Null) => true,
        (Json::Boolean(x), Json::Boolean(y)) => x == y,
        (Json::Number(x), Json::Number(y)) => same_number(x, y),
        (Json::Text(x), Json::Text(y)) => x == y,
        (Json::Array(xs), Json::Array(ys)) => {
            &&& xs.len() == ys.len()
            &&& forall|i: int| 0 <= i < xs.len() ==> same(#[trigger] xs[i], ys[i])
        },
        (Json::Object(xs), Json::Object(ys)) => {
            &&& forall|i: int|
                0 <= i < xs.len() ==> b.has_key((#[trigger] xs[i]).0) && same(
                    xs[i].1,
                    b.get(xs[i].0),
                )
            &&& forall|j: int| 0 <= j < ys.len() ==> a.has_key((#[trigger] ys[j]).0)
        },
        _ => false,
    }
}

/// One `key: value` pair of an object.
#[derive(Debug, PartialEq, Eq)]
pub struct Member {
    pub key: String,
    pub value: Value,
}

/// A JSON value. An object holds its members in insertion order.
///
/// A value read by `parse` never holds a key twice in one object. One built by hand
/// may; every function here accepts it and goes by the first member of a key, and
/// only the laws ask for well-formed values.
///
/// `==` on values compares how they are written down, part by part. Whether two values
/// are the same JSON value is what `equals` decides.
#[derive(Debug, PartialEq, Eq)]
pub enum Value {
    Null,
    Boolean(bool),
    Number(Number),
    Text(String),
    Array(Vec<Value>),
    Object(Vec<Member>),
}

/// The model of a value.
pub open spec fn model_of(value: Value) -> Json
    decreases value,
{
    match value {
        Value::Null => Json::Null,
        Value::Boolean(b) => Json::Boolean(b),
        Value::Number(n) => Json::Number(n),
        Value::Text(s) => Json::Text(s@),
        Value::Array(items) => Json::Array(
            Seq::new(
                items@.len(),
                |i: int|
                    if 0 <= i < items@.len() {
                        model_of(items@[i])
                    } else {
                        Json::Null
                    },
            ),
        ),
        Value::Object(members) => Json::Object(
            Seq::new(
                members@.len(),
                |i: int|
                    if 0 <= i < members@.len() {
                        (members@[i].key@, model_of(members@[i].value))
                    } else {
                        (Seq::empty(), Json::Null)
                    },
            ),
        ),
    }
}

impl View for Value {
    type V = Json;

    open spec fn view(&self) -> Json {
        model_of(*self)
    }
}

impl Value {
    /// Whether the value is an object.
    pub fn is_object(&self) -> (r: bool)
        ensures
            r == (self@ is Object),
    {
        match self {
            Value::Object(_) => true,
            _ => false,
        }
    }

    /// Whether the value is an array.
    pub fn is_array(&self) -> (r: bool)
        ensures
            r == (self@ is Array),
    {
        match self {
            Value::Array(_) => true,
            _ => false,
        }
    }

    /// The number of elements of an array or of members of an object; zero for any
    /// other value.
    pub fn len(&self) -> (r: usize)
        ensures
            r == self@.elements().len() + self@.members().len(),
    {
        match self {
            Value::Array(items) => items.len(),
            Value::Object(members) => members.len(),
            _ => 0,
        }
    }

    /// The value of the first member named `key`, if the value is an object that
    /// has one.
    #[verifier::loop_isolation(false)]
    pub fn lookup(&self, key: &str) -> (r: Option<&Value>)
        ensures
            r is Some == self@.has_key(key@),
            r matches Some(v) ==> v@ == self@.get(key@),
    {
        match self {
            Value::Object(members) => {
                let ghost model = self@.members();
                let mut i: usize = 0;
                while i < members.len()
                    invariant
                        i <= members.len(),
                        first_index(model, key@, 0) == first_index(model, key@, i as int),
                    decreases members.len() - i,
                {
                    if text_eq(members[i].key.as_str(), key) {
                        return Some(&members[i].value);
                    }
                    i += 1;
                }
                None
            },
            _ => None,
        }
    }

    /// Whether the value is an object with a member named `key`.
    pub fn has_key(&self, key: &str) -> (r: bool)
        ensures
            r == self@.has_key(key@),
    {
        self.lookup(key).is_some()
    }

    /// Decides structural equality.
    #[verifier::loop_isolation(false)]
    pub fn equals(&self, other: &Value) -> (r: bool)
        ensures
            r == same(self@, other@),
        decreases self,
    {
        match (self, other) {
            (Value::Null, Value::Null) => true,
            (Value::Boolean(x), Value::Boolean(y)) => *x == *y,
            (Value::Number(x), Value::Number(y)) => x.equals(y),
            (Value::Text(x), Value::Text(y)) => text_eq(x.as_str(), y.as_str()),
            (Value::Array(xs), Value::Array(ys)) => {
                if xs.len() != ys.len() {
                    return false;
                }
                let mut i: usize = 0;
                while i < xs.len()
                    invariant
                        i <= xs.len(),
                        forall|k: int|
                            0 <= k < i ==> same(
                                #[trigger] self@.elements()[k],
                                other@.elements()[k],
                            ),
                    decreases xs.len() - i,
                {
                    if !xs[i].equals(&ys[i]) {
                        assert(!same(self@.elements()[i as int], other@.elements()[i as int]));
                        return false;
                    }
                    i += 1;
                }
                true
            },
            (Value::Object(xs), Value::Object(ys)) => {
                let mut i: usize = 0;
                while i < xs.len()
                    invariant
                        i <= xs.len(),
                        forall|k: int|
                            0 <= k < i ==> other@.has_key((#[trigger] self@.members()[k]).0)
                                && same(self@.members()[k].1, other@.get(self@.members()[k].0)),
                    decreases xs.len() - i,
                {
                    match other.lookup(xs[i].key.as_str()) {
                        None => {
                            return false;
                        },
                        Some(v) => {
                            if !xs[i].value.equals(v) {
                                assert(!same(
                                    self@.members()[i as int].1,
                                    other@.get(self@.members()[i as int].0),
                                ));
                                return false;
                            }
                        },
                    }
                    i += 1;
                }
                let mut j: usize = 0;
                while j < ys.len()
                    invariant
                        j <= ys.len(),
                        forall|k: int|
                            0 <= k < j ==> self@.has_key((#[trigger] other@.members()[k]).0),
                    decreases ys.len() - j,
                {
                    if !self.has_key(ys[j].key.as_str()) {
                        assert(!self@.has_key(other@.members()[j as int].0));
                        return false;
                    }
                    j += 1;
                }
                true
            },
            _ => false,
        }
    }
}

} // verus!
