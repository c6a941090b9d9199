//! Reading a document: JSON text becomes a value through the `json` crate.
//!
//! `json::parse` returns a tree of `json::JsonValue`. The library cannot look inside
//! such a tree; it asks `json` for what each node holds and builds its own `Value`
//! from the answers.
//!
//! `json` counts the digits behind a decimal point in an `i16`, which a long enough
//! fraction overflows. A text in which a point is followed by more than 32767 digits
//! is therefore not handed to `json`: it is no document to this library.

use crate::number::Number;
use crate::text::bytes_of;
use crate::value::Json;
use crate::value::Member;
use crate::value::Value;
use json::JsonValue;
use vstd::prelude::*;
use vstd::string::*;

verus! {

/// The byte of a decimal point.
pub const POINT: u8 = 46;

/// The most digits that may follow a decimal point.
pub const FRACTION_LIMIT: usize = 32767;

/// Whether the byte is a decimal digit.
pub open spec fn is_digit(byte: u8) -> bool {
    48 <= byte <= 57
}

/// The number of digits that stand in a row from offset `p` on.
pub open spec fn digits_from(text: Seq<u8>, p: int) -> nat
    decreases text.len() - p,
{
    if 0 <= p < text.len() && is_digit(text[p]) {
        1 + digits_from(text, p + 1)
    } else {
        0
    }
}

/// No point in the text is followed by more than `FRACTION_LIMIT` digits in a row.
/// This looks at the bytes alone: a point inside a string counts like any other.
pub open spec fn fraction_fits(text: Seq<u8>) -> bool {
    forall|p: int|
        0 <= p < text.len() && text[p] == POINT ==> digits_from(text, p + 1) <= FRACTION_LIMIT
}

/// The document that a text denotes: what `json` reads from it, if its fractions fit.
pub open spec fn document_of(text: Seq<char>) -> Option<Json> {
    if fraction_fits(bytes_of(text)) {
        json_parse(text)
    } else {
        None
    }
}

/// `json::JsonValue`, a node of the tree that `json::parse` returns, with all that
/// hangs below it.
#[verifier::external_type_specification]
#[verifier::external_body]
pub struct ExJsonValue(JsonValue);

/// The document that `json::parse` reads from `text`, or `None` where it reports
/// an error.
pub uninterp spec fn json_parse(text: Seq<char>) -> Option<Json>;

/// What a node of `json` holds, as the accessors below report it.
pub uninterp spec fn tree_of(tree: JsonValue) -> Json;

/// Calls `json::parse`.
///
/// The contract names the document that the text denotes, and says that the tree
/// returned holds it. It also claims that no object in the tree holds a key twice:
/// `json` keeps one entry per key and lets a later one replace an earlier. The
/// precondition keeps out the texts on which `json` would overflow the `i16` in which
/// it counts the digits of a fraction.
#[verifier::external_body]
fn parse_tree(text: &str) -> (r: Option<JsonValue>)
    requires
        fraction_fits(bytes_of(text@)),
    ensures
        r matches Some(tree) ==> json_parse(text@) == Some(tree_of(tree)),
        r matches Some(tree) ==> tree_of(tree).well_formed(),
        r is None ==> json_parse(text@) is None,
{
    json::parse(text).ok()
}

/// Calls `JsonValue::is_null`: whether the node is `null`.
#[verifier::external_body]
fn is_null(tree: &JsonValue) -> (r: bool)
    ensures
        r == (tree_of(*tree) is Null),
{
    tree.is_null()
}

/// Calls `JsonValue::as_bool`: the boolean that the node is, if it is one.
#[verifier::external_body]
fn as_bool(tree: &JsonValue) -> (r: Option<bool>)
    ensures
        r matches Some(b) ==> tree_of(*tree) == Json::Boolean(b),
        r is None ==> !(tree_of(*tree) is Boolean),
{
    tree.as_bool()
}

/// Calls `JsonValue::as_number` and takes the number apart with `Number::as_parts`:
/// sign, mantissa and exponent of the number that the node is, if it is one.
#[verifier::external_body]
fn as_parts(tree: &JsonValue) -> (r: Option<(bool, u64, i16)>)
    ensures
        r matches Some(parts) ==> tree_of(*tree) == Json::Number(
            Number { positive: parts.0, mantissa: parts.1, exponent: parts.2 },
        ),
        r is None ==> !(tree_of(*tree) is Number),
{
    match tree.as_number() {
        Some(number) => Some(number.as_parts()),
        None => None,
    }
}

/// Calls `JsonValue::as_str`: the text of the string that the node is, if it is one,
/// whichever of its two kinds of string `json` holds it in.
#[verifier::external_body]
fn as_str(tree: &JsonValue) -> (r: Option<&str>)
    ensures
        r matches Some(text) ==> tree_of(*tree) == Json::Text(text@),
        r is None ==> !(tree_of(*tree) is Text),
{
    tree.as_str()
}

/// Calls `JsonValue::is_array`: whether the node is an array.
#[verifier::external_body]
fn is_array(tree: &JsonValue) -> (r: bool)
    ensures
        r == (tree_of(*tree) is Array),
{
    tree.is_array()
}

/// Calls `JsonValue::members` and collects what it yields: the elements of the array
/// that the node is, in order; nothing for a node that is no array.
#[verifier::external_body]
fn members(tree: &JsonValue) -> (r: Vec<&JsonValue>)
    ensures
        r@.len() == tree_of(*tree).elements().len(),
        forall|i: int|
            0 <= i < r@.len() ==> tree_of(*#[trigger] r@[i]) == tree_of(*tree).elements()[i],
{
    tree.members().collect()
}

/// Calls `JsonValue::entries` and collects what it yields: the keys and values of the
/// object that the node is, in insertion order; nothing for a node that is no object.
#[verifier::external_body]
fn entries(tree: &JsonValue) -> (r: Vec<(&str, &JsonValue)>)
    ensures
        r@.len() == tree_of(*tree).members().len(),
        forall|i: int|
            0 <= i < r@.len() ==> (#[trigger] r@[i]).0@ == tree_of(*tree).members()[i].0
                && tree_of(*r@[i].1) == tree_of(*tree).members()[i].1,
{
    tree.entries().collect()
}

/// Builds the value that a tree of `json` holds.
#[verifier::loop_isolation(false)]
fn from_json(tree: &JsonValue) -> (value: Value)
    ensures
        value@ == tree_of(*tree),
    decreases tree_of(*tree),
{
    if is_null(tree) {
        return Value::Null;
    }
    if let Some(b) = as_bool(tree) {
        return Value::Boolean(b);
    }
    if let Some(parts) = as_parts(tree) {
        return Value::Number(Number { positive: parts.0, mantissa: parts.1, exponent: parts.2 });
    }
    if let Some(text) = as_str(tree) {
        return Value::Text(text.to_owned());
    }
    if is_array(tree) {
        let children = members(tree);
        let mut items: Vec<Value> = Vec::new();
        let mut i: usize = 0;
        while i < children.len()
            invariant
                i <= children.len(),
                items@.len() == i,
                forall|k: int|
                    0 <= k < i ==> (#[trigger] items@[k])@ == tree_of(*tree).elements()[k],
            decreases children.len() - i,
        {
            items.push(from_json(children[i]));
            i += 1;
        }
        let value = Value::Array(items);
        assert(value@.elements() =~= tree_of(*tree).elements());
        value
    } else {
        let children = entries(tree);
        let mut items: Vec<Member> = Vec::new();
        let mut i: usize = 0;
        while i < children.len()
            invariant
                i <= children.len(),
                items@.len() == i,
                forall|k: int|
                    0 <= k < i ==> (#[trigger] items@[k]).key@ == tree_of(*tree).members()[k].0
                        && items@[k].value@ == tree_of(*tree).members()[k].1,
            decreases children.len() - i,
        {
            let key = children[i].0.to_owned();
            let value = from_json(children[i].1);
            items.push(Member { key, value });
            i += 1;
        }
        let value = Value::Object(items);
        assert(value@.members() =~= tree_of(*tree).members());
        value
    }
}

/// Whether no point in the text is followed by more than `FRACTION_LIMIT` digits.
#[verifier::loop_isolation(false)]
pub fn fits(text: &str) -> (r: bool)
    ensures
        r == fraction_fits(bytes_of(text@)),
{
    let bytes = text.as_bytes();
    let mut i: usize = bytes.len();
    let mut run: usize = 0;
    while i > 0
        invariant
            i <= bytes.len(),
            run == digits_from(bytes@, i as int),
            run <= bytes.len() - i,
            forall|p: int|
                i <= p < bytes.len() && bytes@[p] == POINT ==> digits_from(bytes@, p + 1)
                    <= FRACTION_LIMIT,
        decreases i,
    {
        i -= 1;
        if bytes[i] == POINT {
            if run > FRACTION_LIMIT {
                return false;
            }
            run = 0;
        } else if 48 <= bytes[i] && bytes[i] <= 57 {
            run += 1;
        } else {
            run = 0;
        }
    }
    true
}

/// Reads a JSON document from its text; `None` where the text is no document.
pub fn parse(text: &str) -> (r: Option<Value>)
    ensures
        r matches Some(value) ==> document_of(text@) == Some(value@),
        r matches Some(value) ==> value@.well_formed(),
        r is None <==> document_of(text@) is None,
{
    if !fits(text) {
        return None;
    }
    match parse_tree(text) {
        Some(tree) => Some(from_json(&tree)),
        None => None,
    }
}

} // verus!
