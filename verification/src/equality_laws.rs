//! Laws of structural equality.

use crate::value::first_index;
use crate::value::same;
use crate::value::Json;
use vstd::prelude::*;

verus! {

/// What `first_index` finds: an index between `from` and the number of members; if
/// it is an index of a member, that member has the key and none from `from` up to it
/// has.
pub proof fn first_index_finds(members: Seq<(Seq<char>, Json)>, key: Seq<char>, from: int)
    requires
        0 <= from <= members.len(),
    ensures
        from <= first_index(members, key, from) <= members.len(),
        first_index(members, key, from) < members.len() ==> members[first_index(
            members,
            key,
            from,
        )].0 == key,
        forall|k: int|
            from <= k < first_index(members, key, from) ==> (#[trigger] members[k]).0 != key,
    decreases members.len() - from,
{
    if from < members.len() && members[from].0 != key {
        first_index_finds(members, key, from + 1);
    }
}

/// A value has a key exactly if one of its members has it.
pub proof fn has_key_iff_member(value: Json, key: Seq<char>)
    ensures
        value.has_key(key) <==> exists|i: int|
            0 <= i < value.members().len() && (#[trigger] value.members()[i]).0 == key,
{
    first_index_finds(value.members(), key, 0);
    if value.has_key(key) {
        assert(value.members()[first_index(value.members(), key, 0)].0 == key);
    }
}

/// In a well-formed value, the member found under the key of member `i` is member `i`.
pub proof fn member_found_by_its_key(value: Json, i: int)
    requires
        value.well_formed(),
        0 <= i < value.members().len(),
    ensures
        value.has_key(value.members()[i].0),
        first_index(value.members(), value.members()[i].0, 0) == i,
        value.get(value.members()[i].0) == value.members()[i].1,
{
    first_index_finds(value.members(), value.members()[i].0, 0);
}

/// The members and elements of a well-formed value are well-formed.
pub proof fn parts_are_well_formed(value: Json)
    requires
        value.well_formed(),
    ensures
        forall|i: int|
            0 <= i < value.members().len() ==> (#[trigger] value.members()[i]).1.well_formed(),
        forall|i: int|
            0 <= i < value.elements().len() ==> (#[trigger] value.elements()[i]).well_formed(),
        forall|key: Seq<char>| (#[trigger] value.get(key)).well_formed(),
{
    assert forall|key: Seq<char>| (#[trigger] value.get(key)).well_formed() by {
        first_index_finds(value.members(), key, 0);
    }
}

/// Every well-formed value equals itself.
pub proof fn same_is_reflexive(x: Json)
    requires
        x.well_formed(),
    ensures
        same(x, x),
    decreases x,
{
    match x {
        Json::Array(xs) => {
            assert forall|i: int| 0 <= i < xs.len() implies same(#[trigger] xs[i], xs[i]) by {
                same_is_reflexive(xs[i]);
            }
        },
        Json::Object(xs) => {
            assert forall|i: int| 0 <= i < xs.len() implies x.has_key((#[trigger] xs[i]).0)
                && same(xs[i].1, x.get(xs[i].0)) by {
                member_found_by_its_key(x, i);
                same_is_reflexive(xs[i].1);
            }
        },
        _ => {},
    }
}

/// If a well-formed value equals another, the other equals it.
proof fn same_turns(a: Json, b: Json)
    requires
        a.well_formed(),
        b.well_formed(),
        same(a, b),
    ensures
        same(b, a),
    decreases a,
{
    match (a, b) {
        (Json::Array(xs), Json::Array(ys)) => {
            assert forall|i: int| 0 <= i < ys.len() implies same(#[trigger] ys[i], xs[i]) by {
                same_turns(xs[i], ys[i]);
            }
        },
        (Json::Object(xs), Json::Object(ys)) => {
            assert forall|j: int| 0 <= j < ys.len() implies a.has_key((#[trigger] ys[j]).0)
                && same(ys[j].1, a.get(ys[j].0)) by {
                let key = ys[j].0;
                first_index_finds(xs, key, 0);
                let i = first_index(xs, key, 0);
                assert(xs[i].0 == key);
                member_found_by_its_key(b, j);
                assert(b.get(xs[i].0) == ys[j].1);
                same_turns(xs[i].1, ys[j].1);
            }
            assert forall|i: int| 0 <= i < xs.len() implies b.has_key((#[trigger] xs[i]).0) by {}
        },
        _ => {},
    }
}

/// Equality of well-formed values does not depend on the order of the two.
pub proof fn same_is_symmetric(a: Json, b: Json)
    requires
        a.well_formed(),
        b.well_formed(),
    ensures
        same(a, b) == same(b, a),
{
    if same(a, b) {
        same_turns(a, b);
    }
    if same(b, a) {
        same_turns(b, a);
    }
}

} // verus!
