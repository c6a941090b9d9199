//! The value comparator: where two JSON values differ, level by level.

use crate::value::same;
use crate::value::Json;
use crate::value::Value;
use vstd::prelude::*;

verus! {

/// How a key or an index relates to the two sides of a comparison.
#[derive(Clone, Copy, Debug, PartialEq, Eq)]
pub enum Classification {
    /// Present only in the first value.
    AddedOnLeft,
    /// Present only in the second value.
    AddedOnRight,
    /// Present in both, with unequal values.
    Changed,
    /// Present in both, with equal values.
    Unchanged,
}

/// The model of a path segment.
pub enum SegmentView {
    Key(Seq<char>),
    Index(nat),
}

/// One step of a path into a value: a member's key or an element's index.
#[derive(Clone, Debug, PartialEq, Eq)]
pub enum Segment {
    Key(String),
    Index(usize),
}

impl View for Segment {
    type V = SegmentView;

    open spec fn view(&self) -> SegmentView {
        match self {
            Segment::Key(key) => SegmentView::Key(key@),
            Segment::Index(index) => SegmentView::Index(*index as nat),
        }
    }
}

/// The model of a path.
pub open spec fn steps(path: Seq<Segment>) -> Seq<SegmentView> {
    path.map_values(|segment: Segment| segment@)
}

/// The model of a difference record.
pub struct DifferenceView {
    pub path: Seq<SegmentView>,
    pub kind: Classification,
}

/// A difference record: the path at which the two values differ, and how.
#[derive(Clone, Debug, PartialEq, Eq)]
pub struct Difference {
    pub path: Vec<Segment>,
    pub kind: Classification,
}

impl View for Difference {
    type V = DifferenceView;

    open spec fn view(&self) -> DifferenceView {
        DifferenceView { path: steps(self.path@), kind: self.kind }
    }
}

/// The model of a sequence of difference records.
pub open spec fn records(found: Seq<Difference>) -> Seq<DifferenceView> {
    found.map_values(|difference: Difference| difference@)
}

/// The records for two values that stand at `path` on both sides: none if they are
/// equal; else `Changed` at `path`, followed, if both are objects or both are
/// arrays, by the records of their own members or elements.
pub open spec fn paired(a: Json, b: Json, path: Seq<SegmentView>) -> Seq<DifferenceView>
    decreases a, 3nat, 0nat,
{
    if same(a, b) {
        Seq::empty()
    } else if a.same_container(b) {
        seq![DifferenceView { path, kind: Classification::Changed }] + differences(a, b, path)
    } else {
        seq![DifferenceView { path, kind: Classification::Changed }]
    }
}

/// The records that comparing `a` with `b` yields, each path starting with `path`.
///
/// If one of the two is an object: the members of `a` in order, then the members of
/// `b` whose key `a` lacks. Else, if one of the two is an array: the indices from zero
/// up to the greater length. Else one `Changed` record at `path` if the values are
/// unequal.
pub open spec fn differences(a: Json, b: Json, path: Seq<SegmentView>) -> Seq<DifferenceView>
    decreases a, 2nat, 0nat,
{
    if a is Object || b is Object {
        left_members(a, b, path, a.members().len()) + right_members(
            a,
            b,
            path,
            b.members().len(),
        )
    } else if a is Array || b is Array {
        elements_upto(
            a,
            b,
            path,
            if a.elements().len() >= b.elements().len() {
                a.elements().len()
            } else {
                b.elements().len()
            },
        )
    } else if !same(a, b) {
        seq![DifferenceView { path, kind: Classification::Changed }]
    } else {
        Seq::empty()
    }
}

/// The records for the first `n` members of `a`.
pub open spec fn left_members(a: Json, b: Json, path: Seq<SegmentView>, n: nat) -> Seq<
    DifferenceView,
>
    decreases a, 1nat, n,
{
    if n == 0 || n > a.members().len() {
        Seq::empty()
    } else {
        left_members(a, b, path, (n - 1) as nat) + left_member(a, b, path, n - 1)
    }
}

/// The records for member `i` of `a`: `AddedOnLeft` if `b` lacks its key, else what
/// the two values under that key yield.
pub open spec fn left_member(a: Json, b: Json, path: Seq<SegmentView>, i: int) -> Seq<
    DifferenceView,
>
    decreases a, 0nat, 0nat,
{
    if 0 <= i < a.members().len() {
        let key = a.members()[i].0;
        let here = path.push(SegmentView::Key(key));
        if !b.has_key(key) {
            seq![DifferenceView { path: here, kind: Classification::AddedOnLeft }]
        } else {
            paired(a.members()[i].1, b.get(key), here)
        }
    } else {
        Seq::empty()
    }
}

/// The records for the first `n` members of `b`.
pub open spec fn right_members(a: Json, b: Json, path: Seq<SegmentView>, n: nat) -> Seq<
    DifferenceView,
>
    decreases n,
{
    if n == 0 || n > b.members().len() {
        Seq::empty()
    } else {
        right_members(a, b, path, (n - 1) as nat) + right_member(a, b, path, n - 1)
    }
}

/// The record for member `j` of `b`: `AddedOnRight` if `a` lacks its key, else none.
pub open spec fn right_member(a: Json, b: Json, path: Seq<SegmentView>, j: int) -> Seq<
    DifferenceView,
> {
    if 0 <= j < b.members().len() && !a.has_key(b.members()[j].0) {
        seq![
            DifferenceView {
                path: path.push(SegmentView::Key(b.members()[j].0)),
                kind: Classification::AddedOnRight,
            },
        ]
    } else {
        Seq::empty()
    }
}

/// The records for the indices below `n`.
pub open spec fn elements_upto(a: Json, b: Json, path: Seq<SegmentView>, n: nat) -> Seq<
    DifferenceView,
>
    decreases a, 1nat, n,
{
    if n == 0 {
        Seq::empty()
    } else {
        elements_upto(a, b, path, (n - 1) as nat) + element_at(a, b, path, n - 1)
    }
}

/// The records for index `i`: `AddedOnLeft` or `AddedOnRight` if only one side has
/// such an element, else what the two elements yield.
pub open spec fn element_at(a: Json, b: Json, path: Seq<SegmentView>, i: int) -> Seq<
    DifferenceView,
>
    decreases a, 0nat, 0nat,
{
    let here = path.push(SegmentView::Index(i as nat));
    let in_a = 0 <= i < a.elements().len();
    let in_b = 0 <= i < b.elements().len();
    if in_a && in_b {
        paired(a.elements()[i], b.elements()[i], here)
    } else if in_a {
        seq![DifferenceView { path: here, kind: Classification::AddedOnLeft }]
    } else if in_b {
        seq![DifferenceView { path: here, kind: Classification::AddedOnRight }]
    } else {
        Seq::empty()
    }
}

/// A copy of `path`.
fn copied(path: &Vec<Segment>) -> (r: Vec<Segment>)
    ensures
        steps(r@) == steps(path@),
{
    let mut r: Vec<Segment> = Vec::new();
    let mut i: usize = 0;
    while i < path.len()
        invariant
            i <= path.len(),
            r@.len() == i,
            forall|k: int| 0 <= k < i ==> (#[trigger] r@[k])@ == path@[k]@,
        decreases path.len() - i,
    {
        let copy = match &path[i] {
            Segment::Key(key) => Segment::Key(key.clone()),
            Segment::Index(index) => Segment::Index(*index),
        };
        r.push(copy);
        i += 1;
    }
    r
}

/// A copy of `path` with `step` appended.
fn extended(path: &Vec<Segment>, step: Segment) -> (r: Vec<Segment>)
    ensures
        steps(r@) == steps(path@).push(step@),
{
    let mut r = copied(path);
    r.push(step);
    r
}

/// Appends the record of `kind` at `path` to `out`.
fn note(out: &mut Vec<Difference>, path: Vec<Segment>, kind: Classification)
    ensures
        records(final(out)@) == records(old(out)@).push(
            DifferenceView { path: steps(path@), kind },
        ),
{
    let record = Difference { path, kind };
    out.push(record);
}

/// Appends to `out` what two values found at `path` on both sides yield.
fn collect_paired(a: &Value, b: &Value, path: Vec<Segment>, out: &mut Vec<Difference>)
    ensures
        records(final(out)@) == records(old(out)@) + paired(a@, b@, steps(path@)),
    decreases a, 3nat,
{
    if !a.equals(b) {
        if (a.is_object() && b.is_object()) || (a.is_array() && b.is_array()) {
            let inner = copied(&path);
            note(out, path, Classification::Changed);
            collect(a, b, &inner, out);
        } else {
            note(out, path, Classification::Changed);
        }
    }
}

/// Appends to `out` the records that comparing `a` with `b` yields under `path`.
#[verifier::loop_isolation(false)]
fn collect(a: &Value, b: &Value, path: &Vec<Segment>, out: &mut Vec<Difference>)
    ensures
        records(final(out)@) == records(old(out)@) + differences(a@, b@, steps(path@)),
    decreases a, 2nat,
{
    let ghost before = records(out@);
    let ghost prefix = steps(path@);
    if a.is_object() || b.is_object() {
        if let Value::Object(members) = a {
            let mut i: usize = 0;
            while i < members.len()
                invariant
                    i <= members.len(),
                    records(out@) == before + left_members(a@, b@, prefix, i as nat),
                decreases members.len() - i,
            {
                let ghost so_far = records(out@);
                let here = extended(path, Segment::Key(members[i].key.clone()));
                match b.lookup(members[i].key.as_str()) {
                    None => {
                        note(out, here, Classification::AddedOnLeft);
                    },
                    Some(other) => {
                        collect_paired(&members[i].value, other, here, out);
                    },
                }
                assert(records(out@) == so_far + left_member(a@, b@, prefix, i as int));
                i += 1;
            }
        }
        let ghost left = left_members(a@, b@, prefix, a@.members().len());
        if let Value::Object(members) = b {
            let mut j: usize = 0;
            while j < members.len()
                invariant
                    j <= members.len(),
                    records(out@) == before + left + right_members(a@, b@, prefix, j as nat),
                decreases members.len() - j,
            {
                if !a.has_key(members[j].key.as_str()) {
                    let here = extended(path, Segment::Key(members[j].key.clone()));
                    note(out, here, Classification::AddedOnRight);
                }
                j += 1;
            }
        }
    } else if a.is_array() || b.is_array() {
        let none: Vec<Value> = Vec::new();
        let xs: &Vec<Value> = match a {
            Value::Array(items) => items,
            _ => &none,
        };
        let ys: &Vec<Value> = match b {
            Value::Array(items) => items,
            _ => &none,
        };
        let n: usize = if xs.len() >= ys.len() {
            xs.len()
        } else {
            ys.len()
        };
        let mut i: usize = 0;
        while i < n
            invariant
                i <= n,
                records(out@) == before + elements_upto(a@, b@, prefix, i as nat),
            decreases n - i,
        {
            let ghost so_far = records(out@);
            let here = extended(path, Segment::Index(i));
            if i < xs.len() && i < ys.len() {
                collect_paired(&xs[i], &ys[i], here, out);
            } else if i < xs.len() {
                note(out, here, Classification::AddedOnLeft);
            } else {
                note(out, here, Classification::AddedOnRight);
            }
            assert(records(out@) =~= so_far + element_at(a@, b@, prefix, i as int));
            i += 1;
        }
    } else if !a.equals(b) {
        let here = copied(path);
        note(out, here, Classification::Changed);
    }
}

/// Compares two values and lists where they differ, depth first: the record of a
/// changed container comes before the records of what lies inside it.
pub fn compare(a: &Value, b: &Value, path: &Vec<Segment>) -> (out: Vec<Difference>)
    ensures
        records(out@) == differences(a@, b@, steps(path@)),
{
    let mut out: Vec<Difference> = Vec::new();
    collect(a, b, path, &mut out);
    out
}

} // verus!
