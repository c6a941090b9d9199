//! Laws of the value comparator.

use crate::compare::differences;
use crate::compare::element_at;
use crate::compare::elements_upto;
use crate::compare::left_member;
use crate::compare::left_members;
use crate::compare::paired;
use crate::compare::right_member;
use crate::compare::right_members;
use crate::compare::Classification;
use crate::compare::DifferenceView;
use crate::compare::SegmentView;
use crate::equality_laws::first_index_finds;
use crate::equality_laws::member_found_by_its_key;
use crate::equality_laws::parts_are_well_formed;
use crate::equality_laws::same_is_reflexive;
use crate::equality_laws::same_is_symmetric;
use crate::value::first_index;
use crate::value::same;
use crate::value::Json;
use vstd::prelude::*;

verus! {

/// The records for the first `n` members of `a` are those of each member.
pub proof fn left_members_hold(
    a: Json,
    b: Json,
    path: Seq<SegmentView>,
    n: nat,
    d: DifferenceView,
)
    requires
        n <= a.members().len(),
    ensures
        left_members(a, b, path, n).contains(d) <==> exists|i: int|
            0 <= i < n && #[trigger] left_member(a, b, path, i).contains(d),
    decreases n,
{
    if n > 0 {
        let before = left_members(a, b, path, (n - 1) as nat);
        let last = left_member(a, b, path, n - 1);
        left_members_hold(a, b, path, (n - 1) as nat, d);
        concat_contains(before, last, d);
        if left_members(a, b, path, n).contains(d) {
            if before.contains(d) {
                let i = choose|i: int|
                    0 <= i < n - 1 && #[trigger] left_member(a, b, path, i).contains(d);
                assert(left_member(a, b, path, i).contains(d));
            } else {
                assert(left_member(a, b, path, n - 1).contains(d));
            }
        }
    }
}

/// The records for the first `n` members of `b` are those of each member.
pub proof fn right_members_hold(
    a: Json,
    b: Json,
    path: Seq<SegmentView>,
    n: nat,
    d: DifferenceView,
)
    requires
        n <= b.members().len(),
    ensures
        right_members(a, b, path, n).contains(d) <==> exists|j: int|
            0 <= j < n && #[trigger] right_member(a, b, path, j).contains(d),
    decreases n,
{
    if n > 0 {
        let before = right_members(a, b, path, (n - 1) as nat);
        let last = right_member(a, b, path, n - 1);
        right_members_hold(a, b, path, (n - 1) as nat, d);
        concat_contains(before, last, d);
        if right_members(a, b, path, n).contains(d) {
            if before.contains(d) {
                let j = choose|j: int|
                    0 <= j < n - 1 && #[trigger] right_member(a, b, path, j).contains(d);
                assert(right_member(a, b, path, j).contains(d));
            } else {
                assert(right_member(a, b, path, n - 1).contains(d));
            }
        }
    }
}

/// The records for the indices below `n` are those of each index.
pub proof fn elements_hold(a: Json, b: Json, path: Seq<SegmentView>, n: nat, d: DifferenceView)
    ensures
        elements_upto(a, b, path, n).contains(d) <==> exists|i: int|
            0 <= i < n && #[trigger] element_at(a, b, path, i).contains(d),
    decreases n,
{
    if n > 0 {
        let before = elements_upto(a, b, path, (n - 1) as nat);
        let last = element_at(a, b, path, n - 1);
        elements_hold(a, b, path, (n - 1) as nat, d);
        concat_contains(before, last, d);
        if elements_upto(a, b, path, n).contains(d) {
            if before.contains(d) {
                let i = choose|i: int|
                    0 <= i < n - 1 && #[trigger] element_at(a, b, path, i).contains(d);
                assert(element_at(a, b, path, i).contains(d));
            } else {
                assert(element_at(a, b, path, n - 1).contains(d));
            }
        }
    }
}

/// What a concatenation contains.
pub proof fn concat_contains<A>(s: Seq<A>, t: Seq<A>, x: A)
    ensures
        (s + t).contains(x) <==> s.contains(x) || t.contains(x),
{
    if s.contains(x) {
        let i = choose|i: int| 0 <= i < s.len() && s[i] == x;
        assert((s + t)[i] == x);
    }
    if t.contains(x) {
        let j = choose|j: int| 0 <= j < t.len() && t[j] == x;
        assert((s + t)[s.len() + j] == x);
    }
    if (s + t).contains(x) {
        let k = choose|k: int| 0 <= k < (s + t).len() && (s + t)[k] == x;
        if k < s.len() {
            assert(s[k] == x);
        } else {
            assert(t[k - s.len()] == x);
        }
    }
}

/// Equal values yield no record.
pub proof fn equal_values_yield_no_record(a: Json, b: Json, path: Seq<SegmentView>)
    requires
        same(a, b),
    ensures
        differences(a, b, path) == Seq::<DifferenceView>::empty(),
{
    if differences(a, b, path).len() > 0 {
        let d = differences(a, b, path)[0];
        assert(differences(a, b, path).contains(d));
        if a is Object || b is Object {
            let left = left_members(a, b, path, a.members().len());
            let right = right_members(a, b, path, b.members().len());
            concat_contains(left, right, d);
            left_members_hold(a, b, path, a.members().len(), d);
            right_members_hold(a, b, path, b.members().len(), d);
            if left.contains(d) {
                let i = choose|i: int|
                    0 <= i < a.members().len() && #[trigger] left_member(a, b, path, i).contains(
                        d,
                    );
                assert(b.has_key(a.members()[i].0));
                assert(same(a.members()[i].1, b.get(a.members()[i].0)));
                assert(left_member(a, b, path, i).len() == 0);
            } else {
                let j = choose|j: int|
                    0 <= j < b.members().len() && #[trigger] right_member(
                        a,
                        b,
                        path,
                        j,
                    ).contains(d);
                assert(a.has_key(b.members()[j].0));
                assert(right_member(a, b, path, j).len() == 0);
            }
        } else if a is Array || b is Array {
            let n = a.elements().len();
            elements_hold(a, b, path, n, d);
            let i = choose|i: int| 0 <= i < n && #[trigger] element_at(a, b, path, i).contains(d);
            assert(same(a.elements()[i], b.elements()[i]));
            assert(element_at(a, b, path, i).len() == 0);
        }
    }
}

/// Comparing a well-formed value with itself yields no record, at any depth.
pub proof fn comparing_a_value_with_itself_yields_no_record(x: Json, path: Seq<SegmentView>)
    requires
        x.well_formed(),
    ensures
        differences(x, x, path) == Seq::<DifferenceView>::empty(),
{
    same_is_reflexive(x);
    equal_values_yield_no_record(x, x, path);
}

/// Two unequal values that are not both objects and not both arrays are one change
/// at their path: the comparison does not descend into either.
pub proof fn a_change_of_kind_is_a_leaf(a: Json, b: Json, path: Seq<SegmentView>)
    requires
        !same(a, b),
        !a.same_container(b),
    ensures
        paired(a, b, path) == seq![DifferenceView { path, kind: Classification::Changed }],
{
}

/// Of two arrays, an index that only the first has is found as `AddedOnLeft`, one
/// that only the second has as `AddedOnRight`, and one at which both hold equal
/// elements yields no record.
pub proof fn arrays_differ_index_by_index(a: Json, b: Json, path: Seq<SegmentView>, i: int)
    requires
        a is Array,
        b is Array,
        0 <= i,
    ensures
        b.elements().len() <= i < a.elements().len() ==> differences(a, b, path).contains(
            DifferenceView {
                path: path.push(SegmentView::Index(i as nat)),
                kind: Classification::AddedOnLeft,
            },
        ),
        a.elements().len() <= i < b.elements().len() ==> differences(a, b, path).contains(
            DifferenceView {
                path: path.push(SegmentView::Index(i as nat)),
                kind: Classification::AddedOnRight,
            },
        ),
        i < a.elements().len() && i < b.elements().len() && same(a.elements()[i], b.elements()[i])
            ==> element_at(a, b, path, i) == Seq::<DifferenceView>::empty(),
{
    let n = if a.elements().len() >= b.elements().len() {
        a.elements().len()
    } else {
        b.elements().len()
    };
    let here = path.push(SegmentView::Index(i as nat));
    if b.elements().len() <= i < a.elements().len() {
        let d = DifferenceView { path: here, kind: Classification::AddedOnLeft };
        assert(element_at(a, b, path, i)[0] == d);
        assert(element_at(a, b, path, i).contains(d));
        elements_hold(a, b, path, n, d);
    }
    if a.elements().len() <= i < b.elements().len() {
        let d = DifferenceView { path: here, kind: Classification::AddedOnRight };
        assert(element_at(a, b, path, i)[0] == d);
        assert(element_at(a, b, path, i).contains(d));
        elements_hold(a, b, path, n, d);
    }
}

/// Two unequal objects, or two unequal arrays, yield at least one record: the
/// comparison of two containers of one kind is silent only where they are equal.
pub proof fn unequal_containers_yield_a_record(a: Json, b: Json, path: Seq<SegmentView>)
    requires
        !same(a, b),
        a.same_container(b),
    ensures
        differences(a, b, path).len() > 0,
{
    if a is Object {
        let xs = a.members();
        let ys = b.members();
        let left = left_members(a, b, path, xs.len());
        let right = right_members(a, b, path, ys.len());
        if !(forall|i: int|
            0 <= i < xs.len() ==> b.has_key((#[trigger] xs[i]).0) && same(
                xs[i].1,
                b.get(xs[i].0),
            )) {
            let i = choose|i: int|
                0 <= i < xs.len() && !(b.has_key((#[trigger] xs[i]).0) && same(
                    xs[i].1,
                    b.get(xs[i].0),
                ));
            let d = left_member(a, b, path, i)[0];
            assert(left_member(a, b, path, i).contains(d));
            left_members_hold(a, b, path, xs.len(), d);
            concat_contains(left, right, d);
        } else {
            let j = choose|j: int| 0 <= j < ys.len() && !a.has_key((#[trigger] ys[j]).0);
            let d = right_member(a, b, path, j)[0];
            assert(right_member(a, b, path, j).contains(d));
            right_members_hold(a, b, path, ys.len(), d);
            concat_contains(left, right, d);
        }
    } else {
        let xs = a.elements();
        let ys = b.elements();
        let n = if xs.len() >= ys.len() {
            xs.len()
        } else {
            ys.len()
        };
        let i = if xs.len() < ys.len() {
            xs.len() as int
        } else if ys.len() < xs.len() {
            ys.len() as int
        } else {
            choose|i: int| 0 <= i < xs.len() && !same(#[trigger] xs[i], ys[i])
        };
        let d = element_at(a, b, path, i)[0];
        assert(element_at(a, b, path, i).contains(d));
        elements_hold(a, b, path, n, d);
    }
}

/// The classification seen from the other side: what one side has and the other
/// lacks changes hands; the rest stays.
pub open spec fn mirrored_kind(kind: Classification) -> Classification {
    match kind {
        Classification::AddedOnLeft => Classification::AddedOnRight,
        Classification::AddedOnRight => Classification::AddedOnLeft,
        Classification::Changed => Classification::Changed,
        Classification::Unchanged => Classification::Unchanged,
    }
}

/// A record seen from the other side: the same path, the mirrored classification.
pub open spec fn mirrored(d: DifferenceView) -> DifferenceView {
    DifferenceView { path: d.path, kind: mirrored_kind(d.kind) }
}

/// Each record of two values found under one path has its mirror among the records
/// of the two values in the other order.
proof fn paired_turns(a: Json, b: Json, path: Seq<SegmentView>, d: DifferenceView)
    requires
        a.well_formed(),
        b.well_formed(),
        paired(a, b, path).contains(d),
    ensures
        paired(b, a, path).contains(mirrored(d)),
    decreases a, 1nat,
{
    same_is_symmetric(a, b);
    let changed = seq![DifferenceView { path, kind: Classification::Changed }];
    assert(changed[0] == DifferenceView { path, kind: Classification::Changed });
    if a.same_container(b) {
        concat_contains(changed, differences(a, b, path), d);
        concat_contains(changed, differences(b, a, path), mirrored(d));
        if changed.contains(d) {
            assert(changed.contains(mirrored(d)));
        } else {
            differences_turn(a, b, path, d);
        }
    } else {
        assert(changed.contains(mirrored(d)));
    }
}

/// Each record of a comparison has its mirror among the records of the comparison
/// in the other order.
proof fn differences_turn(a: Json, b: Json, path: Seq<SegmentView>, d: DifferenceView)
    requires
        a.well_formed(),
        b.well_formed(),
        differences(a, b, path).contains(d),
    ensures
        differences(b, a, path).contains(mirrored(d)),
    decreases a, 0nat,
{
    same_is_symmetric(a, b);
    parts_are_well_formed(a);
    parts_are_well_formed(b);
    if a is Object || b is Object {
        let left = left_members(a, b, path, a.members().len());
        let right = right_members(a, b, path, b.members().len());
        concat_contains(left, right, d);
        left_members_hold(a, b, path, a.members().len(), d);
        right_members_hold(a, b, path, b.members().len(), d);
        let turned_left = left_members(b, a, path, b.members().len());
        let turned_right = right_members(b, a, path, a.members().len());
        concat_contains(turned_left, turned_right, mirrored(d));
        left_members_hold(b, a, path, b.members().len(), mirrored(d));
        right_members_hold(b, a, path, a.members().len(), mirrored(d));
        if left.contains(d) {
            let i = choose|i: int|
                0 <= i < a.members().len() && #[trigger] left_member(a, b, path, i).contains(d);
            let key = a.members()[i].0;
            let here = path.push(SegmentView::Key(key));
            if !b.has_key(key) {
                let only = seq![DifferenceView { path: here, kind: Classification::AddedOnLeft }];
                assert(only[0] == d);
                assert(right_member(b, a, path, i)[0] == mirrored(d));
                assert(right_member(b, a, path, i).contains(mirrored(d)));
            } else {
                first_index_finds(b.members(), key, 0);
                let j = first_index(b.members(), key, 0);
                member_found_by_its_key(a, i);
                paired_turns(a.members()[i].1, b.get(key), here, d);
                assert(left_member(b, a, path, j).contains(mirrored(d)));
            }
        } else {
            let j = choose|j: int|
                0 <= j < b.members().len() && #[trigger] right_member(a, b, path, j).contains(d);
            assert(right_member(a, b, path, j)[0] == d);
            assert(left_member(b, a, path, j)[0] == mirrored(d));
            assert(left_member(b, a, path, j).contains(mirrored(d)));
        }
    } else if a is Array || b is Array {
        let n = if a.elements().len() >= b.elements().len() {
            a.elements().len()
        } else {
            b.elements().len()
        };
        elements_hold(a, b, path, n, d);
        elements_hold(b, a, path, n, mirrored(d));
        let i = choose|i: int| 0 <= i < n && #[trigger] element_at(a, b, path, i).contains(d);
        let here = path.push(SegmentView::Index(i as nat));
        if i < a.elements().len() && i < b.elements().len() {
            paired_turns(a.elements()[i], b.elements()[i], here, d);
        } else {
            assert(element_at(a, b, path, i)[0] == d);
            assert(element_at(b, a, path, i)[0] == mirrored(d));
        }
        assert(element_at(b, a, path, i).contains(mirrored(d)));
    } else {
        let changed = seq![DifferenceView { path, kind: Classification::Changed }];
        assert(changed[0] == d);
        assert(changed[0] == mirrored(d));
    }
}

/// Comparing in the other order finds the same paths with the roles of the two sides
/// swapped: a record is found one way exactly if its mirror is found the other way.
pub proof fn comparison_is_symmetric(a: Json, b: Json, path: Seq<SegmentView>, d: DifferenceView)
    requires
        a.well_formed(),
        b.well_formed(),
    ensures
        differences(a, b, path).contains(d) <==> differences(b, a, path).contains(mirrored(d)),
{
    if differences(a, b, path).contains(d) {
        differences_turn(a, b, path, d);
    }
    if differences(b, a, path).contains(mirrored(d)) {
        differences_turn(b, a, path, mirrored(d));
        assert(mirrored(mirrored(d)) == d);
    }
}

} // verus!
