//! Laws of the records as a collection: no record is found twice, and comparing in
//! the other order finds as many.

use crate::compare::differences;
use crate::compare::element_at;
use crate::compare::elements_upto;
use crate::compare::left_member;
use crate::compare::left_members;
use crate::compare::paired;
use crate::compare::right_member;
use crate::compare::right_members;
use crate::compare::DifferenceView;
use crate::compare::SegmentView;
use crate::compare_laws::comparison_is_symmetric;
use crate::compare_laws::mirrored;
use crate::equality_laws::member_found_by_its_key;
use crate::equality_laws::parts_are_well_formed;
use crate::value::Json;
use vstd::prelude::*;
use vstd::relations::injective_on;
use vstd::seq_lib::*;
use vstd::set_lib::*;

verus! {

/// Whether `path` begins with the segments of `prefix`.
pub open spec fn starts_with(path: Seq<SegmentView>, prefix: Seq<SegmentView>) -> bool {
    prefix.len() <= path.len() && forall|k: int|
        0 <= k < prefix.len() ==> #[trigger] path[k] == prefix[k]
}

/// Whether every record lies at `prefix` or below it.
pub open spec fn all_under(found: Seq<DifferenceView>, prefix: Seq<SegmentView>) -> bool {
    forall|k: int| 0 <= k < found.len() ==> starts_with((#[trigger] found[k]).path, prefix)
}

/// Whether every record lies below `prefix`, one of the given steps further on.
pub open spec fn all_below(
    found: Seq<DifferenceView>,
    prefix: Seq<SegmentView>,
    steps: Set<SegmentView>,
) -> bool {
    forall|k: int|
        0 <= k < found.len() ==> (#[trigger] found[k]).path.len() > prefix.len() && starts_with(
            found[k].path,
            prefix,
        ) && steps.contains(found[k].path[prefix.len() as int])
}

/// The keys of the first `n` members of a value, as steps.
pub open spec fn key_steps(value: Json, n: nat) -> Set<SegmentView> {
    Set::new(
        |step: SegmentView|
            exists|i: int|
                0 <= i < n && i < value.members().len() && step == SegmentView::Key(
                    (#[trigger] value.members()[i]).0,
                ),
    )
}

/// The keys of those of the first `n` members of `b` that `a` lacks, as steps.
pub open spec fn new_key_steps(a: Json, b: Json, n: nat) -> Set<SegmentView> {
    Set::new(
        |step: SegmentView|
            exists|j: int|
                0 <= j < n && j < b.members().len() && !a.has_key((#[trigger] b.members()[j]).0)
                    && step == SegmentView::Key(b.members()[j].0),
    )
}

/// The indices below `n`, as steps.
pub open spec fn index_steps(n: nat) -> Set<SegmentView> {
    Set::new(|step: SegmentView| exists|i: nat| i < n && step == SegmentView::Index(i))
}

/// Records that lie one step below `prefix` lie below it.
proof fn under_a_step(found: Seq<DifferenceView>, prefix: Seq<SegmentView>, step: SegmentView)
    requires
        all_under(found, prefix.push(step)),
    ensures
        all_below(found, prefix, set![step]),
{
    assert forall|k: int| 0 <= k < found.len() implies (#[trigger] found[k]).path.len()
        > prefix.len() && starts_with(found[k].path, prefix) && set![step].contains(
        found[k].path[prefix.len() as int],
    ) by {
        let longer = prefix.push(step);
        assert(starts_with(found[k].path, longer));
        assert(found[k].path[prefix.len() as int] == longer[prefix.len() as int]);
        assert forall|m: int| 0 <= m < prefix.len() implies #[trigger] found[k].path[m]
            == prefix[m] by {
            assert(found[k].path[m] == longer[m]);
        }
    }
}

/// Two lists without repetition whose records lie below one path, under steps that
/// the lists do not share, make one list without repetition.
proof fn joined_without_repetition(
    first: Seq<DifferenceView>,
    second: Seq<DifferenceView>,
    prefix: Seq<SegmentView>,
    first_steps: Set<SegmentView>,
    second_steps: Set<SegmentView>,
)
    requires
        first.no_duplicates(),
        second.no_duplicates(),
        all_below(first, prefix, first_steps),
        all_below(second, prefix, second_steps),
        first_steps.disjoint(second_steps),
    ensures
        (first + second).no_duplicates(),
        all_below(first + second, prefix, first_steps + second_steps),
{
    assert forall|i: int, j: int| 0 <= i < first.len() && 0 <= j < second.len() implies first[i]
        != second[j] by {
        assert(first_steps.contains(first[i].path[prefix.len() as int]));
        assert(second_steps.contains(second[j].path[prefix.len() as int]));
    }
    lemma_no_dup_in_concat(first, second);
    assert forall|k: int| 0 <= k < (first + second).len() implies (#[trigger] (first
        + second)[k]).path.len() > prefix.len() && starts_with((first + second)[k].path, prefix)
        && (first_steps + second_steps).contains((first + second)[k].path[prefix.len() as int]) by {
        if k < first.len() {
            assert((first + second)[k] == first[k]);
        } else {
            assert((first + second)[k] == second[k - first.len()]);
        }
    }
}

/// The records of two values found under one path are found once each, at the path
/// or below it.
proof fn paired_once(a: Json, b: Json, path: Seq<SegmentView>)
    requires
        a.well_formed(),
        b.well_formed(),
    ensures
        paired(a, b, path).no_duplicates(),
        all_under(paired(a, b, path), path),
    decreases a, 3nat, 0nat,
{
    let found = paired(a, b, path);
    if found.len() > 0 && a.same_container(b) {
        let rest = differences(a, b, path);
        differences_once(a, b, path);
        assert forall|i: int, j: int| 0 <= i < found.len() && 0 <= j < found.len() && i
            != j implies found[i] != found[j] by {
            if i > 0 {
                assert(found[i] == rest[i - 1]);
            }
            if j > 0 {
                assert(found[j] == rest[j - 1]);
            }
        }
        assert forall|k: int| 0 <= k < found.len() implies starts_with(
            (#[trigger] found[k]).path,
            path,
        ) by {
            if k > 0 {
                assert(found[k] == rest[k - 1]);
            }
        }
    }
}

/// The records for the first `n` members of `a` are found once each, below the keys
/// of those members.
proof fn left_members_once(a: Json, b: Json, path: Seq<SegmentView>, n: nat)
    requires
        a.well_formed(),
        b.well_formed(),
        n <= a.members().len(),
    ensures
        left_members(a, b, path, n).no_duplicates(),
        all_below(left_members(a, b, path, n), path, key_steps(a, n)),
    decreases a, 1nat, n,
{
    if n > 0 {
        let before = left_members(a, b, path, (n - 1) as nat);
        let last = left_member(a, b, path, n - 1);
        let key = a.members()[n - 1].0;
        let step = SegmentView::Key(key);
        left_members_once(a, b, path, (n - 1) as nat);
        parts_are_well_formed(a);
        parts_are_well_formed(b);
        if b.has_key(key) {
            paired_once(a.members()[n - 1].1, b.get(key), path.push(step));
        } else {
            assert(last[0].path == path.push(step));
        }
        assert(all_under(last, path.push(step)));
        under_a_step(last, path, step);
        assert(key_steps(a, (n - 1) as nat).disjoint(set![step])) by {
            assert forall|s: SegmentView| #[trigger]
                key_steps(a, (n - 1) as nat).contains(s) implies s != step by {
                let i = choose|i: int|
                    0 <= i < n - 1 && i < a.members().len() && s == SegmentView::Key(
                        (#[trigger] a.members()[i]).0,
                    );
                assert(a.members()[i].0 != a.members()[n - 1].0);
            }
        }
        joined_without_repetition(before, last, path, key_steps(a, (n - 1) as nat), set![step]);
        assert(key_steps(a, (n - 1) as nat) + set![step] =~= key_steps(a, n)) by {
            assert forall|s: SegmentView| key_steps(a, n).contains(s) implies (key_steps(
                a,
                (n - 1) as nat,
            ) + set![step]).contains(s) by {
                let i = choose|i: int|
                    0 <= i < n && i < a.members().len() && s == SegmentView::Key(
                        (#[trigger] a.members()[i]).0,
                    );
                if i < n - 1 {
                    assert(key_steps(a, (n - 1) as nat).contains(s));
                }
            }
            assert forall|s: SegmentView| (key_steps(a, (n - 1) as nat) + set![step]).contains(
                s,
            ) implies key_steps(a, n).contains(s) by {
                if s == step {
                    assert(a.members()[n - 1].0 == key);
                } else {
                    let i = choose|i: int|
                        0 <= i < n - 1 && i < a.members().len() && s == SegmentView::Key(
                            (#[trigger] a.members()[i]).0,
                        );
                    assert(0 <= i < n);
                }
            }
        }
    }
}

/// The records for the first `n` members of `b` are found once each, below the keys
/// that `a` lacks.
proof fn right_members_once(a: Json, b: Json, path: Seq<SegmentView>, n: nat)
    requires
        b.well_formed(),
        n <= b.members().len(),
    ensures
        right_members(a, b, path, n).no_duplicates(),
        all_below(right_members(a, b, path, n), path, new_key_steps(a, b, n)),
    decreases n,
{
    if n > 0 {
        let before = right_members(a, b, path, (n - 1) as nat);
        let last = right_member(a, b, path, n - 1);
        let key = b.members()[n - 1].0;
        let step = SegmentView::Key(key);
        right_members_once(a, b, path, (n - 1) as nat);
        if !a.has_key(key) {
            assert(last[0].path == path.push(step));
        }
        assert(all_under(last, path.push(step)));
        under_a_step(last, path, step);
        assert(new_key_steps(a, b, (n - 1) as nat).disjoint(set![step])) by {
            assert forall|s: SegmentView| #[trigger]
                new_key_steps(a, b, (n - 1) as nat).contains(s) implies s != step by {
                let j = choose|j: int|
                    0 <= j < n - 1 && j < b.members().len() && !a.has_key(
                        (#[trigger] b.members()[j]).0,
                    ) && s == SegmentView::Key(b.members()[j].0);
                assert(b.members()[j].0 != b.members()[n - 1].0);
            }
        }
        joined_without_repetition(
            before,
            last,
            path,
            new_key_steps(a, b, (n - 1) as nat),
            set![step],
        );
        let steps = if a.has_key(key) {
            new_key_steps(a, b, (n - 1) as nat)
        } else {
            new_key_steps(a, b, (n - 1) as nat) + set![step]
        };
        assert(steps =~= new_key_steps(a, b, n)) by {
            assert forall|s: SegmentView|
                new_key_steps(a, b, n).contains(s) implies steps.contains(s) by {
                let j = choose|j: int|
                    0 <= j < n && j < b.members().len() && !a.has_key(
                        (#[trigger] b.members()[j]).0,
                    ) && s == SegmentView::Key(b.members()[j].0);
                if j < n - 1 {
                    assert(new_key_steps(a, b, (n - 1) as nat).contains(s));
                }
            }
            assert forall|s: SegmentView| steps.contains(s) implies new_key_steps(
                a,
                b,
                n,
            ).contains(s) by {
                if new_key_steps(a, b, (n - 1) as nat).contains(s) {
                    let j = choose|j: int|
                        0 <= j < n - 1 && j < b.members().len() && !a.has_key(
                            (#[trigger] b.members()[j]).0,
                        ) && s == SegmentView::Key(b.members()[j].0);
                    assert(0 <= j < n);
                } else {
                    assert(s == step);
                    assert(!a.has_key(b.members()[n - 1].0));
                }
            }
        }
        if a.has_key(key) {
            assert(before + last =~= before);
        }
    }
}

/// The records for the indices below `n` are found once each, below those indices.
proof fn elements_once(a: Json, b: Json, path: Seq<SegmentView>, n: nat)
    requires
        a.well_formed(),
        b.well_formed(),
    ensures
        elements_upto(a, b, path, n).no_duplicates(),
        all_below(elements_upto(a, b, path, n), path, index_steps(n)),
    decreases a, 1nat, n,
{
    if n > 0 {
        let before = elements_upto(a, b, path, (n - 1) as nat);
        let last = element_at(a, b, path, n - 1);
        let step = SegmentView::Index((n - 1) as nat);
        elements_once(a, b, path, (n - 1) as nat);
        parts_are_well_formed(a);
        parts_are_well_formed(b);
        if n - 1 < a.elements().len() && n - 1 < b.elements().len() {
            paired_once(a.elements()[n - 1], b.elements()[n - 1], path.push(step));
        } else if last.len() > 0 {
            assert(last[0].path == path.push(step));
        }
        assert(all_under(last, path.push(step)));
        under_a_step(last, path, step);
        assert(index_steps((n - 1) as nat).disjoint(set![step]));
        joined_without_repetition(before, last, path, index_steps((n - 1) as nat), set![step]);
        assert(index_steps((n - 1) as nat) + set![step] =~= index_steps(n)) by {
            assert(index_steps(n).contains(step));
        }
    }
}

/// No record of a comparison of two well-formed values is found twice; every record
/// lies at the given path or below it, and below it where one of the values is an
/// object or an array.
pub proof fn differences_once(a: Json, b: Json, path: Seq<SegmentView>)
    requires
        a.well_formed(),
        b.well_formed(),
    ensures
        differences(a, b, path).no_duplicates(),
        all_under(differences(a, b, path), path),
        a is Object || b is Object || a is Array || b is Array ==> forall|k: int|
            0 <= k < differences(a, b, path).len() ==> (#[trigger] differences(
                a,
                b,
                path,
            )[k]).path.len() > path.len(),
    decreases a, 2nat, 0nat,
{
    let found = differences(a, b, path);
    if a is Object || b is Object {
        let left = left_members(a, b, path, a.members().len());
        let right = right_members(a, b, path, b.members().len());
        left_members_once(a, b, path, a.members().len());
        right_members_once(a, b, path, b.members().len());
        let left_steps = key_steps(a, a.members().len());
        let right_steps = new_key_steps(a, b, b.members().len());
        assert(left_steps.disjoint(right_steps)) by {
            assert forall|s: SegmentView| #[trigger]
                left_steps.contains(s) implies !right_steps.contains(s) by {
                let i = choose|i: int|
                    0 <= i < a.members().len() && i < a.members().len() && s == SegmentView::Key(
                        (#[trigger] a.members()[i]).0,
                    );
                member_found_by_its_key(a, i);
            }
        }
        joined_without_repetition(left, right, path, left_steps, right_steps);
    } else if a is Array || b is Array {
        let n = if a.elements().len() >= b.elements().len() {
            a.elements().len()
        } else {
            b.elements().len()
        };
        elements_once(a, b, path, n);
    } else if found.len() > 0 {
        assert(found[0].path == path);
    }
}

/// Comparing two well-formed values in the other order finds as many records.
pub proof fn comparison_finds_as_many_the_other_way(a: Json, b: Json, path: Seq<SegmentView>)
    requires
        a.well_formed(),
        b.well_formed(),
    ensures
        differences(a, b, path).len() == differences(b, a, path).len(),
{
    let forth = differences(a, b, path);
    let back = differences(b, a, path);
    let turn = |d: DifferenceView| mirrored(d);
    differences_once(a, b, path);
    differences_once(b, a, path);
    forth.unique_seq_to_set();
    back.unique_seq_to_set();
    seq_to_set_is_finite(forth);
    assert(forth.to_set().map(turn) =~= back.to_set()) by {
        assert forall|d: DifferenceView|
            forth.to_set().map(turn).contains(d) implies back.to_set().contains(d) by {
            let x = choose|x: DifferenceView| forth.to_set().contains(x) && d == turn(x);
            comparison_is_symmetric(a, b, path, x);
        }
        assert forall|d: DifferenceView|
            back.to_set().contains(d) implies forth.to_set().map(turn).contains(d) by {
            comparison_is_symmetric(b, a, path, d);
            assert(forth.to_set().contains(mirrored(d)));
            assert(turn(mirrored(d)) == d);
        }
    }
    assert(injective_on(turn, forth.to_set())) by {
        assert forall|x: DifferenceView, y: DifferenceView|
            forth.to_set().contains(x) && forth.to_set().contains(y) && #[trigger] turn(x)
                == #[trigger] turn(y) implies x == y by {
            assert(mirrored(mirrored(x)) == x);
            assert(mirrored(mirrored(y)) == y);
        }
    }
    lemma_map_size(forth.to_set(), back.to_set(), turn);
}

} // verus!
