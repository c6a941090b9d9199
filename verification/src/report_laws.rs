//! Laws of the ordered listing and of the report.

use crate::compare::Classification;
use crate::compare::DifferenceView;
use crate::compare_laws::comparing_a_value_with_itself_yields_no_record;
use crate::compare_laws::comparison_is_symmetric;
use crate::compare_laws::concat_contains;
use crate::compare_laws::mirrored;
use crate::compare_laws::mirrored_kind;
use crate::equality_laws::first_index_finds;
use crate::equality_laws::has_key_iff_member;
use crate::equality_laws::member_found_by_its_key;
use crate::equality_laws::parts_are_well_formed;
use crate::equality_laws::same_is_reflexive;
use crate::equality_laws::same_is_symmetric;
use crate::report::before_or_at;
use crate::report::in_order;
use crate::report::inserted;
use crate::report::left_entries;
use crate::report::left_entry;
use crate::report::listed;
use crate::report::ordered;
use crate::report::report_of;
use crate::report::right_entries;
use crate::report::right_entry;
use crate::report::root_differences;
use crate::report::sections_upto;
use crate::report::EntryView;
use crate::report::SectionView;
use crate::value::first_index;
use crate::value::Json;
use vstd::prelude::*;
use vstd::seq_lib::*;

verus! {

/// The index at which `inserted` puts `x`: behind the last entry that may stand
/// before it.
pub open spec fn slot(sorted: Seq<EntryView>, x: EntryView) -> int
    decreases sorted.len(),
{
    if sorted.len() == 0 {
        0
    } else if before_or_at(sorted.last(), x) {
        sorted.len() as int
    } else {
        slot(sorted.drop_last(), x)
    }
}

/// `inserted` puts `x` at its slot and moves nothing else; every entry from the slot
/// on must stand behind `x`, and the entry just before the slot may stand before it.
pub proof fn inserted_at_slot(sorted: Seq<EntryView>, x: EntryView)
    ensures
        0 <= slot(sorted, x) <= sorted.len(),
        inserted(sorted, x) == sorted.insert(slot(sorted, x), x),
        forall|i: int|
            slot(sorted, x) <= i < sorted.len() ==> !before_or_at(#[trigger] sorted[i], x),
        slot(sorted, x) > 0 ==> before_or_at(sorted[slot(sorted, x) - 1], x),
    decreases sorted.len(),
{
    if sorted.len() == 0 {
        assert(inserted(sorted, x) =~= sorted.insert(0, x));
    } else if before_or_at(sorted.last(), x) {
        assert(sorted.push(x) =~= sorted.insert(sorted.len() as int, x));
    } else {
        let rest = sorted.drop_last();
        inserted_at_slot(rest, x);
        assert(rest.insert(slot(rest, x), x).push(sorted.last()) =~= sorted.insert(
            slot(rest, x),
            x,
        ));
        assert forall|i: int| slot(sorted, x) <= i < sorted.len() implies !before_or_at(
            #[trigger] sorted[i],
            x,
        ) by {
            if i < rest.len() {
                assert(sorted[i] == rest[i]);
            }
        }
        if slot(sorted, x) > 0 {
            assert(sorted[slot(sorted, x) - 1] == rest[slot(rest, x) - 1]);
        }
    }
}

/// Inserting into a list in order gives a list in order.
proof fn inserted_stays_in_order(sorted: Seq<EntryView>, x: EntryView)
    requires
        in_order(sorted),
    ensures
        in_order(inserted(sorted, x)),
{
    inserted_at_slot(sorted, x);
    let k = slot(sorted, x);
    let out = sorted.insert(k, x);
    assert forall|i: int, j: int| 0 <= i < j < out.len() implies before_or_at(
        #[trigger] out[i],
        #[trigger] out[j],
    ) by {
        if j < k {
            assert(out[i] == sorted[i] && out[j] == sorted[j]);
        } else if j == k {
            assert(out[i] == sorted[i]);
            assert(before_or_at(sorted[k - 1], x));
            if i < k - 1 {
                assert(before_or_at(sorted[i], sorted[k - 1]));
            }
        } else if i < k {
            assert(out[i] == sorted[i] && out[j] == sorted[j - 1]);
        } else if i == k {
            assert(out[j] == sorted[j - 1]);
            assert(!before_or_at(sorted[j - 1], x));
        } else {
            assert(out[i] == sorted[i - 1] && out[j] == sorted[j - 1]);
        }
    }
}

/// The ordered entries ascend by row and, within a row, by column.
pub proof fn ordered_is_in_order(entries: Seq<EntryView>)
    ensures
        in_order(ordered(entries)),
    decreases entries.len(),
{
    if entries.len() > 0 {
        ordered_is_in_order(entries.drop_last());
        inserted_stays_in_order(ordered(entries.drop_last()), entries.last());
    }
}

/// In the ordered list an entry that stands at a strictly earlier row and column than
/// another comes before it, wherever the two stood in the list.
pub proof fn an_earlier_position_comes_first(entries: Seq<EntryView>, i: int, j: int)
    requires
        0 <= i < ordered(entries).len(),
        0 <= j < ordered(entries).len(),
        !before_or_at(ordered(entries)[j], ordered(entries)[i]),
    ensures
        i < j,
{
    ordered_is_in_order(entries);
}

/// Ordering neither drops nor adds nor repeats an entry.
pub proof fn ordered_is_a_rearrangement(entries: Seq<EntryView>)
    ensures
        ordered(entries).len() == entries.len(),
        ordered(entries).to_multiset() == entries.to_multiset(),
    decreases entries.len(),
{
    if entries.len() > 0 {
        let rest = entries.drop_last();
        ordered_is_a_rearrangement(rest);
        inserted_at_slot(ordered(rest), entries.last());
        to_multiset_insert(ordered(rest), slot(ordered(rest), entries.last()), entries.last());
        to_multiset_build(rest, entries.last());
        assert(rest.push(entries.last()) =~= entries);
    } else {
        assert(ordered(entries) =~= entries);
    }
}

/// The ordered list holds an entry exactly if the list did.
pub proof fn ordered_holds_the_same(entries: Seq<EntryView>, x: EntryView)
    ensures
        ordered(entries).contains(x) <==> entries.contains(x),
{
    ordered_is_a_rearrangement(entries);
    to_multiset_contains(ordered(entries), x);
    to_multiset_contains(entries, x);
}

/// The test for an entry that stands at the given row and column.
pub open spec fn stands_at(row: nat, column: nat) -> spec_fn(EntryView) -> bool {
    |entry: EntryView| entry.row == row && entry.column == column
}

/// Inserting an entry leaves the entries of every row and column in their order, and
/// puts the new one behind those of its own.
proof fn inserted_keeps_ties(sorted: Seq<EntryView>, x: EntryView, row: nat, column: nat)
    ensures
        inserted(sorted, x).filter(stands_at(row, column)) == if stands_at(row, column)(x) {
            sorted.filter(stands_at(row, column)).push(x)
        } else {
            sorted.filter(stands_at(row, column))
        },
    decreases sorted.len(),
{
    let here = stands_at(row, column);
    if sorted.len() == 0 {
        Seq::<EntryView>::empty().lemma_filter_push(x, here);
        assert(Seq::<EntryView>::empty().push(x) =~= seq![x]);
        assert(sorted =~= Seq::<EntryView>::empty());
    } else if before_or_at(sorted.last(), x) {
        sorted.lemma_filter_push(x, here);
    } else {
        let rest = sorted.drop_last();
        inserted_keeps_ties(rest, x, row, column);
        inserted(rest, x).lemma_filter_push(sorted.last(), here);
        rest.lemma_filter_push(sorted.last(), here);
        assert(rest.push(sorted.last()) =~= sorted);
        assert(!(here(x) && here(sorted.last())));
    }
}

/// Ordering is stable: the entries that stand at one row and column keep the order
/// they had.
pub proof fn ordered_keeps_ties_in_place(entries: Seq<EntryView>, row: nat, column: nat)
    ensures
        ordered(entries).filter(stands_at(row, column)) == entries.filter(stands_at(row, column)),
    decreases entries.len(),
{
    if entries.len() > 0 {
        let rest = entries.drop_last();
        ordered_keeps_ties_in_place(rest, row, column);
        inserted_keeps_ties(ordered(rest), entries.last(), row, column);
        rest.lemma_filter_push(entries.last(), stands_at(row, column));
        assert(rest.push(entries.last()) =~= entries);
    } else {
        assert(ordered(entries) =~= entries);
    }
}

/// The entries for the first `n` members of the first document, one by one.
pub proof fn left_entries_are(a: Json, b: Json, text: Seq<u8>, n: nat)
    requires
        n <= a.members().len(),
    ensures
        left_entries(a, b, text, n).len() == n,
        forall|i: int|
            0 <= i < n ==> #[trigger] left_entries(a, b, text, n)[i] == left_entry(a, b, text, i),
    decreases n,
{
    if n > 0 {
        left_entries_are(a, b, text, (n - 1) as nat);
    }
}

/// The entries for the first `n` members of the second document: one for each member
/// whose key the first document lacks, and no other.
pub proof fn right_entries_are(a: Json, b: Json, text: Seq<u8>, n: nat, x: EntryView)
    requires
        n <= b.members().len(),
    ensures
        right_entries(a, b, text, n).contains(x) <==> exists|j: int|
            0 <= j < n && !a.has_key((#[trigger] b.members()[j]).0) && x == right_entry(
                b,
                text,
                j,
            ),
    decreases n,
{
    if n > 0 {
        let before = right_entries(a, b, text, (n - 1) as nat);
        right_entries_are(a, b, text, (n - 1) as nat, x);
        if a.has_key(b.members()[n - 1].0) {
        } else {
            let last = right_entry(b, text, n - 1);
            assert(before.push(last) =~= before + seq![last]);
            concat_contains(before, seq![last], x);
            assert(seq![last][0] == last);
            if right_entries(a, b, text, n).contains(x) && !before.contains(x) {
                assert(!a.has_key(b.members()[n - 1].0) && x == right_entry(b, text, n - 1));
            }
        }
    }
}

/// Whether the list holds an entry for `key` with classification `kind`.
pub open spec fn lists(entries: Seq<EntryView>, key: Seq<char>, kind: Classification) -> bool {
    exists|i: int|
        0 <= i < entries.len() && (#[trigger] entries[i]).key == key && entries[i].kind == kind
}

/// Ordering does not change which keys are listed, nor how they are classified.
pub proof fn ordered_lists_the_same(entries: Seq<EntryView>, key: Seq<char>, kind: Classification)
    ensures
        lists(ordered(entries), key, kind) <==> lists(entries, key, kind),
{
    if lists(ordered(entries), key, kind) {
        let i = choose|i: int|
            0 <= i < ordered(entries).len() && (#[trigger] ordered(entries)[i]).key == key
                && ordered(entries)[i].kind == kind;
        let x = ordered(entries)[i];
        assert(ordered(entries).contains(x));
        ordered_holds_the_same(entries, x);
        let j = choose|j: int| 0 <= j < entries.len() && entries[j] == x;
        assert(entries[j].key == key);
    }
    if lists(entries, key, kind) {
        let i = choose|i: int|
            0 <= i < entries.len() && (#[trigger] entries[i]).key == key && entries[i].kind
                == kind;
        let x = entries[i];
        assert(entries.contains(x));
        ordered_holds_the_same(entries, x);
        let j = choose|j: int| 0 <= j < ordered(entries).len() && ordered(entries)[j] == x;
        assert(ordered(entries)[j].key == key);
    }
}

/// What the unordered list holds for a key, seen from the members of the two
/// documents.
proof fn listed_holds(a: Json, b: Json, text: Seq<u8>, key: Seq<char>, kind: Classification)
    ensures
        lists(listed(a, b, text), key, kind) <==> ((exists|i: int|
            0 <= i < a.members().len() && (#[trigger] left_entry(a, b, text, i)).key == key
                && left_entry(a, b, text, i).kind == kind) || (exists|j: int|
            0 <= j < b.members().len() && !a.has_key((#[trigger] b.members()[j]).0)
                && b.members()[j].0 == key && kind == Classification::AddedOnRight)),
{
    let left = left_entries(a, b, text, a.members().len());
    let right = right_entries(a, b, text, b.members().len());
    let all = listed(a, b, text);
    left_entries_are(a, b, text, a.members().len());
    if lists(all, key, kind) {
        let k = choose|k: int|
            0 <= k < all.len() && (#[trigger] all[k]).key == key && all[k].kind == kind;
        if k < left.len() {
            assert(all[k] == left[k]);
            assert(left_entry(a, b, text, k).key == key);
        } else {
            let x = right[k - left.len()];
            assert(all[k] == x);
            assert(right.contains(x));
            right_entries_are(a, b, text, b.members().len(), x);
            let j = choose|j: int|
                0 <= j < b.members().len() && !a.has_key((#[trigger] b.members()[j]).0) && x
                    == right_entry(b, text, j);
            assert(b.members()[j].0 == key);
        }
    }
    if exists|i: int|
        0 <= i < a.members().len() && (#[trigger] left_entry(a, b, text, i)).key == key
            && left_entry(a, b, text, i).kind == kind {
        let i = choose|i: int|
            0 <= i < a.members().len() && (#[trigger] left_entry(a, b, text, i)).key == key
                && left_entry(a, b, text, i).kind == kind;
        assert(all[i] == left[i]);
        assert(all[i].key == key);
    }
    if exists|j: int|
        0 <= j < b.members().len() && !a.has_key((#[trigger] b.members()[j]).0)
            && b.members()[j].0 == key && kind == Classification::AddedOnRight {
        let j = choose|j: int|
            0 <= j < b.members().len() && !a.has_key((#[trigger] b.members()[j]).0)
                && b.members()[j].0 == key && kind == Classification::AddedOnRight;
        let x = right_entry(b, text, j);
        right_entries_are(a, b, text, b.members().len(), x);
        assert(right.contains(x));
        let m = choose|m: int| 0 <= m < right.len() && right[m] == x;
        assert(all[left.len() + m] == x);
        assert(all[left.len() + m].key == key);
    }
}

/// Each key that one comparison lists has its mirror in the comparison in the other
/// order.
proof fn listed_turns(
    a: Json,
    b: Json,
    text: Seq<u8>,
    other_text: Seq<u8>,
    key: Seq<char>,
    kind: Classification,
)
    requires
        a.well_formed(),
        b.well_formed(),
        lists(listed(a, b, text), key, kind),
    ensures
        lists(listed(b, a, other_text), key, mirrored_kind(kind)),
{
    listed_holds(a, b, text, key, kind);
    listed_holds(b, a, other_text, key, mirrored_kind(kind));
    parts_are_well_formed(a);
    parts_are_well_formed(b);
    if exists|i: int|
        0 <= i < a.members().len() && (#[trigger] left_entry(a, b, text, i)).key == key
            && left_entry(a, b, text, i).kind == kind {
        let i = choose|i: int|
            0 <= i < a.members().len() && (#[trigger] left_entry(a, b, text, i)).key == key
                && left_entry(a, b, text, i).kind == kind;
        assert(a.members()[i].0 == key);
        if !b.has_key(key) {
            assert(!b.has_key(a.members()[i].0) && a.members()[i].0 == key && mirrored_kind(kind)
                == Classification::AddedOnRight);
        } else {
            first_index_finds(b.members(), key, 0);
            let j = first_index(b.members(), key, 0);
            member_found_by_its_key(a, i);
            same_is_symmetric(a.members()[i].1, b.get(key));
            assert(left_entry(b, a, other_text, j).key == key);
            assert(left_entry(b, a, other_text, j).kind == mirrored_kind(kind));
        }
    } else {
        let j = choose|j: int|
            0 <= j < b.members().len() && !a.has_key((#[trigger] b.members()[j]).0)
                && b.members()[j].0 == key && kind == Classification::AddedOnRight;
        assert(left_entry(b, a, other_text, j).key == key);
        assert(left_entry(b, a, other_text, j).kind == Classification::AddedOnLeft);
    }
}

/// Comparing two well-formed documents in the other order lists the same keys with
/// the roles of the two sides swapped: what only the first held is then what only the
/// second holds, and a changed or unchanged key stays so. The rows and columns, which
/// are taken from one side's text, need not agree.
pub proof fn report_is_symmetric(
    a: Json,
    b: Json,
    text_a: Seq<u8>,
    text_b: Seq<u8>,
    key: Seq<char>,
    kind: Classification,
)
    requires
        a.well_formed(),
        b.well_formed(),
    ensures
        lists(report_of(a, b, text_a, text_b).entries, key, kind) <==> lists(
            report_of(b, a, text_b, text_a).entries,
            key,
            mirrored_kind(kind),
        ),
{
    ordered_lists_the_same(listed(a, b, text_b), key, kind);
    ordered_lists_the_same(listed(b, a, text_a), key, mirrored_kind(kind));
    if lists(listed(a, b, text_b), key, kind) {
        listed_turns(a, b, text_b, text_a, key, kind);
    }
    if lists(listed(b, a, text_a), key, mirrored_kind(kind)) {
        listed_turns(b, a, text_a, text_b, key, mirrored_kind(kind));
    }
}

/// Where neither root is an object, comparing in the other order finds the same paths
/// below the roots with the roles of the two sides swapped.
pub proof fn root_is_symmetric(a: Json, b: Json, d: DifferenceView)
    requires
        a.well_formed(),
        b.well_formed(),
    ensures
        root_differences(a, b).contains(d) <==> root_differences(b, a).contains(mirrored(d)),
{
    comparison_is_symmetric(a, b, Seq::empty(), d);
}

/// No section for the first `n` members of a document compared with itself.
proof fn no_sections_against_itself(x: Json, n: nat)
    requires
        x.well_formed(),
        n <= x.members().len(),
    ensures
        sections_upto(x, x, n) == Seq::<SectionView>::empty(),
    decreases n,
{
    if n > 0 {
        no_sections_against_itself(x, (n - 1) as nat);
        member_found_by_its_key(x, n - 1);
        parts_are_well_formed(x);
        same_is_reflexive(x.members()[n - 1].1);
    }
}

/// A well-formed document compared with itself has no record at its root and no
/// section, and every one of its keys is listed as unchanged.
pub proof fn a_document_against_itself_is_unchanged(x: Json, text_a: Seq<u8>, text_b: Seq<u8>)
    requires
        x.well_formed(),
    ensures
        report_of(x, x, text_a, text_b).root == Seq::<DifferenceView>::empty(),
        report_of(x, x, text_a, text_b).sections == Seq::<SectionView>::empty(),
        forall|i: int|
            0 <= i < report_of(x, x, text_a, text_b).entries.len() ==> (#[trigger] report_of(
                x,
                x,
                text_a,
                text_b,
            ).entries[i]).kind == Classification::Unchanged,
{
    comparing_a_value_with_itself_yields_no_record(x, Seq::empty());
    no_sections_against_itself(x, x.members().len());
    let entries = report_of(x, x, text_a, text_b).entries;
    parts_are_well_formed(x);
    assert forall|i: int| 0 <= i < entries.len() implies (#[trigger] entries[i]).kind
        == Classification::Unchanged by {
        let e = entries[i];
        assert(lists(entries, e.key, e.kind));
        ordered_lists_the_same(listed(x, x, text_b), e.key, e.kind);
        listed_holds(x, x, text_b, e.key, e.kind);
        if exists|k: int|
            0 <= k < x.members().len() && (#[trigger] left_entry(x, x, text_b, k)).key == e.key
                && left_entry(x, x, text_b, k).kind == e.kind {
            let k = choose|k: int|
                0 <= k < x.members().len() && (#[trigger] left_entry(x, x, text_b, k)).key
                    == e.key && left_entry(x, x, text_b, k).kind == e.kind;
            member_found_by_its_key(x, k);
            same_is_reflexive(x.members()[k].1);
        } else {
            let j = choose|j: int|
                0 <= j < x.members().len() && !x.has_key((#[trigger] x.members()[j]).0)
                    && x.members()[j].0 == e.key && e.kind == Classification::AddedOnRight;
            member_found_by_its_key(x, j);
        }
    }
}

/// Whether no two entries of the list have the same key.
pub open spec fn keys_distinct(entries: Seq<EntryView>) -> bool {
    forall|i: int, j: int|
        0 <= i < j < entries.len() ==> (#[trigger] entries[i]).key != (#[trigger] entries[j]).key
}

/// Whether the list holds an entry for `key`.
pub open spec fn names(entries: Seq<EntryView>, key: Seq<char>) -> bool {
    exists|i: int| 0 <= i < entries.len() && (#[trigger] entries[i]).key == key
}

/// Ordering does not change which keys are listed.
proof fn ordered_names_the_same(entries: Seq<EntryView>, key: Seq<char>)
    ensures
        names(ordered(entries), key) <==> names(entries, key),
{
    if names(ordered(entries), key) {
        let i = choose|i: int|
            0 <= i < ordered(entries).len() && (#[trigger] ordered(entries)[i]).key == key;
        ordered_lists_the_same(entries, key, ordered(entries)[i].kind);
        let j = choose|j: int|
            0 <= j < entries.len() && (#[trigger] entries[j]).key == key && entries[j].kind
                == ordered(entries)[i].kind;
        assert(entries[j].key == key);
    }
    if names(entries, key) {
        let i = choose|i: int| 0 <= i < entries.len() && (#[trigger] entries[i]).key == key;
        ordered_lists_the_same(entries, key, entries[i].kind);
        let j = choose|j: int|
            0 <= j < ordered(entries).len() && (#[trigger] ordered(entries)[j]).key == key
                && ordered(entries)[j].kind == entries[i].kind;
        assert(ordered(entries)[j].key == key);
    }
}

/// Ordering a list without repeated keys gives a list without repeated keys.
proof fn ordered_keeps_keys_distinct(entries: Seq<EntryView>)
    requires
        keys_distinct(entries),
    ensures
        keys_distinct(ordered(entries)),
    decreases entries.len(),
{
    if entries.len() > 0 {
        let rest = entries.drop_last();
        let x = entries.last();
        assert forall|i: int, j: int| 0 <= i < j < rest.len() implies (#[trigger] rest[i]).key != (
        #[trigger] rest[j]).key by {
            assert(rest[i] == entries[i] && rest[j] == entries[j]);
        }
        ordered_keeps_keys_distinct(rest);
        let sorted = ordered(rest);
        inserted_at_slot(sorted, x);
        let k = slot(sorted, x);
        let out = sorted.insert(k, x);
        assert forall|i: int| 0 <= i < sorted.len() implies (#[trigger] sorted[i]).key != x.key by {
            if sorted[i].key == x.key {
                assert(names(sorted, x.key));
                ordered_names_the_same(rest, x.key);
                let m = choose|m: int| 0 <= m < rest.len() && (#[trigger] rest[m]).key == x.key;
                assert(entries[m].key == entries[entries.len() - 1].key);
            }
        }
        assert forall|i: int, j: int| 0 <= i < j < out.len() implies (#[trigger] out[i]).key != (
        #[trigger] out[j]).key by {
            if i < k {
                assert(out[i] == sorted[i]);
            } else if i > k {
                assert(out[i] == sorted[i - 1]);
            }
            if j < k {
                assert(out[j] == sorted[j]);
            } else if j > k {
                assert(out[j] == sorted[j - 1]);
            }
        }
    }
}

/// The entries for the first `n` members of the second document have different keys.
proof fn right_entries_are_distinct(a: Json, b: Json, text: Seq<u8>, n: nat)
    requires
        b.well_formed(),
        n <= b.members().len(),
    ensures
        keys_distinct(right_entries(a, b, text, n)),
    decreases n,
{
    if n > 0 {
        let before = right_entries(a, b, text, (n - 1) as nat);
        right_entries_are_distinct(a, b, text, (n - 1) as nat);
        if !a.has_key(b.members()[n - 1].0) {
            let last = right_entry(b, text, n - 1);
            let now = before.push(last);
            assert forall|i: int, j: int| 0 <= i < j < now.len() implies (#[trigger] now[i]).key
                != (#[trigger] now[j]).key by {
                if j == before.len() {
                    let x = before[i];
                    assert(before.contains(x));
                    right_entries_are(a, b, text, (n - 1) as nat, x);
                    let m = choose|m: int|
                        0 <= m < n - 1 && !a.has_key((#[trigger] b.members()[m]).0) && x
                            == right_entry(b, text, m);
                    assert(b.members()[m].0 != b.members()[n - 1].0);
                } else {
                    assert(now[i] == before[i] && now[j] == before[j]);
                }
            }
        }
    }
}

/// Every key that one of two well-formed documents holds at its top level is listed
/// in the report exactly once, and no other key is listed.
pub proof fn every_key_is_listed_once(a: Json, b: Json, text_a: Seq<u8>, text_b: Seq<u8>)
    requires
        a.well_formed(),
        b.well_formed(),
    ensures
        keys_distinct(report_of(a, b, text_a, text_b).entries),
        forall|key: Seq<char>|
            (a.has_key(key) || b.has_key(key)) <==> #[trigger] names(
                report_of(a, b, text_a, text_b).entries,
                key,
            ),
{
    let left = left_entries(a, b, text_b, a.members().len());
    let right = right_entries(a, b, text_b, b.members().len());
    let all = listed(a, b, text_b);
    left_entries_are(a, b, text_b, a.members().len());
    right_entries_are_distinct(a, b, text_b, b.members().len());
    assert forall|i: int, j: int| 0 <= i < j < all.len() implies (#[trigger] all[i]).key != (
    #[trigger] all[j]).key by {
        if j < left.len() {
            assert(all[i] == left[i] && all[j] == left[j]);
        } else if i < left.len() {
            assert(all[i] == left[i]);
            member_found_by_its_key(a, i);
            let x = right[j - left.len()];
            assert(all[j] == x);
            assert(right.contains(x));
            right_entries_are(a, b, text_b, b.members().len(), x);
        } else {
            assert(all[i] == right[i - left.len()] && all[j] == right[j - left.len()]);
        }
    }
    ordered_keeps_keys_distinct(all);
    assert forall|key: Seq<char>| (a.has_key(key) || b.has_key(key)) <==> #[trigger] names(
        report_of(a, b, text_a, text_b).entries,
        key,
    ) by {
        ordered_names_the_same(all, key);
        has_key_iff_member(a, key);
        has_key_iff_member(b, key);
        if names(all, key) {
            let k = choose|k: int| 0 <= k < all.len() && (#[trigger] all[k]).key == key;
            if k < left.len() {
                assert(all[k] == left[k]);
                assert(a.members()[k].0 == key);
            } else {
                let x = right[k - left.len()];
                assert(all[k] == x);
                assert(right.contains(x));
                right_entries_are(a, b, text_b, b.members().len(), x);
                let j = choose|j: int|
                    0 <= j < b.members().len() && !a.has_key((#[trigger] b.members()[j]).0) && x
                        == right_entry(b, text_b, j);
                assert(b.members()[j].0 == key);
            }
        }
        if a.has_key(key) {
            let i = choose|i: int|
                0 <= i < a.members().len() && (#[trigger] a.members()[i]).0 == key;
            assert(all[i] == left[i]);
            assert(all[i].key == key);
        } else if b.has_key(key) {
            let j = choose|j: int|
                0 <= j < b.members().len() && (#[trigger] b.members()[j]).0 == key;
            let x = right_entry(b, text_b, j);
            right_entries_are(a, b, text_b, b.members().len(), x);
            assert(right.contains(x));
            let m = choose|m: int| 0 <= m < right.len() && right[m] == x;
            assert(all[left.len() + m] == x);
            assert(all[left.len() + m].key == key);
        }
    }
}

} // verus!
