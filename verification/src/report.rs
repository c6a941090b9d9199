//! The diff orchestrator: the top-level keys of two documents, classified and put in
//! the order in which they first appear in the second document's text.
//!
//! Keys are what objects have. Where neither root is an object, the report holds what
//! the comparator finds between the two roots instead.

use crate::compare::compare;
use crate::compare::differences;
use crate::compare::records;
use crate::compare::steps;
use crate::compare::Classification;
use crate::compare::Difference;
use crate::compare::DifferenceView;
use crate::compare::Segment;
use crate::compare::SegmentView;
use crate::position::get_position;
use crate::position::locate;
use crate::report_laws::ordered_is_in_order;
use crate::text::bytes_of;
use crate::value::same;
use crate::value::Json;
use crate::value::Value;
use vstd::prelude::*;
use vstd::string::*;

verus! {

/// The model of a line of the final listing.
pub struct EntryView {
    pub key: Seq<char>,
    pub kind: Classification,
    pub row: nat,
    pub column: nat,
}

/// A line of the final listing: a top-level key, how it differs, and the row and
/// column by which it is ordered.
#[derive(Clone, Debug, PartialEq, Eq)]
pub struct Entry {
    pub key: String,
    pub kind: Classification,
    pub row: usize,
    pub column: usize,
}

impl View for Entry {
    type V = EntryView;

    open spec fn view(&self) -> EntryView {
        EntryView {
            key: self.key@,
            kind: self.kind,
            row: self.row as nat,
            column: self.column as nat,
        }
    }
}

/// The model of a list of entries.
pub open spec fn entries_view(entries: Seq<Entry>) -> Seq<EntryView> {
    entries.map_values(|entry: Entry| entry@)
}

/// The model of a section.
pub struct SectionView {
    pub key: Seq<char>,
    pub differences: Seq<DifferenceView>,
}

/// The nested differences under one changed top-level key.
#[derive(Clone, Debug, PartialEq, Eq)]
pub struct Section {
    pub key: String,
    pub differences: Vec<Difference>,
}

impl View for Section {
    type V = SectionView;

    open spec fn view(&self) -> SectionView {
        SectionView { key: self.key@, differences: records(self.differences@) }
    }
}

/// The model of a list of sections.
pub open spec fn sections_view(sections: Seq<Section>) -> Seq<SectionView> {
    sections.map_values(|section: Section| section@)
}

/// How the length of the first text relates to that of the second.
#[derive(Clone, Copy, Debug, PartialEq, Eq)]
pub enum Relation {
    Less,
    Equal,
    Greater,
}

/// The lengths in bytes of the two raw texts, and how they relate.
#[derive(Clone, Copy, Debug, PartialEq, Eq)]
pub struct Lengths {
    pub relation: Relation,
    pub first: usize,
    pub second: usize,
}

/// The model of a report.
pub struct ReportView {
    pub lengths: Lengths,
    pub root: Seq<DifferenceView>,
    pub sections: Seq<SectionView>,
    pub entries: Seq<EntryView>,
}

/// What the comparison of two documents found.
#[derive(Clone, Debug, PartialEq, Eq)]
pub struct Report {
    /// The lengths of the two raw texts.
    pub lengths: Lengths,
    /// Where neither root is an object: the comparator's records for the two roots,
    /// with paths that start at the root. Empty where one root is an object.
    pub root: Vec<Difference>,
    /// One section for each changed top-level key, in the order of the keys in the
    /// first document.
    pub sections: Vec<Section>,
    /// One entry for each top-level key, ordered by row and column.
    pub entries: Vec<Entry>,
}

impl View for Report {
    type V = ReportView;

    open spec fn view(&self) -> ReportView {
        ReportView {
            lengths: self.lengths,
            root: records(self.root@),
            sections: sections_view(self.sections@),
            entries: entries_view(self.entries@),
        }
    }
}

/// The lengths of two texts of `first` and `second` bytes.
pub open spec fn lengths_of(first: nat, second: nat) -> Lengths {
    Lengths {
        relation: if first < second {
            Relation::Less
        } else if first == second {
            Relation::Equal
        } else {
            Relation::Greater
        },
        first: first as usize,
        second: second as usize,
    }
}

/// The row and column of the quoted `key` in `text`, or `(0, 0)` where the text does
/// not hold it.
pub open spec fn position_or_origin(text: Seq<u8>, key: Seq<char>) -> (nat, nat) {
    match locate(text, bytes_of(key)) {
        Some(position) => position,
        None => (0, 0),
    }
}

/// The entry for member `i` of the first document. A key that the second document
/// lacks is `AddedOnLeft` and stands at `(0, 0)`; any other key is `Unchanged` or
/// `Changed` and stands where the second document's text first holds it.
pub open spec fn left_entry(a: Json, b: Json, text: Seq<u8>, i: int) -> EntryView {
    let key = a.members()[i].0;
    if !b.has_key(key) {
        EntryView { key, kind: Classification::AddedOnLeft, row: 0, column: 0 }
    } else {
        EntryView {
            key,
            kind: if same(a.members()[i].1, b.get(key)) {
                Classification::Unchanged
            } else {
                Classification::Changed
            },
            row: position_or_origin(text, key).0,
            column: position_or_origin(text, key).1,
        }
    }
}

/// The entries for the first `n` members of the first document.
pub open spec fn left_entries(a: Json, b: Json, text: Seq<u8>, n: nat) -> Seq<EntryView>
    decreases n,
{
    if n == 0 || n > a.members().len() {
        Seq::empty()
    } else {
        left_entries(a, b, text, (n - 1) as nat).push(left_entry(a, b, text, n - 1))
    }
}

/// The entry for member `j` of the second document, whose key the first lacks.
pub open spec fn right_entry(b: Json, text: Seq<u8>, j: int) -> EntryView {
    let key = b.members()[j].0;
    EntryView {
        key,
        kind: Classification::AddedOnRight,
        row: position_or_origin(text, key).0,
        column: position_or_origin(text, key).1,
    }
}

/// The entries for those of the first `n` members of the second document whose key
/// the first document lacks.
pub open spec fn right_entries(a: Json, b: Json, text: Seq<u8>, n: nat) -> Seq<EntryView>
    decreases n,
{
    if n == 0 || n > b.members().len() {
        Seq::empty()
    } else if a.has_key(b.members()[n - 1].0) {
        right_entries(a, b, text, (n - 1) as nat)
    } else {
        right_entries(a, b, text, (n - 1) as nat).push(right_entry(b, text, n - 1))
    }
}

/// Every top-level key with its classification, before ordering: the keys of the
/// first document in its order, then those only the second document has, in its
/// order.
pub open spec fn listed(a: Json, b: Json, text: Seq<u8>) -> Seq<EntryView> {
    left_entries(a, b, text, a.members().len()) + right_entries(a, b, text, b.members().len())
}

/// The sections for the first `n` members of the first document: one for each key
/// that both documents hold with unequal values, with what the comparator yields for
/// the two values under the path that consists of the key.
pub open spec fn sections_upto(a: Json, b: Json, n: nat) -> Seq<SectionView>
    decreases n,
{
    if n == 0 || n > a.members().len() {
        Seq::empty()
    } else {
        let key = a.members()[n - 1].0;
        let value = a.members()[n - 1].1;
        if b.has_key(key) && !same(value, b.get(key)) {
            sections_upto(a, b, (n - 1) as nat).push(
                SectionView {
                    key,
                    differences: differences(value, b.get(key), seq![SegmentView::Key(key)]),
                },
            )
        } else {
            sections_upto(a, b, (n - 1) as nat)
        }
    }
}

/// Whether `x` may stand before `y`: its row is smaller, or the rows are equal and
/// its column is not greater.
pub open spec fn before_or_at(x: EntryView, y: EntryView) -> bool {
    x.row < y.row || (x.row == y.row && x.column <= y.column)
}

/// Whether each entry may stand before every later one.
pub open spec fn in_order(entries: Seq<EntryView>) -> bool {
    forall|i: int, j: int|
        0 <= i < j < entries.len() ==> before_or_at(#[trigger] entries[i], #[trigger] entries[j])
}

/// `sorted` with `x` put behind the last entry that may stand before it.
pub open spec fn inserted(sorted: Seq<EntryView>, x: EntryView) -> Seq<EntryView>
    decreases sorted.len(),
{
    if sorted.len() == 0 {
        seq![x]
    } else if before_or_at(sorted.last(), x) {
        sorted.push(x)
    } else {
        inserted(sorted.drop_last(), x).push(sorted.last())
    }
}

/// The entries in ascending order of row and column; entries at the same row and
/// column keep the order they had.
pub open spec fn ordered(entries: Seq<EntryView>) -> Seq<EntryView>
    decreases entries.len(),
{
    if entries.len() == 0 {
        Seq::empty()
    } else {
        inserted(ordered(entries.drop_last()), entries.last())
    }
}

/// What the comparator finds between two roots of which neither is an object; nothing
/// where one is.
pub open spec fn root_differences(a: Json, b: Json) -> Seq<DifferenceView> {
    if a is Object || b is Object {
        Seq::empty()
    } else {
        differences(a, b, Seq::empty())
    }
}

/// The report on two documents and their raw texts.
pub open spec fn report_of(a: Json, b: Json, text_a: Seq<u8>, text_b: Seq<u8>) -> ReportView {
    ReportView {
        lengths: lengths_of(text_a.len(), text_b.len()),
        root: root_differences(a, b),
        sections: sections_upto(a, b, a.members().len()),
        entries: ordered(listed(a, b, text_b)),
    }
}

/// Compares the lengths of the two raw texts.
pub fn compare_lengths(raw_text_a: &str, raw_text_b: &str) -> (r: Lengths)
    ensures
        r == lengths_of(bytes_of(raw_text_a@).len(), bytes_of(raw_text_b@).len()),
{
    let first: usize = raw_text_a.as_bytes().len();
    let second: usize = raw_text_b.as_bytes().len();
    let relation = if first < second {
        Relation::Less
    } else if first == second {
        Relation::Equal
    } else {
        Relation::Greater
    };
    Lengths { relation, first, second }
}

/// Puts `entry` into the ordered list behind the last entry that may stand before it.
fn insert_entry(entries: &mut Vec<Entry>, entry: Entry)
    ensures
        entries_view(final(entries)@) == inserted(entries_view(old(entries)@), entry@),
{
    let ghost model = entries_view(entries@);
    let ghost x = entry@;
    let mut at: usize = entries.len();
    assert(model.take(at as int) =~= model);
    while at > 0 && (entries[at - 1].row > entry.row || (entries[at - 1].row == entry.row
        && entries[at - 1].column > entry.column))
        invariant
            at <= entries.len(),
            model == entries_view(entries@),
            x == entry@,
            inserted(model, x) == inserted(model.take(at as int), x) + model.skip(at as int),
        decreases at,
    {
        assert(model.take(at as int).drop_last() =~= model.take(at - 1));
        at -= 1;
    }
    entries.insert(at, entry);
}

/// The row and column of the quoted `key` in the raw text, or `(0, 0)`.
fn position_of(raw_text: &str, key: &str) -> (r: (usize, usize))
    ensures
        (r.0 as nat, r.1 as nat) == position_or_origin(bytes_of(raw_text@), key@),
{
    match get_position(raw_text, key) {
        Some(position) => position,
        None => (0, 0),
    }
}

/// Appends one entry to the model of an unordered list: the ordered list gains it
/// by insertion.
proof fn ordered_push(entries: Seq<EntryView>, x: EntryView)
    ensures
        ordered(entries.push(x)) == inserted(ordered(entries), x),
{
    assert(entries.push(x).drop_last() =~= entries);
}

/// Compares two documents key by key at the top level.
///
/// Each key of the first document is classified against the second; each key that
/// only the second document holds is added. A root that is not an object has no
/// keys; where neither root is an object, the two are handed to the comparator as
/// they are, and its records are the report's `root`. For each changed key the comparator's records for the two values are kept
/// as a section. The entries come out ordered by the row and column at which the
/// second document's raw text first holds the quoted key; keys that only the first
/// document holds, and keys that the text does not hold, stand at `(0, 0)`.
#[verifier::loop_isolation(false)]
pub fn diff(root_a: &Value, root_b: &Value, raw_text_a: &str, raw_text_b: &str) -> (report:
    Report)
    ensures
        report@ == report_of(
            root_a@,
            root_b@,
            bytes_of(raw_text_a@),
            bytes_of(raw_text_b@),
        ),
        in_order(report@.entries),
{
    let ghost a = root_a@;
    let ghost b = root_b@;
    let ghost text = bytes_of(raw_text_b@);
    let lengths = compare_lengths(raw_text_a, raw_text_b);
    let start: Vec<Segment> = Vec::new();
    assert(steps(start@) =~= Seq::<SegmentView>::empty());
    let root = if root_a.is_object() || root_b.is_object() {
        Vec::new()
    } else {
        compare(root_a, root_b, &start)
    };
    assert(records(root@) =~= root_differences(a, b));
    let mut sections: Vec<Section> = Vec::new();
    let mut entries: Vec<Entry> = Vec::new();
    assert(sections_view(sections@) =~= sections_upto(a, b, 0));
    if let Value::Object(members) = root_a {
        let mut i: usize = 0;
        while i < members.len()
            invariant
                i <= members.len(),
                entries_view(entries@) == ordered(left_entries(a, b, text, i as nat)),
                sections_view(sections@) == sections_upto(a, b, i as nat),
            decreases members.len() - i,
        {
            let key = &members[i].key;
            proof {
                ordered_push(left_entries(a, b, text, i as nat), left_entry(a, b, text, i as int));
            }
            match root_b.lookup(key.as_str()) {
                None => {
                    let entry = Entry {
                        key: key.clone(),
                        kind: Classification::AddedOnLeft,
                        row: 0,
                        column: 0,
                    };
                    insert_entry(&mut entries, entry);
                },
                Some(other) => {
                    let position = position_of(raw_text_b, key.as_str());
                    if members[i].value.equals(other) {
                        let entry = Entry {
                            key: key.clone(),
                            kind: Classification::Unchanged,
                            row: position.0,
                            column: position.1,
                        };
                        insert_entry(&mut entries, entry);
                    } else {
                        let mut path: Vec<Segment> = Vec::new();
                        path.push(Segment::Key(key.clone()));
                        assert(steps(path@) =~= seq![SegmentView::Key(key@)]);
                        let found = compare(&members[i].value, other, &path);
                        let section = Section { key: key.clone(), differences: found };
                        sections.push(section);
                        let entry = Entry {
                            key: key.clone(),
                            kind: Classification::Changed,
                            row: position.0,
                            column: position.1,
                        };
                        insert_entry(&mut entries, entry);
                    }
                },
            }
            i += 1;
        }
    }
    let ghost left = left_entries(a, b, text, a.members().len());
    assert(entries_view(entries@) == ordered(left));
    if let Value::Object(members) = root_b {
        let mut j: usize = 0;
        while j < members.len()
            invariant
                j <= members.len(),
                entries_view(entries@) == ordered(left + right_entries(a, b, text, j as nat)),
            decreases members.len() - j,
        {
            let key = &members[j].key;
            let ghost right = right_entries(a, b, text, j as nat);
            if !root_a.has_key(key.as_str()) {
                let position = position_of(raw_text_b, key.as_str());
                let entry = Entry {
                    key: key.clone(),
                    kind: Classification::AddedOnRight,
                    row: position.0,
                    column: position.1,
                };
                proof {
                    ordered_push(left + right, entry@);
                }
                insert_entry(&mut entries, entry);
            }
            j += 1;
        }
    }
    proof {
        ordered_is_in_order(listed(a, b, text));
    }
    Report { lengths, root, sections, entries }
}

} // verus!
