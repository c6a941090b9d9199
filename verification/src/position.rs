//! The position resolver: where a key first appears in the raw text of a document.

use crate::text::bytes_of;
use vstd::prelude::*;
use vstd::string::*;

verus! {

/// The byte of a double quote.
pub const QUOTE: u8 = 34;

/// The byte of a line feed.
pub const NEWLINE: u8 = 10;

/// The bytes of `key` between two double quotes.
pub open spec fn quoted(key: Seq<u8>) -> Seq<u8> {
    seq![QUOTE] + key + seq![QUOTE]
}

/// Whether `pattern` stands in `text` at offset `p`.
pub open spec fn occurs_at(text: Seq<u8>, pattern: Seq<u8>, p: int) -> bool {
    0 <= p && p + pattern.len() <= text.len() && text.subrange(p, p + pattern.len()) == pattern
}

/// Whether `p` is the least offset at which `pattern` stands in `text`.
pub open spec fn first_occurrence(text: Seq<u8>, pattern: Seq<u8>, p: int) -> bool {
    occurs_at(text, pattern, p) && forall|q: int| 0 <= q < p ==> !occurs_at(text, pattern, q)
}

/// The number of line feeds among the first `p` bytes of `text`.
pub open spec fn newlines_before(text: Seq<u8>, p: int) -> nat
    decreases p,
{
    if p <= 0 {
        0
    } else if text[p - 1] == NEWLINE {
        newlines_before(text, p - 1) + 1
    } else {
        newlines_before(text, p - 1)
    }
}

/// The offset of the last line feed among the first `p` bytes of `text`, or zero if
/// there is none.
pub open spec fn line_anchor(text: Seq<u8>, p: int) -> int
    decreases p,
{
    if p <= 0 {
        0
    } else if text[p - 1] == NEWLINE {
        p - 1
    } else {
        line_anchor(text, p - 1)
    }
}

/// The row and column of offset `p`: rows count from one; the column is the distance
/// from the last line feed before `p`, or from the start of the text on the first row.
pub open spec fn row_and_column(text: Seq<u8>, p: int) -> (nat, nat) {
    ((1 + newlines_before(text, p)) as nat, (p - line_anchor(text, p)) as nat)
}

/// The row and column at which the quoted `key` first stands in `text`, if it does.
pub open spec fn locate(text: Seq<u8>, key: Seq<u8>) -> Option<(nat, nat)> {
    if exists|p: int| occurs_at(text, quoted(key), p) {
        Some(row_and_column(text, choose|p: int| first_occurrence(text, quoted(key), p)))
    } else {
        None
    }
}

/// Whether the quoted `key` stands in `text` at offset `p`.
#[verifier::loop_isolation(false)]
fn quoted_at(text: &[u8], key: &[u8], p: usize) -> (r: bool)
    requires
        p + key@.len() + 2 <= text@.len(),
    ensures
        r == occurs_at(text@, quoted(key@), p as int),
{
    let ghost pattern = quoted(key@);
    let k: usize = key.len();
    if text[p] != QUOTE {
        assert(text@.subrange(p as int, p + pattern.len())[0] == text@[p as int]);
        return false;
    }
    let mut i: usize = 0;
    while i < k
        invariant
            i <= k,
            forall|j: int| 0 <= j < i ==> text@[p + 1 + j] == key@[j],
        decreases k - i,
    {
        if text[p + 1 + i] != key[i] {
            assert(pattern[1 + i] == key@[i as int]);
            return false;
        }
        i += 1;
    }
    if text[p + 1 + k] != QUOTE {
        assert(pattern[1 + k] == QUOTE);
        return false;
    }
    assert(text@.subrange(p as int, p + pattern.len()) =~= pattern);
    true
}

/// Returns the row and column of the first occurrence of the quoted key in the raw
/// text, or `None` if the text does not hold it.
///
/// This is a search in the text, not in the document: it finds the key wherever the
/// same quoted characters stand first, also inside a string value.
#[verifier::loop_isolation(false)]
pub fn get_position(json_str: &str, key: &str) -> (r: Option<(usize, usize)>)
    ensures
        match r {
            Some((row, column)) => locate(bytes_of(json_str@), bytes_of(key@)) == Some(
                (row as nat, column as nat),
            ),
            None => locate(bytes_of(json_str@), bytes_of(key@)) is None,
        },
{
    let text = json_str.as_bytes();
    let name = key.as_bytes();
    let ghost pattern = quoted(name@);
    if text.len() < 2 || text.len() - 2 < name.len() {
        return None;
    }
    let last: usize = text.len() - 2 - name.len();
    let mut p: usize = 0;
    let mut row: usize = 1;
    let mut anchor: usize = 0;
    while p <= last
        invariant
            p <= last + 1,
            forall|q: int| 0 <= q < p ==> !occurs_at(text@, pattern, q),
            row == 1 + newlines_before(text@, p as int),
            anchor == line_anchor(text@, p as int),
            row <= p + 1,
            anchor <= p,
        decreases last + 1 - p,
    {
        if quoted_at(text, name, p) {
            assert(first_occurrence(text@, pattern, p as int));
            return Some((row, p - anchor));
        }
        if text[p] == NEWLINE {
            row += 1;
            anchor = p;
        }
        p += 1;
    }
    None
}

} // verus!
