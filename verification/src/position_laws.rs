//! Laws of rows and columns.

use crate::position::line_anchor;
use crate::position::newlines_before;
use crate::position::row_and_column;
use crate::position::NEWLINE;
use vstd::prelude::*;

verus! {

/// Whether the first pair of row and column comes strictly before the second.
pub open spec fn earlier(x: (nat, nat), y: (nat, nat)) -> bool {
    x.0 < y.0 || (x.0 == y.0 && x.1 < y.1)
}

/// The anchor of a line lies at or before every offset on it.
pub proof fn anchor_is_not_behind(text: Seq<u8>, p: int)
    requires
        0 <= p,
    ensures
        0 <= line_anchor(text, p) <= p,
    decreases p,
{
    if p > 0 && text[p - 1] != NEWLINE {
        anchor_is_not_behind(text, p - 1);
    }
}

/// From one offset to a later one the row does not fall, and where it stays the
/// anchor stays.
proof fn rows_do_not_fall(text: Seq<u8>, p: int, q: int)
    requires
        0 <= p <= q,
    ensures
        newlines_before(text, p) <= newlines_before(text, q),
        newlines_before(text, p) == newlines_before(text, q) ==> line_anchor(text, p)
            == line_anchor(text, q),
    decreases q - p,
{
    if p < q {
        rows_do_not_fall(text, p, q - 1);
    }
}

/// Rows and columns order offsets as the offsets are ordered: of two offsets in one
/// text, the earlier has the earlier pair of row and column.
pub proof fn row_and_column_follow_the_offset(text: Seq<u8>, p: int, q: int)
    requires
        0 <= p < q,
    ensures
        earlier(row_and_column(text, p), row_and_column(text, q)),
{
    rows_do_not_fall(text, p, q);
    anchor_is_not_behind(text, p);
    anchor_is_not_behind(text, q);
}

/// Row and column lead back to the offset: two offsets in one text with the same row
/// and column are the same offset.
pub proof fn row_and_column_tell_offsets_apart(text: Seq<u8>, p: int, q: int)
    requires
        0 <= p,
        0 <= q,
        row_and_column(text, p) == row_and_column(text, q),
    ensures
        p == q,
{
    if p < q {
        row_and_column_follow_the_offset(text, p, q);
    }
    if q < p {
        row_and_column_follow_the_offset(text, q, p);
    }
}

} // verus!
