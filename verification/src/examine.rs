//! The whole comparison of two inputs, from their bytes to the report.

use crate::digest::check_for_is_same_input;
use crate::digest::sha2_256_hex;
use crate::parse::document_of;
use crate::parse::parse;
use crate::report::diff;
use crate::report::report_of;
use crate::report::Report;
use crate::report::ReportView;
use crate::text::decoded;
use vstd::prelude::*;
use vstd::utf8::*;

verus! {

/// One of the two inputs.
#[derive(Clone, Copy, Debug, PartialEq, Eq)]
pub enum Side {
    First,
    Second,
}

/// The model of an outcome.
pub enum OutcomeView {
    Same,
    Unreadable(Side),
    Invalid(Side),
    Compared(ReportView),
}

/// How the comparison of two inputs ended.
#[derive(Clone, Debug, PartialEq, Eq)]
pub enum Outcome {
    /// The two inputs have the same digest: nothing was parsed or compared.
    Same,
    /// The input of this side is not UTF-8 text.
    Unreadable(Side),
    /// The text of this side is no JSON document, or holds a fraction too long to be
    /// read.
    Invalid(Side),
    /// Both inputs are JSON documents, and this is what their comparison found.
    Compared(Report),
}

impl View for Outcome {
    type V = OutcomeView;

    open spec fn view(&self) -> OutcomeView {
        match self {
            Outcome::Same => OutcomeView::Same,
            Outcome::Unreadable(side) => OutcomeView::Unreadable(*side),
            Outcome::Invalid(side) => OutcomeView::Invalid(*side),
            Outcome::Compared(report) => OutcomeView::Compared(report@),
        }
    }
}

/// The outcome for two inputs. The digests are compared first; then the first input
/// is read and parsed, then the second; the first failure ends the comparison.
pub open spec fn outcome_of(first: Seq<u8>, second: Seq<u8>) -> OutcomeView {
    if sha2_256_hex(first) == sha2_256_hex(second) {
        OutcomeView::Same
    } else if !valid_utf8(first) {
        OutcomeView::Unreadable(Side::First)
    } else if document_of(decode_utf8(first)) is None {
        OutcomeView::Invalid(Side::First)
    } else if !valid_utf8(second) {
        OutcomeView::Unreadable(Side::Second)
    } else if document_of(decode_utf8(second)) is None {
        OutcomeView::Invalid(Side::Second)
    } else {
        OutcomeView::Compared(
            report_of(
                document_of(decode_utf8(first))->0,
                document_of(decode_utf8(second))->0,
                first,
                second,
            ),
        )
    }
}

/// Compares the contents of two files.
pub fn examine(first: &[u8], second: &[u8]) -> (outcome: Outcome)
    ensures
        outcome@ == outcome_of(first@, second@),
{
    if check_for_is_same_input(first, second) {
        return Outcome::Same;
    }
    let text_a = match decoded(first) {
        Some(text) => text,
        None => {
            return Outcome::Unreadable(Side::First);
        },
    };
    proof {
        encode_utf8_decode_utf8(text_a@);
    }
    let root_a = match parse(text_a) {
        Some(value) => value,
        None => {
            return Outcome::Invalid(Side::First);
        },
    };
    let text_b = match decoded(second) {
        Some(text) => text,
        None => {
            return Outcome::Unreadable(Side::Second);
        },
    };
    proof {
        encode_utf8_decode_utf8(text_b@);
    }
    let root_b = match parse(text_b) {
        Some(value) => value,
        None => {
            return Outcome::Invalid(Side::Second);
        },
    };
    Outcome::Compared(diff(&root_a, &root_b, text_a, text_b))
}

/// Two inputs with the same bytes are the same, whatever the bytes are.
pub proof fn identical_inputs_are_same(bytes: Seq<u8>)
    ensures
        outcome_of(bytes, bytes) == OutcomeView::Same,
{
}

} // verus!
