//! Structural comparison of two JSON documents.
//!
//! [`examine::examine`] takes the contents of two files and says how their comparison
//! ends. [`report::diff`] compares two documents that were read already, key by key
//! at the top level, and [`compare::compare`] lists where two values differ at any
//! depth. [`position::get_position`] finds a key in the raw text of a document, by
//! which the report is ordered.
//!
//! Every value has a mathematical model ([`value::Json`]); the contracts are stated
//! over the models, and the modules whose names end in `_laws` prove what holds of
//! them in general.

pub mod compare;
pub mod compare_laws;
pub mod count_laws;
pub mod digest;
pub mod equality_laws;
pub mod examine;
pub mod number;
pub mod parse;
pub mod position;
pub mod position_laws;
pub mod report;
pub mod report_laws;
pub mod text;
pub mod value;
