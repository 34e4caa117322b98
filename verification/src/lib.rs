//! Streaming computation of the geographic bounding box of a set of
//! coordinates read from a shapes table, with the result rendered in the
//! `left,bottom,right,top` bounding-box text convention.
//!
//! Numeric axis values are carried as [`geom::Coord`] pairs of an
//! order-preserving integer key and the value's decimal text, so that the
//! min/max bookkeeping and the output formatting are fully verified while the
//! caller chooses the numeric encoding.

pub mod accum;
pub mod decode;
pub mod geom;

use vstd::prelude::*;

verus! {

/// Everything that can go wrong while turning raw records into a bounding
/// box: a record too short to hold a latitude or longitude field, a field
/// that is not floating-point text (carrying the offending text), and an
/// input with fewer than the two coordinates a seed rectangle needs.
#[derive(Debug)]
pub enum BboxError {
    MissingLatitude,
    MissingLongitude,
    InvalidNumber { text: String },
    InsufficientData,
}

} // verus!
