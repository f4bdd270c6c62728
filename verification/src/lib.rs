//! A word-boundary segmenter for unsegmented text, built around a boosted
//! additive classifier over sparse boolean features.
//!
//! The crate trains a binary "does a word start here" classifier from a
//! gold-segmented corpus and applies it left to right to plain text,
//! producing a token sequence.  All real-valued quantities (model weights,
//! instance weights, the convergence threshold) are held in fixed-point
//! integer form so that every arithmetic step has an exact contract.

use vstd::prelude::*;

pub mod adaboost;
pub mod chartype;
pub mod decimal;
pub mod features;
pub mod numeric;
pub mod segmenter;
pub mod strutil;

verus! {

/// The version of this library.
pub fn get_version() -> (r: &'static str)
    ensures
        r@ == "0.1.0"@,
{
    "0.1.0"
}

} // verus!
