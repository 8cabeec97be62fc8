//! An approximate associative map from byte-string keys to small integer
//! values, stored as fixed-weight bit markers inside a wide bit vector.
//!
//! A value is encoded as a marker: a bit pattern of width `marker_width`
//! with exactly `n_marker_bits` bits set, chosen by a combinadic code.
//! Insertion ORs the marker into the bit vector at several hash-derived
//! positions; lookup intersects the windows at those positions and decodes
//! the intersection, or reports the key indeterminate when too many bits
//! survive.  A cascade of shrinking members absorbs indeterminate keys.

pub mod bfield;
pub mod bitops;
pub mod codec;
pub mod member;
pub mod store;

use vstd::prelude::*;

verus! {

/// A value stored in a b-field: a small non-negative integer.
pub type BFieldVal = u32;

} // verus!
