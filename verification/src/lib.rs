//! Resolution engine for hierarchical hardware register-map descriptions.
//!
//! A register map is described as a tree of maps, sections, registers and
//! fields in which most placement information (addresses, bit offsets,
//! alignments, default values) may be left out.  The resolvers in this crate
//! turn such a description into a fully concrete, validated map: every
//! register gets a unique, aligned, non-overlapping address, every field a
//! bit position inside its register word, and every register a reconciled
//! default value.  Ill-formed descriptions are rejected with a precise error.

use vstd::prelude::*;

pub mod bounds;
pub mod flat;
pub mod laws;
pub mod model;
pub mod parser;
pub mod proofs;
pub mod regmap;

pub use flat::FlatRegmap;
pub use parser::RegmapOpt;
pub use regmap::Regmap;

verus! {

/// Alignment granularity in bytes: rounds `val` up to the next multiple of
/// `bytes_align`.
pub open spec fn spec_align_on(bytes_align: int, val: int) -> int {
    if val % bytes_align == 0 {
        val
    } else {
        val + (bytes_align - val % bytes_align)
    }
}

/// Utility function to compute aligned offset.
pub fn align_on(bytes_align: usize, val: usize) -> (r: usize)
    requires
        bytes_align >= 1,
        spec_align_on(bytes_align as int, val as int) <= usize::MAX,
    ensures
        r == spec_align_on(bytes_align as int, val as int),
        r >= val,
{
    let remainder = val % bytes_align;

    if 0 != remainder {
        val + (bytes_align - remainder)
    } else {
        val
    }
}

} // verus!
