//! Coordinate systems.
//!
//! The position index of the typesetter measures in scaled points: 65536 of
//! them make one TeX point, and 72.27 TeX points make one inch. Rendered
//! pages measure in big points, 72 to the inch. One scaled point is therefore
//! 800 / (803 * 65536) of a big point. The output space of this crate counts
//! in units of 1 / (803 * 65536) of a big point, so that the conversion from
//! typesetting units is a multiplication by a whole number and nothing is
//! ever rounded.

use vstd::prelude::*;

verus! {

/// Scaled points in one TeX point.
pub const SP_PER_PT: i64 = 65536;

/// Output units in one scaled point: the fixed scale of the conversion.
pub const UNITS_PER_SP: i64 = 800;

/// Output units in one big point, 803 * 65536.
pub const UNITS_PER_BP: i64 = 52_625_408;

/// Largest magnitude of a coordinate that boxes of the position index can
/// span, 2^32: the sum of two 32-bit fields.
pub const SP_LIMIT: i64 = 0x1_0000_0000;

/// Largest magnitude of an output coordinate, 2^60.
pub const COORD_LIMIT: i64 = 0x1000_0000_0000_0000;

/// Largest magnitude of the top coordinate of a page, 2^59. Anything a
/// position box can add to it stays within [`COORD_LIMIT`].
pub const PAGE_TOP_LIMIT: i64 = 0x0800_0000_0000_0000;

/// Whether `c` is an output coordinate this crate computes with.
pub open spec fn in_domain(c: int) -> bool {
    -COORD_LIMIT <= c <= COORD_LIMIT
}

/// The output coordinate of the typesetting coordinate `sp` on a page whose
/// top edge lies at `offset`; horizontal coordinates use offset 0.
pub open spec fn to_output_spec(sp: int, offset: int) -> int {
    sp * UNITS_PER_SP + offset
}

/// Exec counterpart of [`in_domain`].
pub fn is_in_domain(c: i64) -> (ok: bool)
    ensures
        ok == in_domain(c as int),
{
    -COORD_LIMIT <= c && c <= COORD_LIMIT
}

/// Converts a typesetting coordinate to output units: one fixed linear
/// scale plus an additive offset.
pub fn to_output(sp: i64, offset: i64) -> (out: i64)
    requires
        -SP_LIMIT <= sp <= SP_LIMIT,
        -PAGE_TOP_LIMIT <= offset <= PAGE_TOP_LIMIT,
    ensures
        out == to_output_spec(sp as int, offset as int),
        in_domain(out as int),
{
    sp * UNITS_PER_SP + offset
}

} // verus!
