//! The coordinate model and the layout constants, all in fixed-point
//! sub-units.

use vstd::prelude::*;

verus! {

/// Sub-units per host coordinate unit: the fixed-point scale of the library.
pub const SUBUNITS_PER_UNIT: i64 = 1000;

/// Bin size used by the row clusterer when the supplied bin is not positive:
/// one unit.
pub const DEFAULT_BIN_SIZE: i64 = SUBUNITS_PER_UNIT;

/// Largest gap between chained neighbours that the band selector merges into
/// one column group: two units.
pub const CENTER_MERGE_EPSILON: i64 = 2 * SUBUNITS_PER_UNIT;

/// Smallest width of a band that the band selector emits: five units.
pub const MIN_BAND_WIDTH: i64 = 5 * SUBUNITS_PER_UNIT;

/// Largest coordinate magnitude the band selector accepts; keeps its
/// half-sub-unit boundary arithmetic inside the machine-integer range.
pub const CENTER_LIMIT: i64 = 0x1fff_ffff_ffff_ffff;

/// One coordinate reading along an axis. The host measures in floating
/// point; it delivers finite readings as fixed-point sub-units and non-finite
/// readings (NaN, infinities) as `NonFinite`, which every consumer here
/// silently discards.
#[derive(Clone, Copy, PartialEq, Eq, Structural, Debug)]
pub enum Coord {
    Finite(i64),
    NonFinite,
}

/// The reading is either non-finite or lies in `[lo, hi]`.
pub open spec fn coord_in(c: Coord, lo: int, hi: int) -> bool {
    match c {
        Coord::Finite(v) => lo <= v as int <= hi,
        Coord::NonFinite => true,
    }
}

} // verus!
