//! Geometry reconstruction for paginated text layouts.
//!
//! Three independent, pure entry points rebuild structure from unordered
//! numeric coordinates harvested from a document page:
//!
//! * [`cluster::y_cluster`] groups scattered one-dimensional positions into
//!   sorted, deduplicated row-cluster centers;
//! * [`bands::select_bands`] merges per-day column centers into horizontal
//!   page bands with midpoint boundary arbitration;
//! * [`stitch::stitch_bp`] reassembles a numeric code that a layout
//!   extractor split across two text lines.
//!
//! Coordinates are fixed-point integers with [`coord::SUBUNITS_PER_UNIT`]
//! sub-units per host unit (for instance, per PDF point). The host converts
//! its native floating-point measurements at this boundary and marks
//! non-finite readings as [`coord::Coord::NonFinite`]; the library silently
//! discards those wherever they appear. Divisions (cluster means, bin keys)
//! round to the nearest sub-unit with ties away from zero; band bounds are
//! kept in half sub-units so that midpoint splits are exact.

pub mod bands;
pub mod cluster;
pub mod coord;
pub mod nums;
pub mod order;
pub mod stitch;
