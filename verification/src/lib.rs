//! Verified parts of a ship loading model: the text format of the
//! precomputed cache tables, the grouping of tabulated ship data into series,
//! the side silhouette of a voxelized hull, and the bookkeeping of hold
//! compartments.
pub mod cache_table;
pub mod grouping;
pub mod hold;
pub mod voxel;

use vstd::prelude::*;

verus! {

/// Recalculation of the course angles of waves between the north-east frame
/// and angles relative to the centre plane of the ship. The conversions work
/// on floating-point angles and are provided by the program side.
pub struct RecalculationCourseAngular {}

} // verus!
