//! A disk-backed cache for map-tile images, identified by tile coordinates
//! (x, y, zoom).
//!
//! The cache manages a single flat directory: every file whose name matches
//! the canonical 34-character key grammar (16 hex digits of x, 16 hex digits
//! of y, 2 decimal digits of zoom) is cache-managed; everything else is
//! ignored. An in-memory index maps each key to the timestamp captured when
//! its file was discovered or stored, and an age-ordered structure supports
//! oldest-first eviction. Entries expire after a configured lifetime, and an
//! optional maximum entry count is enforced by evicting the oldest entry.
//!
//! All filesystem access is left to the caller: the library works on plain
//! directory listings, filenames and timestamps, and states exactly how the
//! index changes under every operation.

use vstd::prelude::*;

pub mod cache;
pub mod codec;
pub mod index;
pub mod waypoint;

verus! {

/// The failures a cache operation can report.
///
/// `RootUnavailable`: the cache root does not exist (and was not created) or
/// is a regular file; the call fails and the cache keeps its last valid
/// state. `InvalidCoordinate`: a tile coordinate is outside the encodable
/// range; rejected before anything changes. `IoError`: an individual file
/// operation failed; reported by the caller that performed it.
#[derive(Clone, Copy, Debug, PartialEq, Eq, Structural)]
pub enum CacheError {
    RootUnavailable,
    InvalidCoordinate,
    IoError,
}

} // verus!
