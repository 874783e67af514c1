//! A spatial index over a dynamic set of identified points.
//!
//! The index tracks `(identifier, coordinate)` pairs, rebuilds a balanced
//! k-d partition from them on demand, and answers nearest-neighbour and
//! within-distance queries against the partition. Reconciliation of change
//! batches (upserts and removals) is the sole mutation surface; timing of
//! those batches belongs to the caller.

pub mod coord;
pub mod point_set;
pub mod index;
pub mod query;
pub mod tree;

use vstd::prelude::*;

verus! {

/// Selects which host transform an integration layer should read when it
/// derives coordinates for tracked entities.
#[derive(Clone, Copy)]
pub enum TransformMode {
    /// Derive coordinates from the entity's local transform.
    Transform,
    /// Derive coordinates from the entity's global transform.
    GlobalTransform,
}

impl Default for TransformMode {
    fn default() -> (r: Self)
        ensures
            r is Transform,
    {
        TransformMode::Transform
    }
}

} // verus!
