//! A verified spatial indexing and network conflation engine.
//!
//! The crate builds bounding-volume indexes over collections of planar
//! geometries, evaluates binary predicates (intersects / contains / within)
//! between two collections through a broad-phase/narrow-phase scan, and
//! conflates two line networks by matching elementary segments within a
//! distance and slope tolerance.
//!
//! The engine covers the indexed evaluation only: plain per-pair predicate
//! calls, geometry construction from external formats, and other one-shot
//! forwarding onto the geometry library sit outside it.

pub mod envelope;
pub mod fbits;
pub mod geom;
pub mod rnetmerge;
pub mod sparse;
pub mod spatial_index;

use vstd::prelude::*;

verus! {

/// Errors visible at the boundary of the engine.
#[derive(Clone, Copy, Debug, PartialEq, Eq, Structural)]
pub enum Error {
    /// A geometry collection does not have the variant an operation needs.
    InvalidGeometryType,
}

/// A mutable borrow of one element of a vector.
pub fn elem_mut<T>(v: &mut Vec<T>, i: usize) -> (elem: &mut T)
    requires
        i < old(v).len(),
    ensures
        *elem == old(v)@[i as int],
        final(v)@ == old(v)@.update(i as int, *final(elem)),
{
    &mut v[i]
}

} // verus!
