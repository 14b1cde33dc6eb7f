//! Bulk-loaded spatial indexes.
//!
//! Both indexes are R-trees of the `rstar` crate, held behind trusted
//! wrappers.  An index is built once from a fully materialised entry list
//! and is never mutated afterwards; a query returns every entry whose
//! cached envelope intersects the query envelope.  The trees themselves are
//! opaque to verification: the two `*_entries` spec functions name their
//! contents, and the wrappers' contracts say how building and querying
//! relate to those names.

use vstd::prelude::*;
use vstd::multiset::Multiset;
use crate::envelope::{Envelope, env_ordered, env_wf, envs_intersect};
use crate::geom::{Coord, Segment};

verus! {

/// A segment record carried by the line-segment index: the canonical
/// position of the segment among all reference segments, the position of
/// the line it came from, the segment's slope, and its two endpoints.
#[derive(Clone, Copy, Debug, PartialEq, Eq, Structural)]
pub struct SegEntry {
    pub id: usize,
    pub line: usize,
    pub slope: u64,
    pub seg: Segment,
}

/// An R-tree over whole geometries: each entry is the cached envelope of a
/// geometry and its position in the source collection.
#[verifier::external_body]
pub struct GeomIndex {
    tree: rstar::RTree<
        rstar::primitives::GeomWithData<
            rstar::primitives::Rectangle<geo_types::Coord>,
            (Envelope, usize),
        >,
    >,
}

/// What the geometry index holds.
pub uninterp spec fn geom_index_entries(t: GeomIndex) -> Multiset<(Envelope, usize)>;

/// An R-tree over elementary segments: each entry is the cached envelope
/// of a segment and its record.
#[verifier::external_body]
pub struct SegIndex {
    tree: rstar::RTree<
        rstar::primitives::GeomWithData<
            rstar::primitives::Rectangle<geo_types::Coord>,
            (Envelope, SegEntry),
        >,
    >,
}

/// What the segment index holds.
pub uninterp spec fn seg_index_entries(t: SegIndex) -> Multiset<(Envelope, SegEntry)>;

/// Relies on `rstar::RTree::bulk_load` over `Rectangle` objects built from
/// the given well-formed envelopes: the tree holds exactly the given
/// entries.
#[verifier::external_body]
pub(crate) fn geom_index_build(entries: Vec<(Envelope, usize)>) -> (t: GeomIndex)
    requires
        forall|k: int| 0 <= k < entries@.len() ==> env_wf(#[trigger] entries@[k].0),
    ensures
        geom_index_entries(t) == entries@.to_multiset(),
{
    let f = <<geo_types::Coord as rstar::Point>::Scalar>::from_bits;
    let items = entries
        .into_iter()
        .map(|(e, d)| rstar::primitives::GeomWithData::new(
            rstar::primitives::Rectangle::from_corners(
                geo_types::Coord { x: f(e.min_x), y: f(e.min_y) },
                geo_types::Coord { x: f(e.max_x), y: f(e.max_y) },
            ),
            (e, d),
        ))
        .collect::<Vec<_>>();
    GeomIndex { tree: rstar::RTree::bulk_load(items) }
}

/// Relies on `rstar::RTree::locate_in_envelope_intersecting`: for an
/// ordered query envelope it returns exactly the entries whose envelope
/// intersects it, bounds included, in unspecified order.
#[verifier::external_body]
pub(crate) fn geom_index_query(t: &GeomIndex, q: &Envelope) -> (r: Vec<(Envelope, usize)>)
    ensures
        env_ordered(*q) ==> r@.to_multiset() == geom_index_entries(*t).filter(
            |p: (Envelope, usize)| envs_intersect(p.0, *q),
        ),
{
    let f = <<geo_types::Coord as rstar::Point>::Scalar>::from_bits;
    let aabb = rstar::AABB::from_corners(
        geo_types::Coord { x: f(q.min_x), y: f(q.min_y) },
        geo_types::Coord { x: f(q.max_x), y: f(q.max_y) },
    );
    t.tree.locate_in_envelope_intersecting(aabb).map(|it| it.data).collect()
}

/// Relies on `rstar::RTree::bulk_load` over `Rectangle` objects built from
/// the given well-formed envelopes: the tree holds exactly the given
/// entries.
#[verifier::external_body]
pub(crate) fn seg_index_build(entries: Vec<(Envelope, SegEntry)>) -> (t: SegIndex)
    requires
        forall|k: int| 0 <= k < entries@.len() ==> env_wf(#[trigger] entries@[k].0),
    ensures
        seg_index_entries(t) == entries@.to_multiset(),
{
    let f = <<geo_types::Coord as rstar::Point>::Scalar>::from_bits;
    let items = entries
        .into_iter()
        .map(|(e, d)| rstar::primitives::GeomWithData::new(
            rstar::primitives::Rectangle::from_corners(
                geo_types::Coord { x: f(e.min_x), y: f(e.min_y) },
                geo_types::Coord { x: f(e.max_x), y: f(e.max_y) },
            ),
            (e, d),
        ))
        .collect::<Vec<_>>();
    SegIndex { tree: rstar::RTree::bulk_load(items) }
}

/// Relies on `rstar::RTree::locate_in_envelope_intersecting`: for an
/// ordered query envelope it returns exactly the entries whose envelope
/// intersects it, bounds included, in unspecified order.
#[verifier::external_body]
pub(crate) fn seg_index_query(t: &SegIndex, q: &Envelope) -> (r: Vec<(Envelope, SegEntry)>)
    ensures
        env_ordered(*q) ==> r@.to_multiset() == seg_index_entries(*t).filter(
            |p: (Envelope, SegEntry)| envs_intersect(p.0, *q),
        ),
{
    let f = <<geo_types::Coord as rstar::Point>::Scalar>::from_bits;
    let aabb = rstar::AABB::from_corners(
        geo_types::Coord { x: f(q.min_x), y: f(q.min_y) },
        geo_types::Coord { x: f(q.max_x), y: f(q.max_y) },
    );
    t.tree.locate_in_envelope_intersecting(aabb).map(|it| it.data).collect()
}

} // verus!
