//! Axis-aligned envelopes (minimum bounding rectangles).
//!
//! The envelope of a geometry is the componentwise minimum and maximum of
//! its coordinates, computed once and cached beside the geometry when an
//! index is built.  For geometries whose coordinates are all numbers the
//! envelope is well formed (each minimum at most its maximum) and contains
//! every coordinate, boundary included.

use vstd::prelude::*;
use crate::fbits::{le_bits, lt_bits, numeric, fnan, fle, flt};
use crate::geom::{Coord, Shape, ShapeView};

verus! {

/// An axis-aligned rectangle `[min_x, min_y] x [max_x, max_y]`.
#[derive(Clone, Copy, Debug, PartialEq, Eq, Structural)]
pub struct Envelope {
    pub min_x: u64,
    pub min_y: u64,
    pub max_x: u64,
    pub max_y: u64,
}

/// An ordered envelope: each minimum is at most its maximum.
pub open spec fn env_ordered(e: Envelope) -> bool {
    &&& le_bits(e.min_x, e.max_x)
    &&& le_bits(e.min_y, e.max_y)
}

/// A well-formed envelope: all sides are numbers and each minimum is at
/// most its maximum.  Degenerate (zero-width or zero-height) envelopes are
/// well formed.
pub open spec fn env_wf(e: Envelope) -> bool {
    &&& numeric(e.min_x)
    &&& numeric(e.min_y)
    &&& numeric(e.max_x)
    &&& numeric(e.max_y)
    &&& env_ordered(e)
}

/// The coordinate lies within the envelope, boundary included.
pub open spec fn env_contains_coord(e: Envelope, c: Coord) -> bool {
    &&& le_bits(e.min_x, c.x)
    &&& le_bits(c.x, e.max_x)
    &&& le_bits(e.min_y, c.y)
    &&& le_bits(c.y, e.max_y)
}

/// Two envelopes intersect, boundaries included: each minimum is at most
/// the other's maximum in both dimensions.
pub open spec fn envs_intersect(a: Envelope, b: Envelope) -> bool {
    &&& le_bits(a.min_x, b.max_x)
    &&& le_bits(b.min_x, a.max_x)
    &&& le_bits(a.min_y, b.max_y)
    &&& le_bits(b.min_y, a.max_y)
}

/// The smaller of two scalars, keeping the first on ties or unordered
/// operands.
pub open spec fn smin(m: u64, c: u64) -> u64 {
    if lt_bits(c, m) {
        c
    } else {
        m
    }
}

/// The larger of two scalars, keeping the first on ties or unordered
/// operands.
pub open spec fn smax(m: u64, c: u64) -> u64 {
    if lt_bits(m, c) {
        c
    } else {
        m
    }
}

/// The envelope of a single coordinate.
pub open spec fn env_single(c: Coord) -> Envelope {
    Envelope { min_x: c.x, min_y: c.y, max_x: c.x, max_y: c.y }
}

/// The envelope grown to take one more coordinate in.
pub open spec fn env_add(e: Envelope, c: Coord) -> Envelope {
    Envelope {
        min_x: smin(e.min_x, c.x),
        min_y: smin(e.min_y, c.y),
        max_x: smax(e.max_x, c.x),
        max_y: smax(e.max_y, c.y),
    }
}

/// The envelope of a non-empty coordinate sequence: the fold of `env_add`
/// over the sequence.
pub open spec fn env_of_coords(s: Seq<Coord>) -> Envelope
    recommends
        s.len() > 0,
    decreases s.len(),
{
    if s.len() <= 1 {
        env_single(s[0])
    } else {
        env_add(env_of_coords(s.drop_last()), s.last())
    }
}

/// Both components of the coordinate are numbers.
pub open spec fn coord_numeric(c: Coord) -> bool {
    numeric(c.x) && numeric(c.y)
}

/// Every coordinate of the sequence is a pair of numbers.
pub open spec fn all_numeric(s: Seq<Coord>) -> bool {
    forall|k: int| 0 <= k < s.len() ==> coord_numeric(#[trigger] s[k])
}

/// The concatenation of a sequence of coordinate sequences.
pub open spec fn concat2(s: Seq<Seq<Coord>>) -> Seq<Coord>
    decreases s.len(),
{
    if s.len() == 0 {
        Seq::empty()
    } else {
        concat2(s.drop_last()) + s.last()
    }
}

/// The concatenation of a sequence of sequences of coordinate sequences.
pub open spec fn concat3(s: Seq<Seq<Seq<Coord>>>) -> Seq<Coord>
    decreases s.len(),
{
    if s.len() == 0 {
        Seq::empty()
    } else {
        concat3(s.drop_last()) + concat2(s.last())
    }
}

/// All coordinates of a geometry, in order of appearance.
pub open spec fn coords_of(v: ShapeView) -> Seq<Coord> {
    match v {
        ShapeView::Point(c) => seq![c],
        ShapeView::MultiPoint(s) => s,
        ShapeView::LineString(s) => s,
        ShapeView::MultiLineString(s) => concat2(s),
        ShapeView::Polygon(s) => concat2(s),
        ShapeView::MultiPolygon(s) => concat3(s),
    }
}

/// Appends a coordinate list to the accumulating flat list.
fn push_coords(dst: &mut Vec<Coord>, src: &Vec<Coord>)
    ensures
        final(dst)@ == old(dst)@ + src@,
{
    let mut k: usize = 0;
    while k < src.len()
        invariant
            k <= src@.len(),
            dst@ == old(dst)@ + src@.take(k as int),
        decreases src@.len() - k,
    {
        dst.push(src[k]);
        proof {
            assert(src@.take(k as int + 1).drop_last() =~= src@.take(k as int));
            assert(dst@ =~= old(dst)@ + src@.take(k as int + 1));
        }
        k += 1;
    }
    proof {
        assert(src@.take(src@.len() as int) =~= src@);
    }
}

/// Appends every ring's coordinates to the accumulating flat list.
fn push_rings(dst: &mut Vec<Coord>, rings: &Vec<Vec<Coord>>)
    ensures
        final(dst)@ == old(dst)@ + concat2(crate::geom::rings_view(rings@)),
{
    let ghost rv = crate::geom::rings_view(rings@);
    let mut k: usize = 0;
    while k < rings.len()
        invariant
            k <= rings@.len(),
            rv == crate::geom::rings_view(rings@),
            dst@ == old(dst)@ + concat2(rv.take(k as int)),
        decreases rings@.len() - k,
    {
        push_coords(dst, &rings[k]);
        proof {
            assert(rv.take(k as int + 1).drop_last() =~= rv.take(k as int));
            assert(rv.take(k as int + 1).last() == rings@[k as int]@);
            assert(dst@ =~= old(dst)@ + concat2(rv.take(k as int + 1)));
        }
        k += 1;
    }
    proof {
        assert(rv.take(rv.len() as int) =~= rv);
    }
}

/// All coordinates of a shape as one flat list, in order of appearance.
pub fn flatten_shape(s: &Shape) -> (r: Vec<Coord>)
    ensures
        r@ == coords_of(s@),
{
    let mut flat: Vec<Coord> = Vec::new();
    match s {
        Shape::Point(c) => {
            flat.push(*c);
            proof {
                assert(flat@ =~= coords_of(s@));
            }
        },
        Shape::MultiPoint(v) => {
            push_coords(&mut flat, v);
        },
        Shape::LineString(v) => {
            push_coords(&mut flat, v);
        },
        Shape::MultiLineString(v) => {
            push_rings(&mut flat, v);
        },
        Shape::Polygon(v) => {
            push_rings(&mut flat, v);
        },
        Shape::MultiPolygon(v) => {
            let ghost pv = crate::geom::polys_view(v@);
            let mut k: usize = 0;
            while k < v.len()
                invariant
                    k <= v@.len(),
                    pv == crate::geom::polys_view(v@),
                    flat@ == concat3(pv.take(k as int)),
                decreases v@.len() - k,
            {
                push_rings(&mut flat, &v[k]);
                proof {
                    assert(pv.take(k as int + 1).drop_last() =~= pv.take(k as int));
                    assert(pv.take(k as int + 1).last() == crate::geom::rings_view(v@[k as int]@));
                    assert(flat@ =~= concat3(pv.take(k as int + 1)));
                }
                k += 1;
            }
            proof {
                assert(pv.take(pv.len() as int) =~= pv);
            }
        },
    }
    flat
}

/// The envelope of a shape: `None` when the shape has no coordinates at
/// all, otherwise the fold of the componentwise minima and maxima.
///
/// Envelope containment: when every coordinate of the shape is a number,
/// the computed envelope is well formed and contains every coordinate of
/// the shape, boundary included.
pub fn shape_envelope(s: &Shape) -> (r: Option<Envelope>)
    ensures
        r is Some <==> coords_of(s@).len() > 0,
        r is Some ==> r == Some(env_of_coords(coords_of(s@))),
        r is Some && all_numeric(coords_of(s@)) ==> {
            &&& env_wf(r->Some_0)
            &&& forall|k: int|
                0 <= k < coords_of(s@).len() ==> env_contains_coord(
                    r->Some_0,
                    coords_of(s@)[k],
                )
        },
{
    let flat = flatten_shape(s);
    envelope_of_coords(&flat)
}

/// The envelope of a flat coordinate list, with the same containment
/// guarantee as `shape_envelope`.
pub fn envelope_of_coords(flat: &Vec<Coord>) -> (r: Option<Envelope>)
    ensures
        r is Some <==> flat@.len() > 0,
        r is Some ==> r == Some(env_of_coords(flat@)),
        r is Some && all_numeric(flat@) ==> {
            &&& env_wf(r->Some_0)
            &&& forall|k: int| 0 <= k < flat@.len() ==> env_contains_coord(r->Some_0, flat@[k])
        },
{
    if flat.len() == 0 {
        return None;
    }
    let c0 = flat[0];
    let _n0x = fnan(c0.x);
    let _n0y = fnan(c0.y);
    let mut e = Envelope { min_x: c0.x, min_y: c0.y, max_x: c0.x, max_y: c0.y };
    proof {
        assert(flat@.take(1int) =~= seq![c0]);
        assert(env_of_coords(flat@.take(1int)) == env_single(c0));
        if all_numeric(flat@.take(1int)) {
            assert(coord_numeric(flat@.take(1int)[0]));
            assert(env_wf(e));
            assert(forall|k: int| 0 <= k < 1 ==> env_contains_coord(e, flat@[k]));
        }
    }
    let mut i: usize = 1;
    while i < flat.len()
        invariant
            1 <= i <= flat@.len(),
            flat@.len() > 0,
            c0 == flat@[0],
            e == env_of_coords(flat@.take(i as int)),
            all_numeric(flat@.take(i as int)) ==> {
                &&& env_wf(e)
                &&& forall|k: int| 0 <= k < i ==> env_contains_coord(e, flat@[k])
            },
        decreases flat@.len() - i,
    {
        let c = flat[i];
        let _nx = fnan(c.x);
        let _ny = fnan(c.y);
        let lt_min_x = flt(c.x, e.min_x);
        let lt_min_y = flt(c.y, e.min_y);
        let lt_max_x = flt(e.max_x, c.x);
        let lt_max_y = flt(e.max_y, c.y);
        let next = Envelope {
            min_x: if lt_min_x {
                c.x
            } else {
                e.min_x
            },
            min_y: if lt_min_y {
                c.y
            } else {
                e.min_y
            },
            max_x: if lt_max_x {
                c.x
            } else {
                e.max_x
            },
            max_y: if lt_max_y {
                c.y
            } else {
                e.max_y
            },
        };
        proof {
            assert(flat@.take(i as int + 1).drop_last() =~= flat@.take(i as int));
            assert(flat@.take(i as int + 1).last() == flat@[i as int]);
            assert(next == env_add(e, c));
            if all_numeric(flat@.take(i as int + 1)) {
                assert forall|k: int| 0 <= k <= i implies coord_numeric(#[trigger] flat@[k]) by {
                    assert(flat@.take(i as int + 1)[k] == flat@[k]);
                }
                assert forall|k: int|
                    0 <= k < i implies coord_numeric(#[trigger] flat@.take(i as int)[k]) by {
                    assert(flat@.take(i as int)[k] == flat@[k]);
                }
                assert(all_numeric(flat@.take(i as int)));
                assert(env_wf(e));
                assert forall|k: int| 0 <= k < i implies env_contains_coord(
                    next,
                    flat@[k],
                ) by {
                    assert(env_contains_coord(e, flat@[k]));
                    assert(coord_numeric(flat@[k]));
                }
                assert(env_contains_coord(next, c)) by {
                    assert(coord_numeric(c));
                }
                assert(env_wf(next));
            }
        }
        e = next;
        i += 1;
    }
    proof {
        assert(flat@.take(flat@.len() as int) =~= flat@);
    }
    Some(e)
}

impl crate::geom::Geom {
    /// The envelope of the geometry: `None` when it has no coordinates.
    pub fn envelope(&self) -> (r: Option<Envelope>)
        ensures
            r is Some <==> coords_of(self@).len() > 0,
            r is Some ==> r == Some(env_of_coords(coords_of(self@))),
            r is Some && all_numeric(coords_of(self@)) ==> {
                &&& env_wf(r->Some_0)
                &&& forall|k: int|
                    0 <= k < coords_of(self@).len() ==> env_contains_coord(
                        r->Some_0,
                        coords_of(self@)[k],
                    )
            },
    {
        shape_envelope(self.shape())
    }
}

/// Checks that an envelope is ordered.
pub fn env_ordered_check(e: &Envelope) -> (r: bool)
    ensures
        r == env_ordered(*e),
{
    fle(e.min_x, e.max_x) && fle(e.min_y, e.max_y)
}

/// Checks well-formedness of an envelope.
pub fn env_wf_check(e: &Envelope) -> (r: bool)
    ensures
        r == env_wf(*e),
{
    let n1 = fnan(e.min_x);
    let n2 = fnan(e.min_y);
    let n3 = fnan(e.max_x);
    let n4 = fnan(e.max_y);
    if n1 || n2 || n3 || n4 {
        return false;
    }
    fle(e.min_x, e.max_x) && fle(e.min_y, e.max_y)
}

} // verus!
