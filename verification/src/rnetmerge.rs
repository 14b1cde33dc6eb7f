//! Network conflation.
//!
//! Two line networks are matched segment by segment: every linestring of
//! the reference network `x` is decomposed into elementary two-point
//! segments which are bulk-loaded, with their slopes, into a spatial
//! index; every elementary segment of the target network `y` then queries
//! that index within an envelope padded by half the distance threshold,
//! filters the candidates by slope tolerance, envelope overlap and exact
//! distance, and accumulates an estimated shared length per
//! (reference line, target line) pair.

use vstd::prelude::*;
use crate::fbits::{
    add_canon, sub_canon, mul_canon, div_canon, sqrt_canon, abs_bits, le_bits, lt_bits, eq_bits,
    numeric, nan_bits, fadd, fsub, fmul, fdiv, fsqrt, fabs, fle, flt, feq, fnan, POS_ZERO_BITS,
    NEG_ZERO_BITS, ONE_BITS,
};
use crate::envelope::{
    Envelope, env_wf, env_ordered, envs_intersect, env_single, env_add, env_wf_check,
    env_ordered_check,
};
use crate::geom::{Coord, Segment, Geom, Shape, ShapeView};
use crate::spatial_index::{SegEntry, SegIndex, seg_index_entries, seg_index_build, seg_index_query};

verus! {

/// The bits of the double 2, the divisor of the envelope padding.
pub const TWO_BITS: u64 = 0x4000000000000000;

/// One row of the conflation result: 1-based reference line position,
/// 1-based target line position, and the accumulated shared length.
#[derive(Clone, Copy, Debug, PartialEq, Eq, Structural)]
pub struct MatchRow {
    pub i: usize,
    pub j: usize,
    pub shared_len: u64,
}

/// The slope of a segment: rise over run.  Vertical segments give an
/// infinity, degenerate ones a NaN; neither is an error.
pub open spec fn slope_of(s: Segment) -> u64 {
    div_canon(sub_canon(s.b.y, s.a.y), sub_canon(s.b.x, s.a.x))
}

/// The envelope of a segment's two endpoints.
pub open spec fn seg_env(s: Segment) -> Envelope {
    env_add(env_single(s.a), s.b)
}

/// The envelope grown by the padding radius on all four sides.
pub open spec fn pad_env(e: Envelope, half: u64) -> Envelope {
    Envelope {
        min_x: sub_canon(e.min_x, half),
        min_y: sub_canon(e.min_y, half),
        max_x: add_canon(e.max_x, half),
        max_y: add_canon(e.max_y, half),
    }
}

/// The larger of two range ends, ignoring a NaN operand as the standard
/// maximum of doubles does; on ties (equal values, including a positive
/// against a negative zero) the first is kept.
pub open spec fn omax(a: u64, b: u64) -> u64 {
    if nan_bits(a) {
        b
    } else if nan_bits(b) {
        a
    } else if lt_bits(a, b) {
        b
    } else {
        a
    }
}

/// The smaller of two range ends, ignoring a NaN operand; on ties the
/// first is kept.
pub open spec fn omin(a: u64, b: u64) -> u64 {
    if nan_bits(a) {
        b
    } else if nan_bits(b) {
        a
    } else if lt_bits(b, a) {
        b
    } else {
        a
    }
}

/// The overlap of two scalar ranges: `None` when one ends strictly
/// before the other starts, otherwise the range from the larger start to
/// the smaller end, NaN ends ignored by the bound picks.
pub open spec fn overlap_of(a: (u64, u64), b: (u64, u64)) -> Option<(u64, u64)> {
    if lt_bits(a.1, b.0) || lt_bits(b.1, a.0) {
        None
    } else {
        Some((omax(a.0, b.0), omin(a.1, b.1)))
    }
}

/// The horizontal extent of an envelope.
pub open spec fn x_range_of(e: Envelope) -> (u64, u64) {
    (e.min_x, e.max_x)
}

/// The vertical extent of an envelope.
pub open spec fn y_range_of(e: Envelope) -> (u64, u64) {
    (e.min_y, e.max_y)
}

/// The width and height of an envelope.
pub open spec fn wh_of(e: Envelope) -> (u64, u64) {
    (sub_canon(e.max_x, e.min_x), sub_canon(e.max_y, e.min_y))
}

/// The extent of a range.
pub open spec fn extent_of(r: (u64, u64)) -> u64 {
    sub_canon(r.1, r.0)
}

/// The run reconstructed from the rise by the similar-triangles ratio of
/// the candidate's own bounding box.
pub open spec fn solve_dx_of(dy: u64, base_w: u64, base_h: u64) -> u64 {
    div_canon(mul_canon(dy, base_w), base_h)
}

/// The hypotenuse of the reconstructed right triangle.
pub open spec fn solve_h_of(dx: u64, dy: u64) -> u64 {
    sqrt_canon(add_canon(mul_canon(dx, dx), mul_canon(dy, dy)))
}

/// The bits denote a zero double (of either sign).
pub open spec fn zero_bits(a: u64) -> bool {
    a == POS_ZERO_BITS || a == NEG_ZERO_BITS
}

/// A sane scalar range: if both ends are numbers they are ordered.  A
/// range with a NaN end makes no ordering claim.
pub open spec fn range_ok(lo: u64, hi: u64) -> bool {
    numeric(lo) && numeric(hi) ==> le_bits(lo, hi)
}

/// A sane optional overlap range.
pub open spec fn ov_ok(o: Option<(u64, u64)>) -> bool {
    match o {
        Some(p) => range_ok(p.0, p.1),
        None => true,
    }
}

/// A well-signed shared length: a number at least +0, or the NaN that
/// non-finite coordinates can produce.
pub open spec fn shared_len_ok(b: u64) -> bool {
    nan_bits(b) || le_bits(POS_ZERO_BITS, b)
}

/// Every accumulated shared length is well signed.
pub open spec fn acc_lens_ok(acc: Seq<Seq<(usize, u64)>>) -> bool {
    forall|li: int, k: int|
        0 <= li < acc.len() && 0 <= k < acc[li].len() ==> shared_len_ok(
            (#[trigger] acc[li][k]).1,
        )
}

/// The estimated shared length of the overlap region against the
/// candidate's bounding box `bbox`.
///
/// With overlap in both dimensions the vertical extent is scaled through
/// the candidate's own width/height ratio and the hypotenuse is
/// returned; a zero-height candidate box would make that ratio a
/// division by zero, so it falls back to the horizontal branch.  With
/// overlap in one dimension alone, that overlap's extent is returned.
pub open spec fn shared_len_of(
    xov: Option<(u64, u64)>,
    yov: Option<(u64, u64)>,
    bbox: Envelope,
) -> u64
    recommends
        xov is Some || yov is Some,
{
    if xov is Some && yov is Some && !zero_bits(wh_of(bbox).1) {
        let dy = extent_of(yov->0);
        solve_h_of(solve_dx_of(dy, wh_of(bbox).0, wh_of(bbox).1), dy)
    } else if xov is Some {
        extent_of(xov->0)
    } else {
        extent_of(yov->0)
    }
}

/// The elementary segments of a line: one per adjacent coordinate pair.
pub open spec fn line_segs(line: Seq<Coord>) -> Seq<Segment>
    decreases line.len(),
{
    if line.len() < 2 {
        Seq::empty()
    } else {
        line_segs(line.drop_last()).push(
            Segment { a: line[line.len() - 2], b: line[line.len() - 1] },
        )
    }
}

/// The segment records of one line, starting at a given record number.
pub open spec fn line_entries(line: Seq<Coord>, owner: usize, base: int) -> Seq<SegEntry> {
    Seq::new(
        line_segs(line).len(),
        |k: int|
            SegEntry {
                id: (base + k) as usize,
                line: owner,
                slope: slope_of(line_segs(line)[k]),
                seg: line_segs(line)[k],
            },
    )
}

/// The segment records of a whole network, in line order, numbered
/// consecutively from zero.
pub open spec fn seg_entries_of(x: Seq<Seq<Coord>>) -> Seq<SegEntry>
    decreases x.len(),
{
    if x.len() == 0 {
        Seq::empty()
    } else {
        let rest = seg_entries_of(x.drop_last());
        rest + line_entries(x.last(), (x.len() - 1) as usize, rest.len() as int)
    }
}

/// The index entries of the segment records: the cached envelope beside
/// each record whose envelope is well formed.
pub open spec fn tree_entry_seq(xsegs: Seq<SegEntry>) -> Seq<(Envelope, SegEntry)>
    decreases xsegs.len(),
{
    if xsegs.len() == 0 {
        Seq::empty()
    } else {
        let rest = tree_entry_seq(xsegs.drop_last());
        let e = xsegs.last();
        if env_wf(seg_env(e.seg)) {
            rest.push((seg_env(e.seg), e))
        } else {
            rest
        }
    }
}

/// A stored segment record is a broad-phase candidate of a padded query
/// envelope: its envelope is well formed and intersects it.
pub open spec fn broad_cand(e: SegEntry, pe: Envelope) -> bool {
    &&& env_wf(seg_env(e.seg))
    &&& envs_intersect(seg_env(e.seg), pe)
}

/// The horizontal overlap of a candidate's and a query segment's boxes.
pub open spec fn xov_of(e: SegEntry, s: Segment) -> Option<(u64, u64)> {
    overlap_of(x_range_of(seg_env(e.seg)), x_range_of(seg_env(s)))
}

/// The vertical overlap of a candidate's and a query segment's boxes.
pub open spec fn yov_of(e: SegEntry, s: Segment) -> Option<(u64, u64)> {
    overlap_of(y_range_of(seg_env(e.seg)), y_range_of(seg_env(s)))
}

/// A candidate record matches a query segment: it survives the broad
/// phase, its slope differs from the query's by strictly less than the
/// tolerance, the two boxes overlap in some dimension, and the exact
/// distance between the segments is at most the threshold.
pub open spec fn cand_match(e: SegEntry, s: Segment, pe: Envelope, dist: u64, tol: u64) -> bool {
    &&& broad_cand(e, pe)
    &&& lt_bits(abs_bits(sub_canon(e.slope, slope_of(s))), tol)
    &&& (xov_of(e, s) is Some || yov_of(e, s) is Some)
    &&& le_bits(seg_distance_of(e.seg, s), dist)
}

/// The shared-length contribution of a matching candidate.
pub open spec fn contribution(e: SegEntry, s: Segment) -> u64 {
    shared_len_of(xov_of(e, s), yov_of(e, s), seg_env(e.seg))
}

/// Whether two segments intersect, by the geometry library's robust
/// segment-intersection predicate: a deterministic function of the
/// endpoints.
pub uninterp spec fn segs_intersect_of(a: Segment, b: Segment) -> bool;

/// Relies on `geo::Intersects` for two `geo_types::Line` values built
/// from the endpoints: the robust, total segment-intersection predicate.
#[verifier::external_body]
fn segs_intersect(a: &Segment, b: &Segment) -> (r: bool)
    ensures
        r == segs_intersect_of(*a, *b),
{
    let f = <<geo_types::Coord as rstar::Point>::Scalar>::from_bits;
    let la = geo_types::Line::new((f(a.a.x), f(a.a.y)), (f(a.b.x), f(a.b.y)));
    let lb = geo_types::Line::new((f(b.a.x), f(b.a.y)), (f(b.b.x), f(b.b.y)));
    geo::Intersects::intersects(&la, &lb)
}

/// The squared distance between two coordinates.
pub open spec fn len2_of(p: Coord, q: Coord) -> u64 {
    add_canon(
        mul_canon(sub_canon(q.x, p.x), sub_canon(q.x, p.x)),
        mul_canon(sub_canon(q.y, p.y), sub_canon(q.y, p.y)),
    )
}

/// The squared distance from a coordinate to a segment, computed as the
/// geometry library computes it: the squared distance to the nearer
/// endpoint when the point projects outside the segment, else the squared
/// perpendicular distance.
pub open spec fn point_seg_dist2_of(p: Coord, s: Segment) -> u64 {
    if eq_bits(s.a.x, s.b.x) && eq_bits(s.a.y, s.b.y) {
        len2_of(p, s.a)
    } else {
        let dx = sub_canon(s.b.x, s.a.x);
        let dy = sub_canon(s.b.y, s.a.y);
        let d2 = add_canon(mul_canon(dx, dx), mul_canon(dy, dy));
        let r = div_canon(
            add_canon(
                mul_canon(sub_canon(p.x, s.a.x), dx),
                mul_canon(sub_canon(p.y, s.a.y), dy),
            ),
            d2,
        );
        if le_bits(r, POS_ZERO_BITS) {
            len2_of(p, s.a)
        } else if le_bits(ONE_BITS, r) {
            len2_of(p, s.b)
        } else {
            let n = sub_canon(
                mul_canon(sub_canon(s.a.y, p.y), dx),
                mul_canon(sub_canon(s.a.x, p.x), dy),
            );
            div_canon(mul_canon(n, n), d2)
        }
    }
}

/// The exact distance between two segments: zero when they intersect,
/// else the root of the least squared endpoint-to-segment distance, as
/// the geometry library computes it but from IEEE-exact parts.
pub open spec fn seg_distance_of(a: Segment, b: Segment) -> u64 {
    if segs_intersect_of(a, b) {
        POS_ZERO_BITS
    } else {
        sqrt_canon(
            crate::envelope::smin(
                crate::envelope::smin(
                    crate::envelope::smin(point_seg_dist2_of(a.a, b), point_seg_dist2_of(a.b, b)),
                    point_seg_dist2_of(b.a, a),
                ),
                point_seg_dist2_of(b.b, a),
            ),
        )
    }
}

/// The squared distance between two coordinates.
fn len2(p: Coord, q: Coord) -> (r: u64)
    ensures
        r == len2_of(p, q),
{
    let ex = fsub(q.x, p.x);
    let ey = fsub(q.y, p.y);
    fadd(fmul(ex, ex), fmul(ey, ey))
}

/// The squared distance from a coordinate to a segment.
fn point_seg_dist2(p: Coord, s: &Segment) -> (r: u64)
    ensures
        r == point_seg_dist2_of(p, *s),
{
    if feq(s.a.x, s.b.x) && feq(s.a.y, s.b.y) {
        return len2(p, s.a);
    }
    let dx = fsub(s.b.x, s.a.x);
    let dy = fsub(s.b.y, s.a.y);
    let d2 = fadd(fmul(dx, dx), fmul(dy, dy));
    let r = fdiv(
        fadd(fmul(fsub(p.x, s.a.x), dx), fmul(fsub(p.y, s.a.y), dy)),
        d2,
    );
    if fle(r, POS_ZERO_BITS) {
        len2(p, s.a)
    } else if fle(ONE_BITS, r) {
        len2(p, s.b)
    } else {
        let n = fsub(
            fmul(fsub(s.a.y, p.y), dx),
            fmul(fsub(s.a.x, p.x), dy),
        );
        fdiv(fmul(n, n), d2)
    }
}

/// The exact distance between two segments (see `seg_distance_of`).
pub(crate) fn seg_distance(a: &Segment, b: &Segment) -> (r: u64)
    ensures
        r == seg_distance_of(*a, *b),
{
    if segs_intersect(a, b) {
        return POS_ZERO_BITS;
    }
    let d1 = point_seg_dist2(a.a, b);
    let d2 = point_seg_dist2(a.b, b);
    let d3 = point_seg_dist2(b.a, a);
    let d4 = point_seg_dist2(b.b, a);
    let mut m = d1;
    if flt(d2, m) {
        m = d2;
    }
    if flt(d3, m) {
        m = d3;
    }
    if flt(d4, m) {
        m = d4;
    }
    fsqrt(m)
}

/// The first position of the target index in an accumulator row, or -1.
pub open spec fn find_target(row: Seq<(usize, u64)>, j1: usize) -> int
    decreases row.len(),
{
    if row.len() == 0 {
        -1
    } else if row[0].0 == j1 {
        0
    } else {
        let r = find_target(row.drop_first(), j1);
        if r < 0 {
            -1
        } else {
            r + 1
        }
    }
}

/// One accumulation step: the contribution `v` of target line `j1` is
/// added to its entry of reference row `li`, or a new entry is appended.
pub open spec fn upsert(
    acc: Seq<Seq<(usize, u64)>>,
    li: int,
    j1: usize,
    v: u64,
) -> Seq<Seq<(usize, u64)>>
    recommends
        0 <= li < acc.len(),
{
    let row = acc[li];
    let k = find_target(row, j1);
    if k >= 0 {
        acc.update(li, row.update(k, (j1, add_canon(row[k].1, v))))
    } else {
        acc.update(li, row.push((j1, v)))
    }
}

/// The accumulator after the first `n` segment records have been held
/// against one query segment.
pub open spec fn acc_ids(
    acc: Seq<Seq<(usize, u64)>>,
    xsegs: Seq<SegEntry>,
    s: Segment,
    pe: Envelope,
    j1: usize,
    dist: u64,
    tol: u64,
    n: int,
) -> Seq<Seq<(usize, u64)>>
    decreases n,
{
    if n <= 0 {
        acc
    } else {
        let a = acc_ids(acc, xsegs, s, pe, j1, dist, tol, n - 1);
        let e = xsegs[n - 1];
        if cand_match(e, s, pe, dist, tol) {
            upsert(a, e.line as int, j1, contribution(e, s))
        } else {
            a
        }
    }
}

/// The accumulator after one query segment: its padded envelope is
/// queried and, when ordered, every stored record is held against it.
pub open spec fn acc_segment(
    acc: Seq<Seq<(usize, u64)>>,
    xsegs: Seq<SegEntry>,
    s: Segment,
    j1: usize,
    dist: u64,
    tol: u64,
    half: u64,
) -> Seq<Seq<(usize, u64)>> {
    let pe = pad_env(seg_env(s), half);
    if env_ordered(pe) {
        acc_ids(acc, xsegs, s, pe, j1, dist, tol, xsegs.len() as int)
    } else {
        acc
    }
}

/// The accumulator after the first `k` segments of one target line.
pub open spec fn acc_line(
    acc: Seq<Seq<(usize, u64)>>,
    xsegs: Seq<SegEntry>,
    line: Seq<Coord>,
    j1: usize,
    dist: u64,
    tol: u64,
    half: u64,
    k: int,
) -> Seq<Seq<(usize, u64)>>
    decreases k,
{
    if k <= 0 {
        acc
    } else {
        let a = acc_line(acc, xsegs, line, j1, dist, tol, half, k - 1);
        acc_segment(a, xsegs, line_segs(line)[k - 1], j1, dist, tol, half)
    }
}

/// The accumulator after the first `j` target lines.
pub open spec fn acc_net(
    acc: Seq<Seq<(usize, u64)>>,
    xsegs: Seq<SegEntry>,
    y: Seq<Seq<Coord>>,
    dist: u64,
    tol: u64,
    half: u64,
    j: int,
) -> Seq<Seq<(usize, u64)>>
    decreases j,
{
    if j <= 0 {
        acc
    } else {
        let a = acc_net(acc, xsegs, y, dist, tol, half, j - 1);
        acc_line(a, xsegs, y[j - 1], (j - 1 + 1) as usize, dist, tol, half, line_segs(y[j - 1]).len() as int)
    }
}

/// An accumulator of empty rows, one per reference line.
pub open spec fn empty_acc(n: int) -> Seq<Seq<(usize, u64)>> {
    Seq::new(n as nat, |i: int| Seq::<(usize, u64)>::empty())
}

/// The whole conflation, as an accumulator: one row per reference line,
/// holding (1-based target position, summed shared length) pairs in
/// first-match order.
pub open spec fn conflate_acc(
    x: Seq<Seq<Coord>>,
    y: Seq<Seq<Coord>>,
    dist: u64,
    tol: u64,
) -> Seq<Seq<(usize, u64)>> {
    let xsegs = seg_entries_of(x);
    let half = div_canon(dist, TWO_BITS);
    acc_net(empty_acc(x.len() as int), xsegs, y, dist, tol, half, y.len() as int)
}

/// The result rows of an accumulator: reference positions ascending and
/// 1-based, each row's targets in first-match order.
pub open spec fn rows_of(acc: Seq<Seq<(usize, u64)>>) -> Seq<MatchRow>
    decreases acc.len(),
{
    if acc.len() == 0 {
        Seq::empty()
    } else {
        rows_of(acc.drop_last()) + Seq::new(
            acc.last().len(),
            |k: int|
                MatchRow {
                    i: (acc.len() - 1 + 1) as usize,
                    j: acc.last()[k].0,
                    shared_len: acc.last()[k].1,
                },
        )
    }
}

/// The coordinates of a linestring model.
pub open spec fn line_coords(v: ShapeView) -> Seq<Coord>
    recommends
        v is LineString,
{
    v->LineString_0
}

/// Every geometry of the collection is a linestring.
pub open spec fn all_linestrings(x: Seq<Geom>) -> bool {
    forall|i: int| 0 <= i < x.len() ==> (#[trigger] x[i]@) is LineString
}

/// The linestring models of a collection.
pub open spec fn lines_of(x: Seq<Geom>) -> Seq<Seq<Coord>> {
    Seq::new(x.len(), |i: int| line_coords(x[i]@))
}

/// The slope of a segment, rise over run.
pub fn slope(s: &Segment) -> (r: u64)
    ensures
        r == slope_of(*s),
{
    fdiv(fsub(s.b.y, s.a.y), fsub(s.b.x, s.a.x))
}

/// The envelope of a segment's two endpoints.  Along each axis, if both
/// sides of the result are numbers they are ordered.
pub fn segment_envelope(s: &Segment) -> (r: Envelope)
    ensures
        r == seg_env(*s),
        range_ok(r.min_x, r.max_x),
        range_ok(r.min_y, r.max_y),
{
    let _na_x = fnan(s.a.x);
    let _na_y = fnan(s.a.y);
    let _nb_x = fnan(s.b.x);
    let _nb_y = fnan(s.b.y);
    let lx = flt(s.b.x, s.a.x);
    let ly = flt(s.b.y, s.a.y);
    let gx = flt(s.a.x, s.b.x);
    let gy = flt(s.a.y, s.b.y);
    Envelope {
        min_x: if lx {
            s.b.x
        } else {
            s.a.x
        },
        min_y: if ly {
            s.b.y
        } else {
            s.a.y
        },
        max_x: if gx {
            s.b.x
        } else {
            s.a.x
        },
        max_y: if gy {
            s.b.y
        } else {
            s.a.y
        },
    }
}

/// The overlap of two scalar ranges.  Sane ranges overlap into a sane
/// range.
pub fn overlap_range(a: (u64, u64), b: (u64, u64)) -> (r: Option<(u64, u64)>)
    ensures
        r == overlap_of(a, b),
        range_ok(a.0, a.1) && range_ok(b.0, b.1) ==> ov_ok(r),
{
    if flt(a.1, b.0) || flt(b.1, a.0) {
        None
    } else {
        let lo = if fnan(a.0) {
            b.0
        } else if fnan(b.0) {
            a.0
        } else if flt(a.0, b.0) {
            b.0
        } else {
            a.0
        };
        let hi = if fnan(a.1) {
            b.1
        } else if fnan(b.1) {
            a.1
        } else if flt(b.1, a.1) {
            b.1
        } else {
            a.1
        };
        Some((lo, hi))
    }
}

/// The width and height of an envelope.
pub fn wh(e: &Envelope) -> (r: (u64, u64))
    ensures
        r == wh_of(*e),
{
    (fsub(e.max_x, e.min_x), fsub(e.max_y, e.min_y))
}

/// The extent of a range; for a sane range it is well signed.
pub fn solve_dy(r: (u64, u64)) -> (d: u64)
    ensures
        d == extent_of(r),
        range_ok(r.0, r.1) ==> shared_len_ok(d),
{
    fsub(r.1, r.0)
}

/// The run reconstructed from the rise by the candidate's own box ratio.
pub fn solve_dx(dy: u64, base_w: u64, base_h: u64) -> (d: u64)
    ensures
        d == solve_dx_of(dy, base_w, base_h),
{
    fdiv(fmul(dy, base_w), base_h)
}

/// The hypotenuse of the reconstructed right triangle: always well
/// signed.
pub fn solve_h(dx: u64, dy: u64) -> (h: u64)
    ensures
        h == solve_h_of(dx, dy),
        shared_len_ok(h),
{
    fsqrt(fadd(fmul(dx, dx), fmul(dy, dy)))
}

/// The estimated shared length of the overlap region (see
/// `shared_len_of`).
pub fn solve_segment_length(
    x_overlap: Option<(u64, u64)>,
    y_overlap: Option<(u64, u64)>,
    bbox: &Envelope,
) -> (r: u64)
    requires
        x_overlap is Some || y_overlap is Some,
    ensures
        r == shared_len_of(x_overlap, y_overlap, *bbox),
        ov_ok(x_overlap) && ov_ok(y_overlap) ==> shared_len_ok(r),
{
    let (base_w, base_h) = wh(bbox);
    match (x_overlap, y_overlap) {
        (Some(xo), Some(yo)) => {
            if base_h == POS_ZERO_BITS || base_h == NEG_ZERO_BITS {
                solve_dy(xo)
            } else {
                let dy = solve_dy(yo);
                let dx = solve_dx(dy, base_w, base_h);
                solve_h(dx, dy)
            }
        },
        (Some(xo), None) => solve_dy(xo),
        (None, Some(yo)) => solve_dy(yo),
        (None, None) => {
            proof {
                assert(false);
            }
            0
        },
    }
}


/// What the segments of a line are: one per adjacent coordinate pair,
/// in order.
pub proof fn lemma_line_segs(line: Seq<Coord>)
    ensures
        (line_segs(line).len() == if line.len() < 2 {
            0int
        } else {
            line.len() - 1
        }),
        forall|k: int|
            0 <= k < line_segs(line).len() ==> #[trigger] line_segs(line)[k] == (Segment {
                a: line[k],
                b: line[k + 1],
            }),
    decreases line.len(),
{
    if line.len() >= 2 {
        lemma_line_segs(line.drop_last());
        assert(forall|k: int| 0 <= k < line.len() - 1 ==> line.drop_last()[k] == line[k]);
    }
}

/// Segment records are numbered by their position, own a line of the
/// network, and carry that line's segments with their slopes.
pub proof fn lemma_seg_entries(x: Seq<Seq<Coord>>)
    requires
        x.len() <= usize::MAX,
        seg_entries_of(x).len() <= usize::MAX,
    ensures
        forall|k: int|
            0 <= k < seg_entries_of(x).len() ==> {
                let e = #[trigger] seg_entries_of(x)[k];
                &&& e.id == k
                &&& e.line < x.len()
                &&& e.slope == slope_of(e.seg)
            },
    decreases x.len(),
{
    if x.len() > 0 {
        let prev = x.drop_last();
        let rest = seg_entries_of(prev);
        let tail = line_entries(x.last(), (x.len() - 1) as usize, rest.len() as int);
        assert(seg_entries_of(x) == rest + tail);
        assert(rest.len() <= seg_entries_of(x).len());
        lemma_seg_entries(prev);
        assert forall|k: int|
            0 <= k < seg_entries_of(x).len() implies {
            let e = #[trigger] seg_entries_of(x)[k];
            &&& e.id == k
            &&& e.line < x.len()
            &&& e.slope == slope_of(e.seg)
        } by {
            if k < rest.len() {
                assert(seg_entries_of(x)[k] == rest[k]);
            } else {
                assert(seg_entries_of(x)[k] == tail[k - rest.len()]);
            }
        }
    }
}

/// What the index entry list holds: the records whose segment envelope
/// is well formed, each beside that envelope.
pub proof fn lemma_tree_entry_seq(xs: Seq<SegEntry>)
    requires
        forall|k: int| 0 <= k < xs.len() ==> (#[trigger] xs[k]).id == k,
    ensures
        forall|k: int|
            0 <= k < tree_entry_seq(xs).len() ==> {
                let p = #[trigger] tree_entry_seq(xs)[k];
                &&& p.1.id < xs.len()
                &&& xs[p.1.id as int] == p.1
                &&& p.0 == seg_env(p.1.seg)
                &&& env_wf(p.0)
            },
        forall|id: int|
            0 <= id < xs.len() && env_wf(seg_env((#[trigger] xs[id]).seg)) ==> tree_entry_seq(
                xs,
            ).contains((seg_env(xs[id].seg), xs[id])),
    decreases xs.len(),
{
    if xs.len() > 0 {
        let prev = xs.drop_last();
        lemma_tree_entry_seq(prev);
        let n = xs.len() - 1;
        let rest = tree_entry_seq(prev);
        let e = xs.last();
        assert(forall|k: int| 0 <= k < prev.len() ==> prev[k] == xs[k]);
        if env_wf(seg_env(e.seg)) {
            assert(tree_entry_seq(xs) == rest.push((seg_env(e.seg), e)));
        } else {
            assert(tree_entry_seq(xs) == rest);
        }
        let s = tree_entry_seq(xs);
        assert forall|k: int|
            0 <= k < s.len() implies {
            let p = #[trigger] s[k];
            &&& p.1.id < xs.len()
            &&& xs[p.1.id as int] == p.1
            &&& p.0 == seg_env(p.1.seg)
            &&& env_wf(p.0)
        } by {
            if k < rest.len() {
                assert(s[k] == rest[k]);
            } else {
                assert(s[k] == (seg_env(e.seg), e));
                assert(e.id == n);
            }
        }
        assert forall|id: int|
            0 <= id < xs.len() && env_wf(seg_env((#[trigger] xs[id]).seg)) implies s.contains(
            (seg_env(xs[id].seg), xs[id]),
        ) by {
            let q = (seg_env(xs[id].seg), xs[id]);
            if id < n {
                assert(rest.contains(q));
                let k = choose|k: int| 0 <= k < rest.len() && rest[k] == q;
                assert(s[k] == q);
            } else {
                assert(env_wf(seg_env(e.seg)));
                assert(s[s.len() - 1] == q);
            }
        }
    }
}

/// What a broad-phase candidate list holds: pairs of the index whose
/// envelope intersects the padded query envelope, and every stored
/// record with a well-formed intersecting envelope appears.
proof fn lemma_seg_cand_list(xs: Seq<SegEntry>, cands: Seq<(Envelope, SegEntry)>, pe: Envelope)
    requires
        forall|k: int| 0 <= k < xs.len() ==> (#[trigger] xs[k]).id == k,
        (cands.to_multiset() == tree_entry_seq(xs).to_multiset().filter(
            |p: (Envelope, SegEntry)| envs_intersect(p.0, pe),
        )),
    ensures
        forall|k: int|
            0 <= k < cands.len() ==> {
                let p = #[trigger] cands[k];
                &&& p.1.id < xs.len()
                &&& xs[p.1.id as int] == p.1
                &&& p.0 == seg_env(p.1.seg)
                &&& broad_cand(p.1, pe)
            },
        forall|id: int|
            0 <= id < xs.len() && #[trigger] broad_cand(xs[id], pe) ==> exists|k: int|
                0 <= k < cands.len() && (#[trigger] cands[k]).1.id == id,
{
    broadcast use vstd::seq_lib::group_to_multiset_ensures;
    broadcast use vstd::multiset::group_multiset_axioms;

    lemma_tree_entry_seq(xs);
    let ts = tree_entry_seq(xs);
    let f = |p: (Envelope, SegEntry)| envs_intersect(p.0, pe);
    assert forall|k: int|
        0 <= k < cands.len() implies {
        let p = #[trigger] cands[k];
        &&& p.1.id < xs.len()
        &&& xs[p.1.id as int] == p.1
        &&& p.0 == seg_env(p.1.seg)
        &&& broad_cand(p.1, pe)
    } by {
        let p = cands[k];
        assert(cands.contains(p));
        assert(cands.to_multiset().count(p) > 0);
        assert(ts.to_multiset().filter(f).count(p) > 0);
        assert(f(p) && ts.to_multiset().count(p) > 0);
        assert(ts.contains(p));
        let k2 = choose|k2: int| 0 <= k2 < ts.len() && ts[k2] == p;
        assert(ts[k2] == p);
    }
    assert forall|id: int|
        0 <= id < xs.len() && #[trigger] broad_cand(xs[id], pe) implies exists|k: int|
            0 <= k < cands.len() && (#[trigger] cands[k]).1.id == id by {
        let q = (seg_env(xs[id].seg), xs[id]);
        assert(ts.contains(q));
        assert(ts.to_multiset().count(q) > 0);
        assert(f(q));
        assert(ts.to_multiset().filter(f).count(q) == ts.to_multiset().count(q));
        assert(cands.to_multiset().count(q) > 0);
        assert(cands.contains(q));
        let k = choose|k: int| 0 <= k < cands.len() && cands[k] == q;
        assert((cands[k]).1.id == id);
    }
}

/// Where a target index first appears in an accumulator row.
pub proof fn lemma_find_target(row: Seq<(usize, u64)>, j1: usize)
    ensures
        find_target(row, j1) >= 0 ==> {
            &&& 0 <= find_target(row, j1) < row.len()
            &&& row[find_target(row, j1)].0 == j1
            &&& forall|k: int| 0 <= k < find_target(row, j1) ==> (#[trigger] row[k]).0 != j1
        },
        find_target(row, j1) < 0 ==> forall|k: int|
            0 <= k < row.len() ==> (#[trigger] row[k]).0 != j1,
    decreases row.len(),
{
    if row.len() > 0 {
        if row[0].0 == j1 {
        } else {
            lemma_find_target(row.drop_first(), j1);
            let ft = find_target(row.drop_first(), j1);
            assert(forall|k: int|
                0 <= k < row.len() - 1 ==> #[trigger] row.drop_first()[k] == row[k + 1]);
            if ft >= 0 {
                assert(find_target(row, j1) == ft + 1);
                assert(row[ft + 1].0 == j1);
                assert forall|k: int| 0 <= k < ft + 1 implies (#[trigger] row[k]).0 != j1 by {
                    if k > 0 {
                        assert(row.drop_first()[k - 1] == row[k]);
                    }
                }
            } else {
                assert forall|k: int| 0 <= k < row.len() implies (#[trigger] row[k]).0 != j1 by {
                    if k > 0 {
                        assert(row.drop_first()[k - 1] == row[k]);
                    }
                }
            }
        }
    }
}


/// The model of an accumulator held in vectors.
pub open spec fn acc_view(a: Seq<Vec<(usize, u64)>>) -> Seq<Seq<(usize, u64)>> {
    a.map_values(|v: Vec<(usize, u64)>| v@)
}

/// One accumulation step on the held accumulator (see `upsert`); a
/// well-signed contribution keeps every accumulated length well signed.
fn upsert_row(acc: &mut Vec<Vec<(usize, u64)>>, li: usize, j1: usize, v: u64)
    requires
        li < old(acc).len(),
    ensures
        final(acc)@.len() == old(acc)@.len(),
        acc_view(final(acc)@) == upsert(acc_view(old(acc)@), li as int, j1, v),
        shared_len_ok(v) && acc_lens_ok(acc_view(old(acc)@)) ==> acc_lens_ok(
            acc_view(final(acc)@),
        ),
{
    let ghost rowg = old(acc)@[li as int]@;
    proof {
        lemma_find_target(rowg, j1);
        assert(acc_view(old(acc)@)[li as int] == rowg);
    }
    let n = acc[li].len();
    let mut k: usize = 0;
    let mut ft: Option<usize> = None;
    while k < n
        invariant
            li < acc@.len(),
            acc@[li as int]@ == rowg,
            n == rowg.len(),
            k <= n,
            ft is None ==> forall|kk: int| 0 <= kk < k ==> (#[trigger] rowg[kk]).0 != j1,
            ft is Some ==> {
                &&& ft->0 < k <= n
                &&& rowg[ft->0 as int].0 == j1
                &&& forall|kk: int| 0 <= kk < ft->0 ==> (#[trigger] rowg[kk]).0 != j1
            },
        decreases n - k,
    {
        if ft.is_none() {
            if acc[li][k].0 == j1 {
                ft = Some(k);
            }
        }
        k += 1;
    }
    let ghost ftg = find_target(rowg, j1);
    match ft {
        Some(kk) => {
            proof {
                assert(ftg >= 0);
                assert(kk as int == ftg) by {
                    if ftg < kk as int {
                        assert(rowg[ftg].0 != j1);
                    }
                    if (kk as int) < ftg {
                        assert(rowg[kk as int].0 != j1);
                    }
                }
            }
            let cur = acc[li][kk];
            let sum = fadd(cur.1, v);
            let row = crate::elem_mut(acc, li);
            let slot = crate::elem_mut(row, kk);
            *slot = (j1, sum);
            proof {
                assert(acc_view(acc@) =~= upsert(acc_view(old(acc)@), li as int, j1, v));
                if shared_len_ok(v) && acc_lens_ok(acc_view(old(acc)@)) {
                    let av0 = acc_view(old(acc)@);
                    let av1 = acc_view(acc@);
                    assert(av0[li as int][kk as int] == (cur.0, cur.1));
                    assert(shared_len_ok(cur.1));
                    assert(shared_len_ok(sum));
                    assert forall|l2: int, k2: int|
                        0 <= l2 < av1.len() && 0 <= k2 < av1[l2].len() implies shared_len_ok(
                        (#[trigger] av1[l2][k2]).1,
                    ) by {
                        if l2 == li as int && k2 == kk as int {
                        } else {
                            assert(av1[l2][k2] == av0[l2][k2]);
                        }
                    }
                }
            }
        },
        None => {
            proof {
                assert(ftg < 0) by {
                    if ftg >= 0 {
                        assert(rowg[ftg].0 == j1);
                    }
                }
            }
            let row = crate::elem_mut(acc, li);
            row.push((j1, v));
            proof {
                assert(acc_view(acc@) =~= upsert(acc_view(old(acc)@), li as int, j1, v));
                if shared_len_ok(v) && acc_lens_ok(acc_view(old(acc)@)) {
                    let av0 = acc_view(old(acc)@);
                    let av1 = acc_view(acc@);
                    assert forall|l2: int, k2: int|
                        0 <= l2 < av1.len() && 0 <= k2 < av1[l2].len() implies shared_len_ok(
                        (#[trigger] av1[l2][k2]).1,
                    ) by {
                        if l2 == li as int && k2 == av0[l2].len() {
                        } else {
                            assert(av1[l2][k2] == av0[l2][k2]);
                        }
                    }
                }
            }
        },
    }
}


/// Decomposes every reference line into its elementary segments,
/// computes each segment's slope, and bulk-loads all segments with their
/// cached envelopes into one spatial index.  The records are returned
/// beside the index, numbered in order.  A geometry that is not a
/// linestring is an `InvalidGeometryType` error; a line with fewer than
/// two coordinates contributes no segments.
pub fn create_line_segment_tree(x: &Vec<Geom>) -> (r: Result<
    (SegIndex, Vec<SegEntry>),
    crate::Error,
>)
    ensures
        r is Ok <==> all_linestrings(x@),
        r is Err ==> r->Err_0 == crate::Error::InvalidGeometryType,
        r is Ok ==> {
            &&& r->Ok_0.1@ == seg_entries_of(lines_of(x@))
            &&& seg_index_entries(r->Ok_0.0) == tree_entry_seq(seg_entries_of(lines_of(x@))).to_multiset()
        },
{
    let mut i: usize = 0;
    while i < x.len()
        invariant
            i <= x@.len(),
            forall|k: int| 0 <= k < i ==> (#[trigger] x@[k]@) is LineString,
        decreases x@.len() - i,
    {
        match x[i].shape() {
            Shape::LineString(_) => {},
            _ => {
                return Err(crate::Error::InvalidGeometryType);
            },
        }
        i += 1;
    }
    let ghost xl = lines_of(x@);
    let mut xsegs: Vec<SegEntry> = Vec::new();
    let mut i: usize = 0;
    while i < x.len()
        invariant
            i <= x@.len(),
            all_linestrings(x@),
            xl == lines_of(x@),
            xsegs@ == seg_entries_of(xl.take(i as int)),
        decreases x@.len() - i,
    {
        let ghost prefix = xl.take(i as int);
        let ghost next_prefix = xl.take(i as int + 1);
        let ghost base = seg_entries_of(prefix).len() as int;
        proof {
            assert(next_prefix.drop_last() =~= prefix);
            assert(next_prefix.last() == xl[i as int]);
            assert(seg_entries_of(next_prefix) == seg_entries_of(prefix) + line_entries(
                xl[i as int],
                i,
                base,
            ));
        }
        match x[i].shape() {
            Shape::LineString(line) => {
                proof {
                    assert(x@[i as int]@ is LineString);
                    assert(line@ == xl[i as int]);
                    lemma_line_segs(line@);
                }
                if line.len() >= 2 {
                    let mut t: usize = 0;
                    while t < line.len() - 1
                        invariant
                            line@.len() >= 2,
                            t <= line@.len() - 1,
                            line@ == xl[i as int],
                            i < x@.len(),
                            xl == lines_of(x@),
                            base == seg_entries_of(xl.take(i as int)).len() as int,
                            line_segs(line@).len() == line@.len() - 1,
                            forall|k: int|
                                0 <= k < line_segs(line@).len() ==> #[trigger] line_segs(
                                    line@,
                                )[k] == (Segment { a: line@[k], b: line@[k + 1] }),
                            xsegs@ == seg_entries_of(xl.take(i as int)) + line_entries(
                                xl[i as int],
                                i,
                                base,
                            ).take(t as int),
                        decreases line@.len() - 1 - t,
                    {
                        let s = Segment { a: line[t], b: line[t + 1] };
                        let sl = slope(&s);
                        let id = xsegs.len();
                        proof {
                            assert(line_entries(xl[i as int], i, base)[t as int] == (SegEntry {
                                id: (base + t) as usize,
                                line: i,
                                slope: slope_of(s),
                                seg: s,
                            }));
                            assert(id as int == base + t);
                            assert(line_entries(xl[i as int], i, base).take(t as int + 1)
                                =~= line_entries(xl[i as int], i, base).take(t as int).push(
                                line_entries(xl[i as int], i, base)[t as int],
                            ));
                        }
                        xsegs.push(SegEntry { id, line: i, slope: sl, seg: s });
                        t += 1;
                    }
                    proof {
                        assert(line_entries(xl[i as int], i, base).take(
                            line_segs(line@).len() as int,
                        ) =~= line_entries(xl[i as int], i, base));
                        assert(xsegs@ =~= seg_entries_of(next_prefix));
                    }
                } else {
                    proof {
                        assert(line_segs(line@).len() == 0);
                        assert(line_entries(xl[i as int], i, base) =~= Seq::<SegEntry>::empty());
                        assert(xsegs@ =~= seg_entries_of(next_prefix));
                    }
                }
            },
            _ => {
                proof {
                    assert(false);
                }
            },
        }
        i += 1;
    }
    let nlines = x.len();
    let nsegs = xsegs.len();
    proof {
        assert(xl.take(xl.len() as int) =~= xl);
        assert(xl.len() == nlines);
        assert(seg_entries_of(xl).len() == nsegs);
        lemma_seg_entries(xl);
    }
    let mut entries: Vec<(Envelope, SegEntry)> = Vec::new();
    let mut id: usize = 0;
    while id < xsegs.len()
        invariant
            id <= xsegs@.len(),
            entries@ == tree_entry_seq(xsegs@.take(id as int)),
            forall|k: int| 0 <= k < entries@.len() ==> env_wf((#[trigger] entries@[k]).0),
        decreases xsegs@.len() - id,
    {
        let ghost prefix = xsegs@.take(id as int);
        let ghost next_prefix = xsegs@.take(id as int + 1);
        proof {
            assert(next_prefix.drop_last() =~= prefix);
            assert(next_prefix.last() == xsegs@[id as int]);
        }
        let e = xsegs[id];
        let env = segment_envelope(&e.seg);
        if env_wf_check(&env) {
            entries.push((env, e));
        }
        id += 1;
    }
    proof {
        assert(xsegs@.take(xsegs@.len() as int) =~= xsegs@);
    }
    let tree = seg_index_build(entries);
    Ok((tree, xsegs))
}


/// There is a candidate with the given record number among the first `c`.
pub open spec fn seg_touched(cands: Seq<(Envelope, SegEntry)>, c: int, id: int) -> bool {
    exists|kk: int| 0 <= kk < c && (#[trigger] cands[kk]).1.id == id
}

/// The record number up to which the scan of a sorted candidate list has
/// advanced after its first `k` entries: one past the last entry seen.
pub open spec fn scan_frontier(ids: Seq<usize>, k: int) -> int {
    if k <= 0 {
        0
    } else {
        ids[k - 1] + 1
    }
}

/// Records that match nothing leave the accumulator alone.
proof fn lemma_acc_ids_noop(
    acc: Seq<Seq<(usize, u64)>>,
    xsegs: Seq<SegEntry>,
    s: Segment,
    pe: Envelope,
    j1: usize,
    dist: u64,
    tol: u64,
    m1: int,
    m2: int,
)
    requires
        0 <= m1 <= m2 <= xsegs.len(),
        forall|m: int| m1 <= m < m2 ==> !cand_match(#[trigger] xsegs[m], s, pe, dist, tol),
    ensures
        acc_ids(acc, xsegs, s, pe, j1, dist, tol, m2) == acc_ids(acc, xsegs, s, pe, j1, dist, tol, m1),
    decreases m2 - m1,
{
    if m2 > m1 {
        lemma_acc_ids_noop(acc, xsegs, s, pe, j1, dist, tol, m1, m2 - 1);
        assert(!cand_match(xsegs[m2 - 1], s, pe, dist, tol));
    }
}

/// The candidate scan: every elementary segment of every target line
/// queries the segment index within its padded envelope and holds the
/// returned candidates, in ascending record order, against the slope
/// tolerance, the box-overlap test and the exact distance threshold;
/// matches add their estimated shared length to the accumulator row of
/// their reference line, keyed by the 1-based target position.
fn identify_candidates(
    xtree: &SegIndex,
    xsegs: &Vec<SegEntry>,
    y: &Vec<Geom>,
    dist: u64,
    slope_tolerance: u64,
    nx: usize,
) -> (acc: Vec<Vec<(usize, u64)>>)
    requires
        all_linestrings(y@),
        seg_index_entries(*xtree) == tree_entry_seq(xsegs@).to_multiset(),
        forall|k: int|
            0 <= k < xsegs@.len() ==> (#[trigger] xsegs@[k]).id == k && xsegs@[k].line < nx,
    ensures
        acc@.len() == nx,
        (acc_view(acc@) == acc_net(
            empty_acc(nx as int),
            xsegs@,
            lines_of(y@),
            dist,
            slope_tolerance,
            div_canon(dist, TWO_BITS),
            y@.len() as int,
        )),
        acc_lens_ok(acc_view(acc@)),
{
    let half = fdiv(dist, TWO_BITS);
    let mut acc: Vec<Vec<(usize, u64)>> = Vec::new();
    let mut i: usize = 0;
    while i < nx
        invariant
            i <= nx,
            acc@.len() == i,
            forall|k: int| 0 <= k < i ==> (#[trigger] acc@[k])@ == Seq::<(usize, u64)>::empty(),
        decreases nx - i,
    {
        acc.push(Vec::new());
        i += 1;
    }
    proof {
        assert(acc_view(acc@) =~= empty_acc(nx as int));
        assert(acc_lens_ok(acc_view(acc@)));
    }
    let ghost yl = lines_of(y@);
    let ghost tol = slope_tolerance;
    let mut j: usize = 0;
    while j < y.len()
        invariant
            j <= y@.len(),
            all_linestrings(y@),
            yl == lines_of(y@),
            tol == slope_tolerance,
            half == div_canon(dist, TWO_BITS),
            seg_index_entries(*xtree) == tree_entry_seq(xsegs@).to_multiset(),
            forall|k: int|
                0 <= k < xsegs@.len() ==> (#[trigger] xsegs@[k]).id == k && xsegs@[k].line < nx,
            acc@.len() == nx,
            (acc_view(acc@) == acc_net(
                empty_acc(nx as int),
                xsegs@,
                yl,
                dist,
                tol,
                half,
                j as int,
            )),
            acc_lens_ok(acc_view(acc@)),
        decreases y@.len() - j,
    {
        let ghost acc_before_line = acc_view(acc@);
        let j1 = j + 1;
        match y[j].shape() {
            Shape::LineString(line) => {
                proof {
                    assert(y@[j as int]@ is LineString);
                    assert(line@ == yl[j as int]);
                    lemma_line_segs(line@);
                }
                let nseg = if line.len() >= 2 {
                    line.len() - 1
                } else {
                    0
                };
                proof {
                    assert(line_segs(line@).len() == nseg);
                }
                let mut t: usize = 0;
                while t < nseg
                    invariant
                        t <= nseg,
                        j < y@.len(),
                        j1 == j + 1,
                        all_linestrings(y@),
                        yl == lines_of(y@),
                        line@ == yl[j as int],
                        nseg == line_segs(line@).len(),
                        line@.len() >= 2 ==> nseg == line@.len() - 1,
                        tol == slope_tolerance,
                        half == div_canon(dist, TWO_BITS),
                        seg_index_entries(*xtree) == tree_entry_seq(xsegs@).to_multiset(),
                        forall|k: int|
                            0 <= k < xsegs@.len() ==> (#[trigger] xsegs@[k]).id == k
                                && xsegs@[k].line < nx,
                        forall|k: int|
                            0 <= k < line_segs(line@).len() ==> #[trigger] line_segs(line@)[k]
                                == (Segment { a: line@[k], b: line@[k + 1] }),
                        acc@.len() == nx,
                        (acc_view(acc@) == acc_line(
                            acc_before_line,
                            xsegs@,
                            line@,
                            j1,
                            dist,
                            tol,
                            half,
                            t as int,
                        )),
                        acc_lens_ok(acc_view(acc@)),
                    decreases nseg - t,
                {
                    let ghost acc_before_seg = acc_view(acc@);
                    let s = Segment { a: line[t], b: line[t + 1] };
                    proof {
                        assert(s == line_segs(line@)[t as int]);
                    }
                    let se = segment_envelope(&s);
                    let pe = Envelope {
                        min_x: fsub(se.min_x, half),
                        min_y: fsub(se.min_y, half),
                        max_x: fadd(se.max_x, half),
                        max_y: fadd(se.max_y, half),
                    };
                    proof {
                        assert(pe == pad_env(seg_env(s), half));
                    }
                    if env_ordered_check(&pe) {
                        let cands = seg_index_query(xtree, &pe);
                        let nx_segs = xsegs.len();
                        let mut sorted_ids: Vec<usize> = Vec::new();
                        let mut c: usize = 0;
                        while c < cands.len()
                            invariant
                                c <= cands@.len(),
                                nx_segs == xsegs@.len(),
                                forall|k: int|
                                    0 <= k < xsegs@.len() ==> (#[trigger] xsegs@[k]).id == k,
                                (cands@.to_multiset() == tree_entry_seq(
                                    xsegs@,
                                ).to_multiset().filter(
                                    |p: (Envelope, SegEntry)| envs_intersect(p.0, pe),
                                )),
                                forall|k1: int, k2: int|
                                    0 <= k1 < k2 < sorted_ids@.len() ==> (
                                    #[trigger] sorted_ids@[k1]) <= (#[trigger] sorted_ids@[k2]),
                                forall|k: int|
                                    0 <= k < sorted_ids@.len() ==> (#[trigger] sorted_ids@[k])
                                        < nx_segs && broad_cand(
                                        xsegs@[sorted_ids@[k] as int],
                                        pe,
                                    ),
                                forall|v: usize|
                                    #[trigger] sorted_ids@.contains(v) == seg_touched(
                                        cands@,
                                        c as int,
                                        v as int,
                                    ),
                            decreases cands@.len() - c,
                        {
                            proof {
                                lemma_seg_cand_list(xsegs@, cands@, pe);
                            }
                            let ent = cands[c];
                            let id = ent.1.id;
                            let ghost prev_ids = sorted_ids@;
                            let n_sorted = sorted_ids.len();
                            let mut p: usize = 0;
                            while p < n_sorted && sorted_ids[p] <= id
                                invariant
                                    p <= n_sorted,
                                    n_sorted == sorted_ids@.len(),
                                    forall|k: int|
                                        0 <= k < p ==> (#[trigger] sorted_ids@[k]) <= id,
                                decreases n_sorted - p,
                            {
                                p += 1;
                            }
                            sorted_ids.insert(p, id);
                            proof {
                                prev_ids.insert_ensures(p as int, id);
                                assert(sorted_ids@ == prev_ids.insert(p as int, id));
                                assert forall|k1: int, k2: int|
                                    0 <= k1 < k2 < sorted_ids@.len() implies (
                                #[trigger] sorted_ids@[k1]) <= (#[trigger] sorted_ids@[k2]) by {
                                    if k2 < p {
                                    } else if k1 < p && k2 == p {
                                        assert(sorted_ids@[k1] == prev_ids[k1]);
                                    } else if k1 < p {
                                        assert(sorted_ids@[k1] == prev_ids[k1]);
                                        assert(sorted_ids@[k2] == prev_ids[k2 - 1]);
                                        assert(prev_ids[k1] <= prev_ids[k2 - 1]);
                                    } else if k1 == p {
                                        assert(p < n_sorted);
                                        assert(prev_ids[p as int] > id);
                                        assert(sorted_ids@[k2] == prev_ids[k2 - 1]);
                                        assert(prev_ids[p as int] <= prev_ids[k2 - 1]);
                                    } else {
                                        assert(sorted_ids@[k1] == prev_ids[k1 - 1]);
                                        assert(sorted_ids@[k2] == prev_ids[k2 - 1]);
                                    }
                                }
                                assert forall|v: usize|
                                    #[trigger] sorted_ids@.contains(v) == seg_touched(
                                    cands@,
                                    c as int + 1,
                                    v as int,
                                ) by {
                                    if sorted_ids@.contains(v) {
                                        let kk = choose|kk: int|
                                            0 <= kk < sorted_ids@.len() && sorted_ids@[kk] == v;
                                        if kk < p {
                                            assert(prev_ids[kk] == v);
                                            assert(prev_ids.contains(v));
                                        } else if kk == p {
                                            assert(v == id);
                                            assert((cands@[c as int]).1.id == v as int);
                                            assert(seg_touched(cands@, c as int + 1, v as int));
                                        } else {
                                            assert(prev_ids[kk - 1] == v);
                                            assert(prev_ids.contains(v));
                                        }
                                        if v != id && sorted_ids@.contains(v) {
                                            assert(seg_touched(cands@, c as int, v as int)
                                                ==> seg_touched(cands@, c as int + 1, v as int));
                                        }
                                    }
                                    if seg_touched(cands@, c as int + 1, v as int) {
                                        if v == id {
                                            assert(sorted_ids@[p as int] == v);
                                        } else {
                                            assert(seg_touched(cands@, c as int, v as int));
                                            assert(prev_ids.contains(v));
                                            let kk = choose|kk: int|
                                                0 <= kk < prev_ids.len() && prev_ids[kk] == v;
                                            if kk < p {
                                                assert(sorted_ids@[kk] == v);
                                            } else {
                                                assert(sorted_ids@[kk + 1] == v);
                                            }
                                        }
                                    }
                                }
                            }
                            c += 1;
                        }
                        proof {
                            lemma_seg_cand_list(xsegs@, cands@, pe);
                            assert forall|v: usize|
                                #[trigger] sorted_ids@.contains(v) == ((v as int) < nx_segs
                                && broad_cand(xsegs@[v as int], pe)) by {
                                if sorted_ids@.contains(v) {
                                    let kk = choose|kk: int|
                                        0 <= kk < sorted_ids@.len() && sorted_ids@[kk] == v;
                                    assert(sorted_ids@[kk] < nx_segs && broad_cand(
                                        xsegs@[sorted_ids@[kk] as int],
                                        pe,
                                    ));
                                }
                                if (v as int) < nx_segs && broad_cand(xsegs@[v as int], pe) {
                                    assert(seg_touched(cands@, cands@.len() as int, v as int));
                                }
                            }
                        }
                        let n_ids = sorted_ids.len();
                        let mut k: usize = 0;
                        while k < n_ids
                            invariant
                                k <= n_ids,
                                n_ids == sorted_ids@.len(),
                                nx_segs == xsegs@.len(),
                                j < y@.len(),
                                acc@.len() == nx,
                                tol == slope_tolerance,
                                pe == pad_env(seg_env(s), half),
                                se == seg_env(s),
                                forall|kk: int|
                                    0 <= kk < xsegs@.len() ==> (#[trigger] xsegs@[kk]).id == kk
                                        && xsegs@[kk].line < nx,
                                forall|k1: int, k2: int|
                                    0 <= k1 < k2 < sorted_ids@.len() ==> (
                                    #[trigger] sorted_ids@[k1]) <= (#[trigger] sorted_ids@[k2]),
                                forall|kk: int|
                                    0 <= kk < sorted_ids@.len() ==> (#[trigger] sorted_ids@[kk])
                                        < nx_segs && broad_cand(
                                        xsegs@[sorted_ids@[kk] as int],
                                        pe,
                                    ),
                                forall|v: usize|
                                    #[trigger] sorted_ids@.contains(v) == ((v as int) < nx_segs
                                        && broad_cand(xsegs@[v as int], pe)),
                                0 <= scan_frontier(sorted_ids@, k as int) <= nx_segs,
                                (acc_view(acc@) == acc_ids(
                                    acc_before_seg,
                                    xsegs@,
                                    s,
                                    pe,
                                    j1,
                                    dist,
                                    tol,
                                    scan_frontier(sorted_ids@, k as int),
                                )),
                                acc_lens_ok(acc_view(acc@)),
                                range_ok(se.min_x, se.max_x),
                                range_ok(se.min_y, se.max_y),
                            decreases n_ids - k,
                        {
                            let id = sorted_ids[k];
                            let dup = if k > 0 {
                                let prev = sorted_ids[k - 1];
                                prev == id
                            } else {
                                false
                            };
                            if !dup {
                                proof {
                                    let f = scan_frontier(sorted_ids@, k as int);
                                    assert(f <= id as int) by {
                                        if k > 0 {
                                            assert(sorted_ids@[k as int - 1] <= sorted_ids@[
                                                k as int]);
                                            assert(sorted_ids@[k as int - 1] != id);
                                        }
                                    }
                                    assert forall|m: int|
                                        f <= m < id as int implies !cand_match(
                                        #[trigger] xsegs@[m],
                                        s,
                                        pe,
                                        dist,
                                        tol,
                                    ) by {
                                        if broad_cand(xsegs@[m], pe) {
                                            assert(m == (m as usize) as int);
                                            assert(sorted_ids@.contains((m as usize)));
                                            let pos = choose|pos: int|
                                                0 <= pos < sorted_ids@.len() && sorted_ids@[pos]
                                                    == (m as usize);
                                            if pos < k {
                                                assert(sorted_ids@[pos] <= sorted_ids@[k as int
                                                    - 1]);
                                            } else {
                                                assert(sorted_ids@[k as int] <= sorted_ids@[pos]);
                                            }
                                            assert(false);
                                        }
                                    }
                                    lemma_acc_ids_noop(
                                        acc_before_seg,
                                        xsegs@,
                                        s,
                                        pe,
                                        j1,
                                        dist,
                                        tol,
                                        f,
                                        id as int,
                                    );
                                    assert(acc_view(acc@) == acc_ids(
                                        acc_before_seg,
                                        xsegs@,
                                        s,
                                        pe,
                                        j1,
                                        dist,
                                        tol,
                                        id as int,
                                    ));
                                }
                                let e = xsegs[id];
                                proof {
                                    assert(broad_cand(e, pe));
                                }
                                let sl = slope(&s);
                                let tol_ok = flt(fabs(fsub(e.slope, sl)), slope_tolerance);
                                if tol_ok {
                                    let ce = segment_envelope(&e.seg);
                                    let xo = overlap_range(
                                        (ce.min_x, ce.max_x),
                                        (se.min_x, se.max_x),
                                    );
                                    let yo = overlap_range(
                                        (ce.min_y, ce.max_y),
                                        (se.min_y, se.max_y),
                                    );
                                    proof {
                                        assert(xo == xov_of(e, s));
                                        assert(yo == yov_of(e, s));
                                    }
                                    if xo.is_some() || yo.is_some() {
                                        let d = seg_distance(&e.seg, &s);
                                        if fle(d, dist) {
                                            let shared = solve_segment_length(xo, yo, &ce);
                                            proof {
                                                assert(cand_match(e, s, pe, dist, tol));
                                                assert(shared == contribution(e, s));
                                            }
                                            upsert_row(&mut acc, e.line, j1, shared);
                                        } else {
                                            proof {
                                                assert(!cand_match(e, s, pe, dist, tol));
                                            }
                                        }
                                    } else {
                                        proof {
                                            assert(!cand_match(e, s, pe, dist, tol));
                                        }
                                    }
                                } else {
                                    proof {
                                        assert(!cand_match(e, s, pe, dist, tol));
                                    }
                                }
                                proof {
                                    assert(scan_frontier(sorted_ids@, k as int + 1) == id as int
                                        + 1);
                                    assert(acc_view(acc@) == acc_ids(
                                        acc_before_seg,
                                        xsegs@,
                                        s,
                                        pe,
                                        j1,
                                        dist,
                                        tol,
                                        id as int + 1,
                                    ));
                                }
                            } else {
                                proof {
                                    assert(scan_frontier(sorted_ids@, k as int + 1)
                                        == scan_frontier(sorted_ids@, k as int));
                                }
                            }
                            k += 1;
                        }
                        proof {
                            let f = scan_frontier(sorted_ids@, n_ids as int);
                            assert forall|m: int|
                                f <= m < nx_segs implies !cand_match(
                                #[trigger] xsegs@[m],
                                s,
                                pe,
                                dist,
                                tol,
                            ) by {
                                if broad_cand(xsegs@[m], pe) {
                                    assert(sorted_ids@.contains((m as usize)));
                                    let pos = choose|pos: int|
                                        0 <= pos < sorted_ids@.len() && sorted_ids@[pos] == (
                                        m as usize);
                                    assert(sorted_ids@[pos] <= sorted_ids@[n_ids as int - 1]);
                                    assert(false);
                                }
                            }
                            lemma_acc_ids_noop(
                                acc_before_seg,
                                xsegs@,
                                s,
                                pe,
                                j1,
                                dist,
                                tol,
                                f,
                                nx_segs as int,
                            );
                        }
                        proof {
                            assert(acc_view(acc@) == acc_segment(
                                acc_before_seg,
                                xsegs@,
                                s,
                                j1,
                                dist,
                                tol,
                                half,
                            ));
                        }
                    } else {
                        proof {
                            assert(acc_view(acc@) == acc_segment(
                                acc_before_seg,
                                xsegs@,
                                s,
                                j1,
                                dist,
                                tol,
                                half,
                            ));
                        }
                    }
                    t += 1;
                }
                proof {
                    assert(acc_view(acc@) == acc_line(
                        acc_before_line,
                        xsegs@,
                        yl[j as int],
                        j1,
                        dist,
                        tol,
                        half,
                        line_segs(yl[j as int]).len() as int,
                    ));
                }
            },
            _ => {
                proof {
                    assert(false);
                }
            },
        }
        j += 1;
    }
    proof {
        assert(yl.len() == y@.len());
    }
    acc
}


/// Conflates two line networks.
///
/// The reference network `x` is decomposed and indexed; every elementary
/// segment of the target network `y` is matched against it within the
/// distance threshold `dist` and the slope tolerance; matching pairs
/// accumulate their estimated shared length.  The result holds one row
/// per matched (reference line, target line) pair, positions 1-based,
/// reference positions ascending and target positions in first-match
/// order.  A geometry that is not a linestring in either network is an
/// `InvalidGeometryType` error.  Every shared length is a non-negative
/// number, or the canonical NaN that coordinates at infinity scale can
/// produce.
pub fn rnet_merge(x: &Vec<Geom>, y: &Vec<Geom>, dist: u64, slope_tolerance: u64) -> (r: Result<
    Vec<MatchRow>,
    crate::Error,
>)
    ensures
        r is Ok <==> all_linestrings(x@) && all_linestrings(y@),
        r is Err ==> r->Err_0 == crate::Error::InvalidGeometryType,
        r is Ok ==> r->Ok_0@ == rows_of(
            conflate_acc(lines_of(x@), lines_of(y@), dist, slope_tolerance),
        ),
        r is Ok ==> forall|k: int|
            0 <= k < r->Ok_0@.len() ==> shared_len_ok((#[trigger] r->Ok_0@[k]).shared_len),
{
    let (tree, xsegs) = match create_line_segment_tree(x) {
        Ok(p) => p,
        Err(e) => {
            return Err(e);
        },
    };
    let mut i: usize = 0;
    while i < y.len()
        invariant
            i <= y@.len(),
            forall|k: int| 0 <= k < i ==> (#[trigger] y@[k]@) is LineString,
        decreases y@.len() - i,
    {
        match y[i].shape() {
            Shape::LineString(_) => {},
            _ => {
                return Err(crate::Error::InvalidGeometryType);
            },
        }
        i += 1;
    }
    let nx = x.len();
    let nsegs = xsegs.len();
    proof {
        assert(lines_of(x@).len() == nx);
        assert(seg_entries_of(lines_of(x@)).len() == nsegs);
        lemma_seg_entries(lines_of(x@));
    }
    let acc = identify_candidates(&tree, &xsegs, y, dist, slope_tolerance, nx);
    let ghost av = acc_view(acc@);
    proof {
        assert(acc_lens_ok(av));
    }
    let mut rows: Vec<MatchRow> = Vec::new();
    let na = acc.len();
    let mut i: usize = 0;
    while i < na
        invariant
            na == acc@.len(),
            i <= acc@.len(),
            av == acc_view(acc@),
            av.len() == acc@.len(),
            acc_lens_ok(av),
            rows@ == rows_of(av.take(i as int)),
            forall|k: int| 0 <= k < rows@.len() ==> shared_len_ok((#[trigger] rows@[k]).shared_len),
        decreases acc@.len() - i,
    {
        let ghost row_v = av[i as int];
        let nrow = acc[i].len();
        proof {
            assert(row_v == acc@[i as int]@);
        }
        let mut k: usize = 0;
        while k < nrow
            invariant
                k <= nrow,
                na == acc@.len(),
                i < acc@.len(),
                av == acc_view(acc@),
                av.len() == acc@.len(),
                acc_lens_ok(av),
                row_v == acc@[i as int]@,
                nrow == row_v.len(),
                forall|kk: int|
                    0 <= kk < rows@.len() ==> shared_len_ok((#[trigger] rows@[kk]).shared_len),
                (rows@ == rows_of(av.take(i as int)) + Seq::new(
                    k as nat,
                    |kk: int|
                        MatchRow {
                            i: (i + 1) as usize,
                            j: row_v[kk].0,
                            shared_len: row_v[kk].1,
                        },
                )),
            decreases nrow - k,
        {
            let cell = acc[i][k];
            rows.push(MatchRow { i: i + 1, j: cell.0, shared_len: cell.1 });
            proof {
                assert(av[i as int][k as int] == cell);
                assert(shared_len_ok(cell.1));
                assert(rows@ =~= rows_of(av.take(i as int)) + Seq::new(
                    k as nat + 1,
                    |kk: int|
                        MatchRow {
                            i: (i + 1) as usize,
                            j: row_v[kk].0,
                            shared_len: row_v[kk].1,
                        },
                ));
            }
            k += 1;
        }
        proof {
            assert(av.take(i as int + 1).drop_last() =~= av.take(i as int));
            assert(av.take(i as int + 1).last() == row_v);
            assert(rows_of(av.take(i as int + 1)) == rows_of(av.take(i as int)) + Seq::new(
                row_v.len(),
                |kk: int|
                    MatchRow {
                        i: (i + 1) as usize,
                        j: row_v[kk].0,
                        shared_len: row_v[kk].1,
                    },
            ));
            assert(rows@ =~= rows_of(av.take(i as int + 1)));
        }
        i += 1;
    }
    proof {
        assert(av.take(av.len() as int) =~= av);
        assert(av == conflate_acc(lines_of(x@), lines_of(y@), dist, slope_tolerance));
    }
    Ok(rows)
}


/// Broad-phase/narrow-phase soundness of the conflation scan: a matching
/// candidate always survives the broad phase, that is, its envelope is
/// well formed and intersects the padded query envelope.
pub proof fn lemma_conflation_match_is_candidate(
    e: SegEntry,
    s: Segment,
    pe: Envelope,
    dist: u64,
    tol: u64,
)
    requires
        cand_match(e, s, pe, dist, tol),
    ensures
        broad_cand(e, pe),
        envs_intersect(seg_env(e.seg), pe),
{
}

/// Accumulator additivity, segment cover: a target line split at one of
/// its coordinates into two sub-lines that share the split coordinate
/// covers exactly the elementary segments of the whole line, in order.
/// The two sub-scans therefore hold exactly the whole line's segments
/// against the reference index.
pub proof fn lemma_split_line_segments(line: Seq<Coord>, m: int)
    requires
        0 <= m < line.len(),
    ensures
        line_segs(line) == line_segs(line.take(m + 1)) + line_segs(line.skip(m)),
{
    let left = line.take(m + 1);
    let right = line.skip(m);
    lemma_line_segs(line);
    lemma_line_segs(left);
    lemma_line_segs(right);
    assert(forall|k: int| 0 <= k < m + 1 ==> left[k] == line[k]);
    assert(forall|k: int| 0 <= k < line.len() - m ==> right[k] == line[k + m]);
    assert forall|k: int|
        0 <= k < line_segs(line).len() implies #[trigger] line_segs(line)[k] == (line_segs(left)
        + line_segs(right))[k] by {
        if k < m {
            assert(line_segs(left)[k] == (Segment { a: left[k], b: left[k + 1] }));
        } else {
            assert(line_segs(right)[k - m] == (Segment { a: right[k - m], b: right[k - m + 1] }));
        }
    }
    assert(line_segs(line) =~= line_segs(left) + line_segs(right));
}


/// The keys of one accumulator row are pairwise distinct.
pub open spec fn row_keys_distinct(row: Seq<(usize, u64)>) -> bool {
    forall|k1: int, k2: int|
        0 <= k1 < k2 < row.len() ==> (#[trigger] row[k1]).0 != (#[trigger] row[k2]).0
}

/// A well-formed accumulator: every row's target keys are distinct and
/// 1-based positions into the target network.
pub open spec fn acc_wf(acc: Seq<Seq<(usize, u64)>>, ymax: int) -> bool {
    forall|li: int|
        0 <= li < acc.len() ==> row_keys_distinct(#[trigger] acc[li]) && (forall|k: int|
            0 <= k < acc[li].len() ==> 1 <= (#[trigger] acc[li][k]).0 <= ymax)
}

/// One accumulation step keeps the accumulator well formed and its
/// shape: a contribution either joins its key's entry or appends a new
/// key.
pub proof fn lemma_upsert_wf(acc: Seq<Seq<(usize, u64)>>, li: int, j1: usize, v: u64, ymax: int)
    requires
        0 <= li < acc.len(),
        acc_wf(acc, ymax),
        1 <= j1 <= ymax,
    ensures
        upsert(acc, li, j1, v).len() == acc.len(),
        acc_wf(upsert(acc, li, j1, v), ymax),
{
    lemma_find_target(acc[li], j1);
    let row = acc[li];
    let ft = find_target(row, j1);
    let next = upsert(acc, li, j1, v);
    let nrow = next[li];
    assert(row_keys_distinct(row));
    if ft >= 0 {
        assert(nrow == row.update(ft, (j1, add_canon(row[ft].1, v))));
        assert forall|k1: int, k2: int|
            0 <= k1 < k2 < nrow.len() implies (#[trigger] nrow[k1]).0 != (
        #[trigger] nrow[k2]).0 by {
            assert(nrow[k1].0 == row[k1].0 && nrow[k2].0 == row[k2].0);
        }
        assert forall|k: int| 0 <= k < nrow.len() implies 1 <= (#[trigger] nrow[k]).0 <= ymax by {
            assert(nrow[k].0 == row[k].0);
        }
    } else {
        assert(nrow == row.push((j1, v)));
        assert forall|k1: int, k2: int|
            0 <= k1 < k2 < nrow.len() implies (#[trigger] nrow[k1]).0 != (
        #[trigger] nrow[k2]).0 by {
            if k2 == row.len() {
                assert(nrow[k1] == row[k1]);
                assert(row[k1].0 != j1);
            } else {
                assert(nrow[k1] == row[k1] && nrow[k2] == row[k2]);
            }
        }
    }
    assert forall|l2: int|
        0 <= l2 < next.len() implies row_keys_distinct(#[trigger] next[l2]) && (forall|k: int|
            0 <= k < next[l2].len() ==> 1 <= (#[trigger] next[l2][k]).0 <= ymax) by {
        if l2 != li {
            assert(next[l2] == acc[l2]);
        }
    }
}

/// The scan of one query segment keeps the accumulator well formed.
pub proof fn lemma_acc_ids_wf(
    acc: Seq<Seq<(usize, u64)>>,
    xsegs: Seq<SegEntry>,
    s: Segment,
    pe: Envelope,
    j1: usize,
    dist: u64,
    tol: u64,
    n: int,
    ymax: int,
)
    requires
        acc_wf(acc, ymax),
        1 <= j1 <= ymax,
        forall|k: int| 0 <= k < xsegs.len() ==> (#[trigger] xsegs[k]).line < acc.len(),
        n <= xsegs.len(),
    ensures
        acc_ids(acc, xsegs, s, pe, j1, dist, tol, n).len() == acc.len(),
        acc_wf(acc_ids(acc, xsegs, s, pe, j1, dist, tol, n), ymax),
    decreases n,
{
    if n > 0 {
        lemma_acc_ids_wf(acc, xsegs, s, pe, j1, dist, tol, n - 1, ymax);
        let a = acc_ids(acc, xsegs, s, pe, j1, dist, tol, n - 1);
        let e = xsegs[n - 1];
        if cand_match(e, s, pe, dist, tol) {
            lemma_upsert_wf(a, e.line as int, j1, contribution(e, s), ymax);
        }
    }
}

/// The scan of one target line keeps the accumulator well formed.
pub proof fn lemma_acc_line_wf(
    acc: Seq<Seq<(usize, u64)>>,
    xsegs: Seq<SegEntry>,
    line: Seq<Coord>,
    j1: usize,
    dist: u64,
    tol: u64,
    half: u64,
    k: int,
    ymax: int,
)
    requires
        acc_wf(acc, ymax),
        1 <= j1 <= ymax,
        forall|kk: int| 0 <= kk < xsegs.len() ==> (#[trigger] xsegs[kk]).line < acc.len(),
        k <= line_segs(line).len(),
    ensures
        acc_line(acc, xsegs, line, j1, dist, tol, half, k).len() == acc.len(),
        acc_wf(acc_line(acc, xsegs, line, j1, dist, tol, half, k), ymax),
    decreases k,
{
    if k > 0 {
        lemma_acc_line_wf(acc, xsegs, line, j1, dist, tol, half, k - 1, ymax);
        let a = acc_line(acc, xsegs, line, j1, dist, tol, half, k - 1);
        let s = line_segs(line)[k - 1];
        let pe = pad_env(seg_env(s), half);
        if env_ordered(pe) {
            lemma_acc_ids_wf(a, xsegs, s, pe, j1, dist, tol, xsegs.len() as int, ymax);
        }
    }
}

/// The whole scan keeps the accumulator well formed.
pub proof fn lemma_acc_net_wf(
    acc: Seq<Seq<(usize, u64)>>,
    xsegs: Seq<SegEntry>,
    y: Seq<Seq<Coord>>,
    dist: u64,
    tol: u64,
    half: u64,
    j: int,
    ymax: int,
)
    requires
        acc_wf(acc, ymax),
        forall|kk: int| 0 <= kk < xsegs.len() ==> (#[trigger] xsegs[kk]).line < acc.len(),
        0 <= j <= y.len(),
        y.len() <= ymax <= usize::MAX,
    ensures
        acc_net(acc, xsegs, y, dist, tol, half, j).len() == acc.len(),
        acc_wf(acc_net(acc, xsegs, y, dist, tol, half, j), ymax),
    decreases j,
{
    if j > 0 {
        lemma_acc_net_wf(acc, xsegs, y, dist, tol, half, j - 1, ymax);
        let a = acc_net(acc, xsegs, y, dist, tol, half, j - 1);
        lemma_acc_line_wf(
            a,
            xsegs,
            y[j - 1],
            j as usize,
            dist,
            tol,
            half,
            line_segs(y[j - 1]).len() as int,
            ymax,
        );
    }
}

/// What the rows of a well-formed accumulator satisfy: positions 1-based
/// and in range, and no two rows for the same pair.
pub proof fn lemma_rows_of_wf(acc: Seq<Seq<(usize, u64)>>, ymax: int)
    requires
        acc.len() <= usize::MAX,
        acc_wf(acc, ymax),
    ensures
        forall|k: int|
            0 <= k < rows_of(acc).len() ==> {
                let r = #[trigger] rows_of(acc)[k];
                &&& 1 <= r.i <= acc.len()
                &&& 1 <= r.j <= ymax
            },
        forall|k1: int, k2: int|
            0 <= k1 < k2 < rows_of(acc).len() ==> ((#[trigger] rows_of(acc)[k1]).i, rows_of(
                acc,
            )[k1].j) != ((#[trigger] rows_of(acc)[k2]).i, rows_of(acc)[k2].j),
    decreases acc.len(),
{
    if acc.len() > 0 {
        let prev = acc.drop_last();
        assert(forall|li: int| 0 <= li < prev.len() ==> prev[li] == acc[li]);
        assert(acc_wf(prev, ymax));
        lemma_rows_of_wf(prev, ymax);
        let n = acc.len() - 1;
        let row = acc.last();
        let tail = Seq::new(
            row.len(),
            |k: int| MatchRow { i: (acc.len() - 1 + 1) as usize, j: row[k].0, shared_len: row[k].1 },
        );
        let s = rows_of(acc);
        let rest = rows_of(prev);
        assert(s == rest + tail);
        assert(row == acc[n]);
        assert(row_keys_distinct(row));
        assert(forall|k: int| 0 <= k < row.len() ==> 1 <= (#[trigger] row[k]).0 <= ymax) by {
            assert(forall|k: int| 0 <= k < acc[n].len() ==> 1 <= (#[trigger] acc[n][k]).0 <= ymax);
        }
        assert forall|k: int|
            0 <= k < s.len() implies {
            let r = #[trigger] s[k];
            &&& 1 <= r.i <= acc.len()
            &&& 1 <= r.j <= ymax
        } by {
            if k < rest.len() {
                assert(s[k] == rest[k]);
            } else {
                assert(s[k] == tail[k - rest.len()]);
                assert(1 <= row[k - rest.len()].0 <= ymax);
            }
        }
        assert forall|k1: int, k2: int|
            0 <= k1 < k2 < s.len() implies ((#[trigger] s[k1]).i, s[k1].j) != ((
        #[trigger] s[k2]).i, s[k2].j) by {
            if k2 < rest.len() {
                assert(s[k1] == rest[k1] && s[k2] == rest[k2]);
            } else if k1 >= rest.len() {
                assert(s[k1] == tail[k1 - rest.len()] && s[k2] == tail[k2 - rest.len()]);
                assert(row[k1 - rest.len()].0 != row[k2 - rest.len()].0);
            } else {
                assert(s[k1] == rest[k1] && s[k2] == tail[k2 - rest.len()]);
                assert(rest[k1].i <= prev.len());
                assert(s[k2].i == acc.len());
            }
        }
    }
}

/// The conflation result table: one row per matched pair, reference and
/// target positions 1-based and within their networks, and at most one
/// row per (reference, target) pair.
pub proof fn lemma_conflation_rows_unique(
    x: Seq<Seq<Coord>>,
    y: Seq<Seq<Coord>>,
    dist: u64,
    tol: u64,
)
    requires
        x.len() <= usize::MAX,
        y.len() <= usize::MAX,
        seg_entries_of(x).len() <= usize::MAX,
    ensures
        forall|k: int|
            0 <= k < rows_of(conflate_acc(x, y, dist, tol)).len() ==> {
                let r = #[trigger] rows_of(conflate_acc(x, y, dist, tol))[k];
                &&& 1 <= r.i <= x.len()
                &&& 1 <= r.j <= y.len()
            },
        forall|k1: int, k2: int|
            0 <= k1 < k2 < rows_of(conflate_acc(x, y, dist, tol)).len() ==> ((#[trigger] rows_of(
                conflate_acc(x, y, dist, tol),
            )[k1]).i, rows_of(conflate_acc(x, y, dist, tol))[k1].j) != ((#[trigger] rows_of(
                conflate_acc(x, y, dist, tol),
            )[k2]).i, rows_of(conflate_acc(x, y, dist, tol))[k2].j),
{
    let xsegs = seg_entries_of(x);
    let half = div_canon(dist, TWO_BITS);
    let acc0 = empty_acc(x.len() as int);
    lemma_seg_entries(x);
    assert(acc_wf(acc0, y.len() as int));
    lemma_acc_net_wf(acc0, xsegs, y, dist, tol, half, y.len() as int, y.len() as int);
    lemma_rows_of_wf(conflate_acc(x, y, dist, tol), y.len() as int);
    assert(conflate_acc(x, y, dist, tol).len() == x.len());
}


/// The accumulator has an entry for the pair (`li`, `j1`).
pub open spec fn has_pair(acc: Seq<Seq<(usize, u64)>>, li: int, j1: usize) -> bool {
    find_target(acc[li], j1) >= 0
}

/// A key has a position exactly when some entry carries it.
proof fn lemma_find_target_exists(row: Seq<(usize, u64)>, j1: usize)
    ensures
        (find_target(row, j1) >= 0) == (exists|k: int|
            0 <= k < row.len() && (#[trigger] row[k]).0 == j1),
{
    lemma_find_target(row, j1);
    if find_target(row, j1) >= 0 {
        assert(row[find_target(row, j1)].0 == j1);
    }
}

/// What one accumulation step does to the pair table: it adds exactly
/// the pair it was given.
proof fn lemma_upsert_pairs(acc: Seq<Seq<(usize, u64)>>, li: int, j1: usize, v: u64)
    requires
        0 <= li < acc.len(),
    ensures
        forall|li2: int, j2: usize|
            0 <= li2 < acc.len() ==> #[trigger] has_pair(upsert(acc, li, j1, v), li2, j2) == (
            has_pair(acc, li2, j2) || (li2 == li && j2 == j1)),
{
    let row = acc[li];
    lemma_find_target(row, j1);
    let ft = find_target(row, j1);
    let next = upsert(acc, li, j1, v);
    assert forall|li2: int, j2: usize|
        0 <= li2 < acc.len() implies #[trigger] has_pair(next, li2, j2) == (has_pair(acc, li2, j2)
        || (li2 == li && j2 == j1)) by {
        lemma_find_target_exists(acc[li2], j2);
        lemma_find_target_exists(next[li2], j2);
        if li2 != li {
            assert(next[li2] == acc[li2]);
            assert(has_pair(next, li2, j2) == has_pair(acc, li2, j2));
        } else {
            if ft >= 0 {
                let nrow = row.update(ft, (j1, add_canon(row[ft].1, v)));
                assert(next[li2] == nrow);
                if j2 == j1 {
                    assert(has_pair(acc, li2, j2));
                    assert(nrow[ft].0 == j1);
                    assert(has_pair(next, li2, j2));
                } else {
                    if has_pair(next, li2, j2) {
                        let k = choose|k: int|
                            0 <= k < nrow.len() && (#[trigger] nrow[k]).0 == j2;
                        assert(k != ft);
                        assert(row[k].0 == j2);
                        assert(has_pair(acc, li2, j2));
                    }
                    if has_pair(acc, li2, j2) {
                        let k = choose|k: int| 0 <= k < row.len() && (#[trigger] row[k]).0 == j2;
                        assert(k != ft);
                        assert(nrow[k].0 == j2);
                        assert(has_pair(next, li2, j2));
                    }
                }
            } else {
                let nrow = row.push((j1, v));
                assert(next[li2] == nrow);
                if j2 == j1 {
                    assert(nrow[row.len() as int].0 == j1);
                    assert(has_pair(next, li2, j2));
                } else {
                    if has_pair(next, li2, j2) {
                        let k = choose|k: int|
                            0 <= k < nrow.len() && (#[trigger] nrow[k]).0 == j2;
                        assert(k < row.len());
                        assert(row[k].0 == j2);
                        assert(has_pair(acc, li2, j2));
                    }
                    if has_pair(acc, li2, j2) {
                        let k = choose|k: int| 0 <= k < row.len() && (#[trigger] row[k]).0 == j2;
                        assert(nrow[k].0 == j2);
                        assert(has_pair(next, li2, j2));
                    }
                }
            }
        }
    }
}


/// Some record of reference line `li` among the first `n` matches the
/// query segment.
pub open spec fn seg_hit(
    xsegs: Seq<SegEntry>,
    s: Segment,
    pe: Envelope,
    dist: u64,
    tol: u64,
    li: int,
    n: int,
) -> bool {
    exists|id: int|
        0 <= id < n && cand_match(#[trigger] xsegs[id], s, pe, dist, tol) && xsegs[id].line == li
}

/// The query segment matches some record of reference line `li`.
pub open spec fn segment_hit(
    xsegs: Seq<SegEntry>,
    s: Segment,
    half: u64,
    dist: u64,
    tol: u64,
    li: int,
) -> bool {
    let pe = pad_env(seg_env(s), half);
    env_ordered(pe) && seg_hit(xsegs, s, pe, dist, tol, li, xsegs.len() as int)
}

/// One of the first `k` segments of the target line matches a record of
/// reference line `li`.
pub open spec fn line_hit(
    xsegs: Seq<SegEntry>,
    line: Seq<Coord>,
    half: u64,
    dist: u64,
    tol: u64,
    li: int,
    k: int,
) -> bool {
    exists|t: int|
        0 <= t < k && segment_hit(xsegs, #[trigger] line_segs(line)[t], half, dist, tol, li)
}

/// What the scan of one query segment adds to the pair table: exactly
/// the pairs of the matching records' lines with this target position.
proof fn lemma_acc_ids_pairs(
    acc: Seq<Seq<(usize, u64)>>,
    xsegs: Seq<SegEntry>,
    s: Segment,
    pe: Envelope,
    j1: usize,
    dist: u64,
    tol: u64,
    n: int,
)
    requires
        forall|k: int| 0 <= k < xsegs.len() ==> (#[trigger] xsegs[k]).line < acc.len(),
        0 <= n <= xsegs.len(),
    ensures
        acc_ids(acc, xsegs, s, pe, j1, dist, tol, n).len() == acc.len(),
        forall|li2: int, j2: usize|
            0 <= li2 < acc.len() ==> #[trigger] has_pair(
                acc_ids(acc, xsegs, s, pe, j1, dist, tol, n),
                li2,
                j2,
            ) == (has_pair(acc, li2, j2) || (j2 == j1 && seg_hit(xsegs, s, pe, dist, tol, li2, n))),
    decreases n,
{
    if n > 0 {
        lemma_acc_ids_pairs(acc, xsegs, s, pe, j1, dist, tol, n - 1);
        let a = acc_ids(acc, xsegs, s, pe, j1, dist, tol, n - 1);
        let r = acc_ids(acc, xsegs, s, pe, j1, dist, tol, n);
        let e = xsegs[n - 1];
        if cand_match(e, s, pe, dist, tol) {
            assert(r == upsert(a, e.line as int, j1, contribution(e, s)));
            lemma_upsert_pairs(a, e.line as int, j1, contribution(e, s));
        } else {
            assert(r == a);
        }
        assert forall|li2: int, j2: usize|
            0 <= li2 < acc.len() implies #[trigger] has_pair(r, li2, j2) == (has_pair(
            acc,
            li2,
            j2,
        ) || (j2 == j1 && seg_hit(xsegs, s, pe, dist, tol, li2, n))) by {
            if seg_hit(xsegs, s, pe, dist, tol, li2, n - 1) {
                let id = choose|id: int|
                    0 <= id < n - 1 && cand_match(#[trigger] xsegs[id], s, pe, dist, tol)
                        && xsegs[id].line == li2;
                assert(seg_hit(xsegs, s, pe, dist, tol, li2, n));
            }
            if cand_match(e, s, pe, dist, tol) && e.line == li2 {
                assert(cand_match(xsegs[n - 1], s, pe, dist, tol));
                assert(seg_hit(xsegs, s, pe, dist, tol, li2, n));
            }
            if seg_hit(xsegs, s, pe, dist, tol, li2, n) && !seg_hit(
                xsegs,
                s,
                pe,
                dist,
                tol,
                li2,
                n - 1,
            ) {
                let id = choose|id: int|
                    0 <= id < n && cand_match(#[trigger] xsegs[id], s, pe, dist, tol)
                        && xsegs[id].line == li2;
                assert(id == n - 1);
                assert(cand_match(e, s, pe, dist, tol) && e.line == li2);
            }
        }
    }
}

/// What the scan of one target line adds to the pair table: exactly the
/// pairs of the reference lines matched by one of its first `k`
/// segments, with this target position.
proof fn lemma_acc_line_pairs(
    acc: Seq<Seq<(usize, u64)>>,
    xsegs: Seq<SegEntry>,
    line: Seq<Coord>,
    j1: usize,
    dist: u64,
    tol: u64,
    half: u64,
    k: int,
)
    requires
        forall|kk: int| 0 <= kk < xsegs.len() ==> (#[trigger] xsegs[kk]).line < acc.len(),
        0 <= k <= line_segs(line).len(),
    ensures
        acc_line(acc, xsegs, line, j1, dist, tol, half, k).len() == acc.len(),
        forall|li2: int, j2: usize|
            0 <= li2 < acc.len() ==> #[trigger] has_pair(
                acc_line(acc, xsegs, line, j1, dist, tol, half, k),
                li2,
                j2,
            ) == (has_pair(acc, li2, j2) || (j2 == j1 && line_hit(
                xsegs,
                line,
                half,
                dist,
                tol,
                li2,
                k,
            ))),
    decreases k,
{
    if k > 0 {
        lemma_acc_line_pairs(acc, xsegs, line, j1, dist, tol, half, k - 1);
        let a = acc_line(acc, xsegs, line, j1, dist, tol, half, k - 1);
        let r = acc_line(acc, xsegs, line, j1, dist, tol, half, k);
        let s = line_segs(line)[k - 1];
        let pe = pad_env(seg_env(s), half);
        assert(r == acc_segment(a, xsegs, s, j1, dist, tol, half));
        if env_ordered(pe) {
            lemma_acc_ids_pairs(a, xsegs, s, pe, j1, dist, tol, xsegs.len() as int);
        }
        assert forall|li2: int, j2: usize|
            0 <= li2 < acc.len() implies #[trigger] has_pair(r, li2, j2) == (has_pair(
            acc,
            li2,
            j2,
        ) || (j2 == j1 && line_hit(xsegs, line, half, dist, tol, li2, k))) by {
            if line_hit(xsegs, line, half, dist, tol, li2, k - 1) {
                let t = choose|t: int|
                    0 <= t < k - 1 && segment_hit(
                        xsegs,
                        #[trigger] line_segs(line)[t],
                        half,
                        dist,
                        tol,
                        li2,
                    );
                assert(line_hit(xsegs, line, half, dist, tol, li2, k));
            }
            if segment_hit(xsegs, s, half, dist, tol, li2) {
                assert(segment_hit(xsegs, line_segs(line)[k - 1], half, dist, tol, li2));
                assert(line_hit(xsegs, line, half, dist, tol, li2, k));
            }
            if line_hit(xsegs, line, half, dist, tol, li2, k) && !line_hit(
                xsegs,
                line,
                half,
                dist,
                tol,
                li2,
                k - 1,
            ) {
                let t = choose|t: int|
                    0 <= t < k && segment_hit(
                        xsegs,
                        #[trigger] line_segs(line)[t],
                        half,
                        dist,
                        tol,
                        li2,
                    );
                assert(t == k - 1);
                assert(segment_hit(xsegs, s, half, dist, tol, li2));
            }
        }
    }
}

/// What the whole scan adds to the pair table: exactly the pairs whose
/// target line has a segment matching a record of the reference line.
proof fn lemma_acc_net_pairs(
    acc: Seq<Seq<(usize, u64)>>,
    xsegs: Seq<SegEntry>,
    y: Seq<Seq<Coord>>,
    dist: u64,
    tol: u64,
    half: u64,
    j: int,
)
    requires
        forall|kk: int| 0 <= kk < xsegs.len() ==> (#[trigger] xsegs[kk]).line < acc.len(),
        0 <= j <= y.len(),
        y.len() <= usize::MAX,
    ensures
        acc_net(acc, xsegs, y, dist, tol, half, j).len() == acc.len(),
        forall|li2: int, j2: usize|
            0 <= li2 < acc.len() ==> #[trigger] has_pair(
                acc_net(acc, xsegs, y, dist, tol, half, j),
                li2,
                j2,
            ) == (has_pair(acc, li2, j2) || (1 <= j2 <= j && line_hit(
                xsegs,
                y[j2 - 1],
                half,
                dist,
                tol,
                li2,
                line_segs(y[j2 - 1]).len() as int,
            ))),
    decreases j,
{
    if j > 0 {
        lemma_acc_net_pairs(acc, xsegs, y, dist, tol, half, j - 1);
        let a = acc_net(acc, xsegs, y, dist, tol, half, j - 1);
        let r = acc_net(acc, xsegs, y, dist, tol, half, j);
        assert(r == acc_line(
            a,
            xsegs,
            y[j - 1],
            j as usize,
            dist,
            tol,
            half,
            line_segs(y[j - 1]).len() as int,
        ));
        lemma_acc_line_pairs(
            a,
            xsegs,
            y[j - 1],
            j as usize,
            dist,
            tol,
            half,
            line_segs(y[j - 1]).len() as int,
        );
    }
}

/// Match-set soundness and completeness of the conflation table: the
/// accumulator holds an entry for reference line `li` and 1-based target
/// position `j1` exactly when some elementary segment of that target
/// line matches some stored segment of that reference line within the
/// thresholds.
pub proof fn lemma_conflation_match_set(x: Seq<Seq<Coord>>, y: Seq<Seq<Coord>>, dist: u64, tol: u64)
    requires
        x.len() <= usize::MAX,
        y.len() <= usize::MAX,
        seg_entries_of(x).len() <= usize::MAX,
    ensures
        conflate_acc(x, y, dist, tol).len() == x.len(),
        forall|li: int, j1: usize|
            0 <= li < x.len() ==> (#[trigger] has_pair(conflate_acc(x, y, dist, tol), li, j1) <==> (
            1 <= j1 <= y.len() && line_hit(
                seg_entries_of(x),
                y[j1 - 1],
                div_canon(dist, TWO_BITS),
                dist,
                tol,
                li,
                line_segs(y[j1 - 1]).len() as int,
            ))),
{
    let xsegs = seg_entries_of(x);
    let half = div_canon(dist, TWO_BITS);
    let acc0 = empty_acc(x.len() as int);
    lemma_seg_entries(x);
    lemma_acc_net_pairs(acc0, xsegs, y, dist, tol, half, y.len() as int);
    assert forall|li: int, j1: usize| 0 <= li < x.len() implies !has_pair(acc0, li, j1) by {
        assert(acc0[li] =~= Seq::<(usize, u64)>::empty());
    }
}


/// The result table has a row for the pair.
pub open spec fn table_has(rows: Seq<MatchRow>, i: usize, j1: usize) -> bool {
    exists|k: int| 0 <= k < rows.len() && (#[trigger] rows[k]).i == i && rows[k].j == j1
}

/// The result table has a row for a pair exactly when the accumulator
/// has an entry for it.
proof fn lemma_rows_of_pairs(acc: Seq<Seq<(usize, u64)>>)
    requires
        acc.len() <= usize::MAX,
    ensures
        forall|i: usize, j1: usize|
            #[trigger] table_has(rows_of(acc), i, j1) == (1 <= i <= acc.len() && has_pair(
                acc,
                i as int - 1,
                j1,
            )),
    decreases acc.len(),
{
    if acc.len() == 0 {
        assert forall|i: usize, j1: usize| #[trigger] table_has(rows_of(acc), i, j1) == (1 <= i
            <= acc.len() && has_pair(acc, i as int - 1, j1)) by {
            assert(rows_of(acc).len() == 0);
            assert(!table_has(rows_of(acc), i, j1));
        }
    } else {
        let prev = acc.drop_last();
        lemma_rows_of_pairs(prev);
        let n = acc.len() - 1;
        let row = acc.last();
        let tail = Seq::new(
            row.len(),
            |k: int| MatchRow { i: (acc.len() - 1 + 1) as usize, j: row[k].0, shared_len: row[k].1 },
        );
        let s = rows_of(acc);
        let rest = rows_of(prev);
        assert(s == rest + tail);
        assert(row == acc[n]);
        assert(forall|li: int| 0 <= li < prev.len() ==> prev[li] == acc[li]);
        assert forall|i: usize, j1: usize| #[trigger] table_has(s, i, j1) == (1 <= i <= acc.len()
            && has_pair(acc, i as int - 1, j1)) by {
            lemma_find_target_exists(row, j1);
            if table_has(s, i, j1) {
                let k = choose|k: int|
                    0 <= k < s.len() && (#[trigger] s[k]).i == i && s[k].j == j1;
                if k < rest.len() {
                    assert(rest[k] == s[k]);
                    assert(table_has(rest, i, j1));
                    assert(1 <= i <= prev.len() && has_pair(prev, i as int - 1, j1));
                } else {
                    assert(s[k] == tail[k - rest.len()]);
                    assert(i == acc.len());
                    assert(row[k - rest.len()].0 == j1);
                    assert(has_pair(acc, n, j1));
                }
            }
            if 1 <= i <= acc.len() && has_pair(acc, i as int - 1, j1) {
                if i as int <= prev.len() {
                    assert(has_pair(prev, i as int - 1, j1));
                    assert(table_has(rest, i, j1));
                    let k = choose|k: int|
                        0 <= k < rest.len() && (#[trigger] rest[k]).i == i && rest[k].j == j1;
                    assert(s[k] == rest[k]);
                    assert(table_has(s, i, j1));
                } else {
                    assert(i as int == acc.len());
                    let k = choose|k: int| 0 <= k < row.len() && (#[trigger] row[k]).0 == j1;
                    assert(tail[k].i == i && tail[k].j == j1);
                    assert(s[rest.len() + k] == tail[k]);
                    assert(table_has(s, i, j1));
                }
            }
        }
    }
}

/// Match-set soundness and completeness of the conflation result: the
/// table has a row for 1-based positions (`i`, `j`) exactly when some
/// elementary segment of target line `j` matches some stored segment of
/// reference line `i` within the distance and slope thresholds.
pub proof fn lemma_rnet_merge_match_set(x: Seq<Seq<Coord>>, y: Seq<Seq<Coord>>, dist: u64, tol: u64)
    requires
        x.len() <= usize::MAX,
        y.len() <= usize::MAX,
        seg_entries_of(x).len() <= usize::MAX,
    ensures
        forall|i: usize, j1: usize|
            #[trigger] table_has(rows_of(conflate_acc(x, y, dist, tol)), i, j1) <==> (1 <= i
                <= x.len() && 1 <= j1 <= y.len() && line_hit(
                seg_entries_of(x),
                y[j1 - 1],
                div_canon(dist, TWO_BITS),
                dist,
                tol,
                i as int - 1,
                line_segs(y[j1 - 1]).len() as int,
            )),
{
    lemma_conflation_match_set(x, y, dist, tol);
    lemma_rows_of_pairs(conflate_acc(x, y, dist, tol));
}


/// Slope-tolerance boundary, strictness: a pair matches only if its
/// slope difference compares strictly below the tolerance, and a pair
/// whose difference does not is rejected outright.
pub proof fn lemma_slope_tolerance_strict(e: SegEntry, s: Segment, pe: Envelope, dist: u64, tol: u64)
    ensures
        cand_match(e, s, pe, dist, tol) ==> lt_bits(
            abs_bits(sub_canon(e.slope, slope_of(s))),
            tol,
        ),
        !lt_bits(abs_bits(sub_canon(e.slope, slope_of(s))), tol) ==> !cand_match(
            e,
            s,
            pe,
            dist,
            tol,
        ),
{
}

/// Slope-tolerance boundary, exact equality: a pair whose slope
/// difference equals the tolerance is excluded.  The second hypothesis is
/// the irreflexivity instance of the IEEE `<` — true of every double,
/// and given by the comparison wrapper wherever the filter is executed —
/// stated as a hypothesis only because the model keeps the order
/// uninterpreted away from call sites.
pub proof fn lemma_slope_at_tolerance_excluded(
    e: SegEntry,
    s: Segment,
    pe: Envelope,
    dist: u64,
    tol: u64,
)
    requires
        abs_bits(sub_canon(e.slope, slope_of(s))) == tol,
        !lt_bits(tol, tol),
    ensures
        !cand_match(e, s, pe, dist, tol),
{
}

/// Slope-tolerance boundary, inclusion: a broad-phase pair strictly
/// below the tolerance is decided by the overlap and exact-distance
/// checks alone.
pub proof fn lemma_slope_below_tolerance_passes(
    e: SegEntry,
    s: Segment,
    pe: Envelope,
    dist: u64,
    tol: u64,
)
    requires
        broad_cand(e, pe),
        lt_bits(abs_bits(sub_canon(e.slope, slope_of(s))), tol),
    ensures
        cand_match(e, s, pe, dist, tol) == ((xov_of(e, s) is Some || yov_of(e, s) is Some)
            && le_bits(seg_distance_of(e.seg, s), dist)),
{
}

/// Distance-threshold boundary: a slope-tolerant overlapping broad-phase
/// pair whose exact distance compares `<=` the threshold — at the
/// threshold exactly included, since a number is `<=` itself — matches,
/// and one whose distance does not compare `<=` is discarded.
pub proof fn lemma_distance_threshold_inclusive(
    e: SegEntry,
    s: Segment,
    pe: Envelope,
    dist: u64,
    tol: u64,
)
    ensures
        (broad_cand(e, pe) && lt_bits(abs_bits(sub_canon(e.slope, slope_of(s))), tol) && (xov_of(
            e,
            s,
        ) is Some || yov_of(e, s) is Some) && le_bits(seg_distance_of(e.seg, s), dist))
            ==> cand_match(e, s, pe, dist, tol),
        !le_bits(seg_distance_of(e.seg, s), dist) ==> !cand_match(e, s, pe, dist, tol),
{
}

} // verus!
