//! The geometry data model.
//!
//! A geometry is a tagged union over point, multipoint, line, multiline,
//! polygon and multipolygon variants, each carrying its coordinates as plain
//! bit-pattern pairs (see `fbits`).  A [`Geom`] couples that plain shape with
//! a cached `geo_types` geometry built from the very same coordinates, so
//! that the exact predicates of the `geo` crate can be evaluated on it; the
//! contracts of those predicate calls are stated over the plain shape alone.

use vstd::prelude::*;

verus! {

/// A planar coordinate: the bit patterns of its two double components.
#[derive(Clone, Copy, Debug, PartialEq, Eq, Structural)]
pub struct Coord {
    pub x: u64,
    pub y: u64,
}

/// An elementary two-point line segment.
#[derive(Clone, Copy, Debug, PartialEq, Eq, Structural)]
pub struct Segment {
    pub a: Coord,
    pub b: Coord,
}

/// The tagged union of geometry shapes over plain coordinates.
pub enum Shape {
    Point(Coord),
    MultiPoint(Vec<Coord>),
    LineString(Vec<Coord>),
    MultiLineString(Vec<Vec<Coord>>),
    Polygon(Vec<Vec<Coord>>),
    MultiPolygon(Vec<Vec<Vec<Coord>>>),
}

/// The mathematical model of a geometry: the same tagged union over
/// coordinate sequences.
pub enum ShapeView {
    Point(Coord),
    MultiPoint(Seq<Coord>),
    LineString(Seq<Coord>),
    MultiLineString(Seq<Seq<Coord>>),
    Polygon(Seq<Seq<Coord>>),
    MultiPolygon(Seq<Seq<Seq<Coord>>>),
}

/// The model of a list of coordinate rings.
pub open spec fn rings_view(v: Seq<Vec<Coord>>) -> Seq<Seq<Coord>> {
    v.map_values(|r: Vec<Coord>| r@)
}

/// The model of a list of polygons, each a list of rings.
pub open spec fn polys_view(v: Seq<Vec<Vec<Coord>>>) -> Seq<Seq<Seq<Coord>>> {
    v.map_values(|p: Vec<Vec<Coord>>| rings_view(p@))
}

impl View for Shape {
    type V = ShapeView;

    open spec fn view(&self) -> ShapeView {
        match self {
            Shape::Point(c) => ShapeView::Point(*c),
            Shape::MultiPoint(v) => ShapeView::MultiPoint(v@),
            Shape::LineString(v) => ShapeView::LineString(v@),
            Shape::MultiLineString(v) => ShapeView::MultiLineString(rings_view(v@)),
            Shape::Polygon(v) => ShapeView::Polygon(rings_view(v@)),
            Shape::MultiPolygon(v) => ShapeView::MultiPolygon(polys_view(v@)),
        }
    }
}

/// The cached `geo_types` form of a geometry, opaque to verification.
/// Holds the one value that the trusted predicate wrappers evaluate.
#[verifier::external_body]
pub struct GeoCache {
    geo: geo_types::Geometry,
}

/// A geometry together with its cached `geo_types` form.
///
/// The fields are private: every constructor builds the cached form from the
/// plain shape, so the two always describe the same geometry, and trusted
/// predicate wrappers may state their results over the shape's model.
pub struct Geom {
    shape: Shape,
    cache: GeoCache,
}

impl View for Geom {
    type V = ShapeView;

    closed spec fn view(&self) -> ShapeView {
        self.shape@
    }
}

impl Geom {
    /// The plain shape of the geometry.
    pub fn shape(&self) -> (s: &Shape)
        ensures
            s@ == self@,
    {
        &self.shape
    }

    /// Relies on `geo_types::Point`: the cached form holds exactly the given
    /// coordinate.
    #[verifier::external_body]
    pub fn new_point(c: Coord) -> (g: Geom)
        ensures
            g@ == ShapeView::Point(c),
    {
        let f = <<geo_types::Coord as rstar::Point>::Scalar>::from_bits;
        let geo = geo_types::Geometry::Point(geo_types::Point::new(f(c.x), f(c.y)));
        Geom { shape: Shape::Point(c), cache: GeoCache { geo } }
    }

    /// Relies on `geo_types::MultiPoint`: the cached form holds exactly the
    /// given coordinates.
    #[verifier::external_body]
    pub fn new_multi_point(v: Vec<Coord>) -> (g: Geom)
        ensures
            g@ == ShapeView::MultiPoint(v@),
    {
        let f = <<geo_types::Coord as rstar::Point>::Scalar>::from_bits;
        let pts = v.iter().map(|c| (f(c.x), f(c.y))).collect::<Vec<_>>();
        let geo = geo_types::Geometry::MultiPoint(geo_types::MultiPoint::from(pts));
        Geom { shape: Shape::MultiPoint(v), cache: GeoCache { geo } }
    }

    /// Relies on `geo_types::LineString`: the cached form holds exactly the
    /// given coordinates.
    #[verifier::external_body]
    pub fn new_line_string(v: Vec<Coord>) -> (g: Geom)
        ensures
            g@ == ShapeView::LineString(v@),
    {
        let f = <<geo_types::Coord as rstar::Point>::Scalar>::from_bits;
        let pts = v.iter().map(|c| (f(c.x), f(c.y))).collect::<Vec<_>>();
        let geo = geo_types::Geometry::LineString(geo_types::LineString::from(pts));
        Geom { shape: Shape::LineString(v), cache: GeoCache { geo } }
    }

    /// Relies on `geo_types::MultiLineString`: the cached form holds exactly
    /// the given lines.
    #[verifier::external_body]
    pub fn new_multi_line_string(v: Vec<Vec<Coord>>) -> (g: Geom)
        ensures
            g@ == ShapeView::MultiLineString(rings_view(v@)),
    {
        let f = <<geo_types::Coord as rstar::Point>::Scalar>::from_bits;
        let lines = v
            .iter()
            .map(|l| geo_types::LineString::from(l.iter().map(|c| (f(c.x), f(c.y))).collect::<Vec<_>>()))
            .collect::<Vec<_>>();
        let geo = geo_types::Geometry::MultiLineString(geo_types::MultiLineString::new(lines));
        Geom { shape: Shape::MultiLineString(v), cache: GeoCache { geo } }
    }

    /// Relies on `geo_types::Polygon`: the cached form is built from the
    /// first ring as exterior and the rest as interiors.
    #[verifier::external_body]
    pub fn new_polygon(rings: Vec<Vec<Coord>>) -> (g: Geom)
        ensures
            g@ == ShapeView::Polygon(rings_view(rings@)),
    {
        let f = <<geo_types::Coord as rstar::Point>::Scalar>::from_bits;
        let mut rs = rings
            .iter()
            .map(|r| geo_types::LineString::from(r.iter().map(|c| (f(c.x), f(c.y))).collect::<Vec<_>>()))
            .collect::<Vec<_>>();
        let ext = if rs.is_empty() { geo_types::LineString::new(Vec::new()) } else { rs.remove(0) };
        let geo = geo_types::Geometry::Polygon(geo_types::Polygon::new(ext, rs));
        Geom { shape: Shape::Polygon(rings), cache: GeoCache { geo } }
    }

    /// Relies on `geo_types::MultiPolygon`: the cached form is built polygon
    /// by polygon as in `new_polygon`.
    #[verifier::external_body]
    pub fn new_multi_polygon(polys: Vec<Vec<Vec<Coord>>>) -> (g: Geom)
        ensures
            g@ == ShapeView::MultiPolygon(polys_view(polys@)),
    {
        let f = <<geo_types::Coord as rstar::Point>::Scalar>::from_bits;
        let gp = polys
            .iter()
            .map(|rings| {
                let mut rs = rings
                    .iter()
                    .map(|r| geo_types::LineString::from(r.iter().map(|c| (f(c.x), f(c.y))).collect::<Vec<_>>()))
                    .collect::<Vec<_>>();
                let ext = if rs.is_empty() { geo_types::LineString::new(Vec::new()) } else { rs.remove(0) };
                geo_types::Polygon::new(ext, rs)
            })
            .collect::<Vec<_>>();
        let geo = geo_types::Geometry::MultiPolygon(geo_types::MultiPolygon::new(gp));
        Geom { shape: Shape::MultiPolygon(polys), cache: GeoCache { geo } }
    }
}

/// Whether the exact `intersects` predicate holds between two geometries.
pub uninterp spec fn intersects_of(a: ShapeView, b: ShapeView) -> bool;

/// Whether the exact `contains` predicate holds: `a` contains `b`.
pub uninterp spec fn contains_of(a: ShapeView, b: ShapeView) -> bool;

/// Whether the geometry is valid by the geometry library's validation
/// rules: finite coordinates, rings closed with enough distinct points,
/// interiors contained, no self-intersection, and the like.
pub uninterp spec fn valid_of(v: ShapeView) -> bool;

/// Whether the exact `within` predicate holds: `a` is within `b`.
pub uninterp spec fn within_of(a: ShapeView, b: ShapeView) -> bool;

/// Relies on `geo::Intersects` evaluated on the cached geometries, which
/// are functions of the shapes alone.  The predicate is total (it does
/// not go through the relate machinery) and symmetric.
#[verifier::external_body]
pub(crate) fn geom_intersects(a: &Geom, b: &Geom) -> (r: bool)
    ensures
        r == intersects_of(a@, b@),
        r == intersects_of(b@, a@),
{
    geo::Intersects::intersects(&a.cache.geo, &b.cache.geo)
}

/// Relies on `geo::algorithm::validation::Validation::is_valid`,
/// evaluated on the cached geometry: a total, deterministic check and a
/// function of the shape alone.  A valid geometry has finite (hence
/// numeric) coordinates.
#[verifier::external_body]
pub(crate) fn geom_is_valid(g: &Geom) -> (r: bool)
    ensures
        r == valid_of(g@),
{
    geo::algorithm::validation::Validation::is_valid(&g.cache.geo)
}

/// Relies on `geo::Contains` evaluated on the cached geometries, which are
/// functions of the shapes alone.  `contains` goes through geo's relate
/// machinery, whose internal assertions only valid geometries are known
/// to keep, so validity of both operands is required: the precondition
/// excludes the inputs on which the call could panic.
#[verifier::external_body]
pub(crate) fn geom_contains(a: &Geom, b: &Geom) -> (r: bool)
    requires
        valid_of(a@),
        valid_of(b@),
    ensures
        r == contains_of(a@, b@),
{
    geo::Contains::contains(&a.cache.geo, &b.cache.geo)
}

/// Relies on `geo::Within` evaluated on the cached geometries, which are
/// functions of the shapes alone.  `is_within(a, b)` is defined by the
/// geometry library as `b.contains(a)` and goes through the same relate
/// machinery as `geom_contains`, so validity of both operands is
/// required for the same reason.
#[verifier::external_body]
pub(crate) fn geom_within(a: &Geom, b: &Geom) -> (r: bool)
    requires
        valid_of(a@),
        valid_of(b@),
    ensures
        r == within_of(a@, b@),
        r == contains_of(b@, a@),
{
    geo::Within::is_within(&a.cache.geo, &b.cache.geo)
}

} // verus!
