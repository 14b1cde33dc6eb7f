use rsgeo::geom::{Coord, Geom};

fn c(x: f64, y: f64) -> Coord {
    Coord { x: x.to_bits(), y: y.to_bits() }
}

#[test]
fn envelope_spans_the_extreme_coordinates() {
    let g = Geom::new_multi_point(vec![c(3.0, -2.0), c(-1.0, 7.0), c(4.5, 0.0)]);
    let e = g.envelope().unwrap();
    assert_eq!(f64::from_bits(e.min_x), -1.0);
    assert_eq!(f64::from_bits(e.min_y), -2.0);
    assert_eq!(f64::from_bits(e.max_x), 4.5);
    assert_eq!(f64::from_bits(e.max_y), 7.0);
}

#[test]
fn every_coordinate_lies_within_the_envelope() {
    let pts = [(3.0, -2.0), (-1.0, 7.0), (4.5, 0.0), (0.25, 0.125)];
    let g = Geom::new_line_string(pts.iter().map(|&(x, y)| c(x, y)).collect());
    let e = g.envelope().unwrap();
    for &(x, y) in pts.iter() {
        assert!(f64::from_bits(e.min_x) <= x && x <= f64::from_bits(e.max_x));
        assert!(f64::from_bits(e.min_y) <= y && y <= f64::from_bits(e.max_y));
    }
}

#[test]
fn a_point_has_a_degenerate_envelope() {
    let g = Geom::new_point(c(2.0, 3.0));
    let e = g.envelope().unwrap();
    assert_eq!(f64::from_bits(e.min_x), 2.0);
    assert_eq!(f64::from_bits(e.max_x), 2.0);
    assert_eq!(f64::from_bits(e.min_y), 3.0);
    assert_eq!(f64::from_bits(e.max_y), 3.0);
}

#[test]
fn a_geometry_without_coordinates_has_no_envelope() {
    let g = Geom::new_line_string(Vec::new());
    assert!(g.envelope().is_none());
    let p = Geom::new_polygon(Vec::new());
    assert!(p.envelope().is_none());
}

#[test]
fn polygon_envelope_covers_interior_rings_too() {
    let g = Geom::new_polygon(vec![
        vec![c(0.0, 0.0), c(10.0, 0.0), c(10.0, 10.0), c(0.0, 10.0), c(0.0, 0.0)],
        vec![c(2.0, 2.0), c(12.0, 2.0), c(2.0, 4.0), c(2.0, 2.0)],
    ]);
    let e = g.envelope().unwrap();
    assert_eq!(f64::from_bits(e.max_x), 12.0);
}
