use rsgeo::geom::{Coord, Geom};
use rsgeo::sparse::{intersects_sparse, contains_sparse, within_sparse};
use rsgeo::Error;

fn c(x: f64, y: f64) -> Coord {
    Coord { x: x.to_bits(), y: y.to_bits() }
}

fn point(x: f64, y: f64) -> Geom {
    Geom::new_point(c(x, y))
}

fn square(x0: f64, y0: f64, x1: f64, y1: f64) -> Geom {
    Geom::new_polygon(vec![vec![c(x0, y0), c(x1, y0), c(x1, y1), c(x0, y1), c(x0, y0)]])
}

fn linestring(pts: &[(f64, f64)]) -> Geom {
    Geom::new_line_string(pts.iter().map(|&(x, y)| c(x, y)).collect())
}

#[test]
fn polygon_contains_only_the_inner_point() {
    let x = vec![Some(square(0.0, 0.0, 10.0, 10.0))];
    let y = vec![Some(point(5.0, 5.0)), Some(point(20.0, 20.0))];
    let res = contains_sparse(&x, &y).unwrap();
    assert_eq!(res, vec![vec![1]]);
}

#[test]
fn within_lists_the_polygons_the_point_lies_in() {
    let x = vec![Some(point(5.0, 5.0)), Some(point(20.0, 20.0))];
    let y = vec![Some(square(0.0, 0.0, 10.0, 10.0))];
    let res = within_sparse(&x, &y).unwrap();
    assert_eq!(res, vec![vec![1], vec![]]);
}

#[test]
fn crossing_lines_intersect() {
    let x = vec![
        Some(linestring(&[(0.0, 0.0), (10.0, 10.0)])),
        Some(linestring(&[(0.0, 20.0), (10.0, 30.0)])),
    ];
    let y = vec![
        Some(linestring(&[(0.0, 10.0), (10.0, 0.0)])),
        Some(linestring(&[(0.0, 30.0), (10.0, 20.0)])),
    ];
    let res = intersects_sparse(&x, &y).unwrap();
    assert_eq!(res, vec![vec![1], vec![2]]);
}

#[test]
fn disjoint_geometries_yield_empty_rows() {
    let x = vec![Some(square(0.0, 0.0, 1.0, 1.0))];
    let y = vec![Some(point(5.0, 5.0))];
    assert_eq!(intersects_sparse(&x, &y).unwrap(), vec![Vec::<usize>::new()]);
}

#[test]
fn absent_geometries_are_skipped_not_fatal() {
    let x = vec![None, Some(square(0.0, 0.0, 10.0, 10.0))];
    let y = vec![Some(point(5.0, 5.0)), None, Some(point(6.0, 6.0))];
    let res = contains_sparse(&x, &y).unwrap();
    assert_eq!(res, vec![vec![], vec![1, 3]]);
}

#[test]
fn result_lists_are_ascending() {
    let x = vec![Some(square(0.0, 0.0, 10.0, 10.0))];
    let y = vec![
        Some(point(1.0, 1.0)),
        Some(point(2.0, 2.0)),
        Some(point(3.0, 3.0)),
        Some(point(20.0, 20.0)),
        Some(point(4.0, 4.0)),
    ];
    let res = contains_sparse(&x, &y).unwrap();
    assert_eq!(res, vec![vec![1, 2, 3, 5]]);
}

#[test]
fn mixed_collections_are_a_type_error() {
    let x = vec![Some(point(0.0, 0.0)), Some(square(0.0, 0.0, 1.0, 1.0))];
    let y = vec![Some(point(5.0, 5.0))];
    assert_eq!(intersects_sparse(&x, &y), Err(Error::InvalidGeometryType));
    assert_eq!(intersects_sparse(&y, &x), Err(Error::InvalidGeometryType));
}

#[test]
fn evaluation_is_reproducible_across_runs() {
    let x = vec![
        Some(square(0.0, 0.0, 10.0, 10.0)),
        Some(square(5.0, 5.0, 15.0, 15.0)),
    ];
    let y = vec![
        Some(point(6.0, 6.0)),
        Some(point(1.0, 1.0)),
        Some(point(12.0, 12.0)),
    ];
    let first = contains_sparse(&x, &y).unwrap();
    let second = contains_sparse(&x, &y).unwrap();
    assert_eq!(first, second);
    assert_eq!(first, vec![vec![1, 2], vec![1, 3]]);
}

#[test]
fn multipoint_and_multiline_collections_work() {
    let x = vec![Some(Geom::new_multi_point(vec![c(1.0, 1.0), c(9.0, 9.0)]))];
    let y = vec![Some(Geom::new_multi_line_string(vec![
        vec![c(0.0, 1.0), c(2.0, 1.0)],
        vec![c(0.0, 5.0), c(2.0, 5.0)],
    ]))];
    let res = intersects_sparse(&x, &y).unwrap();
    assert_eq!(res, vec![vec![1]]);
}

#[test]
fn multipolygon_contains_points_of_both_parts() {
    let mp = Geom::new_multi_polygon(vec![
        vec![vec![c(0.0, 0.0), c(2.0, 0.0), c(2.0, 2.0), c(0.0, 2.0), c(0.0, 0.0)]],
        vec![vec![c(10.0, 10.0), c(12.0, 10.0), c(12.0, 12.0), c(10.0, 12.0), c(10.0, 10.0)]],
    ]);
    let x = vec![Some(mp)];
    let y = vec![Some(point(1.0, 1.0)), Some(point(11.0, 11.0)), Some(point(5.0, 5.0))];
    let res = contains_sparse(&x, &y).unwrap();
    assert_eq!(res, vec![vec![1, 2]]);
}

#[test]
fn invalid_geometries_match_nothing_and_nothing_panics() {
    // a self-intersecting (bowtie) ring is invalid: the exact contains
    // test is never applied to it, so it matches nothing
    let bowtie = Geom::new_polygon(vec![vec![
        c(0.0, 0.0),
        c(10.0, 10.0),
        c(10.0, 0.0),
        c(0.0, 10.0),
        c(0.0, 0.0),
    ]]);
    let x = vec![Some(bowtie)];
    let y = vec![Some(point(5.0, 2.0))];
    assert_eq!(contains_sparse(&x, &y).unwrap(), vec![Vec::<usize>::new()]);
    // a polygon with a NaN coordinate is invalid too
    let nan_poly = Geom::new_polygon(vec![vec![
        c(0.0, 0.0),
        c(10.0, f64::NAN),
        c(10.0, 10.0),
        c(0.0, 0.0),
    ]]);
    let x2 = vec![Some(nan_poly)];
    assert_eq!(contains_sparse(&x2, &y).unwrap(), vec![Vec::<usize>::new()]);
    assert_eq!(within_sparse(&y, &x2).unwrap(), vec![Vec::<usize>::new()]);
}
