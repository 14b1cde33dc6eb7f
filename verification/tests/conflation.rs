use rsgeo::geom::{Coord, Geom};
use rsgeo::rnetmerge::rnet_merge;
use rsgeo::Error;

fn c(x: f64, y: f64) -> Coord {
    Coord { x: x.to_bits(), y: y.to_bits() }
}

fn line(pts: &[(f64, f64)]) -> Geom {
    Geom::new_line_string(pts.iter().map(|&(x, y)| c(x, y)).collect())
}

fn len_of(bits: u64) -> f64 {
    f64::from_bits(bits)
}

#[test]
fn horizontal_overlap_shares_six_units() {
    let x = vec![line(&[(0.0, 0.0), (10.0, 0.0)])];
    let y = vec![line(&[(2.0, 0.0), (8.0, 0.0)])];
    let rows = rnet_merge(&x, &y, 0.01f64.to_bits(), 0.01f64.to_bits()).unwrap();
    assert_eq!(rows.len(), 1);
    assert_eq!(rows[0].i, 1);
    assert_eq!(rows[0].j, 1);
    assert!((len_of(rows[0].shared_len) - 6.0).abs() < 1e-9);
}

#[test]
fn distant_parallel_segments_do_not_match() {
    let x = vec![line(&[(0.0, 0.0), (10.0, 0.0)])];
    let y = vec![line(&[(0.0, 5.0), (10.0, 5.0)])];
    let rows = rnet_merge(&x, &y, 1.0f64.to_bits(), 0.01f64.to_bits()).unwrap();
    assert!(rows.is_empty());
}

#[test]
fn diagonal_overlap_uses_similar_triangles() {
    let x = vec![line(&[(0.0, 0.0), (10.0, 10.0)])];
    let y = vec![line(&[(2.0, 2.0), (8.0, 8.0)])];
    let rows = rnet_merge(&x, &y, 1.0f64.to_bits(), 0.1f64.to_bits()).unwrap();
    assert_eq!(rows.len(), 1);
    let dy = 6.0f64;
    let dx = dy * 10.0 / 10.0;
    let expected = (dx * dx + dy * dy).sqrt();
    assert_eq!(len_of(rows[0].shared_len), expected);
}

#[test]
fn slope_difference_at_tolerance_is_excluded() {
    let x = vec![line(&[(0.0, 0.0), (10.0, 0.0)])];
    // slope exactly 0.1 against tolerance 0.1: strict inequality required
    let y = vec![line(&[(0.0, 0.0), (10.0, 1.0)])];
    let rows = rnet_merge(&x, &y, 10.0f64.to_bits(), 0.1f64.to_bits()).unwrap();
    assert!(rows.is_empty());
}

#[test]
fn slope_difference_below_tolerance_is_included() {
    let x = vec![line(&[(0.0, 0.0), (10.0, 0.0)])];
    // slope 0.05 against tolerance 0.1
    let y = vec![line(&[(0.0, 0.0), (10.0, 0.5)])];
    let rows = rnet_merge(&x, &y, 10.0f64.to_bits(), 0.1f64.to_bits()).unwrap();
    assert_eq!(rows.len(), 1);
    assert_eq!(rows[0].i, 1);
    assert_eq!(rows[0].j, 1);
}

#[test]
fn distance_exactly_at_threshold_is_included() {
    // parallel unit-slope segments, the target shifted right by three:
    // the nearest squared endpoint-to-segment distance is exactly 4.5,
    // so the separation is sqrt(4.5)
    let d = 4.5f64.sqrt();
    let x = vec![line(&[(0.0, 0.0), (10.0, 10.0)])];
    let y = vec![line(&[(3.0, 0.0), (13.0, 10.0)])];
    let rows = rnet_merge(&x, &y, d.to_bits(), 0.1f64.to_bits()).unwrap();
    assert_eq!(rows.len(), 1);
}

#[test]
fn distance_just_over_threshold_is_excluded() {
    let d = 4.5f64.sqrt();
    // the largest double strictly below the true separation
    let below = f64::from_bits(d.to_bits() - 1);
    let x = vec![line(&[(0.0, 0.0), (10.0, 10.0)])];
    let y = vec![line(&[(3.0, 0.0), (13.0, 10.0)])];
    let rows = rnet_merge(&x, &y, below.to_bits(), 0.1f64.to_bits()).unwrap();
    assert!(rows.is_empty());
}

#[test]
fn split_target_line_accumulates_the_same_total() {
    let x = vec![line(&[(0.0, 0.0), (10.0, 0.0)])];
    let whole = vec![line(&[(0.0, 0.0), (4.0, 0.0), (10.0, 0.0)])];
    let first = vec![line(&[(0.0, 0.0), (4.0, 0.0)])];
    let second = vec![line(&[(4.0, 0.0), (10.0, 0.0)])];
    let d = 0.01f64.to_bits();
    let t = 0.01f64.to_bits();
    let rows_whole = rnet_merge(&x, &whole, d, t).unwrap();
    let rows_first = rnet_merge(&x, &first, d, t).unwrap();
    let rows_second = rnet_merge(&x, &second, d, t).unwrap();
    assert_eq!(rows_whole.len(), 1);
    assert_eq!(rows_first.len(), 1);
    assert_eq!(rows_second.len(), 1);
    let total = len_of(rows_first[0].shared_len) + len_of(rows_second[0].shared_len);
    assert!((len_of(rows_whole[0].shared_len) - total).abs() < 1e-9);
}

#[test]
fn repeated_contributions_to_one_pair_are_summed() {
    // two reference segments of the same line both match the one target
    let x = vec![line(&[(0.0, 0.0), (4.0, 0.0), (10.0, 0.0)])];
    let y = vec![line(&[(0.0, 0.0), (10.0, 0.0)])];
    let rows = rnet_merge(&x, &y, 0.01f64.to_bits(), 0.01f64.to_bits()).unwrap();
    assert_eq!(rows.len(), 1);
    assert_eq!(rows[0].i, 1);
    assert_eq!(rows[0].j, 1);
    assert!((len_of(rows[0].shared_len) - 10.0).abs() < 1e-9);
}

#[test]
fn non_linestring_input_is_a_type_error() {
    let x = vec![Geom::new_point(c(0.0, 0.0))];
    let y = vec![line(&[(0.0, 0.0), (10.0, 0.0)])];
    assert_eq!(rnet_merge(&x, &y, 0.0f64.to_bits(), 0.0f64.to_bits()), Err(Error::InvalidGeometryType));
    assert_eq!(rnet_merge(&y, &x, 0.0f64.to_bits(), 0.0f64.to_bits()), Err(Error::InvalidGeometryType));
}

#[test]
fn short_lines_contribute_no_segments() {
    let x = vec![line(&[(0.0, 0.0)]), line(&[(0.0, 0.0), (10.0, 0.0)])];
    let y = vec![line(&[(2.0, 0.0), (8.0, 0.0)])];
    let rows = rnet_merge(&x, &y, 0.01f64.to_bits(), 0.01f64.to_bits()).unwrap();
    assert_eq!(rows.len(), 1);
    assert_eq!(rows[0].i, 2);
    let rows2 = rnet_merge(&x, &vec![line(&[(5.0, 0.0)])], 0.01f64.to_bits(), 0.01f64.to_bits())
        .unwrap();
    assert!(rows2.is_empty());
}

#[test]
fn vertical_segments_never_panic_and_are_never_tolerant() {
    // a vertical reference segment has an infinite slope; the difference
    // of two infinite slopes is a NaN, so even two verticals are not
    // within any tolerance, and nothing panics
    let x = vec![line(&[(5.0, 0.0), (5.0, 10.0)])];
    let y = vec![line(&[(4.9, 0.0), (4.9, 10.0)])];
    let rows = rnet_merge(&x, &y, 1.0f64.to_bits(), 0.5f64.to_bits()).unwrap();
    assert!(rows.is_empty());
    // a vertical against a horizontal is not tolerant either
    let z = vec![line(&[(4.0, 5.0), (6.0, 5.0)])];
    let rows2 = rnet_merge(&x, &z, 1.0f64.to_bits(), 0.5f64.to_bits()).unwrap();
    assert!(rows2.is_empty());
}

#[test]
fn two_reference_lines_get_separate_rows() {
    let x = vec![
        line(&[(0.0, 0.0), (10.0, 0.0)]),
        line(&[(0.0, 1.0), (10.0, 1.0)]),
    ];
    let y = vec![line(&[(0.0, 0.5), (10.0, 0.5)])];
    let rows = rnet_merge(&x, &y, 2.0f64.to_bits(), 0.01f64.to_bits()).unwrap();
    assert_eq!(rows.len(), 2);
    assert_eq!((rows[0].i, rows[0].j), (1, 1));
    assert_eq!((rows[1].i, rows[1].j), (2, 1));
}

#[test]
fn overlap_of_touching_ranges_is_degenerate_not_empty() {
    let a = (0.0f64.to_bits(), 4.0f64.to_bits());
    let b = (4.0f64.to_bits(), 10.0f64.to_bits());
    let ov = rsgeo::rnetmerge::overlap_range(a, b).unwrap();
    assert_eq!(f64::from_bits(ov.0), 4.0);
    assert_eq!(f64::from_bits(ov.1), 4.0);
}

#[test]
fn overlap_of_disjoint_ranges_is_none() {
    let a = (0.0f64.to_bits(), 3.0f64.to_bits());
    let b = (5.0f64.to_bits(), 10.0f64.to_bits());
    assert!(rsgeo::rnetmerge::overlap_range(a, b).is_none());
    assert!(rsgeo::rnetmerge::overlap_range(b, a).is_none());
}

#[test]
fn zero_height_box_falls_back_to_the_horizontal_extent() {
    let bbox = rsgeo::envelope::Envelope {
        min_x: 0.0f64.to_bits(),
        min_y: 0.0f64.to_bits(),
        max_x: 10.0f64.to_bits(),
        max_y: 0.0f64.to_bits(),
    };
    let xov = Some((2.0f64.to_bits(), 8.0f64.to_bits()));
    let yov = Some((0.0f64.to_bits(), 0.0f64.to_bits()));
    let shared = rsgeo::rnetmerge::solve_segment_length(xov, yov, &bbox);
    assert_eq!(f64::from_bits(shared), 6.0);
}

#[test]
fn segment_slope_is_rise_over_run() {
    let s = rsgeo::geom::Segment { a: c(0.0, 0.0), b: c(4.0, 1.0) };
    assert_eq!(f64::from_bits(rsgeo::rnetmerge::slope(&s)), 0.25);
    let v = rsgeo::geom::Segment { a: c(2.0, 0.0), b: c(2.0, 5.0) };
    assert!(f64::from_bits(rsgeo::rnetmerge::slope(&v)).is_infinite());
}

#[test]
fn degenerate_zero_length_segments_are_skipped_quietly() {
    // the repeated coordinate makes a zero-length reference segment whose
    // slope is 0/0, a NaN; it matches nothing, the rest still matches
    let x = vec![line(&[(0.0, 0.0), (0.0, 0.0), (10.0, 0.0)])];
    let y = vec![line(&[(2.0, 0.0), (8.0, 0.0)])];
    let rows = rnet_merge(&x, &y, 0.01f64.to_bits(), 0.01f64.to_bits()).unwrap();
    assert_eq!(rows.len(), 1);
    assert_eq!((rows[0].i, rows[0].j), (1, 1));
    assert!((len_of(rows[0].shared_len) - 6.0).abs() < 1e-9);
}

#[test]
fn nan_coordinates_never_panic_and_never_match() {
    let x = vec![
        line(&[(f64::NAN, 0.0), (10.0, f64::NAN)]),
        line(&[(0.0, 0.0), (10.0, 0.0)]),
    ];
    let y = vec![line(&[(2.0, 0.0), (8.0, 0.0)])];
    let rows = rnet_merge(&x, &y, 0.01f64.to_bits(), 0.01f64.to_bits()).unwrap();
    assert_eq!(rows.len(), 1);
    assert_eq!((rows[0].i, rows[0].j), (2, 1));
}

#[test]
fn shared_lengths_are_never_negative() {
    let x = vec![
        line(&[(0.0, 0.0), (10.0, 10.0)]),
        line(&[(0.0, 0.0), (10.0, 0.0)]),
    ];
    let y = vec![
        line(&[(2.0, 2.0), (8.0, 8.0)]),
        line(&[(8.0, 0.0), (2.0, 0.0)]),
    ];
    let rows = rnet_merge(&x, &y, 1.0f64.to_bits(), 0.1f64.to_bits()).unwrap();
    assert!(!rows.is_empty());
    for r in rows.iter() {
        let v = len_of(r.shared_len);
        assert!(v.is_nan() || v >= 0.0);
        assert!(!v.is_nan());
    }
}

#[test]
fn overlap_bound_picks_ignore_nan_ends() {
    let a = (f64::NAN.to_bits(), 4.0f64.to_bits());
    let b = (2.0f64.to_bits(), 10.0f64.to_bits());
    let ov = rsgeo::rnetmerge::overlap_range(a, b).unwrap();
    assert_eq!(f64::from_bits(ov.0), 2.0);
    assert_eq!(f64::from_bits(ov.1), 4.0);
    let vo = rsgeo::rnetmerge::overlap_range(b, a).unwrap();
    assert_eq!(f64::from_bits(vo.0), 2.0);
    assert_eq!(f64::from_bits(vo.1), 4.0);
}
