use annotator::geometry::{crossing_count, point_in_polygon, ray_intersect, Point};

fn polygon(coords: &[(i32, i32)]) -> Vec<Point> {
    coords.iter().map(|&(x, y)| Point { x, y }).collect()
}

fn square() -> Vec<Point> {
    polygon(&[(0, 0), (10, 0), (10, 10), (0, 10)])
}

#[test]
fn square_interior_pixels_are_inside() {
    let sq = square();
    for y in 1..10 {
        for x in 1..10 {
            assert!(point_in_polygon(&sq, x, y), "({x}, {y})");
        }
    }
}

#[test]
fn pixels_outside_the_bounding_box_are_outside() {
    let sq = square();
    for y in -5..16 {
        for x in -5..16 {
            if x < 0 || x > 10 || y < 0 || y > 10 {
                assert!(!point_in_polygon(&sq, x, y), "({x}, {y})");
            }
        }
    }
}

#[test]
fn square_boundary_follows_the_tie_policy() {
    let sq = square();
    for t in 0..11 {
        // The row of smallest y and both upright edges count as outside.
        assert!(!point_in_polygon(&sq, t, 0));
        assert!(!point_in_polygon(&sq, 0, t));
        assert!(!point_in_polygon(&sq, 10, t));
    }
    for x in 1..10 {
        // The row of largest y counts as inside.
        assert!(point_in_polygon(&sq, x, 10));
    }
}

#[test]
fn square_crossing_counts() {
    let sq = square();
    assert_eq!(crossing_count(&sq, -5, 5), 2);
    assert_eq!(crossing_count(&sq, 5, 5), 1);
    assert_eq!(crossing_count(&sq, 20, 5), 0);
    assert_eq!(crossing_count(&sq, 5, -3), 0);
    assert_eq!(crossing_count(&sq, 5, 30), 0);
}

fn on_square_outline(x: i64, y: i64) -> bool {
    let on_upright = (x == 0 || x == 10) && (0..=10).contains(&y);
    let on_level = (y == 0 || y == 10) && (0..=10).contains(&x);
    on_upright || on_level
}

#[test]
fn winding_direction_does_not_matter_off_the_outline() {
    let clockwise = polygon(&[(0, 10), (10, 10), (10, 0), (0, 0)]);
    let sq = square();
    for y in -2..13 {
        for x in -2..13 {
            if !on_square_outline(x, y) {
                let strictly_inside = 0 < x && x < 10 && 0 < y && y < 10;
                assert_eq!(point_in_polygon(&sq, x, y), strictly_inside, "({x}, {y})");
                assert_eq!(point_in_polygon(&clockwise, x, y), strictly_inside, "({x}, {y})");
            }
        }
    }
}

#[test]
fn outline_samples_depend_on_the_winding_direction() {
    // Drawn the other way round, the upright edges count as inside.
    let clockwise = polygon(&[(0, 10), (10, 10), (10, 0), (0, 0)]);
    for y in 1..11 {
        assert!(point_in_polygon(&clockwise, 0, y));
        assert!(point_in_polygon(&clockwise, 10, y));
    }
    for x in 0..11 {
        assert!(!point_in_polygon(&clockwise, x, 0));
        assert!(point_in_polygon(&clockwise, x, 10));
    }
}

#[test]
fn bowtie_has_two_lobes_and_an_exterior_waist() {
    // The two slanted edges cross at (5, 3.5), between the sampled rows.
    let bow = polygon(&[(0, 0), (10, 7), (10, 0), (0, 7)]);
    for y in [3i64, 4] {
        for x in 1..5 {
            assert!(point_in_polygon(&bow, x, y), "left lobe ({x}, {y})");
        }
        for x in 6..10 {
            assert!(point_in_polygon(&bow, x, y), "right lobe ({x}, {y})");
        }
    }
    // The column through the crossing separates the lobes in every row.
    for y in 0..8 {
        assert!(!point_in_polygon(&bow, 5, y), "waist (5, {y})");
    }
    // Above and below the crossing the ray crosses both slanted edges.
    assert_eq!(crossing_count(&bow, 5, 1), 2);
    assert_eq!(crossing_count(&bow, 5, 6), 2);
    assert_eq!(crossing_count(&bow, 2, 3), 3);
    assert_eq!(crossing_count(&bow, 8, 3), 1);
}

#[test]
fn symmetric_bowtie_lobes() {
    let bow = polygon(&[(0, 0), (10, 10), (10, 0), (0, 10)]);
    assert!(point_in_polygon(&bow, 2, 5));
    assert!(point_in_polygon(&bow, 8, 5));
    assert!(!point_in_polygon(&bow, 5, 2));
    assert!(!point_in_polygon(&bow, 5, 8));
}

#[test]
fn non_convex_polygon() {
    let ell = polygon(&[(0, 0), (6, 0), (6, 3), (3, 3), (3, 6), (0, 6)]);
    assert!(point_in_polygon(&ell, 1, 1));
    assert!(point_in_polygon(&ell, 5, 2));
    assert!(point_in_polygon(&ell, 1, 5));
    assert!(point_in_polygon(&ell, 2, 6));
    assert!(!point_in_polygon(&ell, 5, 5));
    assert!(!point_in_polygon(&ell, 4, 4));
    assert!(!point_in_polygon(&ell, 7, 1));
}

#[test]
fn triangle_rows() {
    let tri = polygon(&[(2, 2), (12, 2), (2, 12)]);
    let row = |y: i64| -> Vec<i64> { (0..14).filter(|&x| point_in_polygon(&tri, x, y)).collect() };
    assert_eq!(row(2), Vec::<i64>::new());
    assert_eq!(row(3), vec![3, 4, 5, 6, 7, 8, 9, 10]);
    assert_eq!(row(7), vec![3, 4, 5, 6]);
    assert_eq!(row(10), vec![3]);
    assert_eq!(row(11), Vec::<i64>::new());
}

#[test]
fn ray_intersect_on_an_upright_edge() {
    // The edge from (3, 0) to (3, 10), in both directions.
    assert!(ray_intersect(0, 5, 3, 0, 3, 10));
    assert!(ray_intersect(0, 5, 3, 10, 3, 0));
    assert!(!ray_intersect(5, 5, 3, 0, 3, 10));
    assert!(!ray_intersect(5, 5, 3, 10, 3, 0));
    // A sample on the edge's line: crossed when the edge runs towards
    // smaller y, not crossed when it runs towards larger y.
    assert!(!ray_intersect(3, 5, 3, 0, 3, 10));
    assert!(ray_intersect(3, 5, 3, 10, 3, 0));
}

#[test]
fn ray_intersect_needs_the_ends_to_straddle() {
    // A height equal to the sample's belongs to the upper side.
    assert!(!ray_intersect(0, 0, 3, 0, 3, 10));
    assert!(ray_intersect(0, 10, 3, 0, 3, 10));
    assert!(!ray_intersect(0, 11, 3, 0, 3, 10));
    assert!(!ray_intersect(0, -1, 3, 0, 3, 10));
    // A level edge is never crossed.
    assert!(!ray_intersect(0, 4, 1, 4, 9, 4));
    assert!(!ray_intersect(0, 3, 1, 4, 9, 4));
}

#[test]
fn ray_intersect_on_a_slanted_edge() {
    // From (0, 0) to (10, 10): at height 4 the edge is at x = 4.
    assert!(ray_intersect(3, 4, 0, 0, 10, 10));
    assert!(!ray_intersect(5, 4, 0, 0, 10, 10));
    assert!(ray_intersect(3, 4, 10, 10, 0, 0));
    assert!(!ray_intersect(5, 4, 10, 10, 0, 0));
}

#[test]
fn extreme_coordinates_do_not_overflow() {
    let huge = polygon(&[
        (i32::MIN, i32::MIN),
        (i32::MAX, i32::MIN),
        (i32::MAX, i32::MAX),
        (i32::MIN, i32::MAX),
    ]);
    assert!(point_in_polygon(&huge, 0, 0));
    assert!(!point_in_polygon(&huge, i64::MAX, 0));
    assert!(!point_in_polygon(&huge, i64::MIN, 0));
    assert!(!point_in_polygon(&huge, 0, i64::MAX));
    assert!(!point_in_polygon(&huge, 0, i64::MIN));
    assert!(ray_intersect(i64::MIN, 0, i32::MAX, i32::MIN, i32::MAX, i32::MAX));
    assert!(!ray_intersect(i64::MAX, 0, i32::MIN, i32::MIN, i32::MIN, i32::MAX));
}

#[test]
fn degenerate_polygons_have_no_interior_off_the_outline() {
    let none: Vec<Point> = Vec::new();
    let one = polygon(&[(3, 3)]);
    let two = polygon(&[(0, 0), (10, 10)]);
    for y in -1..12 {
        for x in -1..12 {
            assert!(!point_in_polygon(&none, x, y));
            assert_eq!(crossing_count(&none, x, y), 0);
            assert!(!point_in_polygon(&one, x, y));
            assert_eq!(crossing_count(&one, x, y), 0);
            if x != y {
                assert!(!point_in_polygon(&two, x, y), "({x}, {y})");
            }
        }
    }
}

#[test]
fn two_vertices_enclose_only_their_segment() {
    // There and back along one segment: a sample on it is crossed by the
    // way back alone.
    let two = polygon(&[(0, 0), (10, 10)]);
    assert_eq!(crossing_count(&two, 5, 5), 1);
    assert_eq!(crossing_count(&two, 4, 5), 2);
    assert_eq!(crossing_count(&two, 6, 5), 0);
    for t in 1..11 {
        assert!(point_in_polygon(&two, t, t));
    }
    assert!(!point_in_polygon(&two, 0, 0));
    assert!(!point_in_polygon(&two, 11, 11));
}
