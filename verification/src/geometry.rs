//! Point-in-polygon by the even-odd rule, in exact integer arithmetic.
//!
//! A polygon is an ordered list of vertices on the pixel grid; the edge from
//! the last vertex back to the first closes it. The outline may be non-convex
//! and may cross itself.
//!
//! Boundary policy. A horizontal ray is cast from the sample point towards
//! larger `x`. Two ties can arise, and each is settled the same way
//! everywhere:
//!
//! - a vertex whose `y` equals the sample's `y` counts as lying above the
//!   ray, on the side of larger `y`;
//! - a sample exactly on the line through an edge counts as lying where
//!   [`side`] is positive. The ray then crosses an edge that runs towards
//!   smaller `y` and does not cross one that runs towards larger `y`.
//!
//! So whether a sample on the outline itself is interior depends on the
//! direction in which the outline is drawn. Samples off the outline are
//! classified alike for both directions.

use vstd::prelude::*;

verus! {

/// A vertex on the pixel grid of the page.
#[derive(Clone, Copy, Debug, PartialEq, Eq, Structural)]
pub struct Point {
    pub x: i32,
    pub y: i32,
}

/// Whether the two heights `ay` and `by` lie on different sides of `oy`,
/// where a height equal to `oy` belongs to the upper side.
pub open spec fn straddles(oy: int, ay: int, by: int) -> bool {
    (ay >= oy) != (by >= oy)
}

/// Which side of the line through `a` and `b` the sample `(ox, oy)` lies on:
/// the cross product of `b - a` with the sample's offset from `a`.
pub open spec fn side(ox: int, oy: int, a: Point, b: Point) -> int {
    (ox - a.x) * (b.y - a.y) + (oy - a.y) * (a.x - b.x)
}

/// Whether the ray from `(ox, oy)` towards larger `x` crosses the edge from
/// `a` to `b`: the edge's ends straddle the ray's height, and the sample and
/// the far end of the ray lie on different sides of the edge's line.
pub open spec fn ray_crosses(ox: int, oy: int, a: Point, b: Point) -> bool {
    straddles(oy, a.y as int, b.y as int) && ((side(ox, oy, a, b) >= 0) != (b.y - a.y >= 0))
}

/// The vertex at which edge `i` of the closed polygon ends.
pub open spec fn edge_end(poly: Seq<Point>, i: int) -> Point {
    if i + 1 < poly.len() {
        poly[i + 1]
    } else {
        poly[0]
    }
}

/// How many of the first `k` edges the ray from `(ox, oy)` crosses.
pub open spec fn crossings_upto(poly: Seq<Point>, ox: int, oy: int, k: nat) -> nat
    decreases k,
{
    if k == 0 {
        0
    } else {
        let before = crossings_upto(poly, ox, oy, (k - 1) as nat);
        if ray_crosses(ox, oy, poly[k - 1], edge_end(poly, k - 1)) {
            before + 1
        } else {
            before
        }
    }
}

/// How many edges of the closed polygon the ray from `(ox, oy)` crosses.
pub open spec fn crossings(poly: Seq<Point>, ox: int, oy: int) -> nat {
    crossings_upto(poly, ox, oy, poly.len())
}

/// The even-odd rule: a sample is interior when its ray crosses the outline
/// an odd number of times.
pub open spec fn inside(poly: Seq<Point>, ox: int, oy: int) -> bool {
    crossings(poly, ox, oy) % 2 == 1
}

pub(crate) proof fn lemma_product_bound(a: int, b: int, m: int, n: int)
    requires
        -m <= a <= m,
        -n <= b <= n,
    ensures
        -(m * n) <= a * b <= m * n,
{
    assert((m - a) * (n - b) >= 0) by (nonlinear_arith)
        requires
            m - a >= 0,
            n - b >= 0,
    ;
    assert((m + a) * (n + b) >= 0) by (nonlinear_arith)
        requires
            m + a >= 0,
            n + b >= 0,
    ;
    assert((m - a) * (n + b) >= 0) by (nonlinear_arith)
        requires
            m - a >= 0,
            n + b >= 0,
    ;
    assert((m + a) * (n - b) >= 0) by (nonlinear_arith)
        requires
            m + a >= 0,
            n - b >= 0,
    ;
    assert((m - a) * (n - b) + (m + a) * (n + b) == 2 * (m * n) + 2 * (a * b))
        by (nonlinear_arith);
    assert((m - a) * (n + b) + (m + a) * (n - b) == 2 * (m * n) - 2 * (a * b))
        by (nonlinear_arith);
}

/// Tests whether the ray from `(ox, oy)` towards larger `x` crosses the edge
/// from `(ax, ay)` to `(bx, by)`.
pub fn ray_intersect(ox: i64, oy: i64, ax: i32, ay: i32, bx: i32, by: i32) -> (hit: bool)
    ensures
        hit == ray_crosses(ox as int, oy as int, Point { x: ax, y: ay }, Point { x: bx, y: by }),
{
    if (ay as i64 >= oy) == (by as i64 >= oy) {
        return false;
    }
    let dx: i128 = ox as i128 - ax as i128;
    let dy: i128 = by as i128 - ay as i128;
    let ey: i128 = oy as i128 - ay as i128;
    let ex: i128 = ax as i128 - bx as i128;
    proof {
        let big: int = 0x1_0000_0000_0000_0000;
        let small: int = 0x1_0000_0000;
        lemma_product_bound(dx as int, dy as int, big, small);
        lemma_product_bound(ey as int, ex as int, big, small);
        assert(big * small == 0x1_0000_0000_0000_0000_0000_0000) by (nonlinear_arith)
            requires
                big == 0x1_0000_0000_0000_0000,
                small == 0x1_0000_0000,
        ;
    }
    let s: i128 = dx * dy + ey * ex;
    (s >= 0) != (dy >= 0)
}

/// Counts the edges of the closed polygon that the ray from `(ox, oy)`
/// towards larger `x` crosses.
pub fn crossing_count(poly: &Vec<Point>, ox: i64, oy: i64) -> (count: usize)
    ensures
        count == crossings(poly@, ox as int, oy as int),
{
    let n = poly.len();
    let mut count: usize = 0;
    let mut i: usize = 0;
    while i < n
        invariant
            i <= n,
            n == poly.len(),
            count == crossings_upto(poly@, ox as int, oy as int, i as nat),
            count <= i,
        decreases n - i,
    {
        let a = poly[i];
        let b = if i + 1 < n {
            poly[i + 1]
        } else {
            poly[0]
        };
        if ray_intersect(ox, oy, a.x, a.y, b.x, b.y) {
            count = count + 1;
        }
        i = i + 1;
    }
    count
}

/// Tests whether the sample `(ox, oy)` is interior to the closed polygon by
/// the even-odd rule.
pub fn point_in_polygon(poly: &Vec<Point>, ox: i64, oy: i64) -> (interior: bool)
    ensures
        interior == inside(poly@, ox as int, oy as int),
{
    crossing_count(poly, ox, oy) % 2 == 1
}

/// The side of a straddling edge's line on which a sample lies, written as a
/// sum of two products whose signs can be read off.
proof fn lemma_side_split(ox: int, oy: int, a: Point, b: Point)
    ensures
        side(ox, oy, a, b) == (b.y - oy) * (ox - a.x) + (oy - a.y) * (ox - b.x),
{
    assert((ox - a.x) * (b.y - a.y) + (oy - a.y) * (a.x - b.x) == (b.y - oy) * (ox - a.x) + (oy
        - a.y) * (ox - b.x)) by (nonlinear_arith);
}

/// A ray that starts to the right of both ends of an edge does not cross it.
proof fn lemma_edge_to_the_left(ox: int, oy: int, a: Point, b: Point)
    requires
        a.x < ox,
        b.x < ox,
    ensures
        !ray_crosses(ox, oy, a, b),
{
    if straddles(oy, a.y as int, b.y as int) {
        lemma_side_split(ox, oy, a, b);
        let p = (b.y - oy) * (ox - a.x);
        let q = (oy - a.y) * (ox - b.x);
        if b.y >= oy {
            assert(p >= 0) by (nonlinear_arith)
                requires
                    p == (b.y - oy) * (ox - a.x),
                    b.y - oy >= 0,
                    ox - a.x > 0,
            ;
            assert(q > 0) by (nonlinear_arith)
                requires
                    q == (oy - a.y) * (ox - b.x),
                    oy - a.y > 0,
                    ox - b.x > 0,
            ;
        } else {
            assert(p < 0) by (nonlinear_arith)
                requires
                    p == (b.y - oy) * (ox - a.x),
                    b.y - oy < 0,
                    ox - a.x > 0,
            ;
            assert(q <= 0) by (nonlinear_arith)
                requires
                    q == (oy - a.y) * (ox - b.x),
                    oy - a.y <= 0,
                    ox - b.x > 0,
            ;
        }
    }
}

/// A ray that starts to the left of both ends of an edge crosses it exactly
/// when the edge's ends straddle the ray's height.
proof fn lemma_edge_to_the_right(ox: int, oy: int, a: Point, b: Point)
    requires
        ox < a.x,
        ox < b.x,
    ensures
        ray_crosses(ox, oy, a, b) == straddles(oy, a.y as int, b.y as int),
{
    if straddles(oy, a.y as int, b.y as int) {
        lemma_side_split(ox, oy, a, b);
        let p = (b.y - oy) * (ox - a.x);
        let q = (oy - a.y) * (ox - b.x);
        if b.y >= oy {
            assert(p <= 0) by (nonlinear_arith)
                requires
                    p == (b.y - oy) * (ox - a.x),
                    b.y - oy >= 0,
                    ox - a.x < 0,
            ;
            assert(q < 0) by (nonlinear_arith)
                requires
                    q == (oy - a.y) * (ox - b.x),
                    oy - a.y > 0,
                    ox - b.x < 0,
            ;
        } else {
            assert(p > 0) by (nonlinear_arith)
                requires
                    p == (b.y - oy) * (ox - a.x),
                    b.y - oy < 0,
                    ox - a.x < 0,
            ;
            assert(q >= 0) by (nonlinear_arith)
                requires
                    q == (oy - a.y) * (ox - b.x),
                    oy - a.y <= 0,
                    ox - b.x < 0,
            ;
        }
    }
}

/// No edge is crossed when every vertex lies on the same side of the ray's
/// height.
pub proof fn lemma_no_crossing_beside_rows(poly: Seq<Point>, ox: int, oy: int, k: nat)
    requires
        k <= poly.len(),
        (forall|i: int| 0 <= i < poly.len() ==> poly[i].y >= oy) || (forall|i: int|
            0 <= i < poly.len() ==> poly[i].y < oy),
    ensures
        crossings_upto(poly, ox, oy, k) == 0,
    decreases k,
{
    if k > 0 {
        lemma_no_crossing_beside_rows(poly, ox, oy, (k - 1) as nat);
    }
}

/// No edge is crossed when every vertex lies to the left of the sample.
pub proof fn lemma_no_crossing_right_of_columns(poly: Seq<Point>, ox: int, oy: int, k: nat)
    requires
        k <= poly.len(),
        forall|i: int| 0 <= i < poly.len() ==> poly[i].x < ox,
    ensures
        crossings_upto(poly, ox, oy, k) == 0,
    decreases k,
{
    if k > 0 {
        lemma_no_crossing_right_of_columns(poly, ox, oy, (k - 1) as nat);
        lemma_edge_to_the_left(ox, oy, poly[k - 1], edge_end(poly, k - 1));
    }
}

/// The vertex reached after `k` edges of the closed polygon.
pub open spec fn vertex_after(poly: Seq<Point>, k: int) -> Point {
    if k < poly.len() {
        poly[k]
    } else {
        poly[0]
    }
}

/// When every vertex lies to the right of the sample, the first `k` edges
/// are crossed an odd number of times exactly when the walk along them ends
/// on the other side of the ray's height than it began.
pub proof fn lemma_crossings_left_of_columns(poly: Seq<Point>, ox: int, oy: int, k: nat)
    requires
        0 < poly.len(),
        k <= poly.len(),
        forall|i: int| 0 <= i < poly.len() ==> ox < poly[i].x,
    ensures
        (crossings_upto(poly, ox, oy, k) % 2 == 1) == straddles(
            oy,
            poly[0].y as int,
            vertex_after(poly, k as int).y as int,
        ),
    decreases k,
{
    if k > 0 {
        lemma_crossings_left_of_columns(poly, ox, oy, (k - 1) as nat);
        lemma_edge_to_the_right(ox, oy, poly[k - 1], edge_end(poly, k - 1));
        assert(edge_end(poly, k - 1) == vertex_after(poly, k as int));
        assert(vertex_after(poly, k - 1) == poly[k - 1]);
    }
}

/// Whether `(ox, oy)` lies outside the smallest upright rectangle that holds
/// every vertex of the polygon.
pub open spec fn outside_bounding_box(poly: Seq<Point>, ox: int, oy: int) -> bool {
    ||| forall|i: int| 0 <= i < poly.len() ==> ox < poly[i].x
    ||| forall|i: int| 0 <= i < poly.len() ==> poly[i].x < ox
    ||| forall|i: int| 0 <= i < poly.len() ==> oy < poly[i].y
    ||| forall|i: int| 0 <= i < poly.len() ==> poly[i].y < oy
}

/// A sample outside the bounding box of a polygon is exterior, whatever the
/// polygon's shape.
pub proof fn law_outside_bounding_box_is_exterior(poly: Seq<Point>, ox: int, oy: int)
    requires
        outside_bounding_box(poly, ox, oy),
    ensures
        !inside(poly, ox, oy),
{
    if poly.len() == 0 {
    } else if forall|i: int| 0 <= i < poly.len() ==> ox < poly[i].x {
        lemma_crossings_left_of_columns(poly, ox, oy, poly.len());
    } else if forall|i: int| 0 <= i < poly.len() ==> poly[i].x < ox {
        lemma_no_crossing_right_of_columns(poly, ox, oy, poly.len());
    } else {
        lemma_no_crossing_beside_rows(poly, ox, oy, poly.len());
    }
}

/// The upright rectangle with the corners `(x0, y0)` and `(x1, y1)`, drawn
/// from `(x0, y0)` along the row `y0` first.
pub open spec fn upright_rectangle(x0: i32, y0: i32, x1: i32, y1: i32) -> Seq<Point> {
    seq![
        Point { x: x0, y: y0 },
        Point { x: x1, y: y0 },
        Point { x: x1, y: y1 },
        Point { x: x0, y: y1 },
    ]
}

/// The ray from `(ox, oy)` crosses an upright edge in column `x` exactly when
/// the edge's ends straddle the ray's height and the sample lies before the
/// edge; a sample in column `x` itself lies before an edge that runs towards
/// smaller `y` only.
proof fn lemma_upright_edge(ox: int, oy: int, a: Point, b: Point)
    requires
        a.x == b.x,
    ensures
        ray_crosses(ox, oy, a, b) == (straddles(oy, a.y as int, b.y as int) && if b.y > a.y {
            ox < a.x
        } else {
            ox <= a.x
        }),
{
    let d = b.y - a.y;
    assert(side(ox, oy, a, b) == (ox - a.x) * d) by (nonlinear_arith)
        requires
            side(ox, oy, a, b) == (ox - a.x) * (b.y - a.y) + (oy - a.y) * (a.x - b.x),
            a.x - b.x == 0,
            d == b.y - a.y,
    ;
    if d > 0 {
        assert(((ox - a.x) * d >= 0) == (ox - a.x >= 0)) by (nonlinear_arith)
            requires
                d > 0,
        ;
    } else if d < 0 {
        assert(((ox - a.x) * d >= 0) == (ox - a.x <= 0)) by (nonlinear_arith)
            requires
                d < 0,
        ;
    }
}

/// Which samples are interior to an upright rectangle: those strictly
/// between its upright edges, below its row of smallest `y` and not below
/// its row of largest `y`. So every sample strictly inside the rectangle is
/// interior.
pub proof fn law_rectangle_interior(x0: i32, y0: i32, x1: i32, y1: i32, ox: int, oy: int)
    requires
        x0 < x1,
        y0 < y1,
    ensures
        inside(upright_rectangle(x0, y0, x1, y1), ox, oy) == (x0 < ox < x1 && y0 < oy <= y1),
{
    let r = upright_rectangle(x0, y0, x1, y1);
    reveal_with_fuel(crossings_upto, 5);
    assert(r.len() == 4);
    assert(!ray_crosses(ox, oy, r[0], r[1]));
    assert(!ray_crosses(ox, oy, r[2], r[3]));
    lemma_upright_edge(ox, oy, r[1], r[2]);
    lemma_upright_edge(ox, oy, r[3], r[0]);
    assert(edge_end(r, 3) == r[0]);
}

} // verus!
