//! Points on an integer grid, triangles, bounding boxes, and the exact
//! cross products and signed volumes of triangles.
//!
//! Coordinates are integers: a caller holding floating-point positions places
//! them on a grid of its choosing (a power-of-two scale keeps the conversion
//! exact for most inputs), and every computation here is then exact.
use vstd::prelude::*;

verus! {

/// A point whose coordinates lie on an integer grid.
#[derive(Clone, Copy, Debug, PartialEq, Eq, Structural)]
pub struct Point {
    pub x: i32,
    pub y: i32,
    pub z: i32,
}

/// Three points in the order in which they were supplied.
pub type Triangle = [Point; 3];

impl Point {
    pub fn new(x: i32, y: i32, z: i32) -> (r: Point)
        ensures
            r == (Point { x, y, z }),
    {
        Point { x, y, z }
    }
}

pub open spec fn abs(v: int) -> int {
    if v < 0 { -v } else { v }
}

pub open spec fn max3(a: int, b: int, c: int) -> int {
    if a >= b && a >= c { a } else if b >= c { b } else { c }
}

/// The largest per-axis coordinate difference of two points.
pub open spec fn chebyshev(a: Point, b: Point) -> int {
    max3(abs(a.x - b.x), abs(a.y - b.y), abs(a.z - b.z))
}

/// Largest per-axis absolute difference between two points.
pub fn chebyshev_distance(a: &Point, b: &Point) -> (r: u64)
    ensures
        r as int == chebyshev(*a, *b),
{
    let dx: i64 = a.x as i64 - b.x as i64;
    let dy: i64 = a.y as i64 - b.y as i64;
    let dz: i64 = a.z as i64 - b.z as i64;
    let ax: u64 = if dx < 0 { (-dx) as u64 } else { dx as u64 };
    let ay: u64 = if dy < 0 { (-dy) as u64 } else { dy as u64 };
    let az: u64 = if dz < 0 { (-dz) as u64 } else { dz as u64 };
    if ax >= ay && ax >= az {
        ax
    } else if ay >= az {
        ay
    } else {
        az
    }
}

/// All corners of a triangle sequence, three per triangle, in order.
pub open spec fn corners(ts: Seq<Triangle>) -> Seq<Point> {
    Seq::new(3 * ts.len(), |i: int| ts[i / 3]@[i % 3])
}

pub open spec fn min_int(a: int, b: int) -> int {
    if a <= b { a } else { b }
}

pub open spec fn max_int(a: int, b: int) -> int {
    if a >= b { a } else { b }
}

/// Per-axis minimum over a non-empty sequence of points.
pub open spec fn lower_corner(ps: Seq<Point>) -> Point
    decreases ps.len(),
{
    if ps.len() <= 1 {
        ps[0]
    } else {
        let m = lower_corner(ps.drop_last());
        let p = ps.last();
        Point {
            x: min_int(m.x as int, p.x as int) as i32,
            y: min_int(m.y as int, p.y as int) as i32,
            z: min_int(m.z as int, p.z as int) as i32,
        }
    }
}

/// Per-axis maximum over a non-empty sequence of points.
pub open spec fn upper_corner(ps: Seq<Point>) -> Point
    decreases ps.len(),
{
    if ps.len() <= 1 {
        ps[0]
    } else {
        let m = upper_corner(ps.drop_last());
        let p = ps.last();
        Point {
            x: max_int(m.x as int, p.x as int) as i32,
            y: max_int(m.y as int, p.y as int) as i32,
            z: max_int(m.z as int, p.z as int) as i32,
        }
    }
}

/// Every point of a non-empty sequence lies between its lower and upper corners.
pub proof fn lemma_corners_bound(ps: Seq<Point>)
    requires
        ps.len() > 0,
    ensures
        forall|i: int| 0 <= i < ps.len() ==> {
            &&& lower_corner(ps).x <= (#[trigger] ps[i]).x <= upper_corner(ps).x
            &&& lower_corner(ps).y <= ps[i].y <= upper_corner(ps).y
            &&& lower_corner(ps).z <= ps[i].z <= upper_corner(ps).z
        },
    decreases ps.len(),
{
    if ps.len() > 1 {
        let qs = ps.drop_last();
        lemma_corners_bound(qs);
        assert forall|i: int| 0 <= i < ps.len() implies {
            &&& lower_corner(ps).x <= (#[trigger] ps[i]).x <= upper_corner(ps).x
            &&& lower_corner(ps).y <= ps[i].y <= upper_corner(ps).y
            &&& lower_corner(ps).z <= ps[i].z <= upper_corner(ps).z
        } by {
            if i < ps.len() - 1 {
                assert(ps[i] == qs[i]);
            }
        }
    }
}

/// The bounding box of a triangle sequence, `None` when it is empty.
pub open spec fn spec_bounding_box(ts: Seq<Triangle>) -> Option<(Point, Point)> {
    if ts.len() == 0 {
        None
    } else {
        Some((lower_corner(corners(ts)), upper_corner(corners(ts))))
    }
}

/// Returns the per-axis minimum and maximum corners over all vertices of all
/// triangles, or `None` if there are no triangles.
pub fn bounding_box(triangles: &[Triangle]) -> (r: Option<(Point, Point)>)
    ensures
        r == spec_bounding_box(triangles@),
{
    if triangles.len() == 0 {
        return None;
    }
    let ghost cs = corners(triangles@);
    let mut min = triangles[0][0];
    let mut max = triangles[0][0];
    let mut i: usize = 0;
    while i < triangles.len()
        invariant
            0 <= i <= triangles.len(),
            cs == corners(triangles@),
            i == 0 ==> min == triangles@[0]@[0] && max == triangles@[0]@[0],
            i > 0 ==> min == lower_corner(cs.take(3 * i)) && max == upper_corner(cs.take(3 * i)),
        decreases triangles.len() - i,
    {
        let t = triangles[i];
        let mut j: usize = 0;
        while j < 3
            invariant
                0 <= i < triangles.len(),
                0 <= j <= 3,
                t == triangles@[i as int],
                cs == corners(triangles@),
                i == 0 && j == 0 ==> min == triangles@[0]@[0] && max == triangles@[0]@[0],
                i > 0 || j > 0 ==> min == lower_corner(cs.take(3 * i + j))
                    && max == upper_corner(cs.take(3 * i + j)),
            decreases 3 - j,
        {
            let v = t[j];
            proof {
                let k = 3 * i + j;
                assert(cs[k as int] == v);
                assert(cs.take(k + 1).drop_last() == cs.take(k as int));
                assert(cs.take(k + 1).last() == v);
                if k == 0 {
                    assert(cs.take(1).len() == 1);
                }
            }
            min = Point {
                x: if v.x < min.x { v.x } else { min.x },
                y: if v.y < min.y { v.y } else { min.y },
                z: if v.z < min.z { v.z } else { min.z },
            };
            max = Point {
                x: if v.x > max.x { v.x } else { max.x },
                y: if v.y > max.y { v.y } else { max.y },
                z: if v.z > max.z { v.z } else { max.z },
            };
            j += 1;
        }
        i += 1;
    }
    assert(cs.take(3 * triangles.len() as int) == cs);
    Some((min, max))
}

/// Per-axis minimum and maximum over a sequence of points, `None` when it is empty.
pub fn point_bounds(points: &[Point]) -> (r: Option<(Point, Point)>)
    ensures
        r == (if points@.len() == 0 {
            None
        } else {
            Some((lower_corner(points@), upper_corner(points@)))
        }),
{
    if points.len() == 0 {
        return None;
    }
    let mut min = points[0];
    let mut max = points[0];
    let mut i: usize = 1;
    assert(points@.take(1).len() == 1);
    while i < points.len()
        invariant
            1 <= i <= points.len(),
            min == lower_corner(points@.take(i as int)),
            max == upper_corner(points@.take(i as int)),
        decreases points.len() - i,
    {
        let v = points[i];
        assert(points@.take(i + 1).drop_last() == points@.take(i as int));
        min = Point {
            x: if v.x < min.x { v.x } else { min.x },
            y: if v.y < min.y { v.y } else { min.y },
            z: if v.z < min.z { v.z } else { min.z },
        };
        max = Point {
            x: if v.x > max.x { v.x } else { max.x },
            y: if v.y > max.y { v.y } else { max.y },
            z: if v.z > max.z { v.z } else { max.z },
        };
        i += 1;
    }
    assert(points@.take(points.len() as int) == points@);
    Some((min, max))
}

/// An integer vector wide enough for products of grid coordinates.
#[derive(Clone, Copy, Debug, PartialEq, Eq, Structural)]
pub struct WideVector {
    pub x: i128,
    pub y: i128,
    pub z: i128,
}

/// The cross product of the edges from a triangle's first vertex to its
/// second and third; its length is twice the triangle's area.
pub open spec fn spec_edge_cross(t: Triangle) -> (int, int, int) {
    let (ax, ay, az) = (t@[1].x - t@[0].x, t@[1].y - t@[0].y, t@[1].z - t@[0].z);
    let (bx, by, bz) = (t@[2].x - t@[0].x, t@[2].y - t@[0].y, t@[2].z - t@[0].z);
    (ay * bz - az * by, az * bx - ax * bz, ax * by - ay * bx)
}

/// Six times the signed volume of the tetrahedron spanned by the origin and
/// the triangle: the edge cross product dotted with the first vertex.
pub open spec fn six_tetra_volume(t: Triangle) -> int {
    let c = spec_edge_cross(t);
    c.0 * t@[0].x + c.1 * t@[0].y + c.2 * t@[0].z
}

/// Six times the signed volume enclosed by a triangle sequence.
pub open spec fn spec_six_volume(ts: Seq<Triangle>) -> int
    decreases ts.len(),
{
    if ts.len() == 0 {
        0
    } else {
        spec_six_volume(ts.drop_last()) + six_tetra_volume(ts.last())
    }
}

proof fn lemma_product_bound(a: int, b: int, ba: int, bb: int)
    requires
        -ba <= a <= ba,
        -bb <= b <= bb,
    ensures
        -(ba * bb) <= a * b <= ba * bb,
{
    assert(-(ba * bb) <= a * b <= ba * bb) by (nonlinear_arith)
        requires -ba <= a <= ba, -bb <= b <= bb;
}

/// The cross product of the triangle's two edges from its first vertex.
pub fn edge_cross(t: &Triangle) -> (r: WideVector)
    ensures
        (r.x as int, r.y as int, r.z as int) == spec_edge_cross(*t),
        -0x4_0000_0000_0000_0000 <= r.x <= 0x4_0000_0000_0000_0000,
        -0x4_0000_0000_0000_0000 <= r.y <= 0x4_0000_0000_0000_0000,
        -0x4_0000_0000_0000_0000 <= r.z <= 0x4_0000_0000_0000_0000,
{
    let ax: i128 = t[1].x as i128 - t[0].x as i128;
    let ay: i128 = t[1].y as i128 - t[0].y as i128;
    let az: i128 = t[1].z as i128 - t[0].z as i128;
    let bx: i128 = t[2].x as i128 - t[0].x as i128;
    let by: i128 = t[2].y as i128 - t[0].y as i128;
    let bz: i128 = t[2].z as i128 - t[0].z as i128;
    let ghost e: int = 0x1_0000_0000int;
    proof {
        lemma_product_bound(ay as int, bz as int, e, e);
        lemma_product_bound(az as int, by as int, e, e);
        lemma_product_bound(az as int, bx as int, e, e);
        lemma_product_bound(ax as int, bz as int, e, e);
        lemma_product_bound(ax as int, by as int, e, e);
        lemma_product_bound(ay as int, bx as int, e, e);
    }
    WideVector { x: ay * bz - az * by, y: az * bx - ax * bz, z: ax * by - ay * bx }
}

/// Six times the signed volume that a closed, outward-oriented triangle
/// sequence encloses: the sum over its triangles of the signed tetrahedra
/// with apex at the origin. For other sequences the value has no physical
/// meaning.
pub fn six_volume(triangles: &[Triangle]) -> (r: i128)
    requires
        triangles.len() <= 0x0800_0000,
    ensures
        r == spec_six_volume(triangles@),
{
    let mut sum: i128 = 0;
    let mut i: usize = 0;
    while i < triangles.len()
        invariant
            0 <= i <= triangles.len(),
            triangles.len() <= 0x0800_0000,
            sum == spec_six_volume(triangles@.take(i as int)),
            -(i * 0x8_0000_0000_0000_0000_0000_0000) <= sum <= i * 0x8_0000_0000_0000_0000_0000_0000,
        decreases triangles.len() - i,
    {
        let t = triangles[i];
        let c = edge_cross(&t);
        let ghost b: int = 0x4_0000_0000_0000_0000int;
        let ghost v: int = 0x8000_0000int;
        proof {
            lemma_product_bound(c.x as int, t@[0].x as int, b, v);
            lemma_product_bound(c.y as int, t@[0].y as int, b, v);
            lemma_product_bound(c.z as int, t@[0].z as int, b, v);
            assert(triangles@.take(i + 1).drop_last() == triangles@.take(i as int));
        }
        let term = c.x * (t[0].x as i128) + c.y * (t[0].y as i128) + c.z * (t[0].z as i128);
        sum = sum + term;
        i += 1;
    }
    assert(triangles@.take(triangles.len() as int) == triangles@);
    sum
}

} // verus!
