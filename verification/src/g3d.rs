//! 3-D primitives: point/vector algebra, orthographic projection, planes,
//! and the pairwise occlusion relation `is_above`.

use vstd::prelude::*;
use crate::g2d::{self, Point2, Triangle2, in_range, div_trunc};

verus! {

/// A 3-D point with integer coordinates; also used for free vectors
/// (a vector is a position relative to the origin).
#[derive(Debug, PartialEq, Eq, Structural, Copy, Clone)]
pub struct Point3 {
    pub x: i64,
    pub y: i64,
    pub z: i64,
}

pub type Vector3 = Point3;

pub open spec fn pt3_m(p: Point3) -> (int, int, int) {
    (p.x as int, p.y as int, p.z as int)
}

/// Componentwise difference `p - q` as mathematical integers.
pub open spec fn vec_sub(p: Point3, q: Point3) -> (int, int, int) {
    (p.x - q.x, p.y - q.y, p.z - q.z)
}

/// The cross product of two integer vectors.
pub open spec fn cross_t(v: (int, int, int), w: (int, int, int)) -> (int, int, int) {
    (v.1 * w.2 - v.2 * w.1, v.2 * w.0 - v.0 * w.2, v.0 * w.1 - v.1 * w.0)
}

/// The dot product of two integer vectors.
pub open spec fn dot_t(v: (int, int, int), w: (int, int, int)) -> int {
    v.0 * w.0 + v.1 * w.1 + v.2 * w.2
}

/// Componentwise sums that stay within `i64`.
pub open spec fn can_add(p: Point3, q: Point3) -> bool {
    &&& i64::MIN <= p.x + q.x <= i64::MAX
    &&& i64::MIN <= p.y + q.y <= i64::MAX
    &&& i64::MIN <= p.z + q.z <= i64::MAX
}

impl Point3 {
    pub open spec fn in_range_spec(self) -> bool {
        in_range(self.x as int) && in_range(self.y as int) && in_range(self.z as int)
    }

    pub fn new(x: i64, y: i64, z: i64) -> (r: Self)
        ensures
            r.x == x,
            r.y == y,
            r.z == z,
    {
        Point3 { x, y, z }
    }

    /// Orthographic projection along the z-axis: the z-coordinate is
    /// dropped, nothing else changes.
    pub fn project(&self) -> (r: Point2)
        ensures
            r.x == self.x,
            r.y == self.y,
    {
        Point2::new(self.x, self.y)
    }

    /// Componentwise vector addition.
    pub fn add(&self, other: &Point3) -> (r: Point3)
        requires
            can_add(*self, *other),
        ensures
            r.x == self.x + other.x,
            r.y == self.y + other.y,
            r.z == self.z + other.z,
    {
        Point3::new(self.x + other.x, self.y + other.y, self.z + other.z)
    }

    /// Componentwise negation.
    pub fn neg(&self) -> (r: Point3)
        requires
            self.x > i64::MIN,
            self.y > i64::MIN,
            self.z > i64::MIN,
        ensures
            r.x == -self.x,
            r.y == -self.y,
            r.z == -self.z,
    {
        Point3::new(-self.x, -self.y, -self.z)
    }

    /// Adds the same scalar to every coordinate.
    pub fn shift(&self, scalar: i64) -> (r: Point3)
        requires
            i64::MIN <= self.x + scalar <= i64::MAX,
            i64::MIN <= self.y + scalar <= i64::MAX,
            i64::MIN <= self.z + scalar <= i64::MAX,
        ensures
            r.x == self.x + scalar,
            r.y == self.y + scalar,
            r.z == self.z + scalar,
    {
        Point3::new(self.x + scalar, self.y + scalar, self.z + scalar)
    }

    /// The cross product. The bound admits difference vectors of in-range
    /// points, whose coordinates reach twice the coordinate limit.
    pub fn x_product(&self, other: &Point3) -> (r: Point3)
        requires
            -1_000_000 <= self.x <= 1_000_000,
            -1_000_000 <= self.y <= 1_000_000,
            -1_000_000 <= self.z <= 1_000_000,
            -1_000_000 <= other.x <= 1_000_000,
            -1_000_000 <= other.y <= 1_000_000,
            -1_000_000 <= other.z <= 1_000_000,
        ensures
            (r.x as int, r.y as int, r.z as int) == cross_t(pt3_m(*self), pt3_m(*other)),
            -2_000_000_000_000 <= r.x <= 2_000_000_000_000,
            -2_000_000_000_000 <= r.y <= 2_000_000_000_000,
            -2_000_000_000_000 <= r.z <= 2_000_000_000_000,
    {
        proof {
            lemma_prod_bound(self.x as int, self.y as int, self.z as int, other.x as int,
                other.y as int, other.z as int);
        }
        let x = self.y * other.z - self.z * other.y;
        let y = self.z * other.x - self.x * other.z;
        let z = self.x * other.y - self.y * other.x;
        Point3::new(x, y, z)
    }

    /// The dot product. The bounds fit its use on a plane normal (whose
    /// components are bounded by cross products of difference vectors)
    /// against an in-range point.
    pub fn dot_product(&self, other: &Point3) -> (r: i64)
        requires
            -2_000_000_000_000 <= self.x <= 2_000_000_000_000,
            -2_000_000_000_000 <= self.y <= 2_000_000_000_000,
            -2_000_000_000_000 <= self.z <= 2_000_000_000_000,
            other.in_range_spec(),
        ensures
            r as int == dot_t(pt3_m(*self), pt3_m(*other)),
            -3_000_000_000_000_000_000 <= r <= 3_000_000_000_000_000_000,
    {
        assert(-1_000_000_000_000_000_000 <= self.x * other.x <= 1_000_000_000_000_000_000
            && -1_000_000_000_000_000_000 <= self.y * other.y <= 1_000_000_000_000_000_000
            && -1_000_000_000_000_000_000 <= self.z * other.z <= 1_000_000_000_000_000_000)
            by (nonlinear_arith)
            requires
                -2_000_000_000_000 <= self.x <= 2_000_000_000_000,
                -2_000_000_000_000 <= self.y <= 2_000_000_000_000,
                -2_000_000_000_000 <= self.z <= 2_000_000_000_000,
                other.in_range_spec(),
        ;
        self.x * other.x + self.y * other.y + self.z * other.z
    }
}

/// Pairwise products of coordinates up to one million stay within `i64`.
proof fn lemma_prod_bound(a: int, b: int, c: int, d: int, e: int, f: int)
    by (nonlinear_arith)
    requires
        -1_000_000 <= a <= 1_000_000,
        -1_000_000 <= b <= 1_000_000,
        -1_000_000 <= c <= 1_000_000,
        -1_000_000 <= d <= 1_000_000,
        -1_000_000 <= e <= 1_000_000,
        -1_000_000 <= f <= 1_000_000,
    ensures
        -1_000_000_000_000 <= b * f <= 1_000_000_000_000,
        -1_000_000_000_000 <= c * e <= 1_000_000_000_000,
        -1_000_000_000_000 <= c * d <= 1_000_000_000_000,
        -1_000_000_000_000 <= a * f <= 1_000_000_000_000,
        -1_000_000_000_000 <= a * e <= 1_000_000_000_000,
        -1_000_000_000_000 <= b * d <= 1_000_000_000_000,
{
}

/// A 3-D triangle given by its ordered vertex triple.
#[derive(Debug, PartialEq, Eq, Structural, Copy, Clone)]
pub struct Triagnle3 {
    pub p1: Point3,
    pub p2: Point3,
    pub p3: Point3,
}

/// Whether the three projected vertices are collinear, so that the
/// projection has zero area.
pub open spec fn proj_degenerate(t: Triagnle3) -> bool {
    (t.p1.y - t.p2.y) * (t.p1.x - t.p3.x) == (t.p1.y - t.p3.y) * (t.p1.x - t.p2.x)
}

/// The triangle's orthographic projection (before the degeneracy test).
pub open spec fn proj_tri(t: Triagnle3) -> Triangle2 {
    Triangle2 {
        p1: Point2 { x: t.p1.x, y: t.p1.y },
        p2: Point2 { x: t.p2.x, y: t.p2.y },
        p3: Point2 { x: t.p3.x, y: t.p3.y },
    }
}

/// The coefficients `(a, b, c, d)` of the plane `a*x + b*y + c*z = d`
/// through the triangle: normal from the cross product of the edge vectors
/// `p3 - p1` and `p2 - p1`, offset from the normal against `p3`.
pub open spec fn plane_of(t: Triagnle3) -> (int, int, int, int) {
    let n = cross_t(vec_sub(t.p3, t.p1), vec_sub(t.p2, t.p1));
    (n.0, n.1, n.2, dot_t(n, pt3_m(t.p3)))
}

/// The height of the plane over `(x, y)`: `None` when the plane is
/// vertical (`c == 0`), else `z` with truncating division.
pub open spec fn plane_z_at(pl: (int, int, int, int), x: int, y: int) -> Option<int> {
    if pl.2 == 0 {
        None
    } else {
        Some(div_trunc(pl.3 - x * pl.0 - y * pl.1, pl.2))
    }
}

/// The occlusion relation: `t` must be painted strictly after `u`.
///
/// False whenever the relation cannot be determined: a degenerate
/// projection, no 2-D overlap, or a vertical plane (undefined height).
pub open spec fn is_above_m(t: Triagnle3, u: Triagnle3) -> bool {
    if proj_degenerate(t) || proj_degenerate(u) {
        false
    } else {
        match g2d::tri_inter(proj_tri(t), proj_tri(u)) {
            None => false,
            Some(p) => match (plane_z_at(plane_of(t), p.0, p.1), plane_z_at(plane_of(u), p.0, p.1)) {
                (Some(ht), Some(hu)) => ht > hu,
                _ => false,
            },
        }
    }
}

impl Triagnle3 {
    pub open spec fn in_range_spec(self) -> bool {
        self.p1.in_range_spec() && self.p2.in_range_spec() && self.p3.in_range_spec()
    }

    pub fn new(p1: Point3, p2: Point3, p3: Point3) -> (r: Self)
        ensures
            r.p1 == p1,
            r.p2 == p2,
            r.p3 == p3,
    {
        Triagnle3 { p1, p2, p3 }
    }

    /// The triangle's orthographic projection, or `None` when the
    /// projected vertices are collinear.
    pub fn project(&self) -> (r: Option<Triangle2>)
        requires
            self.in_range_spec(),
        ensures
            r is Some <==> !proj_degenerate(*self),
            r is Some ==> r->0 == proj_tri(*self),
    {
        let p1 = self.p1.project();
        let p2 = self.p2.project();
        let p3 = self.p3.project();
        assert(-4_000_000_000_000 <= (p1.y - p2.y) * (p1.x - p3.x) <= 4_000_000_000_000
            && -4_000_000_000_000 <= (p1.y - p3.y) * (p1.x - p2.x) <= 4_000_000_000_000)
            by (nonlinear_arith)
            requires
                in_range(p1.x as int),
                in_range(p1.y as int),
                in_range(p2.x as int),
                in_range(p2.y as int),
                in_range(p3.x as int),
                in_range(p3.y as int),
        ;
        let on_the_same_line = (p1.y - p2.y) * (p1.x - p3.x) == (p1.y - p3.y) * (p1.x - p2.x);
        if on_the_same_line {
            None
        } else {
            Some(Triangle2::new(p1, p2, p3))
        }
    }

    /// Whether `self` must be painted after `other`: their projections
    /// overlap and `self`'s plane is strictly higher at a common point.
    /// False whenever the relation cannot be determined (degenerate
    /// projection, no overlap, or a vertical plane).
    pub fn is_above(&self, other: &Triagnle3) -> (r: bool)
        requires
            self.in_range_spec(),
            other.in_range_spec(),
        ensures
            r == is_above_m(*self, *other),
    {
        match (self.project(), other.project()) {
            (Some(slf), Some(otr)) => {
                if let Some(point) = slf.intersection(&otr) {
                    let self_h = Plane::from_triangle(self).get_z(point.x, point.y);
                    let other_h = Plane::from_triangle(other).get_z(point.x, point.y);
                    match (self_h, other_h) {
                        (Some(h1), Some(h2)) => h1 > h2,
                        _ => false,
                    }
                } else {
                    false
                }
            },
            _ => false,
        }
    }

    /// Translates the triangle by a vector, componentwise.
    pub fn shift(&self, vector: &Vector3) -> (r: Triagnle3)
        requires
            can_add(self.p1, *vector),
            can_add(self.p2, *vector),
            can_add(self.p3, *vector),
        ensures
            (r.p1.x as int, r.p1.y as int, r.p1.z as int)
                == (self.p1.x + vector.x, self.p1.y + vector.y, self.p1.z + vector.z),
            (r.p2.x as int, r.p2.y as int, r.p2.z as int)
                == (self.p2.x + vector.x, self.p2.y + vector.y, self.p2.z + vector.z),
            (r.p3.x as int, r.p3.y as int, r.p3.z as int)
                == (self.p3.x + vector.x, self.p3.y + vector.y, self.p3.z + vector.z),
    {
        let p1 = self.p1.add(vector);
        let p2 = self.p2.add(vector);
        let p3 = self.p3.add(vector);
        Triagnle3::new(p1, p2, p3)
    }
}

/// The projection's collinearity test agrees with the 2-D orientation-sign
/// test: a triangle's projection is judged degenerate exactly when the
/// orientation sign of its three projected vertices is zero (the two
/// indicators are negatives of each other).
pub proof fn lemma_degenerate_iff_sign_zero(t: Triagnle3)
    ensures
        proj_degenerate(t) <==> g2d::sign_m(proj_tri(t).p1, proj_tri(t).p2, proj_tri(t).p3) == 0,
{
    let q = proj_tri(t);
    assert(g2d::orient_m(q.p1, q.p2, q.p3) == (t.p1.y - t.p3.y) * (t.p1.x - t.p2.x) - (t.p1.y
        - t.p2.y) * (t.p1.x - t.p3.x)) by (nonlinear_arith)
        requires
            q.p1.x == t.p1.x && q.p1.y == t.p1.y,
            q.p2.x == t.p2.x && q.p2.y == t.p2.y,
            q.p3.x == t.p3.x && q.p3.y == t.p3.y,
            g2d::orient_m(q.p1, q.p2, q.p3) == (q.p1.x - q.p3.x) * (q.p2.y - q.p3.y) - (q.p2.x
                - q.p3.x) * (q.p1.y - q.p3.y),
    ;
}

/// Translating a triangle does not change whether its projection is
/// degenerate: the projected differences are untouched by the shift.
pub proof fn lemma_shift_preserves_degenerate(
    t: Triagnle3,
    u: Triagnle3,
    dx: int,
    dy: int,
    dz: int,
)
    requires
        u.p1.x == t.p1.x + dx && u.p1.y == t.p1.y + dy && u.p1.z == t.p1.z + dz,
        u.p2.x == t.p2.x + dx && u.p2.y == t.p2.y + dy && u.p2.z == t.p2.z + dz,
        u.p3.x == t.p3.x + dx && u.p3.y == t.p3.y + dy && u.p3.z == t.p3.z + dz,
    ensures
        proj_degenerate(u) == proj_degenerate(t),
{
    assert(((u.p1.y - u.p2.y) * (u.p1.x - u.p3.x) == (u.p1.y - u.p3.y) * (u.p1.x - u.p2.x)) == ((
    t.p1.y - t.p2.y) * (t.p1.x - t.p3.x) == (t.p1.y - t.p3.y) * (t.p1.x - t.p2.x)))
        by (nonlinear_arith)
        requires
            u.p1.y - u.p2.y == t.p1.y - t.p2.y,
            u.p1.x - u.p3.x == t.p1.x - t.p3.x,
            u.p1.y - u.p3.y == t.p1.y - t.p3.y,
            u.p1.x - u.p2.x == t.p1.x - t.p2.x,
    ;
}

/// Bounds that hold of every plane derived from an in-range triangle; they
/// keep the height computation within `i64`.
pub open spec fn plane_fits(pl: Plane) -> bool {
    &&& -2_000_000_000_000 <= pl.a <= 2_000_000_000_000
    &&& -2_000_000_000_000 <= pl.b <= 2_000_000_000_000
    &&& -2_000_000_000_000 <= pl.c <= 2_000_000_000_000
    &&& -3_000_000_000_000_000_000 <= pl.d <= 3_000_000_000_000_000_000
}

/// A plane `a*x + b*y + c*z = d`, derived from a triangle.
#[derive(Debug, PartialEq, Eq, Structural, Copy, Clone)]
pub struct Plane {
    pub a: i64,
    pub b: i64,
    pub c: i64,
    pub d: i64,
}

impl Plane {
    pub open spec fn coeffs(self) -> (int, int, int, int) {
        (self.a as int, self.b as int, self.c as int, self.d as int)
    }

    pub fn new(a: i64, b: i64, c: i64, d: i64) -> (r: Self)
        ensures
            r.a == a,
            r.b == b,
            r.c == c,
            r.d == d,
    {
        Plane { a, b, c, d }
    }

    /// The plane through the three vertices of `triangle`.
    pub fn from_triangle(triangle: &Triagnle3) -> (r: Self)
        requires
            triangle.in_range_spec(),
        ensures
            r.coeffs() == plane_of(*triangle),
            plane_fits(r),
    {
        let v1 = triangle.p3.add(&triangle.p1.neg());
        let v2 = triangle.p2.add(&triangle.p1.neg());
        let x_prod = v1.x_product(&v2);
        let dot_prod = x_prod.dot_product(&triangle.p3);
        Plane::new(x_prod.x, x_prod.y, x_prod.z, dot_prod)
    }

    /// The height of the plane over `(x, y)` with truncating division, or
    /// `None` when the plane is vertical.
    pub fn get_z(&self, x: i64, y: i64) -> (r: Option<i64>)
        requires
            plane_fits(*self),
            in_range(x as int),
            in_range(y as int),
        ensures
            match r {
                None => plane_z_at(self.coeffs(), x as int, y as int) is None,
                Some(z) => plane_z_at(self.coeffs(), x as int, y as int) == Some(z as int),
            },
    {
        if self.c == 0 {
            return None;
        }
        assert(-1_000_000_000_000_000_000 <= x * self.a <= 1_000_000_000_000_000_000
            && -1_000_000_000_000_000_000 <= y * self.b <= 1_000_000_000_000_000_000)
            by (nonlinear_arith)
            requires
                in_range(x as int),
                in_range(y as int),
                -2_000_000_000_000 <= self.a <= 2_000_000_000_000,
                -2_000_000_000_000 <= self.b <= 2_000_000_000_000,
        ;
        Some(g2d::div_t_exec(self.d - x * self.a - y * self.b, self.c))
    }
}

} // verus!
