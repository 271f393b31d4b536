//! 2-D primitives: points, canonical lines, bounded segments, triangles.
//!
//! All geometry is exact integer arithmetic; intersection coordinates use
//! truncating division, as `div_trunc` states.

use vstd::prelude::*;

verus! {

/// Coordinates the library accepts. Every intermediate product of the
/// geometry (line coefficients, determinants, plane heights) stays within
/// `i64` when the input coordinates satisfy this bound.
pub open spec fn in_range(v: int) -> bool {
    -500_000 <= v <= 500_000
}

pub open spec fn abs_i(a: int) -> int {
    if a >= 0 {
        a
    } else {
        -a
    }
}

/// Truncating (round-toward-zero) division, the semantics Rust's `/` gives
/// to signed integers. Spec-mode `/` is Euclidean, so the definition divides
/// magnitudes and restores the sign.
pub open spec fn div_trunc(a: int, b: int) -> int {
    let q = abs_i(a) / abs_i(b);
    if (a >= 0) == (b >= 0) {
        q
    } else {
        -q
    }
}

/// Truncating division on machine integers, `a / b` as Rust computes it.
pub(crate) fn div_t_exec(a: i64, b: i64) -> (r: i64)
    requires
        b != 0,
        a > i64::MIN,
    ensures
        r as int == div_trunc(a as int, b as int),
{
    proof {
        vstd::arithmetic::div_mod::lemma_div_pos_is_pos(abs_i(a as int), abs_i(b as int));
        vstd::arithmetic::div_mod::lemma_div_nonincreasing(abs_i(a as int), abs_i(b as int));
    }
    match a.checked_div(b) {
        Some(q) => q,
        None => {
            proof {
                assert(false);
            }
            0
        },
    }
}

pub open spec fn min_c(a: int, b: int) -> int {
    if a <= b {
        a
    } else {
        b
    }
}

pub open spec fn max_c(a: int, b: int) -> int {
    if a <= b {
        b
    } else {
        a
    }
}

#[derive(Debug, PartialEq, Eq, Structural, Copy, Clone)]
pub struct Point2 {
    pub x: i64,
    pub y: i64,
}

impl Point2 {
    pub open spec fn in_range_spec(self) -> bool {
        in_range(self.x as int) && in_range(self.y as int)
    }

    pub fn new(x: i64, y: i64) -> (r: Self)
        ensures
            r.x == x,
            r.y == y,
    {
        Point2 { x, y }
    }
}

/// A pair of integer coordinates as mathematical integers; the model that
/// contracts about returned intersection points are stated over.
pub open spec fn pt_model(p: Point2) -> (int, int) {
    (p.x as int, p.y as int)
}

pub open spec fn pt_opt_model(r: Option<Point2>) -> Option<(int, int)> {
    match r {
        None => None,
        Some(p) => Some(pt_model(p)),
    }
}

/// An infinite line with equation `a * x + b * y = c`, kept in canonical
/// form: `a > 0`, or `a == 0 && b >= 0`, so that the two lines through the
/// same two points compare equal whichever way the points are given.
#[derive(Debug, PartialEq, Eq, Structural, Copy, Clone)]
pub struct Line {
    pub a: i64,
    pub b: i64,
    pub c: i64,
}

/// Sign-normalization of raw line coefficients.
pub open spec fn canon(t: (int, int, int)) -> (int, int, int) {
    if t.0 < 0 || (t.0 == 0 && t.1 < 0) {
        (-t.0, -t.1, -t.2)
    } else {
        t
    }
}

/// Raw two-point line-equation coefficients for the line through `p1`, `p2`.
pub open spec fn raw_line(p1: Point2, p2: Point2) -> (int, int, int) {
    (p1.y - p2.y, p2.x - p1.x, -(p1.x * p2.y - p2.x * p1.y))
}

/// The canonical line through two points.
pub open spec fn line_through(p1: Point2, p2: Point2) -> (int, int, int) {
    canon(raw_line(p1, p2))
}

/// Coefficient bounds that hold of every line built from in-range points;
/// they keep the intersection determinants within `i64`.
pub open spec fn line_fits(l: Line) -> bool {
    &&& -1_000_000 <= l.a <= 1_000_000
    &&& -1_000_000 <= l.b <= 1_000_000
    &&& -500_000_000_000 <= l.c <= 500_000_000_000
}

/// Where two lines (given as coefficient triples) cross: `None` when
/// parallel (or identical), else the crossing point with truncating
/// division.
pub open spec fn line_inter_m(l1: (int, int, int), l2: (int, int, int)) -> Option<(int, int)> {
    let d = l1.0 * l2.1 - l1.1 * l2.0;
    if d == 0 {
        None
    } else {
        Some(
            (
                div_trunc(l1.2 * l2.1 - l1.1 * l2.2, d),
                div_trunc(l1.0 * l2.2 - l1.2 * l2.0, d),
            ),
        )
    }
}

impl Line {
    pub open spec fn coeffs(self) -> (int, int, int) {
        (self.a as int, self.b as int, self.c as int)
    }

    pub fn new(a: i64, b: i64, c: i64) -> (r: Self)
        requires
            a > i64::MIN,
            b > i64::MIN,
            c > i64::MIN,
        ensures
            r.coeffs() == canon((a as int, b as int, c as int)),
    {
        if a < 0 || (a == 0 && b < 0) {
            Line { a: -a, b: -b, c: -c }
        } else {
            Line { a, b, c }
        }
    }

    pub fn from_segment(seg: &Segment) -> (r: Self)
        requires
            seg.p1.in_range_spec(),
            seg.p2.in_range_spec(),
        ensures
            r.coeffs() == line_through(seg.p1, seg.p2),
            line_fits(r),
    {
        let a = seg.p1.y - seg.p2.y;
        let b = seg.p2.x - seg.p1.x;
        assert(-250_000_000_000 <= seg.p1.x * seg.p2.y <= 250_000_000_000) by (nonlinear_arith)
            requires
                in_range(seg.p1.x as int),
                in_range(seg.p2.y as int),
        ;
        assert(-250_000_000_000 <= seg.p2.x * seg.p1.y <= 250_000_000_000) by (nonlinear_arith)
            requires
                in_range(seg.p2.x as int),
                in_range(seg.p1.y as int),
        ;
        let c = -(seg.p1.x * seg.p2.y - seg.p2.x * seg.p1.y);
        Line::new(a, b, c)
    }

    /// The crossing point of two lines; `None` when the determinant is zero
    /// (parallel or identical lines).
    pub fn intersection(&self, other: &Line) -> (r: Option<Point2>)
        requires
            line_fits(*self),
            line_fits(*other),
        ensures
            pt_opt_model(r) == line_inter_m(self.coeffs(), other.coeffs()),
    {
        assert(-1_000_000_000_000 <= self.a * other.b <= 1_000_000_000_000) by (nonlinear_arith)
            requires
                -1_000_000 <= self.a <= 1_000_000,
                -1_000_000 <= other.b <= 1_000_000,
        ;
        assert(-1_000_000_000_000 <= self.b * other.a <= 1_000_000_000_000) by (nonlinear_arith)
            requires
                -1_000_000 <= self.b <= 1_000_000,
                -1_000_000 <= other.a <= 1_000_000,
        ;
        let d = self.a * other.b - self.b * other.a;
        if d == 0 {
            None
        } else {
            assert(-500_000_000_000_000_000 <= self.c * other.b <= 500_000_000_000_000_000)
                by (nonlinear_arith)
                requires
                    -500_000_000_000 <= self.c <= 500_000_000_000,
                    -1_000_000 <= other.b <= 1_000_000,
            ;
            assert(-500_000_000_000_000_000 <= self.b * other.c <= 500_000_000_000_000_000)
                by (nonlinear_arith)
                requires
                    -1_000_000 <= self.b <= 1_000_000,
                    -500_000_000_000 <= other.c <= 500_000_000_000,
            ;
            assert(-500_000_000_000_000_000 <= self.a * other.c <= 500_000_000_000_000_000)
                by (nonlinear_arith)
                requires
                    -1_000_000 <= self.a <= 1_000_000,
                    -500_000_000_000 <= other.c <= 500_000_000_000,
            ;
            assert(-500_000_000_000_000_000 <= self.c * other.a <= 500_000_000_000_000_000)
                by (nonlinear_arith)
                requires
                    -500_000_000_000 <= self.c <= 500_000_000_000,
                    -1_000_000 <= other.a <= 1_000_000,
            ;
            let dx = self.c * other.b - self.b * other.c;
            let dy = self.a * other.c - self.c * other.a;
            let x = div_t_exec(dx, d);
            let y = div_t_exec(dy, d);
            Some(Point2::new(x, y))
        }
    }
}

/// A closed line segment bounded by two points. The endpoint order does not
/// affect whether an intersection is found, only which witness point is
/// reported when the segments are collinear.
#[derive(Debug, PartialEq, Eq, Structural, Copy, Clone)]
pub struct Segment {
    pub p1: Point2,
    pub p2: Point2,
}

impl Segment {
    pub open spec fn in_range_spec(self) -> bool {
        self.p1.in_range_spec() && self.p2.in_range_spec()
    }

    pub fn new(p1: Point2, p2: Point2) -> (r: Self)
        ensures
            r.p1 == p1,
            r.p2 == p2,
    {
        Segment { p1, p2 }
    }

    /// Whether `p` lies in the axis-aligned bounding box of the segment.
    /// For a point already known to be on the segment's infinite line this
    /// decides membership in the segment itself.
    pub fn is_point_in_box(&self, p: &Point2) -> (r: bool)
        ensures
            r == in_box_m(*self, pt_model(*p)),
    {
        let x1 = if self.p1.x <= self.p2.x {
            self.p1.x
        } else {
            self.p2.x
        };
        let x2 = if self.p1.x <= self.p2.x {
            self.p2.x
        } else {
            self.p1.x
        };
        let y1 = if self.p1.y <= self.p2.y {
            self.p1.y
        } else {
            self.p2.y
        };
        let y2 = if self.p1.y <= self.p2.y {
            self.p2.y
        } else {
            self.p1.y
        };
        x1 <= p.x && p.x <= x2 && y1 <= p.y && p.y <= y2
    }

    /// An intersection point of two segments, if they have one.
    ///
    /// When the segments lie on the same canonical line, the first endpoint
    /// found inside the other segment's box is the witness (`other.p1`,
    /// `other.p2`, `self.p1`, `self.p2`, in that order); overlap along a
    /// sub-range therefore reports a single point, not the interval.
    pub fn intersection(&self, other: &Segment) -> (r: Option<Point2>)
        requires
            self.in_range_spec(),
            other.in_range_spec(),
        ensures
            pt_opt_model(r) == seg_inter(*self, *other),
            r is Some ==> r->0.in_range_spec(),
    {
        let l1 = Line::from_segment(self);
        let l2 = Line::from_segment(other);
        if l1 == l2 {
            if self.is_point_in_box(&other.p1) {
                Some(other.p1)
            } else if self.is_point_in_box(&other.p2) {
                Some(other.p2)
            } else if other.is_point_in_box(&self.p1) {
                Some(self.p1)
            } else if other.is_point_in_box(&self.p2) {
                Some(self.p2)
            } else {
                None
            }
        } else {
            match l1.intersection(&l2) {
                None => None,
                Some(p) => {
                    if self.is_point_in_box(&p) && other.is_point_in_box(&p) {
                        Some(p)
                    } else {
                        None
                    }
                },
            }
        }
    }
}

/// Whether the integer point `p` lies in the bounding box of segment `s`.
pub open spec fn in_box_m(s: Segment, p: (int, int)) -> bool {
    &&& min_c(s.p1.x as int, s.p2.x as int) <= p.0 <= max_c(s.p1.x as int, s.p2.x as int)
    &&& min_c(s.p1.y as int, s.p2.y as int) <= p.1 <= max_c(s.p1.y as int, s.p2.y as int)
}

/// The intersection point `Segment::intersection` reports, if any: a
/// collinear-overlap witness when the canonical lines coincide, otherwise
/// the line crossing filtered by both bounding boxes.
pub open spec fn seg_inter(s1: Segment, s2: Segment) -> Option<(int, int)> {
    if line_through(s1.p1, s1.p2) == line_through(s2.p1, s2.p2) {
        if in_box_m(s1, pt_model(s2.p1)) {
            Some(pt_model(s2.p1))
        } else if in_box_m(s1, pt_model(s2.p2)) {
            Some(pt_model(s2.p2))
        } else if in_box_m(s2, pt_model(s1.p1)) {
            Some(pt_model(s1.p1))
        } else if in_box_m(s2, pt_model(s1.p2)) {
            Some(pt_model(s1.p2))
        } else {
            None
        }
    } else {
        match line_inter_m(line_through(s1.p1, s1.p2), line_through(s2.p1, s2.p2)) {
            None => None,
            Some(p) => if in_box_m(s1, p) && in_box_m(s2, p) {
                Some(p)
            } else {
                None
            },
        }
    }
}

/// The canonical line through two points does not depend on the order in
/// which the points are given: swapping the points negates all three raw
/// coefficients, which canonicalization absorbs (two equal points give the
/// zero triple, where negation changes nothing).
pub proof fn lemma_line_through_symmetric(p: Point2, q: Point2)
    ensures
        line_through(p, q) == line_through(q, p),
{
    let t = raw_line(p, q);
    let u = raw_line(q, p);
    assert(u.2 == -t.2) by (nonlinear_arith)
        requires
            t.2 == -(p.x * q.y - q.x * p.y),
            u.2 == -(q.x * p.y - p.x * q.y),
    ;
    if t.0 == 0 && t.1 == 0 {
        assert(p.x == q.x && p.y == q.y);
        assert(t.2 == 0) by (nonlinear_arith)
            requires
                p.x == q.x,
                p.y == q.y,
                t.2 == -(p.x * q.y - q.x * p.y),
        ;
    }
}

/// Segment intersection is symmetric whenever the two segments lie on
/// different canonical lines: the crossing determinants negate together,
/// truncating division ignores a common sign change, and the box filter is
/// the same conjunction either way.
pub proof fn lemma_seg_inter_symmetric(s1: Segment, s2: Segment)
    requires
        line_through(s1.p1, s1.p2) != line_through(s2.p1, s2.p2),
    ensures
        seg_inter(s1, s2) == seg_inter(s2, s1),
{
    let l1 = line_through(s1.p1, s1.p2);
    let l2 = line_through(s2.p1, s2.p2);
    let d12 = l1.0 * l2.1 - l1.1 * l2.0;
    let d21 = l2.0 * l1.1 - l2.1 * l1.0;
    assert(d21 == -d12) by (nonlinear_arith)
        requires
            d12 == l1.0 * l2.1 - l1.1 * l2.0,
            d21 == l2.0 * l1.1 - l2.1 * l1.0,
    ;
    if d12 != 0 {
        let dx12 = l1.2 * l2.1 - l1.1 * l2.2;
        let dx21 = l2.2 * l1.1 - l2.1 * l1.2;
        let dy12 = l1.0 * l2.2 - l1.2 * l2.0;
        let dy21 = l2.0 * l1.2 - l2.2 * l1.0;
        assert(dx21 == -dx12 && dy21 == -dy12) by (nonlinear_arith)
            requires
                dx12 == l1.2 * l2.1 - l1.1 * l2.2,
                dx21 == l2.2 * l1.1 - l2.1 * l1.2,
                dy12 == l1.0 * l2.2 - l1.2 * l2.0,
                dy21 == l2.0 * l1.2 - l2.2 * l1.0,
        ;
        assert(div_trunc(-dx12, -d12) == div_trunc(dx12, d12));
        assert(div_trunc(-dy12, -d12) == div_trunc(dy12, d12));
    }
}

/// Whether one segment's intersection with another exists does not depend
/// on the argument order, on every input: in the collinear case the same
/// four box memberships decide it, otherwise the crossing point and both
/// box filters coincide.
pub proof fn lemma_seg_inter_some_symmetric(s1: Segment, s2: Segment)
    ensures
        seg_inter(s1, s2) is Some <==> seg_inter(s2, s1) is Some,
{
    if line_through(s1.p1, s1.p2) == line_through(s2.p1, s2.p2) {
    } else {
        lemma_seg_inter_symmetric(s1, s2);
    }
}

/// The orientation indicator of `(p1, p2, p3)`: the cross product of
/// `p1 - p3` and `p2 - p3`.
pub open spec fn orient_m(p1: Point2, p2: Point2, p3: Point2) -> int {
    (p1.x - p3.x) * (p2.y - p3.y) - (p2.x - p3.x) * (p1.y - p3.y)
}

/// The orientation sign: `1` for a left turn, `-1` for a right turn, `0`
/// when the three points are collinear.
pub open spec fn sign_m(p1: Point2, p2: Point2, p3: Point2) -> int {
    if orient_m(p1, p2, p3) > 0 {
        1
    } else if orient_m(p1, p2, p3) < 0 {
        -1
    } else {
        0
    }
}

/// Whether `p` lies inside triangle `t` or on its boundary: the nonzero
/// orientation signs of `p` against the three edges must not disagree.
pub open spec fn tri_contains(t: Triangle2, p: Point2) -> bool {
    let d1 = sign_m(p, t.p1, t.p2);
    let d2 = sign_m(p, t.p2, t.p3);
    let d3 = sign_m(p, t.p3, t.p1);
    !((d1 < 0 || d2 < 0 || d3 < 0) && (d1 > 0 || d2 > 0 || d3 > 0))
}

/// Edge `i` of a triangle, in the fixed order `(p1,p2), (p2,p3), (p3,p1)`.
pub open spec fn tri_edge(t: Triangle2, i: int) -> Segment {
    if i == 0 {
        Segment { p1: t.p1, p2: t.p2 }
    } else if i == 1 {
        Segment { p1: t.p2, p2: t.p3 }
    } else {
        Segment { p1: t.p3, p2: t.p1 }
    }
}

/// The first intersection among the nine edge pairs, scanning pair `k`
/// (edge `k / 3` of `t1` against edge `k % 3` of `t2`) onward.
pub open spec fn edge_pairs_inter(t1: Triangle2, t2: Triangle2, k: int) -> Option<(int, int)>
    decreases 9 - k,
{
    if k < 0 || k >= 9 {
        None
    } else {
        match seg_inter(tri_edge(t1, k / 3), tri_edge(t2, k % 3)) {
            Some(p) => Some(p),
            None => edge_pairs_inter(t1, t2, k + 1),
        }
    }
}

/// The intersection point `Triangle2::intersection` reports: a contained
/// vertex first, else the first intersecting edge pair.
pub open spec fn tri_inter(t1: Triangle2, t2: Triangle2) -> Option<(int, int)> {
    if tri_contains(t1, t2.p1) {
        Some(pt_model(t2.p1))
    } else if tri_contains(t2, t1.p1) {
        Some(pt_model(t1.p1))
    } else {
        edge_pairs_inter(t1, t2, 0)
    }
}

/// The orientation indicator is invariant under translating all three
/// points by one common vector, so collinearity judgments survive a shift.
pub proof fn lemma_orient_translation_invariant(
    p1: Point2,
    p2: Point2,
    p3: Point2,
    q1: Point2,
    q2: Point2,
    q3: Point2,
    dx: int,
    dy: int,
)
    requires
        q1.x == p1.x + dx,
        q1.y == p1.y + dy,
        q2.x == p2.x + dx,
        q2.y == p2.y + dy,
        q3.x == p3.x + dx,
        q3.y == p3.y + dy,
    ensures
        orient_m(q1, q2, q3) == orient_m(p1, p2, p3),
{
    assert((q1.x - q3.x) * (q2.y - q3.y) - (q2.x - q3.x) * (q1.y - q3.y) == (p1.x - p3.x) * (p2.y
        - p3.y) - (p2.x - p3.x) * (p1.y - p3.y)) by (nonlinear_arith)
        requires
            q1.x - q3.x == p1.x - p3.x,
            q1.y - q3.y == p1.y - p3.y,
            q2.x - q3.x == p2.x - p3.x,
            q2.y - q3.y == p2.y - p3.y,
    ;
}

/// `p` lies exactly on the closed segment `s`: collinear with the
/// endpoints and within their bounding box.
pub open spec fn on_segment(s: Segment, p: Point2) -> bool {
    orient_m(p, s.p1, s.p2) == 0 && in_box_m(s, pt_model(p))
}

/// A point on the edge `(a, b)` of the triangle `(a, b, c)` is contained:
/// its orientation against `(a, b)` is zero, and against the two other
/// edges the signs cannot disagree.
proof fn lemma_on_first_edge_contained(a: Point2, b: Point2, c: Point2, p: Point2)
    requires
        on_segment(Segment { p1: a, p2: b }, p),
    ensures
        tri_contains(Triangle2 { p1: a, p2: b, p3: c }, p),
{
    let rx = p.x - a.x;
    let ry = p.y - a.y;
    let qx = b.x - a.x;
    let qy = b.y - a.y;
    let wx = a.x - c.x;
    let wy = a.y - c.y;
    // Collinearity of p with the edge, in edge-vector form.
    assert(rx * qy - ry * qx == 0) by (nonlinear_arith)
        requires
            (p.x - b.x) * (a.y - b.y) - (a.x - b.x) * (p.y - b.y) == 0,
            rx == p.x - a.x,
            ry == p.y - a.y,
            qx == b.x - a.x,
            qy == b.y - a.y,
    ;
    // The box puts p between the endpoints, componentwise.
    assert(rx * (qx - rx) >= 0) by (nonlinear_arith)
        requires
            (qx >= 0 ==> 0 <= rx <= qx) && (qx < 0 ==> qx <= rx <= 0),
    ;
    assert(ry * (qy - ry) >= 0) by (nonlinear_arith)
        requires
            (qy >= 0 ==> 0 <= ry <= qy) && (qy < 0 ==> qy <= ry <= 0),
    ;
    let c0 = rx * wy - ry * wx;
    let kk = qx * wy - qy * wx;
    let bb = orient_m(p, b, c);
    let cc = orient_m(p, c, a);
    assert(bb == (rx + wx) * (qy + wy) - (qx + wx) * (ry + wy));
    assert(cc == rx * (0 - wy) - (0 - wx) * ry);
    assert(bb == c0 - kk) by (nonlinear_arith)
        requires
            rx * qy - ry * qx == 0,
            bb == (rx + wx) * (qy + wy) - (qx + wx) * (ry + wy),
            c0 == rx * wy - ry * wx,
            kk == qx * wy - qy * wx,
    ;
    assert(cc == -c0) by (nonlinear_arith)
        requires
            cc == rx * (0 - wy) - (0 - wx) * ry,
            c0 == rx * wy - ry * wx,
    ;
    if qx != 0 {
        assert(qx * c0 == rx * kk) by (nonlinear_arith)
            requires
                rx * qy - ry * qx == 0,
                c0 == rx * wy - ry * wx,
                kk == qx * wy - qy * wx,
        ;
        assert(qx * qx * (bb * cc) == kk * kk * (rx * (qx - rx))) by (nonlinear_arith)
            requires
                bb == c0 - kk,
                cc == -c0,
                qx * c0 == rx * kk,
        ;
        assert(bb * cc >= 0) by (nonlinear_arith)
            requires
                qx != 0,
                qx * qx * (bb * cc) == kk * kk * (rx * (qx - rx)),
                rx * (qx - rx) >= 0,
        ;
    } else if qy != 0 {
        assert(qy * c0 == ry * kk) by (nonlinear_arith)
            requires
                rx * qy - ry * qx == 0,
                c0 == rx * wy - ry * wx,
                kk == qx * wy - qy * wx,
        ;
        assert(qy * qy * (bb * cc) == kk * kk * (ry * (qy - ry))) by (nonlinear_arith)
            requires
                bb == c0 - kk,
                cc == -c0,
                qy * c0 == ry * kk,
        ;
        assert(bb * cc >= 0) by (nonlinear_arith)
            requires
                qy != 0,
                qy * qy * (bb * cc) == kk * kk * (ry * (qy - ry)),
                ry * (qy - ry) >= 0,
        ;
    } else {
        // The edge is a single point, so the box pins p to it.
        assert(rx == 0 && ry == 0);
        assert(bb * cc >= 0) by (nonlinear_arith)
            requires
                rx == 0,
                ry == 0,
                c0 == rx * wy - ry * wx,
                cc == -c0,
        ;
    }
    assert(!(bb > 0 && cc < 0) && !(bb < 0 && cc > 0)) by (nonlinear_arith)
        requires
            bb * cc >= 0,
    ;
}

/// Containment does not change under a cyclic rotation of the vertices:
/// the three edge signs are the same set.
proof fn lemma_contains_cyclic(t: Triangle2, p: Point2)
    ensures
        tri_contains(t, p) == tri_contains(Triangle2 { p1: t.p2, p2: t.p3, p3: t.p1 }, p),
{
}

/// A point lying exactly on one of a triangle's edges is reported as
/// contained, whichever edge it is.
pub proof fn lemma_boundary_point_contained(t: Triangle2, p: Point2, e: int)
    requires
        0 <= e < 3,
        on_segment(tri_edge(t, e), p),
    ensures
        tri_contains(t, p),
{
    let t2 = Triangle2 { p1: t.p2, p2: t.p3, p3: t.p1 };
    if e == 0 {
        lemma_on_first_edge_contained(t.p1, t.p2, t.p3, p);
    } else if e == 1 {
        lemma_on_first_edge_contained(t.p2, t.p3, t.p1, p);
        lemma_contains_cyclic(t, p);
    } else {
        lemma_on_first_edge_contained(t.p3, t.p1, t.p2, p);
        lemma_contains_cyclic(t, p);
        lemma_contains_cyclic(t2, p);
    }
}

/// A triangle given by its ordered vertex triple; equality is
/// order-sensitive.
#[derive(Debug, PartialEq, Eq, Structural, Copy, Clone)]
pub struct Triangle2 {
    pub p1: Point2,
    pub p2: Point2,
    pub p3: Point2,
}

impl Triangle2 {
    pub open spec fn in_range_spec(self) -> bool {
        self.p1.in_range_spec() && self.p2.in_range_spec() && self.p3.in_range_spec()
    }

    pub fn new(p1: Point2, p2: Point2, p3: Point2) -> (r: Self)
        ensures
            r.p1 == p1,
            r.p2 == p2,
            r.p3 == p3,
    {
        Triangle2 { p1, p2, p3 }
    }

    /// The orientation sign of three points; `0` means collinear.
    pub fn sign(p1: &Point2, p2: &Point2, p3: &Point2) -> (r: i8)
        requires
            p1.in_range_spec(),
            p2.in_range_spec(),
            p3.in_range_spec(),
        ensures
            r as int == sign_m(*p1, *p2, *p3),
    {
        assert(-4_000_000_000_000 <= (p1.x - p3.x) * (p2.y - p3.y) <= 4_000_000_000_000)
            by (nonlinear_arith)
            requires
                in_range(p1.x as int),
                in_range(p3.x as int),
                in_range(p2.y as int),
                in_range(p3.y as int),
        ;
        assert(-4_000_000_000_000 <= (p2.x - p3.x) * (p1.y - p3.y) <= 4_000_000_000_000)
            by (nonlinear_arith)
            requires
                in_range(p2.x as int),
                in_range(p3.x as int),
                in_range(p1.y as int),
                in_range(p3.y as int),
        ;
        let ind = (p1.x - p3.x) * (p2.y - p3.y) - (p2.x - p3.x) * (p1.y - p3.y);
        if ind > 0 {
            1
        } else if ind < 0 {
            -1
        } else {
            0
        }
    }

    /// Whether `p` lies inside the triangle; points on an edge or vertex
    /// count as inside.
    pub fn is_inside(&self, p: &Point2) -> (r: bool)
        requires
            self.in_range_spec(),
            p.in_range_spec(),
        ensures
            r == tri_contains(*self, *p),
    {
        let d1 = Self::sign(p, &self.p1, &self.p2);
        let d2 = Self::sign(p, &self.p2, &self.p3);
        let d3 = Self::sign(p, &self.p3, &self.p1);
        let has_neg = d1 < 0 || d2 < 0 || d3 < 0;
        let has_pos = d1 > 0 || d2 > 0 || d3 > 0;
        !(has_neg && has_pos)
    }

    /// Edge `i` of the triangle, in the fixed scanning order.
    fn edge(&self, i: usize) -> (r: Segment)
        requires
            i < 3,
        ensures
            r == tri_edge(*self, i as int),
    {
        if i == 0 {
            Segment::new(self.p1, self.p2)
        } else if i == 1 {
            Segment::new(self.p2, self.p3)
        } else {
            Segment::new(self.p3, self.p1)
        }
    }

    /// One (arbitrary but deterministic) point where the two triangles
    /// meet: a contained vertex if there is one, else the first of the nine
    /// edge pairs that intersects; `None` when the triangles are disjoint.
    pub fn intersection(&self, other: &Triangle2) -> (r: Option<Point2>)
        requires
            self.in_range_spec(),
            other.in_range_spec(),
        ensures
            pt_opt_model(r) == tri_inter(*self, *other),
            r is Some ==> r->0.in_range_spec(),
    {
        if self.is_inside(&other.p1) {
            return Some(other.p1);
        }
        if other.is_inside(&self.p1) {
            return Some(self.p1);
        }
        for k in 0..9usize
            invariant
                self.in_range_spec(),
                other.in_range_spec(),
                !tri_contains(*self, other.p1),
                !tri_contains(*other, self.p1),
                edge_pairs_inter(*self, *other, 0) == edge_pairs_inter(*self, *other, k as int),
        {
            let seg1 = self.edge(k / 3);
            let seg2 = other.edge(k % 3);
            let found = seg1.intersection(&seg2);
            if found.is_some() {
                return found;
            }
        }
        None
    }
}

} // verus!

