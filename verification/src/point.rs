//! Lattice points and the exact integer geometry the graph engine is built on.
//!
//! Coordinates are whole units. They are bounded by [`COORD_MAX`] so that every
//! squared distance and every cross or dot product of two differences fits in an
//! `i64`, and every product of two of those fits in an `i128`.

use vstd::prelude::*;

verus! {

/// Largest absolute value of a coordinate.
pub const COORD_MAX: i32 = 536_870_912;

/// Bound on the absolute value of a squared distance or of a product of two
/// coordinate differences: `2 * (2 * COORD_MAX)^2`.
pub const SPAN_SQ_MAX: i64 = 2_305_843_009_213_693_952;

/// A point of the plane with integer coordinates.
#[derive(Clone, Copy, Debug, PartialEq, Eq, Structural, Hash)]
pub struct Point {
    x: i32,
    y: i32,
}

/// Whether `v` is an admissible coordinate.
pub open spec fn coord_ok(v: int) -> bool {
    -COORD_MAX <= v <= COORD_MAX
}

/// Squared Euclidean distance between `a` and `b`.
pub open spec fn dist_sq(a: Point, b: Point) -> int {
    (a.x() - b.x()) * (a.x() - b.x()) + (a.y() - b.y()) * (a.y() - b.y())
}

/// Dot product of `q - p1` with `p2 - p1`: how far `q` lies along the segment
/// from `p1` to `p2`, scaled by the segment's length.
pub open spec fn along(p1: Point, p2: Point, q: Point) -> int {
    (q.x() - p1.x()) * (p2.x() - p1.x()) + (q.y() - p1.y()) * (p2.y() - p1.y())
}

/// Perpendicular dot product of `q - p1` with `p2 - p1`: the signed offset of
/// `q` from the line through `p1` and `p2`, scaled by the segment's length.
pub open spec fn across(p1: Point, p2: Point, q: Point) -> int {
    (q.x() - p1.x()) * (p2.y() - p1.y()) - (q.y() - p1.y()) * (p2.x() - p1.x())
}

/// Whether `q` is within reach of the segment from `p1` to `p2`: its foot on
/// the line through them lies on the segment, which has some length, and its
/// distance from that line is at most `t`.
pub open spec fn near_segment(p1: Point, p2: Point, q: Point, t: int) -> bool {
    &&& 0 <= along(p1, p2, q) <= dist_sq(p1, p2)
    &&& 0 < dist_sq(p1, p2)
    &&& across(p1, p2, q) * across(p1, p2, q) <= t * t * dist_sq(p1, p2)
}

/// Whether a point at squared distance `nd2` from a node is closer to it than
/// it is offset to the left of a segment of squared length `l2`, where `x` is
/// the offset scaled by the segment's length.
pub open spec fn nearer_than_offset(nd2: int, l2: int, x: int) -> bool {
    0 < x && nd2 * l2 < x * x
}

/// Whether the first of two offsets from a line is the smaller one. An offset
/// is given by its product `x` with the length of its segment and by the
/// square `l` of that length, which is not 0. The offset that is less far
/// from its line is the smaller; of two that are equally far, on different
/// sides, the negative one is. The distances are compared exactly, by their
/// squares `x * x / l`, cross-multiplied.
pub open spec fn offset_less(x1: int, l1: int, x2: int, l2: int) -> bool {
    x1 * x1 * l2 < x2 * x2 * l1 || (x1 * x1 * l2 == x2 * x2 * l1 && x1 < 0 && 0 < x2)
}

proof fn lemma_ratio_less_then_at_most(a: int, la: int, b: int, lb: int, c: int, lc: int)
    requires
        0 <= a,
        0 <= b,
        0 <= c,
        0 < la,
        0 < lb,
        0 < lc,
        a * lb < b * la,
        b * lc <= c * lb,
    ensures
        a * lc < c * la,
{
    assert(a * lb * lc < b * la * lc) by (nonlinear_arith)
        requires
            a * lb < b * la,
            0 < lc,
    ;
    assert(b * lc * la <= c * lb * la) by (nonlinear_arith)
        requires
            b * lc <= c * lb,
            0 < la,
    ;
    assert(b * la * lc == b * lc * la) by (nonlinear_arith);
    assert(a * lb * lc == (a * lc) * lb) by (nonlinear_arith);
    assert(c * lb * la == (c * la) * lb) by (nonlinear_arith);
    assert(a * lc < c * la) by (nonlinear_arith)
        requires
            (a * lc) * lb < (c * la) * lb,
            0 < lb,
    ;
}

proof fn lemma_ratio_at_most_then_less(a: int, la: int, b: int, lb: int, c: int, lc: int)
    requires
        0 <= a,
        0 <= b,
        0 <= c,
        0 < la,
        0 < lb,
        0 < lc,
        a * lb <= b * la,
        b * lc < c * lb,
    ensures
        a * lc < c * la,
{
    assert(a * lb * lc <= b * la * lc) by (nonlinear_arith)
        requires
            a * lb <= b * la,
            0 < lc,
    ;
    assert(b * lc * la < c * lb * la) by (nonlinear_arith)
        requires
            b * lc < c * lb,
            0 < la,
    ;
    assert(b * la * lc == b * lc * la) by (nonlinear_arith);
    assert(a * lb * lc == (a * lc) * lb) by (nonlinear_arith);
    assert(c * lb * la == (c * la) * lb) by (nonlinear_arith);
    assert(a * lc < c * la) by (nonlinear_arith)
        requires
            (a * lc) * lb < (c * la) * lb,
            0 < lb,
    ;
}

proof fn lemma_ratio_equal(a: int, la: int, b: int, lb: int, c: int, lc: int)
    requires
        0 <= a,
        0 <= b,
        0 <= c,
        0 < la,
        0 < lb,
        0 < lc,
        a * lb == b * la,
        b * lc == c * lb,
    ensures
        a * lc == c * la,
{
    if a * lc < c * la {
        lemma_ratio_less_then_at_most(a, la, c, lc, b, lb);
    }
    if c * la < a * lc {
        lemma_ratio_less_then_at_most(c, lc, a, la, b, lb);
    }
}

/// Where one offset is smaller than a second and a third is not smaller than
/// the second, the first is smaller than the third.
pub proof fn lemma_offset_order(x1: int, l1: int, x2: int, l2: int, x3: int, l3: int)
    requires
        0 < l1,
        0 < l2,
        0 < l3,
        offset_less(x1, l1, x2, l2),
        !offset_less(x3, l3, x2, l2),
    ensures
        offset_less(x1, l1, x3, l3),
{
    let a = x1 * x1;
    let b = x2 * x2;
    let c = x3 * x3;
    assert(0 <= a && 0 <= b && 0 <= c) by (nonlinear_arith)
        requires
            a == x1 * x1,
            b == x2 * x2,
            c == x3 * x3,
    ;
    if a * l2 < b * l1 {
        lemma_ratio_less_then_at_most(a, l1, b, l2, c, l3);
    } else if b * l3 < c * l2 {
        lemma_ratio_at_most_then_less(a, l1, b, l2, c, l3);
    } else {
        lemma_ratio_equal(a, l1, b, l2, c, l3);
        if x3 == 0 {
            assert(c == 0) by (nonlinear_arith)
                requires
                    c == x3 * x3,
                    x3 == 0,
            ;
            assert(c * l2 == 0) by (nonlinear_arith)
                requires
                    c == 0,
            ;
            assert(b == 0) by (nonlinear_arith)
                requires
                    b * l3 == 0,
                    0 < l3,
            ;
            assert(x2 == 0) by (nonlinear_arith)
                requires
                    x2 * x2 == 0,
            ;
        }
    }
}

/// Of three offsets, where the first is smaller than the second and the
/// second smaller than the third, the first is smaller than the third.
pub proof fn lemma_offset_chain(x1: int, l1: int, x2: int, l2: int, x3: int, l3: int)
    requires
        0 < l1,
        0 < l2,
        0 < l3,
        offset_less(x1, l1, x2, l2),
        offset_less(x2, l2, x3, l3),
    ensures
        offset_less(x1, l1, x3, l3),
{
    lemma_offset_order(x1, l1, x2, l2, x3, l3);
}

/// Two points are the same exactly when their squared distance is 0.
pub proof fn lemma_dist_sq_zero(a: Point, b: Point)
    ensures
        dist_sq(a, b) >= 0,
        dist_sq(a, b) == 0 <==> a == b,
{
    let dx = a.x() - b.x();
    let dy = a.y() - b.y();
    assert(dx * dx >= 0 && (dx * dx == 0 ==> dx == 0)) by (nonlinear_arith);
    assert(dy * dy >= 0 && (dy * dy == 0 ==> dy == 0)) by (nonlinear_arith);
    if dist_sq(a, b) == 0 {
        assert(dx == 0 && dy == 0);
        Point::lemma_same_coordinates(a, b);
    }
    if a == b {
        assert(dx * dx == 0 && dy * dy == 0) by (nonlinear_arith)
            requires
                dx == 0,
                dy == 0,
        ;
    }
}

/// The largest `r` with `r * r <= n`, and 0 for a negative `n`.
pub open spec fn floor_sqrt(n: int) -> int
    decreases n,
{
    if n <= 0 {
        0
    } else {
        let r = floor_sqrt(n - 1);
        if (r + 1) * (r + 1) <= n {
            r + 1
        } else {
            r
        }
    }
}

/// `floor_sqrt(n)` is the one number whose square is at most `n` while the
/// square of its successor is not.
pub proof fn lemma_floor_sqrt(n: int)
    requires
        0 <= n,
    ensures
        0 <= floor_sqrt(n),
        floor_sqrt(n) * floor_sqrt(n) <= n < (floor_sqrt(n) + 1) * (floor_sqrt(n) + 1),
    decreases n,
{
    if n > 0 {
        lemma_floor_sqrt(n - 1);
        let r = floor_sqrt(n - 1);
        assert((r + 2) * (r + 2) > (r + 1) * (r + 1) + 1) by (nonlinear_arith)
            requires
                0 <= r,
        ;
    }
}

/// A number whose square brackets `n` from below is `floor_sqrt(n)`.
pub proof fn lemma_floor_sqrt_unique(n: int, r: int)
    requires
        0 <= r,
        r * r <= n < (r + 1) * (r + 1),
    ensures
        r == floor_sqrt(n),
{
    lemma_floor_sqrt(n);
    let s = floor_sqrt(n);
    if r < s {
        assert((r + 1) * (r + 1) <= s * s) by (nonlinear_arith)
            requires
                0 <= r,
                r + 1 <= s,
        ;
    }
    if s < r {
        assert((s + 1) * (s + 1) <= r * r) by (nonlinear_arith)
            requires
                0 <= s,
                s + 1 <= r,
        ;
    }
}

proof fn lemma_product_bound(a: int, b: int, m: int)
    requires
        -m <= a <= m,
        -m <= b <= m,
        0 <= m,
    ensures
        -(m * m) <= a * b <= m * m,
{
    assert(-(m * m) <= a * b <= m * m) by (nonlinear_arith)
        requires
            -m <= a <= m,
            -m <= b <= m,
            0 <= m,
    ;
}

impl Point {
    #[verifier::type_invariant]
    pub closed spec fn in_bounds(self) -> bool {
        coord_ok(self.x as int) && coord_ok(self.y as int)
    }

    pub closed spec fn spec_x(&self) -> i32 {
        self.x
    }

    pub closed spec fn spec_y(&self) -> i32 {
        self.y
    }

    /// Points with the same coordinates are the same point.
    pub proof fn lemma_same_coordinates(a: Point, b: Point)
        requires
            a.x() == b.x(),
            a.y() == b.y(),
        ensures
            a == b,
    {
    }

    /// The point `(x, y)`, if both coordinates are admissible.
    pub fn new(x: i32, y: i32) -> (r: Option<Point>)
        ensures
            r is Some <==> coord_ok(x as int) && coord_ok(y as int),
            r matches Some(p) ==> p.x() == x && p.y() == y,
    {
        if -COORD_MAX <= x && x <= COORD_MAX && -COORD_MAX <= y && y <= COORD_MAX {
            Some(Point { x, y })
        } else {
            None
        }
    }

    /// The point `(0, 0)`.
    pub fn origin() -> (p: Point)
        ensures
            p.x() == 0,
            p.y() == 0,
    {
        Point { x: 0, y: 0 }
    }

    #[verifier::when_used_as_spec(spec_x)]
    pub fn x(&self) -> (r: i32)
        ensures
            r == self.x(),
            coord_ok(r as int),
    {
        proof {
            use_type_invariant(self);
        }
        self.x
    }

    #[verifier::when_used_as_spec(spec_y)]
    pub fn y(&self) -> (r: i32)
        ensures
            r == self.y(),
            coord_ok(r as int),
    {
        proof {
            use_type_invariant(self);
        }
        self.y
    }

    /// Squared distance to `other`.
    pub fn dist_sq(&self, other: &Point) -> (r: i64)
        ensures
            r == dist_sq(*self, *other),
            0 <= r <= SPAN_SQ_MAX,
    {
        proof {
            use_type_invariant(self);
            use_type_invariant(other);
        }
        let dx: i64 = self.x as i64 - other.x as i64;
        let dy: i64 = self.y as i64 - other.y as i64;
        proof {
            lemma_product_bound(dx as int, dx as int, 2 * COORD_MAX);
            lemma_product_bound(dy as int, dy as int, 2 * COORD_MAX);
            assert(dx * dx >= 0) by (nonlinear_arith);
            assert(dy * dy >= 0) by (nonlinear_arith);
        }
        dx * dx + dy * dy
    }

    /// `along(*self, *end, *q)`, for the segment that starts here.
    pub fn along(&self, end: &Point, q: &Point) -> (r: i64)
        ensures
            r == along(*self, *end, *q),
            -SPAN_SQ_MAX <= r <= SPAN_SQ_MAX,
    {
        proof {
            use_type_invariant(self);
            use_type_invariant(end);
            use_type_invariant(q);
        }
        let qx: i64 = q.x as i64 - self.x as i64;
        let qy: i64 = q.y as i64 - self.y as i64;
        let ex: i64 = end.x as i64 - self.x as i64;
        let ey: i64 = end.y as i64 - self.y as i64;
        proof {
            lemma_product_bound(qx as int, ex as int, 2 * COORD_MAX);
            lemma_product_bound(qy as int, ey as int, 2 * COORD_MAX);
        }
        qx * ex + qy * ey
    }

    /// `across(*self, *end, *q)`, for the segment that starts here.
    pub fn across(&self, end: &Point, q: &Point) -> (r: i64)
        ensures
            r == across(*self, *end, *q),
            -SPAN_SQ_MAX <= r <= SPAN_SQ_MAX,
    {
        proof {
            use_type_invariant(self);
            use_type_invariant(end);
            use_type_invariant(q);
        }
        let qx: i64 = q.x as i64 - self.x as i64;
        let qy: i64 = q.y as i64 - self.y as i64;
        let ex: i64 = end.x as i64 - self.x as i64;
        let ey: i64 = end.y as i64 - self.y as i64;
        proof {
            lemma_product_bound(qx as int, ey as int, 2 * COORD_MAX);
            lemma_product_bound(qy as int, ex as int, 2 * COORD_MAX);
        }
        qx * ey - qy * ex
    }

    /// Whether `q` is within reach `t` of the segment from here to `end`.
    pub fn near_segment(&self, end: &Point, q: &Point, t: u32) -> (r: bool)
        ensures
            r == near_segment(*self, *end, *q, t as int),
    {
        let a = self.along(end, q);
        let l2 = self.dist_sq(end);
        let x = self.across(end, q);
        if a < 0 || a > l2 || l2 == 0 {
            return false;
        }
        proof {
            lemma_product_bound(x as int, x as int, SPAN_SQ_MAX as int);
            lemma_product_bound(t as int, t as int, u32::MAX as int);
            assert(0 <= (t * t) * l2 <= (u32::MAX * u32::MAX) * SPAN_SQ_MAX) by (nonlinear_arith)
                requires
                    0 <= t * t <= u32::MAX * u32::MAX,
                    0 <= l2 <= SPAN_SQ_MAX,
            ;
        }
        let xx: i128 = (x as i128) * (x as i128);
        let tt: i128 = (t as i128) * (t as i128);
        xx <= tt * (l2 as i128)
    }

    /// Distance to `other` in parts of a unit, of which there are
    /// [`LENGTH_SCALE`] to the unit, rounded down.
    pub fn distance_fine(&self, other: &Point) -> (r: u64)
        ensures
            r == fine_length(*self, *other),
            r <= FINE_LENGTH_MAX,
    {
        let n = self.dist_sq(other);
        isqrt_wide((n as u128) * 65536)
    }

    /// Distance to `other` in whole units, rounded down.
    pub fn distance(&self, other: &Point) -> (r: u64)
        ensures
            r == floor_sqrt(dist_sq(*self, *other)),
            r <= LENGTH_MAX,
    {
        let n = self.dist_sq(other);
        isqrt(n as u64)
    }
}

/// The square of `r`.
pub fn square(r: i64) -> (s: i128)
    ensures
        s == r * r,
{
    proof {
        lemma_product_bound(r as int, r as int, 0x8000_0000_0000_0000);
    }
    (r as i128) * (r as i128)
}

/// Whether `nearer_than_offset(nd2, l2, x)`.
pub fn nearer_than_offset_exec(nd2: i64, l2: i64, x: i64) -> (r: bool)
    ensures
        r == nearer_than_offset(nd2 as int, l2 as int, x as int),
{
    if x <= 0 {
        return false;
    }
    proof {
        lemma_product_bound(x as int, x as int, 0x8000_0000_0000_0000);
        lemma_product_bound(nd2 as int, l2 as int, 0x8000_0000_0000_0000);
    }
    (nd2 as i128) * (l2 as i128) < (x as i128) * (x as i128)
}

/// How many parts of a unit the fine length of a segment counts.
pub const LENGTH_SCALE: u64 = 256;

/// Bound on the fine length of a segment between two points:
/// `floor_sqrt(SPAN_SQ_MAX * LENGTH_SCALE * LENGTH_SCALE)`.
pub const FINE_LENGTH_MAX: u64 = 388_736_063_996;

/// The length of the segment from `a` to `b` in parts of a unit, of which
/// there are [`LENGTH_SCALE`] to the unit, rounded down.
pub open spec fn fine_length(a: Point, b: Point) -> int {
    floor_sqrt(dist_sq(a, b) * (LENGTH_SCALE * LENGTH_SCALE))
}

/// The integer square root of `n`, rounded down, for the square of a fine
/// length.
fn isqrt_wide(n: u128) -> (r: u64)
    requires
        n <= SPAN_SQ_MAX * (LENGTH_SCALE * LENGTH_SCALE),
    ensures
        r == floor_sqrt(n as int),
        r <= FINE_LENGTH_MAX,
{
    let mut lo: u128 = 0;
    let mut hi: u128 = 388_736_063_997;
    assert(388_736_063_997u128 * 388_736_063_997u128 > SPAN_SQ_MAX * (LENGTH_SCALE * LENGTH_SCALE));
    while hi - lo > 1
        invariant
            lo < hi <= 388_736_063_997,
            lo * lo <= n,
            n < hi * hi,
        decreases hi - lo,
    {
        let mid: u128 = lo + (hi - lo) / 2;
        assert(mid * mid <= 388_736_063_997 * 388_736_063_997) by (nonlinear_arith)
            requires
                0 <= mid <= 388_736_063_997,
        ;
        if mid * mid <= n {
            lo = mid;
        } else {
            hi = mid;
        }
    }
    proof {
        lemma_floor_sqrt_unique(n as int, lo as int);
    }
    lo as u64
}

/// Bound on the length of a segment between two points: `floor_sqrt(SPAN_SQ_MAX)`.
pub const LENGTH_MAX: u64 = 1_518_500_249;

/// The integer square root of `n`, rounded down.
pub fn isqrt(n: u64) -> (r: u64)
    ensures
        r == floor_sqrt(n as int),
        n <= SPAN_SQ_MAX ==> r <= LENGTH_MAX,
{
    let mut lo: u64 = 0;
    let mut hi: u64 = 0x1_0000_0000;
    assert(0x1_0000_0000u64 * 0x1_0000_0000u64 > u64::MAX);
    while hi - lo > 1
        invariant
            lo < hi <= 0x1_0000_0000,
            lo * lo <= n,
            n < hi * hi,
        decreases hi - lo,
    {
        let mid: u64 = lo + (hi - lo) / 2;
        assert(mid * mid <= 0xffff_ffff * 0xffff_ffff) by (nonlinear_arith)
            requires
                0 <= mid <= 0xffff_ffff,
        ;
        if mid * mid <= n {
            lo = mid;
        } else {
            hi = mid;
        }
    }
    proof {
        lemma_floor_sqrt_unique(n as int, lo as int);
        if n <= SPAN_SQ_MAX && lo > LENGTH_MAX {
            assert(lo * lo >= (LENGTH_MAX + 1) * (LENGTH_MAX + 1)) by (nonlinear_arith)
                requires
                    lo >= LENGTH_MAX + 1,
            ;
            assert((LENGTH_MAX + 1) * (LENGTH_MAX + 1) > SPAN_SQ_MAX);
        }
    }
    lo
}

} // verus!
