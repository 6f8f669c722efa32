//! Exact segment/disc intersection, the core of the visibility engine.
//!
//! A sight line is the segment from an observer O to a target T; an occluder
//! is a closed disc with center C and radius r. The segment meets the disc
//! exactly when the squared distance from C to the closest point of the
//! segment is at most r². With q(t) = |(O − C) + t·(T − O)|² for t in [0, 1],
//! the closest point is the projection of C clamped to the segment: at t = 0
//! when (O − C)·(T − O) >= 0, at t = 1 when the projection falls past T, and
//! at the interior minimum otherwise, where the comparison is multiplied
//! through by |T − O|² > 0 to stay in integers. All quantities are integer
//! polynomials in the six coordinates and the radius, so the test is exact.

use vstd::prelude::*;

verus! {

pub open spec fn sq(a: int) -> int {
    a * a
}

/// Squared Euclidean distance between two points.
pub open spec fn dist_sq(ax: int, ay: int, bx: int, by: int) -> int {
    sq(bx - ax) + sq(by - ay)
}

/// Whether the closed segment from (ox, oy) to (tx, ty) passes within
/// distance `r` of the center (cx, cy); that is, whether it meets the closed
/// disc of radius `r` around that center.
pub open spec fn segment_hits_circle(
    ox: int,
    oy: int,
    tx: int,
    ty: int,
    cx: int,
    cy: int,
    r: int,
) -> bool {
    let dd = dist_sq(ox, oy, tx, ty);
    let fd = (ox - cx) * (tx - ox) + (oy - cy) * (ty - oy);
    if fd >= 0 {
        // the projection of the center falls at or before the observer
        dist_sq(cx, cy, ox, oy) <= sq(r)
    } else if fd + dd <= 0 {
        // the projection of the center falls at or past the target
        dist_sq(cx, cy, tx, ty) <= sq(r)
    } else {
        // interior minimum: |O − C|² − fd²/dd <= r², times dd > 0
        dist_sq(cx, cy, ox, oy) * dd - sq(fd) <= sq(r) * dd
    }
}

/// |a·b| is bounded by the product of bounds on |a| and |b|.
pub proof fn lemma_mul_bounds(a: int, b: int, m: int, n: int)
    by (nonlinear_arith)
    requires
        -m <= a <= m,
        -n <= b <= n,
    ensures
        -(m * n) <= a * b <= m * n,
{
}

/// A square is never negative.
pub proof fn lemma_sq_nonneg(a: int)
    by (nonlinear_arith)
    ensures
        a * a >= 0,
{
}

/// Lagrange's identity in two dimensions: the product of squared norms is
/// the squared dot product plus the squared cross product.
pub proof fn lemma_lagrange_identity(ax: int, ay: int, bx: int, by: int)
    ensures
        (ax * ax + ay * ay) * (bx * bx + by * by) == (ax * bx + ay * by) * (ax * bx + ay * by) + (
        ax * by - ay * bx) * (ax * by - ay * bx),
{
    let p = ax * bx;
    let q = ay * by;
    let s = ax * by;
    let t = ay * bx;
    assert(p * q == s * t) by (nonlinear_arith)
        requires
            p == ax * bx,
            q == ay * by,
            s == ax * by,
            t == ay * bx,
    ;
    assert((ax * ax + ay * ay) * (bx * bx + by * by) == (ax * ax) * (bx * bx) + (ax * ax) * (by
        * by) + (ay * ay) * (bx * bx) + (ay * ay) * (by * by)) by (nonlinear_arith);
    assert((ax * ax) * (bx * bx) == p * p) by (nonlinear_arith)
        requires
            p == ax * bx,
    ;
    assert((ax * ax) * (by * by) == s * s) by (nonlinear_arith)
        requires
            s == ax * by,
    ;
    assert((ay * ay) * (bx * bx) == t * t) by (nonlinear_arith)
        requires
            t == ay * bx,
    ;
    assert((ay * ay) * (by * by) == q * q) by (nonlinear_arith)
        requires
            q == ay * by,
    ;
    assert((ax * ax + ay * ay) * (bx * bx + by * by) == p * p + q * q + s * s + t * t);
    assert((p + q) * (p + q) + (s - t) * (s - t) == p * p + q * q + s * s + t * t + 2 * (p * q - s
        * t)) by (nonlinear_arith);
}

/// A center that lies on the sight segment itself is hit for every
/// non-negative radius: the minimum distance is zero. "Lies on the segment"
/// is stated algebraically: C is collinear with O and T, and its projection
/// parameter is between 0 and 1.
pub proof fn lemma_point_on_segment_hits(ox: int, oy: int, tx: int, ty: int, cx: int, cy: int, r: int)
    requires
        (cx - ox) * (ty - oy) == (cy - oy) * (tx - ox),
        0 <= (cx - ox) * (tx - ox) + (cy - oy) * (ty - oy),
        (cx - ox) * (tx - ox) + (cy - oy) * (ty - oy) <= dist_sq(ox, oy, tx, ty),
        dist_sq(ox, oy, tx, ty) > 0,
        r >= 0,
    ensures
        segment_hits_circle(ox, oy, tx, ty, cx, cy, r),
{
    let dx = tx - ox;
    let dy = ty - oy;
    let fx = ox - cx;
    let fy = oy - cy;
    let dd = dist_sq(ox, oy, tx, ty);
    let fd = fx * dx + fy * dy;
    let ff = fx * fx + fy * fy;
    let cross = fx * dy - fy * dx;
    assert(cross == 0) by (nonlinear_arith)
        requires
            (cx - ox) * (ty - oy) == (cy - oy) * (tx - ox),
            cross == (ox - cx) * (ty - oy) - (oy - cy) * (tx - ox),
    ;
    assert(fd == -((cx - ox) * (tx - ox) + (cy - oy) * (ty - oy))) by (nonlinear_arith)
        requires
            fd == (ox - cx) * (tx - ox) + (oy - cy) * (ty - oy),
    ;
    assert(fd <= 0 && fd + dd >= 0);
    assert(sq(r) >= 0) by (nonlinear_arith);
    lemma_lagrange_identity(fx, fy, dx, dy);
    assert(ff * dd == sq(fd) + sq(cross));
    if fd >= 0 {
        // fd == 0, so ff * dd == cross² == 0 and therefore ff == 0.
        assert(ff == 0) by (nonlinear_arith)
            requires
                ff * dd == 0,
                dd > 0,
                ff == fx * fx + fy * fy,
        ;
        assert(dist_sq(cx, cy, ox, oy) == ff);
    } else if fd + dd <= 0 {
        // fd + dd == 0: the far endpoint is the center itself.
        let gx = ox + dx - cx;
        let gy = oy + dy - cy;
        lemma_lagrange_identity(gx, gy, dx, dy);
        assert(gx * dx + gy * dy == fd + dd) by (nonlinear_arith)
            requires
                gx == fx + dx,
                gy == fy + dy,
                fd == fx * dx + fy * dy,
                dd == dx * dx + dy * dy,
        ;
        assert(gx * dy - gy * dx == cross) by (nonlinear_arith)
            requires
                gx == fx + dx,
                gy == fy + dy,
                cross == fx * dy - fy * dx,
        ;
        assert((gx * gx + gy * gy) * dd == 0);
        assert(gx * gx + gy * gy == 0) by (nonlinear_arith)
            requires
                (gx * gx + gy * gy) * dd == 0,
                dd > 0,
        ;
        assert(dist_sq(cx, cy, tx, ty) == gx * gx + gy * gy);
    } else {
        // interior: ff·dd − fd² == cross² == 0 <= r²·dd
        assert(sq(r) * dd >= 0) by (nonlinear_arith)
            requires
                dd > 0,
                sq(r) >= 0,
        ;
        assert(dist_sq(cx, cy, ox, oy) * dd - sq(fd) == sq(cross));
    }
}

/// A pillar centered exactly on the midpoint of the sight segment is hit for
/// every positive radius, including when observer and target coincide.
pub proof fn lemma_midpoint_hits(ox: int, oy: int, tx: int, ty: int, cx: int, cy: int, r: int)
    requires
        2 * cx == ox + tx,
        2 * cy == oy + ty,
        r >= 1,
    ensures
        segment_hits_circle(ox, oy, tx, ty, cx, cy, r),
{
    let dd = dist_sq(ox, oy, tx, ty);
    assert(dd >= 0) by (nonlinear_arith)
        requires
            dd == sq(tx - ox) + sq(ty - oy),
    ;
    if dd > 0 {
        assert((cx - ox) * (ty - oy) == (cy - oy) * (tx - ox)) by (nonlinear_arith)
            requires
                2 * cx == ox + tx,
                2 * cy == oy + ty,
        ;
        assert(2 * ((cx - ox) * (tx - ox) + (cy - oy) * (ty - oy)) == dd) by (nonlinear_arith)
            requires
                2 * cx == ox + tx,
                2 * cy == oy + ty,
                dd == sq(tx - ox) + sq(ty - oy),
        ;
        lemma_point_on_segment_hits(ox, oy, tx, ty, cx, cy, r);
    } else {
        // degenerate sight line: the midpoint is the observer itself
        assert(tx - ox == 0 && ty - oy == 0) by (nonlinear_arith)
            requires
                sq(tx - ox) + sq(ty - oy) == 0,
        ;
        assert(cx == ox && cy == oy);
        assert((ox - cx) * (tx - ox) + (oy - cy) * (ty - oy) == 0) by (nonlinear_arith)
            requires
                ox - cx == 0,
                oy - cy == 0,
        ;
        assert(dist_sq(cx, cy, ox, oy) == 0) by (nonlinear_arith)
            requires
                cx == ox,
                cy == oy,
        ;
        assert(sq(r) >= 0) by (nonlinear_arith);
    }
}

/// Exact executable form of `segment_hits_circle` for capped coordinates.
pub fn segment_hits_circle_exec(
    ox: i64,
    oy: i64,
    tx: i64,
    ty: i64,
    cx: i64,
    cy: i64,
    r: i64,
) -> (hit: bool)
    requires
        crate::icfp::valid_coord(ox as int),
        crate::icfp::valid_coord(oy as int),
        crate::icfp::valid_coord(tx as int),
        crate::icfp::valid_coord(ty as int),
        crate::icfp::valid_coord(cx as int),
        crate::icfp::valid_coord(cy as int),
        0 <= r <= crate::icfp::COORD_LIMIT,
    ensures
        hit == segment_hits_circle(ox as int, oy as int, tx as int, ty as int, cx as int, cy as int, r as int),
{
    let dx: i128 = tx as i128 - ox as i128;
    let dy: i128 = ty as i128 - oy as i128;
    let fx: i128 = ox as i128 - cx as i128;
    let fy: i128 = oy as i128 - cy as i128;
    proof {
        lemma_mul_bounds(dx as int, dx as int, 2_000_000_000, 2_000_000_000);
        lemma_mul_bounds(dy as int, dy as int, 2_000_000_000, 2_000_000_000);
        lemma_mul_bounds(fx as int, fx as int, 2_000_000_000, 2_000_000_000);
        lemma_mul_bounds(fy as int, fy as int, 2_000_000_000, 2_000_000_000);
        lemma_mul_bounds(fx as int, dx as int, 2_000_000_000, 2_000_000_000);
        lemma_mul_bounds(fy as int, dy as int, 2_000_000_000, 2_000_000_000);
        lemma_mul_bounds(r as int, r as int, 1_000_000_000, 1_000_000_000);
    }
    let dd: i128 = dx * dx + dy * dy;
    let fd: i128 = fx * dx + fy * dy;
    let rr: i128 = r as i128 * r as i128;
    if fd >= 0 {
        let ff: i128 = fx * fx + fy * fy;
        ff <= rr
    } else if fd + dd <= 0 {
        let gx: i128 = tx as i128 - cx as i128;
        let gy: i128 = ty as i128 - cy as i128;
        proof {
            lemma_mul_bounds(gx as int, gx as int, 2_000_000_000, 2_000_000_000);
            lemma_mul_bounds(gy as int, gy as int, 2_000_000_000, 2_000_000_000);
        }
        let gg: i128 = gx * gx + gy * gy;
        gg <= rr
    } else {
        let ff: i128 = fx * fx + fy * fy;
        proof {
            lemma_mul_bounds(ff as int, dd as int, 8_000_000_000_000_000_000, 8_000_000_000_000_000_000);
            lemma_mul_bounds(fd as int, fd as int, 8_000_000_000_000_000_000, 8_000_000_000_000_000_000);
            lemma_mul_bounds(rr as int, dd as int, 1_000_000_000_000_000_000, 8_000_000_000_000_000_000);
        }
        ff * dd - fd * fd <= rr * dd
    }
}

} // verus!
