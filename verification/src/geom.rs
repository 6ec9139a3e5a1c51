use vstd::prelude::*;

verus! {

/// Scaled units per world unit: all coordinates are held in thousandths of
/// a world unit.
pub const SCALE: i64 = 1000;
/// The arena edge: an agent whose position reaches this magnitude on either
/// axis (400 world units) is out of bounds.
pub const ARENA_LIMIT: i64 = 400_000;
/// The speed cap: 5 world units per tick.
pub const MAX_SPEED: i64 = 5_000;
/// Squared goal radius: an agent closer than 5 world units has reached the
/// goal, and 5000^2 = 25_000_000 in scaled squared units.
pub const GOAL_RADIUS_SQ: i64 = 25_000_000;
/// The largest coordinate magnitude the segment intersection test accepts;
/// keeps every intermediate cross product inside an `i128`.
pub const COORD_LIMIT: i64 = 1_000_000_000_000;

/// A plane vector (or point) in scaled integer coordinates.
#[derive(Clone, Copy, PartialEq, Eq, Structural, Debug)]
pub struct Vec2 {
    pub x: i64,
    pub y: i64,
}

/// A line segment between two points, used as an obstacle.
#[derive(Clone, Copy, PartialEq, Eq, Structural, Debug)]
pub struct Segment {
    pub a: Vec2,
    pub b: Vec2,
}

pub open spec fn coord_ok(c: int) -> bool {
    -(COORD_LIMIT as int) <= c <= COORD_LIMIT as int
}

pub open spec fn vec_ok(v: Vec2) -> bool {
    coord_ok(v.x as int) && coord_ok(v.y as int)
}

pub open spec fn seg_ok(s: Segment) -> bool {
    vec_ok(s.a) && vec_ok(s.b)
}

/// Squared distance between two points, in scaled squared units.
pub open spec fn dist_sq(a: Vec2, b: Vec2) -> int {
    (a.x - b.x) * (a.x - b.x) + (a.y - b.y) * (a.y - b.y)
}

/// Squared distance, computed exactly for coordinates up to one billion in
/// magnitude.
pub fn dist_sq_e(a: Vec2, b: Vec2) -> (r: i64)
    requires
        -1_000_000_000 <= a.x <= 1_000_000_000,
        -1_000_000_000 <= a.y <= 1_000_000_000,
        -1_000_000_000 <= b.x <= 1_000_000_000,
        -1_000_000_000 <= b.y <= 1_000_000_000,
    ensures
        r as int == dist_sq(a, b),
        r >= 0,
{
    let dx: i64 = a.x - b.x;
    let dy: i64 = a.y - b.y;
    proof {
        assert(0 <= dx * dx <= 4_000_000_000_000_000_000) by (nonlinear_arith)
            requires -2_000_000_000 <= dx <= 2_000_000_000;
        assert(0 <= dy * dy <= 4_000_000_000_000_000_000) by (nonlinear_arith)
            requires -2_000_000_000 <= dy <= 2_000_000_000;
    }
    dx * dx + dy * dy
}

/// Floor of the square root, as a recursive definition: the largest `r`
/// with `r * r <= n`.
pub open spec fn spec_isqrt(n: int) -> int
    decreases n,
{
    if n <= 0 {
        0
    } else {
        let r = spec_isqrt(n - 1);
        if (r + 1) * (r + 1) <= n {
            r + 1
        } else {
            r
        }
    }
}

pub proof fn lemma_isqrt_props(n: int)
    requires
        n >= 0,
    ensures
        spec_isqrt(n) >= 0,
        spec_isqrt(n) * spec_isqrt(n) <= n,
        (spec_isqrt(n) + 1) * (spec_isqrt(n) + 1) > n,
    decreases n,
{
    if n == 0 {
        assert(spec_isqrt(0) == 0);
    } else {
        lemma_isqrt_props(n - 1);
        let r = spec_isqrt(n - 1);
        if (r + 1) * (r + 1) <= n {
            assert(((r + 1) + 1) * ((r + 1) + 1) > n) by (nonlinear_arith)
                requires (r + 1) * (r + 1) > n - 1 && (r + 1) * (r + 1) <= n && r >= 0;
        }
    }
}

pub proof fn lemma_isqrt_unique(n: int, r: int)
    requires
        n >= 0,
        r >= 0,
        r * r <= n,
        (r + 1) * (r + 1) > n,
    ensures
        r == spec_isqrt(n),
{
    lemma_isqrt_props(n);
    let s = spec_isqrt(n);
    assert(r == s) by (nonlinear_arith)
        requires
            r >= 0 && s >= 0 && r * r <= n && s * s <= n,
            (r + 1) * (r + 1) > n && (s + 1) * (s + 1) > n;
}

/// Floor of the square root of `n`, by binary search.
pub fn isqrt64(n: u64) -> (r: u64)
    ensures
        r as int == spec_isqrt(n as int),
        (r as int) * (r as int) <= n as int,
        ((r as int) + 1) * ((r as int) + 1) > n as int,
{
    let mut lo: u64 = 0;
    let mut hi: u64 = if n < 4_294_967_295 {
        n
    } else {
        4_294_967_295
    };
    proof {
        if n < 4_294_967_295 {
            assert(((hi as int) + 1) * ((hi as int) + 1) > n as int) by (nonlinear_arith)
                requires hi as int == n as int && (n as int) < 4_294_967_295;
        } else {
            assert(((hi as int) + 1) * ((hi as int) + 1) > n as int) by (nonlinear_arith)
                requires hi as int == 4_294_967_295 && n <= 0xffff_ffff_ffff_ffffu64;
        }
    }
    while lo < hi
        invariant
            lo <= hi,
            (lo as int) * (lo as int) <= n as int,
            ((hi as int) + 1) * ((hi as int) + 1) > n as int,
            hi <= 4_294_967_295,
        decreases hi - lo,
    {
        let mid: u64 = lo + (hi - lo + 1) / 2;
        proof {
            assert((mid as int) * (mid as int) < 0x1_0000_0000_0000_0000_0000_0000_0000_0000)
                by (nonlinear_arith)
                requires mid <= 4_294_967_295u64;
        }
        if (mid as u128) * (mid as u128) <= n as u128 {
            lo = mid;
        } else {
            hi = mid - 1;
        }
    }
    proof {
        lemma_isqrt_unique(n as int, lo as int);
    }
    lo
}

/// Twice the signed area of the triangle `o`, `a`, `b`: positive when the
/// turn from `o -> a` to `o -> b` is counter-clockwise, zero when the three
/// points are collinear.
pub open spec fn cross(o: Vec2, a: Vec2, b: Vec2) -> int {
    (a.x - o.x) * (b.y - o.y) - (a.y - o.y) * (b.x - o.x)
}

fn cross_e(o: Vec2, a: Vec2, b: Vec2) -> (r: i128)
    requires
        vec_ok(o),
        vec_ok(a),
        vec_ok(b),
    ensures
        r as int == cross(o, a, b),
{
    let d1x: i128 = a.x as i128 - o.x as i128;
    let d1y: i128 = a.y as i128 - o.y as i128;
    let d2x: i128 = b.x as i128 - o.x as i128;
    let d2y: i128 = b.y as i128 - o.y as i128;
    proof {
        assert(-4_000_000_000_000_000_000_000_000 <= d1x * d2y
            <= 4_000_000_000_000_000_000_000_000) by (nonlinear_arith)
            requires
                -2_000_000_000_000 <= d1x <= 2_000_000_000_000,
                -2_000_000_000_000 <= d2y <= 2_000_000_000_000;
        assert(-4_000_000_000_000_000_000_000_000 <= d1y * d2x
            <= 4_000_000_000_000_000_000_000_000) by (nonlinear_arith)
            requires
                -2_000_000_000_000 <= d1y <= 2_000_000_000_000,
                -2_000_000_000_000 <= d2x <= 2_000_000_000_000;
    }
    d1x * d2y - d1y * d2x
}

/// Is `b` inside the closed axis-aligned box spanned by `a` and `c`?
/// Together with collinearity this places `b` on the segment `a`-`c`.
pub open spec fn within_box(a: Vec2, b: Vec2, c: Vec2) -> bool {
    ((a.x <= b.x && b.x <= c.x) || (c.x <= b.x && b.x <= a.x)) && ((a.y <= b.y && b.y <= c.y) || (
    c.y <= b.y && b.y <= a.y))
}

fn within_box_e(a: Vec2, b: Vec2, c: Vec2) -> (r: bool)
    ensures
        r == within_box(a, b, c),
{
    ((a.x <= b.x && b.x <= c.x) || (c.x <= b.x && b.x <= a.x)) && ((a.y <= b.y && b.y <= c.y) || (
    c.y <= b.y && b.y <= a.y))
}

/// Do the closed segments `p1`-`q1` and `p2`-`q2` meet? The standard
/// orientation test; touching endpoints and collinear overlap count as
/// meeting.
pub open spec fn segments_intersect(p1: Vec2, q1: Vec2, p2: Vec2, q2: Vec2) -> bool {
    let d1 = cross(p2, q2, p1);
    let d2 = cross(p2, q2, q1);
    let d3 = cross(p1, q1, p2);
    let d4 = cross(p1, q1, q2);
    if ((d1 > 0 && d2 < 0) || (d1 < 0 && d2 > 0)) && ((d3 > 0 && d4 < 0) || (d3 < 0 && d4 > 0)) {
        true
    } else if d1 == 0 && within_box(p2, p1, q2) {
        true
    } else if d2 == 0 && within_box(p2, q1, q2) {
        true
    } else if d3 == 0 && within_box(p1, p2, q1) {
        true
    } else {
        d4 == 0 && within_box(p1, q2, q1)
    }
}

/// Exact segment intersection test for coordinates within `COORD_LIMIT`.
pub fn segments_intersect_e(p1: Vec2, q1: Vec2, p2: Vec2, q2: Vec2) -> (r: bool)
    requires
        vec_ok(p1),
        vec_ok(q1),
        vec_ok(p2),
        vec_ok(q2),
    ensures
        r == segments_intersect(p1, q1, p2, q2),
{
    let d1: i128 = cross_e(p2, q2, p1);
    let d2: i128 = cross_e(p2, q2, q1);
    let d3: i128 = cross_e(p1, q1, p2);
    let d4: i128 = cross_e(p1, q1, q2);
    if ((d1 > 0 && d2 < 0) || (d1 < 0 && d2 > 0)) && ((d3 > 0 && d4 < 0) || (d3 < 0 && d4 > 0)) {
        true
    } else if d1 == 0 && within_box_e(p2, p1, q2) {
        true
    } else if d2 == 0 && within_box_e(p2, q1, q2) {
        true
    } else if d3 == 0 && within_box_e(p1, p2, q1) {
        true
    } else {
        d4 == 0 && within_box_e(p1, q2, q1)
    }
}

/// Does the segment `a`-`b` meet any of the given obstacle segments?
pub open spec fn hits_any(a: Vec2, b: Vec2, obs: Seq<Segment>) -> bool {
    exists|i: int|
        0 <= i < obs.len() && #[trigger] segments_intersect(a, b, obs[i].a, obs[i].b)
}

/// Scan the obstacle list for a segment meeting `a`-`b`.
pub fn any_intersection(a: Vec2, b: Vec2, obstacles: &Vec<Segment>) -> (r: bool)
    requires
        vec_ok(a),
        vec_ok(b),
        forall|i: int| 0 <= i < obstacles@.len() ==> seg_ok(#[trigger] obstacles@[i]),
    ensures
        r == hits_any(a, b, obstacles@),
{
    let mut i: usize = 0;
    while i < obstacles.len()
        invariant
            i <= obstacles@.len(),
            vec_ok(a),
            vec_ok(b),
            forall|k: int| 0 <= k < obstacles@.len() ==> seg_ok(#[trigger] obstacles@[k]),
            forall|k: int|
                0 <= k < i ==> !(#[trigger] segments_intersect(a, b, obstacles@[k].a, obstacles@[k].b)),
        decreases obstacles@.len() - i,
    {
        let s: Segment = obstacles[i];
        if segments_intersect_e(a, b, s.a, s.b) {
            return true;
        }
        i = i + 1;
    }
    false
}

} // verus!
