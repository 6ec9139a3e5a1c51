use vstd::prelude::*;

use crate::geom::{
    dist_sq, dist_sq_e, hits_any, any_intersection, isqrt64, seg_ok, spec_isqrt, Segment, Vec2,
    ARENA_LIMIT, GOAL_RADIUS_SQ, MAX_SPEED, SCALE,
};
use crate::rng::{lcg_next, spec_next_below, SimRng};

verus! {

/// The longest genome (and so the most steps) an agent may carry; keeps the
/// squared step count within the fitness scale.
pub const MAX_GENOME_LEN: usize = 1_000_000;
/// Squared speed cap: an accumulated velocity above this is scaled back.
pub const MAX_SPEED_SQ: i64 = 25_000_000;
/// Fixed-point value of a fitness of 1.0.
pub const FITNESS_ONE: u64 = 1_000_000_000_000;
/// Fitness of 1.0 divided by 25, the reward floor of a finisher.
pub const FITNESS_BASE: u64 = 40_000_000_000;
/// Numerator of the distance fitness: `FITNESS_ONE` world units squared,
/// expressed over scaled squared distances.
pub const FITNESS_DIST_NUM: u64 = 1_000_000_000_000_000_000;
/// A gene mutates with probability one in `MUTATION_ONE_IN` (0.1).
pub const MUTATION_ONE_IN: u64 = 10;

/// A genome impulse is near-unit: each scaled component stays within one
/// world unit, and the squared length lies within half a percent of one
/// world unit squared (integer rounding forbids exact unit length).
pub open spec fn dir_near_unit(v: Vec2) -> bool {
    &&& -SCALE <= v.x <= SCALE
    &&& -SCALE <= v.y <= SCALE
    &&& 995_000 <= v.x * v.x + v.y * v.y <= 1_005_000
}

/// A fixed-length sequence of unit-length impulse vectors; the heritable
/// unit of evolution.
pub struct Genome {
    pub directions: Vec<Vec2>,
}

impl View for Genome {
    type V = Seq<Vec2>;

    open spec fn view(&self) -> Seq<Vec2> {
        self.directions@
    }
}

impl Genome {
    pub open spec fn wf(&self) -> bool {
        self@.len() <= MAX_GENOME_LEN && forall|i: int|
            0 <= i < self@.len() ==> dir_near_unit(#[trigger] self@[i])
    }

    /// A genome of `num_steps` impulses, each drawn with a fresh random
    /// direction: exactly the sequence the generator state determines.
    pub fn new(num_steps: usize, rng: &mut SimRng) -> (g: Genome)
        requires
            num_steps <= MAX_GENOME_LEN,
        ensures
            g.wf(),
            g@.len() == num_steps,
            g@ == spec_genome_dirs(num_steps as nat, old(rng).state).0,
            final(rng).state == spec_genome_dirs(num_steps as nat, old(rng).state).1,
    {
        let ghost s0: u64 = rng.state;
        let mut directions: Vec<Vec2> = Vec::new();
        proof {
            assert(directions@ + spec_genome_dirs(num_steps as nat, s0).0 =~= spec_genome_dirs(
                num_steps as nat,
                s0,
            ).0);
        }
        let mut i: usize = 0;
        while i < num_steps
            invariant
                i <= num_steps,
                num_steps <= MAX_GENOME_LEN,
                directions@.len() == i,
                forall|k: int| 0 <= k < i ==> dir_near_unit(#[trigger] directions@[k]),
                directions@ + spec_genome_dirs((num_steps - i) as nat, rng.state).0
                    == spec_genome_dirs(num_steps as nat, s0).0,
                spec_genome_dirs((num_steps - i) as nat, rng.state).1 == spec_genome_dirs(
                    num_steps as nat,
                    s0,
                ).1,
            decreases num_steps - i,
        {
            let ghost pre = directions@;
            let ghost s_i: u64 = rng.state;
            let d = random_direction(rng);
            directions.push(d);
            proof {
                let rem = (num_steps - i) as nat;
                assert(spec_genome_dirs(rem, s_i).0 == seq![d] + spec_genome_dirs(
                    (rem - 1) as nat,
                    rng.state,
                ).0);
                assert(pre + spec_genome_dirs(rem, s_i).0 =~= pre.push(d) + spec_genome_dirs(
                    (rem - 1) as nat,
                    rng.state,
                ).0);
            }
            i = i + 1;
        }
        proof {
            assert(directions@ + spec_genome_dirs(0, rng.state).0 =~= directions@);
        }
        Genome { directions }
    }

    /// A genome made of the given impulses; each must stay within one world
    /// unit per axis.
    pub fn from_directions(directions: Vec<Vec2>) -> (g: Genome)
        requires
            directions@.len() <= MAX_GENOME_LEN,
            forall|i: int| 0 <= i < directions@.len() ==> dir_near_unit(#[trigger] directions@[i]),
        ensures
            g.wf(),
            g@ == directions@,
    {
        Genome { directions }
    }

    /// An exact copy of this genome.
    pub fn duplicate(&self) -> (g: Genome)
        ensures
            g@ == self@,
    {
        let mut directions: Vec<Vec2> = Vec::new();
        let mut i: usize = 0;
        while i < self.directions.len()
            invariant
                i <= self.directions@.len(),
                directions@.len() == i,
                forall|k: int| 0 <= k < i ==> directions@[k] == self.directions@[k],
            decreases self.directions@.len() - i,
        {
            directions.push(self.directions[i]);
            i = i + 1;
        }
        proof {
            assert(directions@ =~= self.directions@);
        }
        Genome { directions }
    }

    /// A copy of this genome in which each gene, in order, keeps its
    /// direction unless its roll from the generator is zero (one chance in
    /// ten), in which case a fresh random direction replaces it: exactly
    /// the sequence `spec_mutate_dirs` determines from the state.
    pub fn mutate(&self, rng: &mut SimRng) -> (g: Genome)
        requires
            self.wf(),
        ensures
            g.wf(),
            g@.len() == self@.len(),
            g@ == spec_mutate_dirs(self@, old(rng).state).0,
            final(rng).state == spec_mutate_dirs(self@, old(rng).state).1,
    {
        let ghost s0: u64 = rng.state;
        let n: usize = self.directions.len();
        let mut directions: Vec<Vec2> = Vec::new();
        proof {
            assert(self@.skip(0) =~= self@);
            assert(directions@ + spec_mutate_dirs(self@, s0).0 =~= spec_mutate_dirs(self@, s0).0);
        }
        let mut i: usize = 0;
        while i < n
            invariant
                self.wf(),
                n == self.directions@.len(),
                i <= n,
                directions@.len() == i,
                forall|k: int| 0 <= k < i ==> dir_near_unit(#[trigger] directions@[k]),
                directions@ + spec_mutate_dirs(self@.skip(i as int), rng.state).0
                    == spec_mutate_dirs(self@, s0).0,
                spec_mutate_dirs(self@.skip(i as int), rng.state).1 == spec_mutate_dirs(
                    self@,
                    s0,
                ).1,
            decreases n - i,
        {
            let ghost pre = directions@;
            let ghost s_i: u64 = rng.state;
            let ghost rest = self@.skip(i as int);
            let roll: u64 = rng.next_below(MUTATION_ONE_IN);
            if roll == 0 {
                let d = random_direction(rng);
                directions.push(d);
                proof {
                    assert(spec_mutate_dirs(rest, s_i).0 == seq![d] + spec_mutate_dirs(
                        rest.drop_first(),
                        rng.state,
                    ).0);
                }
            } else {
                let kept: Vec2 = self.directions[i];
                directions.push(kept);
                proof {
                    assert(rest[0] == kept);
                    assert(spec_mutate_dirs(rest, s_i).0 == seq![kept] + spec_mutate_dirs(
                        rest.drop_first(),
                        rng.state,
                    ).0);
                }
            }
            proof {
                assert(rest.drop_first() =~= self@.skip(i as int + 1));
                assert(pre + spec_mutate_dirs(rest, s_i).0 =~= directions@ + spec_mutate_dirs(
                    rest.drop_first(),
                    rng.state,
                ).0);
            }
            i = i + 1;
        }
        proof {
            assert(self@.skip(n as int) =~= Seq::<Vec2>::empty());
            assert(directions@ + spec_mutate_dirs(self@.skip(n as int), rng.state).0
                =~= directions@);
        }
        Genome { directions }
    }
}

/// How a component scales when a vector of magnitude about `r` is brought
/// to magnitude `num`: the absolute value scales by `num / r` (rounding
/// toward zero) and the sign is kept.
pub open spec fn spec_scaled(c: int, num: int, r: int) -> int {
    if c >= 0 {
        c * num / r
    } else {
        -((-c) * num / r)
    }
}

fn scaled_ratio(c: i64, num: u64, r: u64) -> (out: i64)
    requires
        1 <= r <= 10_000,
        1 <= num <= 10_000,
        -10_000 <= c <= 10_000,
        -(r as int) <= c as int <= r as int,
    ensures
        out as int == spec_scaled(c as int, num as int, r as int),
        -(num as int) <= out as int <= num as int,
{
    let ax: u64 = if c >= 0 {
        c as u64
    } else {
        (-c) as u64
    };
    proof {
        assert(ax * num <= 100_000_000) by (nonlinear_arith)
            requires ax <= 10_000 && num <= 10_000;
    }
    let prod: u64 = ax * num;
    let q: u64 = prod / r;
    proof {
        assert(q <= num) by (nonlinear_arith)
            requires 0 <= ax <= r && r >= 1 && num >= 0 && prod == ax * num && q as int == (
            prod as int) / (r as int);
    }
    if c >= 0 {
        q as i64
    } else {
        -(q as i64)
    }
}

/// The velocity an agent keeps after the speed cap: unchanged while the
/// squared speed is within `MAX_SPEED_SQ`, otherwise scaled down by the
/// ceiling of the square root of the squared speed (components rounded
/// toward zero), so the capped speed never exceeds `MAX_SPEED`.
pub open spec fn spec_clamp_vel(v: Vec2) -> Vec2 {
    let s = v.x * v.x + v.y * v.y;
    if s <= MAX_SPEED_SQ {
        v
    } else {
        let r0 = spec_isqrt(s);
        let r = if r0 * r0 == s { r0 } else { r0 + 1 };
        Vec2 {
            x: spec_scaled(v.x as int, MAX_SPEED as int, r) as i64,
            y: spec_scaled(v.y as int, MAX_SPEED as int, r) as i64,
        }
    }
}

/// Apply the speed cap to an accumulated velocity.
pub fn clamp_velocity(v: Vec2) -> (r: Vec2)
    requires
        -6_000 <= v.x <= 6_000,
        -6_000 <= v.y <= 6_000,
    ensures
        r == spec_clamp_vel(v),
        -MAX_SPEED <= r.x <= MAX_SPEED,
        -MAX_SPEED <= r.y <= MAX_SPEED,
        r.x * r.x + r.y * r.y <= MAX_SPEED_SQ,
{
    proof {
        assert(0 <= v.x * v.x <= 36_000_000 && 0 <= v.y * v.y <= 36_000_000) by (nonlinear_arith)
            requires -6_000 <= v.x <= 6_000 && -6_000 <= v.y <= 6_000;
    }
    let s: i64 = v.x * v.x + v.y * v.y;
    if s <= MAX_SPEED_SQ {
        proof {
            assert(-5_000 <= v.x <= 5_000 && -5_000 <= v.y <= 5_000) by (nonlinear_arith)
                requires v.x * v.x + v.y * v.y <= 25_000_000;
        }
        v
    } else {
        let rt0: u64 = isqrt64(s as u64);
        proof {
            let si = s as int;
            let ri = rt0 as int;
            assert(5_000 <= ri < 10_000) by (nonlinear_arith)
                requires
                    ri >= 0,
                    ri * ri <= si,
                    (ri + 1) * (ri + 1) > si,
                    25_000_000 < si <= 72_000_000;
            assert(ri * ri <= 100_000_000) by (nonlinear_arith)
                requires 0 <= ri < 10_000;
        }
        let rt: u64 = if rt0 * rt0 == s as u64 {
            rt0
        } else {
            rt0 + 1
        };
        proof {
            let si = s as int;
            let ri = rt as int;
            assert(ri * ri >= si) by (nonlinear_arith)
                requires
                    (rt0 as int) * (rt0 as int) <= si,
                    ((rt0 as int) + 1) * ((rt0 as int) + 1) > si,
                    ri == (if (rt0 as int) * (rt0 as int) == si { rt0 as int } else { (rt0 as int) + 1 });
            assert(-ri <= v.x as int <= ri && -ri <= v.y as int <= ri) by (nonlinear_arith)
                requires
                    ri >= 1,
                    ri * ri >= si,
                    si == (v.x as int) * (v.x as int) + (v.y as int) * (v.y as int),
                    -6_000 <= v.x as int <= 6_000,
                    -6_000 <= v.y as int <= 6_000;
        }
        let nx: i64 = scaled_ratio(v.x, 5_000, rt);
        let ny: i64 = scaled_ratio(v.y, 5_000, rt);
        proof {
            let si = s as int;
            let ri = rt as int;
            let ax = if v.x >= 0 { v.x as int } else { -(v.x as int) };
            let ay = if v.y >= 0 { v.y as int } else { -(v.y as int) };
            let na = ax * 5000 / ri;
            let nb = ay * 5000 / ri;
            assert(ax * ax == (v.x as int) * (v.x as int) && ay * ay == (v.y as int) * (
            v.y as int)) by (nonlinear_arith)
                requires
                    (ax == v.x as int || ax == -(v.x as int)),
                    (ay == v.y as int || ay == -(v.y as int));
            assert(nx as int == na || nx as int == -na);
            assert(ny as int == nb || ny as int == -nb);
            assert((nx as int) * (nx as int) == na * na && (ny as int) * (ny as int) == nb * nb)
                by (nonlinear_arith)
                requires
                    (nx as int == na || nx as int == -na),
                    (ny as int == nb || ny as int == -nb);
            assert(na >= 0 && na * ri <= ax * 5000) by (nonlinear_arith)
                requires na == ax * 5000 / ri && ri >= 1 && ax >= 0;
            assert(nb >= 0 && nb * ri <= ay * 5000) by (nonlinear_arith)
                requires nb == ay * 5000 / ri && ri >= 1 && ay >= 0;
            lemma_square_le(na * ri, ax * 5000);
            lemma_square_le(nb * ri, ay * 5000);
            assert(na * na * (ri * ri) <= ax * ax * 25_000_000) by (nonlinear_arith)
                requires (na * ri) * (na * ri) <= (ax * 5000) * (ax * 5000);
            assert(nb * nb * (ri * ri) <= ay * ay * 25_000_000) by (nonlinear_arith)
                requires (nb * ri) * (nb * ri) <= (ay * 5000) * (ay * 5000);
            assert((na * na + nb * nb) * (ri * ri) <= si * 25_000_000) by (nonlinear_arith)
                requires
                    na * na * (ri * ri) <= ax * ax * 25_000_000,
                    nb * nb * (ri * ri) <= ay * ay * 25_000_000,
                    si == ax * ax + ay * ay;
            assert(na * na + nb * nb <= 25_000_000) by (nonlinear_arith)
                requires
                    (na * na + nb * nb) * (ri * ri) <= si * 25_000_000,
                    si <= ri * ri,
                    ri >= 1;
        }
        Vec2 { x: nx, y: ny }
    }
}

/// The first rejection-sample coordinate two draws from state `s` yield.
pub open spec fn spec_sample_x(s: u64) -> int {
    spec_next_below(s, 2001) - 1000
}

/// The second rejection-sample coordinate.
pub open spec fn spec_sample_y(s: u64) -> int {
    spec_next_below(lcg_next(s), 2001) - 1000
}

/// Is the sampled point accepted: inside the unit disc but no closer to
/// the origin than half a unit, so that scaling it out to the unit circle
/// stays accurate.
pub open spec fn spec_sample_ok(s: u64) -> bool {
    let x = spec_sample_x(s);
    let y = spec_sample_y(s);
    250_000 <= x * x + y * y <= 1_000_000
}

/// An accepted sample scaled out to the unit circle.
pub open spec fn spec_norm_dir(x: int, y: int) -> Vec2 {
    let r = spec_isqrt(x * x + y * y);
    Vec2 {
        x: spec_scaled(x, SCALE as int, r) as i64,
        y: spec_scaled(y, SCALE as int, r) as i64,
    }
}

/// What drawing one direction from state `s` returns and leaves behind:
/// up to `budget` rejection attempts of two draws each, then the unit
/// vector along the x axis if every attempt failed.
pub open spec fn spec_random_direction(s: u64, budget: nat) -> (Vec2, u64)
    decreases budget,
{
    if budget == 0 {
        (Vec2 { x: SCALE, y: 0 }, s)
    } else {
        let s2 = lcg_next(lcg_next(s));
        if spec_sample_ok(s) {
            (spec_norm_dir(spec_sample_x(s), spec_sample_y(s)), s2)
        } else {
            spec_random_direction(s2, (budget - 1) as nat)
        }
    }
}

/// The direction sequence mutation yields from `genes` when rolling
/// starts from state `s`, with the state left behind: each gene in order
/// keeps its direction unless its roll is zero (one chance in
/// `MUTATION_ONE_IN`), in which case a fresh direction is drawn.
pub open spec fn spec_mutate_dirs(genes: Seq<Vec2>, s: u64) -> (Seq<Vec2>, u64)
    decreases genes.len(),
{
    if genes.len() == 0 {
        (Seq::empty(), s)
    } else if spec_next_below(s, MUTATION_ONE_IN) == 0 {
        let drawn = spec_random_direction(lcg_next(s), 16);
        let rest = spec_mutate_dirs(genes.drop_first(), drawn.1);
        (seq![drawn.0] + rest.0, rest.1)
    } else {
        let rest = spec_mutate_dirs(genes.drop_first(), lcg_next(s));
        (seq![genes[0]] + rest.0, rest.1)
    }
}

/// The direction sequence a fresh genome of `n` genes holds when drawing
/// starts from state `s`, with the state left behind.
pub open spec fn spec_genome_dirs(n: nat, s: u64) -> (Seq<Vec2>, u64)
    decreases n,
{
    if n == 0 {
        (Seq::empty(), s)
    } else {
        let first = spec_random_direction(s, 16);
        let rest = spec_genome_dirs((n - 1) as nat, first.1);
        (seq![first.0] + rest.0, rest.1)
    }
}

/// For non-negative quantities, squaring preserves order.
proof fn lemma_square_le(x: int, y: int)
    requires
        0 <= x <= y,
    ensures
        x * x <= y * y,
{
    assert(x * x <= y * y) by (nonlinear_arith)
        requires 0 <= x <= y;
}

/// Scaling an accepted sample to the unit circle lands within half a
/// percent of unit length: the rounding of one floor square root and two
/// floor divisions cannot do worse once the sample is at least half a
/// unit long.
proof fn lemma_norm_near_unit(x: int, y: int, sq: int, r: int, nx: int, ny: int)
    requires
        sq == x * x + y * y,
        250_000 <= sq <= 1_000_000,
        -1000 <= x <= 1000,
        -1000 <= y <= 1000,
        r >= 0,
        r * r <= sq,
        (r + 1) * (r + 1) > sq,
        nx == spec_scaled(x, 1000, r),
        ny == spec_scaled(y, 1000, r),
    ensures
        995_000 <= nx * nx + ny * ny <= 1_005_000,
        -1000 <= nx <= 1000,
        -1000 <= ny <= 1000,
{
    let a = if x >= 0 { x } else { -x };
    let b = if y >= 0 { y } else { -y };
    assert(a * a == x * x && b * b == y * y) by (nonlinear_arith)
        requires (a == x || a == -x) && (b == y || b == -y);
    assert(500 <= r <= 1000) by (nonlinear_arith)
        requires r >= 0 && r * r <= sq && (r + 1) * (r + 1) > sq && 250_000 <= sq <= 1_000_000;
    let na = a * 1000 / r;
    let nb = b * 1000 / r;
    assert(nx == na || nx == -na);
    assert(ny == nb || ny == -nb);
    assert(nx * nx == na * na && ny * ny == nb * nb) by (nonlinear_arith)
        requires (nx == na || nx == -na) && (ny == nb || ny == -nb);
    assert(na >= 0 && na * r <= a * 1000 && a * 1000 < (na + 1) * r) by (nonlinear_arith)
        requires na == a * 1000 / r && r >= 1 && a >= 0;
    assert(nb >= 0 && nb * r <= b * 1000 && b * 1000 < (nb + 1) * r) by (nonlinear_arith)
        requires nb == b * 1000 / r && r >= 1 && b >= 0;
    assert(a * a <= sq && b * b <= sq) by (nonlinear_arith)
        requires sq == a * a + b * b && a * a >= 0 && b * b >= 0;
    assert(a <= r && b <= r) by (nonlinear_arith)
        requires
            0 <= a <= 1000 && 0 <= b <= 1000 && r >= 0,
            a * a <= sq && b * b <= sq,
            (r + 1) * (r + 1) > sq;
    assert(na <= 1000 && nb <= 1000) by (nonlinear_arith)
        requires
            na * r <= a * 1000 && nb * r <= b * 1000 && a <= r && b <= r && r >= 1,
            na >= 0 && nb >= 0;
    lemma_square_le(na * r, a * 1000);
    lemma_square_le(nb * r, b * 1000);
    assert(na * na * (r * r) <= a * a * 1_000_000) by (nonlinear_arith)
        requires (na * r) * (na * r) <= (a * 1000) * (a * 1000);
    assert(nb * nb * (r * r) <= b * b * 1_000_000) by (nonlinear_arith)
        requires (nb * r) * (nb * r) <= (b * 1000) * (b * 1000);
    assert((na * na + nb * nb) * (r * r) <= sq * 1_000_000) by (nonlinear_arith)
        requires
            na * na * (r * r) <= a * a * 1_000_000,
            nb * nb * (r * r) <= b * b * 1_000_000,
            sq == a * a + b * b;
    lemma_square_le(a * 1000, (na + 1) * r - 1);
    lemma_square_le(b * 1000, (nb + 1) * r - 1);
    assert((na + 1) * (na + 1) * (r * r) > a * a * 1_000_000) by (nonlinear_arith)
        requires
            (a * 1000) * (a * 1000) <= ((na + 1) * r - 1) * ((na + 1) * r - 1),
            na >= 0 && r >= 1;
    assert((nb + 1) * (nb + 1) * (r * r) > b * b * 1_000_000) by (nonlinear_arith)
        requires
            (b * 1000) * (b * 1000) <= ((nb + 1) * r - 1) * ((nb + 1) * r - 1),
            nb >= 0 && r >= 1;
    assert(((na + 1) * (na + 1) + (nb + 1) * (nb + 1)) * (r * r) > sq * 1_000_000)
        by (nonlinear_arith)
        requires
            (na + 1) * (na + 1) * (r * r) > a * a * 1_000_000,
            (nb + 1) * (nb + 1) * (r * r) > b * b * 1_000_000,
            sq == a * a + b * b;
    assert(sq <= r * r + 2 * r) by (nonlinear_arith)
        requires (r + 1) * (r + 1) > sq;
    assert(na * na + nb * nb <= 1_004_000) by (nonlinear_arith)
        requires
            (na * na + nb * nb) * (r * r) <= sq * 1_000_000,
            sq <= r * r + 2 * r,
            500 <= r <= 1000,
            na >= 0 && nb >= 0;
    assert((na + 1) * (na + 1) + (nb + 1) * (nb + 1) > 1_000_000) by (nonlinear_arith)
        requires
            ((na + 1) * (na + 1) + (nb + 1) * (nb + 1)) * (r * r) > sq * 1_000_000,
            r * r <= sq,
            r >= 1;
    assert(na * na + nb * nb >= 995_000) by (nonlinear_arith)
        requires
            (na + 1) * (na + 1) + (nb + 1) * (nb + 1) > 1_000_000,
            0 <= na <= 1000 && 0 <= nb <= 1000;
    assert(-1000 <= nx <= 1000 && -1000 <= ny <= 1000);
}

/// A fresh impulse of near-unit length, drawn by rejection sampling a
/// point of the unit disc (no closer than half a unit to the origin) and
/// scaling it out to the unit circle. The direction is uniform over the
/// circle up to integer rounding, and the result is exactly what the
/// incoming generator state determines.
/// An accepted rejection sample settles the draw: the direction returned
/// is the sample scaled to the unit circle, it is near-unit, and exactly
/// two raw values were consumed.
proof fn lemma_direction_accepted(s_at: u64, sq: int, r: int, d: Vec2, budget: nat)
    requires
        budget >= 1,
        -1000 <= spec_sample_x(s_at) <= 1000,
        -1000 <= spec_sample_y(s_at) <= 1000,
        sq == spec_sample_x(s_at) * spec_sample_x(s_at) + spec_sample_y(s_at) * spec_sample_y(
            s_at,
        ),
        250_000 <= sq <= 1_000_000,
        r >= 0,
        r * r <= sq,
        (r + 1) * (r + 1) > sq,
        d.x as int == spec_scaled(spec_sample_x(s_at), 1000, r),
        d.y as int == spec_scaled(spec_sample_y(s_at), 1000, r),
        -1000 <= d.x <= 1000,
        -1000 <= d.y <= 1000,
    ensures
        dir_near_unit(d),
        spec_random_direction(s_at, budget) == (d, lcg_next(lcg_next(s_at))),
{
    let x = spec_sample_x(s_at);
    let y = spec_sample_y(s_at);
    lemma_norm_near_unit(x, y, sq, r, d.x as int, d.y as int);
    assert(spec_sample_ok(s_at));
    assert(r == spec_isqrt(sq)) by {
        crate::geom::lemma_isqrt_unique(sq, r);
    }
    assert(spec_norm_dir(x, y) == d);
}

/// A rejected sample only advances the generator by two raw values.
proof fn lemma_direction_rejected(s_at: u64, budget: nat)
    requires
        budget >= 1,
        !spec_sample_ok(s_at),
    ensures
        spec_random_direction(s_at, budget) == spec_random_direction(
            lcg_next(lcg_next(s_at)),
            (budget - 1) as nat,
        ),
{
}

#[verifier::rlimit(100)]
fn random_direction(rng: &mut SimRng) -> (d: Vec2)
    ensures
        dir_near_unit(d),
        d == spec_random_direction(old(rng).state, 16).0,
        final(rng).state == spec_random_direction(old(rng).state, 16).1,
{
    let ghost s0: u64 = rng.state;
    let mut tries: usize = 0;
    while tries < 16
        invariant
            tries <= 16,
            s0 == old(rng).state,
            spec_random_direction(s0, 16) == spec_random_direction(
                rng.state,
                (16 - tries) as nat,
            ),
        decreases 16 - tries,
    {
        let ghost s_at: u64 = rng.state;
        let rx: u64 = rng.next_below(2001);
        let ry: u64 = rng.next_below(2001);
        let x: i64 = rx as i64 - 1000;
        let y: i64 = ry as i64 - 1000;
        proof {
            assert(x as int == spec_sample_x(s_at));
            assert(y as int == spec_sample_y(s_at));
            assert(0 <= x * x <= 1_000_000 && 0 <= y * y <= 1_000_000) by (nonlinear_arith)
                requires -1000 <= x <= 1000 && -1000 <= y <= 1000;
        }
        let s: i64 = x * x + y * y;
        if 250_000 <= s && s <= 1_000_000 {
            let rt: u64 = isqrt64(s as u64);
            proof {
                let si = s as int;
                let ri = rt as int;
                assert(1 <= ri <= 1_000) by (nonlinear_arith)
                    requires
                        ri >= 0,
                        ri * ri <= si,
                        (ri + 1) * (ri + 1) > si,
                        1 <= si <= 1_000_000;
                assert(-ri <= x as int <= ri && -ri <= y as int <= ri) by (nonlinear_arith)
                    requires
                        ri >= 0,
                        ri * ri <= si,
                        (ri + 1) * (ri + 1) > si,
                        si == (x as int) * (x as int) + (y as int) * (y as int),
                        -1000 <= x as int <= 1000,
                        -1000 <= y as int <= 1000;
            }
            let nx: i64 = scaled_ratio(x, 1_000, rt);
            let ny: i64 = scaled_ratio(y, 1_000, rt);
            proof {
                lemma_direction_accepted(
                    s_at,
                    s as int,
                    rt as int,
                    Vec2 { x: nx, y: ny },
                    (16 - tries) as nat,
                );
                assert(spec_random_direction(s0, 16) == (
                    Vec2 { x: nx, y: ny },
                    lcg_next(lcg_next(s_at)),
                ));
                assert(spec_random_direction(s0, 16).0 == (Vec2 { x: nx, y: ny }));
                assert(spec_random_direction(s0, 16).1 == lcg_next(lcg_next(s_at)));
                assert(rng.state == lcg_next(lcg_next(s_at)));
            }
            return Vec2 { x: nx, y: ny };
        }
        proof {
            lemma_direction_rejected(s_at, (16 - tries) as nat);
        }
        tries = tries + 1;
    }
    Vec2 { x: SCALE, y: 0 }
}

/// One simulated particle: a position, a velocity, a genome, a step counter
/// and the two terminal flags.
pub struct Dot {
    pub step: usize,
    pub genome: Genome,
    pub dead: bool,
    pub reached_goal: bool,
    pub pos: Vec2,
    pub vel: Vec2,
}

/// Both components of a position stay within the arena plus one tick of
/// travel.
pub open spec fn pos_bounded(p: Vec2) -> bool {
    -(ARENA_LIMIT + MAX_SPEED) <= p.x <= ARENA_LIMIT + MAX_SPEED && -(ARENA_LIMIT + MAX_SPEED)
        <= p.y <= ARENA_LIMIT + MAX_SPEED
}

/// Strictly inside the arena on both axes.
pub open spec fn in_arena(p: Vec2) -> bool {
    -ARENA_LIMIT < p.x < ARENA_LIMIT && -ARENA_LIMIT < p.y < ARENA_LIMIT
}

/// On or past the arena edge on some axis.
pub open spec fn out_of_arena(p: Vec2) -> bool {
    p.x <= -ARENA_LIMIT || p.x >= ARENA_LIMIT || p.y <= -ARENA_LIMIT || p.y >= ARENA_LIMIT
}

impl Dot {
    /// The internal invariant every agent keeps at tick boundaries: the two
    /// terminal flags exclude each other, the step counter never passes the
    /// genome length, a finisher has taken at least one step, velocity obeys
    /// the speed cap, and a non-terminal agent sits strictly inside the
    /// arena.
    pub open spec fn wf(&self) -> bool {
        &&& !(self.dead && self.reached_goal)
        &&& (self.reached_goal ==> self.step >= 1)
        &&& self.step <= self.genome@.len()
        &&& self.genome.wf()
        &&& -MAX_SPEED <= self.vel.x <= MAX_SPEED
        &&& -MAX_SPEED <= self.vel.y <= MAX_SPEED
        &&& self.vel.x * self.vel.x + self.vel.y * self.vel.y <= MAX_SPEED_SQ
        &&& pos_bounded(self.pos)
        &&& (!self.dead && !self.reached_goal ==> in_arena(self.pos))
    }

    /// A fresh agent at `pos` with a new random genome of `num_steps`
    /// near-unit impulses: exactly the sequence the generator state
    /// determines.
    pub fn new(pos: Vec2, num_steps: usize, rng: &mut SimRng) -> (d: Dot)
        requires
            num_steps <= MAX_GENOME_LEN,
            in_arena(pos),
        ensures
            d.wf(),
            d.step == 0,
            !d.dead,
            !d.reached_goal,
            d.pos == pos,
            d.vel == (Vec2 { x: 0, y: 0 }),
            d.genome@.len() == num_steps,
            d.genome@ == spec_genome_dirs(num_steps as nat, old(rng).state).0,
            final(rng).state == spec_genome_dirs(num_steps as nat, old(rng).state).1,
    {
        Dot {
            step: 0,
            genome: Genome::new(num_steps, rng),
            dead: false,
            reached_goal: false,
            pos,
            vel: Vec2 { x: 0, y: 0 },
        }
    }

    /// A fresh agent at `pos` carrying the given genome.
    pub fn with_genome(pos: Vec2, genome: Genome) -> (d: Dot)
        requires
            genome.wf(),
            in_arena(pos),
        ensures
            d.wf(),
            d.step == 0,
            !d.dead,
            !d.reached_goal,
            d.pos == pos,
            d.vel == (Vec2 { x: 0, y: 0 }),
            d.genome == genome,
    {
        Dot { step: 0, genome, dead: false, reached_goal: false, pos, vel: Vec2 { x: 0, y: 0 } }
    }
}

/// The agent an update leaves behind: terminal agents are unchanged, an
/// agent out of genes dies, and otherwise the agent accumulates its next
/// impulse, is speed-capped, moves, and picks up whichever terminal flag
/// the new position earns.
pub open spec fn spec_step(d: Dot, goal: Vec2, obs: Seq<Segment>) -> Dot {
    if d.dead || d.reached_goal {
        d
    } else if d.step >= d.genome@.len() {
        Dot {
            step: d.step,
            genome: d.genome,
            dead: true,
            reached_goal: false,
            pos: d.pos,
            vel: d.vel,
        }
    } else {
        let nv = spec_clamp_vel(
            Vec2 {
                x: (d.vel.x + d.genome@[d.step as int].x) as i64,
                y: (d.vel.y + d.genome@[d.step as int].y) as i64,
            },
        );
        let np = Vec2 { x: (d.pos.x + nv.x) as i64, y: (d.pos.y + nv.y) as i64 };
        let reached = dist_sq(np, goal) < GOAL_RADIUS_SQ;
        let gone = !reached && (out_of_arena(np) || hits_any(d.pos, np, obs));
        Dot {
            step: (d.step + 1) as usize,
            genome: d.genome,
            dead: gone,
            reached_goal: reached,
            pos: np,
            vel: nv,
        }
    }
}

impl Dot {
    /// Advance this agent by one simulated step against the goal and the
    /// obstacle set. A terminal agent is left untouched; an agent out of
    /// genes dies; otherwise the agent moves under its next impulse and the
    /// speed cap, then reaches the goal, leaves the arena, crosses an
    /// obstacle, or simply ticks on.
    pub fn update(&mut self, goal: Vec2, obstacles: &Vec<Segment>)
        requires
            old(self).wf(),
            -ARENA_LIMIT <= goal.x <= ARENA_LIMIT,
            -ARENA_LIMIT <= goal.y <= ARENA_LIMIT,
            forall|i: int| 0 <= i < obstacles@.len() ==> seg_ok(#[trigger] obstacles@[i]),
        ensures
            final(self).wf(),
            *final(self) == spec_step(*old(self), goal, obstacles@),
            final(self).genome == old(self).genome,
    {
        if self.dead || self.reached_goal {
            return;
        }
        if self.step >= self.genome.directions.len() {
            self.dead = true;
            return;
        }
        let dir: Vec2 = self.genome.directions[self.step];
        let nv: Vec2 = clamp_velocity(Vec2 { x: self.vel.x + dir.x, y: self.vel.y + dir.y });
        let prev: Vec2 = self.pos;
        let np: Vec2 = Vec2 { x: prev.x + nv.x, y: prev.y + nv.y };
        self.vel = nv;
        self.pos = np;
        let d: i64 = dist_sq_e(np, goal);
        if d < GOAL_RADIUS_SQ {
            self.reached_goal = true;
        } else if np.x <= -ARENA_LIMIT || np.x >= ARENA_LIMIT || np.y <= -ARENA_LIMIT || np.y
            >= ARENA_LIMIT {
            self.dead = true;
        } else if any_intersection(prev, np, obstacles) {
            self.dead = true;
        }
        self.step = self.step + 1;
    }

    /// The fitness of this agent against the goal, in units of
    /// `FITNESS_ONE` per 1.0: a finisher scores `1/25 + 1/step^2`, anyone
    /// else `1 / dist^2` over world units.
    pub fn calculate_fitness(&self, goal: Vec2) -> (r: u64)
        requires
            self.wf(),
            -ARENA_LIMIT <= goal.x <= ARENA_LIMIT,
            -ARENA_LIMIT <= goal.y <= ARENA_LIMIT,
            self.reached_goal || dist_sq(self.pos, goal) > 0,
        ensures
            r as int == spec_fitness(*self, goal),
            1 <= r <= FITNESS_DIST_NUM,
    {
        if self.reached_goal {
            let s: u64 = self.step as u64;
            proof {
                assert(1 <= (s as int) * (s as int) <= 1_000_000_000_000) by (nonlinear_arith)
                    requires 1 <= s <= 1_000_000;
            }
            let ss: u64 = s * s;
            proof {
                assert(1 <= 1_000_000_000_000int / (ss as int) <= 1_000_000_000_000int)
                    by (nonlinear_arith)
                    requires 1 <= ss <= 1_000_000_000_000;
            }
            FITNESS_BASE + FITNESS_ONE / ss
        } else {
            let d: i64 = dist_sq_e(self.pos, goal);
            proof {
                assert(d <= 1_296_050_000_000) by (nonlinear_arith)
                    requires
                        d as int == (self.pos.x - goal.x) * (self.pos.x - goal.x) + (self.pos.y
                            - goal.y) * (self.pos.y - goal.y),
                        -805_000 <= self.pos.x - goal.x <= 805_000,
                        -805_000 <= self.pos.y - goal.y <= 805_000;
                assert(1 <= 1_000_000_000_000_000_000int / (d as int) <= 1_000_000_000_000_000_000int)
                    by (nonlinear_arith)
                    requires 1 <= d <= 1_000_000_000_000_000_000;
            }
            FITNESS_DIST_NUM / (d as u64)
        }
    }

    /// A fresh agent at `pos` carrying an exact copy of this agent's
    /// genome: step zero, both terminal flags cleared, velocity zero.
    pub fn make_new(&self, pos: Vec2) -> (r: Dot)
        requires
            self.genome.wf(),
            in_arena(pos),
        ensures
            r.wf(),
            r.step == 0,
            !r.dead,
            !r.reached_goal,
            r.pos == pos,
            r.vel == (Vec2 { x: 0, y: 0 }),
            r.genome@ == self.genome@,
    {
        Dot {
            step: 0,
            genome: self.genome.duplicate(),
            dead: false,
            reached_goal: false,
            pos,
            vel: Vec2 { x: 0, y: 0 },
        }
    }

    /// This agent with its genome replaced by a mutated copy; every other
    /// field is untouched.
    pub fn mutate(self, rng: &mut SimRng) -> (r: Dot)
        requires
            self.wf(),
        ensures
            r.wf(),
            r.step == self.step,
            r.dead == self.dead,
            r.reached_goal == self.reached_goal,
            r.pos == self.pos,
            r.vel == self.vel,
            r.genome@.len() == self.genome@.len(),
            r.genome@ == spec_mutate_dirs(self.genome@, old(rng).state).0,
            final(rng).state == spec_mutate_dirs(self.genome@, old(rng).state).1,
    {
        let genome = self.genome.mutate(rng);
        Dot {
            step: self.step,
            genome,
            dead: self.dead,
            reached_goal: self.reached_goal,
            pos: self.pos,
            vel: self.vel,
        }
    }
}

/// Fitness of an agent, as an exact integer: `FITNESS_ONE` stands for 1.0.
pub open spec fn spec_fitness(d: Dot, goal: Vec2) -> int {
    if d.reached_goal {
        FITNESS_BASE as int + FITNESS_ONE as int / ((d.step as int) * (d.step as int))
    } else {
        FITNESS_DIST_NUM as int / dist_sq(d.pos, goal)
    }
}

/// Two agents in the same observable state: every field agrees, the genome
/// by contents.
pub open spec fn same_state(a: Dot, b: Dot) -> bool {
    a.step == b.step && a.dead == b.dead && a.reached_goal == b.reached_goal && a.pos == b.pos
        && a.vel == b.vel && a.genome@ == b.genome@
}

/// An agent never holds both terminal flags: dead and reached-goal exclude
/// each other in every well-formed state.
pub proof fn lemma_flags_exclusive(d: Dot)
    requires
        d.wf(),
    ensures
        !(d.dead && d.reached_goal),
{
}

/// The step counter never passes the genome length, whatever state the
/// agent is in.
pub proof fn lemma_step_within_genome(d: Dot)
    requires
        d.wf(),
    ensures
        d.step <= d.genome@.len(),
{
}

/// Once an agent is terminal, a step changes nothing: position, velocity,
/// counter and flags all stay as they are.
pub proof fn lemma_terminal_step_noop(d: Dot, goal: Vec2, obs: Seq<Segment>)
    requires
        d.dead || d.reached_goal,
    ensures
        spec_step(d, goal, obs) == d,
{
}

/// Stepping is a function of the observable state alone: two agents in the
/// same state move to the same state under the same goal and obstacles.
pub proof fn lemma_step_deterministic(a: Dot, b: Dot, goal: Vec2, obs: Seq<Segment>)
    requires
        same_state(a, b),
    ensures
        same_state(spec_step(a, goal, obs), spec_step(b, goal, obs)),
{
}

/// A respawned agent is indistinguishable from a fresh agent built at the
/// same position with the same genome, so the two trace identical
/// trajectories step by step.
pub proof fn lemma_respawn_like_fresh(respawned: Dot, fresh: Dot, parent: Dot, pos: Vec2)
    requires
        respawned.step == 0,
        !respawned.dead,
        !respawned.reached_goal,
        respawned.pos == pos,
        respawned.vel == (Vec2 { x: 0, y: 0 }),
        respawned.genome@ == parent.genome@,
        fresh.step == 0,
        !fresh.dead,
        !fresh.reached_goal,
        fresh.pos == pos,
        fresh.vel == (Vec2 { x: 0, y: 0 }),
        fresh.genome@ == parent.genome@,
    ensures
        same_state(respawned, fresh),
{
}

/// Fitness is strictly positive in every reachable state: any well-formed
/// agent whose distance to the goal is non-zero (or who has finished)
/// scores at least one fitness unit.
pub proof fn lemma_fitness_positive(d: Dot, goal: Vec2)
    requires
        d.wf(),
        -ARENA_LIMIT <= goal.x <= ARENA_LIMIT,
        -ARENA_LIMIT <= goal.y <= ARENA_LIMIT,
        d.reached_goal || dist_sq(d.pos, goal) > 0,
    ensures
        spec_fitness(d, goal) >= 1,
{
    if d.reached_goal {
        let s = d.step as int;
        assert(1 <= 1_000_000_000_000int / (s * s)) by (nonlinear_arith)
            requires 1 <= s <= 1_000_000;
    } else {
        let ds = dist_sq(d.pos, goal);
        assert(ds <= 1_296_050_000_000) by (nonlinear_arith)
            requires
                ds == (d.pos.x - goal.x) * (d.pos.x - goal.x) + (d.pos.y - goal.y) * (d.pos.y
                    - goal.y),
                -805_000 <= d.pos.x - goal.x <= 805_000,
                -805_000 <= d.pos.y - goal.y <= 805_000;
        assert(1 <= 1_000_000_000_000_000_000int / ds) by (nonlinear_arith)
            requires 1 <= ds <= 1_296_050_000_000;
    }
}

/// A finisher outranks every non-finisher still at least the goal radius
/// away: the `1/25` floor of a finisher exceeds `1/dist^2` whenever
/// `dist^2` is at least the squared goal radius.
pub proof fn lemma_finisher_outranks(f: Dot, n: Dot, goal: Vec2)
    requires
        f.wf(),
        f.reached_goal,
        n.wf(),
        !n.reached_goal,
        dist_sq(n.pos, goal) >= GOAL_RADIUS_SQ,
    ensures
        spec_fitness(f, goal) > spec_fitness(n, goal),
{
    let s = f.step as int;
    assert(1 <= 1_000_000_000_000int / (s * s)) by (nonlinear_arith)
        requires 1 <= s <= 1_000_000;
    let ds = dist_sq(n.pos, goal);
    assert(1_000_000_000_000_000_000int / ds <= 40_000_000_000int) by (nonlinear_arith)
        requires ds >= 25_000_000;
}

/// A well-formed agent's speed obeys the Euclidean cap: the squared
/// velocity never exceeds `MAX_SPEED_SQ`, so one tick moves the agent at
/// most `MAX_SPEED` scaled units.
pub proof fn lemma_speed_capped(d: Dot)
    requires
        d.wf(),
    ensures
        d.vel.x * d.vel.x + d.vel.y * d.vel.y <= MAX_SPEED_SQ,
{
}

/// Among non-finishers, moving closer to the goal never lowers fitness.
/// The strict form fails under integer truncation: two nearby large
/// squared distances can share a quotient of the fitness scale.
pub proof fn lemma_fitness_monotone_in_distance(a: Dot, b: Dot, goal: Vec2)
    requires
        !a.reached_goal,
        !b.reached_goal,
        0 < dist_sq(a.pos, goal) <= dist_sq(b.pos, goal),
    ensures
        spec_fitness(a, goal) >= spec_fitness(b, goal),
{
    let da = dist_sq(a.pos, goal);
    let db = dist_sq(b.pos, goal);
    assert(1_000_000_000_000_000_000int / da >= 1_000_000_000_000_000_000int / db)
        by (nonlinear_arith)
        requires 1 <= da <= db;
}

/// Among finishers, fewer steps never lower fitness. The strict form
/// fails under integer truncation: two large step counts can share a
/// quotient of the fitness scale.
pub proof fn lemma_fitness_monotone_in_steps(a: Dot, b: Dot, goal: Vec2)
    requires
        a.wf(),
        b.wf(),
        a.reached_goal,
        b.reached_goal,
        a.step <= b.step,
    ensures
        spec_fitness(a, goal) >= spec_fitness(b, goal),
{
    let sa = a.step as int;
    let sb = b.step as int;
    assert(1 <= sa * sa <= sb * sb) by (nonlinear_arith)
        requires 1 <= sa <= sb;
    assert(1_000_000_000_000int / (sa * sa) >= 1_000_000_000_000int / (sb * sb))
        by (nonlinear_arith)
        requires 1 <= sa * sa <= sb * sb;
}

} // verus!
