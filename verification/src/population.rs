use vstd::prelude::*;

use crate::dot::{
    in_arena, same_state, spec_fitness, spec_genome_dirs, spec_mutate_dirs, spec_step, Dot,
    MAX_GENOME_LEN,
};
use crate::geom::{dist_sq, seg_ok, Segment, Vec2, ARENA_LIMIT};
use crate::rng::{lcg_next, spec_next_below_u128, SimRng};

verus! {

/// Is every agent of the sequence terminal (dead or arrived)?
pub open spec fn spec_all_done(dots: Seq<Dot>) -> bool {
    forall|i: int| 0 <= i < dots.len() ==> ((#[trigger] dots[i]).dead || dots[i].reached_goal)
}

/// Sum of the first `n` fitness values.
pub open spec fn sum_prefix(s: Seq<u64>, n: int) -> int
    decreases n,
{
    if n <= 0 {
        0
    } else {
        sum_prefix(s, n - 1) + s[n - 1]
    }
}

/// Sum of all fitness values.
pub open spec fn spec_sum(s: Seq<u64>) -> int {
    sum_prefix(s, s.len() as int)
}

pub proof fn lemma_sum_prefix_mono(s: Seq<u64>, m: int, n: int)
    requires
        0 <= m <= n <= s.len(),
    ensures
        sum_prefix(s, m) <= sum_prefix(s, n),
    decreases n,
{
    if n > m {
        lemma_sum_prefix_mono(s, m, n - 1);
    }
}

pub proof fn lemma_sum_prefix_bounds(s: Seq<u64>, n: int, lo: int, hi: int)
    requires
        0 <= n <= s.len(),
        0 <= lo,
        forall|i: int| 0 <= i < s.len() ==> lo <= #[trigger] s[i] <= hi,
    ensures
        n * lo <= sum_prefix(s, n) <= n * hi,
    decreases n,
{
    if n > 0 {
        lemma_sum_prefix_bounds(s, n - 1, lo, hi);
        assert(lo <= s[n - 1] <= hi);
        assert((n - 1) * lo + lo == n * lo) by (nonlinear_arith);
        assert((n - 1) * hi + hi == n * hi) by (nonlinear_arith);
    } else {
        assert(n * lo == 0) by (nonlinear_arith)
            requires n == 0;
        assert(n * hi == 0) by (nonlinear_arith)
            requires n == 0;
    }
}

/// The index of the first agent of maximal fitness among the first `n`:
/// a later agent displaces the running best only with strictly greater
/// fitness.
pub open spec fn spec_best_upto(dots: Seq<Dot>, goal: Vec2, n: int) -> int
    decreases n,
{
    if n <= 1 {
        0
    } else {
        let b = spec_best_upto(dots, goal, n - 1);
        if spec_fitness(dots[n - 1], goal) > spec_fitness(dots[b], goal) {
            n - 1
        } else {
            b
        }
    }
}

/// The running best stays in range, carries the maximal fitness seen, and
/// is the first index to reach it: every earlier agent scores strictly
/// less.
pub proof fn lemma_best_upto_props(dots: Seq<Dot>, goal: Vec2, n: int)
    requires
        1 <= n <= dots.len(),
    ensures
        0 <= spec_best_upto(dots, goal, n) < n,
        forall|i: int|
            0 <= i < n ==> spec_fitness(#[trigger] dots[i], goal) <= spec_fitness(
                dots[spec_best_upto(dots, goal, n)],
                goal,
            ),
        forall|i: int|
            0 <= i < spec_best_upto(dots, goal, n) ==> spec_fitness(#[trigger] dots[i], goal)
                < spec_fitness(dots[spec_best_upto(dots, goal, n)], goal),
    decreases n,
{
    if n > 1 {
        lemma_best_upto_props(dots, goal, n - 1);
    }
}

/// What one population tick does to one agent: terminal agents rest, an
/// agent past the step budget is cut off, everyone else takes a step.
pub open spec fn spec_budget_step(d: Dot, goal: Vec2, budget: int, obs: Seq<Segment>) -> Dot {
    if d.dead || d.reached_goal {
        d
    } else if d.step > budget {
        Dot {
            step: d.step,
            genome: d.genome,
            dead: true,
            reached_goal: false,
            pos: d.pos,
            vel: d.vel,
        }
    } else {
        spec_step(d, goal, obs)
    }
}

/// A child agent freshly respawned at `pos` from the given parent:
/// counter and flags cleared, velocity zero, and a genome that is exactly
/// a mutation of the parent's under some generator state.
pub open spec fn child_of(parent: Dot, child: Dot, pos: Vec2) -> bool {
    &&& child.step == 0
    &&& !child.dead
    &&& !child.reached_goal
    &&& child.pos == pos
    &&& child.vel == (Vec2 { x: 0, y: 0 })
    &&& child.genome@.len() == parent.genome@.len()
    &&& exists|ms: u64| child.genome@ == spec_mutate_dirs(parent.genome@, ms).0
}

/// The fitness of each agent of a generation, in selection order.
pub open spec fn spec_fitness_seq(dots: Seq<Dot>, goal: Vec2) -> Seq<int> {
    Seq::new(dots.len(), |i: int| spec_fitness(dots[i], goal))
}

/// Sum of the first `n` values of a fitness sequence.
pub open spec fn sum_prefix_int(s: Seq<int>, n: int) -> int
    decreases n,
{
    if n <= 0 {
        0
    } else {
        sum_prefix_int(s, n - 1) + s[n - 1]
    }
}

/// Index `j` is the roulette crossing of `draw`: the first agent whose
/// cumulative fitness exceeds the draw.
pub open spec fn is_crossing(fs: Seq<int>, draw: int, j: int) -> bool {
    0 <= j < fs.len() && sum_prefix_int(fs, j) <= draw < sum_prefix_int(fs, j + 1)
}

/// The child was selected fitness-proportionately: some draw below the
/// total fitness crossed at index `j`, and the child is a respawned and
/// mutated copy of the agent at `j`.
pub open spec fn selected_child(parents: Seq<Dot>, goal: Vec2, child: Dot, pos: Vec2) -> bool {
    exists|draw: int, j: int|
        0 <= draw < sum_prefix_int(spec_fitness_seq(parents, goal), parents.len() as int)
            && #[trigger] is_crossing(spec_fitness_seq(parents, goal), draw, j) && child_of(
            parents[j],
            child,
            pos,
        )
}

proof fn lemma_prefix_sums_match(fits: Seq<u64>, dots: Seq<Dot>, goal: Vec2, n: int)
    requires
        fits.len() == dots.len(),
        forall|k: int|
            0 <= k < fits.len() ==> (#[trigger] fits[k]) as int == spec_fitness(dots[k], goal),
        0 <= n <= fits.len(),
    ensures
        sum_prefix(fits, n) == sum_prefix_int(spec_fitness_seq(dots, goal), n),
    decreases n,
{
    if n > 0 {
        lemma_prefix_sums_match(fits, dots, goal, n - 1);
    }
}

/// The crossing index of a draw: how many whole fitness values fit below
/// it, walking the sequence front to back.
pub open spec fn spec_crossing(fs: Seq<int>, draw: int) -> int
    decreases fs.len(),
{
    if fs.len() == 0 {
        0
    } else if draw < fs[0] {
        0
    } else {
        1 + spec_crossing(fs.drop_first(), draw - fs[0])
    }
}

proof fn lemma_sum_prefix_int_drop(fs: Seq<int>, m: int)
    requires
        fs.len() >= 1,
        1 <= m <= fs.len(),
    ensures
        sum_prefix_int(fs, m) == fs[0] + sum_prefix_int(fs.drop_first(), m - 1),
    decreases m,
{
    if m > 1 {
        lemma_sum_prefix_int_drop(fs, m - 1);
        assert(fs.drop_first()[m - 2] == fs[m - 1]);
    } else {
        assert(sum_prefix_int(fs, 0) == 0);
        assert(sum_prefix_int(fs.drop_first(), 0) == 0);
    }
}

/// The crossing window determines the crossing index: an index whose
/// cumulative fitness brackets the draw is the one `spec_crossing` names.
proof fn lemma_crossing_unique(fs: Seq<int>, draw: int, j: int)
    requires
        forall|i: int| 0 <= i < fs.len() ==> #[trigger] fs[i] >= 0,
        0 <= j < fs.len(),
        sum_prefix_int(fs, j) <= draw < sum_prefix_int(fs, j + 1),
    ensures
        j == spec_crossing(fs, draw),
    decreases j,
{
    if j == 0 {
        assert(sum_prefix_int(fs, 0) == 0);
        assert(sum_prefix_int(fs, 1) == fs[0]);
    } else {
        let tail = fs.drop_first();
        lemma_sum_prefix_int_drop(fs, j);
        lemma_sum_prefix_int_drop(fs, j + 1);
        assert(forall|i: int| 0 <= i < tail.len() ==> #[trigger] tail[i] >= 0) by {
            assert(forall|i: int|
                0 <= i < tail.len() ==> tail[i] == #[trigger] fs[i + 1] && fs[i + 1] >= 0);
        }
        assert(sum_prefix_int(fs, 0) == 0);
        assert(sum_prefix_int(fs, 1) == fs[0]);
        lemma_sum_prefix_int_mono_nonneg(fs, 1, j);
        lemma_crossing_unique(tail, draw - fs[0], j - 1);
    }
}

proof fn lemma_sum_prefix_int_mono_nonneg(fs: Seq<int>, m: int, n: int)
    requires
        forall|i: int| 0 <= i < fs.len() ==> #[trigger] fs[i] >= 0,
        0 <= m <= n <= fs.len(),
    ensures
        sum_prefix_int(fs, m) <= sum_prefix_int(fs, n),
    decreases n,
{
    if n > m {
        lemma_sum_prefix_int_mono_nonneg(fs, m, n - 1);
    }
}

/// The genome sequences `count` fresh agents draw in order when drawing
/// starts from state `s`, with the state left behind.
pub open spec fn spec_population_genomes(count: nat, num_steps: nat, s: u64) -> (
    Seq<Seq<Vec2>>,
    u64,
)
    decreases count,
{
    if count == 0 {
        (Seq::empty(), s)
    } else {
        let first = spec_genome_dirs(num_steps, s);
        let rest = spec_population_genomes((count - 1) as nat, num_steps, first.1);
        (seq![first.0] + rest.0, rest.1)
    }
}

/// The genome sequences the `slots` sampled children carry, in slot
/// order, when sampling starts from state `s`: each slot draws below the
/// total fitness, crosses the roulette wheel, and mutates the chosen
/// parent's genome; the state left behind comes second.
pub open spec fn spec_offspring(parents: Seq<Dot>, goal: Vec2, slots: nat, s: u64) -> (
    Seq<Seq<Vec2>>,
    u64,
)
    decreases slots,
{
    if slots == 0 {
        (Seq::empty(), s)
    } else {
        let fs = spec_fitness_seq(parents, goal);
        let total = sum_prefix_int(fs, parents.len() as int);
        let draw = spec_next_below_u128(s, total as u128);
        let j = spec_crossing(fs, draw as int);
        let m = spec_mutate_dirs(parents[j].genome@, lcg_next(lcg_next(s)));
        let rest = spec_offspring(parents, goal, (slots - 1) as nat, m.1);
        (seq![m.0] + rest.0, rest.1)
    }
}

/// Roulette-wheel selection: the first index whose cumulative fitness
/// exceeds the draw. Selection probability of index `i` under a uniform
/// draw is exactly `fits[i] / sum`.
pub fn select_index(fits: &Vec<u64>, draw: u128) -> (idx: usize)
    requires
        fits@.len() >= 1,
        forall|i: int| 0 <= i < fits@.len() ==> 1 <= #[trigger] fits@[i] <= 1_000_000_000_000_000_000,
        (draw as int) < spec_sum(fits@),
    ensures
        idx < fits@.len(),
        sum_prefix(fits@, idx as int) <= draw as int,
        (draw as int) < sum_prefix(fits@, idx as int + 1),
{
    let n: usize = fits.len();
    let mut running: u128 = 0;
    let mut i: usize = 0;
    while i < n
        invariant
            i <= n,
            n == fits@.len(),
            n >= 1,
            forall|k: int| 0 <= k < fits@.len() ==> 1 <= #[trigger] fits@[k] <= 1_000_000_000_000_000_000,
            (draw as int) < spec_sum(fits@),
            running as int == sum_prefix(fits@, i as int),
            running as int <= draw as int,
        decreases n - i,
    {
        let f: u64 = fits[i];
        proof {
            lemma_sum_prefix_mono(fits@, i as int + 1, n as int);
            lemma_sum_prefix_bounds(fits@, n as int, 1, 1_000_000_000_000_000_000);
        }
        let next: u128 = running + f as u128;
        if draw < next {
            return i;
        }
        running = next;
        i = i + 1;
    }
    // unreachable: the draw lies below the total, so some prefix crossed it
    proof {
        assert(false);
    }
    0
}

/// All agents of one generation, with the shared goal, start position,
/// step budget and generation counter.
pub struct Population {
    pub dots: Vec<Dot>,
    pub gen: usize,
    pub goal: Vec2,
    pub initial_pos: Vec2,
    pub max_steps: usize,
}

impl Population {
    /// The population invariant: at least one agent, goal within the
    /// arena, start strictly inside it and apart from the goal, every
    /// agent well-formed, and no unfinished agent sitting exactly on the
    /// goal (so fitness is always defined).
    pub open spec fn wf(&self) -> bool {
        &&& self.dots@.len() >= 1
        &&& -ARENA_LIMIT <= self.goal.x <= ARENA_LIMIT
        &&& -ARENA_LIMIT <= self.goal.y <= ARENA_LIMIT
        &&& in_arena(self.initial_pos)
        &&& dist_sq(self.initial_pos, self.goal) > 0
        &&& forall|i: int| 0 <= i < self.dots@.len() ==> (#[trigger] self.dots@[i]).wf()
        &&& forall|i: int|
            0 <= i < self.dots@.len() ==> ((#[trigger] self.dots@[i]).reached_goal || dist_sq(
                self.dots@[i].pos,
                self.goal,
            ) > 0)
    }

    /// A population of `num_dots` fresh agents at `initial_pos`, each with
    /// a random genome of `num_steps` impulses, generation zero and the
    /// given step budget. The genomes are exactly the sequences the
    /// injected generator state determines, in agent order.
    pub fn new(
        num_dots: usize,
        initial_pos: Vec2,
        num_steps: usize,
        goal: Vec2,
        rng: &mut SimRng,
    ) -> (p: Population)
        requires
            num_dots >= 1,
            num_steps <= MAX_GENOME_LEN,
            in_arena(initial_pos),
            -ARENA_LIMIT <= goal.x <= ARENA_LIMIT,
            -ARENA_LIMIT <= goal.y <= ARENA_LIMIT,
            dist_sq(initial_pos, goal) > 0,
        ensures
            p.wf(),
            p.gen == 0,
            p.max_steps == num_steps,
            p.goal == goal,
            p.initial_pos == initial_pos,
            p.dots@.len() == num_dots,
            forall|i: int|
                0 <= i < p.dots@.len() ==> !(#[trigger] p.dots@[i]).dead
                    && !p.dots@[i].reached_goal && p.dots@[i].step == 0 && p.dots@[i].pos
                    == initial_pos && p.dots@[i].vel == (Vec2 { x: 0, y: 0 })
                    && p.dots@[i].genome@.len() == num_steps,
            forall|i: int|
                0 <= i < p.dots@.len() ==> (#[trigger] p.dots@[i]).genome@
                    == spec_population_genomes(
                    num_dots as nat,
                    num_steps as nat,
                    old(rng).state,
                ).0[i],
            final(rng).state == spec_population_genomes(
                num_dots as nat,
                num_steps as nat,
                old(rng).state,
            ).1,
    {
        let ghost s0: u64 = rng.state;
        let ghost mut gs: Seq<Seq<Vec2>> = Seq::empty();
        let mut dots: Vec<Dot> = Vec::new();
        proof {
            assert(gs + spec_population_genomes(num_dots as nat, num_steps as nat, s0).0
                =~= spec_population_genomes(num_dots as nat, num_steps as nat, s0).0);
        }
        let mut i: usize = 0;
        while i < num_dots
            invariant
                i <= num_dots,
                num_steps <= MAX_GENOME_LEN,
                in_arena(initial_pos),
                dots@.len() == i,
                forall|k: int|
                    0 <= k < i ==> (#[trigger] dots@[k]).wf() && !dots@[k].dead
                        && !dots@[k].reached_goal && dots@[k].step == 0 && dots@[k].pos
                        == initial_pos && dots@[k].vel == (Vec2 { x: 0, y: 0 })
                        && dots@[k].genome@.len() == num_steps,
                gs.len() == i,
                forall|k: int| 0 <= k < i ==> #[trigger] gs[k] == dots@[k].genome@,
                gs + spec_population_genomes(
                    (num_dots - i) as nat,
                    num_steps as nat,
                    rng.state,
                ).0 == spec_population_genomes(num_dots as nat, num_steps as nat, s0).0,
                spec_population_genomes((num_dots - i) as nat, num_steps as nat, rng.state).1
                    == spec_population_genomes(num_dots as nat, num_steps as nat, s0).1,
            decreases num_dots - i,
        {
            let ghost pre = gs;
            let ghost s_i: u64 = rng.state;
            let d = Dot::new(initial_pos, num_steps, rng);
            dots.push(d);
            proof {
                gs = gs.push(d.genome@);
                let rem = (num_dots - i) as nat;
                assert(spec_population_genomes(rem, num_steps as nat, s_i).0 == seq![
                    spec_genome_dirs(num_steps as nat, s_i).0,
                ] + spec_population_genomes((rem - 1) as nat, num_steps as nat, rng.state).0);
                assert(pre + spec_population_genomes(rem, num_steps as nat, s_i).0 =~= gs
                    + spec_population_genomes((rem - 1) as nat, num_steps as nat, rng.state).0);
            }
            i = i + 1;
        }
        proof {
            assert(gs + spec_population_genomes(0, num_steps as nat, rng.state).0 =~= gs);
        }
        Population { dots, gen: 0, goal, initial_pos, max_steps: num_steps }
    }

    /// One simulation tick: every agent past the step budget is cut off,
    /// every other live agent takes one step against the goal and the
    /// obstacle set; terminal agents are untouched.
    pub fn update(&mut self, obstacles: &Vec<Segment>)
        requires
            old(self).wf(),
            forall|i: int| 0 <= i < obstacles@.len() ==> seg_ok(#[trigger] obstacles@[i]),
        ensures
            final(self).wf(),
            final(self).gen == old(self).gen,
            final(self).goal == old(self).goal,
            final(self).initial_pos == old(self).initial_pos,
            final(self).max_steps == old(self).max_steps,
            final(self).dots@.len() == old(self).dots@.len(),
            forall|i: int|
                0 <= i < old(self).dots@.len() ==> same_state(
                    #[trigger] final(self).dots@[i],
                    spec_budget_step(
                        old(self).dots@[i],
                        old(self).goal,
                        old(self).max_steps as int,
                        obstacles@,
                    ),
                ),
    {
        let n: usize = self.dots.len();
        let mut new_dots: Vec<Dot> = Vec::new();
        let mut i: usize = 0;
        while i < n
            invariant
                *self == *old(self),
                old(self).wf(),
                n == self.dots@.len(),
                i <= n,
                new_dots@.len() == i,
                forall|k: int| 0 <= k < obstacles@.len() ==> seg_ok(#[trigger] obstacles@[k]),
                forall|k: int|
                    0 <= k < i ==> same_state(
                        #[trigger] new_dots@[k],
                        spec_budget_step(
                            old(self).dots@[k],
                            old(self).goal,
                            old(self).max_steps as int,
                            obstacles@,
                        ),
                    ),
                forall|k: int|
                    0 <= k < i ==> (#[trigger] new_dots@[k]).wf() && (new_dots@[k].reached_goal
                        || dist_sq(new_dots@[k].pos, old(self).goal) > 0),
            decreases n - i,
        {
            let cur: &Dot = &self.dots[i];
            let mut nd: Dot = Dot {
                step: cur.step,
                genome: cur.genome.duplicate(),
                dead: cur.dead,
                reached_goal: cur.reached_goal,
                pos: cur.pos,
                vel: cur.vel,
            };
            let ghost pre: Dot = self.dots@[i as int];
            let ghost copied: Dot = nd;
            if nd.dead || nd.reached_goal {
                // terminal: rests as it is
            } else if nd.step > self.max_steps {
                nd.dead = true;
            } else {
                nd.update(self.goal, obstacles);
                proof {
                    crate::dot::lemma_step_deterministic(copied, pre, self.goal, obstacles@);
                }
            }
            new_dots.push(nd);
            i = i + 1;
        }
        self.dots = new_dots;
    }

    /// Is every agent dead or arrived? Pure query, no mutation.
    pub fn all_done(&self) -> (r: bool)
        ensures
            r == spec_all_done(self.dots@),
    {
        let n: usize = self.dots.len();
        let mut i: usize = 0;
        while i < n
            invariant
                i <= n,
                n == self.dots@.len(),
                forall|k: int|
                    0 <= k < i ==> ((#[trigger] self.dots@[k]).dead || self.dots@[k].reached_goal),
            decreases n - i,
        {
            let cur: &Dot = &self.dots[i];
            if !cur.dead && !cur.reached_goal {
                return false;
            }
            i = i + 1;
        }
        true
    }

    /// Advance one generation. The first maximal-fitness agent is found;
    /// if it reached the goal the step budget becomes its step count. The
    /// new generation holds a verbatim respawn of that elite in slot zero
    /// and, in every other slot, a fitness-proportionately drawn parent's
    /// respawned and mutated child — exactly the children the injected
    /// generator state determines, draw by draw. The generation counter
    /// grows by one and the population size is kept exactly.
    pub fn next_generation(&mut self, rng: &mut SimRng)
        requires
            old(self).wf(),
            old(self).gen < usize::MAX,
        ensures
            final(self).wf(),
            final(self).gen == old(self).gen + 1,
            final(self).goal == old(self).goal,
            final(self).initial_pos == old(self).initial_pos,
            final(self).dots@.len() == old(self).dots@.len(),
            final(self).max_steps <= old(self).max_steps,
            ({
                let b = spec_best_upto(old(self).dots@, old(self).goal, old(self).dots@.len() as int);
                &&& (old(self).dots@[b].reached_goal && old(self).dots@[b].step <= old(
                    self,
                ).max_steps ==> final(self).max_steps == old(self).dots@[b].step)
                &&& (old(self).dots@[b].reached_goal && old(self).dots@[b].step > old(
                    self,
                ).max_steps ==> final(self).max_steps == old(self).max_steps)
                &&& (!old(self).dots@[b].reached_goal ==> final(self).max_steps == old(
                    self,
                ).max_steps)
                &&& final(self).dots@[0].step == 0
                &&& !final(self).dots@[0].dead
                &&& !final(self).dots@[0].reached_goal
                &&& final(self).dots@[0].pos == old(self).initial_pos
                &&& final(self).dots@[0].vel == (Vec2 { x: 0, y: 0 })
                &&& final(self).dots@[0].genome@ == old(self).dots@[b].genome@
            }),
            forall|k: int|
                1 <= k < final(self).dots@.len() ==> selected_child(
                    old(self).dots@,
                    old(self).goal,
                    #[trigger] final(self).dots@[k],
                    old(self).initial_pos,
                ),
            forall|k: int|
                1 <= k < final(self).dots@.len() ==> (#[trigger] final(self).dots@[k]).genome@
                    == spec_offspring(
                    old(self).dots@,
                    old(self).goal,
                    (old(self).dots@.len() - 1) as nat,
                    old(rng).state,
                ).0[k - 1],
            final(rng).state == spec_offspring(
                old(self).dots@,
                old(self).goal,
                (old(self).dots@.len() - 1) as nat,
                old(rng).state,
            ).1,
    {
        let n: usize = self.dots.len();
        let goal: Vec2 = self.goal;

        // fitness of every current agent
        let mut fits: Vec<u64> = Vec::new();
        let mut i: usize = 0;
        while i < n
            invariant
                *self == *old(self),
                old(self).wf(),
                n == self.dots@.len(),
                goal == self.goal,
                i <= n,
                fits@.len() == i,
                forall|k: int|
                    0 <= k < i ==> (#[trigger] fits@[k]) as int == spec_fitness(
                        self.dots@[k],
                        self.goal,
                    ) && 1 <= fits@[k] <= 1_000_000_000_000_000_000,
            decreases n - i,
        {
            let cur: &Dot = &self.dots[i];
            let f: u64 = cur.calculate_fitness(goal);
            fits.push(f);
            i = i + 1;
        }

        // first maximal-fitness agent
        let mut best: usize = 0;
        let mut i: usize = 1;
        while i < n
            invariant
                *self == *old(self),
                old(self).wf(),
                n == self.dots@.len(),
                goal == self.goal,
                fits@.len() == n,
                forall|k: int|
                    0 <= k < n ==> (#[trigger] fits@[k]) as int == spec_fitness(
                        self.dots@[k],
                        self.goal,
                    ) && 1 <= fits@[k] <= 1_000_000_000_000_000_000,
                1 <= i <= n,
                best < i,
                best as int == spec_best_upto(self.dots@, self.goal, i as int),
            decreases n - i,
        {
            if fits[i] > fits[best] {
                best = i;
            }
            i = i + 1;
        }
        proof {
            lemma_best_upto_props(self.dots@, self.goal, n as int);
        }

        // budget tightening by the best finisher
        let best_ref: &Dot = &self.dots[best];
        let b_reached: bool = best_ref.reached_goal;
        let b_step: usize = best_ref.step;
        if b_reached && b_step < self.max_steps {
            self.max_steps = b_step;
        }

        // elite carried over verbatim
        let elite: Dot = {
            let best_ref2: &Dot = &self.dots[best];
            best_ref2.make_new(self.initial_pos)
        };
        let mut new_dots: Vec<Dot> = Vec::new();
        new_dots.push(elite);

        // total fitness
        let mut total: u128 = 0;
        let mut i: usize = 0;
        while i < n
            invariant
                i <= n,
                fits@.len() == n,
                forall|k: int|
                    0 <= k < n ==> 1 <= (#[trigger] fits@[k]) <= 1_000_000_000_000_000_000,
                total as int == sum_prefix(fits@, i as int),
                total as int <= (i as int) * 1_000_000_000_000_000_000,
            decreases n - i,
        {
            let f: u64 = fits[i];
            total = total + f as u128;
            i = i + 1;
        }
        proof {
            lemma_sum_prefix_bounds(fits@, n as int, 1, 1_000_000_000_000_000_000);
        }

        // fitness-proportionate sampling for the remaining slots
        let ghost s_sel: u64 = rng.state;
        let ghost mut gs: Seq<Seq<Vec2>> = Seq::empty();
        proof {
            assert(gs + spec_offspring(self.dots@, self.goal, (n - 1) as nat, s_sel).0
                =~= spec_offspring(self.dots@, self.goal, (n - 1) as nat, s_sel).0);
        }
        let mut k: usize = 1;
        while k < n
            invariant
                best < n,
                s_sel == old(rng).state,
                gs.len() == k - 1,
                forall|t: int| 1 <= t < k ==> (#[trigger] new_dots@[t]).genome@ == gs[t - 1],
                gs + spec_offspring(self.dots@, self.goal, (n - k) as nat, rng.state).0
                    == spec_offspring(self.dots@, self.goal, (n - 1) as nat, s_sel).0,
                spec_offspring(self.dots@, self.goal, (n - k) as nat, rng.state).1
                    == spec_offspring(self.dots@, self.goal, (n - 1) as nat, s_sel).1,
                self.dots@ == old(self).dots@,
                self.goal == old(self).goal,
                self.initial_pos == old(self).initial_pos,
                old(self).wf(),
                n == self.dots@.len(),
                goal == self.goal,
                fits@.len() == n,
                forall|t: int|
                    0 <= t < n ==> (#[trigger] fits@[t]) as int == spec_fitness(
                        self.dots@[t],
                        self.goal,
                    ) && 1 <= fits@[t] <= 1_000_000_000_000_000_000,
                total as int == spec_sum(fits@),
                total >= 1,
                1 <= k <= n,
                new_dots@.len() == k,
                new_dots@[0].step == 0,
                !new_dots@[0].dead,
                !new_dots@[0].reached_goal,
                new_dots@[0].pos == self.initial_pos,
                new_dots@[0].vel == (Vec2 { x: 0, y: 0 }),
                new_dots@[0].genome@ == self.dots@[best as int].genome@,
                new_dots@[0].wf(),
                forall|t: int|
                    1 <= t < k ==> selected_child(
                        self.dots@,
                        self.goal,
                        #[trigger] new_dots@[t],
                        self.initial_pos,
                    ) && new_dots@[t].wf() && new_dots@[t].pos == self.initial_pos
                        && !new_dots@[t].reached_goal,
            decreases n - k,
        {
            let ghost pre = gs;
            let ghost s_k: u64 = rng.state;
            let draw: u128 = rng.next_below_u128(total);
            let j: usize = select_index(&fits, draw);
            let fresh: Dot = {
                let pref: &Dot = &self.dots[j];
                pref.make_new(self.initial_pos)
            };
            let ghost ms: u64 = rng.state;
            let child: Dot = fresh.mutate(rng);
            proof {
                gs = gs.push(child.genome@);
                let fs = spec_fitness_seq(self.dots@, self.goal);
                lemma_prefix_sums_match(fits@, self.dots@, self.goal, j as int);
                lemma_prefix_sums_match(fits@, self.dots@, self.goal, j as int + 1);
                lemma_prefix_sums_match(fits@, self.dots@, self.goal, n as int);
                assert(is_crossing(fs, draw as int, j as int));
                assert(child.genome@ == spec_mutate_dirs(self.dots@[j as int].genome@, ms).0);
                assert(child_of(self.dots@[j as int], child, self.initial_pos));
                assert(selected_child(self.dots@, self.goal, child, self.initial_pos));
                // the slot is exactly the one the generator state determines
                assert forall|t: int| 0 <= t < fs.len() implies #[trigger] fs[t] >= 0 by {
                    assert((fits@[t]) as int == spec_fitness(self.dots@[t], self.goal));
                    assert(fs[t] == spec_fitness(self.dots@[t], self.goal));
                }
                lemma_crossing_unique(fs, draw as int, j as int);
                assert(sum_prefix_int(fs, n as int) as u128 == total);
                assert(ms == lcg_next(lcg_next(s_k)));
                let rem = (n - k) as nat;
                assert(spec_offspring(self.dots@, self.goal, rem, s_k).0 == seq![child.genome@]
                    + spec_offspring(self.dots@, self.goal, (rem - 1) as nat, rng.state).0);
                assert(pre + spec_offspring(self.dots@, self.goal, rem, s_k).0 =~= gs
                    + spec_offspring(self.dots@, self.goal, (rem - 1) as nat, rng.state).0);
            }
            new_dots.push(child);
            k = k + 1;
        }
        proof {
            assert(gs + spec_offspring(self.dots@, self.goal, 0, rng.state).0 =~= gs);
        }
        self.dots = new_dots;
        self.gen = self.gen + 1;
    }

    /// The generation counter.
    pub fn generation(&self) -> (g: usize)
        ensures
            g == self.gen,
    {
        self.gen
    }

    /// The current per-generation step budget.
    pub fn step_budget(&self) -> (b: usize)
        ensures
            b == self.max_steps,
    {
        self.max_steps
    }

    /// How many agents the population holds.
    pub fn num_dots(&self) -> (n: usize)
        ensures
            n == self.dots@.len(),
    {
        self.dots.len()
    }

    /// Read-only access to one agent, for drawing and inspection.
    pub fn dot_at(&self, i: usize) -> (d: &Dot)
        requires
            i < self.dots@.len(),
        ensures
            *d == self.dots@[i as int],
    {
        &self.dots[i]
    }
}

/// A freshly constructed population is never done: with at least one agent
/// and every agent non-terminal, `all_done` is false.
pub proof fn lemma_fresh_population_active(p: Population)
    requires
        p.dots@.len() >= 1,
        forall|i: int|
            0 <= i < p.dots@.len() ==> !(#[trigger] p.dots@[i]).dead && !p.dots@[i].reached_goal,
    ensures
        !spec_all_done(p.dots@),
{
    assert(!(p.dots@[0].dead || p.dots@[0].reached_goal));
}


} // verus!
