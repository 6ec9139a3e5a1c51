use dot_evolution::dot::{Dot, Genome};
use dot_evolution::geom::{Segment, Vec2};
use dot_evolution::rng::SimRng;

fn unit_up() -> Vec2 {
    Vec2 { x: 0, y: 1000 }
}

fn genome_of(dirs: Vec<Vec2>) -> Genome {
    Genome::from_directions(dirs)
}

fn straight_up_genome(len: usize) -> Genome {
    let mut dirs: Vec<Vec2> = Vec::new();
    for _ in 0..len {
        dirs.push(unit_up());
    }
    genome_of(dirs)
}

#[test]
fn straight_run_reaches_goal() {
    // Start (0,-350), goal (0,350), 400 unit-up impulses, no obstacles:
    // speed ramps 1,2,3,4,5 then holds 5; the goal radius is entered on
    // step 142 exactly, where the position lands on the goal itself.
    let start = Vec2 { x: 0, y: -350_000 };
    let goal = Vec2 { x: 0, y: 350_000 };
    let obstacles: Vec<Segment> = Vec::new();
    let mut d = Dot::with_genome(start, straight_up_genome(400));
    for _ in 0..200 {
        d.update(goal, &obstacles);
        assert!(!(d.dead && d.reached_goal));
    }
    assert!(d.reached_goal);
    assert!(!d.dead);
    assert_eq!(d.step, 142);
    assert_eq!(d.pos.x, 0);
    assert_eq!(d.pos.y, 350_000);
}

#[test]
fn outward_at_boundary_dies_first_tick() {
    // Start on the arena edge at (399,0) moving outward: dead on the very
    // first tick, and never marked as having reached the goal.
    let start = Vec2 { x: 399_000, y: 0 };
    let goal = Vec2 { x: 0, y: 350_000 };
    let obstacles: Vec<Segment> = Vec::new();
    let mut dirs: Vec<Vec2> = Vec::new();
    for _ in 0..10 {
        dirs.push(Vec2 { x: 1000, y: 0 });
    }
    let mut d = Dot::with_genome(start, genome_of(dirs));
    d.update(goal, &obstacles);
    assert!(d.dead);
    assert!(!d.reached_goal);
    assert_eq!(d.step, 1);
}

#[test]
fn obstacle_across_path_kills() {
    // The same straight run, but a horizontal wall across y = 0: the agent
    // dies on the tick whose movement segment touches the wall, instead of
    // reaching the goal.
    let start = Vec2 { x: 0, y: -350_000 };
    let goal = Vec2 { x: 0, y: 350_000 };
    let wall = Segment { a: Vec2 { x: -100_000, y: 0 }, b: Vec2 { x: 100_000, y: 0 } };
    let obstacles: Vec<Segment> = vec![wall];
    let mut d = Dot::with_genome(start, straight_up_genome(400));
    for _ in 0..200 {
        d.update(goal, &obstacles);
    }
    assert!(d.dead);
    assert!(!d.reached_goal);
    assert_eq!(d.step, 72);
    assert_eq!(d.pos.y, 0);
}

#[test]
fn terminal_update_is_noop() {
    let start = Vec2 { x: 399_000, y: 0 };
    let goal = Vec2 { x: 0, y: 350_000 };
    let obstacles: Vec<Segment> = Vec::new();
    let mut dirs: Vec<Vec2> = Vec::new();
    dirs.push(Vec2 { x: 1000, y: 0 });
    let mut d = Dot::with_genome(start, genome_of(dirs));
    d.update(goal, &obstacles);
    assert!(d.dead);
    let (step, pos, vel) = (d.step, d.pos, d.vel);
    d.update(goal, &obstacles);
    d.update(goal, &obstacles);
    assert_eq!(d.step, step);
    assert_eq!(d.pos, pos);
    assert_eq!(d.vel, vel);
    assert!(d.dead && !d.reached_goal);
}

#[test]
fn out_of_genes_dies() {
    let start = Vec2 { x: 0, y: 0 };
    let goal = Vec2 { x: 0, y: 350_000 };
    let obstacles: Vec<Segment> = Vec::new();
    let mut dirs: Vec<Vec2> = Vec::new();
    dirs.push(unit_up());
    dirs.push(unit_up());
    let mut d = Dot::with_genome(start, genome_of(dirs));
    for _ in 0..3 {
        d.update(goal, &obstacles);
        assert!(d.step <= 2);
    }
    assert!(d.dead);
    assert!(!d.reached_goal);
    assert_eq!(d.step, 2);
}

#[test]
fn respawn_traces_fresh_trajectory() {
    // An agent respawned from a stepped parent moves exactly as a fresh
    // agent built at the same position with the same genome.
    let start = Vec2 { x: -50_000, y: -50_000 };
    let goal = Vec2 { x: 300_000, y: 300_000 };
    let obstacles: Vec<Segment> = Vec::new();
    let mut dirs: Vec<Vec2> = Vec::new();
    dirs.push(Vec2 { x: 1000, y: 0 });
    dirs.push(Vec2 { x: 0, y: 1000 });
    dirs.push(Vec2 { x: -1000, y: 0 });
    dirs.push(Vec2 { x: 707, y: 707 });
    let g = genome_of(dirs);
    let mut parent = Dot::with_genome(start, g.duplicate());
    parent.update(goal, &obstacles);
    parent.update(goal, &obstacles);

    let mut respawned = parent.make_new(start);
    assert_eq!(respawned.step, 0);
    assert!(!respawned.dead && !respawned.reached_goal);
    let mut fresh = Dot::with_genome(start, g.duplicate());
    for _ in 0..4 {
        respawned.update(goal, &obstacles);
        fresh.update(goal, &obstacles);
        assert_eq!(respawned.pos, fresh.pos);
        assert_eq!(respawned.vel, fresh.vel);
        assert_eq!(respawned.step, fresh.step);
        assert_eq!(respawned.dead, fresh.dead);
        assert_eq!(respawned.reached_goal, fresh.reached_goal);
    }
}

#[test]
fn finisher_fitness_exact() {
    // A finisher with step 5 scores 1/25 + 1/25 of the fitness scale.
    let g = straight_up_genome(50);
    let d = Dot {
        step: 5,
        genome: g,
        dead: false,
        reached_goal: true,
        pos: Vec2 { x: 0, y: 348_000 },
        vel: Vec2 { x: 0, y: 5000 },
    };
    let goal = Vec2 { x: 0, y: 350_000 };
    assert_eq!(d.calculate_fitness(goal), 80_000_000_000);
}

#[test]
fn distance_fitness_exact() {
    // A non-finisher 100 world units away scores 1/100^2 of the scale.
    let g = straight_up_genome(50);
    let d = Dot {
        step: 0,
        genome: g,
        dead: false,
        reached_goal: false,
        pos: Vec2 { x: 0, y: 0 },
        vel: Vec2 { x: 0, y: 0 },
    };
    let goal = Vec2 { x: 100_000, y: 0 };
    assert_eq!(d.calculate_fitness(goal), 100_000_000);
}

#[test]
fn finisher_outranks_boundary_non_finisher() {
    // Even the slowest finisher outranks a non-finisher sitting exactly at
    // the goal radius (5 world units, squared distance 25e6).
    let slow = Dot {
        step: 1_000_000,
        genome: straight_up_genome(1_000_000),
        dead: false,
        reached_goal: true,
        pos: Vec2 { x: 0, y: 0 },
        vel: Vec2 { x: 0, y: 0 },
    };
    let near = Dot {
        step: 3,
        genome: straight_up_genome(50),
        dead: true,
        reached_goal: false,
        pos: Vec2 { x: 0, y: 345_000 },
        vel: Vec2 { x: 0, y: 0 },
    };
    let goal = Vec2 { x: 0, y: 350_000 };
    let f_slow = slow.calculate_fitness(goal);
    let f_near = near.calculate_fitness(goal);
    assert_eq!(f_slow, 40_000_000_001);
    assert_eq!(f_near, 40_000_000_000);
    assert!(f_slow > f_near);
}

#[test]
fn mutation_keeps_length_and_bounds() {
    let mut rng = SimRng::new(7);
    let g = straight_up_genome(200);
    let m = g.mutate(&mut rng);
    assert_eq!(m.directions.len(), 200);
    let mut changed = 0usize;
    for i in 0..200 {
        let d = m.directions[i];
        assert!(d.x >= -1000 && d.x <= 1000 && d.y >= -1000 && d.y <= 1000);
        let len_sq = d.x * d.x + d.y * d.y;
        assert!(
            (995_000..=1_005_000).contains(&len_sq),
            "gene {} has squared length {}",
            i,
            len_sq
        );
        if d != g.directions[i] {
            changed += 1;
        }
    }
    // about 10% of 200 genes mutate; a fresh draw rarely equals unit-up
    assert!(changed >= 5 && changed <= 60);
}

#[test]
fn fresh_genome_is_near_unit() {
    let mut rng = SimRng::new(99);
    let g = Genome::new(500, &mut rng);
    assert_eq!(g.directions.len(), 500);
    for d in g.directions.iter() {
        let len_sq = d.x * d.x + d.y * d.y;
        assert!((995_000..=1_005_000).contains(&len_sq), "squared length {}", len_sq);
    }
}

#[test]
fn speed_cap_is_euclidean() {
    // A diagonal genome accumulates velocity past the cap; after every
    // tick the squared speed stays within 5.0 units squared.
    let start = Vec2 { x: -300_000, y: -300_000 };
    let goal = Vec2 { x: 350_000, y: 350_000 };
    let obstacles: Vec<Segment> = Vec::new();
    let mut dirs: Vec<Vec2> = Vec::new();
    for _ in 0..40 {
        dirs.push(Vec2 { x: 707, y: 707 });
    }
    let mut d = Dot::with_genome(start, genome_of(dirs));
    for _ in 0..40 {
        d.update(goal, &obstacles);
        let speed_sq = d.vel.x * d.vel.x + d.vel.y * d.vel.y;
        assert!(speed_sq <= 25_000_000, "squared speed {}", speed_sq);
    }
}
