use dot_evolution::dot::{Dot, Genome};
use dot_evolution::geom::{Segment, Vec2};
use dot_evolution::population::Population;
use dot_evolution::rng::SimRng;

fn start() -> Vec2 {
    Vec2 { x: 0, y: -350_000 }
}

fn goal() -> Vec2 {
    Vec2 { x: 0, y: 350_000 }
}

fn up_genome(len: usize) -> Genome {
    let mut dirs: Vec<Vec2> = Vec::new();
    for _ in 0..len {
        dirs.push(Vec2 { x: 0, y: 1000 });
    }
    Genome::from_directions(dirs)
}

#[test]
fn fresh_population_is_not_done() {
    let mut rng = SimRng::new(11);
    let p = Population::new(5, start(), 400, goal(), &mut rng);
    assert!(!p.all_done());
    assert_eq!(p.generation(), 0);
    assert_eq!(p.step_budget(), 400);
    assert_eq!(p.num_dots(), 5);
}

#[test]
fn all_done_iff_every_agent_terminal() {
    let mut rng = SimRng::new(3);
    let mut p = Population::new(4, start(), 5, goal(), &mut rng);
    let obstacles: Vec<Segment> = Vec::new();
    let mut ticks = 0usize;
    while !p.all_done() {
        p.update(&obstacles);
        ticks += 1;
        assert!(ticks < 1000, "run must terminate within the budget");
        let mut every = true;
        for i in 0..p.num_dots() {
            let d = p.dot_at(i);
            assert!(!(d.dead && d.reached_goal));
            if !d.dead && !d.reached_goal {
                every = false;
            }
        }
        assert_eq!(p.all_done(), every);
    }
    for i in 0..p.num_dots() {
        let d = p.dot_at(i);
        assert!(d.dead || d.reached_goal);
    }
}

#[test]
fn budget_cutoff_forces_death() {
    // An agent whose counter already passed the budget dies on the next
    // population tick without moving.
    let mut rng = SimRng::new(5);
    let mut p = Population::new(1, start(), 5, goal(), &mut rng);
    p.dots[0] = Dot {
        step: 6,
        genome: up_genome(50),
        dead: false,
        reached_goal: false,
        pos: Vec2 { x: 0, y: 0 },
        vel: Vec2 { x: 0, y: 0 },
    };
    let obstacles: Vec<Segment> = Vec::new();
    p.update(&obstacles);
    assert!(p.dot_at(0).dead);
    assert_eq!(p.dot_at(0).step, 6);
    assert_eq!(p.dot_at(0).pos, Vec2 { x: 0, y: 0 });
}

#[test]
fn evolve_keeps_size_and_counts_generations() {
    let mut rng = SimRng::new(21);
    let mut p = Population::new(8, start(), 50, goal(), &mut rng);
    let obstacles: Vec<Segment> = Vec::new();
    while !p.all_done() {
        p.update(&obstacles);
    }
    p.next_generation(&mut rng);
    assert_eq!(p.num_dots(), 8);
    assert_eq!(p.generation(), 1);
    p.next_generation(&mut rng);
    assert_eq!(p.num_dots(), 8);
    assert_eq!(p.generation(), 2);
}

#[test]
fn budget_tightens_to_best_finisher() {
    let mut rng = SimRng::new(2);
    let mut p = Population::new(3, start(), 400, goal(), &mut rng);
    // plant a finisher with 42 steps; the others stay far from the goal
    p.dots[0] = Dot {
        step: 42,
        genome: up_genome(100),
        dead: false,
        reached_goal: true,
        pos: Vec2 { x: 0, y: 348_000 },
        vel: Vec2 { x: 0, y: 5000 },
    };
    let budget_before = p.step_budget();
    let elite_genome: Vec<Vec2> = p.dots[0].genome.directions.clone();
    p.next_generation(&mut rng);
    assert_eq!(p.step_budget(), 42);
    assert!(p.step_budget() <= budget_before);
    assert_eq!(p.generation(), 1);
    assert_eq!(p.num_dots(), 3);
    // the elite is carried over verbatim into slot zero
    let elite = p.dot_at(0);
    assert_eq!(elite.step, 0);
    assert!(!elite.dead && !elite.reached_goal);
    assert_eq!(elite.pos, start());
    assert_eq!(elite.genome.directions, elite_genome);
}

#[test]
fn budget_never_grows_at_the_edge() {
    // A finisher can hold a step count one past the budget (it stepped
    // from step == budget); the budget then stays where it was instead of
    // growing.
    let mut rng = SimRng::new(8);
    let mut p = Population::new(2, start(), 100, goal(), &mut rng);
    p.dots[0] = Dot {
        step: 150,
        genome: up_genome(200),
        dead: false,
        reached_goal: true,
        pos: Vec2 { x: 0, y: 347_000 },
        vel: Vec2 { x: 0, y: 5000 },
    };
    p.next_generation(&mut rng);
    assert_eq!(p.step_budget(), 100);
    assert_eq!(p.generation(), 1);
}

#[test]
fn budget_unchanged_without_finisher() {
    let mut rng = SimRng::new(9);
    let mut p = Population::new(4, start(), 77, goal(), &mut rng);
    let obstacles: Vec<Segment> = Vec::new();
    while !p.all_done() {
        p.update(&obstacles);
    }
    // with a 77-gene random genome nobody crosses 700 world units
    for i in 0..p.num_dots() {
        assert!(!p.dot_at(i).reached_goal);
    }
    p.next_generation(&mut rng);
    assert_eq!(p.step_budget(), 77);
}

#[test]
fn full_run_with_walls_stays_consistent() {
    let mut rng = SimRng::new(1234);
    let mut p = Population::new(20, start(), 120, goal(), &mut rng);
    let obstacles: Vec<Segment> = vec![
        Segment { a: Vec2 { x: -200_000, y: 0 }, b: Vec2 { x: 50_000, y: 0 } },
    ];
    for _ in 0..3 {
        let mut ticks = 0usize;
        while !p.all_done() {
            p.update(&obstacles);
            ticks += 1;
            assert!(ticks <= 200, "budget must bound every generation");
        }
        let budget_before = p.step_budget();
        p.next_generation(&mut rng);
        assert!(p.step_budget() <= budget_before);
        assert_eq!(p.num_dots(), 20);
        for i in 0..p.num_dots() {
            let d = p.dot_at(i);
            assert!(!(d.dead && d.reached_goal));
            assert!(d.step <= d.genome.directions.len());
        }
    }
    assert_eq!(p.generation(), 3);
}

#[test]
fn same_seed_gives_identical_evolution() {
    // Construction and evolution are exact functions of the generator
    // state: two runs from one seed agree agent by agent, gene by gene.
    let mut rng_a = SimRng::new(77);
    let mut rng_b = SimRng::new(77);
    let mut a = Population::new(4, start(), 30, goal(), &mut rng_a);
    let mut b = Population::new(4, start(), 30, goal(), &mut rng_b);
    let obstacles: Vec<Segment> = Vec::new();
    while !a.all_done() {
        a.update(&obstacles);
        b.update(&obstacles);
    }
    assert!(b.all_done());
    a.next_generation(&mut rng_a);
    b.next_generation(&mut rng_b);
    assert_eq!(rng_a.state, rng_b.state);
    assert_eq!(a.num_dots(), b.num_dots());
    for i in 0..a.num_dots() {
        let da = a.dot_at(i);
        let db = b.dot_at(i);
        assert_eq!(da.pos, db.pos);
        assert_eq!(da.step, db.step);
        assert_eq!(da.genome.directions, db.genome.directions);
    }
}
