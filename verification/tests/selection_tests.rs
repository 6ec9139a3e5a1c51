use dot_evolution::population::select_index;
use dot_evolution::rng::SimRng;

#[test]
fn select_index_exact_boundaries() {
    let fits: Vec<u64> = vec![1000, 3000, 6000];
    assert_eq!(select_index(&fits, 0), 0);
    assert_eq!(select_index(&fits, 999), 0);
    assert_eq!(select_index(&fits, 1000), 1);
    assert_eq!(select_index(&fits, 3999), 1);
    assert_eq!(select_index(&fits, 4000), 2);
    assert_eq!(select_index(&fits, 9999), 2);
}

#[test]
fn selection_frequency_matches_fitness_share() {
    // Over many uniform draws the pick frequency of each index converges
    // to its fitness share: 10%, 30% and 60% here, within two points.
    let fits: Vec<u64> = vec![1000, 3000, 6000];
    let mut rng = SimRng::new(20240601);
    let mut counts = [0usize; 3];
    let draws = 10_000usize;
    for _ in 0..draws {
        let d = rng.next_below(10_000);
        let idx = select_index(&fits, d as u128);
        counts[idx] += 1;
    }
    assert_eq!(counts[0] + counts[1] + counts[2], draws);
    assert!(counts[0] >= 800 && counts[0] <= 1200, "index 0 drawn {} times", counts[0]);
    assert!(counts[1] >= 2800 && counts[1] <= 3200, "index 1 drawn {} times", counts[1]);
    assert!(counts[2] >= 5800 && counts[2] <= 6200, "index 2 drawn {} times", counts[2]);
}

#[test]
fn rng_is_deterministic_per_seed() {
    let mut a = SimRng::new(99);
    let mut b = SimRng::new(99);
    for _ in 0..100 {
        assert_eq!(a.next_u64(), b.next_u64());
    }
    let mut c = SimRng::new(100);
    let mut differs = false;
    for _ in 0..10 {
        if a.next_u64() != c.next_u64() {
            differs = true;
        }
    }
    assert!(differs);
}

#[test]
fn rng_ranges_respected() {
    let mut rng = SimRng::new(5);
    for n in 1..200u64 {
        let v = rng.next_below(n);
        assert!(v < n);
    }
    for _ in 0..100 {
        let v = rng.next_below_u128(1_000_000_000_000_000_000_000u128);
        assert!(v < 1_000_000_000_000_000_000_000u128);
    }
}
