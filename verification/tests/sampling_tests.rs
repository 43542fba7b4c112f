use markov::edges::pick;
use markov::edges::MarkovConns;

#[test]
fn connect_counts_and_keeps_insertion_order() {
    let mut conns = MarkovConns::empty();
    conns.connect(5);
    conns.connect(7);
    conns.connect(5);
    conns.connect(9);
    conns.connect(5);
    assert_eq!(conns.len(), 3);
    assert_eq!(conns.entry_at(0), (5, 3));
    assert_eq!(conns.entry_at(1), (7, 1));
    assert_eq!(conns.entry_at(2), (9, 1));
    assert_eq!(conns.total_weight(), 5);
}

#[test]
fn index_map_is_idempotent() {
    let mut conns = MarkovConns::empty();
    conns.connect(2);
    conns.connect(3);
    let first: Vec<(usize, u32)> = conns.index_map().clone();
    let second: Vec<(usize, u32)> = conns.index_map().clone();
    assert_eq!(first, second);
    assert_eq!(first, vec![(2, 1), (3, 1)]);
}

#[test]
fn pick_maps_draws_to_cumulative_intervals() {
    let snap: Vec<(usize, u32)> = vec![(5, 1), (7, 3)];
    assert_eq!(pick(&snap, 0), 0);
    assert_eq!(pick(&snap, 1), 1);
    assert_eq!(pick(&snap, 2), 1);
    assert_eq!(pick(&snap, 3), 1);
}

#[test]
fn weighted_sampling_fidelity() {
    // Weights x:1, y:3 — over many draws the 1:3 ratio must emerge.
    let mut conns = MarkovConns::empty();
    conns.connect(100);
    conns.connect(200);
    conns.connect(200);
    conns.connect(200);
    conns.index_map();
    let mut rng = rand::rng();
    let n = 40_000;
    let mut hits_y = 0u32;
    for _ in 0..n {
        let t = conns.random_weighted(&mut rng);
        assert!(t == 100 || t == 200);
        if t == 200 {
            hits_y += 1;
        }
    }
    // Expected 30_000; allow a generous band around it.
    assert!(hits_y > 28_500, "y drawn {hits_y} times of {n}");
    assert!(hits_y < 31_500, "y drawn {hits_y} times of {n}");
}

#[test]
fn sampling_returns_only_recorded_targets() {
    let mut conns = MarkovConns::empty();
    conns.connect(42);
    conns.index_map();
    let mut rng = rand::rng();
    for _ in 0..100 {
        assert_eq!(conns.random_weighted(&mut rng), 42);
    }
}
