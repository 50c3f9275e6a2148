use rand::SeedableRng;
use tsp_ga::ga::{GaConfig, SelectionStrategy, GA};
use tsp_ga::node::Node;
use tsp_ga::population::Population;
use tsp_ga::tour::Tour;
use tsp_ga::{MUTATION_RATE_DEN, MUTATION_RATE_NUM, TOURNAMENT_SIZE};

fn node(x: i32, y: i32) -> Node {
    Node { x, y, m: 'n' }
}

fn square_nodes() -> Vec<Node> {
    vec![node(0, 0), node(0, 10), node(10, 10), node(10, 0)]
}

fn tour_of(order: &[Node]) -> Tour {
    let mut t = Tour::new(order.len());
    for (i, n) in order.iter().enumerate() {
        t.set_node(i, *n);
    }
    t
}

fn eight_nodes() -> Vec<Node> {
    (0..8).map(|i| node(i * 5, (i % 3) * 7)).collect()
}

fn assert_is_permutation_of(child: &Tour, nodes: &[Node]) {
    assert_eq!(child.get_tour_len(), nodes.len());
    for i in 0..nodes.len() {
        assert!(child.is_filled(i));
        assert!(child.contains_node(nodes[i]));
    }
}

#[test]
fn default_config_matches_deployment_constants() {
    let c = GaConfig::default();
    assert_eq!(c.strategy, SelectionStrategy::Roulette);
    assert_eq!(c.tournament_size, TOURNAMENT_SIZE);
    assert_eq!(c.mutation_num, MUTATION_RATE_NUM);
    assert_eq!(c.mutation_den, MUTATION_RATE_DEN);
}

#[test]
fn crossover_with_forward_cuts_is_complete_permutation() {
    let ns = eight_nodes();
    let p1 = tour_of(&ns);
    let reversed: Vec<Node> = ns.iter().rev().cloned().collect();
    let p2 = tour_of(&reversed);
    let child = GA::crossover_with_cuts(&p1, &p2, 2, 6);
    assert_is_permutation_of(&child, &ns);
    // The positions strictly between the cuts come from parent 1.
    for i in 3..6 {
        assert_eq!(child.get_node(i).x, p1.get_node(i).x);
        assert_eq!(child.get_node(i).y, p1.get_node(i).y);
    }
    // The rest is filled by scanning parent 2 (the reversal) in order,
    // each not-yet-present node into the first empty slot: 7, 6 and 2 land
    // in slots 0..2, then 1 and 0 in slots 6..7.
    let expected = [7, 6, 2, 3, 4, 5, 1, 0];
    for i in 0..8 {
        assert_eq!(child.get_node(i).x, ns[expected[i]].x);
        assert_eq!(child.get_node(i).y, ns[expected[i]].y);
    }
}

#[test]
fn crossover_with_wrapping_cuts_is_complete_permutation() {
    let ns = eight_nodes();
    let p1 = tour_of(&ns);
    let reversed: Vec<Node> = ns.iter().rev().cloned().collect();
    let p2 = tour_of(&reversed);
    let child = GA::crossover_with_cuts(&p1, &p2, 6, 2);
    assert_is_permutation_of(&child, &ns);
    // The copied band wraps around the boundary: positions outside (2..=6)
    // except those strictly between end and start come from parent 1.
    for i in [0, 1, 6, 7] {
        assert_eq!(child.get_node(i).x, p1.get_node(i).x);
        assert_eq!(child.get_node(i).y, p1.get_node(i).y);
    }
}

#[test]
fn crossover_with_equal_cuts_fills_from_parent_two() {
    let ns = eight_nodes();
    let p1 = tour_of(&ns);
    let reversed: Vec<Node> = ns.iter().rev().cloned().collect();
    let p2 = tour_of(&reversed);
    let child = GA::crossover_with_cuts(&p1, &p2, 3, 3);
    assert_is_permutation_of(&child, &ns);
    // Nothing is copied from parent 1, so parent 2's scan fills the child
    // in parent 2's own order.
    for i in 0..8 {
        assert_eq!(child.get_node(i).x, p2.get_node(i).x);
        assert_eq!(child.get_node(i).y, p2.get_node(i).y);
    }
}

#[test]
fn crossover_random_cuts_never_drops_a_node() {
    let ns = eight_nodes();
    let p1 = tour_of(&ns);
    let reversed: Vec<Node> = ns.iter().rev().cloned().collect();
    let p2 = tour_of(&reversed);
    let mut rng = rand::rngs::StdRng::seed_from_u64(21);
    for _ in 0..50 {
        let child = GA::crossover(&mut rng, &p1, &p2);
        assert_is_permutation_of(&child, &ns);
        assert_eq!(child.fitness, 0);
    }
}

#[test]
fn distinct_partner_never_returns_the_same_position() {
    let n = 9;
    for i in 0..n {
        for k in 0..n - 1 {
            let j = GA::distinct_partner(k, i, n);
            assert!(j < n);
            assert_ne!(j, i);
        }
    }
}

#[test]
fn mutate_preserves_the_permutation() {
    let nodes: Vec<Node> = (0..20).map(|i| node(i * 3, -i)).collect();
    let mut t = tour_of(&nodes);
    let mut rng = rand::rngs::StdRng::seed_from_u64(33);
    for _ in 0..100 {
        GA::mutate(&mut rng, &mut t, 200, 1000);
    }
    assert_is_permutation_of(&t, &nodes);
}

#[test]
fn mutation_rate_governs_swap_frequency() {
    // Over many passes with rate 0.015, the fraction of positions moved by
    // a swap settles near the rate (each swap moves two positions).
    let nodes: Vec<Node> = (0..100).map(|i| node(i, i * 2 - 50)).collect();
    let n = nodes.len();
    let mut t = tour_of(&nodes);
    let mut rng = rand::rngs::StdRng::seed_from_u64(42);
    let passes = 400;
    let mut moved = 0usize;
    for _ in 0..passes {
        let before: Vec<(i32, i32)> = (0..n).map(|i| (t.get_node(i).x, t.get_node(i).y)).collect();
        GA::mutate(&mut rng, &mut t, 15, 1000);
        for i in 0..n {
            let after = t.get_node(i);
            if (after.x, after.y) != before[i] {
                moved += 1;
            }
        }
    }
    let events = moved as f64 / 2.0;
    let rate = events / (passes * n) as f64;
    assert!(rate > 0.010 && rate < 0.020, "observed rate = {rate}");
}

#[test]
fn zero_mutation_rate_leaves_the_tour_alone() {
    let nodes: Vec<Node> = (0..10).map(|i| node(i, 0)).collect();
    let mut t = tour_of(&nodes);
    let mut rng = rand::rngs::StdRng::seed_from_u64(1);
    GA::mutate(&mut rng, &mut t, 0, 1000);
    for i in 0..10 {
        assert_eq!(t.get_node(i).x, nodes[i].x);
    }
}

#[test]
fn evolve_population_keeps_size_and_node_set() {
    let mut rng = rand::rngs::StdRng::seed_from_u64(50);
    let mut pop = Population::new(12);
    pop.initialize_from_nodes(&mut rng, &square_nodes());
    let config = GaConfig::default();
    pop = GA::evolve_population(&mut rng, pop, &config);
    assert_eq!(pop.pop_count, 12);
    assert_eq!(pop.tours.len(), 12);
    for t in pop.tours.iter() {
        assert_is_permutation_of(t, &square_nodes());
        assert!(t.fitness > 0);
    }
}

#[test]
fn evolve_population_with_tournament_strategy() {
    let mut rng = rand::rngs::StdRng::seed_from_u64(51);
    let mut pop = Population::new(10);
    pop.initialize_from_nodes(&mut rng, &eight_nodes());
    let config = GaConfig {
        strategy: SelectionStrategy::Tournament,
        ..GaConfig::default()
    };
    for _ in 0..5 {
        pop = GA::evolve_population(&mut rng, pop, &config);
    }
    assert_eq!(pop.tours.len(), 10);
    for t in pop.tours.iter() {
        assert_is_permutation_of(t, &eight_nodes());
    }
}

#[test]
fn two_hundred_generations_on_the_square_reproduce_bit_for_bit() {
    let run = |seed: u64| -> (u64, u64, Vec<(i32, i32)>) {
        let mut rng = rand::rngs::StdRng::seed_from_u64(seed);
        let mut pop = Population::new(20);
        pop.initialize_from_nodes(&mut rng, &square_nodes());
        let initial = pop.get_fittest().get_distance();
        let config = GaConfig::default();
        for _ in 0..200 {
            pop = GA::evolve_population(&mut rng, pop, &config);
        }
        let fittest = pop.get_fittest();
        let sequence: Vec<(i32, i32)> =
            (0..4).map(|i| (fittest.get_node(i).x, fittest.get_node(i).y)).collect();
        (initial, fittest.get_distance(), sequence)
    };
    let (initial, final1, seq1) = run(2024);
    let (_, final2, seq2) = run(2024);
    // The best-known solution does not worsen over the run, and the whole
    // run is reproducible from the seed.
    assert!(final1 <= initial, "final = {final1}, initial = {initial}");
    assert_eq!(final1, final2);
    assert_eq!(seq1, seq2);
    // For the square the optimum is the perimeter.
    assert_eq!(final1, 40);
}
