use rand::SeedableRng;
use tsp_ga::node::Node;
use tsp_ga::population::Population;
use tsp_ga::tour::Tour;
use tsp_ga::ROULETTE_DEN;

fn node(x: i32, y: i32) -> Node {
    Node { x, y, m: 'n' }
}

fn square_nodes() -> Vec<Node> {
    vec![node(0, 0), node(0, 10), node(10, 10), node(10, 0)]
}

fn tour_of(order: &[Node]) -> Tour {
    let mut t = Tour::new(order.len());
    for (i, n) in order.iter().enumerate() {
        t.set_node(i, *n);
    }
    t
}

/// A population of four tours over the square: one short (distance 40) at
/// index 2, three long ones (distance 48).
fn skewed_population() -> Population {
    let ns = square_nodes();
    let long1 = tour_of(&[ns[0], ns[2], ns[1], ns[3]]);
    let long2 = tour_of(&[ns[1], ns[3], ns[2], ns[0]]);
    let short = tour_of(&ns);
    let long3 = tour_of(&[ns[2], ns[0], ns[3], ns[1]]);
    let mut pop = Population::new(4);
    pop.initialize(vec![long1, long2, short, long3]);
    pop.initialize_fitness();
    pop
}

#[test]
fn roulette_on_zero_total_returns_index_zero() {
    let pop = Population::new(5);
    assert_eq!(pop.total_fitness, 0);
    for u in [0, 1, ROULETTE_DEN / 2, ROULETTE_DEN - 1] {
        assert_eq!(pop.get_tour_index_roulette(u), 0);
    }
}

#[test]
fn roulette_favours_amplified_fitness_share() {
    let pop = skewed_population();
    // Sweep the whole wheel with an even grid of draws and count how often
    // the short tour (index 2) is selected.
    let samples: u64 = 10_000;
    let mut short_picks = 0u64;
    for k in 0..samples {
        let u = k * (ROULETTE_DEN / samples);
        if pop.get_tour_index_roulette(u) == 2 {
            short_picks += 1;
        }
    }
    let fraction = short_picks as f64 / samples as f64;
    // The short tour's amplified share of the wheel.
    let share = pop.tours[2].amplified_fitness.num as f64
        / pop.tours[2].amplified_fitness.den as f64;
    assert!(share > 0.3, "share = {share}");
    assert!((fraction - share).abs() < 0.02, "fraction = {fraction}, share = {share}");
    // Far above a uniform pick and above the plain relative share.
    let relative = pop.tours[2].relative_fitness.num as f64
        / pop.tours[2].relative_fitness.den as f64;
    assert!(fraction > relative);
}

#[test]
fn best_of_indices_takes_first_of_the_fittest() {
    let pop = skewed_population();
    // Index 2 is the strictly fittest among the sample.
    assert_eq!(pop.best_of_indices(&vec![0, 2, 1]), 2);
    // Equal fitness: the first sampled of the tied tours wins.
    assert_eq!(pop.best_of_indices(&vec![3, 1, 0]), 3);
    // An empty sample falls back to index 0.
    assert_eq!(pop.best_of_indices(&vec![]), 0);
}

#[test]
fn tournament_returns_valid_index() {
    let pop = skewed_population();
    let mut rng = rand::rngs::StdRng::seed_from_u64(9);
    for _ in 0..50 {
        let idx = pop.get_tour_index_tournament(&mut rng, 3);
        assert!(idx < 4);
    }
}

#[test]
fn tournament_with_full_sample_finds_the_fittest() {
    let pop = skewed_population();
    let mut rng = rand::rngs::StdRng::seed_from_u64(10);
    // A large sample almost surely includes the single fittest tour.
    let mut hits = 0;
    for _ in 0..50 {
        if pop.get_tour_index_tournament(&mut rng, 20) == 2 {
            hits += 1;
        }
    }
    assert!(hits >= 45, "hits = {hits}");
}

#[test]
fn get_fittest_returns_first_maximum() {
    let pop = skewed_population();
    let fittest = pop.get_fittest();
    assert_eq!(fittest.get_distance(), 40);
    assert_eq!(fittest.fitness, pop.tours[2].fitness);
}

#[test]
fn get_random_tour_indices_stay_in_range() {
    let pop = skewed_population();
    let mut rng = rand::rngs::StdRng::seed_from_u64(12);
    let idxs = pop.get_random_tour_indices(&mut rng, 100);
    assert_eq!(idxs.len(), 100);
    for i in idxs {
        assert!(i < 4);
    }
}
