use rand::SeedableRng;
use tsp_ga::node::Node;
use tsp_ga::population::Population;
use tsp_ga::tour::{Ratio, Tour};
use tsp_ga::FITNESS_SCALE;

fn node(x: i32, y: i32) -> Node {
    Node { x, y, m: 'n' }
}

fn square_nodes() -> Vec<Node> {
    vec![node(0, 0), node(0, 10), node(10, 10), node(10, 0)]
}

fn tour_of(order: &[Node]) -> Tour {
    let mut t = Tour::new(order.len());
    for (i, n) in order.iter().enumerate() {
        t.set_node(i, *n);
    }
    t
}

#[test]
fn set_fitness_is_scaled_inverse_distance() {
    let mut t = tour_of(&square_nodes());
    assert_eq!(t.get_distance(), 40);
    t.set_fitness();
    assert_eq!(t.fitness, FITNESS_SCALE / 40);
    assert_eq!(t.fitness, 25_000_000_000_000);
}

#[test]
fn shorter_tour_scores_strictly_higher_fitness() {
    // The square in cyclic order has distance 40; the crossed order 48.
    let ns = square_nodes();
    let mut good = tour_of(&ns);
    let mut bad = tour_of(&[ns[0], ns[2], ns[1], ns[3]]);
    assert!(good.get_distance() < bad.get_distance());
    good.set_fitness();
    bad.set_fitness();
    assert!(good.fitness > bad.fitness);
}

#[test]
fn set_relative_fitness_exact_rationals() {
    let mut t = tour_of(&square_nodes());
    t.set_fitness();
    let f = t.fitness as i128; // 25_000_000_000_000
    let total: u128 = 100_000_000_000_000;
    // Average over a population of 4: total / 4.
    let average = Ratio { num: total as i128, den: 4 };
    t.set_relative_fitness(total, average);
    assert_eq!(t.relative_fitness.num, f);
    assert_eq!(t.relative_fitness.den, total as i128);
    // amplified = (4*f + 2*(4*f - total)) / (4*total)
    let expected_num = 4 * f + 2 * (4 * f - total as i128);
    assert_eq!(t.amplified_fitness.num, expected_num);
    assert_eq!(t.amplified_fitness.den, 4 * total as i128);
}

#[test]
fn initialize_fitness_total_is_exact_sum() {
    let mut rng = rand::rngs::StdRng::seed_from_u64(3);
    let mut pop = Population::new(6);
    pop.initialize_from_nodes(&mut rng, &square_nodes());
    let sum: u128 = pop.tours.iter().map(|t| t.fitness as u128).sum();
    assert_eq!(pop.total_fitness, sum);
    assert!(pop.total_fitness > 0);
}

#[test]
fn relative_fitness_sums_to_one_exactly() {
    let mut rng = rand::rngs::StdRng::seed_from_u64(4);
    let mut pop = Population::new(8);
    pop.initialize_from_nodes(&mut rng, &square_nodes());
    // All relative weights share the denominator `total`, and their
    // numerators sum to exactly that denominator.
    let total = pop.total_fitness as i128;
    let mut num_sum: i128 = 0;
    for t in pop.tours.iter() {
        assert_eq!(t.relative_fitness.den, total);
        num_sum += t.relative_fitness.num;
    }
    assert_eq!(num_sum, total);
}

#[test]
fn amplified_fitness_sums_to_one_exactly() {
    let mut rng = rand::rngs::StdRng::seed_from_u64(5);
    let mut pop = Population::new(8);
    pop.initialize_from_nodes(&mut rng, &square_nodes());
    // All amplified weights share the denominator `pop_count * total`, and
    // their numerators sum to exactly that denominator.
    let shared_den = 8 * pop.total_fitness as i128;
    let mut num_sum: i128 = 0;
    for t in pop.tours.iter() {
        assert_eq!(t.amplified_fitness.den, shared_den);
        num_sum += t.amplified_fitness.num;
    }
    assert_eq!(num_sum, shared_den);
}
