use rand::SeedableRng;
use tsp_ga::node::Node;
use tsp_ga::tour::Tour;

fn node(x: i32, y: i32) -> Node {
    Node { x, y, m: 'n' }
}

fn square_tour() -> Tour {
    let mut t = Tour::new(4);
    t.set_node(0, node(0, 0));
    t.set_node(1, node(0, 10));
    t.set_node(2, node(10, 10));
    t.set_node(3, node(10, 0));
    t
}

#[test]
fn node_default_is_blank() {
    let n = Node::default();
    assert_eq!(n.x, -1);
    assert_eq!(n.y, -1);
    assert_eq!(n.m, 'n');
}

#[test]
fn new_tour_is_unfilled_with_zero_fitness() {
    let t = Tour::new(3);
    assert_eq!(t.get_tour_len(), 3);
    for i in 0..3 {
        assert!(!t.is_filled(i));
    }
    assert_eq!(t.fitness, 0);
    assert_eq!(t.relative_fitness.num, 0);
    assert_eq!(t.amplified_fitness.num, 0);
}

#[test]
fn set_and_get_node_roundtrip() {
    let mut t = Tour::new(2);
    t.set_node(0, node(3, 4));
    t.set_node(1, node(-3, -4));
    assert!(t.is_filled(0));
    assert_eq!(t.get_node(0).x, 3);
    assert_eq!(t.get_node(0).y, 4);
    assert_eq!(t.get_node(1).x, -3);
}

#[test]
fn set_node_invalidates_fitness() {
    let mut t = square_tour();
    t.set_fitness();
    assert!(t.fitness > 0);
    t.set_node(0, node(0, 0));
    assert_eq!(t.fitness, 0);
    assert_eq!(t.relative_fitness.num, 0);
    assert_eq!(t.amplified_fitness.num, 0);
}

#[test]
fn contains_node_compares_coordinates_only() {
    let t = square_tour();
    assert!(t.contains_node(Node { x: 10, y: 10, m: 'z' }));
    assert!(!t.contains_node(node(5, 5)));
}

#[test]
fn square_tour_distance_is_forty() {
    let t = square_tour();
    assert_eq!(t.get_distance(), 40);
}

#[test]
fn distance_is_deterministic() {
    let t = square_tour();
    let d1 = t.get_distance();
    let d2 = t.get_distance();
    assert_eq!(d1, d2);
    assert_eq!(d1, 40);
}

#[test]
fn diagonal_edges_truncate_per_edge() {
    // (0,0) -> (10,10) -> (0,10) -> (10,0): isqrt(200)=14, 10, isqrt(200)=14,
    // then back isqrt(200)... cycle: 14 + 10 + 14 + 10 = 48.
    let mut t = Tour::new(4);
    t.set_node(0, node(0, 0));
    t.set_node(1, node(10, 10));
    t.set_node(2, node(0, 10));
    t.set_node(3, node(10, 0));
    assert_eq!(t.get_distance(), 48);
}

#[test]
fn two_node_tour_distance_counts_both_directions() {
    let mut t = Tour::new(2);
    t.set_node(0, node(0, 0));
    t.set_node(1, node(3, 4));
    // Edge (0,0)->(3,4) has length 5, and the return edge another 5.
    assert_eq!(t.get_distance(), 10);
}

#[test]
fn generate_individual_yields_permutation() {
    let mut rng = rand::rngs::StdRng::seed_from_u64(7);
    let nodes: Vec<Node> = (0..10).map(|i| node(i * 7, i * 3 - 5)).collect();
    let mut t = Tour::new(nodes.len());
    t.generate_individual(&mut rng, &nodes);
    assert_eq!(t.get_tour_len(), 10);
    for i in 0..10 {
        assert!(t.is_filled(i));
        assert!(t.contains_node(nodes[i]));
    }
    assert_eq!(t.fitness, 0);
}

#[test]
fn generate_individual_shuffles_with_seed() {
    // With a fixed seed the shuffle is reproducible, and for 30 nodes it is
    // not the identity ordering.
    let nodes: Vec<Node> = (0..30).map(|i| node(i, 0)).collect();
    let mut rng1 = rand::rngs::StdRng::seed_from_u64(11);
    let mut t1 = Tour::new(nodes.len());
    t1.generate_individual(&mut rng1, &nodes);
    let mut rng2 = rand::rngs::StdRng::seed_from_u64(11);
    let mut t2 = Tour::new(nodes.len());
    t2.generate_individual(&mut rng2, &nodes);
    let mut same_as_input = true;
    for i in 0..30 {
        assert_eq!(t1.get_node(i).x, t2.get_node(i).x);
        assert_eq!(t1.get_node(i).y, t2.get_node(i).y);
        if t1.get_node(i).x != nodes[i].x || t1.get_node(i).y != nodes[i].y {
            same_as_input = false;
        }
    }
    assert!(!same_as_input);
}
