//! The genetic algorithm engine: the generational transition that breeds a
//! new population from the current one by fitness-weighted selection,
//! segment-preserving crossover and low-probability swap mutation.

use vstd::prelude::*;

use crate::node::{node_pos, same_pos, Node};
use crate::population::{fitness_initialized, tour_ready, Population};
use crate::rng::{rand_index, rand_u64_below};
use crate::tour::{
    complete, distinct_filled, lemma_fpos_upto_card, lemma_fpos_upto_contains,
    lemma_swap_preserves, pos_set, spec_contains, tour_wf, Ratio, Tour,
};
use crate::{
    MAX_TOUR_LEN, MUTATION_RATE_DEN, MUTATION_RATE_NUM, POP_MAX, ROULETTE_DEN, TOURNAMENT_SIZE,
};

verus! {

/// How parents are picked for breeding, chosen once per run.
#[derive(Clone, Copy, PartialEq, Eq, Structural, Debug)]
pub enum SelectionStrategy {
    /// Fitness-proportional choice over the amplified weights.
    Roulette,
    /// Best-of-random-sample choice over the raw fitness.
    Tournament,
}

/// The per-run configuration of the engine.
#[derive(Clone, Copy, PartialEq, Eq, Structural, Debug)]
pub struct GaConfig {
    /// The parent selection strategy.
    pub strategy: SelectionStrategy,
    /// Sample size for tournament selection.
    pub tournament_size: usize,
    /// Numerator of the per-position mutation probability.
    pub mutation_num: u64,
    /// Denominator of the per-position mutation probability.
    pub mutation_den: u64,
}

/// A usable configuration: the mutation probability is a well-formed
/// fraction.
pub open spec fn config_wf(c: GaConfig) -> bool {
    1 <= c.mutation_den
}

impl Default for GaConfig {
    /// The deployment defaults: roulette selection, mutation rate 0.015,
    /// tournament sample size 5.
    fn default() -> (c: GaConfig)
        ensures
            c.strategy == SelectionStrategy::Roulette,
            c.tournament_size == TOURNAMENT_SIZE,
            c.mutation_num == MUTATION_RATE_NUM,
            c.mutation_den == MUTATION_RATE_DEN,
            config_wf(c),
    {
        GaConfig {
            strategy: SelectionStrategy::Roulette,
            tournament_size: TOURNAMENT_SIZE,
            mutation_num: MUTATION_RATE_NUM,
            mutation_den: MUTATION_RATE_DEN,
        }
    }
}

/// Which child positions receive parent 1's node for the cut pair
/// `(start, end)`: the positions strictly between them when `start < end`;
/// the positions outside the band `[end, start]` (wrapping around the array
/// boundary) when `start > end`; none when they are equal.
pub open spec fn in_copied_segment(start: int, end: int, i: int) -> bool {
    if start < end {
        start < i < end
    } else if start > end {
        !(i < start && i > end)
    } else {
        false
    }
}

/// The child as it stands right after the segment copy: parent 1's node at
/// every copied position, every other slot unfilled.
pub open spec fn segment_child(p1: Seq<Option<Node>>, start: int, end: int) -> Seq<Option<Node>> {
    Seq::new(
        p1.len(),
        |i: int|
            if in_copied_segment(start, end, i) {
                p1[i]
            } else {
                None
            },
    )
}

/// A slot sequence of `n` unfilled slots.
pub open spec fn unfilled(n: nat) -> Seq<Option<Node>> {
    Seq::new(n, |i: int| None)
}

/// The first unfilled slot at or after `j`, or the length if all later
/// slots are filled.
pub open spec fn first_none_from(c: Seq<Option<Node>>, j: nat) -> int
    decreases c.len() - j,
{
    if j >= c.len() {
        c.len() as int
    } else if c[j as int] is None {
        j as int
    } else {
        first_none_from(c, j + 1)
    }
}

/// One fill step of the crossover: a node whose stop is already present
/// leaves the child unchanged; otherwise it is placed into the first
/// currently unfilled slot.
pub open spec fn fill_step(c: Seq<Option<Node>>, n2: Node) -> Seq<Option<Node>> {
    if spec_contains(c, n2) {
        c
    } else {
        let j = first_none_from(c, 0);
        if j < c.len() {
            c.update(j, Some(n2))
        } else {
            c
        }
    }
}

/// The child after scanning parent 2's first `k` nodes in their original
/// order, each applied by one fill step.
pub open spec fn fill_from(c: Seq<Option<Node>>, p2: Seq<Option<Node>>, k: nat) -> Seq<
    Option<Node>,
>
    decreases k,
{
    if k == 0 {
        c
    } else {
        fill_step(fill_from(c, p2, (k - 1) as nat), p2[k - 1]->Some_0)
    }
}

/// The crossover child as a function of the parents and the cut pair
/// alone: parent 1's segment, then parent 2's scan over the remaining
/// slots.
pub open spec fn crossover_spec(
    p1: Seq<Option<Node>>,
    p2: Seq<Option<Node>>,
    start: int,
    end: int,
) -> Seq<Option<Node>> {
    fill_from(segment_child(p1, start, end), p2, p2.len())
}

/// `first_none_from` finds exactly the slot that is unfilled while all
/// earlier slots in its range are filled.
proof fn lemma_first_none_at(c: Seq<Option<Node>>, j0: nat, j: int)
    requires
        j0 <= j < c.len(),
        c[j] is None,
        forall|m: int| j0 <= m < j ==> (#[trigger] c[m]) is Some,
    ensures
        first_none_from(c, j0) == j,
    decreases j - j0,
{
    if j0 < j {
        lemma_first_none_at(c, j0 + 1, j);
    }
}

/// Filling an entirely unfilled child from a duplicate-free complete
/// parent places the parent's nodes left to right in their original
/// order: after `k` steps the first `k` slots are the parent's first `k`
/// nodes and the rest are still unfilled.
proof fn lemma_fill_all_empty(p2: Seq<Option<Node>>, k: nat)
    requires
        complete(p2),
        distinct_filled(p2),
        k <= p2.len(),
    ensures
        fill_from(unfilled(p2.len()), p2, k) == Seq::new(
            p2.len(),
            |i: int|
                if i < k {
                    p2[i]
                } else {
                    None
                },
        ),
    decreases k,
{
    let n = p2.len();
    let target = Seq::new(
        n,
        |i: int|
            if i < k {
                p2[i]
            } else {
                None
            },
    );
    if k == 0 {
        assert(fill_from(unfilled(n), p2, 0) =~= target);
    } else {
        lemma_fill_all_empty(p2, (k - 1) as nat);
        let prev = fill_from(unfilled(n), p2, (k - 1) as nat);
        let x = p2[k - 1]->Some_0;
        assert(!spec_contains(prev, x)) by {
            if spec_contains(prev, x) {
                let w = choose|w: int|
                    0 <= w < prev.len() && prev[w] is Some && same_pos(
                        #[trigger] prev[w]->Some_0,
                        x,
                    );
                assert(w < k - 1 && prev[w] == p2[w]);
                assert(node_pos(p2[w]->Some_0) != node_pos(p2[k - 1]->Some_0));
            }
        }
        lemma_first_none_at(prev, 0, k - 1);
        assert(fill_from(unfilled(n), p2, k) == prev.update(k - 1, Some(x)));
        assert(Some(x) == p2[k - 1]);
        assert(prev.update(k - 1, Some(x)) =~= target);
    }
}

/// A partially bred child is consistent with its gene pool: every filled
/// slot holds a stop of the parents' shared node set `ps`.
pub open spec fn child_subset(c: Seq<Option<Node>>, ps: Set<(int, int)>) -> bool {
    forall|k: int|
        0 <= k < c.len() && c[k] is Some ==> ps.contains(node_pos(#[trigger] c[k]->Some_0))
}

/// A child that visits distinct stops of the parents' node set, misses one
/// of those stops, and has no unfilled slot cannot exist: its filled slots
/// would name `len` distinct stops out of only `len - 1` available ones.
proof fn lemma_empty_slot_exists(c: Seq<Option<Node>>, p: Seq<Option<Node>>, x: Node)
    requires
        c.len() == p.len(),
        complete(p),
        distinct_filled(p),
        distinct_filled(c),
        child_subset(c, pos_set(p)),
        pos_set(p).contains(node_pos(x)),
        !spec_contains(c, x),
    ensures
        exists|j: int| 0 <= j < c.len() && c[j] is None,
{
    broadcast use vstd::set::group_set_axioms;

    let n = c.len();
    if forall|m: int| 0 <= m < n ==> (#[trigger] c[m]) is Some {
        lemma_fpos_upto_card(c, n);
        lemma_fpos_upto_card(p, n);
        lemma_fpos_upto_contains(c, n);
        let pp = node_pos(x);
        assert forall|q: (int, int)| #[trigger]
            pos_set(c).contains(q) implies pos_set(p).remove(pp).contains(q) by {
            let k = choose|k: int|
                0 <= k < n && c[k] is Some && node_pos(#[trigger] c[k]->Some_0) == q;
            assert(pos_set(p).contains(q));
            if q == pp {
                assert(same_pos(c[k]->Some_0, x));
                assert(spec_contains(c, x));
            }
        }
        assert(pos_set(c).subset_of(pos_set(p).remove(pp)));
        vstd::set_lib::lemma_len_subset(pos_set(c), pos_set(p).remove(pp));
        assert(pos_set(c).len() == n);
        assert(pos_set(p).remove(pp).len() == pos_set(p).len() - 1);
        assert(false);
    } else {
        let j = choose|m: int| !(0 <= m < n ==> (#[trigger] c[m]) is Some);
        assert(0 <= j < n && c[j] is None);
    }
}

/// Returns the first unfilled slot of a tour known to have one.
fn first_empty_slot(t: &Tour) -> (j: usize)
    requires
        exists|m: int| 0 <= m < t@.len() && t@[m] is None,
    ensures
        j < t@.len(),
        t@[j as int] is None,
        forall|m: int| 0 <= m < j ==> (#[trigger] t@[m]) is Some,
{
    let n = t.get_tour_len();
    let mut j: usize = 0;
    while j < n
        invariant
            j <= n,
            n == t@.len(),
            exists|m: int| 0 <= m < n && t@[m] is None,
            forall|m: int| 0 <= m < j ==> (#[trigger] t@[m]) is Some,
        decreases n - j,
    {
        if !t.is_filled(j) {
            return j;
        }
        j = j + 1;
    }
    proof {
        let m = choose|m: int| 0 <= m < n && t@[m] is None;
        assert(t@[m] is Some);
        assert(false);
    }
    0
}

/// The implementation of the genetic algorithm which evolves the
/// population: each generation is bred by crossover of selected parents
/// and perturbed by swap mutation.
pub struct GA;

impl GA {
    /// Breeds one child from two parents for the given cut positions:
    /// copies parent 1's segment into the same child positions, then fills
    /// each remaining slot, scanning parent 2 in order, with the first
    /// not-yet-present node placed into the first empty slot. For any cut
    /// pair the child is a complete permutation of the parents' shared
    /// node set: no node is dropped or duplicated.
    pub fn crossover_with_cuts(
        parent1: &Tour,
        parent2: &Tour,
        start_pos: usize,
        end_pos: usize,
    ) -> (child: Tour)
        requires
            parent1@.len() == parent2@.len(),
            1 <= parent1@.len() <= MAX_TOUR_LEN,
            start_pos < parent1@.len(),
            end_pos < parent1@.len(),
            complete(parent1@),
            complete(parent2@),
            distinct_filled(parent1@),
            distinct_filled(parent2@),
            tour_wf(parent1@),
            tour_wf(parent2@),
            pos_set(parent1@) == pos_set(parent2@),
        ensures
            child@.len() == parent1@.len(),
            complete(child@),
            distinct_filled(child@),
            tour_wf(child@),
            pos_set(child@) == pos_set(parent1@),
            forall|i: int|
                0 <= i < child@.len() && in_copied_segment(start_pos as int, end_pos as int, i)
                    ==> child@[i] == parent1@[i],
            child@ == crossover_spec(parent1@, parent2@, start_pos as int, end_pos as int),
            start_pos == end_pos ==> child@ == parent2@,
            child.fitness == 0,
            child.relative_fitness == Ratio::zero_spec(),
            child.amplified_fitness == Ratio::zero_spec(),
    {
        let n = parent1.get_tour_len();
        let ghost ps = pos_set(parent1@);
        let ghost seg = segment_child(parent1@, start_pos as int, end_pos as int);
        let mut child: Tour = Tour::new(n);

        // Copy the selected segment of parent 1 into the child.
        let mut i: usize = 0;
        while i < n
            invariant
                i <= n,
                n == child@.len(),
                n == parent1@.len(),
                complete(parent1@),
                forall|k: int|
                    0 <= k < i ==> ((#[trigger] child@[k]) is Some <==> in_copied_segment(
                        start_pos as int,
                        end_pos as int,
                        k,
                    )),
                forall|k: int|
                    0 <= k < i && child@[k] is Some ==> #[trigger] child@[k] == parent1@[k],
                forall|k: int| i <= k < n ==> (#[trigger] child@[k]) is None,
                child.fitness == 0,
                child.relative_fitness == Ratio::zero_spec(),
                child.amplified_fitness == Ratio::zero_spec(),
            decreases n - i,
        {
            if start_pos < end_pos && i > start_pos && i < end_pos {
                child.set_node(i, parent1.get_node(i));
            } else if start_pos > end_pos {
                if !(i < start_pos && i > end_pos) {
                    child.set_node(i, parent1.get_node(i));
                }
            }
            i = i + 1;
        }

        proof {
            lemma_fpos_upto_contains(parent1@, n as nat);
            assert forall|k: int| 0 <= k < n && child@[k] is Some implies ps.contains(
                node_pos(#[trigger] child@[k]->Some_0),
            ) by {
                assert(child@[k] == parent1@[k]);
            }
            assert(child@ =~= seg);
        }

        // Fill the remaining slots from parent 2, in its order, each node
        // going into the first currently empty slot.
        let mut i: usize = 0;
        while i < n
            invariant
                i <= n,
                n == child@.len(),
                n == parent1@.len(),
                n == parent2@.len(),
                complete(parent1@),
                complete(parent2@),
                distinct_filled(parent1@),
                distinct_filled(parent2@),
                tour_wf(parent1@),
                tour_wf(parent2@),
                ps == pos_set(parent1@),
                ps == pos_set(parent2@),
                seg == segment_child(parent1@, start_pos as int, end_pos as int),
                child@ == fill_from(seg, parent2@, i as nat),
                child_subset(child@, ps),
                distinct_filled(child@),
                forall|k: int|
                    0 <= k < n && in_copied_segment(start_pos as int, end_pos as int, k)
                        ==> #[trigger] child@[k] == parent1@[k],
                forall|k: int| 0 <= k < i ==> spec_contains(child@, #[trigger] parent2@[k]->Some_0),
                child.fitness == 0,
                child.relative_fitness == Ratio::zero_spec(),
                child.amplified_fitness == Ratio::zero_spec(),
            decreases n - i,
        {
            let node2 = parent2.get_node(i);
            if !child.contains_node(node2) {
                proof {
                    lemma_fpos_upto_contains(parent2@, n as nat);
                    assert(ps.contains(node_pos(node2)));
                    lemma_empty_slot_exists(child@, parent1@, node2);
                }
                let j = first_empty_slot(&child);
                let ghost before = child@;
                proof {
                    lemma_first_none_at(before, 0, j as int);
                }
                child.set_node(j, node2);
                proof {
                    assert(child@ == fill_step(before, node2));
                    assert(child@ == fill_from(seg, parent2@, (i + 1) as nat));
                    assert forall|k: int|
                        0 <= k < n && (#[trigger] child@[k]) is Some implies ps.contains(
                        node_pos(child@[k]->Some_0),
                    ) by {
                        if k != j {
                            assert(child@[k] == before[k]);
                        }
                    }
                    assert forall|k1: int, k2: int|
                        0 <= k1 < k2 < n && child@[k1] is Some && child@[k2] is Some implies
                        node_pos(#[trigger] child@[k1]->Some_0) != node_pos(
                        #[trigger] child@[k2]->Some_0,
                    ) by {
                        if k1 != j && k2 != j {
                            assert(child@[k1] == before[k1] && child@[k2] == before[k2]);
                        } else {
                            let other = if k1 == j {
                                k2
                            } else {
                                k1
                            };
                            assert(child@[other] == before[other]);
                            if node_pos(child@[other]->Some_0) == node_pos(node2) {
                                assert(same_pos(before[other]->Some_0, node2));
                                assert(spec_contains(before, node2));
                            }
                        }
                    }
                    assert forall|k: int| 0 <= k <= i implies spec_contains(
                        child@,
                        #[trigger] parent2@[k]->Some_0,
                    ) by {
                        if k < i {
                            let w = choose|w: int|
                                0 <= w < before.len() && before[w] is Some && same_pos(
                                    #[trigger] before[w]->Some_0,
                                    parent2@[k]->Some_0,
                                );
                            assert(w != j);
                            assert(child@[w] == before[w]);
                        } else {
                            assert(child@[j as int] is Some && same_pos(
                                child@[j as int]->Some_0,
                                node2,
                            ));
                        }
                    }
                }
            } else {
                proof {
                    assert forall|k: int| 0 <= k <= i implies spec_contains(
                        child@,
                        #[trigger] parent2@[k]->Some_0,
                    ) by {}
                    assert(fill_step(child@, node2) == child@);
                    assert(child@ == fill_from(seg, parent2@, (i + 1) as nat));
                }
            }
            i = i + 1;
        }

        // Every stop of parent 2 is now present, so all slots are filled
        // and the child visits exactly the parents' node set.
        proof {
            broadcast use vstd::set::group_set_axioms;

            lemma_fpos_upto_contains(child@, n as nat);
            lemma_fpos_upto_contains(parent2@, n as nat);
            assert forall|q: (int, int)| #[trigger] ps.contains(q) implies pos_set(
                child@,
            ).contains(q) by {
                let k = choose|k: int|
                    0 <= k < n && parent2@[k] is Some && node_pos(#[trigger] parent2@[k]->Some_0)
                        == q;
                assert(spec_contains(child@, parent2@[k]->Some_0));
                let w = choose|w: int|
                    0 <= w < n && child@[w] is Some && same_pos(
                        #[trigger] child@[w]->Some_0,
                        parent2@[k]->Some_0,
                    );
                assert(child@[w] is Some && node_pos(child@[w]->Some_0) == q);
            }
            assert forall|m: int| 0 <= m < n implies (#[trigger] child@[m]) is Some by {
                if child@[m] is None {
                    lemma_fpos_upto_card(child@, n as nat);
                    lemma_fpos_upto_card(parent1@, n as nat);
                    vstd::set_lib::lemma_len_subset(ps, pos_set(child@));
                    assert(false);
                }
            }
            assert(pos_set(child@).subset_of(ps));
            assert(pos_set(child@) =~= ps);
            assert(child@ == crossover_spec(parent1@, parent2@, start_pos as int, end_pos as int));
            if start_pos == end_pos {
                assert(seg =~= unfilled(n as nat));
                lemma_fill_all_empty(parent2@, n as nat);
                assert(child@ =~= parent2@);
            }
        }
        child
    }

    /// Maps a draw `k` from `0..n-1` to a position different from `i`:
    /// the positions below `i` keep their value, the rest shift up by one,
    /// so every position other than `i` is reached exactly once.
    pub fn distinct_partner(k: usize, i: usize, n: usize) -> (j: usize)
        requires
            2 <= n,
            i < n,
            k < n - 1,
        ensures
            j < n,
            j != i,
            j as int == if (k as int) < (i as int) {
                k as int
            } else {
                k as int + 1
            },
    {
        if k < i {
            k
        } else {
            k + 1
        }
    }

    /// Swap mutation: every position independently mutates with
    /// probability `mutation_num / mutation_den`; a triggered position is
    /// swapped with a freshly drawn random position different from it.
    /// Whatever the draws, the tour stays a complete ordering of the same
    /// stops; any swap leaves the fitness stale.
    pub fn mutate(
        rng: &mut rand::rngs::StdRng,
        tour: &mut Tour,
        mutation_num: u64,
        mutation_den: u64,
    )
        requires
            1 <= mutation_den,
            complete(old(tour)@),
            distinct_filled(old(tour)@),
            tour_wf(old(tour)@),
        ensures
            final(tour)@.len() == old(tour)@.len(),
            complete(final(tour)@),
            distinct_filled(final(tour)@),
            tour_wf(final(tour)@),
            pos_set(final(tour)@) == pos_set(old(tour)@),
            (final(tour).fitness == old(tour).fitness && final(tour).relative_fitness == old(
                tour,
            ).relative_fitness && final(tour).amplified_fitness == old(tour).amplified_fitness)
                || (final(tour).fitness == 0 && final(tour).relative_fitness == Ratio::zero_spec()
                && final(tour).amplified_fitness == Ratio::zero_spec()),
    {
        let n = tour.get_tour_len();
        let mut tour_pos1: usize = 0;
        while tour_pos1 < n
            invariant
                tour_pos1 <= n,
                n == tour@.len(),
                complete(tour@),
                distinct_filled(tour@),
                tour_wf(tour@),
                1 <= mutation_den,
                pos_set(tour@) == pos_set(old(tour)@),
                (tour.fitness == old(tour).fitness && tour.relative_fitness == old(
                    tour,
                ).relative_fitness && tour.amplified_fitness == old(tour).amplified_fitness)
                    || (tour.fitness == 0 && tour.relative_fitness == Ratio::zero_spec()
                    && tour.amplified_fitness == Ratio::zero_spec()),
            decreases n - tour_pos1,
        {
            let draw = rand_u64_below(rng, mutation_den);
            if draw < mutation_num && n >= 2 {
                let k = rand_index(rng, n - 1);
                let tour_pos2 = GA::distinct_partner(k, tour_pos1, n);
                proof {
                    lemma_swap_preserves(tour@, tour_pos1 as int, tour_pos2 as int);
                }
                tour.swap_nodes(tour_pos1, tour_pos2);
            }
            tour_pos1 = tour_pos1 + 1;
        }
    }

    /// The single generational transition: breeds `pop_count` children by
    /// selection and crossover, installs them as the next population,
    /// mutates every child in place, and recomputes the fitness
    /// statistics. Every tour of the new generation is a complete
    /// permutation of the same node set as the old one.
    pub fn evolve_population(
        rng: &mut rand::rngs::StdRng,
        pop: Population,
        config: &GaConfig,
    ) -> (new_pop: Population)
        requires
            fitness_initialized(pop),
            config_wf(*config),
        ensures
            fitness_initialized(new_pop),
            new_pop.pop_count == pop.pop_count,
            new_pop.tours@.len() == pop.tours@.len(),
            forall|i: int|
                0 <= i < new_pop.tours@.len() ==> {
                    let t = #[trigger] new_pop.tours@[i];
                    &&& t@.len() == pop.tours@[0]@.len()
                    &&& pos_set(t@) == pos_set(pop.tours@[0]@)
                },
    {
        let pc = pop.pop_count;
        let ghost n0 = pop.tours@[0]@.len();
        let ghost ps = pos_set(pop.tours@[0]@);
        let mut tours: Vec<Tour> = Vec::new();

        // Breed pop_count children from selected parent pairs.
        let mut b: usize = 0;
        while b < pc
            invariant
                b <= pc,
                pc == pop.pop_count,
                fitness_initialized(pop),
                config_wf(*config),
                n0 == pop.tours@[0]@.len(),
                ps == pos_set(pop.tours@[0]@),
                tours@.len() == b,
                forall|i: int|
                    0 <= i < b ==> {
                        let t = #[trigger] tours@[i];
                        &&& t@.len() == n0
                        &&& complete(t@)
                        &&& distinct_filled(t@)
                        &&& tour_wf(t@)
                        &&& pos_set(t@) == ps
                    },
            decreases pc - b,
        {
            let (parent_index1, parent_index2) = match config.strategy {
                SelectionStrategy::Roulette => {
                    let random_value1 = rand_u64_below(rng, ROULETTE_DEN);
                    let random_value2 = rand_u64_below(rng, ROULETTE_DEN);
                    (
                        pop.get_tour_index_roulette(random_value1),
                        pop.get_tour_index_roulette(random_value2),
                    )
                },
                SelectionStrategy::Tournament => {
                    let i1 = pop.get_tour_index_tournament(rng, config.tournament_size);
                    let i2 = pop.get_tour_index_tournament(rng, config.tournament_size);
                    (i1, i2)
                },
            };
            let parent1 = pop.get_tour(parent_index1);
            let parent2 = pop.get_tour(parent_index2);
            proof {
                assert(tour_ready(pop.tours@[parent_index1 as int], pop.tours@[0]));
                assert(tour_ready(pop.tours@[parent_index2 as int], pop.tours@[0]));
            }
            let child: Tour = GA::crossover(rng, parent1, parent2);
            tours.push(child);
            b = b + 1;
        }

        let mut new_population = Population::new(pc);
        new_population.initialize(tours);

        // Mutate the new population a bit to diversify its genetic
        // material.
        let mut i: usize = 0;
        while i < pc
            invariant
                i <= pc,
                pc == new_population.pop_count,
                1 <= pc <= POP_MAX,
                new_population.tours@.len() == pc,
                config_wf(*config),
                2 <= n0 <= MAX_TOUR_LEN,
                forall|k: int|
                    0 <= k < pc ==> {
                        let t = #[trigger] new_population.tours@[k];
                        &&& t@.len() == n0
                        &&& complete(t@)
                        &&& distinct_filled(t@)
                        &&& tour_wf(t@)
                        &&& pos_set(t@) == ps
                    },
            decreases pc - i,
        {
            GA::mutate(
                rng,
                new_population.get_tour_mut(i),
                config.mutation_num,
                config.mutation_den,
            );
            i = i + 1;
        }

        new_population.initialize_fitness();
        new_population
    }

    /// Breeds one child from two parents at freshly drawn random cut
    /// positions. Whatever the draws, the child is a complete permutation
    /// of the parents' shared node set.
    pub fn crossover(rng: &mut rand::rngs::StdRng, parent1: &Tour, parent2: &Tour) -> (child: Tour)
        requires
            parent1@.len() == parent2@.len(),
            1 <= parent1@.len() <= MAX_TOUR_LEN,
            complete(parent1@),
            complete(parent2@),
            distinct_filled(parent1@),
            distinct_filled(parent2@),
            tour_wf(parent1@),
            tour_wf(parent2@),
            pos_set(parent1@) == pos_set(parent2@),
        ensures
            child@.len() == parent1@.len(),
            complete(child@),
            distinct_filled(child@),
            tour_wf(child@),
            pos_set(child@) == pos_set(parent1@),
            child.fitness == 0,
            child.relative_fitness == Ratio::zero_spec(),
            child.amplified_fitness == Ratio::zero_spec(),
    {
        let n = parent1.get_tour_len();
        let start_pos = rand_index(rng, n);
        let end_pos = rand_index(rng, n);
        GA::crossover_with_cuts(parent1, parent2, start_pos, end_pos)
    }
}

} // verus!
