//! A population is the fixed-size group of tours competing and breeding in
//! one generation, together with its aggregate fitness statistics and the
//! selection operators (roulette and tournament).

use vstd::prelude::*;

use crate::node::Node;
use crate::rng::rand_index;
use crate::tour::{
    amplified_num, amplified_of, as_slots, complete, distinct_filled, fitness_of,
    lemma_distance_positive, pos_set, relative_of, slots_in_bounds, spec_distance, tour_wf, Ratio,
    Tour,
};
use crate::{FITNESS_SCALE, MAX_TOUR_LEN, POP_MAX, ROULETTE_DEN, TOTAL_FITNESS_MAX};

verus! {

/// The fixed-size group of tours of one generation.
pub struct Population {
    /// The competing tours, exactly `pop_count` of them once initialized.
    pub tours: Vec<Tour>,
    /// Sum of all tours' fitness, recomputed once per generation.
    pub total_fitness: u128,
    /// The configured population size.
    pub pop_count: usize,
}

/// A tour fit to take part in selection and breeding: complete, over at
/// least two distinct in-bounds stops, visiting exactly the stops of `t0`
/// (the population's shared node set).
pub open spec fn tour_ready(t: Tour, t0: Tour) -> bool {
    &&& t@.len() == t0@.len()
    &&& 2 <= t@.len() <= MAX_TOUR_LEN
    &&& complete(t@)
    &&& distinct_filled(t@)
    &&& tour_wf(t@)
    &&& pos_set(t@) == pos_set(t0@)
}

/// A fully built population: exactly `pop_count` tours, every one of them
/// a complete permutation of the same node set.
pub open spec fn pop_complete(p: Population) -> bool {
    &&& p.tours@.len() == p.pop_count
    &&& 1 <= p.pop_count <= POP_MAX
    &&& forall|i: int| 0 <= i < p.tours@.len() ==> tour_ready(#[trigger] p.tours@[i], p.tours@[0])
}

/// Exact sum of `fitness_of` over the first `k` tours' distances.
pub open spec fn sum_fitness(ts: Seq<Tour>, k: nat) -> int
    decreases k,
{
    if k == 0 {
        0
    } else {
        sum_fitness(ts, (k - 1) as nat) + fitness_of(spec_distance(ts[k - 1]@))
    }
}

/// Exact sum of the stored `fitness` field over the first `k` tours.
pub open spec fn sum_stored_fitness(ts: Seq<Tour>, k: nat) -> int
    decreases k,
{
    if k == 0 {
        0
    } else {
        sum_stored_fitness(ts, (k - 1) as nat) + ts[k - 1].fitness
    }
}

/// Exact sum of the relative-fitness numerators over the first `k` tours.
pub open spec fn sum_relative_num(ts: Seq<Tour>, k: nat) -> int
    decreases k,
{
    if k == 0 {
        0
    } else {
        sum_relative_num(ts, (k - 1) as nat) + ts[k - 1].relative_fitness.num
    }
}

/// Exact sum of the amplified-fitness numerators over the first `k` tours.
pub open spec fn sum_amplified_num(ts: Seq<Tour>, k: nat) -> int
    decreases k,
{
    if k == 0 {
        0
    } else {
        sum_amplified_num(ts, (k - 1) as nat) + ts[k - 1].amplified_fitness.num
    }
}

/// `sum_fitness` only reads the tours' slot sequences, so it is unchanged
/// by updates that keep every view the same.
pub proof fn lemma_sum_fitness_congruence(ts1: Seq<Tour>, ts2: Seq<Tour>, k: nat)
    requires
        k <= ts1.len(),
        k <= ts2.len(),
        forall|j: int| 0 <= j < k ==> (#[trigger] ts1[j])@ == ts2[j]@,
    ensures
        sum_fitness(ts1, k) == sum_fitness(ts2, k),
    decreases k,
{
    if k > 0 {
        lemma_sum_fitness_congruence(ts1, ts2, (k - 1) as nat);
    }
}

/// One tour's fitness figures as `initialize_fitness` leaves them, for a
/// population of `pc` tours with total fitness `total`.
pub open spec fn tour_fitness_set(t: Tour, total: u128, pc: usize) -> bool {
    &&& t.fitness == fitness_of(spec_distance(t@))
    &&& 1 <= t.fitness <= FITNESS_SCALE
    &&& t.relative_fitness == relative_of(t.fitness, total)
    &&& t.amplified_fitness == amplified_of(
        t.fitness,
        total,
        Ratio { num: total as i128, den: pc as i128 },
    )
}

/// A population whose aggregate fitness statistics are consistent with its
/// current tours: the total is the exact sum of every tour's fitness, and
/// every tour's relative and amplified weights are derived from that total.
pub open spec fn fitness_initialized(p: Population) -> bool {
    &&& pop_complete(p)
    &&& p.total_fitness == sum_fitness(p.tours@, p.tours@.len())
    &&& 1 <= p.total_fitness <= TOTAL_FITNESS_MAX
    &&& forall|i: int|
        0 <= i < p.tours@.len() ==> tour_fitness_set(
            #[trigger] p.tours@[i],
            p.total_fitness,
            p.pop_count,
        )
}

/// The stored fitness fields sum to the same value as the recomputed
/// fitness of each tour, once every stored field matches its tour.
pub proof fn lemma_sum_stored_matches(ts: Seq<Tour>, k: nat)
    requires
        k <= ts.len(),
        forall|j: int|
            0 <= j < k ==> (#[trigger] ts[j]).fitness == fitness_of(spec_distance(ts[j]@)),
    ensures
        sum_stored_fitness(ts, k) == sum_fitness(ts, k),
    decreases k,
{
    if k > 0 {
        lemma_sum_stored_matches(ts, (k - 1) as nat);
    }
}

/// The relative-fitness numerators are the stored fitness values, so their
/// sums agree.
pub proof fn lemma_sum_relative_matches(ts: Seq<Tour>, k: nat, total: u128, pc: usize)
    requires
        k <= ts.len(),
        forall|j: int| 0 <= j < k ==> tour_fitness_set(#[trigger] ts[j], total, pc),
    ensures
        sum_relative_num(ts, k) == sum_stored_fitness(ts, k),
    decreases k,
{
    if k > 0 {
        lemma_sum_relative_matches(ts, (k - 1) as nat, total, pc);
    }
}

/// Each amplified numerator is `3 * pc * fitness - 2 * total`, so a prefix
/// of `k` of them sums to `3 * pc * (sum of fitness) - 2 * k * total`.
pub proof fn lemma_sum_amplified(ts: Seq<Tour>, k: nat, total: u128, pc: usize)
    requires
        k <= ts.len(),
        1 <= pc <= POP_MAX,
        total <= TOTAL_FITNESS_MAX,
        forall|j: int| 0 <= j < k ==> tour_fitness_set(#[trigger] ts[j], total, pc),
    ensures
        sum_amplified_num(ts, k) == 3 * (pc as int) * sum_stored_fitness(ts, k) - 2 * (k as int)
            * (total as int),
    decreases k,
{
    if k == 0 {
        assert(3 * (pc as int) * sum_stored_fitness(ts, 0) == 0) by (nonlinear_arith)
            requires
                sum_stored_fitness(ts, 0) == 0,
        ;
        assert(2 * (k as int) * (total as int) == 0) by (nonlinear_arith)
            requires
                k == 0,
        ;
    } else {
        lemma_sum_amplified(ts, (k - 1) as nat, total, pc);
        let t = ts[k - 1];
        let f = t.fitness as int;
        let p = pc as int;
        let tot = total as int;
        let a = amplified_num(t.fitness, Ratio { num: total as i128, den: pc as i128 });
        assert(a == 3 * p * f - 2 * tot && -(2 * tot) <= a <= 3 * p * f && p * f
            <= 10_000_000_000_000_000_000) by (nonlinear_arith)
            requires
                a == p * f + 2 * (p * f - tot),
                1 <= p <= 10_000,
                0 <= f <= 1_000_000_000_000_000,
                0 <= tot <= 10_000_000_000_000_000_000,
        ;
        assert(t.amplified_fitness.num == a);
        let s1 = sum_stored_fitness(ts, (k - 1) as nat);
        assert(3 * p * (s1 + f) == 3 * p * s1 + 3 * p * f) by (nonlinear_arith);
        assert(2 * (k as int) * tot == 2 * (k - 1) * tot + 2 * tot) by (nonlinear_arith);
    }
}

/// After `initialize_fitness`, the aggregate statistics are exactly
/// consistent: the total equals the sum of the stored fitness values, the
/// relative weights sum to exactly one (their numerators sum to the shared
/// denominator `total`), and the amplified weights likewise sum to exactly
/// one over their shared denominator `pop_count * total`.
pub proof fn lemma_population_fitness_consistent(p: Population)
    requires
        fitness_initialized(p),
    ensures
        p.total_fitness == sum_stored_fitness(p.tours@, p.tours@.len()),
        sum_relative_num(p.tours@, p.tours@.len()) == p.total_fitness,
        forall|i: int|
            0 <= i < p.tours@.len() ==> (#[trigger] p.tours@[i]).relative_fitness.den
                == p.total_fitness,
        sum_amplified_num(p.tours@, p.tours@.len()) == (p.pop_count as int) * (
        p.total_fitness as int),
        forall|i: int|
            0 <= i < p.tours@.len() ==> (#[trigger] p.tours@[i]).amplified_fitness.den == (
            p.pop_count as int) * (p.total_fitness as int),
    {
    let ts = p.tours@;
    let k = ts.len();
    let tot = p.total_fitness as int;
    let pc = p.pop_count as int;
    assert forall|j: int| 0 <= j < k implies (#[trigger] ts[j]).fitness == fitness_of(
        spec_distance(ts[j]@),
    ) by {
        assert(tour_fitness_set(ts[j], p.total_fitness, p.pop_count));
    }
    lemma_sum_stored_matches(ts, k);
    lemma_sum_relative_matches(ts, k, p.total_fitness, p.pop_count);
    lemma_sum_amplified(ts, k, p.total_fitness, p.pop_count);
    assert(3 * pc * tot - 2 * pc * tot == pc * tot) by (nonlinear_arith);
    assert forall|i: int| 0 <= i < k implies (#[trigger] ts[i]).amplified_fitness.den == pc
        * tot by {
        assert(tour_fitness_set(ts[i], p.total_fitness, p.pop_count));
        assert(pc * tot <= 100_000_000_000_000_000_000_000) by (nonlinear_arith)
            requires
                1 <= pc <= 10_000,
                0 <= tot <= 10_000_000_000_000_000_000,
        ;
    }
}

/// Whether the cumulative amplified weight of tours `0..=i` exceeds the
/// uniform draw `u / ROULETTE_DEN`, both sides scaled by the positive
/// shared denominator `pop_count * total_fitness`.
pub open spec fn roulette_crossed(p: Population, u: u64, i: int) -> bool {
    (u as int) * (p.pop_count as int) * (p.total_fitness as int) < (ROULETTE_DEN as int)
        * sum_amplified_num(p.tours@, (i + 1) as nat)
}

/// The roulette outcome: `i` is the first index whose cumulative amplified
/// weight exceeds the draw.
pub open spec fn roulette_picks(p: Population, u: u64, i: int) -> bool {
    &&& roulette_crossed(p, u, i)
    &&& forall|j: int| 0 <= j < i ==> !roulette_crossed(p, u, j)
}

/// The running (index, fitness) winner of a tournament over the first `k`
/// sampled indices, starting from the fallback `(0, 0)`: a later sample
/// displaces the winner only with strictly higher stored fitness, so the
/// first of equally fit samples wins.
pub open spec fn best_sampled(ts: Seq<Tour>, idxs: Seq<usize>, k: nat) -> (int, int)
    decreases k,
{
    if k == 0 {
        (0, 0)
    } else {
        let prev = best_sampled(ts, idxs, (k - 1) as nat);
        if ts[idxs[k - 1] as int].fitness > prev.1 {
            (idxs[k - 1] as int, ts[idxs[k - 1] as int].fitness as int)
        } else {
            prev
        }
    }
}

/// The tournament winner is a valid index whose fitness is at least that
/// of every sampled tour.
pub proof fn lemma_best_sampled(ts: Seq<Tour>, idxs: Seq<usize>, k: nat)
    requires
        k <= idxs.len(),
        1 <= ts.len(),
        forall|j: int| 0 <= j < k ==> (#[trigger] idxs[j]) < ts.len(),
    ensures
        ({
            let b = best_sampled(ts, idxs, k);
            &&& 0 <= b.0 < ts.len()
            &&& 0 <= b.1
            &&& b.1 <= ts[b.0].fitness
            &&& (b.0 != 0 ==> 0 < b.1)
            &&& forall|j: int|
                0 <= j < k ==> (ts[#[trigger] idxs[j] as int].fitness as int) <= b.1
        }),
    decreases k,
{
    if k > 0 {
        lemma_best_sampled(ts, idxs, (k - 1) as nat);
    }
}

impl Population {
    /// Creates an empty population configured for `pop_count` tours.
    pub fn new(pop_count: usize) -> (p: Population)
        requires
            1 <= pop_count <= POP_MAX,
        ensures
            p.tours@.len() == 0,
            p.total_fitness == 0,
            p.pop_count == pop_count,
    {
        Population { total_fitness: 0, tours: Vec::new(), pop_count }
    }

    /// Installs a freshly bred generation of exactly `pop_count` tours into
    /// an empty population. Fitness is intentionally not yet computed.
    pub fn initialize(&mut self, tours: Vec<Tour>)
        requires
            old(self).tours@.len() == 0,
            tours@.len() == old(self).pop_count,
        ensures
            final(self).tours@ == tours@,
            final(self).total_fitness == old(self).total_fitness,
            final(self).pop_count == old(self).pop_count,
    {
        self.tours = tours;
    }

    /// Returns a reference to the tour at `index`.
    pub fn get_tour(&self, index: usize) -> (t: &Tour)
        requires
            index < self.tours@.len(),
        ensures
            *t == self.tours@[index as int],
    {
        &self.tours[index]
    }

    /// Returns the tour at `index` in mutable form.
    pub fn get_tour_mut(&mut self, index: usize) -> (t: &mut Tour)
        requires
            index < old(self).tours@.len(),
        ensures
            *t == old(self).tours@[index as int],
            final(self).tours@ == old(self).tours@.update(index as int, *final(t)),
            final(self).total_fitness == old(self).total_fitness,
            final(self).pop_count == old(self).pop_count,
    {
        &mut self.tours[index]
    }

    /// Recomputes `total_fitness` as the exact sum of every tour's fitness,
    /// then sets every tour's relative and amplified fitness from that
    /// total and the exact average `total / pop_count`. Must be called once
    /// per generation, after all tours are complete and stable.
    pub fn initialize_fitness(&mut self)
        requires
            pop_complete(*old(self)),
        ensures
            fitness_initialized(*final(self)),
            final(self).pop_count == old(self).pop_count,
            final(self).tours@.len() == old(self).tours@.len(),
            forall|i: int|
                0 <= i < old(self).tours@.len() ==> (#[trigger] final(self).tours@[i])@ == old(
                    self,
                ).tours@[i]@,
    {
        let ghost orig = old(self).tours@;
        let pc = self.pop_count;
        let mut total: u128 = 0;
        let mut i: usize = 0;
        while i < pc
            invariant
                i <= pc,
                pc == self.pop_count,
                self.tours@.len() == pc,
                pop_complete(*old(self)),
                orig == old(self).tours@,
                self.pop_count == old(self).pop_count,
                forall|j: int| 0 <= j < pc ==> (#[trigger] self.tours@[j])@ == orig[j]@,
                forall|j: int|
                    0 <= j < i ==> {
                        let t = #[trigger] self.tours@[j];
                        &&& t.fitness == fitness_of(spec_distance(t@))
                        &&& 1 <= t.fitness <= FITNESS_SCALE
                    },
                total == sum_fitness(self.tours@, i as nat),
                i <= total <= i * (FITNESS_SCALE as int),
            decreases pc - i,
        {
            let ghost before = self.tours@;
            proof {
                assert(tour_ready(orig[i as int], orig[0]));
                lemma_distance_positive(self.tours@[i as int]@);
            }
            self.tours[i].set_fitness();
            proof {
                lemma_sum_fitness_congruence(before, self.tours@, i as nat);
            }
            total = total + (self.tours[i].fitness as u128);
            i = i + 1;
        }
        self.total_fitness = total;
        let ghost mid = self.tours@;
        let average_fitness = Ratio { num: total as i128, den: pc as i128 };
        let mut i: usize = 0;
        while i < pc
            invariant
                i <= pc,
                pc == self.pop_count,
                self.tours@.len() == pc,
                pop_complete(*old(self)),
                orig == old(self).tours@,
                self.pop_count == old(self).pop_count,
                self.total_fitness == total,
                1 <= total <= TOTAL_FITNESS_MAX,
                average_fitness == (Ratio { num: total as i128, den: pc as i128 }),
                forall|j: int| 0 <= j < pc ==> (#[trigger] self.tours@[j])@ == orig[j]@,
                forall|j: int| 0 <= j < pc ==> (#[trigger] self.tours@[j]).fitness == mid[j].fitness,
                mid.len() == pc,
                total == sum_fitness(mid, pc as nat),
                forall|j: int|
                    0 <= j < pc ==> {
                        let t = #[trigger] mid[j];
                        &&& t.fitness == fitness_of(spec_distance(t@))
                        &&& 1 <= t.fitness <= FITNESS_SCALE
                    },
                forall|j: int| 0 <= j < pc ==> (#[trigger] mid[j])@ == orig[j]@,
                forall|j: int|
                    0 <= j < i ==> tour_fitness_set(#[trigger] self.tours@[j], total, pc),
            decreases pc - i,
        {
            proof {
                assert(mid[i as int].fitness == self.tours@[i as int].fitness);
            }
            self.tours[i].set_relative_fitness(total, average_fitness);
            i = i + 1;
        }
        proof {
            lemma_sum_fitness_congruence(mid, self.tours@, pc as nat);
            assert forall|j: int| 0 <= j < pc implies tour_ready(
                #[trigger] self.tours@[j],
                self.tours@[0],
            ) by {
                assert(tour_ready(orig[j], orig[0]));
                assert(self.tours@[j]@ == orig[j]@ && self.tours@[0]@ == orig[0]@);
            }
        }
    }

    /// Builds `pop_count` independently shuffled tours over `node_list` and
    /// computes their fitness: the only entry point for generation zero.
    pub fn initialize_from_nodes(
        &mut self,
        rng: &mut rand::rngs::StdRng,
        node_list: &Vec<Node>,
    )
        requires
            old(self).tours@.len() == 0,
            1 <= old(self).pop_count <= POP_MAX,
            2 <= node_list@.len() <= MAX_TOUR_LEN,
            slots_in_bounds(as_slots(node_list@)),
            distinct_filled(as_slots(node_list@)),
        ensures
            fitness_initialized(*final(self)),
            final(self).pop_count == old(self).pop_count,
            forall|i: int|
                0 <= i < final(self).tours@.len() ==> {
                    let t = #[trigger] final(self).tours@[i];
                    &&& t@.len() == node_list@.len()
                    &&& pos_set(t@) == pos_set(as_slots(node_list@))
                },
    {
        let pc = self.pop_count;
        let n = node_list.len();
        let mut i: usize = 0;
        while i < pc
            invariant
                i <= pc,
                pc == self.pop_count,
                1 <= pc <= POP_MAX,
                self.tours@.len() == i,
                n == node_list@.len(),
                2 <= n <= MAX_TOUR_LEN,
                slots_in_bounds(as_slots(node_list@)),
                distinct_filled(as_slots(node_list@)),
                self.pop_count == old(self).pop_count,
                forall|j: int|
                    0 <= j < i ==> {
                        let t = #[trigger] self.tours@[j];
                        &&& t@.len() == n
                        &&& complete(t@)
                        &&& distinct_filled(t@)
                        &&& tour_wf(t@)
                        &&& pos_set(t@) == pos_set(as_slots(node_list@))
                    },
            decreases pc - i,
        {
            let mut new_tour = Tour::new(n);
            new_tour.generate_individual(rng, node_list);
            self.tours.push(new_tour);
            i = i + 1;
        }
        proof {
            assert forall|j: int| 0 <= j < pc implies tour_ready(
                #[trigger] self.tours@[j],
                self.tours@[0],
            ) by {}
        }
        self.initialize_fitness();
    }

    /// Roulette selection: walks the tours in storage order accumulating
    /// their amplified fitness and returns the first index whose cumulative
    /// weight exceeds the uniform draw `random_value / ROULETTE_DEN`. A
    /// population whose total fitness is zero deterministically yields
    /// index 0 as a safe fallback.
    pub fn get_tour_index_roulette(&self, random_value: u64) -> (idx: usize)
        requires
            random_value < ROULETTE_DEN,
            self.total_fitness == 0 || fitness_initialized(*self),
        ensures
            self.total_fitness == 0 ==> idx == 0,
            self.total_fitness != 0 ==> idx < self.pop_count && roulette_picks(
                *self,
                random_value,
                idx as int,
            ),
    {
        if self.total_fitness == 0 {
            return 0;
        }
        proof {
            lemma_population_fitness_consistent(*self);
        }
        let pc = self.pop_count;
        let total = self.total_fitness;
        proof {
            assert(0 < (pc as i128) * (total as i128) <= 100_000_000_000_000_000_000_000i128)
                by (nonlinear_arith)
                requires
                    1 <= pc <= 10_000,
                    1 <= total <= 10_000_000_000_000_000_000,
            ;
        }
        let pt: i128 = (pc as i128) * (total as i128);
        proof {
            assert((random_value as i128) * pt <= 1_000_000_000i128 * pt && 0 <= (
            random_value as i128) * pt) by (nonlinear_arith)
                requires
                    0 <= random_value < 1_000_000_000u64,
                    0 < pt,
            ;
        }
        let u_scaled: i128 = (random_value as i128) * pt;
        let mut relative_total: i128 = 0;
        let mut i: usize = 0;
        while i < pc
            invariant
                i <= pc,
                pc == self.pop_count,
                total == self.total_fitness,
                1 <= total,
                fitness_initialized(*self),
                self.tours@.len() == pc,
                pt == (pc as int) * (total as int),
                0 < pt <= 100_000_000_000_000_000_000_000i128,
                u_scaled == (random_value as int) * pt,
                0 <= u_scaled,
                relative_total == sum_amplified_num(self.tours@, i as nat),
                -2 * (i as int) * 10_000_000_000_000_000_000 <= relative_total <= 3 * (i as int)
                    * 10_000_000_000_000_000_000,
                forall|j: int| 0 <= j < i ==> !roulette_crossed(*self, random_value, j),
            decreases pc - i,
        {
            let t = self.get_tour(i);
            proof {
                assert(tour_fitness_set(self.tours@[i as int], total, pc));
                let f = t.fitness as int;
                assert(-2 * (total as int) <= amplified_num(
                    t.fitness,
                    Ratio { num: total as i128, den: pc as i128 },
                ) <= 30_000_000_000_000_000_000i128 && -2 * ((i as int) + 1)
                    * 10_000_000_000_000_000_000 <= relative_total + amplified_num(
                    t.fitness,
                    Ratio { num: total as i128, den: pc as i128 },
                ) <= 3 * ((i as int) + 1) * 10_000_000_000_000_000_000) by (nonlinear_arith)
                    requires
                        amplified_num(
                            t.fitness,
                            Ratio { num: total as i128, den: pc as i128 },
                        ) == (pc as int) * f + 2 * ((pc as int) * f - (total as int)),
                        1 <= pc <= 10_000,
                        0 <= f <= 1_000_000_000_000_000,
                        1 <= total <= 10_000_000_000_000_000_000,
                        -2 * (i as int) * 10_000_000_000_000_000_000 <= relative_total <= 3 * (
                        i as int) * 10_000_000_000_000_000_000,
                        i < pc,
                ;
            }
            relative_total = relative_total + t.amplified_fitness.num;
            proof {
                assert(-100_000_000_000_000_000_000_000_000i128 <= relative_total
                    <= 100_000_000_000_000_000_000_000_000i128) by (nonlinear_arith)
                    requires
                        -2 * ((i as int) + 1) * 10_000_000_000_000_000_000 <= relative_total <= 3
                            * ((i as int) + 1) * 10_000_000_000_000_000_000,
                        i < 10_000usize,
                ;
                assert((1_000_000_000i128) * relative_total
                    <= 200_000_000_000_000_000_000_000_000_000_000_000i128 && (1_000_000_000i128)
                    * relative_total >= -200_000_000_000_000_000_000_000_000_000_000_000i128)
                    by (nonlinear_arith)
                    requires
                        -100_000_000_000_000_000_000_000_000i128 <= relative_total
                            <= 100_000_000_000_000_000_000_000_000i128,
                ;
            }
            proof {
                assert((random_value as int) * (pc as int) * (total as int) == u_scaled)
                    by (nonlinear_arith)
                    requires
                        u_scaled == (random_value as int) * pt,
                        pt == (pc as int) * (total as int),
                ;
            }
            if 1_000_000_000i128 * relative_total > u_scaled {
                return i;
            }
            i = i + 1;
        }
        // The walk always stops: the amplified weights sum to exactly
        // `pop_count * total_fitness`, and the draw is a strict fraction of
        // that, so at the latest the last index crosses it.
        proof {
            assert(!roulette_crossed(*self, random_value, pc - 1));
            lemma_population_fitness_consistent(*self);
            assert(sum_amplified_num(self.tours@, pc as nat) == pt);
            assert((random_value as int) * (pc as int) * (total as int) == (random_value as int)
                * pt) by (nonlinear_arith)
                requires
                    pt == (pc as int) * (total as int),
            ;
            assert((random_value as int) * pt < (1_000_000_000i128) * pt) by (nonlinear_arith)
                requires
                    0 <= random_value < 1_000_000_000u64,
                    0 < pt,
            ;
            assert(false);
        }
        0
    }

    /// Draws `amount` tour indices uniformly at random, with replacement.
    pub fn get_random_tour_indices(
        &self,
        rng: &mut rand::rngs::StdRng,
        amount: usize,
    ) -> (v: Vec<usize>)
        requires
            1 <= self.pop_count,
        ensures
            v@.len() == amount,
            forall|i: int| 0 <= i < amount ==> #[trigger] v@[i] < self.pop_count,
    {
        let mut tour_index: Vec<usize> = Vec::new();
        let mut i: usize = 0;
        while i < amount
            invariant
                i <= amount,
                tour_index@.len() == i,
                1 <= self.pop_count,
                forall|j: int| 0 <= j < i ==> #[trigger] tour_index@[j] < self.pop_count,
            decreases amount - i,
        {
            let num = rand_index(rng, self.pop_count);
            tour_index.push(num);
            i = i + 1;
        }
        tour_index
    }

    /// Returns the index of the best tour among the sampled indices: the
    /// first sampled index attaining the highest stored fitness, or index 0
    /// when every sampled tour has zero (stale) fitness.
    pub fn best_of_indices(&self, tour_index: &Vec<usize>) -> (r: usize)
        requires
            self.tours@.len() == self.pop_count,
            1 <= self.pop_count,
            forall|i: int| 0 <= i < tour_index@.len() ==> #[trigger] tour_index@[i]
                < self.pop_count,
        ensures
            r < self.pop_count,
            r as int == best_sampled(self.tours@, tour_index@, tour_index@.len()).0,
            r == 0 || self.tours@[r as int].fitness > 0,
            forall|j: int|
                0 <= j < tour_index@.len() ==> self.tours@[#[trigger] tour_index@[j] as int].fitness
                    <= self.tours@[r as int].fitness,
    {
        let k = tour_index.len();
        let mut result: usize = 0;
        let mut result_fitness: u64 = 0;
        let mut i: usize = 0;
        while i < k
            invariant
                i <= k,
                k == tour_index@.len(),
                self.tours@.len() == self.pop_count,
                1 <= self.pop_count,
                forall|j: int| 0 <= j < k ==> #[trigger] tour_index@[j] < self.pop_count,
                result < self.pop_count,
                best_sampled(self.tours@, tour_index@, i as nat) == (
                    result as int,
                    result_fitness as int,
                ),
            decreases k - i,
        {
            let idx = tour_index[i];
            if self.tours[idx].fitness > result_fitness {
                result = idx;
                result_fitness = self.tours[idx].fitness;
            }
            i = i + 1;
        }
        proof {
            lemma_best_sampled(self.tours@, tour_index@, k as nat);
        }
        result
    }

    /// Tournament selection: samples `tournament_size` tours uniformly at
    /// random, with replacement, and returns the index of the fittest tour
    /// in the sample.
    pub fn get_tour_index_tournament(
        &self,
        rng: &mut rand::rngs::StdRng,
        tournament_size: usize,
    ) -> (r: usize)
        requires
            self.tours@.len() == self.pop_count,
            1 <= self.pop_count,
        ensures
            r < self.pop_count,
            r == 0 || self.tours@[r as int].fitness > 0,
    {
        let tour_index = self.get_random_tour_indices(rng, tournament_size);
        self.best_of_indices(&tour_index)
    }

    /// Returns the fittest (shortest) tour: the first tour attaining the
    /// maximum stored fitness, scanned in storage order.
    pub fn get_fittest(&self) -> (t: &Tour)
        requires
            1 <= self.tours@.len(),
        ensures
            exists|i0: int|
                {
                    &&& 0 <= i0 < self.tours@.len()
                    &&& *t == self.tours@[i0]
                    &&& forall|j: int|
                        0 <= j < self.tours@.len() ==> (#[trigger] self.tours@[j]).fitness
                            <= self.tours@[i0].fitness
                    &&& forall|j: int|
                        0 <= j < i0 ==> (#[trigger] self.tours@[j]).fitness
                            < self.tours@[i0].fitness
                },
    {
        let n = self.tours.len();
        let mut max_index: usize = 0;
        let mut i: usize = 0;
        while i < n
            invariant
                i <= n,
                n == self.tours@.len(),
                1 <= n,
                max_index < n,
                forall|j: int|
                    0 <= j < i ==> (#[trigger] self.tours@[j]).fitness
                        <= self.tours@[max_index as int].fitness,
                forall|j: int|
                    0 <= j < max_index ==> (#[trigger] self.tours@[j]).fitness
                        < self.tours@[max_index as int].fitness,
                max_index < i || max_index == 0,
            decreases n - i,
        {
            if self.tours[i].fitness > self.tours[max_index].fitness {
                max_index = i;
            }
            i = i + 1;
        }
        &self.tours[max_index]
    }
}

} // verus!
