//! A tour is one candidate solution: an ordering of all problem nodes,
//! together with the fitness figures derived from it.
//!
//! While a tour is being bred by crossover it may transiently hold empty
//! slots; a tour is *complete* once every slot holds a node. Fitness is
//! defined only for complete tours of positive total distance.

use vstd::prelude::*;

use crate::isqrt::{isqrt, isqrt_spec, lemma_isqrt_spec};
use crate::node::{node_in_bounds, node_pos, same_pos, Node};
use crate::{AMPLIFY_FACTOR, DIST_MAX, EDGE_MAX, FITNESS_SCALE, MAX_TOUR_LEN, POP_MAX, TOTAL_FITNESS_MAX};

verus! {

/// An exact rational number `num / den`, used for the relative and
/// amplified fitness weights.
#[derive(Clone, Copy, PartialEq, Eq, Structural, Debug)]
pub struct Ratio {
    pub num: i128,
    pub den: i128,
}

impl Ratio {
    /// The rational zero, also the "stale fitness" marker.
    pub open spec fn zero_spec() -> Ratio {
        Ratio { num: 0, den: 1 }
    }

    /// Constructs the rational zero.
    pub fn zero() -> (r: Ratio)
        ensures
            r == Ratio::zero_spec(),
    {
        Ratio { num: 0, den: 1 }
    }
}

/// One candidate ordering of the problem nodes. A `None` slot is an
/// unfilled position during breeding; complete tours have no `None`s.
pub struct Tour {
    /// The slot sequence; `None` marks a not-yet-filled position.
    pub slots: Vec<Option<Node>>,
    /// Scaled inverse distance: `FITNESS_SCALE / distance`, or 0 when stale.
    pub fitness: u64,
    /// This tour's fitness over the population's total fitness.
    pub relative_fitness: Ratio,
    /// The amplified selection weight actually used by roulette selection.
    pub amplified_fitness: Ratio,
}

impl View for Tour {
    type V = Seq<Option<Node>>;

    closed spec fn view(&self) -> Seq<Option<Node>> {
        self.slots@
    }
}

/// Every slot of the sequence holds a node.
pub open spec fn complete(s: Seq<Option<Node>>) -> bool {
    forall|j: int| 0 <= j < s.len() ==> s[j] is Some
}

/// Every node held by a slot has in-range coordinates.
pub open spec fn slots_in_bounds(s: Seq<Option<Node>>) -> bool {
    forall|j: int| 0 <= j < s.len() && s[j] is Some ==> node_in_bounds(#[trigger] s[j]->Some_0)
}

/// No two filled slots hold the same stop (by coordinates).
pub open spec fn distinct_filled(s: Seq<Option<Node>>) -> bool {
    forall|j: int, k: int|
        0 <= j < k < s.len() && s[j] is Some && s[k] is Some ==> node_pos(#[trigger] s[j]->Some_0)
            != node_pos(#[trigger] s[k]->Some_0)
}

/// Structural well-formedness of a tour's slot sequence.
pub open spec fn tour_wf(s: Seq<Option<Node>>) -> bool {
    &&& s.len() <= MAX_TOUR_LEN
    &&& slots_in_bounds(s)
}

/// Whether some filled slot holds `n`'s coordinates.
pub open spec fn spec_contains(s: Seq<Option<Node>>, n: Node) -> bool {
    exists|j: int| 0 <= j < s.len() && s[j] is Some && same_pos(#[trigger] s[j]->Some_0, n)
}

/// The set of coordinate pairs held by the first `k` slots.
pub open spec fn fpos_upto(s: Seq<Option<Node>>, k: nat) -> Set<(int, int)>
    decreases k,
{
    if k == 0 {
        Set::empty()
    } else {
        let r = fpos_upto(s, (k - 1) as nat);
        if s[k - 1] is Some {
            r.insert(node_pos(s[k - 1]->Some_0))
        } else {
            r
        }
    }
}

/// The set of coordinate pairs held by a tour's filled slots.
pub open spec fn pos_set(s: Seq<Option<Node>>) -> Set<(int, int)> {
    fpos_upto(s, s.len())
}

/// A coordinate pair is in `fpos_upto(s, k)` exactly when one of the first
/// `k` slots holds it.
pub proof fn lemma_fpos_upto_contains(s: Seq<Option<Node>>, k: nat)
    requires
        k <= s.len(),
    ensures
        forall|p: (int, int)|
            #[trigger] fpos_upto(s, k).contains(p) <==> (exists|j: int|
                0 <= j < k && s[j] is Some && node_pos(#[trigger] s[j]->Some_0) == p),
    decreases k,
{
    broadcast use vstd::set::group_set_axioms;

    if k == 0 {
    } else {
        lemma_fpos_upto_contains(s, (k - 1) as nat);
        assert forall|p: (int, int)| #[trigger]
            fpos_upto(s, k).contains(p) implies (exists|j: int|
            0 <= j < k && s[j] is Some && node_pos(#[trigger] s[j]->Some_0) == p) by {
            if fpos_upto(s, (k - 1) as nat).contains(p) {
                let j = choose|j: int|
                    0 <= j < k - 1 && s[j] is Some && node_pos(#[trigger] s[j]->Some_0) == p;
                assert(0 <= j < k && s[j] is Some && node_pos(s[j]->Some_0) == p);
            } else {
                assert(s[k - 1] is Some && node_pos(s[k - 1]->Some_0) == p);
            }
        }
        assert forall|p: (int, int)|
            (exists|j: int|
                0 <= j < k && s[j] is Some && node_pos(#[trigger] s[j]->Some_0)
                    == p) implies #[trigger] fpos_upto(s, k).contains(p) by {
            let j = choose|j: int|
                0 <= j < k && s[j] is Some && node_pos(#[trigger] s[j]->Some_0) == p;
            if j < k - 1 {
                assert(fpos_upto(s, (k - 1) as nat).contains(p));
            }
        }
    }
}

/// Cardinality facts about `fpos_upto`: it is finite, never larger than the
/// prefix it covers, exactly the prefix length when the prefix is fully
/// filled with distinct stops, and strictly smaller when a slot is empty.
pub proof fn lemma_fpos_upto_card(s: Seq<Option<Node>>, k: nat)
    requires
        k <= s.len(),
    ensures
        fpos_upto(s, k).finite(),
        fpos_upto(s, k).len() <= k,
        distinct_filled(s) && (forall|j: int| 0 <= j < k ==> s[j] is Some) ==> fpos_upto(
            s,
            k,
        ).len() == k,
        (exists|j: int| 0 <= j < k && s[j] is None) ==> fpos_upto(s, k).len() < k,
    decreases k,
{
    broadcast use vstd::set::group_set_axioms;

    if k == 0 {
    } else {
        lemma_fpos_upto_card(s, (k - 1) as nat);
        lemma_fpos_upto_contains(s, (k - 1) as nat);
        if distinct_filled(s) && (forall|j: int| 0 <= j < k ==> s[j] is Some) {
            let p = node_pos(s[k - 1]->Some_0);
            if fpos_upto(s, (k - 1) as nat).contains(p) {
                let j = choose|j: int|
                    0 <= j < k - 1 && s[j] is Some && node_pos(#[trigger] s[j]->Some_0) == p;
                assert(false);
            }
        }
        if exists|j: int| 0 <= j < k && s[j] is None {
            let j0 = choose|j: int| 0 <= j < k && s[j] is None;
            if j0 == k - 1 {
            } else {
                assert(exists|j: int| 0 <= j < k - 1 && s[j] is None);
            }
        }
    }
}

/// The squared Euclidean length of the edge between two nodes.
pub open spec fn edge_sq(a: Node, b: Node) -> int {
    (a.x - b.x) * (a.x - b.x) + (a.y - b.y) * (a.y - b.y)
}

/// The integer-truncated Euclidean length of the edge between two nodes.
pub open spec fn edge_dist(a: Node, b: Node) -> int {
    isqrt_spec(edge_sq(a, b) as nat) as int
}

/// The slot index that follows `i` on the closed cycle.
pub open spec fn next_on_cycle(s: Seq<Option<Node>>, i: int) -> int {
    if i + 1 < s.len() {
        i + 1
    } else {
        0
    }
}

/// The length of the cycle edge leaving slot `i`.
pub open spec fn tour_edge(s: Seq<Option<Node>>, i: int) -> int {
    edge_dist(s[i]->Some_0, s[next_on_cycle(s, i)]->Some_0)
}

/// Total length of the cycle edges leaving the first `k` slots.
pub open spec fn dist_upto(s: Seq<Option<Node>>, k: nat) -> int
    decreases k,
{
    if k == 0 {
        0
    } else {
        dist_upto(s, (k - 1) as nat) + tour_edge(s, k - 1)
    }
}

/// The total distance of a complete tour: the sum, over the closed cycle,
/// of the integer-truncated distance between consecutive nodes.
pub open spec fn spec_distance(s: Seq<Option<Node>>) -> int {
    dist_upto(s, s.len())
}

/// A plain node list seen as a fully filled slot sequence.
pub open spec fn as_slots(l: Seq<Node>) -> Seq<Option<Node>> {
    l.map_values(|n: Node| Some(n))
}

/// Swapping two filled slots keeps a tour complete, keeps its stops
/// distinct and in bounds, and does not change the set of stops it visits.
pub proof fn lemma_swap_preserves(s: Seq<Option<Node>>, i: int, j: int)
    requires
        0 <= i < s.len(),
        0 <= j < s.len(),
        complete(s),
    ensures
        ({
            let t = s.update(i, s[j]).update(j, s[i]);
            &&& complete(t)
            &&& slots_in_bounds(s) ==> slots_in_bounds(t)
            &&& distinct_filled(s) ==> distinct_filled(t)
            &&& pos_set(t) == pos_set(s)
        }),
{
    let t = s.update(i, s[j]).update(j, s[i]);
    assert(t.len() == s.len());
    assert forall|k: int| 0 <= k < t.len() implies t[k] is Some by {
        if k == j {
        } else if k == i {
        }
    }
    if distinct_filled(s) {
        assert forall|a: int, b: int|
            0 <= a < b < t.len() && t[a] is Some && t[b] is Some implies node_pos(
            #[trigger] t[a]->Some_0,
        ) != node_pos(#[trigger] t[b]->Some_0) by {
            let a0 = if a == j { i } else if a == i { j } else { a };
            let b0 = if b == j { i } else if b == i { j } else { b };
            assert(t[a] == s[a0] && t[b] == s[b0]);
            if a0 != b0 {
                assert(node_pos(s[a0]->Some_0) != node_pos(s[b0]->Some_0));
            } else {
                assert(a == j && b == i || a == i && b == j);
                assert(false);
            }
        }
    }
    lemma_fpos_upto_contains(s, s.len());
    lemma_fpos_upto_contains(t, t.len());
    assert forall|p: (int, int)| #[trigger] pos_set(t).contains(p) implies pos_set(s).contains(
        p,
    ) by {
        let k = choose|k: int| 0 <= k < t.len() && t[k] is Some && node_pos(t[k]->Some_0) == p;
        let k0 = if k == j { i } else if k == i { j } else { k };
        assert(s[k0] is Some && node_pos(s[k0]->Some_0) == p);
    }
    assert forall|p: (int, int)| #[trigger] pos_set(s).contains(p) implies pos_set(t).contains(
        p,
    ) by {
        let k = choose|k: int| 0 <= k < s.len() && s[k] is Some && node_pos(s[k]->Some_0) == p;
        let k0 = if k == j { i } else if k == i { j } else { k };
        assert(t[k0] is Some && node_pos(t[k0]->Some_0) == p);
    }
    assert(pos_set(t) =~= pos_set(s));
}

/// Permutation invariant: in a complete tour over the stops of the node
/// list `l`, every listed node matches exactly one slot by coordinates —
/// no node is dropped, none is duplicated, and no slot is left unfilled.
pub proof fn lemma_permutation_invariant(s: Seq<Option<Node>>, l: Seq<Node>)
    requires
        complete(s),
        distinct_filled(s),
        s.len() == l.len(),
        pos_set(s) == pos_set(as_slots(l)),
    ensures
        forall|k: int|
            #![trigger l[k]]
            0 <= k < l.len() ==> exists|j: int|
                0 <= j < s.len() && s[j] is Some && same_pos(#[trigger] s[j]->Some_0, l[k]),
        forall|k: int, j1: int, j2: int|
            0 <= k < l.len() && 0 <= j1 < s.len() && 0 <= j2 < s.len() && same_pos(
                #[trigger] s[j1]->Some_0,
                l[k],
            ) && same_pos(#[trigger] s[j2]->Some_0, l[k]) ==> j1 == j2,
{
    let ls = as_slots(l);
    lemma_fpos_upto_contains(s, s.len());
    lemma_fpos_upto_contains(ls, ls.len());
    assert forall|k: int| #![trigger l[k]] 0 <= k < l.len() implies exists|j: int|
        0 <= j < s.len() && s[j] is Some && same_pos(#[trigger] s[j]->Some_0, l[k]) by {
        assert(ls[k] is Some && node_pos(ls[k]->Some_0) == node_pos(l[k]));
        assert(pos_set(ls).contains(node_pos(l[k])));
        let j = choose|j: int|
            0 <= j < s.len() && s[j] is Some && node_pos(#[trigger] s[j]->Some_0) == node_pos(
                l[k],
            );
        assert(same_pos(s[j]->Some_0, l[k]));
    }
}

/// The fixed-point fitness of a tour of distance `d`: shorter tours score
/// higher.
pub open spec fn fitness_of(d: int) -> int {
    FITNESS_SCALE as int / d
}

/// The relative fitness of a tour: its fitness over the population total.
pub open spec fn relative_of(f: u64, total: u128) -> Ratio {
    Ratio { num: f as i128, den: total as i128 }
}

/// Numerator of the amplified selection weight over the denominator
/// `average.den * total`: the fitness widened by `AMPLIFY_FACTOR` times its
/// signed distance from the population average `average.num / average.den`.
pub open spec fn amplified_num(f: u64, average: Ratio) -> int {
    (average.den as int) * (f as int) + (AMPLIFY_FACTOR as int) * ((average.den as int) * (
    f as int) - average.num as int)
}

/// The amplified selection weight used by roulette selection.
pub open spec fn amplified_of(f: u64, total: u128, average: Ratio) -> Ratio {
    Ratio {
        num: amplified_num(f, average) as i128,
        den: ((average.den as int) * (total as int)) as i128,
    }
}

/// Every cycle edge has non-negative length, so partial distance sums grow
/// with the prefix they cover; in particular the total distance of a tour
/// with at least one slot is at least its first edge.
pub proof fn lemma_dist_upto_ge_first(s: Seq<Option<Node>>, k: nat)
    requires
        1 <= k <= s.len(),
    ensures
        dist_upto(s, k) >= tour_edge(s, 0),
    decreases k,
{
    if k == 1 {
        assert(dist_upto(s, 0) == 0);
    } else {
        lemma_dist_upto_ge_first(s, (k - 1) as nat);
        assert(tour_edge(s, k - 1) == isqrt_spec(
            edge_sq(s[k - 1]->Some_0, s[next_on_cycle(s, k - 1)]->Some_0) as nat,
        ) as int);
    }
}

/// A complete tour over at least two distinct stops has positive distance:
/// its first edge joins two different coordinate pairs, whose truncated
/// Euclidean distance is at least 1.
pub proof fn lemma_distance_positive(s: Seq<Option<Node>>)
    requires
        complete(s),
        distinct_filled(s),
        2 <= s.len(),
    ensures
        spec_distance(s) >= 1,
{
    let a = s[0]->Some_0;
    let b = s[1]->Some_0;
    assert(node_pos(a) != node_pos(b));
    let dx = a.x - b.x;
    let dy = a.y - b.y;
    assert(edge_sq(a, b) >= 1) by (nonlinear_arith)
        requires
            dx == a.x - b.x,
            dy == a.y - b.y,
            dx != 0 || dy != 0,
            edge_sq(a, b) == dx * dx + dy * dy,
    ;
    let v = edge_sq(a, b) as nat;
    lemma_isqrt_spec(v);
    let r = isqrt_spec(v) as int;
    assert(r >= 1) by (nonlinear_arith)
        requires
            (r + 1) * (r + 1) > v as int,
            v >= 1,
            r >= 0,
    ;
    assert(next_on_cycle(s, 0) == 1);
    assert(tour_edge(s, 0) == edge_dist(a, b));
    lemma_dist_upto_ge_first(s, s.len());
}

/// An edge between two in-bounds nodes is never longer than `EDGE_MAX`.
pub proof fn lemma_edge_dist_bound(a: Node, b: Node)
    requires
        node_in_bounds(a),
        node_in_bounds(b),
    ensures
        0 <= edge_dist(a, b) <= EDGE_MAX,
{
    let dx = a.x - b.x;
    let dy = a.y - b.y;
    assert(0 <= edge_sq(a, b) <= 800_000_000) by (nonlinear_arith)
        requires
            -20_000 <= dx <= 20_000,
            -20_000 <= dy <= 20_000,
            edge_sq(a, b) == dx * dx + dy * dy,
    ;
    let v = edge_sq(a, b) as nat;
    lemma_isqrt_spec(v);
    let r = isqrt_spec(v) as int;
    assert(r <= EDGE_MAX) by (nonlinear_arith)
        requires
            r * r <= v as int,
            v <= 800_000_000,
            0 <= r,
            EDGE_MAX == 28_284u64,
    ;
}

/// The distance of a complete in-bounds tour is bounded by one maximal
/// edge per slot.
pub proof fn lemma_distance_bound(s: Seq<Option<Node>>, k: nat)
    requires
        k <= s.len(),
        complete(s),
        slots_in_bounds(s),
    ensures
        0 <= dist_upto(s, k) <= k * (EDGE_MAX as int),
    decreases k,
{
    if k > 0 {
        lemma_distance_bound(s, (k - 1) as nat);
        lemma_edge_dist_bound(s[k - 1]->Some_0, s[next_on_cycle(s, k - 1)]->Some_0);
    }
}

/// Fitness monotonicity over tours: of two complete tours over the same
/// node set, the strictly shorter one scores the strictly higher fitness.
pub proof fn lemma_fitness_monotonic_tours(a: Seq<Option<Node>>, b: Seq<Option<Node>>)
    requires
        complete(a),
        complete(b),
        distinct_filled(a),
        tour_wf(a),
        tour_wf(b),
        2 <= a.len(),
        spec_distance(a) < spec_distance(b),
    ensures
        fitness_of(spec_distance(a)) > fitness_of(spec_distance(b)),
{
    lemma_distance_positive(a);
    lemma_distance_bound(b, b.len());
    lemma_fitness_monotonic(spec_distance(a), spec_distance(b));
}

/// Fitness is strictly monotone in distance: of two tours over the same
/// stops, the strictly shorter one scores the strictly higher fitness.
pub proof fn lemma_fitness_monotonic(da: int, db: int)
    requires
        1 <= da < db <= DIST_MAX,
    ensures
        fitness_of(da) > fitness_of(db),
{
    let scale = FITNESS_SCALE as int;
    let qa = scale / da;
    let qb = scale / db;
    vstd::arithmetic::div_mod::lemma_fundamental_div_mod(scale, da);
    vstd::arithmetic::div_mod::lemma_fundamental_div_mod(scale, db);
    vstd::arithmetic::div_mod::lemma_mod_bound(scale, da);
    vstd::arithmetic::div_mod::lemma_mod_bound(scale, db);
    assert(qa > qb) by (nonlinear_arith)
        requires
            scale == qa * da + scale % da,
            scale == qb * db + scale % db,
            0 <= scale % da < da,
            0 <= scale % db < db,
            1 <= da < db <= DIST_MAX,
            DIST_MAX * DIST_MAX <= scale,
    ;
}

impl Tour {
    /// Creates a tour of `tour_size` unfilled slots and zeroed fitness.
    pub fn new(tour_size: usize) -> (t: Tour)
        ensures
            t@.len() == tour_size,
            forall|j: int| 0 <= j < tour_size ==> t@[j] is None,
            t.fitness == 0,
            t.relative_fitness == Ratio::zero_spec(),
            t.amplified_fitness == Ratio::zero_spec(),
    {
        let mut v: Vec<Option<Node>> = Vec::new();
        let mut i: usize = 0;
        while i < tour_size
            invariant
                i <= tour_size,
                v@.len() == i,
                forall|j: int| 0 <= j < i ==> v@[j] is None,
            decreases tour_size - i,
        {
            v.push(None);
            i = i + 1;
        }
        Tour {
            fitness: 0,
            relative_fitness: Ratio::zero(),
            amplified_fitness: Ratio::zero(),
            slots: v,
        }
    }

    /// The number of slots (the problem size N).
    pub fn get_tour_len(&self) -> (n: usize)
        ensures
            n == self@.len(),
    {
        self.slots.len()
    }

    /// Returns the node at a filled slot.
    pub fn get_node(&self, index: usize) -> (n: Node)
        requires
            index < self@.len(),
            self@[index as int] is Some,
        ensures
            self@[index as int] == Some(n),
    {
        self.slots[index].unwrap()
    }

    /// Whether the slot at `index` is filled.
    pub fn is_filled(&self, index: usize) -> (r: bool)
        requires
            index < self@.len(),
        ensures
            r == (self@[index as int] is Some),
    {
        self.slots[index].is_some()
    }

    /// Fills a slot with a node. Any structural change invalidates the
    /// fitness figures, so all three are reset to their stale value.
    pub fn set_node(&mut self, index: usize, node: Node)
        requires
            index < old(self)@.len(),
        ensures
            final(self)@ == old(self)@.update(index as int, Some(node)),
            final(self).fitness == 0,
            final(self).relative_fitness == Ratio::zero_spec(),
            final(self).amplified_fitness == Ratio::zero_spec(),
    {
        self.fitness = 0;
        self.relative_fitness = Ratio::zero();
        self.amplified_fitness = Ratio::zero();
        self.slots[index] = Some(node);
    }

    /// Whether some filled slot already holds `find_node`'s coordinates
    /// (the tag is not compared).
    pub fn contains_node(&self, find_node: Node) -> (r: bool)
        ensures
            r == spec_contains(self@, find_node),
    {
        let n = self.slots.len();
        let mut i: usize = 0;
        while i < n
            invariant
                i <= n,
                n == self@.len(),
                forall|j: int|
                    0 <= j < i ==> !(self@[j] is Some && same_pos(#[trigger] self@[j]->Some_0,
                    find_node)),
            decreases n - i,
        {
            let slot = self.slots[i];
            match slot {
                Some(node) => {
                    if node.x == find_node.x && node.y == find_node.y {
                        assert(self@[i as int] is Some && same_pos(self@[i as int]->Some_0,
                        find_node));
                        return true;
                    }
                },
                None => {},
            }
            i = i + 1;
        }
        false
    }

    /// The integer-truncated Euclidean distance between two nodes.
    fn distance_to(&self, from_node: Node, to_node: Node) -> (d: u64)
        requires
            node_in_bounds(from_node),
            node_in_bounds(to_node),
        ensures
            d == edge_dist(from_node, to_node),
            d <= EDGE_MAX,
    {
        let dx: i64 = from_node.x as i64 - to_node.x as i64;
        let dy: i64 = from_node.y as i64 - to_node.y as i64;
        proof {
            assert(dx * dx <= 400_000_000 && 0 <= dx * dx && dy * dy <= 400_000_000 && 0 <= dy
                * dy) by (nonlinear_arith)
                requires
                    -20_000 <= dx <= 20_000,
                    -20_000 <= dy <= 20_000,
            ;
        }
        let sq: u64 = (dx * dx + dy * dy) as u64;
        let d = isqrt(sq);
        proof {
            assert(d <= EDGE_MAX) by (nonlinear_arith)
                requires
                    (d as int) * (d as int) <= 800_000_000,
                    EDGE_MAX == 28_284u64,
            ;
        }
        d
    }

    /// Total distance to traverse all nodes in order and return to the
    /// start. Each edge is truncated to an integer before accumulation.
    pub fn get_distance(&self) -> (d: u64)
        requires
            complete(self@),
            tour_wf(self@),
            1 <= self@.len(),
        ensures
            d == spec_distance(self@),
            d <= DIST_MAX,
    {
        let n = self.slots.len();
        let mut tour_distance: u64 = 0;
        let mut i: usize = 0;
        while i < n
            invariant
                i <= n,
                n == self@.len(),
                1 <= n <= MAX_TOUR_LEN,
                complete(self@),
                tour_wf(self@),
                tour_distance == dist_upto(self@, i as nat),
                tour_distance <= i * (EDGE_MAX as int),
            decreases n - i,
        {
            let from_node = self.get_node(i);
            let destination_node = if i + 1 < n {
                self.get_node(i + 1)
            } else {
                self.get_node(0)
            };
            let step = self.distance_to(from_node, destination_node);
            tour_distance = tour_distance + step;
            i = i + 1;
        }
        tour_distance
    }

    /// Swaps the nodes at two filled slots, invalidating the fitness.
    pub(crate) fn swap_nodes(&mut self, i: usize, j: usize)
        requires
            i < old(self)@.len(),
            j < old(self)@.len(),
            old(self)@[i as int] is Some,
            old(self)@[j as int] is Some,
        ensures
            final(self)@ == old(self)@.update(i as int, old(self)@[j as int]).update(
                j as int,
                old(self)@[i as int],
            ),
            final(self).fitness == 0,
            final(self).relative_fitness == Ratio::zero_spec(),
            final(self).amplified_fitness == Ratio::zero_spec(),
    {
        let node_i = self.get_node(i);
        let node_j = self.get_node(j);
        self.set_node(i, node_j);
        self.set_node(j, node_i);
    }

    /// Fills the tour from `node_list` and then shuffles it: for a fixed
    /// number of passes, each position is swapped with a freshly drawn
    /// random position. The result is a complete random ordering of exactly
    /// the listed stops, with the fitness left stale.
    pub fn generate_individual(&mut self, rng: &mut rand::rngs::StdRng, node_list: &Vec<Node>)
        requires
            node_list@.len() == old(self)@.len(),
            old(self)@.len() <= MAX_TOUR_LEN,
            slots_in_bounds(as_slots(node_list@)),
            distinct_filled(as_slots(node_list@)),
        ensures
            final(self)@.len() == old(self)@.len(),
            complete(final(self)@),
            distinct_filled(final(self)@),
            tour_wf(final(self)@),
            pos_set(final(self)@) == pos_set(as_slots(node_list@)),
            final(self).fitness == 0,
            final(self).relative_fitness == Ratio::zero_spec(),
            final(self).amplified_fitness == Ratio::zero_spec(),
    {
        let n = self.get_tour_len();
        let ghost target = as_slots(node_list@);
        // copy nodes in original sequence
        let mut i: usize = 0;
        while i < n
            invariant
                i <= n,
                n == self@.len(),
                n == node_list@.len(),
                forall|k: int| 0 <= k < i ==> self@[k] == Some(node_list@[k]),
                i > 0 ==> self.fitness == 0 && self.relative_fitness == Ratio::zero_spec()
                    && self.amplified_fitness == Ratio::zero_spec(),
            decreases n - i,
        {
            self.set_node(i, node_list[i]);
            i = i + 1;
        }
        if n == 0 {
            proof {
                assert(self@ =~= target);
                assert(pos_set(self@) == pos_set(target));
            }
            self.fitness = 0;
            self.relative_fitness = Ratio::zero();
            self.amplified_fitness = Ratio::zero();
            return ;
        }
        proof {
            assert(self@ =~= target);
        }
        // shuffle to create a new sequence
        let mut pass: usize = 0;
        while pass < 100
            invariant
                n == self@.len(),
                1 <= n <= MAX_TOUR_LEN,
                complete(self@),
                distinct_filled(self@),
                slots_in_bounds(self@),
                pos_set(self@) == pos_set(target),
                self.fitness == 0,
                self.relative_fitness == Ratio::zero_spec(),
                self.amplified_fitness == Ratio::zero_spec(),
            decreases 100 - pass,
        {
            let mut j: usize = 0;
            while j < n
                invariant
                    j <= n,
                    n == self@.len(),
                    1 <= n <= MAX_TOUR_LEN,
                    complete(self@),
                    distinct_filled(self@),
                    slots_in_bounds(self@),
                    pos_set(self@) == pos_set(target),
                    self.fitness == 0,
                    self.relative_fitness == Ratio::zero_spec(),
                    self.amplified_fitness == Ratio::zero_spec(),
                decreases n - j,
            {
                let random_index = crate::rng::rand_index(rng, n);
                if random_index != j {
                    proof {
                        lemma_swap_preserves(self@, j as int, random_index as int);
                    }
                    self.swap_nodes(j, random_index);
                }
                j = j + 1;
            }
            pass = pass + 1;
        }
    }

    /// Sets the fitness from the tour's distance: `FITNESS_SCALE / distance`.
    /// Defined only for tours of positive distance; a zero-distance tour is
    /// a degenerate input that callers must rule out.
    pub fn set_fitness(&mut self)
        requires
            complete(old(self)@),
            tour_wf(old(self)@),
            1 <= old(self)@.len(),
            spec_distance(old(self)@) >= 1,
        ensures
            final(self)@ == old(self)@,
            final(self).fitness == fitness_of(spec_distance(old(self)@)),
            1 <= final(self).fitness <= FITNESS_SCALE,
            final(self).relative_fitness == old(self).relative_fitness,
            final(self).amplified_fitness == old(self).amplified_fitness,
    {
        let distance = self.get_distance();
        proof {
            assert(FITNESS_SCALE as int / distance as int >= 1 && FITNESS_SCALE as int
                / distance as int <= FITNESS_SCALE) by (nonlinear_arith)
                requires
                    1 <= distance <= DIST_MAX,
                    DIST_MAX < FITNESS_SCALE,
            ;
        }
        self.fitness = FITNESS_SCALE / distance;
    }

    /// Sets the relative and amplified fitness from the population's total
    /// and average fitness. The average is an exact rational so that the
    /// amplified weights of a whole population sum exactly to its total.
    pub fn set_relative_fitness(&mut self, total_fitness: u128, average_fitness: Ratio)
        requires
            1 <= total_fitness <= TOTAL_FITNESS_MAX,
            old(self).fitness <= FITNESS_SCALE,
            1 <= average_fitness.den <= POP_MAX,
            0 <= average_fitness.num <= total_fitness,
        ensures
            final(self)@ == old(self)@,
            final(self).fitness == old(self).fitness,
            final(self).relative_fitness == relative_of(old(self).fitness, total_fitness),
            final(self).amplified_fitness == amplified_of(
                old(self).fitness,
                total_fitness,
                average_fitness,
            ),
    {
        let f: i128 = self.fitness as i128;
        let avd: i128 = average_fitness.den;
        let avn: i128 = average_fitness.num;
        proof {
            assert(avd * f <= 10_000_000_000_000_000_000i128 && 0 <= avd * f && avd * (
            total_fitness as i128) <= 100_000_000_000_000_000_000_000i128 && 0 < avd * (
            total_fitness as i128)) by (nonlinear_arith)
                requires
                    1 <= avd <= 10_000i128,
                    0 <= f <= 1_000_000_000_000_000i128,
                    1 <= total_fitness as i128 <= 10_000_000_000_000_000_000i128,
            ;
        }
        let pf: i128 = avd * f;
        let num: i128 = pf + AMPLIFY_FACTOR * (pf - avn);
        self.relative_fitness = Ratio { num: f, den: total_fitness as i128 };
        self.amplified_fitness = Ratio { num, den: avd * (total_fitness as i128) };
    }
}

} // verus!
