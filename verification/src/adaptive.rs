use vstd::prelude::*;
use std::collections::VecDeque;
use std::sync::Arc;
use crate::insertion::{insertion_spots, is_spot};
use crate::random::{random_below, random_ratio};
use crate::savings::route_index_of;
use crate::seq_util::lemma_swap_remove;
use crate::solution::VRPSolution;
use crate::stats::{bump, bumped_each, SolveStats};
use crate::solver::LNSSolver;
use crate::jump::pruned;
use crate::route::{
    customers_of, lemma_stop_within_load, lemma_total_demand_nonnegative,
    lemma_total_demand_remove, lemma_without_demand, numbers_of, total_demand,
};
use crate::route::{
    lemma_without_absent, lemma_without_at, lemma_without_more, lemma_without_none, without,
};
use crate::stop::Stop;
use crate::vrp_instance::{VRPInstance, UNIT};
use crate::ordering::{is_key_order, is_permutation, order_by_key, pair_le};
use crate::insertion::{cost_increase, is_cheapest, is_spot_list};

verus! {

/// The largest weight of an operator.
pub const MAX_WEIGHT: u64 = 0x4000_0000;

/// The weight with which an operator starts: one, in thousandths.
pub const START_WEIGHT: u64 = 1000;

/// `weight` smoothed towards `score`: `learning_rate` thousandths of the
/// score, itself taken in thousandths, and the rest of the old weight, kept
/// between one thousandth and `MAX_WEIGHT`.
pub open spec fn smoothed_weight(weight: int, score: int, learning_rate: int) -> int {
    let raw = ((1000 - learning_rate) * weight + learning_rate * score * 1000) / 1000;
    if raw < 1 {
        1
    } else if raw > MAX_WEIGHT {
        MAX_WEIGHT as int
    } else {
        raw
    }
}

/// `a + b`, as far as `usize` goes.
pub open spec fn capped_sum(a: int, b: int) -> int {
    if a + b > usize::MAX {
        usize::MAX as int
    } else {
        a + b
    }
}

/// One arm of the operator choice: its score since the weights were last
/// updated, its weight in thousandths, and how often it was used.
#[derive(Debug, Clone, Copy)]
pub struct Operator {
    pub id: usize,
    pub score: usize,
    pub weight: u64,
    pub usage_count: usize,
}

impl Operator {
    /// The weight lies between one thousandth and `MAX_WEIGHT`.
    pub open spec fn wf(&self) -> bool {
        1 <= self.weight <= MAX_WEIGHT
    }

    /// An operator with no score and no use yet, at the starting weight.
    pub fn new(id: usize) -> (op: Self)
        ensures
            op == (Operator { id, score: 0, weight: START_WEIGHT, usage_count: 0 }),
            op.wf(),
    {
        Operator { id, score: 0, weight: START_WEIGHT, usage_count: 0 }
    }

    /// Credits the operator with `delta` for one use.
    pub fn update_score(&mut self, delta: usize)
        ensures
            final(self).score == capped_sum(old(self).score as int, delta as int),
            final(self).usage_count == capped_sum(old(self).usage_count as int, 1),
            final(self).weight == old(self).weight,
            final(self).id == old(self).id,
    {
        self.score = if self.score <= usize::MAX - delta {
            self.score + delta
        } else {
            usize::MAX
        };
        self.usage_count = if self.usage_count < usize::MAX {
            self.usage_count + 1
        } else {
            usize::MAX
        };
    }

    /// Smooths the weight towards the score, `learning_rate` in thousandths,
    /// and starts the score anew.
    pub fn update_weight(&mut self, learning_rate: u64)
        requires
            learning_rate <= 1000,
            old(self).wf(),
        ensures
            final(self).wf(),
            final(self).weight == smoothed_weight(
                old(self).weight as int,
                old(self).score as int,
                learning_rate as int,
            ),
            final(self).score == 0,
            final(self).usage_count == old(self).usage_count,
            final(self).id == old(self).id,
    {
        let keep: u128 = (1000 - learning_rate) as u128;
        let rate: u128 = learning_rate as u128;
        let weight: u128 = self.weight as u128;
        let score: u128 = self.score as u128;
        assert(keep * weight <= 1000 * 0x4000_0000) by (nonlinear_arith)
            requires
                keep <= 1000,
                weight <= 0x4000_0000,
        ;
        assert(rate * score <= 1000 * 0xffff_ffff_ffff_ffff) by (nonlinear_arith)
            requires
                rate <= 1000,
                score <= 0xffff_ffff_ffff_ffff,
        ;
        assert(rate * score * 1000 <= 1000 * 0xffff_ffff_ffff_ffff * 1000) by (nonlinear_arith)
            requires
                rate * score <= 1000 * 0xffff_ffff_ffff_ffff,
        ;
        let raw: u128 = (keep * weight + rate * score * 1000) / 1000;
        self.weight = if raw < 1 {
            1
        } else if raw > MAX_WEIGHT as u128 {
            MAX_WEIGHT
        } else {
            raw as u64
        };
        self.score = 0;
    }
}

/// The stops are distinct customers of `inst`, each with its demand.
pub open spec fn pending_ok(inst: &VRPInstance, pending: Seq<(Stop, usize)>) -> bool {
    &&& forall|i: int|
        0 <= i < pending.len() ==> 1 <= (#[trigger] pending[i]).0.cust_no() < inst.num_customers
            && pending[i].0.capacity() == inst.spec_demand(pending[i].0.cust_no() as int)
    &&& forall|i: int, j: int|
        0 <= i < j < pending.len() ==> (#[trigger] pending[i]).0.cust_no() != (
        #[trigger] pending[j]).0.cust_no()
}

/// Whether customer `c` is one of the stops of `pending`.
pub open spec fn is_pending(pending: Seq<(Stop, usize)>, c: int) -> bool {
    exists|i: int| 0 <= i < pending.len() && (#[trigger] pending[i]).0.cust_no() == c
}

/// A large-neighbourhood search that chooses among two ways to destroy and
/// two ways to repair by weights that follow their success.
pub struct ALNSSolver {
    instance: Arc<VRPInstance>,
    stop_tabu: VecDeque<usize>,
    stop_not_tabu: Vec<usize>,
    current: VRPSolution,
    stats: SolveStats,
    repair_ops: Vec<Operator>,
    destroy_ops: Vec<Operator>,
    last_used_repair_op: usize,
    last_used_destroy_op: usize,
}

impl ALNSSolver {
    /// The instance that is solved.
    pub closed spec fn spec_instance(&self) -> VRPInstance {
        *self.instance
    }

    /// The solution that the search stands at.
    pub closed spec fn spec_current(&self) -> VRPSolution {
        self.current
    }

    /// The customers removed of late, oldest first.
    pub closed spec fn spec_tabu(&self) -> Seq<usize> {
        self.stop_tabu@
    }

    /// The customers that may be removed.
    pub closed spec fn spec_not_tabu(&self) -> Seq<usize> {
        self.stop_not_tabu@
    }

    /// The repair operators.
    pub closed spec fn spec_repair_ops(&self) -> Seq<Operator> {
        self.repair_ops@
    }

    /// The destroy operators.
    pub closed spec fn spec_destroy_ops(&self) -> Seq<Operator> {
        self.destroy_ops@
    }

    /// What the search has counted.
    pub closed spec fn spec_stats(&self) -> SolveStats {
        self.stats
    }

    /// The operators that were used last: destroy, then repair.
    pub closed spec fn spec_last_used(&self) -> (usize, usize) {
        (self.last_used_destroy_op, self.last_used_repair_op)
    }

    /// There are two operators of each kind, with weights in range.
    pub open spec fn ops_wf(&self) -> bool {
        &&& self.spec_repair_ops().len() == 2
        &&& self.spec_destroy_ops().len() == 2
        &&& forall|i: int| 0 <= i < 2 ==> (#[trigger] self.spec_repair_ops()[i]).wf()
        &&& forall|i: int| 0 <= i < 2 ==> (#[trigger] self.spec_destroy_ops()[i]).wf()
        &&& self.spec_last_used().0 < 2
        &&& self.spec_last_used().1 < 2
    }

    /// The current solution has one well-formed route per vehicle, no
    /// customer twice, no vehicle over capacity; it may lack customers.
    pub open spec fn wf(&self) -> bool {
        &&& self.spec_instance().wf()
        &&& self.spec_current().wf(&self.spec_instance())
        &&& self.spec_current().routes@.len() == self.spec_instance().num_vehicles
        &&& self.spec_current().routes_disjoint()
        &&& self.spec_current().within_capacity(&self.spec_instance())
        &&& self.spec_current().true_demands(&self.spec_instance())
        &&& self.ops_wf()
    }

    /// The current solution serves the customers other than those of
    /// `pending`.
    pub open spec fn lacks(&self, pending: Seq<(Stop, usize)>) -> bool {
        forall|c: int| #[trigger]
            self.spec_current().serves(c) <==> 1 <= c < self.spec_instance().num_customers
                && !is_pending(pending, c)
    }

    /// The tabu queue and the pool of the others hold, between them, each
    /// customer other than those of `pending` once.
    pub open spec fn pool_without(&self, pending: Seq<(Stop, usize)>) -> bool {
        &&& self.spec_tabu().no_duplicates()
        &&& self.spec_not_tabu().no_duplicates()
        &&& forall|x: usize|
            !(#[trigger] self.spec_tabu().contains(x) && #[trigger] self.spec_not_tabu().contains(
                x,
            ))
        &&& forall|x: usize| #[trigger]
            self.spec_tabu().contains(x) ==> 1 <= x < self.spec_instance().num_customers
                && !is_pending(pending, x as int)
        &&& forall|x: usize| #[trigger]
            self.spec_not_tabu().contains(x) ==> 1 <= x < self.spec_instance().num_customers
                && !is_pending(pending, x as int)
        &&& forall|c: usize|
            1 <= c < self.spec_instance().num_customers ==> #[trigger] self.spec_tabu().contains(c)
                || #[trigger] self.spec_not_tabu().contains(c) || is_pending(pending, c as int)
    }

    /// Between iterations: the current solution is valid and the two pools
    /// hold all the customers.
    pub open spec fn intact(&self) -> bool {
        &&& self.wf()
        &&& self.lacks(Seq::empty())
        &&& self.pool_without(Seq::empty())
    }

    /// After a destroy: the stops of `res` are out of the solution and out
    /// of the pools.
    pub open spec fn damaged(&self, res: Seq<(Stop, usize)>) -> bool {
        &&& self.wf()
        &&& pending_ok(&self.spec_instance(), res)
        &&& self.lacks(res)
        &&& self.pool_without(res)
    }

    /// After the tabu update: the stops of `res` are out of the solution and
    /// back in the pools.
    pub open spec fn marked(&self, res: Seq<(Stop, usize)>) -> bool {
        &&& self.wf()
        &&& pending_ok(&self.spec_instance(), res)
        &&& self.lacks(res)
        &&& self.pool_without(Seq::empty())
    }

    /// An intact solver stands at a valid solution.
    pub proof fn lemma_intact_is_valid(&self)
        requires
            self.intact(),
        ensures
            self.spec_current().is_valid(&self.spec_instance()),
    {
        assert forall|c: int| 1 <= c < self.spec_instance().num_customers implies #[trigger] self.spec_current().serves(
            c,
        ) by {
            assert(!is_pending(Seq::<(Stop, usize)>::empty(), c));
        }
    }

    /// The customers other than the depot, in order.
    fn all_customers(n: usize) -> (all: Vec<usize>)
        requires
            n >= 1,
        ensures
            all@.len() == n - 1,
            forall|i: int| 0 <= i < all@.len() ==> #[trigger] all@[i] == i + 1,
    {
        let mut all: Vec<usize> = Vec::new();
        let mut c: usize = 1;
        while c < n
            invariant
                1 <= c <= n,
                all@.len() == c - 1,
                forall|i: int| 0 <= i < all@.len() ==> #[trigger] all@[i] == i + 1,
            decreases n - c,
        {
            all.push(c);
            c = c + 1;
        }
        all
    }

    /// A solver that stands at `initial_solution`, with no customer tabu
    /// and both operators of each kind at the starting weight.
    pub fn new(instance: Arc<VRPInstance>, initial_solution: VRPSolution) -> (solver: Self)
        requires
            instance.wf(),
            initial_solution.is_valid(&instance),
        ensures
            solver.intact(),
            solver.spec_instance() == *instance,
            solver.spec_current() == initial_solution,
            solver.spec_tabu().len() == 0,
            solver.spec_not_tabu().len() == instance.num_customers - 1,
    {
        let stop_not_tabu = Self::all_customers(instance.num_customers);
        let mut repair_ops: Vec<Operator> = Vec::new();
        repair_ops.push(Operator::new(0));
        repair_ops.push(Operator::new(1));
        let mut destroy_ops: Vec<Operator> = Vec::new();
        destroy_ops.push(Operator::new(0));
        destroy_ops.push(Operator::new(1));
        let solver = ALNSSolver {
            stop_tabu: VecDeque::new(),
            current: initial_solution,
            stop_not_tabu,
            instance,
            stats: SolveStats::new(),
            repair_ops,
            destroy_ops,
            last_used_destroy_op: 0,
            last_used_repair_op: 0,
        };
        proof {
            solver.lemma_fresh_pool();
        }
        solver
    }

    /// With no customer tabu and all of them in the pool, the pools hold
    /// all the customers.
    proof fn lemma_fresh_pool(&self)
        requires
            self.spec_instance().wf(),
            self.spec_tabu().len() == 0,
            self.spec_not_tabu().len() == self.spec_instance().num_customers - 1,
            forall|i: int|
                0 <= i < self.spec_not_tabu().len() ==> #[trigger] self.spec_not_tabu()[i] == i + 1,
            self.spec_current().is_valid(&self.spec_instance()),
        ensures
            self.pool_without(Seq::empty()),
            self.lacks(Seq::empty()),
    {
        let pool = self.spec_not_tabu();
        let n = self.spec_instance().num_customers;
        assert forall|c: usize| 1 <= c < n implies #[trigger] self.spec_tabu().contains(c)
            || #[trigger] pool.contains(c) || is_pending(Seq::empty(), c as int) by {
            assert(pool[c - 1] == c);
        }
        assert forall|c: int| #[trigger]
            self.spec_current().serves(c) <==> 1 <= c < n && !is_pending(Seq::empty(), c) by {
            if self.spec_current().serves(c) {
                let q = choose|q: int|
                    0 <= q < self.spec_current().routes@.len() && (
                    #[trigger] self.spec_current().routes@[q]).serves(c);
                let i = choose|i: int|
                    0 <= i < self.spec_current().routes@[q].customers().len()
                        && self.spec_current().routes@[q].customers()[i] == c;
                assert(self.spec_current().routes@[q].wf());
            }
        }
    }

    /// The solution that the search stands at.
    pub fn current(&self) -> (sol: &VRPSolution)
        ensures
            *sol == self.spec_current(),
    {
        &self.current
    }

    /// Moves the search to a copy of `sol` and clears the tabu queue.
    pub fn jump_to_solution(&mut self, sol: &VRPSolution)
        requires
            old(self).spec_instance().wf(),
            old(self).ops_wf(),
            sol.is_valid(&old(self).spec_instance()),
        ensures
            final(self).intact(),
            final(self).spec_current().agrees_with(sol),
            final(self).spec_instance() == old(self).spec_instance(),
            final(self).spec_repair_ops() == old(self).spec_repair_ops(),
            final(self).spec_destroy_ops() == old(self).spec_destroy_ops(),
            final(self).spec_tabu().len() == 0,
            final(self).spec_not_tabu().len() == final(self).spec_instance().num_customers - 1,
    {
        self.current = sol.clone();
        self.stop_not_tabu = Self::all_customers(self.instance.num_customers);
        self.stop_tabu.clear();
        proof {
            self.current.lemma_agreement(sol, &self.spec_instance());
            self.lemma_fresh_pool();
        }
    }

    /// Takes the customers `customer_nos` out of the current solution, each
    /// with the route that served it.
    fn extract_customers(&mut self, customer_nos: &Vec<usize>) -> (res: Vec<(Stop, usize)>)
        requires
            old(self).wf(),
            old(self).lacks(Seq::empty()),
            customer_nos@.no_duplicates(),
            forall|i: int|
                0 <= i < customer_nos@.len() ==> 1 <= #[trigger] customer_nos@[i] < old(self).spec_instance().num_customers,
        ensures
            final(self).wf(),
            final(self).lacks(res@),
            pending_ok(&final(self).spec_instance(), res@),
            res@.len() == customer_nos@.len(),
            forall|i: int|
                0 <= i < res@.len() ==> (#[trigger] res@[i]).0.cust_no() == customer_nos@[i]
                    && res@[i].1 < old(self).spec_current().routes@.len() && old(self).spec_current().routes@[res@[i].1 as int].serves(customer_nos@[i] as int),
            final(self).spec_current().plan() == pruned(
                old(self).spec_current().plan(),
                stop_numbers(res@),
            ),
            final(self).spec_instance() == old(self).spec_instance(),
            final(self).spec_tabu() == old(self).spec_tabu(),
            final(self).spec_not_tabu() == old(self).spec_not_tabu(),
            final(self).spec_repair_ops() == old(self).spec_repair_ops(),
            final(self).spec_destroy_ops() == old(self).spec_destroy_ops(),
            final(self).spec_last_used() == old(self).spec_last_used(),
            final(self).spec_stats() == old(self).spec_stats(),
    {
        let ghost before = *self;
        let mut res: Vec<(Stop, usize)> = Vec::new();
        let mut k: usize = 0;
        proof {
            assert(res@ =~= Seq::<(Stop, usize)>::empty());
            assert(stop_numbers(res@) =~= Seq::<u16>::empty());
            assert(self.current.plan() =~= pruned(before.current.plan(), stop_numbers(res@))) by {
                assert forall|q: int| 0 <= q < self.current.plan().len() implies #[trigger] self.current.plan()[q]
                    == pruned(before.current.plan(), stop_numbers(res@))[q] by {
                    lemma_without_none(before.current.plan()[q]);
                }
            }
        }
        while k < customer_nos.len()
            invariant
                before.wf(),
                self.current.plan() == pruned(before.current.plan(), stop_numbers(res@)),
                self.wf(),
                self.lacks(res@),
                pending_ok(&self.spec_instance(), res@),
                customer_nos@.no_duplicates(),
                forall|i: int|
                    0 <= i < customer_nos@.len() ==> 1 <= #[trigger] customer_nos@[i]
                        < self.spec_instance().num_customers,
                k <= customer_nos@.len(),
                res@.len() == k,
                forall|i: int|
                    0 <= i < res@.len() ==> (#[trigger] res@[i]).0.cust_no() == customer_nos@[i]
                        && res@[i].1 < before.spec_current().routes@.len()
                        && before.spec_current().routes@[res@[i].1 as int].serves(
                        customer_nos@[i] as int,
                    ),
                forall|q: int, c: int|
                    0 <= q < self.current.routes@.len() && (
                    #[trigger] self.current.routes@[q].serves(c))
                        ==> before.current.routes@[q].serves(c),
                self.current.routes@.len() == before.current.routes@.len(),
                self.spec_instance() == before.spec_instance(),
                self.spec_tabu() == before.spec_tabu(),
                self.spec_not_tabu() == before.spec_not_tabu(),
                self.spec_repair_ops() == before.spec_repair_ops(),
                self.spec_destroy_ops() == before.spec_destroy_ops(),
                self.spec_last_used() == before.spec_last_used(),
                self.spec_stats() == before.spec_stats(),
            decreases customer_nos@.len() - k,
        {
            let cust = customer_nos[k];
            let ghost prior = *self;
            let ghost pending = res@;
            proof {
                if is_pending(pending, cust as int) {
                    let i = choose|i: int|
                        0 <= i < pending.len() && (#[trigger] pending[i]).0.cust_no()
                            == cust as int;
                    assert(customer_nos@[i] == customer_nos@[k as int]);
                }
                assert(self.current.serves(cust as int));
            }
            let r = route_index_of(&self.current, cust as u16);
            proof {
                if r >= self.current.routes@.len() {
                    let q = choose|q: int|
                        0 <= q < self.current.routes@.len() && (
                        #[trigger] self.current.routes@[q]).serves(cust as int);
                    crate::savings::lemma_route_with_finds(self.current.plan(), cust as int, 0, q);
                }
            }
            let index = match self.current.routes[r].index_of_stop(cust as u16) {
                Some(index) => index,
                None => 0,
            };
            let stop = self.current.take_stop(r, index);
            res.push((stop, r));
            proof {
                let numbers = stop_numbers(pending);
                let c = stop.cust_no();
                assert(stop_numbers(res@) =~= numbers.push(c));
                assert(prior.current.routes@[r as int].customers()[index as int] == c);
                assert(self.current.plan() =~= pruned(before.current.plan(), stop_numbers(res@))) by {
                    assert forall|q: int| 0 <= q < self.current.plan().len() implies #[trigger] self.current.plan()[q]
                        == pruned(before.current.plan(), stop_numbers(res@))[q] by {
                        let t = prior.current.plan()[q];
                        assert(t == prior.current.routes@[q]@);
                        assert(t == without(before.current.plan()[q], numbers));
                        lemma_without_more(before.current.plan()[q], numbers, c);
                        assert(prior.current.routes@[q].wf());
                        if q == r {
                            lemma_without_at(t, index as int, c);
                        } else {
                            assert(self.current.routes@[q] == prior.current.routes@[q]);
                            assert(prior.current.routes@[r as int].serves(c as int));
                            assert(!(prior.current.routes@[q].serves(c as int)
                                && prior.current.routes@[r as int].serves(c as int)));
                            lemma_without_absent(t, c);
                        }
                    }
                }
                assert(prior.current.routes@[r as int]@[index as int].capacity()
                    == self.spec_instance().spec_demand(cust as int));
                assert forall|c: int| #[trigger]
                    self.current.serves(c) <==> 1 <= c < self.spec_instance().num_customers
                        && !is_pending(res@, c) by {
                    if is_pending(res@, c) {
                        let i = choose|i: int|
                            0 <= i < res@.len() && (#[trigger] res@[i]).0.cust_no() == c;
                        if i < k {
                            assert(pending[i] == res@[i]);
                            assert(is_pending(pending, c));
                        }
                    }
                    if is_pending(pending, c) {
                        let i = choose|i: int|
                            0 <= i < pending.len() && (#[trigger] pending[i]).0.cust_no() == c;
                        assert(res@[i] == pending[i]);
                    }
                    if c == cust {
                        assert(res@[k as int].0.cust_no() == c);
                    }
                    assert(prior.current.serves(c) <==> 1 <= c
                        < self.spec_instance().num_customers && !is_pending(pending, c));
                }
                assert(pending_ok(&self.spec_instance(), res@)) by {
                    assert forall|i: int, j: int| 0 <= i < j < res@.len() implies (
                    #[trigger] res@[i]).0.cust_no() != (#[trigger] res@[j]).0.cust_no() by {
                        if j == k {
                            assert(res@[i] == pending[i]);
                            assert(customer_nos@[i] != customer_nos@[k as int]);
                        } else {
                            assert(res@[i] == pending[i]);
                            assert(res@[j] == pending[j]);
                        }
                    }
                    assert forall|i: int| 0 <= i < res@.len() implies 1 <= (
                    #[trigger] res@[i]).0.cust_no() < self.spec_instance().num_customers
                        && res@[i].0.capacity() == self.spec_instance().spec_demand(
                        res@[i].0.cust_no() as int,
                    ) by {
                        if i < k {
                            assert(res@[i] == pending[i]);
                        }
                    }
                }
                assert forall|i: int| 0 <= i < res@.len() implies (
                #[trigger] res@[i]).0.cust_no() == customer_nos@[i] && res@[i].1
                    < before.spec_current().routes@.len()
                    && before.spec_current().routes@[res@[i].1 as int].serves(
                    customer_nos@[i] as int,
                ) by {
                    if i < k {
                        assert(res@[i] == pending[i]);
                    } else {
                        assert(prior.current.routes@[r as int].serves(cust as int));
                    }
                }
                assert forall|q: int, c: int|
                    0 <= q < self.current.routes@.len() && (
                    #[trigger] self.current.routes@[q].serves(c))
                    implies before.current.routes@[q].serves(c) by {
                    if q == r {
                        let custs = prior.current.routes@[q].customers();
                        crate::route::lemma_customers_of_remove(
                            prior.current.routes@[q]@,
                            index as int,
                        );
                        crate::seq_util::lemma_remove_no_duplicates(custs, index as int);
                        if c == custs[index as int] {
                            assert(!self.current.routes@[q].serves(c));
                        } else {
                            assert(custs.remove(index as int).contains(c) <==> custs.contains(c));
                        }
                        assert(prior.current.routes@[q].serves(c));
                    } else {
                        assert(self.current.routes@[q] == prior.current.routes@[q]);
                    }
                }
            }
            k = k + 1;
        }
        res
    }

    /// Removes `n` customers, drawn at random from those that are not tabu,
    /// from the pool and from the current solution, and hands back their
    /// stops, each with the route that served it.
    pub fn remove_n_random_stops(&mut self, n: usize) -> (res: Vec<(Stop, usize)>)
        requires
            old(self).intact(),
            0 < n <= old(self).spec_not_tabu().len(),
        ensures
            final(self).damaged(res@),
            res@.len() == n,
            final(self).spec_current().plan() == pruned(
                old(self).spec_current().plan(),
                stop_numbers(res@),
            ),
            forall|i: int|
                0 <= i < res@.len() ==> old(self).spec_not_tabu().contains(
                    (#[trigger] res@[i]).0.cust_no() as usize,
                ) && res@[i].1 < old(self).spec_current().routes@.len() && old(self).spec_current().routes@[res@[i].1 as int].serves(res@[i].0.cust_no() as int),
            final(self).spec_instance() == old(self).spec_instance(),
            final(self).spec_tabu() == old(self).spec_tabu(),
            final(self).spec_not_tabu().len() == old(self).spec_not_tabu().len() - n,
            final(self).spec_repair_ops() == old(self).spec_repair_ops(),
            final(self).spec_destroy_ops() == old(self).spec_destroy_ops(),
            final(self).spec_last_used() == old(self).spec_last_used(),
            final(self).spec_stats() == old(self).spec_stats(),
    {
        let ghost before = *self;
        let mut customer_nos: Vec<usize> = Vec::new();
        let mut k: usize = 0;
        while k < n
            invariant
                k <= n <= before.stop_not_tabu@.len(),
                before.stop_not_tabu@.no_duplicates(),
                self.stop_not_tabu@.len() == before.stop_not_tabu@.len() - k,
                self.stop_not_tabu@.no_duplicates(),
                customer_nos@.len() == k,
                customer_nos@.no_duplicates(),
                forall|x: usize|
                    !(#[trigger] customer_nos@.contains(x) && #[trigger] self.stop_not_tabu@.contains(
                        x,
                    )),
                forall|x: usize| #[trigger]
                    before.stop_not_tabu@.contains(x) <==> customer_nos@.contains(x)
                        || self.stop_not_tabu@.contains(x),
                self.instance == before.instance,
                self.stop_tabu == before.stop_tabu,
                self.current == before.current,
                self.repair_ops == before.repair_ops,
                self.destroy_ops == before.destroy_ops,
                self.last_used_repair_op == before.last_used_repair_op,
                self.last_used_destroy_op == before.last_used_destroy_op,
                self.stats == before.stats,
            decreases n - k,
        {
            let rem_index = random_below(self.stop_not_tabu.len());
            let ghost pool = self.stop_not_tabu@;
            let ghost picked = customer_nos@;
            proof {
                lemma_swap_remove(pool, rem_index as int);
            }
            let cust = self.stop_not_tabu.swap_remove(rem_index);
            customer_nos.push(cust);
            proof {
                assert(pool.contains(cust));
                assert forall|x: usize| #[trigger]
                    customer_nos@.contains(x) <==> picked.contains(x) || x == cust by {
                    crate::seq_util::lemma_insert_contains(picked, k as int, cust, x);
                    assert(picked.insert(k as int, cust) =~= customer_nos@);
                }
                assert(customer_nos@.no_duplicates()) by {
                    crate::seq_util::lemma_insert_no_duplicates(picked, k as int, cust);
                    assert(picked.insert(k as int, cust) =~= customer_nos@);
                }
            }
            k = k + 1;
        }
        proof {
            assert forall|i: int| 0 <= i < customer_nos@.len() implies 1 <= #[trigger] customer_nos@[i]
                < self.spec_instance().num_customers by {
                assert(customer_nos@.contains(customer_nos@[i]));
                assert(before.stop_not_tabu@.contains(customer_nos@[i]));
            }
        }
        let ghost picked = *self;
        let res = self.extract_customers(&customer_nos);
        proof {
            assert forall|c: int| is_pending(res@, c) <==> 0 <= c <= usize::MAX
                && customer_nos@.contains(c as usize) by {
                if is_pending(res@, c) {
                    let i = choose|i: int|
                        0 <= i < res@.len() && (#[trigger] res@[i]).0.cust_no() == c;
                    assert(customer_nos@[i] == c);
                }
                if 0 <= c <= usize::MAX && customer_nos@.contains(c as usize) {
                    let i = choose|i: int|
                        0 <= i < customer_nos@.len() && customer_nos@[i] == c as usize;
                    assert(res@[i].0.cust_no() == c);
                }
            }
            assert forall|i: int| 0 <= i < res@.len() implies before.spec_not_tabu().contains(
                (#[trigger] res@[i]).0.cust_no() as usize,
            ) by {
                assert(customer_nos@.contains(customer_nos@[i]));
            }
            assert(self.pool_without(res@)) by {
                assert forall|x: usize| #[trigger]
                    self.spec_tabu().contains(x) implies 1 <= x
                    < self.spec_instance().num_customers && !is_pending(res@, x as int) by {
                    assert(before.spec_tabu().contains(x));
                    if customer_nos@.contains(x) {
                        assert(before.spec_not_tabu().contains(x));
                    }
                }
                assert forall|x: usize| #[trigger]
                    self.spec_not_tabu().contains(x) implies 1 <= x
                    < self.spec_instance().num_customers && !is_pending(res@, x as int) by {
                    assert(before.spec_not_tabu().contains(x));
                }
                assert forall|x: usize|
                    !(#[trigger] self.spec_tabu().contains(x)
                        && #[trigger] self.spec_not_tabu().contains(x)) by {
                    if self.spec_not_tabu().contains(x) {
                        assert(before.spec_not_tabu().contains(x));
                    }
                }
                assert forall|c: usize|
                    1 <= c < self.spec_instance().num_customers implies #[trigger] self.spec_tabu().contains(
                    c,
                ) || #[trigger] self.spec_not_tabu().contains(c) || is_pending(res@, c as int) by {
                    assert(!is_pending(Seq::<(Stop, usize)>::empty(), c as int));
                    if before.spec_not_tabu().contains(c) {
                        assert(customer_nos@.contains(c) || self.spec_not_tabu().contains(c));
                    }
                }
            }
        }
        res
    }

    /// Puts the removed customers at the back of the tabu queue and lets the
    /// oldest go from its front, back into the pool, until it holds no more
    /// than a tenth of the customers.
    pub fn update_tabu(&mut self, res: &Vec<(Stop, usize)>)
        requires
            old(self).damaged(res@),
        ensures
            final(self).marked(res@),
            final(self).spec_tabu().len() <= final(self).spec_instance().num_customers / 10,
            final(self).spec_tabu() == tabu_after(
                old(self).spec_tabu() + removed_customers(res@),
                old(self).spec_instance().num_customers as int / 10,
            ),
            final(self).spec_not_tabu() == old(self).spec_not_tabu() + released(
                old(self).spec_tabu() + removed_customers(res@),
                old(self).spec_instance().num_customers as int / 10,
            ),
            final(self).spec_current() == old(self).spec_current(),
            final(self).spec_instance() == old(self).spec_instance(),
            final(self).spec_repair_ops() == old(self).spec_repair_ops(),
            final(self).spec_destroy_ops() == old(self).spec_destroy_ops(),
            final(self).spec_last_used() == old(self).spec_last_used(),
            final(self).spec_stats() == old(self).spec_stats(),
    {
        let ghost before = *self;
        let mut k: usize = 0;
        proof {
            assert(res@.skip(0) =~= res@);
        }
        while k < res.len()
            invariant
                k <= res@.len(),
                pending_ok(&self.spec_instance(), res@),
                self.pool_without(res@.skip(k as int)),
                self.stop_tabu@ == before.stop_tabu@ + removed_customers(res@).take(k as int),
                self.stop_not_tabu == before.stop_not_tabu,
                self.instance == before.instance,
                self.current == before.current,
                self.repair_ops == before.repair_ops,
                self.destroy_ops == before.destroy_ops,
                self.last_used_repair_op == before.last_used_repair_op,
                self.last_used_destroy_op == before.last_used_destroy_op,
                self.stats == before.stats,
            decreases res@.len() - k,
        {
            let cust_no = res[k].0.cust_no() as usize;
            let ghost tabu = self.stop_tabu@;
            let ghost rest = res@.skip(k as int);
            let ghost later = res@.skip(k + 1);
            proof {
                assert(rest[0] == res@[k as int]);
                assert(is_pending(rest, cust_no as int));
                assert forall|c: int| is_pending(rest, c) <==> is_pending(later, c) || c
                    == cust_no by {
                    if is_pending(rest, c) {
                        let i = choose|i: int|
                            0 <= i < rest.len() && (#[trigger] rest[i]).0.cust_no() == c;
                        if i > 0 {
                            assert(later[i - 1] == rest[i]);
                        }
                    }
                    if is_pending(later, c) {
                        let i = choose|i: int|
                            0 <= i < later.len() && (#[trigger] later[i]).0.cust_no() == c;
                        assert(rest[i + 1] == later[i]);
                    }
                }
                assert(!is_pending(later, cust_no as int)) by {
                    if is_pending(later, cust_no as int) {
                        let i = choose|i: int|
                            0 <= i < later.len() && (#[trigger] later[i]).0.cust_no()
                                == cust_no as int;
                        assert(later[i] == res@[k + 1 + i]);
                        assert(res@[k as int].0.cust_no() != res@[k + 1 + i].0.cust_no());
                    }
                }
                crate::seq_util::lemma_insert_no_duplicates(tabu, tabu.len() as int, cust_no);
                assert(tabu.insert(tabu.len() as int, cust_no) =~= tabu.push(cust_no));
                assert forall|x: usize| #[trigger]
                    tabu.push(cust_no).contains(x) <==> tabu.contains(x) || x == cust_no by {
                    crate::seq_util::lemma_insert_contains(tabu, tabu.len() as int, cust_no, x);
                }
            }
            self.stop_tabu.push_back(cust_no);
            proof {
                assert(removed_customers(res@).take(k + 1) =~= removed_customers(res@).take(
                    k as int,
                ).push(cust_no));
                assert(self.stop_tabu@ =~= before.stop_tabu@ + removed_customers(res@).take(k + 1));
            }
            k = k + 1;
        }
        let ghost all = self.stop_tabu@;
        let ghost limit = self.instance.num_customers as int / 10;
        let ghost mut gone: int = 0;
        proof {
            assert(res@.skip(k as int) =~= Seq::<(Stop, usize)>::empty());
            assert(removed_customers(res@).take(k as int) =~= removed_customers(res@));
            assert(all.skip(0) =~= all);
            assert(all.take(0) =~= Seq::<usize>::empty());
            assert(before.stop_not_tabu@ + all.take(0) =~= before.stop_not_tabu@);
        }
        while self.stop_tabu.len() > self.instance.num_customers / 10
            invariant
                self.pool_without(Seq::empty()),
                limit == self.instance.num_customers as int / 10,
                all == before.stop_tabu@ + removed_customers(res@),
                0 <= gone <= all.len(),
                gone > 0 ==> all.len() - gone >= limit,
                self.stop_tabu@ == all.skip(gone),
                self.stop_not_tabu@ == before.stop_not_tabu@ + all.take(gone),
                self.instance == before.instance,
                self.current == before.current,
                self.repair_ops == before.repair_ops,
                self.destroy_ops == before.destroy_ops,
                self.last_used_repair_op == before.last_used_repair_op,
                self.last_used_destroy_op == before.last_used_destroy_op,
                self.stats == before.stats,
            decreases self.stop_tabu@.len(),
        {
            let ghost tabu = self.stop_tabu@;
            let ghost pool = self.stop_not_tabu@;
            let allowed = self.stop_tabu.pop_front();
            if let Some(allowed) = allowed {
                proof {
                    assert(tabu.subrange(1, tabu.len() as int) =~= tabu.remove(0));
                    crate::seq_util::lemma_remove_no_duplicates(tabu, 0);
                    assert(tabu.contains(allowed));
                    crate::seq_util::lemma_insert_no_duplicates(pool, pool.len() as int, allowed);
                    assert(pool.insert(pool.len() as int, allowed) =~= pool.push(allowed));
                    assert forall|x: usize| #[trigger]
                        pool.push(allowed).contains(x) <==> pool.contains(x) || x == allowed by {
                        crate::seq_util::lemma_insert_contains(
                            pool,
                            pool.len() as int,
                            allowed,
                            x,
                        );
                    }
                    assert forall|x: usize| x != allowed implies (
                    #[trigger] tabu.remove(0).contains(x) <==> tabu.contains(x)) by {}
                }
                self.stop_not_tabu.push(allowed);
                proof {
                    assert(all.skip(gone)[0] == all[gone]);
                    assert(all.skip(gone).subrange(1, all.skip(gone).len() as int) =~= all.skip(
                        gone + 1,
                    ));
                    assert(all.take(gone + 1) =~= all.take(gone).push(all[gone]));
                    assert(self.stop_not_tabu@ =~= before.stop_not_tabu@ + all.take(gone + 1));
                    gone = gone + 1;
                    assert forall|c: usize|
                        1 <= c < self.spec_instance().num_customers implies #[trigger] self.spec_tabu().contains(
                        c,
                    ) || #[trigger] self.spec_not_tabu().contains(c) || is_pending(
                        Seq::empty(),
                        c as int,
                    ) by {
                        if tabu.contains(c) && c != allowed {
                            assert(tabu.remove(0).contains(c) <==> tabu.contains(c));
                        }
                    }
                    assert forall|x: usize| #[trigger]
                        self.spec_tabu().contains(x) implies 1 <= x
                        < self.spec_instance().num_customers && !is_pending(
                        Seq::<(Stop, usize)>::empty(),
                        x as int,
                    ) by {
                        if x != allowed {
                            assert(tabu.remove(0).contains(x) <==> tabu.contains(x));
                        }
                    }
                    assert forall|x: usize|
                        !(#[trigger] self.spec_tabu().contains(x)
                            && #[trigger] self.spec_not_tabu().contains(x)) by {
                        if x != allowed {
                            assert(tabu.remove(0).contains(x) <==> tabu.contains(x));
                        }
                    }
                }
            }
        }
        proof {
            lemma_tabu_after(all, limit, gone);
        }
    }

    /// How unlike customer `c` is to customer `seed`: their distance, and a
    /// unit of length for each unit by which their demands differ.
    pub open spec fn shaw_score(inst: &VRPInstance, seed: int, c: int) -> int {
        let gap = inst.spec_demand(seed) - inst.spec_demand(c);
        inst.spec_dist(seed, c) + UNIT * if gap < 0 {
            -gap
        } else {
            gap
        }
    }

    /// The rank of customer `c` by likeness to `seed`, equal scores by
    /// customer number.
    pub open spec fn shaw_key(inst: &VRPInstance, seed: int, c: int) -> int {
        Self::shaw_score(inst, seed, c) * 0x1_0000 + c
    }

    /// Whether `res` holds the customers most like customer `seed`, the most
    /// alike first: each ranks before those after it and before every
    /// customer left in the pool `left`.
    pub open spec fn is_shaw_choice(
        inst: &VRPInstance,
        seed: int,
        res: Seq<(Stop, usize)>,
        left: Seq<usize>,
    ) -> bool {
        &&& forall|i: int, j: int|
            0 <= i < j < res.len() ==> Self::shaw_key(
                inst,
                seed,
                (#[trigger] res[i]).0.cust_no() as int,
            ) < Self::shaw_key(inst, seed, (#[trigger] res[j]).0.cust_no() as int)
        &&& forall|i: int, x: usize|
            0 <= i < res.len() && left.contains(x) ==> Self::shaw_key(
                inst,
                seed,
                (#[trigger] res[i]).0.cust_no() as int,
            ) < #[trigger] Self::shaw_key(inst, seed, x as int)
    }

    /// The pools hold all the customers but those of `res` once the
    /// customers `picked`, which are those of `res`, have left the pool.
    proof fn lemma_picked_pool(
        before: &ALNSSolver,
        after: &ALNSSolver,
        picked: Seq<usize>,
        res: Seq<(Stop, usize)>,
    )
        requires
            before.pool_without(Seq::empty()),
            after.spec_instance() == before.spec_instance(),
            after.spec_tabu() == before.spec_tabu(),
            after.spec_not_tabu().no_duplicates(),
            forall|x: usize|
                !(#[trigger] picked.contains(x) && #[trigger] after.spec_not_tabu().contains(x)),
            forall|x: usize| #[trigger]
                before.spec_not_tabu().contains(x) <==> picked.contains(x)
                    || after.spec_not_tabu().contains(x),
            res.len() == picked.len(),
            forall|i: int| 0 <= i < res.len() ==> (#[trigger] res[i]).0.cust_no() == picked[i],
        ensures
            after.pool_without(res),
    {
        assert forall|c: int| is_pending(res, c) <==> 0 <= c <= usize::MAX && picked.contains(
            c as usize,
        ) by {
            if is_pending(res, c) {
                let i = choose|i: int| 0 <= i < res.len() && (#[trigger] res[i]).0.cust_no() == c;
                assert(picked[i] == c);
            }
            if 0 <= c <= usize::MAX && picked.contains(c as usize) {
                let i = choose|i: int| 0 <= i < picked.len() && picked[i] == c as usize;
                assert(res[i].0.cust_no() == c);
            }
        }
        assert forall|x: usize| #[trigger]
            after.spec_tabu().contains(x) implies 1 <= x < after.spec_instance().num_customers
            && !is_pending(res, x as int) by {
            assert(before.spec_tabu().contains(x));
            if picked.contains(x) {
                assert(before.spec_not_tabu().contains(x));
            }
        }
        assert forall|x: usize| #[trigger]
            after.spec_not_tabu().contains(x) implies 1 <= x
            < after.spec_instance().num_customers && !is_pending(res, x as int) by {
            assert(before.spec_not_tabu().contains(x));
        }
        assert forall|x: usize|
            !(#[trigger] after.spec_tabu().contains(x) && #[trigger] after.spec_not_tabu().contains(
                x,
            )) by {
            if after.spec_not_tabu().contains(x) {
                assert(before.spec_not_tabu().contains(x));
            }
        }
        assert forall|c: usize|
            1 <= c < after.spec_instance().num_customers implies #[trigger] after.spec_tabu().contains(
            c,
        ) || #[trigger] after.spec_not_tabu().contains(c) || is_pending(res, c as int) by {
            assert(!is_pending(Seq::<(Stop, usize)>::empty(), c as int));
            if before.spec_not_tabu().contains(c) {
                assert(picked.contains(c) || after.spec_not_tabu().contains(c));
            }
        }
    }

    /// Removes the `n` customers most like customer `seed`, among those that
    /// are not tabu, from the pool and from the current solution, and hands
    /// back their stops, the most alike first, each with the route that
    /// served it.
    pub fn remove_n_shaw_from(&mut self, seed: usize, n: usize) -> (res: Vec<(Stop, usize)>)
        requires
            old(self).intact(),
            1 <= seed < old(self).spec_instance().num_customers,
            n <= old(self).spec_not_tabu().len(),
        ensures
            final(self).damaged(res@),
            res@.len() == n,
            final(self).spec_current().plan() == pruned(
                old(self).spec_current().plan(),
                stop_numbers(res@),
            ),
            forall|i: int|
                0 <= i < res@.len() ==> old(self).spec_not_tabu().contains(
                    (#[trigger] res@[i]).0.cust_no() as usize,
                ) && res@[i].1 < old(self).spec_current().routes@.len() && old(self).spec_current().routes@[res@[i].1 as int].serves(res@[i].0.cust_no() as int),
            Self::is_shaw_choice(
                &old(self).spec_instance(),
                seed as int,
                res@,
                final(self).spec_not_tabu(),
            ),
            final(self).spec_instance() == old(self).spec_instance(),
            final(self).spec_tabu() == old(self).spec_tabu(),
            final(self).spec_not_tabu().len() == old(self).spec_not_tabu().len() - n,
            final(self).spec_repair_ops() == old(self).spec_repair_ops(),
            final(self).spec_destroy_ops() == old(self).spec_destroy_ops(),
            final(self).spec_last_used() == old(self).spec_last_used(),
            final(self).spec_stats() == old(self).spec_stats(),
    {
        let ghost before = *self;
        let ghost inst = self.spec_instance();
        let ghost pool = self.stop_not_tabu@;
        let mut keys: Vec<i128> = Vec::new();
        let mut i: usize = 0;
        while i < self.stop_not_tabu.len()
            invariant
                *self == before,
                before.intact(),
                inst == before.spec_instance(),
                pool == before.stop_not_tabu@,
                1 <= seed < inst.num_customers,
                i <= pool.len(),
                keys@.len() == i,
                forall|j: int|
                    0 <= j < i ==> #[trigger] keys@[j] == Self::shaw_key(
                        &inst,
                        seed as int,
                        pool[j] as int,
                    ),
            decreases pool.len() - i,
        {
            let c = self.stop_not_tabu[i];
            assert(pool.contains(c));
            let dist = self.instance.distance_matrix.dist(seed, c) as i128;
            let seed_demand = self.instance.demand_of_customer[seed] as i128;
            let demand = self.instance.demand_of_customer[c] as i128;
            let gap: i128 = if seed_demand < demand {
                demand - seed_demand
            } else {
                seed_demand - demand
            };
            assert(1000 * gap <= 1000 * 0xffff_ffff_ffff_ffff) by (nonlinear_arith)
                requires
                    0 <= gap <= 0xffff_ffff_ffff_ffff,
            ;
            let score: i128 = dist + 1000 * gap;
            assert(score * 0x1_0000 <= (0xffff_ffff + 1000 * 0xffff_ffff_ffff_ffff) * 0x1_0000)
                by (nonlinear_arith)
                requires
                    0 <= score <= 0xffff_ffff + 1000 * 0xffff_ffff_ffff_ffff,
            ;
            assert(0 <= score * 0x1_0000) by (nonlinear_arith)
                requires
                    0 <= score,
            ;
            keys.push(score * 0x1_0000 + c as i128);
            i = i + 1;
        }
        let order = order_by_key(&keys);
        let mut customer_nos: Vec<usize> = Vec::new();
        let mut rest: Vec<usize> = Vec::new();
        let mut k: usize = 0;
        while k < order.len()
            invariant
                *self == before,
                pool == before.stop_not_tabu@,
                is_key_order(keys@, order@),
                keys@.len() == pool.len(),
                n <= pool.len(),
                k <= order@.len(),
                customer_nos@.len() == if k < n {
                    k
                } else {
                    n
                },
                rest@.len() == if k < n {
                    0
                } else {
                    k - n
                },
                forall|j: int|
                    0 <= j < customer_nos@.len() ==> #[trigger] customer_nos@[j] == pool[order@[j] as int],
                forall|j: int| 0 <= j < rest@.len() ==> #[trigger] rest@[j] == pool[order@[n + j] as int],
            decreases order@.len() - k,
        {
            let c = self.stop_not_tabu[order[k]];
            if k < n {
                customer_nos.push(c);
            } else {
                rest.push(c);
            }
            k = k + 1;
        }
        proof {
            assert forall|a: int, b: int|
                0 <= a < customer_nos@.len() && 0 <= b < customer_nos@.len() && a
                    != b implies customer_nos@[a] != customer_nos@[b] by {
                if a < b {
                    assert(order@[a] != order@[b]);
                } else {
                    assert(order@[b] != order@[a]);
                }
            }
            assert forall|a: int, b: int|
                0 <= a < rest@.len() && 0 <= b < rest@.len() && a != b implies rest@[a]
                != rest@[b] by {
                if a < b {
                    assert(order@[n + a] != order@[n + b]);
                } else {
                    assert(order@[n + b] != order@[n + a]);
                }
            }
            assert forall|x: usize|
                !(#[trigger] customer_nos@.contains(x) && #[trigger] rest@.contains(x)) by {
                if customer_nos@.contains(x) && rest@.contains(x) {
                    let a = choose|a: int| 0 <= a < customer_nos@.len() && customer_nos@[a] == x;
                    let b = choose|b: int| 0 <= b < rest@.len() && rest@[b] == x;
                    assert(order@[a] != order@[n + b]);
                }
            }
            assert forall|x: usize| #[trigger]
                pool.contains(x) <==> customer_nos@.contains(x) || rest@.contains(x) by {
                if pool.contains(x) {
                    let p = choose|p: int| 0 <= p < pool.len() && pool[p] == x;
                    assert(order@.contains(p as usize));
                    let j = choose|j: int| 0 <= j < order@.len() && order@[j] == p as usize;
                    if j < n {
                        assert(customer_nos@[j] == x);
                    } else {
                        assert(rest@[j - n] == x);
                    }
                }
                if customer_nos@.contains(x) {
                    let a = choose|a: int| 0 <= a < customer_nos@.len() && customer_nos@[a] == x;
                    assert(pool[order@[a] as int] == x);
                }
                if rest@.contains(x) {
                    let b = choose|b: int| 0 <= b < rest@.len() && rest@[b] == x;
                    assert(pool[order@[n + b] as int] == x);
                }
            }
            assert forall|j: int| 0 <= j < customer_nos@.len() implies 1 <= #[trigger] customer_nos@[j]
                < inst.num_customers by {
                assert(pool.contains(pool[order@[j] as int]));
            }
        }
        self.stop_not_tabu = rest;
        let res = self.extract_customers(&customer_nos);
        proof {
            Self::lemma_picked_pool(&before, self, customer_nos@, res@);
            assert forall|i: int| 0 <= i < res@.len() implies before.spec_not_tabu().contains(
                (#[trigger] res@[i]).0.cust_no() as usize,
            ) by {
                assert(customer_nos@.contains(customer_nos@[i]));
            }
            assert forall|i: int, j: int| 0 <= i < j < res@.len() implies Self::shaw_key(
                &inst,
                seed as int,
                (#[trigger] res@[i]).0.cust_no() as int,
            ) < Self::shaw_key(&inst, seed as int, (#[trigger] res@[j]).0.cust_no() as int) by {
                assert(pair_le(
                    (keys@[order@[i] as int], order@[i]),
                    (keys@[order@[j] as int], order@[j]),
                ));
                assert(order@[i] != order@[j]);
                assert(pool[order@[i] as int] != pool[order@[j] as int]);
                assert(res@[i].0.cust_no() == customer_nos@[i]);
                assert(res@[j].0.cust_no() == customer_nos@[j]);
            }
            assert forall|i: int, x: usize|
                0 <= i < res@.len() && self.spec_not_tabu().contains(x) implies Self::shaw_key(
                &inst,
                seed as int,
                (#[trigger] res@[i]).0.cust_no() as int,
            ) < #[trigger] Self::shaw_key(&inst, seed as int, x as int) by {
                let b = choose|b: int| 0 <= b < rest@.len() && rest@[b] == x;
                assert(pair_le(
                    (keys@[order@[i] as int], order@[i]),
                    (keys@[order@[n + b] as int], order@[n + b]),
                ));
                assert(order@[i] != order@[n + b]);
                assert(pool[order@[i] as int] != pool[order@[n + b] as int]);
                assert(res@[i].0.cust_no() == customer_nos@[i]);
            }
        }
        res
    }

    /// Removes the `n` customers most like a customer drawn at random, among
    /// those that are not tabu, and hands back their stops, each with the
    /// route that served it.
    pub fn remove_n_shaw(&mut self, n: usize) -> (res: Vec<(Stop, usize)>)
        requires
            old(self).intact(),
            0 < n <= old(self).spec_not_tabu().len(),
        ensures
            final(self).damaged(res@),
            res@.len() == n,
            final(self).spec_current().plan() == pruned(
                old(self).spec_current().plan(),
                stop_numbers(res@),
            ),
            forall|i: int|
                0 <= i < res@.len() ==> old(self).spec_not_tabu().contains(
                    (#[trigger] res@[i]).0.cust_no() as usize,
                ) && res@[i].1 < old(self).spec_current().routes@.len() && old(self).spec_current().routes@[res@[i].1 as int].serves(res@[i].0.cust_no() as int),
            exists|seed: int|
                1 <= seed < old(self).spec_instance().num_customers && #[trigger] Self::is_shaw_choice(
                    &old(self).spec_instance(),
                    seed,
                    res@,
                    final(self).spec_not_tabu(),
                ),
            final(self).spec_instance() == old(self).spec_instance(),
            final(self).spec_tabu() == old(self).spec_tabu(),
            final(self).spec_not_tabu().len() == old(self).spec_not_tabu().len() - n,
            final(self).spec_repair_ops() == old(self).spec_repair_ops(),
            final(self).spec_destroy_ops() == old(self).spec_destroy_ops(),
            final(self).spec_last_used() == old(self).spec_last_used(),
            final(self).spec_stats() == old(self).spec_stats(),
    {
        proof {
            assert(self.spec_not_tabu().contains(self.spec_not_tabu()[0]));
        }
        let seed_cust_no = 1 + random_below(self.instance.num_customers - 1);
        let ghost inst = self.spec_instance();
        let res = self.remove_n_shaw_from(seed_cust_no, n);
        proof {
            assert(1 <= seed_cust_no < inst.num_customers && Self::is_shaw_choice(
                &inst,
                seed_cust_no as int,
                res@,
                self.spec_not_tabu(),
            ));
        }
        res
    }

    /// Whether the draw `draw`, a number below the sum of the two weights,
    /// falls to the first of the two operators: the first `weight` numbers
    /// are its own.
    pub fn picks_first(ops: &Vec<Operator>, draw: usize) -> (first: bool)
        requires
            ops@.len() == 2,
        ensures
            first == (draw < ops@[0].weight),
    {
        (draw as u64) < ops[0].weight
    }

    /// Whether the first of two operators is drawn, each with a chance in
    /// proportion to its weight.
    fn draws_first(ops: &Vec<Operator>) -> (first: bool)
        requires
            ops@.len() == 2,
            ops@[0].wf(),
            ops@[1].wf(),
    {
        let total = ops[0].weight + ops[1].weight;
        let draw = random_below(total as usize);
        Self::picks_first(ops, draw)
    }

    /// With no stop removed the routes are as they were.
    pub proof fn lemma_nothing_removed(&self, none: Seq<(Stop, usize)>)
        requires
            none.len() == 0,
        ensures
            self.spec_current().plan() == pruned(self.spec_current().plan(), stop_numbers(none)),
            removed_customers(none) == Seq::<usize>::empty(),
            removed_routes(none) == Seq::<usize>::empty(),
    {
        let plan = self.spec_current().plan();
        assert(stop_numbers(none) =~= Seq::<u16>::empty());
        assert(removed_customers(none) =~= Seq::<usize>::empty());
        assert(removed_routes(none) =~= Seq::<usize>::empty());
        assert(plan =~= pruned(plan, stop_numbers(none))) by {
            assert forall|q: int| 0 <= q < plan.len() implies #[trigger] plan[q] == pruned(
                plan,
                stop_numbers(none),
            )[q] by {
                lemma_without_none(plan[q]);
            }
        }
    }

    /// Whether `self` comes of `before` by the removal of the stops `res`,
    /// as many as `wanted` or as the pool holds: each was in the pool and on
    /// the route named with it, the tabu queue, the instance and the
    /// operators are as they were, and the removals are counted.
    pub open spec fn removal_effect(
        &self,
        before: &ALNSSolver,
        res: Seq<(Stop, usize)>,
        wanted: int,
    ) -> bool {
        &&& self.taken_out(before, res)
        &&& res.len() == if before.spec_not_tabu().len() < wanted {
            before.spec_not_tabu().len() as int
        } else {
            wanted
        }
        &&& forall|i: int|
            0 <= i < res.len() ==> before.spec_not_tabu().contains(
                (#[trigger] res[i]).0.cust_no() as usize,
            )
        &&& self.spec_not_tabu().len() == before.spec_not_tabu().len() - res.len()
        &&& self.spec_tabu() == before.spec_tabu()
        &&& self.spec_instance() == before.spec_instance()
        &&& self.spec_repair_ops() == before.spec_repair_ops()
        &&& self.spec_destroy_ops() == before.spec_destroy_ops()
        &&& self.spec_last_used().1 == before.spec_last_used().1
        &&& self.spec_stats().counted_removed(
            &before.spec_stats(),
            removed_customers(res),
            removed_routes(res),
        )
    }

    /// Whether `self` comes of `before` by a destroy that handed out `res`:
    /// the removal of up to five stops, by the first operator at random or
    /// by the second by likeness to some customer.
    pub open spec fn destroy_effect(&self, before: &ALNSSolver, res: Seq<(Stop, usize)>) -> bool {
        &&& self.removal_effect(before, res, 5)
        &&& if res.len() == 0 {
            self.spec_last_used().0 == before.spec_last_used().0
        } else {
            self.spec_last_used().0 == 0 || (self.spec_last_used().0 == 1 && exists|seed: int|
                1 <= seed < before.spec_instance().num_customers && #[trigger] Self::is_shaw_choice(
                    &before.spec_instance(),
                    seed,
                    res,
                    self.spec_not_tabu(),
                ))
        }
    }

    /// Whether `self` comes of `before` by putting stops of `res` back, and
    /// `done` says how that ended: well, and then every customer is served
    /// and the routes that took a stop on are counted; or not, and then
    /// some stop of `res` is left that can be served nowhere, and nothing is
    /// counted. It ends well where one vehicle can carry all of `res` on top
    /// of its load. Stops are put back only: what was served is served. The
    /// pools, the instance and the operators are as they were.
    pub open spec fn repair_effect(
        &self,
        before: &ALNSSolver,
        res: Seq<(Stop, usize)>,
        done: Result<(), String>,
    ) -> bool {
        &&& self.wf()
        &&& self.spec_instance() == before.spec_instance()
        &&& self.spec_tabu() == before.spec_tabu()
        &&& self.spec_not_tabu() == before.spec_not_tabu()
        &&& self.spec_repair_ops() == before.spec_repair_ops()
        &&& self.spec_destroy_ops() == before.spec_destroy_ops()
        &&& self.spec_last_used().0 == before.spec_last_used().0
        &&& done is Ok <==> self.lacks(Seq::empty())
        &&& done is Err ==> self.stuck_on(res)
        &&& before.has_room_for_all(res) ==> done is Ok
        &&& forall|c: int| #[trigger]
            before.spec_current().serves(c) ==> self.spec_current().serves(c)
        &&& forall|c: int| #[trigger]
            self.spec_current().serves(c) ==> before.spec_current().serves(c) || is_pending(res, c)
        &&& match done {
            Ok(_) => exists|routes: Seq<usize>| #[trigger]
                self.spec_stats().counted_added(&before.spec_stats(), routes) && routes.len()
                    == res.len() && forall|i: int|
                    0 <= i < routes.len() ==> #[trigger] routes[i]
                        < self.spec_instance().num_vehicles,
            Err(_) => self.spec_stats() == before.spec_stats(),
        }
    }

    /// Whether `self` comes of `before` by a repair with one of the two
    /// repair operators: `repair_effect` holds, the stops went back as that
    /// operator puts them back, and it is recorded as the one used last.
    pub open spec fn drawn_repair_effect(
        &self,
        before: &ALNSSolver,
        res: Seq<(Stop, usize)>,
        done: Result<(), String>,
    ) -> bool {
        &&& self.repair_effect(before, res, done)
        &&& exists|first: bool, back: Result<Vec<usize>, String>| #[trigger]
            self.repaired_by(before, first, res, back) && (back is Ok <==> done is Ok)
                && self.spec_last_used().1 == if first {
                0usize
            } else {
                1usize
            }
    }

    /// Whether `self` comes of `before` by a repair by descending demand:
    /// `repair_effect` holds, the stops went back in that order, and the
    /// record of the operators used last is as it was.
    pub open spec fn best_insertion_effect(
        &self,
        before: &ALNSSolver,
        res: Seq<(Stop, usize)>,
        done: Result<(), String>,
    ) -> bool {
        &&& self.repair_effect(before, res, done)
        &&& self.spec_last_used() == before.spec_last_used()
        &&& exists|back: Result<Vec<usize>, String>| #[trigger]
            self.placed_by_demand(before, res, back) && (back is Ok <==> done is Ok)
    }

    /// Whether `self` comes of `before` by crediting the operators that
    /// were used last with `delta`; all else is as it was.
    pub open spec fn credit_effect(&self, before: &ALNSSolver, delta: usize) -> bool {
        &&& self.ops_wf()
        &&& self.spec_instance() == before.spec_instance()
        &&& self.spec_current() == before.spec_current()
        &&& self.spec_tabu() == before.spec_tabu()
        &&& self.spec_not_tabu() == before.spec_not_tabu()
        &&& self.spec_last_used() == before.spec_last_used()
        &&& self.spec_stats() == before.spec_stats()
        &&& forall|i: int|
            0 <= i < 2 ==> credited_op(
                #[trigger] self.spec_destroy_ops()[i],
                before.spec_destroy_ops()[i],
                i == before.spec_last_used().0,
                delta,
            )
        &&& forall|i: int|
            0 <= i < 2 ==> credited_op(
                #[trigger] self.spec_repair_ops()[i],
                before.spec_repair_ops()[i],
                i == before.spec_last_used().1,
                delta,
            )
    }

    /// Whether `self` comes of `before` by smoothing the weight of every
    /// operator towards its score and starting the scores anew; all else is
    /// as it was.
    pub open spec fn reweigh_effect(&self, before: &ALNSSolver) -> bool {
        &&& self.ops_wf()
        &&& self.spec_instance() == before.spec_instance()
        &&& self.spec_current() == before.spec_current()
        &&& self.spec_tabu() == before.spec_tabu()
        &&& self.spec_not_tabu() == before.spec_not_tabu()
        &&& self.spec_last_used() == before.spec_last_used()
        &&& self.spec_stats() == before.spec_stats()
        &&& forall|i: int|
            0 <= i < 2 ==> reweighed_op(
                #[trigger] self.spec_destroy_ops()[i],
                before.spec_destroy_ops()[i],
            )
        &&& forall|i: int|
            0 <= i < 2 ==> reweighed_op(
                #[trigger] self.spec_repair_ops()[i],
                before.spec_repair_ops()[i],
            )
    }

    /// Removes up to five customers that are not tabu from the current
    /// solution, by the destroy operator that the weights draw.
    pub fn destroy(&mut self) -> (res: Vec<(Stop, usize)>)
        requires
            old(self).intact(),
        ensures
            final(self).damaged(res@),
            final(self).destroy_effect(old(self), res@),
    {
        let available = self.stop_not_tabu.len();
        let n: usize = if available < 5 {
            available
        } else {
            5
        };
        if n == 0 {
            let none: Vec<(Stop, usize)> = Vec::new();
            proof {
                self.lemma_nothing_removed(none@);
            }
            return none;
        }
        let removed_stops = if Self::draws_first(&self.destroy_ops) {
            self.last_used_destroy_op = 0;
            self.remove_n_random_stops(n)
        } else {
            self.last_used_destroy_op = 1;
            self.remove_n_shaw(n)
        };
        self.note_removed(&removed_stops);
        removed_stops
    }

    /// Whether `stop` can be served somewhere.
    pub open spec fn has_place(&self, stop: Stop) -> bool {
        exists|spot: (usize, usize)| is_spot(&self.spec_current(), stop, spot)
    }

    /// Whether some stop of `pending` is not served and can be served
    /// nowhere.
    pub open spec fn stuck_on(&self, pending: Seq<(Stop, usize)>) -> bool {
        exists|i: int|
            0 <= i < pending.len() && !self.spec_current().serves(
                (#[trigger] pending[i]).0.cust_no() as int,
            ) && forall|spot: (usize, usize)| !is_spot(&self.spec_current(), pending[i].0, spot)
    }

    /// Whether one vehicle can carry all the stops of `pending` on top of
    /// its load.
    pub open spec fn has_room_for_all(&self, pending: Seq<(Stop, usize)>) -> bool {
        exists|r: int|
            0 <= r < self.spec_current().routes@.len() && (
            #[trigger] self.spec_current().routes@[r]).spec_used_capacity() + total_demand(
                pending_stops(pending),
            ) <= self.spec_instance().vehicle_capacity
    }

    /// Whether `self` comes of `before` by taking each stop of `res` out of
    /// the route that `res` names for it; the other stops keep their route
    /// and their order.
    pub open spec fn taken_out(&self, before: &ALNSSolver, res: Seq<(Stop, usize)>) -> bool {
        &&& self.damaged(res)
        &&& self.spec_instance() == before.spec_instance()
        &&& forall|i: int|
            0 <= i < res.len() ==> (#[trigger] res[i]).1 < before.spec_current().routes@.len()
                && before.spec_current().routes@[res[i].1 as int].serves(res[i].0.cust_no() as int)
        &&& self.spec_current().plan() == pruned(before.spec_current().plan(), stop_numbers(res))
    }

    /// What was taken from one route can be put back: after a removal
    /// whose stops all left the same route, that route has room for them
    /// all, so that the repair that follows ends well.
    pub proof fn lemma_room_after_removal(&self, before: &ALNSSolver, res: Seq<(Stop, usize)>)
        requires
            before.wf(),
            self.taken_out(before, res),
            res.len() > 0,
            forall|i: int| 0 <= i < res.len() ==> (#[trigger] res[i]).1 == res[0].1,
        ensures
            self.has_room_for_all(res),
    {
        let r = res[0].1 as int;
        let old_route = before.spec_current().routes@[r];
        let new_route = self.spec_current().routes@[r];
        let stops = old_route@;
        let gone = pending_stops(res);
        assert(before.spec_current().plan()[r] == stops);
        assert(self.spec_current().plan()[r] == without(stops, stop_numbers(res)));
        assert(self.spec_current().plan().len() == before.spec_current().plan().len());
        assert(self.spec_current().plan()[r] == new_route@);
        assert(stop_numbers(res) =~= numbers_of(gone));
        assert(old_route.wf());
        assert(new_route.wf());
        assert(customers_of(gone).no_duplicates()) by {
            assert forall|i: int, j: int|
                0 <= i < gone.len() && 0 <= j < gone.len() && i != j implies customers_of(gone)[i]
                != customers_of(gone)[j] by {
                if i < j {
                    assert(res[i].0.cust_no() != res[j].0.cust_no());
                } else {
                    assert(res[j].0.cust_no() != res[i].0.cust_no());
                }
            }
        }
        assert forall|i: int| 0 <= i < gone.len() implies stops.contains(#[trigger] gone[i]) by {
            assert(res[i].1 == res[0].1);
            assert(old_route.serves(res[i].0.cust_no() as int));
            let j = choose|j: int|
                0 <= j < old_route.customers().len() && old_route.customers()[j]
                    == res[i].0.cust_no() as int;
            assert(stops[j].cust_no() == res[i].0.cust_no());
            assert(stops[j].capacity() == before.spec_instance().spec_demand(
                stops[j].cust_no() as int,
            ));
            Stop::lemma_stop_ext(stops[j], res[i].0);
        }
        lemma_without_demand(stops, gone);
        assert(old_route.spec_used_capacity() <= before.spec_instance().vehicle_capacity);
        assert(new_route.spec_used_capacity() + total_demand(pending_stops(res))
            <= self.spec_instance().vehicle_capacity);
    }

    /// With one vehicle and two customers, a repair of what was taken out
    /// ends well and leads back to the cost before.
    pub proof fn lemma_small_repair_restores_cost(
        &self,
        start: &ALNSSolver,
        torn: &ALNSSolver,
        res: Seq<(Stop, usize)>,
        done: Result<(), String>,
    )
        requires
            start.intact(),
            start.spec_instance().num_vehicles == 1,
            start.spec_instance().num_customers == 3,
            torn.taken_out(start, res),
            self.repair_effect(torn, res, done),
        ensures
            done is Ok,
            self.spec_current().spec_cost() == start.spec_current().spec_cost(),
    {
        if res.len() > 0 {
            torn.lemma_room_after_removal(start, res);
        } else {
            assert(total_demand(pending_stops(res)) == 0);
            assert(torn.spec_current().routes@[0].spec_used_capacity()
                <= torn.spec_instance().vehicle_capacity);
        }
        assert(torn.has_room_for_all(res));
        start.lemma_intact_is_valid();
        assert(self.spec_current().is_valid(&self.spec_instance()));
        self.spec_current().lemma_two_customers_cost(&self.spec_instance());
        start.spec_current().lemma_two_customers_cost(&self.spec_instance());
    }

    /// A vehicle that can carry all the stops of `pending` can carry each.
    pub proof fn lemma_room_for_each(&self, pending: Seq<(Stop, usize)>, i: int)
        requires
            self.wf(),
            self.has_room_for_all(pending),
            0 <= i < pending.len(),
        ensures
            exists|spot: (usize, usize)| is_spot(&self.spec_current(), pending[i].0, spot),
    {
        let r = choose|r: int|
            0 <= r < self.spec_current().routes@.len() && (
            #[trigger] self.spec_current().routes@[r]).spec_used_capacity() + total_demand(
                pending_stops(pending),
            ) <= self.spec_instance().vehicle_capacity;
        lemma_stop_within_load(pending_stops(pending), i);
        assert(self.spec_current().routes@[r].inst() == self.spec_instance());
        assert(is_spot(&self.spec_current(), pending[i].0, (r as usize, 0usize)));
    }

    /// Whether `self` comes of `before` by serving `stop` at the place
    /// `spot`, all other routes left as they were.
    pub open spec fn put_at(&self, before: &ALNSSolver, stop: Stop, spot: (usize, usize)) -> bool {
        &&& is_spot(&before.spec_current(), stop, spot)
        &&& self.spec_current().routes@.len() == before.spec_current().routes@.len()
        &&& self.spec_current().routes@[spot.0 as int]@
            == before.spec_current().routes@[spot.0 as int]@.insert(spot.1 as int, stop)
        &&& forall|q: int|
            0 <= q < before.spec_current().routes@.len() && q != spot.0
                ==> self.spec_current().routes@[q] == before.spec_current().routes@[q]
    }

    /// Whether `self` comes of `before` by putting `stop` back, and `res`
    /// says how that ended. Where the stop can be served nowhere, nothing
    /// changes and `res` is an error. Else the stop goes to the place that
    /// `explore` numbers among those where it can be served, in scanning
    /// order, or, where `explore` is `None`, to the place that raises the
    /// cost least, the first such place in scanning order; `res` is its
    /// route.
    pub open spec fn placed(
        &self,
        before: &ALNSSolver,
        stop: Stop,
        explore: Option<usize>,
        res: Result<usize, String>,
    ) -> bool {
        match res {
            Err(_) => self.spec_current() == before.spec_current() && forall|spot: (usize, usize)|
                !is_spot(&before.spec_current(), stop, spot),
            Ok(r) => exists|spots: Seq<(usize, usize)>, best: usize|
                #![trigger is_cheapest(&before.spec_current(), stop, spots, Some(best))]
                is_spot_list(&before.spec_current(), stop, spots) && is_cheapest(
                    &before.spec_current(),
                    stop,
                    spots,
                    Some(best),
                ) && match explore {
                    Some(at) => at < spots.len() && r == spots[at as int].0 && self.put_at(
                        before,
                        stop,
                        spots[at as int],
                    ),
                    None => r == spots[best as int].0 && self.put_at(
                        before,
                        stop,
                        spots[best as int],
                    ),
                },
        }
    }

    /// Whether step `k` of `trail` puts the stop of `pending` that `order`
    /// names at `k` back, as `placed` says for some `explore`, on the route
    /// `routes[k]`.
    pub open spec fn is_reinsertion_step(
        trail: Seq<ALNSSolver>,
        routes: Seq<usize>,
        pending: Seq<(Stop, usize)>,
        order: Seq<usize>,
        k: int,
    ) -> bool {
        exists|explore: Option<usize>| #[trigger]
            trail[k + 1].placed(&trail[k], pending[order[k] as int].0, explore, Ok(routes[k]))
    }

    /// Whether `trail` holds the states through which `self` comes of
    /// `before` as the stops of `pending` go back one after the other in
    /// the order `order`, and `routes` the routes they go to: up to the last
    /// stop, and then `res` holds the routes, or up to the first stop that
    /// can be served nowhere, and then `res` is an error.
    pub open spec fn is_trail(
        &self,
        before: &ALNSSolver,
        pending: Seq<(Stop, usize)>,
        order: Seq<usize>,
        res: Result<Vec<usize>, String>,
        trail: Seq<ALNSSolver>,
        routes: Seq<usize>,
    ) -> bool {
        &&& trail.len() == routes.len() + 1
        &&& routes.len() <= order.len()
        &&& trail[0].spec_current() == before.spec_current()
        &&& trail.last().spec_current() == self.spec_current()
        &&& forall|k: int|
            0 <= k < routes.len() ==> #[trigger] Self::is_reinsertion_step(
                trail,
                routes,
                pending,
                order,
                k,
            )
        &&& match res {
            Ok(v) => v@ == routes && routes.len() == order.len(),
            Err(_) => routes.len() < order.len() && forall|spot: (usize, usize)|
                !is_spot(&self.spec_current(), pending[order[routes.len() as int] as int].0, spot),
        }
    }

    /// Whether `self` comes of `before` by putting the stops of `pending`
    /// back one after the other in the order `order`, each as `placed`
    /// says, up to the first that can be served nowhere.
    pub open spec fn placed_in_order(
        &self,
        before: &ALNSSolver,
        pending: Seq<(Stop, usize)>,
        order: Seq<usize>,
        res: Result<Vec<usize>, String>,
    ) -> bool {
        exists|trail: Seq<ALNSSolver>, routes: Seq<usize>| #[trigger]
            self.is_trail(before, pending, order, res, trail, routes)
    }

    /// Whether `self` comes of `before` by putting the stops of `pending`
    /// back by descending demand, equal demands in the order of `pending`.
    pub open spec fn placed_by_demand(
        &self,
        before: &ALNSSolver,
        pending: Seq<(Stop, usize)>,
        res: Result<Vec<usize>, String>,
    ) -> bool {
        exists|order: Seq<usize>|
            #![trigger is_key_order(demand_keys(pending), order)]
            is_key_order(demand_keys(pending), order) && self.placed_in_order(
                before,
                pending,
                order,
                res,
            )
    }

    /// Whether `self` comes of `before` by putting the stops of `pending`
    /// back by descending regret, as `before` gives it, equal regrets in the
    /// order of `pending`.
    pub open spec fn placed_by_regret(
        &self,
        before: &ALNSSolver,
        pending: Seq<(Stop, usize)>,
        res: Result<Vec<usize>, String>,
    ) -> bool {
        exists|keys: Seq<i128>, order: Seq<usize>|
            #![trigger is_key_order(keys, order)]
            keys.len() == pending.len() && (forall|i: int|
                0 <= i < keys.len() ==> before.is_regret_key(pending[i].0, #[trigger] keys[i]))
                && is_key_order(keys, order) && self.placed_in_order(before, pending, order, res)
    }

    /// Whether `self` comes of `before` by the repair operator that `first`
    /// names: by demand, or by regret. By regret nothing is put back where
    /// some stop can be served nowhere to begin with.
    pub open spec fn repaired_by(
        &self,
        before: &ALNSSolver,
        first: bool,
        pending: Seq<(Stop, usize)>,
        res: Result<Vec<usize>, String>,
    ) -> bool {
        if first {
            self.placed_by_demand(before, pending, res)
        } else if before.stuck_on(pending) {
            res is Err && self.spec_current() == before.spec_current()
        } else {
            self.placed_by_regret(before, pending, res)
        }
    }

    /// How the stops went back depends on the solutions before and after
    /// only.
    pub proof fn lemma_placed_in_order_routes(
        &self,
        before: &ALNSSolver,
        now: &ALNSSolver,
        then: &ALNSSolver,
        pending: Seq<(Stop, usize)>,
        order: Seq<usize>,
        res: Result<Vec<usize>, String>,
    )
        requires
            self.placed_in_order(before, pending, order, res),
            now.spec_current() == self.spec_current(),
            then.spec_current() == before.spec_current(),
        ensures
            now.placed_in_order(then, pending, order, res),
    {
        let (trail, routes) = choose|trail: Seq<ALNSSolver>, routes: Seq<usize>| #[trigger]
            self.is_trail(before, pending, order, res, trail, routes);
        assert(now.is_trail(then, pending, order, res, trail, routes));
    }

    /// How a repair went depends on the solutions before and after only.
    pub proof fn lemma_repaired_by_routes(
        &self,
        before: &ALNSSolver,
        now: &ALNSSolver,
        then: &ALNSSolver,
        first: bool,
        pending: Seq<(Stop, usize)>,
        res: Result<Vec<usize>, String>,
    )
        requires
            self.repaired_by(before, first, pending, res),
            now.spec_current() == self.spec_current(),
            then.spec_current() == before.spec_current(),
        ensures
            now.repaired_by(then, first, pending, res),
    {
        if first {
            let order = choose|order: Seq<usize>|
                #![trigger is_key_order(demand_keys(pending), order)]
                is_key_order(demand_keys(pending), order) && self.placed_in_order(
                    before,
                    pending,
                    order,
                    res,
                );
            self.lemma_placed_in_order_routes(before, now, then, pending, order, res);
            assert(is_key_order(demand_keys(pending), order) && now.placed_in_order(
                then,
                pending,
                order,
                res,
            ));
        } else if before.stuck_on(pending) {
            let i = choose|i: int|
                0 <= i < pending.len() && !before.spec_current().serves(
                    (#[trigger] pending[i]).0.cust_no() as int,
                ) && forall|spot: (usize, usize)|
                    !is_spot(&before.spec_current(), pending[i].0, spot);
            assert(0 <= i < pending.len() && !then.spec_current().serves(
                pending[i].0.cust_no() as int,
            ) && forall|spot: (usize, usize)| !is_spot(&then.spec_current(), pending[i].0, spot));
            assert(then.stuck_on(pending));
        } else {
            if then.stuck_on(pending) {
                let i = choose|i: int|
                    0 <= i < pending.len() && !then.spec_current().serves(
                        (#[trigger] pending[i]).0.cust_no() as int,
                    ) && forall|spot: (usize, usize)|
                        !is_spot(&then.spec_current(), pending[i].0, spot);
                assert(0 <= i < pending.len() && !before.spec_current().serves(
                    pending[i].0.cust_no() as int,
                ) && forall|spot: (usize, usize)|
                    !is_spot(&before.spec_current(), pending[i].0, spot));
                assert(before.stuck_on(pending));
            }
            let (keys, order) = choose|keys: Seq<i128>, order: Seq<usize>|
                #![trigger is_key_order(keys, order)]
                keys.len() == pending.len() && (forall|i: int|
                    0 <= i < keys.len() ==> before.is_regret_key(pending[i].0, #[trigger] keys[i]))
                    && is_key_order(keys, order) && self.placed_in_order(
                    before,
                    pending,
                    order,
                    res,
                );
            self.lemma_placed_in_order_routes(before, now, then, pending, order, res);
            assert forall|i: int| 0 <= i < keys.len() implies then.is_regret_key(
                pending[i].0,
                #[trigger] keys[i],
            ) by {
                assert(before.is_regret_key(pending[i].0, keys[i]));
            }
            assert(keys.len() == pending.len() && (forall|i: int|
                0 <= i < keys.len() ==> then.is_regret_key(pending[i].0, #[trigger] keys[i]))
                && is_key_order(keys, order) && now.placed_in_order(then, pending, order, res));
        }
    }

    /// Whether `key` is the key of `stop` in the order by regret: its
    /// regret over its two cheapest places, negated.
    pub open spec fn is_regret_key(&self, stop: Stop, key: i128) -> bool {
        exists|spots: Seq<(usize, usize)>| #[trigger]
            is_spot_list(&self.spec_current(), stop, spots) && regret_of(
                spot_increases(&self.spec_current(), stop, spots),
                2,
            ) == Some(-(key as int))
    }

    /// Serves `stop` at the place `spot`, and says on which route.
    fn place(&mut self, stop: Stop, spot: (usize, usize)) -> (r: usize)
        requires
            old(self).wf(),
            1 <= stop.cust_no() < old(self).spec_instance().num_customers,
            stop.capacity() == old(self).spec_instance().spec_demand(stop.cust_no() as int),
            !old(self).spec_current().serves(stop.cust_no() as int),
            is_spot(&old(self).spec_current(), stop, spot),
        ensures
            final(self).wf(),
            final(self).spec_instance() == old(self).spec_instance(),
            final(self).spec_tabu() == old(self).spec_tabu(),
            final(self).spec_not_tabu() == old(self).spec_not_tabu(),
            final(self).spec_repair_ops() == old(self).spec_repair_ops(),
            final(self).spec_destroy_ops() == old(self).spec_destroy_ops(),
            final(self).spec_last_used() == old(self).spec_last_used(),
            final(self).spec_stats() == old(self).spec_stats(),
            r == spot.0,
            final(self).put_at(old(self), stop, spot),
            final(self).spec_current().routes@[r as int].spec_used_capacity() == old(
                self,
            ).spec_current().routes@[r as int].spec_used_capacity() + stop.capacity(),
            forall|c: int|
                final(self).spec_current().serves(c) <==> old(self).spec_current().serves(c) || c
                    == stop.cust_no(),
    {
        self.current.add_stop(spot.0, stop, spot.1);
        spot.0
    }

    /// Puts `stop` back at the place that `explore` numbers among those
    /// where it can be served, in scanning order, or, where `explore` is
    /// `None`, at the place that raises the cost least, the first such place
    /// in scanning order; says on which route.
    ///
    /// Fails, and changes nothing, when the stop can be served nowhere.
    pub fn reinsert_where(&mut self, stop: Stop, explore: Option<usize>) -> (res: Result<
        usize,
        String,
    >)
        requires
            old(self).wf(),
            1 <= stop.cust_no() < old(self).spec_instance().num_customers,
            stop.capacity() == old(self).spec_instance().spec_demand(stop.cust_no() as int),
            !old(self).spec_current().serves(stop.cust_no() as int),
            explore matches Some(at) ==> forall|spots: Seq<(usize, usize)>| #[trigger]
                is_spot_list(&old(self).spec_current(), stop, spots) ==> spots.len() == 0 || at
                    < spots.len(),
        ensures
            final(self).wf(),
            final(self).spec_instance() == old(self).spec_instance(),
            final(self).spec_tabu() == old(self).spec_tabu(),
            final(self).spec_not_tabu() == old(self).spec_not_tabu(),
            final(self).spec_repair_ops() == old(self).spec_repair_ops(),
            final(self).spec_destroy_ops() == old(self).spec_destroy_ops(),
            final(self).spec_last_used() == old(self).spec_last_used(),
            final(self).spec_stats() == old(self).spec_stats(),
            final(self).placed(old(self), stop, explore, res),
            res is Ok ==> forall|c: int|
                final(self).spec_current().serves(c) <==> old(self).spec_current().serves(c) || c
                    == stop.cust_no(),
    {
        let ghost before = *self;
        let (spots, best) = insertion_spots(&self.current, &stop, &self.instance);
        let best = match best {
            Some(best) => best,
            None => {
                proof {
                    assert forall|spot: (usize, usize)|
                        !is_spot(&self.spec_current(), stop, spot) by {
                        if is_spot(&self.spec_current(), stop, spot) {
                            assert(spots@.contains(spot));
                        }
                    }
                }
                return Err("no place to put customer".to_string());
            },
        };
        let choice = match explore {
            Some(at) => at,
            None => best,
        };
        let r = self.place(stop, spots[choice]);
        let res: Result<usize, String> = Ok(r);
        proof {
            assert(is_cheapest(&before.spec_current(), stop, spots@, Some(best)));
            assert(self.placed(&before, stop, explore, res));
        }
        res
    }

    /// Puts `stop` where it raises the cost least, or, once in fifty times,
    /// at a place drawn at random from those where it can be served, and says
    /// on which route.
    ///
    /// Fails, and changes nothing, when the stop can be served nowhere.
    pub fn reinsert_in_best_spot(&mut self, stop: Stop) -> (res: Result<usize, String>)
        requires
            old(self).wf(),
            1 <= stop.cust_no() < old(self).spec_instance().num_customers,
            stop.capacity() == old(self).spec_instance().spec_demand(stop.cust_no() as int),
            !old(self).spec_current().serves(stop.cust_no() as int),
        ensures
            final(self).wf(),
            final(self).spec_instance() == old(self).spec_instance(),
            final(self).spec_tabu() == old(self).spec_tabu(),
            final(self).spec_not_tabu() == old(self).spec_not_tabu(),
            final(self).spec_repair_ops() == old(self).spec_repair_ops(),
            final(self).spec_destroy_ops() == old(self).spec_destroy_ops(),
            final(self).spec_last_used() == old(self).spec_last_used(),
            final(self).spec_stats() == old(self).spec_stats(),
            exists|explore: Option<usize>| #[trigger]
                final(self).placed(old(self), stop, explore, res),
            res matches Ok(r) ==> r < old(self).spec_current().routes@.len(),
            res matches Ok(r) ==> exists|index: usize|
                #![trigger is_spot(&old(self).spec_current(), stop, (r, index))]
                final(self).put_at(old(self), stop, (r, index)),
            res matches Ok(r) ==> final(self).spec_current().routes@[r as int].spec_used_capacity()
                == old(self).spec_current().routes@[r as int].spec_used_capacity()
                + stop.capacity(),
            res matches Ok(r) ==> forall|c: int|
                final(self).spec_current().serves(c) <==> old(self).spec_current().serves(c) || c
                    == stop.cust_no(),
            res is Err ==> final(self).spec_current() == old(self).spec_current(),
            res is Err ==> forall|spot: (usize, usize)|
                !is_spot(&old(self).spec_current(), stop, spot),
    {
        let ghost before = *self;
        let (spots, best) = insertion_spots(&self.current, &stop, &self.instance);
        let best = match best {
            Some(best) => best,
            None => {
                proof {
                    assert forall|spot: (usize, usize)|
                        !is_spot(&self.spec_current(), stop, spot) by {
                        if is_spot(&self.spec_current(), stop, spot) {
                            assert(spots@.contains(spot));
                        }
                    }
                }
                let res: Result<usize, String> = Err("no place to put customer".to_string());
                proof {
                    assert(self.placed(&before, stop, None, res));
                }
                return res;
            },
        };
        let explore = if random_ratio(1, 50) {
            Some(random_below(spots.len()))
        } else {
            None
        };
        let choice = match explore {
            Some(at) => at,
            None => best,
        };
        let spot = spots[choice];
        let r = self.place(stop, spot);
        let res: Result<usize, String> = Ok(r);
        proof {
            assert(is_cheapest(&before.spec_current(), stop, spots@, Some(best)));
            assert(self.placed(&before, stop, explore, res));
            assert(is_spot(&before.spec_current(), stop, (r, spot.1)) && self.put_at(
                &before,
                stop,
                (r, spot.1),
            ));
            assert(res->Ok_0 == r);
        }
        res
    }

    /// Puts the stops of `removed` back in the order `order`, each as
    /// `reinsert_in_best_spot` does, and says on which routes.
    ///
    /// Fails at the first stop that can be served nowhere.
    fn reinsert_in_order(&mut self, removed: &Vec<(Stop, usize)>, order: &Vec<usize>) -> (res:
        Result<Vec<usize>, String>)
        requires
            old(self).wf(),
            pending_ok(&old(self).spec_instance(), removed@),
            old(self).lacks(removed@),
            is_permutation(order@, removed@.len() as int),
        ensures
            final(self).wf(),
            final(self).spec_instance() == old(self).spec_instance(),
            final(self).spec_tabu() == old(self).spec_tabu(),
            final(self).spec_not_tabu() == old(self).spec_not_tabu(),
            final(self).spec_repair_ops() == old(self).spec_repair_ops(),
            final(self).spec_destroy_ops() == old(self).spec_destroy_ops(),
            final(self).spec_last_used() == old(self).spec_last_used(),
            final(self).spec_stats() == old(self).spec_stats(),
            res is Ok <==> final(self).lacks(Seq::empty()),
            res is Err ==> final(self).stuck_on(removed@),
            old(self).has_room_for_all(removed@) ==> res is Ok,
            final(self).placed_in_order(old(self), removed@, order@, res),
            forall|c: int| #[trigger]
                old(self).spec_current().serves(c) ==> final(self).spec_current().serves(c),
            forall|c: int| #[trigger]
                final(self).spec_current().serves(c) ==> old(self).spec_current().serves(c)
                    || is_pending(removed@, c),
            res matches Ok(routes) ==> routes@.len() == removed@.len() && forall|i: int|
                0 <= i < routes@.len() ==> #[trigger] routes@[i] < final(self).spec_instance().num_vehicles,
    {
        let ghost before = *self;
        let ghost n = self.spec_instance().num_customers as int;
        let ghost mut trail: Seq<ALNSSolver> = seq![*self];
        let ghost promised = self.has_room_for_all(removed@);
        let ghost room: int = if promised {
            choose|r: int|
                0 <= r < self.spec_current().routes@.len() && (
                #[trigger] self.spec_current().routes@[r]).spec_used_capacity() + total_demand(
                    pending_stops(removed@),
                ) <= self.spec_instance().vehicle_capacity
        } else {
            0
        };
        let ghost mut rest: Seq<Stop> = pending_stops(removed@);
        proof {
            assert forall|j: int| 0 <= j < order@.len() implies rest.contains(
                removed@[#[trigger] order@[j] as int].0,
            ) by {
                assert(rest[order@[j] as int] == removed@[order@[j] as int].0);
            }
        }
        let mut routes: Vec<usize> = Vec::new();
        let mut k: usize = 0;
        while k < order.len()
            invariant
                before == *old(self),
                trail.len() == k + 1,
                trail[0] == before,
                trail.last() == *self,
                forall|j: int|
                    0 <= j < k ==> #[trigger] Self::is_reinsertion_step(
                        trail,
                        routes@,
                        removed@,
                        order@,
                        j,
                    ),
                promised == before.has_room_for_all(removed@),
                promised ==> 0 <= room < self.spec_current().routes@.len()
                    && self.spec_current().routes@[room].spec_used_capacity() + total_demand(rest)
                    <= self.spec_instance().vehicle_capacity,
                forall|j: int|
                    k <= j < order@.len() ==> rest.contains(
                        removed@[#[trigger] order@[j] as int].0,
                    ),
                before.lacks(removed@),
                self.wf(),
                n == self.spec_instance().num_customers,
                pending_ok(&self.spec_instance(), removed@),
                is_permutation(order@, removed@.len() as int),
                k <= order@.len(),
                routes@.len() == k,
                forall|i: int|
                    0 <= i < routes@.len() ==> #[trigger] routes@[i]
                        < self.spec_instance().num_vehicles,
                forall|c: int| #[trigger]
                    self.spec_current().serves(c) <==> 1 <= c < n && (!is_pending(removed@, c) || (
                    exists|j: int|
                        0 <= j < k && removed@[#[trigger] order@[j] as int].0.cust_no() == c)),
                self.spec_instance() == before.spec_instance(),
                self.spec_tabu() == before.spec_tabu(),
                self.spec_not_tabu() == before.spec_not_tabu(),
                self.spec_repair_ops() == before.spec_repair_ops(),
                self.spec_destroy_ops() == before.spec_destroy_ops(),
                self.spec_last_used() == before.spec_last_used(),
                self.spec_stats() == before.spec_stats(),
            decreases order@.len() - k,
        {
            let stop = removed[order[k]].0;
            let ghost m = stop.cust_no() as int;
            let ghost prior = *self;
            proof {
                assert(is_pending(removed@, m));
                if exists|j: int|
                    0 <= j < k && removed@[#[trigger] order@[j] as int].0.cust_no() == m {
                    let j = choose|j: int|
                        0 <= j < k && removed@[#[trigger] order@[j] as int].0.cust_no() == m;
                    assert(order@[j] != order@[k as int]);
                    if order@[j] < order@[k as int] {
                        assert(removed@[order@[j] as int].0.cust_no() != removed@[order@[k as int] as int].0.cust_no());
                    } else {
                        assert(removed@[order@[k as int] as int].0.cust_no() != removed@[order@[j] as int].0.cust_no());
                    }
                }
            }
            proof {
                assert(rest.contains(removed@[order@[k as int] as int].0));
                let p = choose|p: int| 0 <= p < rest.len() && rest[p] == stop;
                lemma_total_demand_remove(rest, p);
                lemma_total_demand_nonnegative(rest.remove(p));
                if promised {
                    assert(prior.spec_current().routes@[room].inst() == prior.spec_instance());
                    assert(is_spot(&prior.spec_current(), stop, (room as usize, 0usize)));
                }
                assert forall|j: int| k + 1 <= j < order@.len() implies rest.remove(p).contains(
                    removed@[#[trigger] order@[j] as int].0,
                ) by {
                    let other = removed@[order@[j] as int].0;
                    assert(rest.contains(other));
                    let q = choose|q: int| 0 <= q < rest.len() && rest[q] == other;
                    assert(order@[k as int] != order@[j]);
                    if order@[k as int] < order@[j] {
                        assert(removed@[order@[k as int] as int].0.cust_no()
                            != removed@[order@[j] as int].0.cust_no());
                    } else {
                        assert(removed@[order@[j] as int].0.cust_no()
                            != removed@[order@[k as int] as int].0.cust_no());
                    }
                    assert(q != p);
                    if q < p {
                        assert(rest.remove(p)[q] == other);
                    } else {
                        assert(rest.remove(p)[q - 1] == other);
                    }
                }
                rest = rest.remove(p);
            }
            let outcome = self.reinsert_in_best_spot(stop);
            proof {
                assert(self.spec_instance() == before.spec_instance());
                assert(self.spec_tabu() == before.spec_tabu());
                assert(self.spec_not_tabu() == before.spec_not_tabu());
            }
            match outcome {
                Ok(r) => {
                    let ghost earlier = routes@;
                    routes.push(r);
                    proof {
                        let grown = trail.push(*self);
                        assert forall|j: int| 0 <= j < k + 1 implies #[trigger]
                            Self::is_reinsertion_step(grown, routes@, removed@, order@, j) by {
                            if j < k {
                                assert(Self::is_reinsertion_step(
                                    trail,
                                    earlier,
                                    removed@,
                                    order@,
                                    j,
                                ));
                                let explore = choose|explore: Option<usize>| #[trigger]
                                    trail[j + 1].placed(
                                        &trail[j],
                                        removed@[order@[j] as int].0,
                                        explore,
                                        Ok(earlier[j]),
                                    );
                                assert(grown[j + 1].placed(
                                    &grown[j],
                                    removed@[order@[j] as int].0,
                                    explore,
                                    Ok(routes@[j]),
                                ));
                            } else {
                                let explore = choose|explore: Option<usize>| #[trigger]
                                    self.placed(&prior, stop, explore, outcome);
                                assert(grown[j + 1].placed(
                                    &grown[j],
                                    removed@[order@[j] as int].0,
                                    explore,
                                    Ok(routes@[j]),
                                ));
                            }
                        }
                        trail = grown;
                    }
                },
                Err(e) => {
                    let res: Result<Vec<usize>, String> = Err(e);
                    proof {
                        assert(self.is_trail(&before, removed@, order@, res, trail, routes@));
                        assert(!self.spec_current().serves(m));
                        assert(0 <= order@[k as int] < removed@.len() && !self.spec_current().serves(
                            removed@[order@[k as int] as int].0.cust_no() as int,
                        ) && forall|spot: (usize, usize)|
                            !is_spot(
                                &self.spec_current(),
                                removed@[order@[k as int] as int].0,
                                spot,
                            ));
                        assert(self.stuck_on(removed@));
                        assert(!is_pending(Seq::<(Stop, usize)>::empty(), m));
                        assert(self.spec_current() == prior.spec_current());
                        assert forall|c: int| #[trigger]
                            before.spec_current().serves(c) implies self.spec_current().serves(
                            c,
                        ) by {
                            assert(prior.spec_current().serves(c) <==> 1 <= c < n && (!is_pending(
                                removed@,
                                c,
                            ) || (exists|j: int|
                                0 <= j < k && removed@[#[trigger] order@[j] as int].0.cust_no()
                                    == c)));
                        }
                        assert forall|c: int| #[trigger]
                            self.spec_current().serves(c) implies before.spec_current().serves(c)
                            || is_pending(removed@, c) by {
                            assert(before.spec_current().serves(c) <==> 1 <= c < n && !is_pending(
                                removed@,
                                c,
                            ));
                        }
                    }
                    return res;
                },
            }
            proof {
                assert forall|c: int| #[trigger]
                    self.spec_current().serves(c) <==> 1 <= c < n && (!is_pending(removed@, c) || (
                    exists|j: int|
                        0 <= j < k + 1 && removed@[#[trigger] order@[j] as int].0.cust_no()
                            == c)) by {
                    assert(prior.spec_current().serves(c) <==> 1 <= c < n && (!is_pending(
                        removed@,
                        c,
                    ) || (exists|j: int|
                        0 <= j < k && removed@[#[trigger] order@[j] as int].0.cust_no() == c)));
                    if c == m {
                        assert(removed@[order@[k as int] as int].0.cust_no() == c);
                    }
                    if exists|j: int|
                        0 <= j < k + 1 && removed@[#[trigger] order@[j] as int].0.cust_no() == c {
                        let j = choose|j: int|
                            0 <= j < k + 1 && removed@[#[trigger] order@[j] as int].0.cust_no()
                                == c;
                        if j < k {
                            assert(0 <= j < k && removed@[order@[j] as int].0.cust_no() == c);
                        }
                    }
                }
            }
            k = k + 1;
        }
        proof {
            assert forall|c: int| #[trigger]
                self.spec_current().serves(c) <==> 1 <= c < n && !is_pending(
                    Seq::<(Stop, usize)>::empty(),
                    c,
                ) by {
                if 1 <= c < n && is_pending(removed@, c) {
                    let i = choose|i: int|
                        0 <= i < removed@.len() && (#[trigger] removed@[i]).0.cust_no() == c;
                    assert(order@.contains(i as usize));
                    let j = choose|j: int| 0 <= j < order@.len() && order@[j] == i as usize;
                    assert(removed@[order@[j] as int].0.cust_no() == c);
                }
            }
        }
        proof {
            assert forall|c: int| #[trigger]
                before.spec_current().serves(c) implies self.spec_current().serves(c) by {
                assert(before.spec_current().serves(c) <==> 1 <= c < n && !is_pending(
                    removed@,
                    c,
                ));
                assert(!is_pending(Seq::<(Stop, usize)>::empty(), c));
            }
            assert forall|c: int| #[trigger]
                self.spec_current().serves(c) implies before.spec_current().serves(c)
                || is_pending(removed@, c) by {
                assert(before.spec_current().serves(c) <==> 1 <= c < n && !is_pending(
                    removed@,
                    c,
                ));
            }
        }
        let res: Result<Vec<usize>, String> = Ok(routes);
        proof {
            assert(self.is_trail(&before, removed@, order@, res, trail, res->Ok_0@));
        }
        res
    }

    /// Puts the stops of `removed_stops` back by descending demand, each as
    /// `reinsert_in_best_spot` does, and says on which routes.
    ///
    /// Fails at the first stop that can be served nowhere, and then leaves
    /// the stops from that one on out of the solution.
    pub fn reinsert_n_stops_in_best_spots(&mut self, removed_stops: Vec<(Stop, usize)>) -> (res:
        Result<Vec<usize>, String>)
        requires
            old(self).wf(),
            pending_ok(&old(self).spec_instance(), removed_stops@),
            old(self).lacks(removed_stops@),
        ensures
            final(self).wf(),
            final(self).spec_instance() == old(self).spec_instance(),
            final(self).spec_tabu() == old(self).spec_tabu(),
            final(self).spec_not_tabu() == old(self).spec_not_tabu(),
            final(self).spec_repair_ops() == old(self).spec_repair_ops(),
            final(self).spec_destroy_ops() == old(self).spec_destroy_ops(),
            final(self).spec_last_used() == old(self).spec_last_used(),
            final(self).spec_stats() == old(self).spec_stats(),
            res is Ok <==> final(self).lacks(Seq::empty()),
            res is Err ==> final(self).stuck_on(removed_stops@),
            old(self).has_room_for_all(removed_stops@) ==> res is Ok,
            forall|c: int| #[trigger]
                old(self).spec_current().serves(c) ==> final(self).spec_current().serves(c),
            forall|c: int| #[trigger]
                final(self).spec_current().serves(c) ==> old(self).spec_current().serves(c)
                    || is_pending(removed_stops@, c),
            res matches Ok(routes) ==> routes@.len() == removed_stops@.len() && forall|i: int|
                0 <= i < routes@.len() ==> #[trigger] routes@[i] < final(self).spec_instance().num_vehicles,
            final(self).placed_by_demand(old(self), removed_stops@, res),
    {
        let mut keys: Vec<i128> = Vec::new();
        let mut i: usize = 0;
        while i < removed_stops.len()
            invariant
                i <= removed_stops@.len(),
                keys@.len() == i,
                forall|j: int|
                    0 <= j < i ==> #[trigger] keys@[j] == -(removed_stops@[j].0.capacity() as int),
            decreases removed_stops@.len() - i,
        {
            keys.push(-(removed_stops[i].0.capacity() as i128));
            i = i + 1;
        }
        let order = order_by_key(&keys);
        proof {
            assert(keys@ =~= demand_keys(removed_stops@));
        }
        let res = self.reinsert_in_order(&removed_stops, &order);
        proof {
            assert(is_key_order(demand_keys(removed_stops@), order@) && self.placed_in_order(
                old(self),
                removed_stops@,
                order@,
                res,
            ));
        }
        res
    }

    /// How much is lost when `stop` is not put at its cheapest place: the
    /// rise in cost at its `k`-th cheapest place less the rise at its
    /// cheapest; where it has fewer than `k` places, the rise at its
    /// cheapest; `None` where it has none.
    pub fn regret_k(&self, stop: &Stop, k: usize) -> (regret: Option<i64>)
        requires
            self.wf(),
            1 <= stop.cust_no() < self.spec_instance().num_customers,
            k >= 1,
        ensures
            exists|spots: Seq<(usize, usize)>| #[trigger]
                is_spot_list(&self.spec_current(), *stop, spots) && regret_of(
                    spot_increases(&self.spec_current(), *stop, spots),
                    k as int,
                ) == match regret {
                    Some(v) => Some(v as int),
                    None => None,
                },
            regret is None <==> forall|spot: (usize, usize)|
                !is_spot(&self.spec_current(), *stop, spot),
    {
        let (spots, _) = insertion_spots(&self.current, stop, &self.instance);
        let ghost incs = spot_increases(&self.spec_current(), *stop, spots@);
        let mut low: Vec<i64> = Vec::new();
        let mut i: usize = 0;
        proof {
            assert(incs.take(0) =~= Seq::<int>::empty());
            assert(ints(low@) =~= Seq::<int>::empty());
        }
        while i < spots.len()
            invariant
                self.wf(),
                1 <= stop.cust_no() < self.spec_instance().num_customers,
                k >= 1,
                is_spot_list(&self.spec_current(), *stop, spots@),
                incs == spot_increases(&self.spec_current(), *stop, spots@),
                i <= spots@.len(),
                low@.len() <= k,
                low@.len() == 0 <==> i == 0,
                ints(low@) == k_smallest(incs.take(i as int), k as int),
            decreases spots@.len() - i,
        {
            let (r, at) = spots[i];
            proof {
                assert(is_spot(&self.spec_current(), *stop, spots@[i as int]));
                assert(self.current.routes@[r as int].wf());
                self.current.routes@[r as int].lemma_bounds();
                crate::route::lemma_route_cost_insert(
                    self.spec_instance().distance_matrix@,
                    self.current.routes@[r as int].customers(),
                    at as int,
                    stop.cust_no() as int,
                );
            }
            let route = &self.current.routes[r];
            let (new_cost, _) = route.speculative_add_stop(stop, at);
            let v: i64 = new_cost as i64 - route.cost() as i64;
            let mut p: usize = low.len();
            while p > 0 && low[p - 1] > v
                invariant
                    p <= low@.len(),
                    forall|j: int| p <= j < low@.len() ==> #[trigger] low@[j] > v,
                decreases p,
            {
                p = p - 1;
            }
            let ghost sorted = low@;
            proof {
                lemma_sorted_insert_at(ints(sorted), v as int, p as int);
                assert(incs.take(i + 1).drop_last() =~= incs.take(i as int));
                assert(incs[i as int] == v);
                assert(ints(sorted).insert(p as int, v as int) =~= ints(sorted.insert(p as int, v)));
            }
            low.insert(p, v);
            if low.len() > k {
                proof {
                    assert(ints(low@).take(k as int) =~= ints(low@.subrange(0, k as int)));
                }
                low.truncate(k);
            }
            i = i + 1;
        }
        proof {
            assert(incs.take(i as int) =~= incs);
        }
        let regret = if low.len() == 0 {
            None
        } else if low.len() < k {
            Some(low[0])
        } else {
            proof {
                lemma_k_smallest_sorted(incs, k as int);
                assert(ints(low@)[0] == low@[0]);
                assert(ints(low@)[k - 1] == low@[k - 1]);
                lemma_k_smallest_bounds(incs, k as int, -0x4_0000_0000_0000, 0x4_0000_0000_0000);
            }
            Some(low[k - 1] - low[0])
        };
        proof {
            if low@.len() > 0 {
                assert(ints(low@)[0] == low@[0]);
            }
            assert(is_spot_list(&self.spec_current(), *stop, spots@) && regret_of(
                spot_increases(&self.spec_current(), *stop, spots@),
                k as int,
            ) == match regret {
                Some(v) => Some(v as int),
                None => None,
            });
            if spots@.len() > 0 {
                assert(is_spot(&self.spec_current(), *stop, spots@[0]));
            }
            assert forall|spot: (usize, usize)|
                is_spot(&self.spec_current(), *stop, spot) implies spots@.len() > 0 by {
                assert(spots@.contains(spot));
            }
        }
        regret
    }

    /// Puts the stops of `removed_stops` back by descending regret over
    /// their two cheapest places, each as `reinsert_in_best_spot` does, and
    /// says on which routes.
    ///
    /// Fails, and changes nothing, when some stop can be served nowhere;
    /// fails at the first stop that can be served nowhere once others are
    /// back, and then leaves the stops from that one on out of the solution.
    pub fn reinsert_two_regret(&mut self, removed_stops: Vec<(Stop, usize)>) -> (res: Result<
        Vec<usize>,
        String,
    >)
        requires
            old(self).wf(),
            pending_ok(&old(self).spec_instance(), removed_stops@),
            old(self).lacks(removed_stops@),
        ensures
            final(self).wf(),
            final(self).spec_instance() == old(self).spec_instance(),
            final(self).spec_tabu() == old(self).spec_tabu(),
            final(self).spec_not_tabu() == old(self).spec_not_tabu(),
            final(self).spec_repair_ops() == old(self).spec_repair_ops(),
            final(self).spec_destroy_ops() == old(self).spec_destroy_ops(),
            final(self).spec_last_used() == old(self).spec_last_used(),
            final(self).spec_stats() == old(self).spec_stats(),
            res is Ok <==> final(self).lacks(Seq::empty()),
            res is Err ==> final(self).stuck_on(removed_stops@),
            old(self).has_room_for_all(removed_stops@) ==> res is Ok,
            forall|c: int| #[trigger]
                old(self).spec_current().serves(c) ==> final(self).spec_current().serves(c),
            forall|c: int| #[trigger]
                final(self).spec_current().serves(c) ==> old(self).spec_current().serves(c)
                    || is_pending(removed_stops@, c),
            res matches Ok(routes) ==> routes@.len() == removed_stops@.len() && forall|i: int|
                0 <= i < routes@.len() ==> #[trigger] routes@[i] < final(self).spec_instance().num_vehicles,
            old(self).stuck_on(removed_stops@) ==> res is Err && final(self).spec_current() == old(
                self,
            ).spec_current(),
            !old(self).stuck_on(removed_stops@) ==> final(self).placed_by_regret(
                old(self),
                removed_stops@,
                res,
            ),
    {
        let mut keys: Vec<i128> = Vec::new();
        let mut i: usize = 0;
        while i < removed_stops.len()
            invariant
                *self == *old(self),
                self.wf(),
                pending_ok(&self.spec_instance(), removed_stops@),
                self.lacks(removed_stops@),
                i <= removed_stops@.len(),
                keys@.len() == i,
                forall|j: int| 0 <= j < i ==> #[trigger] self.has_place(removed_stops@[j].0),
                forall|j: int|
                    0 <= j < i ==> self.is_regret_key(removed_stops@[j].0, #[trigger] keys@[j]),
            decreases removed_stops@.len() - i,
        {
            match self.regret_k(&removed_stops[i].0, 2) {
                Some(regret) => {
                    proof {
                        assert(self.has_place(removed_stops@[i as int].0));
                        assert(self.is_regret_key(
                            removed_stops@[i as int].0,
                            (-(regret as int)) as i128,
                        ));
                    }
                    keys.push(-(regret as i128));
                },
                None => {
                    proof {
                        let m = removed_stops@[i as int].0.cust_no() as int;
                        assert(is_pending(removed_stops@, m));
                        assert(!is_pending(Seq::<(Stop, usize)>::empty(), m));
                        assert(!self.spec_current().serves(m));
                        assert(self.stuck_on(removed_stops@));
                        if self.has_room_for_all(removed_stops@) {
                            self.lemma_room_for_each(removed_stops@, i as int);
                        }
                    }
                    return Err("no place to put customer".to_string());
                },
            }
            i = i + 1;
        }
        proof {
            if self.stuck_on(removed_stops@) {
                let j = choose|j: int|
                    0 <= j < removed_stops@.len() && !self.spec_current().serves(
                        (#[trigger] removed_stops@[j]).0.cust_no() as int,
                    ) && forall|spot: (usize, usize)|
                        !is_spot(&self.spec_current(), removed_stops@[j].0, spot);
                assert(self.has_place(removed_stops@[j].0));
            }
        }
        let order = order_by_key(&keys);
        let ghost start = *self;
        let res = self.reinsert_in_order(&removed_stops, &order);
        proof {
            assert(keys@.len() == removed_stops@.len() && (forall|i: int|
                0 <= i < keys@.len() ==> start.is_regret_key(
                    removed_stops@[i].0,
                    #[trigger] keys@[i],
                )) && is_key_order(keys@, order@) && self.placed_in_order(
                &start,
                removed_stops@,
                order@,
                res,
            ));
        }
        res
    }

    /// Puts the removed stops back into the current solution, by the repair
    /// operator that the weights draw.
    ///
    /// Fails when some stop can be served nowhere; the solution then lacks
    /// customers.
    pub fn repair(&mut self, res: Vec<(Stop, usize)>) -> (done: Result<(), String>)
        requires
            old(self).wf(),
            pending_ok(&old(self).spec_instance(), res@),
            old(self).lacks(res@),
        ensures
            final(self).drawn_repair_effect(old(self), res@, done),
    {
        let first = Self::draws_first(&self.repair_ops);
        self.repair_by(first, res)
    }

    /// Puts the removed stops back into the current solution: by descending
    /// demand where `first` holds, else by descending regret; and records
    /// which of the two repair operators that was.
    ///
    /// Fails when some stop can be served nowhere; the solution then lacks
    /// customers. By regret it fails, and leaves the solution as it was,
    /// where some stop can be served nowhere to begin with.
    pub fn repair_by(&mut self, first: bool, res: Vec<(Stop, usize)>) -> (done: Result<
        (),
        String,
    >)
        requires
            old(self).wf(),
            pending_ok(&old(self).spec_instance(), res@),
            old(self).lacks(res@),
        ensures
            final(self).repair_effect(old(self), res@, done),
            final(self).spec_last_used().1 == if first {
                0usize
            } else {
                1usize
            },
            exists|back: Result<Vec<usize>, String>| #[trigger]
                final(self).repaired_by(old(self), first, res@, back) && (back is Ok <==> done
                    is Ok),
    {
        let ghost before = *self;
        let ghost pending = res@;
        if first {
            self.last_used_repair_op = 0;
        } else {
            self.last_used_repair_op = 1;
        }
        let ghost told = *self;
        let reinserted = if first {
            self.reinsert_n_stops_in_best_spots(res)
        } else {
            self.reinsert_two_regret(res)
        };
        let ghost mid = *self;
        let ghost back = reinserted;
        proof {
            assert(mid.repaired_by(&told, first, pending, back));
            mid.lemma_repaired_by_routes(&told, &mid, &before, first, pending, back);
            assert(forall|c: int| #[trigger]
                before.spec_current().serves(c) ==> mid.spec_current().serves(c));
            assert(forall|c: int| #[trigger]
                mid.spec_current().serves(c) ==> before.spec_current().serves(c) || is_pending(
                    pending,
                    c,
                ));
        }
        let route_idxs = match reinserted {
            Ok(route_idxs) => route_idxs,
            Err(e) => {
                let done: Result<(), String> = Err(e);
                proof {
                    assert(self.repaired_by(&before, first, pending, back) && (back is Ok <==> done
                        is Ok));
                    assert(self.repair_effect(&before, pending, done));
                }
                return done;
            },
        };
        self.note_added(&route_idxs);
        let done: Result<(), String> = Ok(());
        proof {
            assert(self.spec_current() == mid.spec_current());
            assert(self.spec_stats().counted_added(&before.spec_stats(), route_idxs@)
                && route_idxs@.len() == pending.len() && forall|i: int|
                0 <= i < route_idxs@.len() ==> #[trigger] route_idxs@[i]
                    < self.spec_instance().num_vehicles);
            mid.lemma_repaired_by_routes(&before, self, &before, first, pending, back);
            assert(self.repaired_by(&before, first, pending, back) && (back is Ok <==> done is Ok));
            assert(self.repair_effect(&before, pending, done));
        }
        done
    }

    /// Counts the customers of `removed` and the routes they left.
    pub fn note_removed(&mut self, removed: &Vec<(Stop, usize)>)
        ensures
            final(self).spec_stats().counted_removed(
                &old(self).spec_stats(),
                removed_customers(removed@),
                removed_routes(removed@),
            ),
            final(self).spec_instance() == old(self).spec_instance(),
            final(self).spec_current() == old(self).spec_current(),
            final(self).spec_tabu() == old(self).spec_tabu(),
            final(self).spec_not_tabu() == old(self).spec_not_tabu(),
            final(self).spec_repair_ops() == old(self).spec_repair_ops(),
            final(self).spec_destroy_ops() == old(self).spec_destroy_ops(),
            final(self).spec_last_used() == old(self).spec_last_used(),
    {
        let ghost before = *self;
        let ghost customers = removed_customers(removed@);
        let ghost routes = removed_routes(removed@);
        let mut k: usize = 0;
        proof {
            assert(customers.take(0) =~= Seq::<usize>::empty());
            assert(routes.take(0) =~= Seq::<usize>::empty());
        }
        while k < removed.len()
            invariant
                k <= removed@.len(),
                customers == removed_customers(removed@),
                routes == removed_routes(removed@),
                self.stats.cust_change_freq@ == bumped_each(
                    before.stats.cust_change_freq@,
                    customers.take(k as int),
                ),
                self.stats.route_remove_freq@ == bumped_each(
                    before.stats.route_remove_freq@,
                    routes.take(k as int),
                ),
                self.stats.route_add_freq == before.stats.route_add_freq,
                self.stats.iterations == before.stats.iterations,
                self.stats.improvements == before.stats.improvements,
                self.stats.restarts == before.stats.restarts,
                self.instance == before.instance,
                self.current == before.current,
                self.stop_tabu == before.stop_tabu,
                self.stop_not_tabu == before.stop_not_tabu,
                self.repair_ops == before.repair_ops,
                self.destroy_ops == before.destroy_ops,
                self.last_used_repair_op == before.last_used_repair_op,
                self.last_used_destroy_op == before.last_used_destroy_op,
            decreases removed@.len() - k,
        {
            proof {
                assert(customers.take(k + 1).drop_last() =~= customers.take(k as int));
                assert(routes.take(k + 1).drop_last() =~= routes.take(k as int));
                assert(customers.take(k + 1).last() == removed@[k as int].0.cust_no() as usize);
                assert(routes.take(k + 1).last() == removed@[k as int].1);
            }
            bump(&mut self.stats.cust_change_freq, removed[k].0.cust_no() as usize);
            bump(&mut self.stats.route_remove_freq, removed[k].1);
            k = k + 1;
        }
        proof {
            assert(customers.take(k as int) =~= customers);
            assert(routes.take(k as int) =~= routes);
        }
    }

    /// Counts the routes of `route_idxs`, which took a customer on.
    pub fn note_added(&mut self, route_idxs: &Vec<usize>)
        ensures
            final(self).spec_stats().counted_added(&old(self).spec_stats(), route_idxs@),
            final(self).spec_instance() == old(self).spec_instance(),
            final(self).spec_current() == old(self).spec_current(),
            final(self).spec_tabu() == old(self).spec_tabu(),
            final(self).spec_not_tabu() == old(self).spec_not_tabu(),
            final(self).spec_repair_ops() == old(self).spec_repair_ops(),
            final(self).spec_destroy_ops() == old(self).spec_destroy_ops(),
            final(self).spec_last_used() == old(self).spec_last_used(),
    {
        let ghost before = *self;
        let mut k: usize = 0;
        proof {
            assert(route_idxs@.take(0) =~= Seq::<usize>::empty());
        }
        while k < route_idxs.len()
            invariant
                k <= route_idxs@.len(),
                self.stats.route_add_freq@ == bumped_each(
                    before.stats.route_add_freq@,
                    route_idxs@.take(k as int),
                ),
                self.stats.cust_change_freq == before.stats.cust_change_freq,
                self.stats.route_remove_freq == before.stats.route_remove_freq,
                self.stats.iterations == before.stats.iterations,
                self.stats.improvements == before.stats.improvements,
                self.stats.restarts == before.stats.restarts,
                self.instance == before.instance,
                self.current == before.current,
                self.stop_tabu == before.stop_tabu,
                self.stop_not_tabu == before.stop_not_tabu,
                self.repair_ops == before.repair_ops,
                self.destroy_ops == before.destroy_ops,
                self.last_used_repair_op == before.last_used_repair_op,
                self.last_used_destroy_op == before.last_used_destroy_op,
            decreases route_idxs@.len() - k,
        {
            proof {
                assert(route_idxs@.take(k + 1).drop_last() =~= route_idxs@.take(k as int));
                assert(route_idxs@.take(k + 1).last() == route_idxs@[k as int]);
            }
            bump(&mut self.stats.route_add_freq, route_idxs[k]);
            k = k + 1;
        }
        proof {
            assert(route_idxs@.take(k as int) =~= route_idxs@);
        }
    }

    /// How many customers may be removed.
    pub fn removable(&self) -> (n: usize)
        ensures
            n == self.spec_not_tabu().len(),
    {
        self.stop_not_tabu.len()
    }

    /// How many customers are tabu.
    pub fn tabu_len(&self) -> (n: usize)
        ensures
            n == self.spec_tabu().len(),
    {
        self.stop_tabu.len()
    }

    /// The customers that are tabu, the oldest first.
    pub fn tabu(&self) -> (list: Vec<usize>)
        ensures
            list@ == self.spec_tabu(),
    {
        let mut list: Vec<usize> = Vec::new();
        let mut i: usize = 0;
        while i < self.stop_tabu.len()
            invariant
                i <= self.stop_tabu@.len(),
                list@ == self.stop_tabu@.take(i as int),
            decreases self.stop_tabu@.len() - i,
        {
            list.push(self.stop_tabu[i]);
            proof {
                assert(self.stop_tabu@.take(i + 1) =~= self.stop_tabu@.take(i as int).push(
                    self.stop_tabu@[i as int],
                ));
            }
            i = i + 1;
        }
        proof {
            assert(self.stop_tabu@.take(i as int) =~= self.stop_tabu@);
        }
        list
    }

    /// The customers that may be removed.
    pub fn not_tabu(&self) -> (list: &Vec<usize>)
        ensures
            list@ == self.spec_not_tabu(),
    {
        &self.stop_not_tabu
    }

    /// The operators: those that destroy, then those that repair.
    pub fn operators(&self) -> (ops: (Vec<Operator>, Vec<Operator>))
        ensures
            ops.0@ == self.spec_destroy_ops(),
            ops.1@ == self.spec_repair_ops(),
    {
        (self.destroy_ops.clone(), self.repair_ops.clone())
    }

    /// What the search keeps count of.
    pub fn get_stats_mut(&mut self) -> (stats: &mut SolveStats)
        ensures
            *stats == old(self).spec_stats(),
            final(self).spec_stats() == *final(stats),
            final(self).spec_instance() == old(self).spec_instance(),
            final(self).spec_current() == old(self).spec_current(),
            final(self).spec_tabu() == old(self).spec_tabu(),
            final(self).spec_not_tabu() == old(self).spec_not_tabu(),
            final(self).spec_repair_ops() == old(self).spec_repair_ops(),
            final(self).spec_destroy_ops() == old(self).spec_destroy_ops(),
            final(self).spec_last_used() == old(self).spec_last_used(),
    {
        &mut self.stats
    }

    /// Credits the operators that were used last with `delta`.
    pub fn update_scores(&mut self, delta: usize)
        requires
            old(self).ops_wf(),
        ensures
            final(self).credit_effect(old(self), delta),
    {
        let mut repair = self.repair_ops[self.last_used_repair_op];
        repair.update_score(delta);
        self.repair_ops.set(self.last_used_repair_op, repair);
        let mut destroy = self.destroy_ops[self.last_used_destroy_op];
        destroy.update_score(delta);
        self.destroy_ops.set(self.last_used_destroy_op, destroy);
    }

    /// Smooths the weight of every operator towards its score, by a
    /// hundredth, and starts the scores anew.
    pub fn update_weights(&mut self)
        requires
            old(self).ops_wf(),
        ensures
            final(self).reweigh_effect(old(self)),
    {
        let ghost before = *self;
        let mut op_idx: usize = 0;
        while op_idx < 2
            invariant
                op_idx <= 2,
                before.ops_wf(),
                self.repair_ops@.len() == 2,
                self.destroy_ops@.len() == 2,
                self.instance == before.instance,
                self.current == before.current,
                self.stop_tabu == before.stop_tabu,
                self.stop_not_tabu == before.stop_not_tabu,
                self.last_used_repair_op == before.last_used_repair_op,
                self.last_used_destroy_op == before.last_used_destroy_op,
                self.stats == before.stats,
                forall|i: int|
                    op_idx <= i < 2 ==> #[trigger] self.repair_ops@[i] == before.repair_ops@[i],
                forall|i: int|
                    op_idx <= i < 2 ==> #[trigger] self.destroy_ops@[i] == before.destroy_ops@[i],
                forall|i: int|
                    0 <= i < op_idx ==> (#[trigger] self.destroy_ops@[i]).wf() && reweighed_op(
                        self.destroy_ops@[i],
                        before.destroy_ops@[i],
                    ),
                forall|i: int|
                    0 <= i < op_idx ==> (#[trigger] self.repair_ops@[i]).wf() && reweighed_op(
                        self.repair_ops@[i],
                        before.repair_ops@[i],
                    ),
            decreases 2 - op_idx,
        {
            assert(before.repair_ops@[op_idx as int].wf());
            assert(before.destroy_ops@[op_idx as int].wf());
            let mut repair = self.repair_ops[op_idx];
            repair.update_weight(10);
            self.repair_ops.set(op_idx, repair);
            let mut destroy = self.destroy_ops[op_idx];
            destroy.update_weight(10);
            self.destroy_ops.set(op_idx, destroy);
            op_idx = op_idx + 1;
        }
    }

    /// States that the two pools hold all the customers; there is nothing to
    /// check at run time.
    pub fn assert_tabu_sanity(&self)
        requires
            self.intact(),
        ensures
            self.spec_tabu().len() + self.spec_not_tabu().len()
                == self.spec_instance().num_customers - 1,
    {
        proof {
            self.lemma_pool_size();
        }
    }

    /// Pools that hold each customer once hold as many as there are
    /// customers.
    pub proof fn lemma_pool_size(&self)
        requires
            self.spec_instance().wf(),
            self.pool_without(Seq::empty()),
        ensures
            self.spec_tabu().len() + self.spec_not_tabu().len()
                == self.spec_instance().num_customers - 1,
    {
        let n = self.spec_instance().num_customers as int;
        let both = self.spec_tabu() + self.spec_not_tabu();
        let ints = Seq::new(both.len(), |i: int| both[i] as int);
        assert forall|p: int, q: int| 0 <= p < ints.len() && 0 <= q < ints.len() && p
            != q implies ints[p] != ints[q] by {
            let t = self.spec_tabu().len() as int;
            if p < t && q < t {
            } else if p >= t && q >= t {
                assert(self.spec_not_tabu()[p - t] == both[p]);
                assert(self.spec_not_tabu()[q - t] == both[q]);
            } else {
                let (a, b) = if p < t {
                    (p, q)
                } else {
                    (q, p)
                };
                assert(self.spec_tabu().contains(both[a]));
                assert(self.spec_not_tabu()[b - t] == both[b]);
                assert(self.spec_not_tabu().contains(both[b]));
            }
        }
        assert forall|i: int| 0 <= i < ints.len() implies 1 <= #[trigger] ints[i] < n by {
            let t = self.spec_tabu().len() as int;
            if i < t {
                assert(self.spec_tabu().contains(both[i]));
            } else {
                assert(self.spec_not_tabu()[i - t] == both[i]);
                assert(self.spec_not_tabu().contains(both[i]));
            }
        }
        crate::seq_util::lemma_distinct_in_range_len(ints, 1, n);
        ints.unique_seq_to_set();
        vstd::set_lib::lemma_int_range(1, n);
        assert(vstd::set_lib::set_int_range(1, n).subset_of(ints.to_set())) by {
            assert forall|c: int| vstd::set_lib::set_int_range(1, n).contains(c) implies ints.to_set().contains(
                c,
            ) by {
                assert(!is_pending(Seq::<(Stop, usize)>::empty(), c));
                let cu = c as usize;
                if self.spec_tabu().contains(cu) {
                    let i = choose|i: int| 0 <= i < self.spec_tabu().len() && self.spec_tabu()[i] == cu;
                    assert(ints[i] == c);
                } else {
                    assert(self.spec_not_tabu().contains(cu));
                    let i = choose|i: int|
                        0 <= i < self.spec_not_tabu().len() && self.spec_not_tabu()[i] == cu;
                    assert(ints[i + self.spec_tabu().len()] == c);
                }
            }
        }
        vstd::seq_lib::seq_to_set_is_finite(ints);
        vstd::set_lib::lemma_len_subset(vstd::set_lib::set_int_range(1, n), ints.to_set());
    }
}

impl LNSSolver for ALNSSolver {
    /// The stops that were removed, each with the route that served it.
    type DestroyResult = Vec<(Stop, usize)>;

    open spec fn instance_of(&self) -> VRPInstance {
        self.spec_instance()
    }

    open spec fn solution_of(&self) -> VRPSolution {
        self.spec_current()
    }

    open spec fn sound(&self) -> bool {
        self.spec_instance().wf() && self.ops_wf()
    }

    open spec fn ready(&self) -> bool {
        self.intact()
    }

    open spec fn torn(&self, res: &Vec<(Stop, usize)>) -> bool {
        self.damaged(res@)
    }

    open spec fn noted(&self, res: &Vec<(Stop, usize)>) -> bool {
        self.marked(res@)
    }

    open spec fn stats_of(&self) -> SolveStats {
        self.spec_stats()
    }

    open spec fn destroyed(&self, before: &Self, res: &Vec<(Stop, usize)>) -> bool {
        self.destroy_effect(before, res@)
    }

    open spec fn repaired(
        &self,
        before: &Self,
        res: &Vec<(Stop, usize)>,
        done: Result<(), String>,
    ) -> bool {
        self.drawn_repair_effect(before, res@, done)
    }

    open spec fn credited(&self, before: &Self, delta: usize) -> bool {
        self.credit_effect(before, delta)
    }

    open spec fn reweighed(&self, before: &Self) -> bool {
        self.reweigh_effect(before)
    }

    proof fn lemma_ready(&self) {
        self.lemma_intact_is_valid();
    }

    fn new(instance: Arc<VRPInstance>, initial_solution: VRPSolution) -> (solver: Self) {
        let ghost given = initial_solution;
        let solver = ALNSSolver::new(instance, initial_solution);
        solver
    }

    fn current(&self) -> (sol: &VRPSolution) {
        ALNSSolver::current(self)
    }

    fn destroy(&mut self) -> (res: Vec<(Stop, usize)>) {
        ALNSSolver::destroy(self)
    }

    fn repair(&mut self, res: Vec<(Stop, usize)>) -> (done: Result<(), String>) {
        ALNSSolver::repair(self, res)
    }

    fn record_iteration(&mut self, iter: usize, new_sol: &VRPSolution, improvement_on_best: i64) {
        self.stats.update_on_iter(iter, new_sol, improvement_on_best);
    }

    fn record_restart(&mut self, iter: usize) {
        self.stats.on_restart(iter);
    }

    fn jump_to_solution(&mut self, sol: &VRPSolution) {
        ALNSSolver::jump_to_solution(self, sol)
    }

    fn update_tabu(&mut self, res: &Vec<(Stop, usize)>) {
        ALNSSolver::update_tabu(self, res)
    }

    fn update_scores(&mut self, delta: usize) {
        ALNSSolver::update_scores(self, delta)
    }

    fn update_weights(&mut self) {
        ALNSSolver::update_weights(self)
    }
}

/// The keys by which stops go back in the order of their demands: the
/// demands, negated.
pub open spec fn demand_keys(pending: Seq<(Stop, usize)>) -> Seq<i128> {
    Seq::new(pending.len(), |i: int| (-(pending[i].0.capacity() as int)) as i128)
}

/// The stops of `pending`, in order.
pub open spec fn pending_stops(pending: Seq<(Stop, usize)>) -> Seq<Stop> {
    Seq::new(pending.len(), |i: int| pending[i].0)
}

/// The customer numbers of the stops `res`, in order.
pub open spec fn stop_numbers(res: Seq<(Stop, usize)>) -> Seq<u16> {
    Seq::new(res.len(), |i: int| res[i].0.cust_no())
}

/// The routes that the stops `res` left, in order.
pub open spec fn removed_routes(res: Seq<(Stop, usize)>) -> Seq<usize> {
    Seq::new(res.len(), |i: int| res[i].1)
}

/// Whether `op` is `before` credited with `delta` for one use, where it was
/// used, and `before` itself where it was not.
pub open spec fn credited_op(op: Operator, before: Operator, used: bool, delta: usize) -> bool {
    &&& op.id == before.id
    &&& op.weight == before.weight
    &&& op.score == if used {
        capped_sum(before.score as int, delta as int)
    } else {
        before.score as int
    }
    &&& op.usage_count == if used {
        capped_sum(before.usage_count as int, 1)
    } else {
        before.usage_count as int
    }
}

/// Whether `op` is `before` with its weight smoothed towards its score by a
/// hundredth and its score started anew.
pub open spec fn reweighed_op(op: Operator, before: Operator) -> bool {
    &&& op.id == before.id
    &&& op.usage_count == before.usage_count
    &&& op.score == 0
    &&& op.weight == smoothed_weight(before.weight as int, before.score as int, 10)
}

/// The customers of the stops `res`, in order.
pub open spec fn removed_customers(res: Seq<(Stop, usize)>) -> Seq<usize> {
    Seq::new(res.len(), |i: int| res[i].0.cust_no() as usize)
}

/// How many customers leave a tabu queue that holds `len` of them and may
/// hold `limit`.
pub open spec fn excess(len: int, limit: int) -> int {
    if len > limit {
        len - limit
    } else {
        0
    }
}

/// The tabu queue `queue` once the oldest have left it and it holds no more
/// than `limit`.
pub open spec fn tabu_after(queue: Seq<usize>, limit: int) -> Seq<usize> {
    queue.skip(excess(queue.len() as int, limit))
}

/// The customers that leave the tabu queue `queue`, the oldest first, until
/// it holds no more than `limit`.
pub open spec fn released(queue: Seq<usize>, limit: int) -> Seq<usize> {
    queue.take(excess(queue.len() as int, limit))
}

/// A queue that lost its oldest one by one while it held more than `limit`
/// lost its excess.
pub proof fn lemma_tabu_after(queue: Seq<usize>, limit: int, gone: int)
    requires
        0 <= limit,
        0 <= gone <= queue.len(),
        gone > 0 ==> queue.len() - gone >= limit,
        queue.len() - gone <= limit,
    ensures
        gone == excess(queue.len() as int, limit),
{
}

/// The numbers of `s` as mathematical integers.
pub open spec fn ints(s: Seq<i64>) -> Seq<int> {
    Seq::new(s.len(), |i: int| s[i] as int)
}

/// The ascending sequence `sorted` with `v` put after the entries that are
/// not above it.
pub open spec fn sorted_insert(sorted: Seq<int>, v: int) -> Seq<int>
    decreases sorted.len(),
{
    if sorted.len() == 0 {
        seq![v]
    } else if sorted.last() <= v {
        sorted.push(v)
    } else {
        sorted_insert(sorted.drop_last(), v).push(sorted.last())
    }
}

/// The `k` smallest of `values`, fewer where there are fewer, in ascending
/// order.
pub open spec fn k_smallest(values: Seq<int>, k: int) -> Seq<int>
    decreases values.len(),
{
    if values.len() == 0 {
        Seq::empty()
    } else {
        let grown = sorted_insert(k_smallest(values.drop_last(), k), values.last());
        if grown.len() > k {
            grown.take(k)
        } else {
            grown
        }
    }
}

/// The `k`-th smallest of `values` less the smallest; the smallest where
/// there are fewer than `k`; `None` where there are none.
pub open spec fn regret_of(values: Seq<int>, k: int) -> Option<int> {
    let low = k_smallest(values, k);
    if low.len() == 0 {
        None
    } else if low.len() < k {
        Some(low[0])
    } else {
        Some(low[k - 1] - low[0])
    }
}

/// By how much each of `spots` raises the cost when `stop` is served there.
pub open spec fn spot_increases(sol: &VRPSolution, stop: Stop, spots: Seq<(usize, usize)>) -> Seq<
    int,
> {
    Seq::new(
        spots.len(),
        |i: int| cost_increase(sol, spots[i].0 as int, stop.cust_no() as int, spots[i].1 as int),
    )
}

/// Where `v` goes in an ascending sequence: before the entries above it.
pub proof fn lemma_sorted_insert_at(sorted: Seq<int>, v: int, p: int)
    requires
        0 <= p <= sorted.len(),
        forall|j: int| p <= j < sorted.len() ==> #[trigger] sorted[j] > v,
        p == 0 || sorted[p - 1] <= v,
    ensures
        sorted_insert(sorted, v) == sorted.insert(p, v),
    decreases sorted.len(),
{
    if sorted.len() == 0 {
        assert(sorted.insert(p, v) =~= seq![v]);
    } else if p == sorted.len() {
        assert(sorted.insert(p, v) =~= sorted.push(v));
    } else {
        assert(sorted[sorted.len() - 1] > v);
        lemma_sorted_insert_at(sorted.drop_last(), v, p);
        assert(sorted.drop_last().insert(p, v).push(sorted.last()) =~= sorted.insert(p, v));
    }
}

/// The smallest values lie within the bounds of all the values.
pub proof fn lemma_k_smallest_bounds(values: Seq<int>, k: int, lo: int, hi: int)
    requires
        k >= 0,
        forall|i: int| 0 <= i < values.len() ==> lo <= #[trigger] values[i] <= hi,
    ensures
        forall|i: int|
            0 <= i < k_smallest(values, k).len() ==> lo <= #[trigger] k_smallest(values, k)[i]
                <= hi,
    decreases values.len(),
{
    if values.len() > 0 {
        lemma_k_smallest_bounds(values.drop_last(), k, lo, hi);
        lemma_sorted_insert_bounds(k_smallest(values.drop_last(), k), values.last(), lo, hi);
        let grown = sorted_insert(k_smallest(values.drop_last(), k), values.last());
        assert forall|i: int| 0 <= i < k_smallest(values, k).len() implies lo
            <= #[trigger] k_smallest(values, k)[i] <= hi by {
            assert(k_smallest(values, k)[i] == grown[i]);
        }
    }
}

/// A value put into a sequence within bounds leaves it within them, one
/// longer.
pub proof fn lemma_sorted_insert_bounds(sorted: Seq<int>, v: int, lo: int, hi: int)
    requires
        forall|i: int| 0 <= i < sorted.len() ==> lo <= #[trigger] sorted[i] <= hi,
        lo <= v <= hi,
    ensures
        sorted_insert(sorted, v).len() == sorted.len() + 1,
        forall|i: int|
            0 <= i < sorted_insert(sorted, v).len() ==> lo <= #[trigger] sorted_insert(
                sorted,
                v,
            )[i] <= hi,
    decreases sorted.len(),
{
    if sorted.len() > 0 && sorted.last() > v {
        lemma_sorted_insert_bounds(sorted.drop_last(), v, lo, hi);
    }
}

/// The smallest values stand in ascending order.
pub proof fn lemma_k_smallest_sorted(values: Seq<int>, k: int)
    requires
        k >= 0,
    ensures
        forall|i: int, j: int|
            0 <= i <= j < k_smallest(values, k).len() ==> #[trigger] k_smallest(values, k)[i]
                <= #[trigger] k_smallest(values, k)[j],
    decreases values.len(),
{
    if values.len() > 0 {
        lemma_k_smallest_sorted(values.drop_last(), k);
        lemma_sorted_insert_sorted(k_smallest(values.drop_last(), k), values.last());
        let grown = sorted_insert(k_smallest(values.drop_last(), k), values.last());
        assert forall|i: int, j: int| 0 <= i <= j < k_smallest(values, k).len() implies #[trigger] k_smallest(
            values,
            k,
        )[i] <= #[trigger] k_smallest(values, k)[j] by {
            assert(k_smallest(values, k)[i] == grown[i]);
            assert(k_smallest(values, k)[j] == grown[j]);
        }
    }
}

/// A value put into an ascending sequence leaves it ascending, one longer,
/// with the value and what it held.
pub proof fn lemma_sorted_insert_sorted(sorted: Seq<int>, v: int)
    requires
        forall|i: int, j: int|
            0 <= i <= j < sorted.len() ==> #[trigger] sorted[i] <= #[trigger] sorted[j],
    ensures
        sorted_insert(sorted, v).len() == sorted.len() + 1,
        forall|i: int|
            0 <= i < sorted_insert(sorted, v).len() ==> #[trigger] sorted_insert(sorted, v)[i]
                == v || sorted.contains(sorted_insert(sorted, v)[i]),
        forall|i: int, j: int|
            0 <= i <= j < sorted_insert(sorted, v).len() ==> #[trigger] sorted_insert(sorted, v)[i]
                <= #[trigger] sorted_insert(sorted, v)[j],
    decreases sorted.len(),
{
    let out = sorted_insert(sorted, v);
    if sorted.len() == 0 {
    } else if sorted.last() <= v {
        assert forall|i: int| 0 <= i < out.len() implies #[trigger] out[i] == v || sorted.contains(
            out[i],
        ) by {
            if i < sorted.len() {
                assert(sorted[i] == out[i]);
            }
        }
        assert forall|i: int, j: int| 0 <= i <= j < out.len() implies #[trigger] out[i]
            <= #[trigger] out[j] by {
            if j == sorted.len() && i < sorted.len() {
                assert(sorted[i] <= sorted[sorted.len() - 1]);
            }
        }
    } else {
        let init = sorted.drop_last();
        assert forall|i: int, j: int| 0 <= i <= j < init.len() implies #[trigger] init[i]
            <= #[trigger] init[j] by {
            assert(sorted[i] <= sorted[j]);
        }
        lemma_sorted_insert_sorted(init, v);
        let inner = sorted_insert(init, v);
        assert forall|i: int| 0 <= i < out.len() implies #[trigger] out[i] == v || sorted.contains(
            out[i],
        ) by {
            if i < inner.len() {
                assert(out[i] == inner[i]);
                if inner[i] != v {
                    assert(init.contains(inner[i]));
                    let q = choose|q: int| 0 <= q < init.len() && init[q] == inner[i];
                    assert(sorted[q] == inner[i]);
                }
            } else {
                assert(sorted[sorted.len() - 1] == out[i]);
            }
        }
        assert forall|i: int, j: int| 0 <= i <= j < out.len() implies #[trigger] out[i]
            <= #[trigger] out[j] by {
            if j < inner.len() {
                assert(out[i] == inner[i]);
                assert(out[j] == inner[j]);
            } else if i < inner.len() {
                assert(out[i] == inner[i]);
                if inner[i] != v {
                    assert(init.contains(inner[i]));
                    let q = choose|q: int| 0 <= q < init.len() && init[q] == inner[i];
                    assert(sorted[q] <= sorted[sorted.len() - 1]);
                }
            }
        }
    }
}


} // verus!
