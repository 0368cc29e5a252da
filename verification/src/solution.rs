use vstd::prelude::*;
use std::sync::Arc;
use crate::route::Route;
use crate::stop::Stop;
use crate::vrp_instance::{share, VRPInstance};
use crate::seq_util::{
    is_reordering, lemma_insert_contains, lemma_remove_no_duplicates,
};
use crate::random::shuffle;
use crate::route::names;
use crate::route::{customers_in_range, lemma_customers_of_insert, lemma_customers_of_remove};
use vstd::set_lib::{lemma_int_range, lemma_len_subset, lemma_set_disjoint_lens, set_int_range};
use vstd::seq_lib::seq_to_set_is_finite;

verus! {

/// Sum of the costs of `routes`.
pub open spec fn total_cost(routes: Seq<Route>) -> int
    decreases routes.len(),
{
    if routes.len() == 0 {
        0
    } else {
        total_cost(routes.drop_last()) + routes.last().spec_cost()
    }
}

/// Number of stops on `routes`.
pub open spec fn total_stops(routes: Seq<Route>) -> int
    decreases routes.len(),
{
    if routes.len() == 0 {
        0
    } else {
        total_stops(routes.drop_last()) + routes.last()@.len()
    }
}

/// The customers that some route of `routes` serves.
pub open spec fn served_set(routes: Seq<Route>) -> Set<int> {
    Set::new(|c: int| exists|q: int| 0 <= q < routes.len() && #[trigger] routes[q].serves(c))
}

/// Routes that share no customer serve as many customers as they have
/// stops, and no more than the instance has.
pub proof fn lemma_total_stops_bound(routes: Seq<Route>, n: int)
    requires
        n >= 1,
        forall|q: int|
            0 <= q < routes.len() ==> customers_in_range((#[trigger] routes[q]).customers(), n)
                && routes[q].customers().no_duplicates(),
        forall|r1: int, r2: int, c: int|
            0 <= r1 < routes.len() && 0 <= r2 < routes.len() && r1 != r2 ==> !(
            #[trigger] routes[r1].serves(c) && #[trigger] routes[r2].serves(c)),
    ensures
        served_set(routes).finite(),
        served_set(routes).len() == total_stops(routes),
        0 <= total_stops(routes) <= n - 1,
    decreases routes.len(),
{
    lemma_int_range(1, n);
    if routes.len() == 0 {
        assert(served_set(routes) =~= Set::<int>::empty());
    } else {
        let init = routes.drop_last();
        let last = routes.last();
        assert forall|q: int| 0 <= q < init.len() implies customers_in_range(
            (#[trigger] init[q]).customers(),
            n,
        ) && init[q].customers().no_duplicates() by {
            assert(init[q] == routes[q]);
        }
        assert forall|r1: int, r2: int, c: int|
            0 <= r1 < init.len() && 0 <= r2 < init.len() && r1 != r2 implies !(
        #[trigger] init[r1].serves(c) && #[trigger] init[r2].serves(c)) by {
            assert(init[r1] == routes[r1]);
            assert(init[r2] == routes[r2]);
        }
        lemma_total_stops_bound(init, n);
        let head = served_set(init);
        let tail = last.customers().to_set();
        assert(routes[routes.len() - 1] == last);
        seq_to_set_is_finite(last.customers());
        last.customers().unique_seq_to_set();
        assert(head.disjoint(tail)) by {
            assert forall|c: int| !(head.contains(c) && tail.contains(c)) by {
                if head.contains(c) && tail.contains(c) {
                    let q = choose|q: int| 0 <= q < init.len() && #[trigger] init[q].serves(c);
                    assert(routes[q].serves(c));
                    assert(routes[routes.len() - 1].serves(c));
                }
            }
        }
        assert(served_set(routes) =~= head + tail) by {
            assert forall|c: int| served_set(routes).contains(c) <==> (head + tail).contains(
                c,
            ) by {
                if served_set(routes).contains(c) {
                    let q = choose|q: int| 0 <= q < routes.len() && #[trigger] routes[q].serves(c);
                    if q < init.len() {
                        assert(init[q].serves(c));
                    }
                }
                if head.contains(c) {
                    let q = choose|q: int| 0 <= q < init.len() && #[trigger] init[q].serves(c);
                    assert(routes[q].serves(c));
                }
                if tail.contains(c) {
                    assert(routes[routes.len() - 1].serves(c));
                }
            }
        }
        lemma_set_disjoint_lens(head, tail);
        assert(served_set(routes).subset_of(set_int_range(1, n))) by {
            assert forall|c: int| served_set(routes).contains(c) implies set_int_range(
                1,
                n,
            ).contains(c) by {
                let q = choose|q: int| 0 <= q < routes.len() && #[trigger] routes[q].serves(c);
                let i = choose|i: int|
                    0 <= i < routes[q].customers().len() && routes[q].customers()[i] == c;
                assert(1 <= routes[q].customers()[i] < n);
            }
        }
        lemma_len_subset(served_set(routes), set_int_range(1, n));
    }
}

/// Well-formed routes cost at most three longest legs for each stop.
pub proof fn lemma_total_cost_bound(routes: Seq<Route>)
    requires
        forall|q: int| 0 <= q < routes.len() ==> (#[trigger] routes[q]).wf(),
    ensures
        0 <= total_cost(routes) <= 3 * 0xffff_ffff * total_stops(routes),
    decreases routes.len(),
{
    if routes.len() > 0 {
        let init = routes.drop_last();
        let last = routes.last();
        assert forall|q: int| 0 <= q < init.len() implies (#[trigger] init[q]).wf() by {
            assert(init[q] == routes[q]);
        }
        lemma_total_cost_bound(init);
        assert(routes[routes.len() - 1].wf());
        last.lemma_bounds();
        if last@.len() == 0 {
            assert(last.customers().len() == 0);
        }
        assert(last.spec_cost() <= 3 * 0xffff_ffff * last@.len()) by (nonlinear_arith)
            requires
                last.spec_cost() <= (last@.len() + 2) * 0xffff_ffff,
                last@.len() == 0 ==> last.spec_cost() == 0,
                last@.len() >= 0,
        ;
        assert(3 * 0xffff_ffff * total_stops(init) + 3 * 0xffff_ffff * last@.len() == 3
            * 0xffff_ffff * total_stops(routes)) by (nonlinear_arith)
            requires
                total_stops(routes) == total_stops(init) + last@.len(),
        ;
    }
}

/// The first routes cost no more than all of them.
pub proof fn lemma_total_cost_prefix(routes: Seq<Route>, k: int)
    requires
        0 <= k <= routes.len(),
    ensures
        0 <= total_cost(routes.take(k)) <= total_cost(routes),
    decreases routes.len(),
{
    if k == routes.len() {
        assert(routes.take(k) =~= routes);
        if routes.len() > 0 {
            lemma_total_cost_prefix(routes.drop_last(), k - 1);
        }
    } else {
        assert(routes.drop_last().take(k) =~= routes.take(k));
        lemma_total_cost_prefix(routes.drop_last(), k);
    }
}

/// One route per vehicle; together the routes serve the customers.
pub struct VRPSolution {
    pub routes: Vec<Route>,
}

impl Clone for VRPSolution {
    fn clone(&self) -> (res: Self)
        ensures
            res.agrees_with(self),
    {
        let mut routes: Vec<Route> = Vec::new();
        let mut i: usize = 0;
        while i < self.routes.len()
            invariant
                i <= self.routes@.len(),
                routes@.len() == i,
                forall|r: int| 0 <= r < i ==> (#[trigger] routes@[r]).agrees_with(&self.routes@[r]),
            decreases self.routes@.len() - i,
        {
            routes.push(self.routes[i].clone());
            i = i + 1;
        }
        VRPSolution { routes }
    }

    fn clone_from(&mut self, source: &Self)
        ensures
            final(self).agrees_with(source),
    {
        *self = source.clone();
    }
}

/// Agreeing routes add up to the same cost.
pub proof fn lemma_total_cost_agrees(a: Seq<Route>, b: Seq<Route>)
    requires
        a.len() == b.len(),
        forall|r: int| 0 <= r < a.len() ==> (#[trigger] a[r]).spec_cost() == b[r].spec_cost(),
    ensures
        total_cost(a) == total_cost(b),
    decreases a.len(),
{
    if a.len() > 0 {
        assert forall|r: int| 0 <= r < a.drop_last().len() implies (#[trigger] a.drop_last()[r]).spec_cost()
            == b.drop_last()[r].spec_cost() by {
            assert(a.drop_last()[r] == a[r]);
            assert(b.drop_last()[r] == b[r]);
        }
        lemma_total_cost_agrees(a.drop_last(), b.drop_last());
        assert(a[a.len() - 1].spec_cost() == b[a.len() - 1].spec_cost());
    }
}

impl VRPSolution {
    /// The two solutions have as many routes, and route by route the same
    /// stops, cost, load, number and instance.
    pub open spec fn agrees_with(&self, other: &VRPSolution) -> bool {
        &&& self.routes@.len() == other.routes@.len()
        &&& forall|r: int|
            0 <= r < self.routes@.len() ==> (#[trigger] self.routes@[r]).agrees_with(
                &other.routes@[r],
            )
    }

    /// Solutions that agree cost the same and are valid together.
    pub proof fn lemma_agreement(&self, other: &VRPSolution, inst: &VRPInstance)
        requires
            self.agrees_with(other),
        ensures
            self.spec_cost() == other.spec_cost(),
            self.wf(inst) == other.wf(inst),
            self.routes_disjoint() == other.routes_disjoint(),
            self.within_capacity(inst) == other.within_capacity(inst),
            self.covers_all(inst) == other.covers_all(inst),
            self.true_demands(inst) == other.true_demands(inst),
            self.is_valid(inst) == other.is_valid(inst),
            forall|c: int| self.serves(c) == other.serves(c),
    {
        lemma_total_cost_agrees(self.routes@, other.routes@);
        assert forall|r: int, c: int| 0 <= r < self.routes@.len() implies (
        #[trigger] self.routes@[r].serves(c)) == other.routes@[r].serves(c) by {
            assert(self.routes@[r].agrees_with(&other.routes@[r]));
        }
        assert forall|c: int| self.serves(c) == other.serves(c) by {
            if self.serves(c) {
                let q = choose|q: int|
                    0 <= q < self.routes@.len() && (#[trigger] self.routes@[q]).serves(c);
                assert(self.routes@[q].serves(c) == other.routes@[q].serves(c));
                assert(other.routes@[q].serves(c));
            }
            if other.serves(c) {
                let q = choose|q: int|
                    0 <= q < other.routes@.len() && (#[trigger] other.routes@[q]).serves(c);
                assert(self.routes@[q].serves(c) == other.routes@[q].serves(c));
                assert(self.routes@[q].serves(c));
            }
        }
        assert(self.wf(inst) == other.wf(inst)) by {
            if self.wf(inst) {
                assert forall|r: int| 0 <= r < other.routes@.len() implies (
                #[trigger] other.routes@[r]).wf() && other.routes@[r].inst() == *inst by {
                    assert(self.routes@[r].agrees_with(&other.routes@[r]));
                    assert(self.routes@[r].wf());
                }
            }
            if other.wf(inst) {
                assert forall|r: int| 0 <= r < self.routes@.len() implies (
                #[trigger] self.routes@[r]).wf() && self.routes@[r].inst() == *inst by {
                    assert(self.routes@[r].agrees_with(&other.routes@[r]));
                    assert(other.routes@[r].wf());
                }
            }
        }
        assert(self.routes_disjoint() == other.routes_disjoint()) by {
            if self.routes_disjoint() {
                assert forall|r1: int, r2: int, c: int|
                    0 <= r1 < other.routes@.len() && 0 <= r2 < other.routes@.len() && r1
                        != r2 implies !(#[trigger] other.routes@[r1].serves(c)
                    && #[trigger] other.routes@[r2].serves(c)) by {
                    assert(self.routes@[r1].serves(c) == other.routes@[r1].serves(c));
                    assert(self.routes@[r2].serves(c) == other.routes@[r2].serves(c));
                }
            }
            if other.routes_disjoint() {
                assert forall|r1: int, r2: int, c: int|
                    0 <= r1 < self.routes@.len() && 0 <= r2 < self.routes@.len() && r1
                        != r2 implies !(#[trigger] self.routes@[r1].serves(c)
                    && #[trigger] self.routes@[r2].serves(c)) by {
                    assert(self.routes@[r1].serves(c) == other.routes@[r1].serves(c));
                    assert(self.routes@[r2].serves(c) == other.routes@[r2].serves(c));
                }
            }
        }
        assert(self.within_capacity(inst) == other.within_capacity(inst)) by {
            if self.within_capacity(inst) {
                assert forall|r: int| 0 <= r < other.routes@.len() implies (
                #[trigger] other.routes@[r]).spec_used_capacity() <= inst.vehicle_capacity by {
                    assert(self.routes@[r].agrees_with(&other.routes@[r]));
                }
            }
            if other.within_capacity(inst) {
                assert forall|r: int| 0 <= r < self.routes@.len() implies (
                #[trigger] self.routes@[r]).spec_used_capacity() <= inst.vehicle_capacity by {
                    assert(self.routes@[r].agrees_with(&other.routes@[r]));
                }
            }
        }
        assert(self.true_demands(inst) == other.true_demands(inst)) by {
            if self.true_demands(inst) {
                assert forall|r: int, i: int|
                    0 <= r < other.routes@.len() && 0 <= i < other.routes@[r]@.len() implies (
                #[trigger] other.routes@[r]@[i]).capacity() == inst.spec_demand(
                    other.routes@[r]@[i].cust_no() as int,
                ) by {
                    assert(self.routes@[r].agrees_with(&other.routes@[r]));
                    assert(self.routes@[r]@[i] == other.routes@[r]@[i]);
                }
            }
            if other.true_demands(inst) {
                assert forall|r: int, i: int|
                    0 <= r < self.routes@.len() && 0 <= i < self.routes@[r]@.len() implies (
                #[trigger] self.routes@[r]@[i]).capacity() == inst.spec_demand(
                    self.routes@[r]@[i].cust_no() as int,
                ) by {
                    assert(self.routes@[r].agrees_with(&other.routes@[r]));
                    assert(self.routes@[r]@[i] == other.routes@[r]@[i]);
                }
            }
        }
    }

    /// Every route is well-formed and belongs to `inst`.
    pub open spec fn wf(&self, inst: &VRPInstance) -> bool {
        forall|r: int|
            0 <= r < self.routes@.len() ==> (#[trigger] self.routes@[r]).wf()
                && self.routes@[r].inst() == *inst
    }

    /// Some route serves customer `c`.
    pub open spec fn serves(&self, c: int) -> bool {
        exists|r: int| 0 <= r < self.routes@.len() && (#[trigger] self.routes@[r]).serves(c)
    }

    /// No customer is served by two routes.
    pub open spec fn routes_disjoint(&self) -> bool {
        forall|r1: int, r2: int, c: int|
            0 <= r1 < self.routes@.len() && 0 <= r2 < self.routes@.len() && r1 != r2 ==> !(
            #[trigger] self.routes@[r1].serves(c) && #[trigger] self.routes@[r2].serves(c))
    }

    /// No route carries more than a vehicle holds.
    pub open spec fn within_capacity(&self, inst: &VRPInstance) -> bool {
        forall|r: int|
            0 <= r < self.routes@.len() ==> (#[trigger] self.routes@[r]).spec_used_capacity()
                <= inst.vehicle_capacity
    }

    /// Every customer other than the depot is served.
    pub open spec fn covers_all(&self, inst: &VRPInstance) -> bool {
        forall|c: int| 1 <= c < inst.num_customers ==> #[trigger] self.serves(c)
    }

    /// Every stop carries the demand that the instance gives its customer.
    pub open spec fn true_demands(&self, inst: &VRPInstance) -> bool {
        forall|r: int, i: int|
            0 <= r < self.routes@.len() && 0 <= i < self.routes@[r]@.len() ==> (
            #[trigger] self.routes@[r]@[i]).capacity() == inst.spec_demand(
                self.routes@[r]@[i].cust_no() as int,
            )
    }

    /// A solution of `inst`: one well-formed route per vehicle, every
    /// customer in exactly one route, no vehicle over capacity.
    pub open spec fn is_valid(&self, inst: &VRPInstance) -> bool {
        &&& self.wf(inst)
        &&& self.routes@.len() == inst.num_vehicles
        &&& self.routes_disjoint()
        &&& self.within_capacity(inst)
        &&& self.covers_all(inst)
        &&& self.true_demands(inst)
    }

    /// The instance of route `r`.
    pub open spec fn inst_of(&self, r: int) -> VRPInstance {
        self.routes@[r].inst()
    }

    /// The stops of each route, route by route.
    pub open spec fn plan(&self) -> Seq<Seq<Stop>> {
        Seq::new(self.routes@.len(), |r: int| self.routes@[r]@)
    }

    /// Sum of the costs of the routes.
    pub open spec fn spec_cost(&self) -> int {
        total_cost(self.routes@)
    }

    /// With one vehicle and two customers every valid solution costs the
    /// same: the round from the depot through both.
    pub proof fn lemma_two_customers_cost(&self, inst: &VRPInstance)
        requires
            self.is_valid(inst),
            inst.num_customers == 3,
            inst.num_vehicles == 1,
        ensures
            self.spec_cost() == inst.spec_dist(0, 1) + inst.spec_dist(1, 2) + inst.spec_dist(2, 0),
    {
        let d = inst.distance_matrix@;
        let route = self.routes@[0];
        let cs = route.customers();
        assert(self.routes@.drop_last() =~= Seq::<Route>::empty());
        assert(total_cost(self.routes@.drop_last()) == 0);
        assert(self.routes@.last() == route);
        assert(route.wf());
        assert(self.serves(1));
        assert(self.serves(2));
        assert(cs.contains(1));
        assert(cs.contains(2));
        crate::seq_util::lemma_distinct_in_range_len(cs, 1, 3);
        let i = choose|i: int| 0 <= i < cs.len() && cs[i] == 1;
        let j = choose|j: int| 0 <= j < cs.len() && cs[j] == 2;
        assert(cs.len() == 2);
        let a = cs[0];
        let b = cs[1];
        assert(a != b);
        assert(1 <= a < 3 && 1 <= b < 3);
        let none = Seq::<int>::empty();
        assert(none.insert(0, a) =~= seq![a]);
        assert(seq![a].insert(1, b) =~= cs);
        crate::route::lemma_route_cost_insert(d, none, 0, a);
        crate::route::lemma_route_cost_insert(d, seq![a], 1, b);
        assert(d[0][1] == d[1][0] && d[0][2] == d[2][0] && d[1][2] == d[2][1]);
    }

    /// In a valid solution every customer other than the depot is served by
    /// one route and by no other, once on that route, and no route carries
    /// more than a vehicle holds.
    pub proof fn lemma_valid_serves_once(&self, inst: &VRPInstance, c: int)
        requires
            self.is_valid(inst),
            1 <= c < inst.num_customers,
        ensures
            exists|r: int|
                0 <= r < self.routes@.len() && (#[trigger] self.routes@[r]).serves(c) && (forall|
                    q: int,
                |
                    0 <= q < self.routes@.len() && q != r ==> !(#[trigger] self.routes@[q]).serves(
                        c,
                    )) && self.routes@[r].customers().no_duplicates()
                    && self.routes@[r].spec_used_capacity() <= inst.vehicle_capacity,
    {
        assert(self.serves(c));
        let r = choose|r: int|
            0 <= r < self.routes@.len() && (#[trigger] self.routes@[r]).serves(c);
        assert(self.routes@[r].wf());
        assert forall|q: int| 0 <= q < self.routes@.len() && q != r implies !(
        #[trigger] self.routes@[q]).serves(c) by {
            assert(!(self.routes@[q].serves(c) && self.routes@[r].serves(c)));
        }
    }

    /// The cost of a solution whose routes share no customer fits `u64` with
    /// room to spare.
    pub proof fn lemma_cost_fits(&self, inst: &VRPInstance)
        requires
            inst.wf(),
            self.wf(inst),
            self.routes_disjoint(),
        ensures
            0 <= self.spec_cost() <= 3 * 0xffff_ffff * (inst.num_customers - 1),
            self.spec_cost() <= 0x3_0000_0000_0000,
    {
        lemma_total_stops_bound(self.routes@, inst.num_customers as int);
        lemma_total_cost_bound(self.routes@);
        assert(3 * 0xffff_ffff * total_stops(self.routes@) <= 3 * 0xffff_ffff * (
        inst.num_customers - 1)) by (nonlinear_arith)
            requires
                total_stops(self.routes@) <= inst.num_customers - 1,
        ;
        assert(3 * 0xffff_ffff * (inst.num_customers - 1) <= 0x3_0000_0000_0000)
            by (nonlinear_arith)
            requires
                inst.num_customers <= 65535,
        ;
    }

    /// Sum of the costs of the routes.
    pub fn cost(&self) -> (c: u64)
        requires
            self.spec_cost() <= u64::MAX,
        ensures
            c == self.spec_cost(),
    {
        let mut sum: u64 = 0;
        let mut i: usize = 0;
        while i < self.routes.len()
            invariant
                i <= self.routes@.len(),
                sum == total_cost(self.routes@.take(i as int)),
                self.spec_cost() <= u64::MAX,
            decreases self.routes@.len() - i,
        {
            proof {
                lemma_total_cost_prefix(self.routes@, i + 1);
                assert(self.routes@.take(i + 1).drop_last() =~= self.routes@.take(i as int));
            }
            sum = sum + self.routes[i].cost();
            i = i + 1;
        }
        assert(self.routes@.take(i as int) =~= self.routes@);
        sum
    }

    /// Whether no route is over capacity and every customer is served.
    pub fn is_valid_solution(&self, vrp_instance: &Arc<VRPInstance>) -> (ok: bool)
        ensures
            ok == (self.within_capacity(vrp_instance) && self.covers_all(vrp_instance)),
    {
        let mut r: usize = 0;
        while r < self.routes.len()
            invariant
                r <= self.routes@.len(),
                forall|q: int|
                    0 <= q < r ==> (#[trigger] self.routes@[q]).spec_used_capacity()
                        <= vrp_instance.vehicle_capacity,
            decreases self.routes@.len() - r,
        {
            if self.routes[r].used_capacity() > vrp_instance.vehicle_capacity {
                return false;
            }
            r = r + 1;
        }
        let mut c: usize = 1;
        while c < vrp_instance.num_customers
            invariant
                1 <= c,
                self.within_capacity(vrp_instance),
                forall|x: int| 1 <= x < c && x < vrp_instance.num_customers ==> #[trigger] self.serves(x),
            decreases vrp_instance.num_customers - c,
        {
            if c > 0xffff || !self.is_served(c as u16) {
                proof {
                    if c > 0xffff && self.serves(c as int) {
                        let q = choose|q: int|
                            0 <= q < self.routes@.len() && (#[trigger] self.routes@[q]).serves(
                                c as int,
                            );
                        let i = choose|i: int|
                            0 <= i < self.routes@[q].customers().len()
                                && self.routes@[q].customers()[i] == c as int;
                    }
                }
                return false;
            }
            c = c + 1;
        }
        true
    }

    /// Whether some route serves customer `cust_no`.
    pub fn is_served(&self, cust_no: u16) -> (b: bool)
        ensures
            b == self.serves(cust_no as int),
    {
        let mut r: usize = 0;
        while r < self.routes.len()
            invariant
                r <= self.routes@.len(),
                forall|q: int| 0 <= q < r ==> !(#[trigger] self.routes@[q]).serves(cust_no as int),
            decreases self.routes@.len() - r,
        {
            if self.routes[r].contains_stop(cust_no) {
                return true;
            }
            r = r + 1;
        }
        false
    }

    /// A solution with one empty route per vehicle.
    pub fn new(vrp_instance: &Arc<VRPInstance>) -> (sol: Self)
        requires
            vrp_instance.wf(),
        ensures
            sol.wf(vrp_instance),
            sol.routes@.len() == vrp_instance.num_vehicles,
            forall|r: int|
                0 <= r < sol.routes@.len() ==> (#[trigger] sol.routes@[r])@.len() == 0
                    && sol.routes@[r].spec_id() == r,
    {
        let mut routes: Vec<Route> = Vec::new();
        let mut i: usize = 0;
        while i < vrp_instance.num_vehicles
            invariant
                vrp_instance.wf(),
                i <= vrp_instance.num_vehicles,
                routes@.len() == i,
                forall|r: int|
                    0 <= r < routes@.len() ==> (#[trigger] routes@[r]).wf() && routes@[r].inst()
                        == **vrp_instance && routes@[r]@.len() == 0 && routes@[r].spec_id() == r,
            decreases vrp_instance.num_vehicles - i,
        {
            routes.push(Route::new(share(vrp_instance), i));
            i = i + 1;
        }
        VRPSolution { routes }
    }

    /// Takes the stop at position `index` out of route `r`.
    pub fn take_stop(&mut self, r: usize, index: usize) -> (stop:
        Stop)
        requires
            old(self).wf(&old(self).inst_of(r as int)),
            r < old(self).routes@.len(),
            index < old(self).routes@[r as int]@.len(),
        ensures
            final(self).wf(&old(self).inst_of(r as int)),
            stop == old(self).routes@[r as int]@[index as int],
            final(self).routes@.len() == old(self).routes@.len(),
            final(self).routes@[r as int]@ == old(self).routes@[r as int]@.remove(index as int),
            final(self).routes@[r as int].spec_id() == old(self).routes@[r as int].spec_id(),
            final(self).routes@[r as int].spec_used_capacity() == old(self).routes@[r as int].spec_used_capacity() - stop.capacity(),
            final(self).routes@[r as int].spec_cost() == old(self).routes@[r as int].cost_without_stop(index as int),
            forall|q: int|
                0 <= q < old(self).routes@.len() && q != r ==> final(self).routes@[q] == old(self).routes@[q],
            old(self).routes_disjoint() ==> final(self).routes_disjoint() && forall|c: int|
                final(self).serves(c) <==> (old(self).serves(c) && c != stop.cust_no()),
            old(self).true_demands(&old(self).inst_of(r as int)) ==> final(self).true_demands(&old(self).inst_of(r as int)),
            old(self).within_capacity(&old(self).inst_of(r as int)) ==> final(self).within_capacity(&old(self).inst_of(r as int)),
    {
        let ghost before = *self;
        let ghost inst = self.routes@[r as int].inst();
        let stop = self.routes[r].remove_stop_at_index(index);
        proof {
            let m = stop.cust_no() as int;
            let old_custs = before.routes@[r as int].customers();
            lemma_customers_of_remove(before.routes@[r as int]@, index as int);
            lemma_remove_no_duplicates(old_custs, index as int);
            assert(old_custs[index as int] == m);
            assert(before.routes@[r as int].serves(m));
            assert forall|c: int| c != m implies (self.routes@[r as int].serves(c)
                <==> before.routes@[r as int].serves(c)) by {
                assert(old_custs.remove(index as int).contains(c) <==> old_custs.contains(c));
            }
            if before.routes_disjoint() {
                assert forall|r1: int, r2: int, c: int|
                    0 <= r1 < self.routes@.len() && 0 <= r2 < self.routes@.len() && r1
                        != r2 implies !(#[trigger] self.routes@[r1].serves(c)
                    && #[trigger] self.routes@[r2].serves(c)) by {
                    if self.routes@[r1].serves(c) && self.routes@[r2].serves(c) {
                        assert(before.routes@[r1].serves(c));
                        assert(before.routes@[r2].serves(c));
                    }
                }
                assert forall|c: int| self.serves(c) <==> (before.serves(c) && c != m) by {
                    if self.serves(c) {
                        let q = choose|q: int|
                            0 <= q < self.routes@.len() && (#[trigger] self.routes@[q]).serves(c);
                        assert(before.routes@[q].serves(c));
                        if c == m {
                            assert(q != r);
                            assert(before.routes@[r as int].serves(c));
                        }
                    }
                    if before.serves(c) && c != m {
                        let q = choose|q: int|
                            0 <= q < before.routes@.len() && (#[trigger] before.routes@[q]).serves(
                                c,
                            );
                        assert(self.routes@[q].serves(c));
                    }
                }
            }
            if before.true_demands(&inst) {
                assert forall|q: int, i: int|
                    0 <= q < self.routes@.len() && 0 <= i < self.routes@[q]@.len() implies (
                #[trigger] self.routes@[q]@[i]).capacity() == inst.spec_demand(
                    self.routes@[q]@[i].cust_no() as int,
                ) by {
                    if q == r {
                        if i < index {
                            assert(self.routes@[q]@[i] == before.routes@[q]@[i]);
                        } else {
                            assert(self.routes@[q]@[i] == before.routes@[q]@[i + 1]);
                        }
                    } else {
                        assert(self.routes@[q]@[i] == before.routes@[q]@[i]);
                    }
                }
            }
        }
        stop
    }

    /// Drops the stops of the customers `removed` from every route.
    pub fn drop_customers(&mut self, removed: &Vec<u16>, vrp_instance: &VRPInstance)
        requires
            old(self).wf(vrp_instance),
        ensures
            final(self).wf(vrp_instance),
            final(self).routes@.len() == old(self).routes@.len(),
            forall|r: int|
                0 <= r < final(self).routes@.len() ==> (#[trigger] final(self).routes@[r]).is_pruned(
                    &old(self).routes@[r],
                    removed@,
                ),
            forall|c: int| #[trigger] final(self).serves(c) <==> old(self).serves(c) && !names(removed@, c),
            old(self).routes_disjoint() ==> final(self).routes_disjoint(),
            old(self).within_capacity(vrp_instance) ==> final(self).within_capacity(vrp_instance),
            old(self).true_demands(vrp_instance) ==> final(self).true_demands(vrp_instance),
    {
        let ghost before = *self;
        let mut r: usize = 0;
        while r < self.routes.len()
            invariant
                before.wf(vrp_instance),
                r <= self.routes@.len(),
                self.routes@.len() == before.routes@.len(),
                forall|q: int|
                    0 <= q < r ==> (#[trigger] self.routes@[q]).is_pruned(
                        &before.routes@[q],
                        removed@,
                    ),
                forall|q: int|
                    r <= q < self.routes@.len() ==> #[trigger] self.routes@[q] == before.routes@[q],
            decreases self.routes@.len() - r,
        {
            assert(before.routes@[r as int].wf());
            self.routes[r].retain_except(removed);
            r = r + 1;
        }
        proof {
            assert forall|q: int| 0 <= q < self.routes@.len() implies (
            #[trigger] self.routes@[q]).wf() && self.routes@[q].inst() == *vrp_instance by {
                assert(self.routes@[q].is_pruned(&before.routes@[q], removed@));
                assert(before.routes@[q].wf());
            }
            assert forall|c: int| #[trigger] self.serves(c) <==> before.serves(c) && !names(
                removed@,
                c,
            ) by {
                if self.serves(c) {
                    let q = choose|q: int|
                        0 <= q < self.routes@.len() && (#[trigger] self.routes@[q]).serves(c);
                    assert(self.routes@[q].is_pruned(&before.routes@[q], removed@));
                    assert(before.routes@[q].serves(c));
                }
                if before.serves(c) && !names(removed@, c) {
                    let q = choose|q: int|
                        0 <= q < before.routes@.len() && (#[trigger] before.routes@[q]).serves(c);
                    assert(self.routes@[q].is_pruned(&before.routes@[q], removed@));
                    assert(self.routes@[q].serves(c));
                }
            }
            if before.routes_disjoint() {
                assert forall|r1: int, r2: int, c: int|
                    0 <= r1 < self.routes@.len() && 0 <= r2 < self.routes@.len() && r1
                        != r2 implies !(#[trigger] self.routes@[r1].serves(c)
                    && #[trigger] self.routes@[r2].serves(c)) by {
                    assert(self.routes@[r1].is_pruned(&before.routes@[r1], removed@));
                    assert(self.routes@[r2].is_pruned(&before.routes@[r2], removed@));
                    if self.routes@[r1].serves(c) && self.routes@[r2].serves(c) {
                        assert(before.routes@[r1].serves(c));
                        assert(before.routes@[r2].serves(c));
                    }
                }
            }
            if before.within_capacity(vrp_instance) {
                assert forall|q: int| 0 <= q < self.routes@.len() implies (
                #[trigger] self.routes@[q]).spec_used_capacity()
                    <= vrp_instance.vehicle_capacity by {
                    assert(self.routes@[q].is_pruned(&before.routes@[q], removed@));
                    assert(before.routes@[q].spec_used_capacity() <= vrp_instance.vehicle_capacity);
                }
            }
            if before.true_demands(vrp_instance) {
                assert forall|q: int, i: int|
                    0 <= q < self.routes@.len() && 0 <= i < self.routes@[q]@.len() implies (
                #[trigger] self.routes@[q]@[i]).capacity() == vrp_instance.spec_demand(
                    self.routes@[q]@[i].cust_no() as int,
                ) by {
                    assert(self.routes@[q].is_pruned(&before.routes@[q], removed@));
                    assert(before.routes@[q]@.contains(self.routes@[q]@[i]));
                    let j = choose|j: int|
                        0 <= j < before.routes@[q]@.len() && before.routes@[q]@[j]
                            == self.routes@[q]@[i];
                    assert(before.routes@[q]@[j].capacity() == vrp_instance.spec_demand(
                        before.routes@[q]@[j].cust_no() as int,
                    ));
                }
            }
        }
    }

    /// Puts the routes in a random order.
    pub fn shuffle_routes(&mut self, vrp_instance: &VRPInstance)
        requires
            old(self).wf(vrp_instance),
        ensures
            final(self).wf(vrp_instance),
            final(self).routes@.len() == old(self).routes@.len(),
            exists|perm: Seq<int>| #[trigger]
                is_reordering(old(self).routes@, final(self).routes@, perm),
            forall|c: int| final(self).serves(c) <==> old(self).serves(c),
            old(self).routes_disjoint() ==> final(self).routes_disjoint(),
            old(self).within_capacity(vrp_instance) ==> final(self).within_capacity(vrp_instance),
            old(self).true_demands(vrp_instance) ==> final(self).true_demands(vrp_instance),
    {
        let ghost before = *self;
        shuffle(&mut self.routes);
        proof {
            let perm = choose|perm: Seq<int>| #[trigger]
                is_reordering(before.routes@, self.routes@, perm);
            assert forall|q: int| 0 <= q < self.routes@.len() implies #[trigger] self.routes@[q]
                == before.routes@[perm[q]] && 0 <= perm[q] < before.routes@.len() by {}
            assert forall|q: int| 0 <= q < self.routes@.len() implies (
            #[trigger] self.routes@[q]).wf() && self.routes@[q].inst() == *vrp_instance by {
                assert(self.routes@[q] == before.routes@[perm[q]]);
                assert(before.routes@[perm[q]].wf());
            }
            assert forall|c: int| self.serves(c) <==> before.serves(c) by {
                if self.serves(c) {
                    let q = choose|q: int|
                        0 <= q < self.routes@.len() && (#[trigger] self.routes@[q]).serves(c);
                    assert(self.routes@[q] == before.routes@[perm[q]]);
                    assert(before.routes@[perm[q]].serves(c));
                }
                if before.serves(c) {
                    let a = choose|a: int|
                        0 <= a < before.routes@.len() && (#[trigger] before.routes@[a]).serves(c);
                    assert(perm.contains(a));
                    let q = choose|q: int| 0 <= q < perm.len() && perm[q] == a;
                    assert(self.routes@[q] == before.routes@[perm[q]]);
                    assert(self.routes@[q].serves(c));
                }
            }
            if before.routes_disjoint() {
                assert forall|r1: int, r2: int, c: int|
                    0 <= r1 < self.routes@.len() && 0 <= r2 < self.routes@.len() && r1
                        != r2 implies !(#[trigger] self.routes@[r1].serves(c)
                    && #[trigger] self.routes@[r2].serves(c)) by {
                    assert(self.routes@[r1] == before.routes@[perm[r1]]);
                    assert(self.routes@[r2] == before.routes@[perm[r2]]);
                    assert(perm[r1] != perm[r2]);
                    if self.routes@[r1].serves(c) && self.routes@[r2].serves(c) {
                        assert(before.routes@[perm[r1]].serves(c));
                        assert(before.routes@[perm[r2]].serves(c));
                    }
                }
            }
            if before.within_capacity(vrp_instance) {
                assert forall|q: int| 0 <= q < self.routes@.len() implies (
                #[trigger] self.routes@[q]).spec_used_capacity()
                    <= vrp_instance.vehicle_capacity by {
                    assert(self.routes@[q] == before.routes@[perm[q]]);
                    assert(before.routes@[perm[q]].spec_used_capacity()
                        <= vrp_instance.vehicle_capacity);
                }
            }
            if before.true_demands(vrp_instance) {
                assert forall|q: int, i: int|
                    0 <= q < self.routes@.len() && 0 <= i < self.routes@[q]@.len() implies (
                #[trigger] self.routes@[q]@[i]).capacity() == vrp_instance.spec_demand(
                    self.routes@[q]@[i].cust_no() as int,
                ) by {
                    assert(self.routes@[q] == before.routes@[perm[q]]);
                    assert(self.routes@[q]@[i] == before.routes@[perm[q]]@[i]);
                }
            }
        }
    }

    /// Commits `stop` at position `index` of route `r`.
    pub fn add_stop(&mut self, r: usize, stop: Stop, index: usize)
        requires
            old(self).wf(&old(self).inst_of(r as int)),
            r < old(self).routes@.len(),
            index <= old(self).routes@[r as int]@.len(),
            1 <= stop.cust_no() < old(self).inst_of(r as int).num_customers,
            !old(self).serves(stop.cust_no() as int),
            old(self).routes@[r as int].spec_used_capacity() + stop.capacity() <= usize::MAX,
        ensures
            final(self).wf(&old(self).inst_of(r as int)),
            final(self).routes@.len() == old(self).routes@.len(),
            final(self).routes@[r as int]@ == old(self).routes@[r as int]@.insert(
                index as int,
                stop,
            ),
            final(self).routes@[r as int].spec_id() == old(self).routes@[r as int].spec_id(),
            final(self).routes@[r as int].spec_used_capacity() == old(self).routes@[r as int].spec_used_capacity() + stop.capacity(),
            final(self).routes@[r as int].spec_cost() == old(self).routes@[r as int].cost_with_stop(stop.cust_no() as int, index as int),
            forall|q: int|
                0 <= q < old(self).routes@.len() && q != r ==> final(self).routes@[q] == old(self).routes@[q],
            forall|c: int|
                final(self).serves(c) <==> (old(self).serves(c) || c == stop.cust_no()),
            old(self).routes_disjoint() ==> final(self).routes_disjoint(),
            old(self).true_demands(&old(self).inst_of(r as int)) && stop.capacity() == old(self).inst_of(r as int).spec_demand(
                stop.cust_no() as int,
            ) ==> final(self).true_demands(&old(self).inst_of(r as int)),
            old(self).within_capacity(&old(self).inst_of(r as int)) && old(self).routes@[r as int].spec_used_capacity()
                + stop.capacity() <= old(self).inst_of(r as int).vehicle_capacity ==> final(self).within_capacity(&old(self).inst_of(r as int)),
    {
        let ghost before = *self;
        let ghost inst = self.routes@[r as int].inst();
        self.routes[r].add_stop_to_index(stop, index);
        proof {
            if before.true_demands(&inst) && stop.capacity() == inst.spec_demand(
                stop.cust_no() as int,
            ) {
                assert forall|q: int, i: int|
                    0 <= q < self.routes@.len() && 0 <= i < self.routes@[q]@.len() implies (
                #[trigger] self.routes@[q]@[i]).capacity() == inst.spec_demand(
                    self.routes@[q]@[i].cust_no() as int,
                ) by {
                    if q == r {
                        if i < index {
                            assert(self.routes@[q]@[i] == before.routes@[q]@[i]);
                        } else if i > index {
                            assert(self.routes@[q]@[i] == before.routes@[q]@[i - 1]);
                        }
                    } else {
                        assert(self.routes@[q]@[i] == before.routes@[q]@[i]);
                    }
                }
            }
        }
        proof {
            let m = stop.cust_no() as int;
            lemma_customers_of_insert(before.routes@[r as int]@, index as int, stop);
            assert forall|c: int| self.routes@[r as int].serves(c) <==> (before.routes@[r as int].serves(c) || c == m) by {
                lemma_insert_contains(before.routes@[r as int].customers(), index as int, m, c);
            }
            assert forall|c: int| self.serves(c) <==> (before.serves(c) || c == m) by {
                if self.serves(c) {
                    let q = choose|q: int| 0 <= q < self.routes@.len() && (#[trigger] self.routes@[q]).serves(c);
                    if q != r {
                        assert(before.routes@[q].serves(c));
                    }
                }
                if before.serves(c) {
                    let q = choose|q: int| 0 <= q < before.routes@.len() && (#[trigger] before.routes@[q]).serves(c);
                    assert(self.routes@[q].serves(c));
                }
                if c == m {
                    assert(self.routes@[r as int].serves(c));
                }
            }
            if before.routes_disjoint() {
                assert forall|r1: int, r2: int, c: int|
                    0 <= r1 < self.routes@.len() && 0 <= r2 < self.routes@.len() && r1 != r2 implies !(
                    #[trigger] self.routes@[r1].serves(c) && #[trigger] self.routes@[r2].serves(c)) by {
                    if self.routes@[r1].serves(c) && self.routes@[r2].serves(c) {
                        if c == m {
                            let other = if r1 == r { r2 } else { r1 };
                            assert(before.routes@[other].serves(c));
                            assert(before.serves(c));
                        } else {
                            assert(before.routes@[r1].serves(c));
                            assert(before.routes@[r2].serves(c));
                        }
                    }
                }
            }
        }
    }
}

} // verus!
