use vstd::prelude::*;
use std::sync::Arc;
use crate::stop::Stop;
use crate::vrp_instance::{share, VRPInstance};
use crate::seq_util::{
    lemma_distinct_in_range_len, lemma_insert_contains, lemma_insert_no_duplicates,
    lemma_remove_no_duplicates,
};

verus! {

/// Length of a walk through the customers of `walk`, leg by leg.
pub open spec fn walk_cost(d: Seq<Seq<u32>>, walk: Seq<int>) -> int
    decreases walk.len(),
{
    if walk.len() < 2 {
        0
    } else {
        walk_cost(d, walk.drop_last()) + d[walk[walk.len() - 2]][walk.last()]
    }
}

/// The round trip that serves `custs` in order: depot, customers, depot.
pub open spec fn tour(custs: Seq<int>) -> Seq<int> {
    seq![0int] + custs + seq![0int]
}

/// Cost of serving `custs` in order from the depot and back; a vehicle that
/// serves nobody stays at the depot and costs nothing.
pub open spec fn route_cost(d: Seq<Seq<u32>>, custs: Seq<int>) -> int {
    if custs.len() == 0 {
        0
    } else {
        walk_cost(d, tour(custs))
    }
}

/// Sum of the demands of `stops`.
pub open spec fn total_demand(stops: Seq<Stop>) -> int
    decreases stops.len(),
{
    if stops.len() == 0 {
        0
    } else {
        total_demand(stops.drop_last()) + stops.last().capacity()
    }
}

/// The customer numbers of `stops`, in order.
pub open spec fn customers_of(stops: Seq<Stop>) -> Seq<int> {
    Seq::new(stops.len(), |i: int| stops[i].cust_no() as int)
}

/// Every entry of `custs` is a customer other than the depot.
pub open spec fn customers_in_range(custs: Seq<int>, num_customers: int) -> bool {
    forall|i: int| 0 <= i < custs.len() ==> 1 <= #[trigger] custs[i] < num_customers
}

/// The customer visited just before position `index`, the depot at the start.
pub open spec fn before(custs: Seq<int>, index: int) -> int {
    if index == 0 {
        0
    } else {
        custs[index - 1]
    }
}

/// The customer at position `index`, the depot past the end.
pub open spec fn after(custs: Seq<int>, index: int) -> int {
    if index >= custs.len() {
        0
    } else {
        custs[index]
    }
}

/// A walk has no negative length, and no leg is longer than 32 bits hold.
pub proof fn lemma_walk_cost_bounds(d: Seq<Seq<u32>>, walk: Seq<int>)
    ensures
        0 <= walk_cost(d, walk) <= walk.len() * 0xffff_ffff,
    decreases walk.len(),
{
    if walk.len() >= 2 {
        lemma_walk_cost_bounds(d, walk.drop_last());
        assert(walk_cost(d, walk) <= (walk.len() - 1) * 0xffff_ffff + 0xffff_ffff);
        assert((walk.len() - 1) * 0xffff_ffff + 0xffff_ffff == walk.len() * 0xffff_ffff)
            by (nonlinear_arith);
    } else {
        assert(0 <= walk.len() * 0xffff_ffff) by (nonlinear_arith);
    }
}

/// Putting `c` between two neighbours of a walk replaces their leg by the
/// two legs through `c`.
pub proof fn lemma_walk_cost_insert(d: Seq<Seq<u32>>, walk: Seq<int>, k: int, c: int)
    requires
        1 <= k <= walk.len() - 1,
    ensures
        walk_cost(d, walk.insert(k, c)) == walk_cost(d, walk) - d[walk[k - 1]][walk[k]]
            + d[walk[k - 1]][c] + d[c][walk[k]],
    decreases walk.len(),
{
    let grown = walk.insert(k, c);
    let n = walk.len() as int;
    if k == n - 1 {
        let mid = walk.drop_last().push(c);
        assert(grown.drop_last() =~= mid);
        assert(mid.drop_last() =~= walk.drop_last());
        assert(grown.last() == walk.last());
        assert(grown[grown.len() - 2] == c);
        assert(mid.last() == c);
        assert(mid[mid.len() - 2] == walk[n - 2]);
        assert(walk_cost(d, mid) == walk_cost(d, walk.drop_last()) + d[walk[n - 2]][c]);
    } else {
        assert(grown.drop_last() =~= walk.drop_last().insert(k, c));
        lemma_walk_cost_insert(d, walk.drop_last(), k, c);
        assert(grown.last() == walk.last());
        assert(grown[grown.len() - 2] == walk[n - 2]);
    }
}

/// Serving one more customer replaces the leg between its neighbours by the
/// two legs through it.
pub proof fn lemma_route_cost_insert(d: Seq<Seq<u32>>, custs: Seq<int>, i: int, c: int)
    requires
        0 <= i <= custs.len(),
        d[0][0] == 0,
    ensures
        route_cost(d, custs.insert(i, c)) == route_cost(d, custs) - d[before(custs, i)][after(
            custs,
            i,
        )] + d[before(custs, i)][c] + d[c][after(custs, i)],
{
    if custs.len() == 0 {
        let w = tour(custs.insert(i, c));
        assert(w =~= seq![0int, c, 0int]);
        assert(w.drop_last() =~= seq![0int, c]);
        assert(w.drop_last().drop_last() =~= seq![0int]);
        assert(walk_cost(d, w.drop_last()) == walk_cost(d, w.drop_last().drop_last()) + d[0][c]);
    } else {
        assert(tour(custs).insert(i + 1, c) =~= tour(custs.insert(i, c)));
        lemma_walk_cost_insert(d, tour(custs), i + 1, c);
    }
}

/// Dropping a customer replaces its two legs by the leg that joins its
/// neighbours.
pub proof fn lemma_route_cost_remove(d: Seq<Seq<u32>>, custs: Seq<int>, i: int)
    requires
        0 <= i < custs.len(),
        d[0][0] == 0,
    ensures
        route_cost(d, custs.remove(i)) == route_cost(d, custs) - d[before(custs, i)][custs[i]]
            - d[custs[i]][after(custs, i + 1)] + d[before(custs, i)][after(custs, i + 1)],
{
    let rest = custs.remove(i);
    assert(rest.insert(i, custs[i]) =~= custs);
    lemma_route_cost_insert(d, rest, i, custs[i]);
}

/// The customers of a route with one more stop are its customers with the
/// customer of that stop.
pub proof fn lemma_customers_of_insert(stops: Seq<Stop>, i: int, s: Stop)
    requires
        0 <= i <= stops.len(),
    ensures
        customers_of(stops.insert(i, s)) == customers_of(stops).insert(i, s.cust_no() as int),
{
    assert(customers_of(stops.insert(i, s)) =~= customers_of(stops).insert(
        i,
        s.cust_no() as int,
    ));
}

/// The customers of a route without a stop are its customers without the
/// customer of that stop.
pub proof fn lemma_customers_of_remove(stops: Seq<Stop>, i: int)
    requires
        0 <= i < stops.len(),
    ensures
        customers_of(stops.remove(i)) == customers_of(stops).remove(i),
{
    assert(customers_of(stops.remove(i)) =~= customers_of(stops).remove(i));
}

/// One more stop raises the demand of a route by its own.
pub proof fn lemma_total_demand_insert(stops: Seq<Stop>, i: int, s: Stop)
    requires
        0 <= i <= stops.len(),
    ensures
        total_demand(stops.insert(i, s)) == total_demand(stops) + s.capacity(),
    decreases stops.len(),
{
    let grown = stops.insert(i, s);
    if i == stops.len() {
        assert(grown.drop_last() =~= stops);
    } else {
        assert(grown.drop_last() =~= stops.drop_last().insert(i, s));
        lemma_total_demand_insert(stops.drop_last(), i, s);
    }
}

/// One stop less lowers the demand of a route by its own.
pub proof fn lemma_total_demand_remove(stops: Seq<Stop>, i: int)
    requires
        0 <= i < stops.len(),
    ensures
        total_demand(stops.remove(i)) == total_demand(stops) - stops[i].capacity(),
{
    assert(stops.remove(i).insert(i, stops[i]) =~= stops);
    lemma_total_demand_insert(stops.remove(i), i, stops[i]);
}

/// The demand of a route is the demand of its first stops and of the rest.
pub proof fn lemma_total_demand_concat(a: Seq<Stop>, b: Seq<Stop>)
    ensures
        total_demand(a + b) == total_demand(a) + total_demand(b),
    decreases b.len(),
{
    if b.len() == 0 {
        assert(a + b =~= a);
    } else {
        assert((a + b).drop_last() =~= a + b.drop_last());
        lemma_total_demand_concat(a, b.drop_last());
    }
}

/// The first stops of a route demand no more than all of them.
pub proof fn lemma_total_demand_prefix(stops: Seq<Stop>, k: int)
    requires
        0 <= k <= stops.len(),
    ensures
        0 <= total_demand(stops.take(k)) <= total_demand(stops),
{
    assert(stops.take(k) + stops.skip(k) =~= stops);
    lemma_total_demand_concat(stops.take(k), stops.skip(k));
    lemma_total_demand_nonnegative(stops.take(k));
    lemma_total_demand_nonnegative(stops.skip(k));
}

/// A stop demands no more than its route.
pub proof fn lemma_stop_within_load(stops: Seq<Stop>, i: int)
    requires
        0 <= i < stops.len(),
    ensures
        stops[i].capacity() <= total_demand(stops),
{
    lemma_total_demand_remove(stops, i);
    lemma_total_demand_nonnegative(stops.remove(i));
}

/// Demands are not negative.
pub proof fn lemma_total_demand_nonnegative(stops: Seq<Stop>)
    ensures
        0 <= total_demand(stops),
    decreases stops.len(),
{
    if stops.len() > 0 {
        lemma_total_demand_nonnegative(stops.drop_last());
    }
}

/// The stops of `stops` whose entry in `kept` is `true`, in order.
pub open spec fn kept_stops(stops: Seq<Stop>, kept: Seq<bool>) -> Seq<Stop>
    decreases stops.len(),
{
    if stops.len() == 0 {
        Seq::empty()
    } else {
        let rest = kept_stops(stops.drop_last(), kept.drop_last());
        if kept.last() {
            rest.push(stops.last())
        } else {
            rest
        }
    }
}

/// The stops that are kept are the stops whose entry in `kept` is `true`.
pub proof fn lemma_kept_stops(stops: Seq<Stop>, kept: Seq<bool>)
    requires
        kept.len() == stops.len(),
    ensures
        kept_stops(stops, kept).len() <= stops.len(),
        forall|x: Stop| #[trigger]
            kept_stops(stops, kept).contains(x) <==> exists|i: int|
                0 <= i < stops.len() && kept[i] && #[trigger] stops[i] == x,
    decreases stops.len(),
{
    let out = kept_stops(stops, kept);
    if stops.len() == 0 {
        assert forall|x: Stop| #[trigger]
            out.contains(x) <==> exists|i: int|
                0 <= i < stops.len() && kept[i] && #[trigger] stops[i] == x by {}
    } else {
        let init = stops.drop_last();
        let init_kept = kept.drop_last();
        let rest = kept_stops(init, init_kept);
        lemma_kept_stops(init, init_kept);
        let last = stops.len() - 1;
        assert forall|x: Stop| #[trigger]
            out.contains(x) <==> exists|i: int|
                0 <= i < stops.len() && kept[i] && #[trigger] stops[i] == x by {
            if out.contains(x) {
                let j = choose|j: int| 0 <= j < out.len() && out[j] == x;
                if kept.last() && j == out.len() - 1 {
                    assert(kept[last] && stops[last] == x);
                } else {
                    assert(rest[j] == x);
                    assert(rest.contains(x));
                    let i = choose|i: int| 0 <= i < init.len() && init_kept[i] && #[trigger] init[i] == x;
                    assert(kept[i] && stops[i] == x);
                }
            }
            if exists|i: int| 0 <= i < stops.len() && kept[i] && #[trigger] stops[i] == x {
                let i = choose|i: int| 0 <= i < stops.len() && kept[i] && #[trigger] stops[i] == x;
                if i == last {
                    assert(out[out.len() - 1] == x);
                } else {
                    assert(init_kept[i] && init[i] == x);
                    assert(rest.contains(x));
                    let j = choose|j: int| 0 <= j < rest.len() && rest[j] == x;
                    assert(out[j] == x);
                }
            }
        }
    }
}

/// Whether `c` is one of the customer numbers `removed`.
pub open spec fn names(removed: Seq<u16>, c: int) -> bool {
    exists|i: int| 0 <= i < removed.len() && #[trigger] removed[i] == c
}

/// Whether `cust_no` is one of the customer numbers `removed`.
pub fn is_named(removed: &Vec<u16>, cust_no: u16) -> (b: bool)
    ensures
        b == names(removed@, cust_no as int),
{
    let mut i: usize = 0;
    while i < removed.len()
        invariant
            i <= removed@.len(),
            forall|j: int| 0 <= j < i ==> #[trigger] removed@[j] != cust_no,
        decreases removed@.len() - i,
    {
        if removed[i] == cust_no {
            return true;
        }
        i = i + 1;
    }
    false
}

/// The stops of `stops` other than those of the customers `removed`, in
/// order.
pub open spec fn without(stops: Seq<Stop>, removed: Seq<u16>) -> Seq<Stop>
    decreases stops.len(),
{
    if stops.len() == 0 {
        Seq::empty()
    } else {
        let rest = without(stops.drop_last(), removed);
        if names(removed, stops.last().cust_no() as int) {
            rest
        } else {
            rest.push(stops.last())
        }
    }
}

/// Without the stops of no customer a route is as it was.
pub proof fn lemma_without_none(stops: Seq<Stop>)
    ensures
        without(stops, Seq::empty()) == stops,
    decreases stops.len(),
{
    if stops.len() > 0 {
        lemma_without_none(stops.drop_last());
        assert(!names(Seq::<u16>::empty(), stops.last().cust_no() as int));
        assert(stops.drop_last().push(stops.last()) =~= stops);
    } else {
        assert(stops =~= Seq::<Stop>::empty());
    }
}

/// Without the stops of a customer that it does not serve a route is as it
/// was.
pub proof fn lemma_without_absent(stops: Seq<Stop>, c: u16)
    requires
        !customers_of(stops).contains(c as int),
    ensures
        without(stops, seq![c]) == stops,
    decreases stops.len(),
{
    if stops.len() > 0 {
        let init = stops.drop_last();
        assert(customers_of(stops)[stops.len() - 1] == stops.last().cust_no());
        assert(!customers_of(init).contains(c as int)) by {
            if customers_of(init).contains(c as int) {
                let i = choose|i: int| 0 <= i < init.len() && customers_of(init)[i] == c as int;
                assert(customers_of(stops)[i] == c as int);
            }
        }
        lemma_without_absent(init, c);
        if names(seq![c], stops.last().cust_no() as int) {
            let i = choose|i: int|
                0 <= i < seq![c].len() && #[trigger] seq![c][i] == stops.last().cust_no() as int;
            assert(seq![c][i] == c);
        }
        assert(init.push(stops.last()) =~= stops);
    } else {
        assert(stops =~= Seq::<Stop>::empty());
    }
}

/// Without the stops of the one customer that it serves at position `i`, a
/// route that serves no customer twice is the route without that stop.
pub proof fn lemma_without_at(stops: Seq<Stop>, i: int, c: u16)
    requires
        0 <= i < stops.len(),
        stops[i].cust_no() == c,
        customers_of(stops).no_duplicates(),
    ensures
        without(stops, seq![c]) == stops.remove(i),
    decreases stops.len(),
{
    let init = stops.drop_last();
    let last = stops.len() - 1;
    assert(customers_of(init).no_duplicates()) by {
        assert forall|p: int, q: int|
            0 <= p < init.len() && 0 <= q < init.len() && p != q implies customers_of(init)[p]
            != customers_of(init)[q] by {
            assert(customers_of(stops)[p] != customers_of(stops)[q]);
        }
    }
    assert(seq![c][0] == c);
    if i == last {
        assert(names(seq![c], stops.last().cust_no() as int));
        assert(!customers_of(init).contains(c as int)) by {
            if customers_of(init).contains(c as int) {
                let p = choose|p: int| 0 <= p < init.len() && customers_of(init)[p] == c as int;
                assert(customers_of(stops)[p] == customers_of(stops)[last]);
            }
        }
        lemma_without_absent(init, c);
        assert(stops.remove(i) =~= init);
    } else {
        assert(customers_of(stops)[i] != customers_of(stops)[last]);
        if names(seq![c], stops.last().cust_no() as int) {
            let p = choose|p: int|
                0 <= p < seq![c].len() && #[trigger] seq![c][p] == stops.last().cust_no() as int;
            assert(seq![c][p] == c);
        }
        lemma_without_at(init, i, c);
        assert(init.remove(i).push(stops.last()) =~= stops.remove(i));
    }
}

/// Taking the stops of one more customer out is taking them out of what
/// was left.
pub proof fn lemma_without_more(stops: Seq<Stop>, removed: Seq<u16>, c: u16)
    ensures
        without(stops, removed.push(c)) == without(without(stops, removed), seq![c]),
    decreases stops.len(),
{
    if stops.len() > 0 {
        let init = stops.drop_last();
        let x = stops.last().cust_no() as int;
        lemma_without_more(init, removed, c);
        assert(seq![c][0] == c);
        assert(names(removed.push(c), x) <==> names(removed, x) || x == c) by {
            if names(removed.push(c), x) {
                let i = choose|i: int|
                    0 <= i < removed.push(c).len() && #[trigger] removed.push(c)[i] == x;
                if i < removed.len() {
                    assert(removed[i] == x);
                }
            }
            if names(removed, x) {
                let i = choose|i: int| 0 <= i < removed.len() && #[trigger] removed[i] == x;
                assert(removed.push(c)[i] == x);
            }
            if x == c {
                assert(removed.push(c)[removed.len() as int] == x);
            }
        }
        assert(names(seq![c], x) <==> x == c) by {
            if names(seq![c], x) {
                let i = choose|i: int| 0 <= i < seq![c].len() && #[trigger] seq![c][i] == x;
            }
        }
        let left = without(init, removed);
        if !names(removed, x) {
            assert(left.push(stops.last()).drop_last() =~= left);
        }
    }
}

/// Keeping the stops that `removed` does not name leaves the stops without
/// those of `removed`.
pub proof fn lemma_kept_is_without(stops: Seq<Stop>, kept: Seq<bool>, removed: Seq<u16>)
    requires
        kept.len() == stops.len(),
        forall|i: int|
            0 <= i < kept.len() ==> #[trigger] kept[i] == !names(removed, stops[i].cust_no() as int),
    ensures
        kept_stops(stops, kept) == without(stops, removed),
    decreases stops.len(),
{
    if stops.len() > 0 {
        assert forall|i: int| 0 <= i < kept.drop_last().len() implies #[trigger] kept.drop_last()[i]
            == !names(removed, stops.drop_last()[i].cust_no() as int) by {
            assert(kept.drop_last()[i] == kept[i]);
        }
        lemma_kept_is_without(stops.drop_last(), kept.drop_last(), removed);
        assert(kept.last() == kept[kept.len() - 1]);
    }
}

/// Whether `p` is the position at which customer `c` costs least on the
/// route `custs`, the last of them where several cost the same.
pub open spec fn is_best_position(d: Seq<Seq<u32>>, custs: Seq<int>, c: int, p: int) -> bool {
    &&& 0 <= p <= custs.len()
    &&& forall|i: int|
        0 <= i <= custs.len() ==> route_cost(d, custs.insert(p, c)) <= route_cost(
            d,
            #[trigger] custs.insert(i, c),
        )
    &&& forall|i: int|
        p < i <= custs.len() ==> route_cost(d, custs.insert(p, c)) < route_cost(
            d,
            #[trigger] custs.insert(i, c),
        )
}

/// The position at which customer `c` costs least on the route `custs`, the
/// last of them where several cost the same.
pub open spec fn best_position(d: Seq<Seq<u32>>, custs: Seq<int>, c: int) -> int {
    choose|p: int| is_best_position(d, custs, c, p)
}

/// There is one best position.
pub proof fn lemma_best_position(d: Seq<Seq<u32>>, custs: Seq<int>, c: int, p: int)
    requires
        is_best_position(d, custs, c, p),
    ensures
        best_position(d, custs, c) == p,
{
    let q = best_position(d, custs, c);
    assert(is_best_position(d, custs, c, q));
    if q < p {
        assert(route_cost(d, custs.insert(q, c)) < route_cost(d, custs.insert(p, c)));
        assert(route_cost(d, custs.insert(p, c)) <= route_cost(d, custs.insert(q, c)));
    } else if p < q {
        assert(route_cost(d, custs.insert(p, c)) < route_cost(d, custs.insert(q, c)));
        assert(route_cost(d, custs.insert(q, c)) <= route_cost(d, custs.insert(p, c)));
    }
}

/// One vehicle's round trip: the stops it serves in order, with the cost of
/// the trip and the demand it carries kept up to date under every change.
pub struct Route {
    used_cap: usize,
    pub instance: Arc<VRPInstance>,
    id: usize,
    stops: Vec<Stop>,
    cost: u64,
}

impl View for Route {
    type V = Seq<Stop>;

    closed spec fn view(&self) -> Seq<Stop> {
        self.stops@
    }
}

impl Clone for Route {
    fn clone(&self) -> (r: Self)
        ensures
            r.agrees_with(self),
    {
        Route {
            instance: share(&self.instance),
            id: self.id,
            stops: self.stops.clone(),
            cost: self.cost,
            used_cap: self.used_cap,
        }
    }
}

impl Route {
    /// The two routes have the same stops, cost, load, number and instance.
    pub open spec fn agrees_with(&self, other: &Route) -> bool {
        &&& self@ == other@
        &&& self.spec_cost() == other.spec_cost()
        &&& self.spec_used_capacity() == other.spec_used_capacity()
        &&& self.spec_id() == other.spec_id()
        &&& self.inst() == other.inst()
    }

    /// The cached cost of the round trip.
    pub closed spec fn spec_cost(&self) -> u64 {
        self.cost
    }

    /// The cached load of the vehicle.
    pub closed spec fn spec_used_capacity(&self) -> usize {
        self.used_cap
    }

    /// The number of the route.
    pub closed spec fn spec_id(&self) -> usize {
        self.id
    }

    /// The instance whose customers the route serves.
    pub closed spec fn inst(&self) -> VRPInstance {
        *self.instance
    }

    /// The customer numbers served, in order.
    pub open spec fn customers(&self) -> Seq<int> {
        customers_of(self@)
    }

    /// Whether the route serves customer `c`.
    pub open spec fn serves(&self, c: int) -> bool {
        self.customers().contains(c)
    }

    /// The cached cost and load agree with their recomputation from the
    /// stops, every stop is a customer of the instance, and no customer is
    /// served twice.
    pub open spec fn wf(&self) -> bool {
        &&& self.inst().wf()
        &&& customers_in_range(self.customers(), self.inst().num_customers as int)
        &&& self.customers().no_duplicates()
        &&& self.spec_cost() == route_cost(self.inst().distance_matrix@, self.customers())
        &&& self.spec_used_capacity() == total_demand(self@)
    }

    /// The cost that the route has once `c` is served at position `index`:
    /// the leg between the neighbours gives way to the two legs through `c`.
    pub open spec fn cost_with_stop(&self, c: int, index: int) -> int {
        let d = self.inst().distance_matrix@;
        let b = before(self.customers(), index);
        let a = after(self.customers(), index);
        self.spec_cost() - d[b][a] + d[b][c] + d[c][a]
    }

    /// The cost that the route has once the stop at `index` is dropped: its
    /// two legs give way to the leg that joins its neighbours.
    pub open spec fn cost_without_stop(&self, index: int) -> int {
        let d = self.inst().distance_matrix@;
        let b = before(self.customers(), index);
        let a = after(self.customers(), index + 1);
        let c = self.customers()[index];
        self.spec_cost() - d[b][c] - d[c][a] + d[b][a]
    }

    /// The cost that the route has once customer `c` takes the place of the
    /// stop at `index`.
    pub open spec fn cost_with_swap(&self, c: int, index: int) -> int {
        let d = self.inst().distance_matrix@;
        let b = before(self.customers(), index);
        let a = after(self.customers(), index + 1);
        let old_c = self.customers()[index];
        self.spec_cost() - d[b][old_c] - d[old_c][a] + d[b][c] + d[c][a]
    }

    /// The first stop of a route costs the way to the customer and back:
    /// twice the distance between the depot and the customer.
    pub proof fn lemma_first_stop_cost(&self, c: int)
        requires
            self.wf(),
            self@.len() == 0,
            1 <= c < self.inst().num_customers,
        ensures
            self.cost_with_stop(c, 0) == 2 * self.inst().spec_dist(0, c),
    {
        let d = self.inst().distance_matrix@;
        assert(self.customers().len() == 0);
        assert(d[0][c] == d[c][0]);
        assert(d[0][0] == 0);
    }

    /// Without its only stop a route costs nothing.
    pub proof fn lemma_last_stop_cost(&self)
        requires
            self.wf(),
            self@.len() == 1,
        ensures
            self.cost_without_stop(0) == 0,
    {
        let d = self.inst().distance_matrix@;
        lemma_route_cost_remove(d, self.customers(), 0);
        assert(self.customers().remove(0) =~= Seq::<int>::empty());
    }

    /// The load of a well-formed route is the demand of its stops.
    pub proof fn lemma_load(&self)
        requires
            self.wf(),
        ensures
            self.spec_used_capacity() == total_demand(self@),
    {
    }

    /// A well-formed route serves fewer stops than the instance has
    /// customers, and its cost stays far below the range of `u64`.
    pub proof fn lemma_bounds(&self)
        requires
            self.wf(),
        ensures
            self@.len() < self.inst().num_customers,
            self.spec_cost() <= (self@.len() + 2) * 0xffff_ffff,
            self.spec_cost() <= 0x1_0000_ffff_0000,
    {
        lemma_distinct_in_range_len(self.customers(), 1, self.inst().num_customers as int);
        lemma_walk_cost_bounds(self.inst().distance_matrix@, tour(self.customers()));
        assert((self@.len() + 2) * 0xffff_ffff <= 0x1_0000 * 0xffff_ffff) by (nonlinear_arith)
            requires
                self@.len() + 2 <= 0x1_0000,
        ;
        assert(0 <= (self@.len() + 2) * 0xffff_ffff) by (nonlinear_arith);
    }

    /// An empty route, number `id`, of `instance`.
    pub fn new(instance: Arc<VRPInstance>, id: usize) -> (r: Self)
        requires
            instance.wf(),
        ensures
            r.wf(),
            r@ == Seq::<Stop>::empty(),
            r.inst() == *instance,
            r.spec_id() == id,
            r.spec_cost() == 0,
            r.spec_used_capacity() == 0,
    {
        let stops = Vec::with_capacity(instance.max_route_len);
        let r = Route { stops, instance, cost: 0, used_cap: 0, id };
        assert(r.customers() =~= Seq::<int>::empty());
        r
    }

    /// The customer before position `index`, the depot at the start.
    fn before_index(&self, index: usize) -> (b: usize)
        requires
            self.wf(),
            index <= self@.len(),
        ensures
            b == before(self.customers(), index as int),
            b < self.inst().num_customers,
    {
        if index != 0 {
            assert(self.customers()[index - 1] == self@[index - 1].cust_no());
            self.stops[index - 1].cust_no() as usize
        } else {
            0
        }
    }

    /// The customer at position `index`, the depot past the end.
    fn after_index(&self, index: usize) -> (a: usize)
        requires
            self.wf(),
        ensures
            a == after(self.customers(), index as int),
            a < self.inst().num_customers,
    {
        if index >= self.stops.len() {
            0
        } else {
            assert(self.customers()[index as int] == self@[index as int].cust_no());
            self.stops[index].cust_no() as usize
        }
    }

    /// Whether a load of `load` fits a vehicle.
    fn fits(&self, load: usize) -> (b: bool)
        ensures
            b == (load <= self.inst().vehicle_capacity),
    {
        load <= self.instance.vehicle_capacity
    }

    /// The cost the route would have with `stop` at position `index`, and
    /// whether the vehicle could carry the stop as well.
    pub fn speculative_add_stop(&self, stop: &Stop, index: usize) -> (res: (u64, bool))
        requires
            self.wf(),
            index <= self@.len(),
            1 <= stop.cust_no() < self.inst().num_customers,
        ensures
            res.0 == route_cost(
                self.inst().distance_matrix@,
                self.customers().insert(index as int, stop.cust_no() as int),
            ),
            res.0 == self.cost_with_stop(stop.cust_no() as int, index as int),
            res.1 == (self.spec_used_capacity() + stop.capacity()
                <= self.inst().vehicle_capacity),
    {
        let c = stop.cust_no() as usize;
        let b = self.before_index(index);
        let a = self.after_index(index);
        proof {
            self.lemma_bounds();
            let d = self.inst().distance_matrix@;
            lemma_route_cost_insert(d, self.customers(), index as int, c as int);
            lemma_walk_cost_bounds(d, tour(self.customers().insert(index as int, c as int)));
        }
        let d_ba = self.instance.distance_matrix.dist(b, a) as u64;
        let d_bc = self.instance.distance_matrix.dist(b, c) as u64;
        let d_ca = self.instance.distance_matrix.dist(c, a) as u64;
        let new_cost = self.cost + d_bc + d_ca - d_ba;
        let capacity = self.instance.vehicle_capacity;
        let within_capacity = self.used_cap <= capacity && stop.capacity() <= capacity
            - self.used_cap;
        (new_cost, within_capacity)
    }

    /// The cost the route would have without the stop at `index`, and whether
    /// the remaining load fits the vehicle.
    pub fn speculative_remove_stop(&self, index: usize) -> (res: (u64, bool))
        requires
            self.wf(),
            index < self@.len(),
        ensures
            res.0 == route_cost(
                self.inst().distance_matrix@,
                self.customers().remove(index as int),
            ),
            res.0 == self.cost_without_stop(index as int),
            res.1 == (self.spec_used_capacity() - self@[index as int].capacity()
                <= self.inst().vehicle_capacity),
    {
        proof {
            self.lemma_bounds();
        }
        let b = self.before_index(index);
        let a = self.after_index(index + 1);
        assert(self.customers()[index as int] == self@[index as int].cust_no());
        let c = self.stops[index].cust_no() as usize;
        proof {
            self.lemma_bounds();
            let d = self.inst().distance_matrix@;
            lemma_route_cost_remove(d, self.customers(), index as int);
            lemma_walk_cost_bounds(d, tour(self.customers().remove(index as int)));
            lemma_total_demand_remove(self@, index as int);
            lemma_total_demand_nonnegative(self@.remove(index as int));
        }
        let d_ba = self.instance.distance_matrix.dist(b, a) as u64;
        let d_bc = self.instance.distance_matrix.dist(b, c) as u64;
        let d_ca = self.instance.distance_matrix.dist(c, a) as u64;
        let new_cost = (self.cost + d_ba) - (d_bc + d_ca);
        let within_capacity = self.fits(self.used_cap - self.stops[index].capacity());
        (new_cost, within_capacity)
    }

    /// The cost the route would have if `new_stop` took the place of the stop
    /// at `index`.
    pub fn cost_if_cust_no_was(&self, new_stop: &Stop, index: usize) -> (c: u64)
        requires
            self.wf(),
            index < self@.len(),
            1 <= new_stop.cust_no() < self.inst().num_customers,
        ensures
            c == route_cost(
                self.inst().distance_matrix@,
                self.customers().update(index as int, new_stop.cust_no() as int),
            ),
            c == self.cost_with_swap(new_stop.cust_no() as int, index as int),
    {
        proof {
            self.lemma_bounds();
        }
        let b = self.before_index(index);
        let a = self.after_index(index + 1);
        assert(self.customers()[index as int] == self@[index as int].cust_no());
        let old_c = self.stops[index].cust_no() as usize;
        let new_c = new_stop.cust_no() as usize;
        proof {
            self.lemma_bounds();
            let d = self.inst().distance_matrix@;
            let custs = self.customers();
            let rest = custs.remove(index as int);
            lemma_route_cost_remove(d, custs, index as int);
            lemma_route_cost_insert(d, rest, index as int, new_c as int);
            assert(rest.insert(index as int, new_c as int) =~= custs.update(
                index as int,
                new_c as int,
            ));
            lemma_walk_cost_bounds(d, tour(custs.update(index as int, new_c as int)));
        }
        let d_bo = self.instance.distance_matrix.dist(b, old_c) as u64;
        let d_oa = self.instance.distance_matrix.dist(old_c, a) as u64;
        let d_bn = self.instance.distance_matrix.dist(b, new_c) as u64;
        let d_na = self.instance.distance_matrix.dist(new_c, a) as u64;
        (self.cost + d_bn + d_na) - (d_bo + d_oa)
    }

    /// The cost the route would have if `stop` took the place of the stop at
    /// `index`, and whether the vehicle could carry the exchanged load.
    pub fn speculative_replace_stop(&self, stop: &Stop, index: usize) -> (res: (u64, bool))
        requires
            self.wf(),
            index < self@.len(),
            1 <= stop.cust_no() < self.inst().num_customers,
        ensures
            res.0 == route_cost(
                self.inst().distance_matrix@,
                self.customers().update(index as int, stop.cust_no() as int),
            ),
            res.0 == self.cost_with_swap(stop.cust_no() as int, index as int),
            res.1 == (self.spec_used_capacity() - self@[index as int].capacity()
                + stop.capacity() <= self.inst().vehicle_capacity),
    {
        let new_cost = self.cost_if_cust_no_was(stop, index);
        proof {
            lemma_total_demand_remove(self@, index as int);
            lemma_total_demand_nonnegative(self@.remove(index as int));
        }
        let rest = self.used_cap - self.stops[index].capacity();
        let capacity = self.instance.vehicle_capacity;
        let within_capacity = rest <= capacity && stop.capacity() <= capacity - rest;
        (new_cost, within_capacity)
    }

    /// The length of the leg that ends at position `index`; at `index == len`
    /// the leg back to the depot.
    pub fn cost_at_index(&self, index: usize) -> (d: u32)
        requires
            self.wf(),
            index <= self@.len(),
        ensures
            d == self.inst().spec_dist(
                before(self.customers(), index as int),
                after(self.customers(), index as int),
            ),
    {
        let start = self.before_index(index);
        let end = self.after_index(index);
        self.instance.distance_matrix.dist(start, end)
    }

    /// Commits `stop` at position `index`.
    pub fn add_stop_to_index(&mut self, stop: Stop, index: usize)
        requires
            old(self).wf(),
            index <= old(self)@.len(),
            1 <= stop.cust_no() < old(self).inst().num_customers,
            !old(self).serves(stop.cust_no() as int),
            old(self).spec_used_capacity() + stop.capacity() <= usize::MAX,
        ensures
            final(self).wf(),
            final(self)@ == old(self)@.insert(index as int, stop),
            final(self).inst() == old(self).inst(),
            final(self).spec_id() == old(self).spec_id(),
            final(self).spec_cost() == old(self).cost_with_stop(
                stop.cust_no() as int,
                index as int,
            ),
            final(self).spec_used_capacity() == old(self).spec_used_capacity() + stop.capacity(),
            is_edit(*old(self), *final(self)),
    {
        let cap = stop.capacity();
        let ghost prev = *self;
        let (new_cost, _) = self.speculative_add_stop(&stop, index);
        proof {
            let custs = self.customers();
            let c = stop.cust_no() as int;
            lemma_customers_of_insert(self@, index as int, stop);
            lemma_insert_no_duplicates(custs, index as int, c);
            lemma_total_demand_insert(self@, index as int, stop);
            assert(customers_in_range(custs.insert(index as int, c), self.inst().num_customers as int));
        }
        self.stops.insert(index, stop);
        self.used_cap = self.used_cap + cap;
        self.cost = new_cost;
        proof {
            assert(is_insertion(prev, *self, stop, index as int));
        }
    }

    /// Takes the stop at `index` out of the route and hands it back.
    pub fn remove_stop_at_index(&mut self, index: usize) -> (stop: Stop)
        requires
            old(self).wf(),
            index < old(self)@.len(),
        ensures
            final(self).wf(),
            stop == old(self)@[index as int],
            final(self)@ == old(self)@.remove(index as int),
            final(self).inst() == old(self).inst(),
            final(self).spec_id() == old(self).spec_id(),
            final(self).spec_cost() == old(self).cost_without_stop(index as int),
            final(self).spec_used_capacity() == old(self).spec_used_capacity() - stop.capacity(),
            is_edit(*old(self), *final(self)),
    {
        let ghost prev = *self;
        let (new_cost, _) = self.speculative_remove_stop(index);
        proof {
            let custs = self.customers();
            lemma_customers_of_remove(self@, index as int);
            lemma_remove_no_duplicates(custs, index as int);
            lemma_total_demand_remove(self@, index as int);
            lemma_total_demand_nonnegative(self@.remove(index as int));
            assert(customers_in_range(custs.remove(index as int), self.inst().num_customers as int));
        }
        let stop = self.stops.remove(index);
        self.used_cap = self.used_cap - stop.capacity();
        self.cost = new_cost;
        proof {
            assert(is_removal(prev, *self, index as int));
        }
        stop
    }

    /// The position at which `stop` costs least, the last of them where
    /// several cost the same, with the cost the route would have there and
    /// whether the vehicle could carry the stop as well.
    pub fn speculative_add_best(&self, stop: &Stop) -> (res: ((u64, bool), usize))
        requires
            self.wf(),
            1 <= stop.cust_no() < self.inst().num_customers,
        ensures
            res.1 <= self@.len(),
            (res.0).0 == self.cost_with_stop(stop.cust_no() as int, res.1 as int),
            (res.0).1 == (self.spec_used_capacity() + stop.capacity()
                <= self.inst().vehicle_capacity),
            forall|i: int|
                0 <= i <= self@.len() ==> (res.0).0 <= #[trigger] self.cost_with_stop(
                    stop.cust_no() as int,
                    i,
                ),
            forall|i: int|
                res.1 < i <= self@.len() ==> (res.0).0 < #[trigger] self.cost_with_stop(
                    stop.cust_no() as int,
                    i,
                ),
            res.1 == best_position(
                self.inst().distance_matrix@,
                self.customers(),
                stop.cust_no() as int,
            ),
    {
        let mut best_index: usize = 0;
        let mut best_val = self.speculative_add_stop(stop, 0);
        let mut i: usize = 1;
        while i <= self.stops.len()
            invariant
                self.wf(),
                1 <= stop.cust_no() < self.inst().num_customers,
                1 <= i <= self@.len() + 1,
                best_index < i,
                best_val.0 == self.cost_with_stop(stop.cust_no() as int, best_index as int),
                best_val.1 == (self.spec_used_capacity() + stop.capacity()
                    <= self.inst().vehicle_capacity),
                forall|j: int|
                    0 <= j < i ==> best_val.0 <= #[trigger] self.cost_with_stop(
                        stop.cust_no() as int,
                        j,
                    ),
                forall|j: int|
                    best_index < j < i ==> best_val.0 < #[trigger] self.cost_with_stop(
                        stop.cust_no() as int,
                        j,
                    ),
            decreases self@.len() + 1 - i,
        {
            proof {
                self.lemma_bounds();
            }
            let val = self.speculative_add_stop(stop, i);
            if val.0 <= best_val.0 {
                best_val = val;
                best_index = i;
            }
            i = i + 1;
        }
        proof {
            let d = self.inst().distance_matrix@;
            let custs = self.customers();
            let c = stop.cust_no() as int;
            assert forall|j: int| 0 <= j <= custs.len() implies route_cost(
                d,
                #[trigger] custs.insert(j, c),
            ) == self.cost_with_stop(c, j) by {
                lemma_route_cost_insert(d, custs, j, c);
            }
            lemma_best_position(d, custs, c, best_index as int);
        }
        (best_val, best_index)
    }

    /// The cost of the round trip, computed from the distance matrix.
    pub fn recalculate_cost(&self) -> (c: u64)
        requires
            self.inst().wf(),
            customers_in_range(self.customers(), self.inst().num_customers as int),
            self@.len() <= 0xffff,
        ensures
            c == route_cost(self.inst().distance_matrix@, self.customers()),
    {
        let ghost d = self.inst().distance_matrix@;
        let ghost custs = self.customers();
        let mut cost: u64 = 0;
        let mut prev: usize = 0;
        let mut i: usize = 0;
        proof {
            assert(seq![0int] + custs.take(0) =~= seq![0int]);
        }
        while i < self.stops.len()
            invariant
                self.inst().wf(),
                d == self.inst().distance_matrix@,
                custs == self.customers(),
                customers_in_range(custs, self.inst().num_customers as int),
                self@.len() <= 0xffff,
                i <= self@.len(),
                prev == (seq![0int] + custs.take(i as int)).last(),
                prev < self.inst().num_customers,
                cost == walk_cost(d, seq![0int] + custs.take(i as int)),
                cost <= i * 0xffff_ffff,
            decreases self@.len() - i,
        {
            assert(custs[i as int] == self@[i as int].cust_no());
            let c = self.stops[i].cust_no() as usize;
            proof {
                let w = seq![0int] + custs.take(i + 1);
                assert(w.drop_last() =~= seq![0int] + custs.take(i as int));
                assert(w.last() == c);
                assert(w[w.len() - 2] == prev);
                assert(i * 0xffff_ffff + 0xffff_ffff == (i + 1) * 0xffff_ffff)
                    by (nonlinear_arith);
                assert((i + 1) * 0xffff_ffff <= 0x1_0000 * 0xffff_ffff) by (nonlinear_arith)
                    requires
                        i + 1 <= 0x1_0000,
                ;
            }
            cost = cost + self.instance.distance_matrix.dist(prev, c) as u64;
            prev = c;
            i = i + 1;
        }
        if self.stops.len() > 0 {
            proof {
                assert(custs.take(i as int) =~= custs);
                let w = tour(custs);
                assert(w.drop_last() =~= seq![0int] + custs);
                assert(w[w.len() - 2] == prev);
                assert(i * 0xffff_ffff <= 0xffff * 0xffff_ffff) by (nonlinear_arith)
                    requires
                        i <= 0xffff,
                ;
            }
            cost = cost + self.instance.distance_matrix.dist(prev, 0) as u64;
        }
        cost
    }

    /// The load of the vehicle, computed from the stops.
    pub fn recalculate_capacity(&self) -> (c: usize)
        requires
            total_demand(self@) <= usize::MAX,
        ensures
            c == total_demand(self@),
    {
        let mut load: usize = 0;
        let mut i: usize = 0;
        while i < self.stops.len()
            invariant
                i <= self@.len(),
                load == total_demand(self@.take(i as int)),
                total_demand(self@) <= usize::MAX,
            decreases self@.len() - i,
        {
            proof {
                lemma_total_demand_prefix(self@, i + 1);
                assert(self@.take(i + 1).drop_last() =~= self@.take(i as int));
            }
            load = load + self.stops[i].capacity();
            i = i + 1;
        }
        assert(self@.take(i as int) =~= self@);
        load
    }

    /// Keeps the stops for which `f` says `true` and drops the others.
    pub fn retain_stops(&mut self, f: impl Fn(&Stop) -> bool)
        requires
            old(self).wf(),
            forall|i: int|
                0 <= i < old(self)@.len() ==> call_requires(f, (&#[trigger] old(self)@[i],)),
        ensures
            final(self).wf(),
            final(self).inst() == old(self).inst(),
            final(self).spec_id() == old(self).spec_id(),
            exists|kept: Seq<bool>|
                kept.len() == old(self)@.len() && (forall|i: int|
                    0 <= i < kept.len() ==> call_ensures(f, (&old(self)@[i],), #[trigger] kept[i]))
                    && final(self)@ == #[trigger] kept_stops(old(self)@, kept),
            forall|c: int| final(self).serves(c) ==> old(self).serves(c),
            final(self).spec_used_capacity() <= old(self).spec_used_capacity(),
    {
        let ghost before = *self;
        let ghost n = self.inst().num_customers as int;
        let mut kept_vec: Vec<Stop> = Vec::new();
        let ghost mut kept: Seq<bool> = Seq::empty();
        let mut load: usize = 0;
        let mut i: usize = 0;
        proof {
            self.lemma_bounds();
            assert(before@.take(0) =~= Seq::<Stop>::empty());
        }
        while i < self.stops.len()
            invariant
                *self == before,
                before.wf(),
                n == before.inst().num_customers,
                i <= before@.len(),
                forall|j: int|
                    0 <= j < before@.len() ==> call_requires(f, (&#[trigger] before@[j],)),
                kept.len() == i,
                forall|j: int|
                    0 <= j < i ==> call_ensures(f, (&before@[j],), #[trigger] kept[j]),
                kept_vec@ == kept_stops(before@.take(i as int), kept),
                kept_vec@.len() <= i,
                customers_in_range(customers_of(kept_vec@), n),
                customers_of(kept_vec@).no_duplicates(),
                forall|c: int|
                    customers_of(kept_vec@).contains(c) ==> customers_of(
                        before@.take(i as int),
                    ).contains(c),
                load == total_demand(kept_vec@),
                load <= total_demand(before@.take(i as int)),
            decreases before@.len() - i,
        {
            let stop = self.stops[i];
            let keep = f(&stop);
            proof {
                let m = stop.cust_no() as int;
                let prefix = before@.take(i as int);
                let next = before@.take(i + 1);
                assert(next.drop_last() =~= prefix);
                assert(kept.push(keep).drop_last() =~= kept);
                assert(before.customers()[i as int] == m);
                assert forall|c: int| customers_of(prefix).contains(c) implies customers_of(
                    next,
                ).contains(c) by {
                    let j = choose|j: int|
                        0 <= j < customers_of(prefix).len() && customers_of(prefix)[j] == c;
                    assert(customers_of(next)[j] == c);
                }
                if customers_of(prefix).contains(m) {
                    let j = choose|j: int|
                        0 <= j < customers_of(prefix).len() && customers_of(prefix)[j] == m;
                    assert(before.customers()[j] == m);
                }
                if keep {
                    lemma_customers_of_insert(kept_vec@, kept_vec@.len() as int, stop);
                    assert(kept_vec@.insert(kept_vec@.len() as int, stop) =~= kept_vec@.push(stop));
                    lemma_insert_no_duplicates(
                        customers_of(kept_vec@),
                        kept_vec@.len() as int,
                        m,
                    );
                    assert forall|c: int| customers_of(kept_vec@.push(stop)).contains(
                        c,
                    ) implies customers_of(next).contains(c) by {
                        lemma_insert_contains(
                            customers_of(kept_vec@),
                            kept_vec@.len() as int,
                            m,
                            c,
                        );
                        if c == m {
                            assert(customers_of(next)[i as int] == m);
                        }
                    }
                    assert(kept_vec@.push(stop).drop_last() =~= kept_vec@);
                }
                lemma_total_demand_prefix(before@, i + 1);
            }
            if keep {
                kept_vec.push(stop);
                load = load + stop.capacity();
            }
            proof {
                kept = kept.push(keep);
            }
            i = i + 1;
        }
        proof {
            assert(before@.take(i as int) =~= before@);
        }
        self.stops = kept_vec;
        self.used_cap = load;
        self.cost = self.recalculate_cost();
        proof {
            assert forall|c: int| self.serves(c) implies before.serves(c) by {}
        }
    }

    /// `self` is `before` without the stops of the customers `removed`.
    pub open spec fn is_pruned(&self, before: &Route, removed: Seq<u16>) -> bool {
        &&& self.wf()
        &&& self.inst() == before.inst()
        &&& self.spec_id() == before.spec_id()
        &&& self.spec_used_capacity() <= before.spec_used_capacity()
        &&& forall|c: int| #[trigger] self.serves(c) <==> before.serves(c) && !names(removed, c)
        &&& forall|j: int| 0 <= j < self@.len() ==> before@.contains(#[trigger] self@[j])
        &&& self@ == without(before@, removed)
    }

    /// Drops the stops of the customers `removed`.
    pub fn retain_except(&mut self, removed: &Vec<u16>)
        requires
            old(self).wf(),
        ensures
            final(self).is_pruned(old(self), removed@),
    {
        let ghost before = *self;
        let keep = |s: &Stop| -> (b: bool)
            ensures
                b == !names(removed@, s.cust_no() as int),
            { !is_named(removed, s.cust_no()) };
        self.retain_stops(keep);
        proof {
            let kept = choose|kept: Seq<bool>|
                kept.len() == before@.len() && (forall|i: int|
                    0 <= i < kept.len() ==> call_ensures(keep, (&before@[i],), #[trigger] kept[i]))
                    && self@ == #[trigger] kept_stops(before@, kept);
            lemma_kept_stops(before@, kept);
            assert forall|i: int| 0 <= i < kept.len() implies #[trigger] kept[i] == !names(
                removed@,
                before@[i].cust_no() as int,
            ) by {
                assert(call_ensures(keep, (&before@[i],), kept[i]));
            }
            lemma_kept_is_without(before@, kept, removed@);
            assert forall|j: int| 0 <= j < self@.len() implies before@.contains(
                #[trigger] self@[j],
            ) by {
                assert(self@.contains(self@[j]));
                let i = choose|i: int|
                    0 <= i < before@.len() && kept[i] && #[trigger] before@[i] == self@[j];
            }
            assert forall|c: int| #[trigger] self.serves(c) <==> before.serves(c) && !names(
                removed@,
                c,
            ) by {
                if self.serves(c) {
                    let j = choose|j: int|
                        0 <= j < self.customers().len() && self.customers()[j] == c;
                    assert(self@.contains(self@[j]));
                    let i = choose|i: int|
                        0 <= i < before@.len() && kept[i] && #[trigger] before@[i] == self@[j];
                    assert(before.customers()[i] == c);
                }
                if before.serves(c) && !names(removed@, c) {
                    let i = choose|i: int|
                        0 <= i < before.customers().len() && before.customers()[i] == c;
                    assert(kept[i] && before@[i] == before@[i]);
                    assert(self@.contains(before@[i]));
                    let j = choose|j: int| 0 <= j < self@.len() && self@[j] == before@[i];
                    assert(self.customers()[j] == c);
                }
            }
        }
    }

    /// States that the cached cost and load agree with the stops and that no
    /// customer is served twice; there is nothing to check at run time.
    pub fn assert_sanity(&self)
        requires
            self.wf(),
        ensures
            self.spec_cost() == route_cost(self.inst().distance_matrix@, self.customers()),
            self.spec_used_capacity() == total_demand(self@),
            self.customers().no_duplicates(),
    {
    }

    /// The customer served first.
    pub fn first(&self) -> (c: usize)
        requires
            self@.len() > 0,
        ensures
            c == self@.first().cust_no(),
    {
        self.stops[0].cust_no() as usize
    }

    /// The customer served last.
    pub fn last(&self) -> (c: usize)
        requires
            self@.len() > 0,
        ensures
            c == self@.last().cust_no(),
    {
        self.stops[self.stops.len() - 1].cust_no() as usize
    }

    /// The position at which customer `cust_no` is served, if it is.
    pub fn index_of_stop(&self, cust_no: u16) -> (r: Option<usize>)
        ensures
            match r {
                Some(i) => i < self@.len() && self@[i as int].cust_no() == cust_no && forall|
                    j: int,
                | 0 <= j < i ==> (#[trigger] self@[j]).cust_no() != cust_no,
                None => !self.serves(cust_no as int),
            },
    {
        let mut i: usize = 0;
        while i < self.stops.len()
            invariant
                i <= self@.len(),
                forall|j: int| 0 <= j < i ==> (#[trigger] self@[j]).cust_no() != cust_no,
            decreases self@.len() - i,
        {
            if self.stops[i].cust_no() == cust_no {
                return Some(i);
            }
            i = i + 1;
        }
        proof {
            if self.serves(cust_no as int) {
                let j = choose|j: int|
                    0 <= j < self.customers().len() && self.customers()[j] == cust_no as int;
                assert(self@[j].cust_no() != cust_no);
            }
        }
        None
    }

    /// Whether customer `cust_no` is served.
    pub fn contains_stop(&self, cust_no: u16) -> (b: bool)
        ensures
            b == self.serves(cust_no as int),
    {
        match self.index_of_stop(cust_no) {
            Some(i) => {
                assert(self.customers()[i as int] == cust_no as int);
                true
            },
            None => false,
        }
    }

    /// The stops, in the order of the visits.
    pub fn stops(&self) -> (s: &Vec<Stop>)
        ensures
            s@ == self@,
    {
        &self.stops
    }

    /// The cost of the round trip.
    #[verifier::when_used_as_spec(spec_cost)]
    pub fn cost(&self) -> (c: u64)
        ensures
            c == self.spec_cost(),
    {
        self.cost
    }

    /// The number of the route.
    #[verifier::when_used_as_spec(spec_id)]
    pub fn id(&self) -> (id: usize)
        ensures
            id == self.spec_id(),
    {
        self.id
    }

    /// The demand that the vehicle carries.
    #[verifier::when_used_as_spec(spec_used_capacity)]
    pub fn used_capacity(&self) -> (c: usize)
        ensures
            c == self.spec_used_capacity(),
    {
        self.used_cap
    }
}

/// The customer numbers of `stops`, in order.
pub open spec fn numbers_of(stops: Seq<Stop>) -> Seq<u16> {
    Seq::new(stops.len(), |i: int| stops[i].cust_no())
}

/// What is left of a route depends on which of its customers are named
/// only.
pub proof fn lemma_without_same_names(stops: Seq<Stop>, a: Seq<u16>, b: Seq<u16>)
    requires
        forall|i: int|
            0 <= i < stops.len() ==> names(a, (#[trigger] stops[i]).cust_no() as int) == names(
                b,
                stops[i].cust_no() as int,
            ),
    ensures
        without(stops, a) == without(stops, b),
    decreases stops.len(),
{
    if stops.len() > 0 {
        assert forall|i: int| 0 <= i < stops.drop_last().len() implies names(
            a,
            (#[trigger] stops.drop_last()[i]).cust_no() as int,
        ) == names(b, stops.drop_last()[i].cust_no() as int) by {
            assert(stops.drop_last()[i] == stops[i]);
        }
        lemma_without_same_names(stops.drop_last(), a, b);
        assert(stops.last() == stops[stops.len() - 1]);
    }
}

/// The stops taken out of a route and the stops left on it demand, between
/// them, what the route demanded.
pub proof fn lemma_without_demand(stops: Seq<Stop>, gone: Seq<Stop>)
    requires
        customers_of(stops).no_duplicates(),
        customers_of(gone).no_duplicates(),
        forall|i: int| 0 <= i < gone.len() ==> stops.contains(#[trigger] gone[i]),
    ensures
        total_demand(without(stops, numbers_of(gone))) + total_demand(gone) == total_demand(stops),
    decreases stops.len(),
{
    if stops.len() == 0 {
        if gone.len() > 0 {
            assert(stops.contains(gone[0]));
        }
    } else {
        let init = stops.drop_last();
        let last = stops.last();
        let end = stops.len() - 1;
        assert(customers_of(init).no_duplicates()) by {
            assert forall|i: int, j: int|
                0 <= i < init.len() && 0 <= j < init.len() && i != j implies customers_of(init)[i]
                != customers_of(init)[j] by {
                assert(customers_of(stops)[i] != customers_of(stops)[j]);
            }
        }
        if names(numbers_of(gone), last.cust_no() as int) {
            let k = choose|k: int|
                0 <= k < numbers_of(gone).len() && #[trigger] numbers_of(gone)[k]
                    == last.cust_no() as int;
            assert(stops.contains(gone[k]));
            let at = choose|at: int| 0 <= at < stops.len() && stops[at] == gone[k];
            if at != end {
                assert(customers_of(stops)[at] != customers_of(stops)[end]);
            }
            assert(gone[k] == last);
            let rest = gone.remove(k);
            assert(customers_of(rest).no_duplicates()) by {
                lemma_customers_of_remove(gone, k);
                lemma_remove_no_duplicates(customers_of(gone), k);
            }
            assert forall|i: int| 0 <= i < rest.len() implies init.contains(
                #[trigger] rest[i],
            ) by {
                let from = if i < k {
                    i
                } else {
                    i + 1
                };
                assert(rest[i] == gone[from]);
                assert(customers_of(gone)[from] != customers_of(gone)[k]);
                assert(stops.contains(gone[from]));
                let p = choose|p: int| 0 <= p < stops.len() && stops[p] == gone[from];
                assert(p != end);
                assert(init[p] == gone[from]);
            }
            assert forall|i: int| 0 <= i < init.len() implies names(
                numbers_of(gone),
                (#[trigger] init[i]).cust_no() as int,
            ) == names(numbers_of(rest), init[i].cust_no() as int) by {
                let c = init[i].cust_no() as int;
                assert(customers_of(stops)[i] != customers_of(stops)[end]);
                if names(numbers_of(gone), c) {
                    let g = choose|g: int|
                        0 <= g < numbers_of(gone).len() && #[trigger] numbers_of(gone)[g] == c;
                    assert(g != k);
                    let to = if g < k {
                        g
                    } else {
                        g - 1
                    };
                    assert(numbers_of(rest)[to] == c);
                }
                if names(numbers_of(rest), c) {
                    let g = choose|g: int|
                        0 <= g < numbers_of(rest).len() && #[trigger] numbers_of(rest)[g] == c;
                    let from = if g < k {
                        g
                    } else {
                        g + 1
                    };
                    assert(numbers_of(gone)[from] == c);
                }
            }
            lemma_without_same_names(init, numbers_of(gone), numbers_of(rest));
            lemma_without_demand(init, rest);
            lemma_total_demand_remove(gone, k);
        } else {
            assert forall|i: int| 0 <= i < gone.len() implies init.contains(
                #[trigger] gone[i],
            ) by {
                assert(stops.contains(gone[i]));
                let p = choose|p: int| 0 <= p < stops.len() && stops[p] == gone[i];
                if p == end {
                    assert(numbers_of(gone)[i] == last.cust_no() as int);
                }
                assert(init[p] == gone[i]);
            }
            lemma_without_demand(init, gone);
            assert(without(stops, numbers_of(gone)).drop_last() =~= without(
                init,
                numbers_of(gone),
            ));
        }
    }
}

/// Whether `next` is the route `prev` with `stop` committed at position
/// `index`: its cost changed by the legs through the stop, its load by the
/// demand of the stop.
pub open spec fn is_insertion(prev: Route, next: Route, stop: Stop, index: int) -> bool {
    &&& 0 <= index <= prev@.len()
    &&& 1 <= stop.cust_no() < prev.inst().num_customers
    &&& !prev.serves(stop.cust_no() as int)
    &&& next@ == prev@.insert(index, stop)
    &&& next.inst() == prev.inst()
    &&& next.spec_cost() == prev.cost_with_stop(stop.cust_no() as int, index)
    &&& next.spec_used_capacity() == prev.spec_used_capacity() + stop.capacity()
}

/// Whether `next` is the route `prev` with the stop at position `index`
/// taken out: its cost changed by the legs through the stop, its load by
/// the demand of the stop.
pub open spec fn is_removal(prev: Route, next: Route, index: int) -> bool {
    &&& 0 <= index < prev@.len()
    &&& next@ == prev@.remove(index)
    &&& next.inst() == prev.inst()
    &&& next.spec_cost() == prev.cost_without_stop(index)
    &&& next.spec_used_capacity() == prev.spec_used_capacity() - prev@[index].capacity()
}

/// Whether `next` comes of `prev` by committing one stop or by taking one
/// out.
pub open spec fn is_edit(prev: Route, next: Route) -> bool {
    ||| exists|stop: Stop, index: int| #[trigger] is_insertion(prev, next, stop, index)
    ||| exists|index: int| #[trigger] is_removal(prev, next, index)
}

/// One stop more or less keeps a route well-formed.
pub proof fn lemma_edit_keeps_route(prev: Route, next: Route)
    requires
        prev.wf(),
        is_edit(prev, next),
    ensures
        next.wf(),
{
    let d = prev.inst().distance_matrix@;
    let custs = prev.customers();
    if exists|stop: Stop, index: int| #[trigger] is_insertion(prev, next, stop, index) {
        let (stop, index) = choose|stop: Stop, index: int| #[trigger]
            is_insertion(prev, next, stop, index);
        let c = stop.cust_no() as int;
        lemma_customers_of_insert(prev@, index, stop);
        lemma_insert_no_duplicates(custs, index, c);
        lemma_total_demand_insert(prev@, index, stop);
        lemma_route_cost_insert(d, custs, index, c);
        assert(customers_in_range(custs.insert(index, c), prev.inst().num_customers as int));
    } else {
        let index = choose|index: int| #[trigger] is_removal(prev, next, index);
        lemma_customers_of_remove(prev@, index);
        lemma_remove_no_duplicates(custs, index);
        lemma_total_demand_remove(prev@, index);
        lemma_route_cost_remove(d, custs, index);
        assert(customers_in_range(custs.remove(index), prev.inst().num_customers as int));
    }
}

/// However many stops are committed to a route and taken out of it, one
/// after the other, its cost stays the length of its tour, its load the
/// demand of its stops, and no customer is on it twice.
pub proof fn lemma_edits_keep_route(history: Seq<Route>)
    requires
        history.len() > 0,
        history[0].wf(),
        forall|k: int| 0 <= k < history.len() - 1 ==> is_edit(#[trigger] history[k], history[k + 1]),
    ensures
        forall|k: int|
            0 <= k < history.len() ==> {
                let route = #[trigger] history[k];
                &&& route.spec_cost() == route_cost(
                    route.inst().distance_matrix@,
                    customers_of(route@),
                )
                &&& route.spec_used_capacity() == total_demand(route@)
                &&& customers_of(route@).no_duplicates()
            },
{
    assert forall|k: int| 0 <= k < history.len() implies {
        let route = #[trigger] history[k];
        &&& route.spec_cost() == route_cost(route.inst().distance_matrix@, customers_of(route@))
        &&& route.spec_used_capacity() == total_demand(route@)
        &&& customers_of(route@).no_duplicates()
    } by {
        lemma_edits_keep_wf(history, k);
    }
}

/// Each route of a run of edits that starts from a well-formed route is
/// well-formed.
pub proof fn lemma_edits_keep_wf(history: Seq<Route>, k: int)
    requires
        0 <= k < history.len(),
        history[0].wf(),
        forall|j: int| 0 <= j < history.len() - 1 ==> is_edit(#[trigger] history[j], history[j + 1]),
    ensures
        history[k].wf(),
    decreases k,
{
    if k > 0 {
        lemma_edits_keep_wf(history, k - 1);
        assert(is_edit(history[k - 1], history[k - 1 + 1]));
        lemma_edit_keeps_route(history[k - 1], history[k]);
    }
}

} // verus!
