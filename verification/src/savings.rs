use vstd::prelude::*;
use std::sync::Arc;
use crate::route::{
    customers_of, lemma_total_demand_prefix, total_demand, Route,
};
use crate::solution::VRPSolution;
use crate::stop::Stop;
use crate::vrp_instance::{share, VRPInstance};
use crate::ordering::{
    is_key_order, lemma_lex_increasing_unique, lex_increasing, lex_less, order_by_key, pair_le,
};

verus! {

/// The first route at or after `from` that serves customer `c`, or the
/// number of routes if there is none.
pub open spec fn route_with(plan: Seq<Seq<Stop>>, c: int, from: int) -> int
    decreases plan.len() - from,
{
    if from < 0 || from >= plan.len() {
        plan.len() as int
    } else if customers_of(plan[from]).contains(c) {
        from
    } else {
        route_with(plan, c, from + 1)
    }
}

/// The search for the first route that serves `c` does not pass a route
/// that serves it.
pub proof fn lemma_route_with_finds(plan: Seq<Seq<Stop>>, c: int, from: int, q: int)
    requires
        0 <= from <= q < plan.len(),
        customers_of(plan[q]).contains(c),
    ensures
        route_with(plan, c, from) <= q,
    decreases q - from,
{
    if from < q && !customers_of(plan[from]).contains(c) {
        lemma_route_with_finds(plan, c, from + 1, q);
    }
}

/// The routes with `head` and `tail` taken out and, at the end, one route
/// that serves the stops of `head` and then those of `tail`.
pub open spec fn join(plan: Seq<Seq<Stop>>, head: int, tail: int) -> Seq<Seq<Stop>> {
    let hi = if head > tail {
        head
    } else {
        tail
    };
    let lo = if head > tail {
        tail
    } else {
        head
    };
    plan.remove(hi).remove(lo).push(plan[head] + plan[tail])
}

/// The place that entry `q` of a sequence had before the entries at `lo` and
/// `hi` were taken out.
pub open spec fn place_before(q: int, lo: int, hi: int) -> int {
    if q < lo {
        q
    } else if q + 1 < hi {
        q + 1
    } else {
        q + 2
    }
}

/// The place that entry `q` of a sequence has once the entries at `lo` and
/// `hi` are taken out.
pub open spec fn place_after(q: int, lo: int, hi: int) -> int {
    if q < lo {
        q
    } else if q < hi {
        q - 1
    } else {
        q - 2
    }
}

/// The index of the first route that serves customer `cust_no`, or the
/// number of routes if none does.
pub fn route_index_of(work: &VRPSolution, cust_no: u16) -> (r: usize)
    ensures
        r == route_with(work.plan(), cust_no as int, 0),
        r <= work.routes@.len(),
        r < work.routes@.len() ==> work.routes@[r as int].serves(cust_no as int),
{
    let mut r: usize = 0;
    while r < work.routes.len() && !work.routes[r].contains_stop(cust_no)
        invariant
            r <= work.routes@.len(),
            route_with(work.plan(), cust_no as int, 0) == route_with(
                work.plan(),
                cust_no as int,
                r as int,
            ),
        decreases work.routes@.len() - r,
    {
        assert(work.plan()[r as int] == work.routes@[r as int]@);
        r = r + 1;
    }
    proof {
        if r < work.routes@.len() {
            assert(work.plan()[r as int] == work.routes@[r as int]@);
        }
    }
    r
}

/// What a route serves once another is appended: what either served.
pub proof fn lemma_customers_of_concat(a: Seq<Stop>, b: Seq<Stop>, c: int)
    ensures
        customers_of(a + b).contains(c) <==> (customers_of(a).contains(c) || customers_of(
            b,
        ).contains(c)),
{
    let ab = customers_of(a + b);
    if ab.contains(c) {
        let i = choose|i: int| 0 <= i < ab.len() && ab[i] == c;
        if i < a.len() {
            assert(customers_of(a)[i] == c);
        } else {
            assert(customers_of(b)[i - a.len()] == c);
        }
    }
    if customers_of(a).contains(c) {
        let i = choose|i: int| 0 <= i < customers_of(a).len() && customers_of(a)[i] == c;
        assert(ab[i] == c);
    }
    if customers_of(b).contains(c) {
        let i = choose|i: int| 0 <= i < customers_of(b).len() && customers_of(b)[i] == c;
        assert(ab[i + a.len()] == c);
    }
}

/// Replaces the routes `head` and `tail` by one route, put at the end, that
/// serves the stops of `head` and then those of `tail`.
pub fn merge_routes(
    work: &mut VRPSolution,
    head: usize,
    tail: usize,
    vrp_instance: &Arc<VRPInstance>,
)
    requires
        vrp_instance.wf(),
        old(work).wf(vrp_instance),
        old(work).routes_disjoint(),
        head < old(work).routes@.len(),
        tail < old(work).routes@.len(),
        head != tail,
        old(work).routes@[head as int].spec_used_capacity() + old(
            work,
        ).routes@[tail as int].spec_used_capacity() <= vrp_instance.vehicle_capacity,
    ensures
        final(work).wf(vrp_instance),
        final(work).routes_disjoint(),
        final(work).plan() == join(old(work).plan(), head as int, tail as int),
        final(work).routes@.len() == old(work).routes@.len() - 1,
        forall|c: int| final(work).serves(c) <==> old(work).serves(c),
        old(work).within_capacity(vrp_instance) ==> final(work).within_capacity(vrp_instance),
        old(work).true_demands(vrp_instance) ==> final(work).true_demands(vrp_instance),
{
    let ghost before = *work;
    let hi = if head > tail {
        head
    } else {
        tail
    };
    let lo = if head > tail {
        tail
    } else {
        head
    };
    let route_hi = work.routes.remove(hi);
    let route_lo = work.routes.remove(lo);
    let (mut front, back) = if head > tail {
        (route_hi, route_lo)
    } else {
        (route_lo, route_hi)
    };
    assert(front == before.routes@[head as int]);
    assert(back == before.routes@[tail as int]);
    let ghost rest = work.routes@;
    assert forall|q: int| 0 <= q < rest.len() implies #[trigger] rest[q] == before.routes@[place_before(
        q,
        lo as int,
        hi as int,
    )] by {}
    let mut k: usize = 0;
    proof {
        assert(back@.take(0) =~= Seq::<Stop>::empty());
        assert(front@ + back@.take(0) =~= front@);
        back.lemma_load();
        front.lemma_load();
    }
    while k < back.stops().len()
        invariant
            vrp_instance.wf(),
            head < before.routes@.len(),
            tail < before.routes@.len(),
            k <= back@.len(),
            back.wf(),
            back.inst() == **vrp_instance,
            back == before.routes@[tail as int],
            front.wf(),
            front.inst() == **vrp_instance,
            front@ == before.routes@[head as int]@ + back@.take(k as int),
            front.spec_used_capacity() == before.routes@[head as int].spec_used_capacity()
                + total_demand(back@.take(k as int)),
            before.routes@[head as int].spec_used_capacity() + back.spec_used_capacity()
                <= vrp_instance.vehicle_capacity,
            before.routes@[head as int].wf(),
            forall|c: int|
                !(before.routes@[head as int].serves(c) && before.routes@[tail as int].serves(c)),
        decreases back@.len() - k,
    {
        let stop = back.stops()[k];
        let len = front.stops().len();
        proof {
            let m = stop.cust_no() as int;
            assert(back.customers()[k as int] == m);
            assert(back.serves(m));
            lemma_customers_of_concat(before.routes@[head as int]@, back@.take(k as int), m);
            if customers_of(back@.take(k as int)).contains(m) {
                let i = choose|i: int|
                    0 <= i < k && customers_of(back@.take(k as int))[i] == m;
                assert(back.customers()[i] == m);
            }
            back.lemma_load();
            lemma_total_demand_prefix(back@, k + 1);
            assert(back@.take(k + 1).drop_last() =~= back@.take(k as int));
        }
        front.add_stop_to_index(stop, len);
        proof {
            assert(front@ =~= before.routes@[head as int]@ + back@.take(k + 1));
        }
        k = k + 1;
    }
    proof {
        assert(back@.take(k as int) =~= back@);
        back.lemma_load();
    }
    work.routes.push(front);
    proof {
        let h = before.routes@[head as int];
        let t = before.routes@[tail as int];
        let last = work.routes@.len() - 1;
        assert(work.routes@[last] == front);
        assert forall|q: int| 0 <= q < last implies #[trigger] work.routes@[q]
            == before.routes@[place_before(q, lo as int, hi as int)] by {
            assert(work.routes@[q] == rest[q]);
        }
        assert forall|c: int| front.serves(c) <==> (h.serves(c) || t.serves(c)) by {
            lemma_customers_of_concat(h@, t@, c);
        }
        assert(work.plan() =~= join(before.plan(), head as int, tail as int));
        assert forall|c: int| work.serves(c) <==> before.serves(c) by {
            if work.serves(c) {
                let q = choose|q: int|
                    0 <= q < work.routes@.len() && (#[trigger] work.routes@[q]).serves(c);
                if q == last {
                    if h.serves(c) {
                        assert(before.routes@[head as int].serves(c));
                    } else {
                        assert(before.routes@[tail as int].serves(c));
                    }
                } else {
                    assert(before.routes@[place_before(q, lo as int, hi as int)].serves(c));
                }
            }
            if before.serves(c) {
                let q = choose|q: int|
                    0 <= q < before.routes@.len() && (#[trigger] before.routes@[q]).serves(c);
                if q == head || q == tail {
                    assert(work.routes@[last].serves(c));
                } else {
                    let p = place_after(q, lo as int, hi as int);
                    assert(place_before(p, lo as int, hi as int) == q);
                    assert(work.routes@[p].serves(c));
                }
            }
        }
        assert forall|r1: int, r2: int, c: int|
            0 <= r1 < work.routes@.len() && 0 <= r2 < work.routes@.len() && r1 != r2 implies !(
        #[trigger] work.routes@[r1].serves(c) && #[trigger] work.routes@[r2].serves(c)) by {
            if work.routes@[r1].serves(c) && work.routes@[r2].serves(c) {
                let o1 = if r1 == last {
                    if h.serves(c) {
                        head as int
                    } else {
                        tail as int
                    }
                } else {
                    place_before(r1, lo as int, hi as int)
                };
                let o2 = if r2 == last {
                    if h.serves(c) {
                        head as int
                    } else {
                        tail as int
                    }
                } else {
                    place_before(r2, lo as int, hi as int)
                };
                assert(before.routes@[o1].serves(c));
                assert(before.routes@[o2].serves(c));
                assert(o1 != o2);
            }
        }
        assert forall|r: int| 0 <= r < work.routes@.len() implies (#[trigger] work.routes@[r]).wf()
            && work.routes@[r].inst() == **vrp_instance by {
            if r != last {
                assert(before.routes@[place_before(r, lo as int, hi as int)].wf());
            }
        }
        if before.within_capacity(vrp_instance) {
            assert forall|r: int| 0 <= r < work.routes@.len() implies (
            #[trigger] work.routes@[r]).spec_used_capacity() <= vrp_instance.vehicle_capacity by {
                if r != last {
                    assert(before.routes@[place_before(
                        r,
                        lo as int,
                        hi as int,
                    )].spec_used_capacity() <= vrp_instance.vehicle_capacity);
                }
            }
        }
        if before.true_demands(vrp_instance) {
            assert forall|r: int, i: int|
                0 <= r < work.routes@.len() && 0 <= i < work.routes@[r]@.len() implies (
            #[trigger] work.routes@[r]@[i]).capacity() == vrp_instance.spec_demand(
                work.routes@[r]@[i].cust_no() as int,
            ) by {
                if r == last {
                    if i < h@.len() {
                        assert(work.routes@[r]@[i] == before.routes@[head as int]@[i]);
                    } else {
                        assert(work.routes@[r]@[i] == before.routes@[tail as int]@[i - h@.len()]);
                    }
                } else {
                    let o = place_before(r, lo as int, hi as int);
                    assert(work.routes@[r]@[i] == before.routes@[o]@[i]);
                }
            }
        }
    }
}

/// Whether the route `stops` ends with customer `c`.
pub open spec fn ends_with(stops: Seq<Stop>, c: int) -> bool {
    stops.len() > 0 && stops.last().cust_no() == c
}

/// Whether the route `stops` begins with customer `c`.
pub open spec fn starts_with(stops: Seq<Stop>, c: int) -> bool {
    stops.len() > 0 && stops.first().cust_no() == c
}

/// One step of the savings heuristic on the pair `(i, j)`: while there are
/// more routes than vehicles, the route that ends with one of the two and
/// the route that begins with the other are joined there, if one vehicle can
/// carry both.
pub open spec fn savings_step_plan(
    plan: Seq<Seq<Stop>>,
    i: int,
    j: int,
    num_vehicles: int,
    capacity: int,
) -> Seq<Seq<Stop>> {
    let ri = route_with(plan, i, 0);
    let rj = route_with(plan, j, 0);
    if plan.len() <= num_vehicles {
        plan
    } else if ri >= plan.len() || rj >= plan.len() || ri == rj {
        plan
    } else if total_demand(plan[ri]) + total_demand(plan[rj]) > capacity {
        plan
    } else if ends_with(plan[ri], i) && starts_with(plan[rj], j) {
        join(plan, ri, rj)
    } else if ends_with(plan[rj], j) && starts_with(plan[ri], i) {
        join(plan, rj, ri)
    } else {
        plan
    }
}

/// The routes after the steps of the savings heuristic on `pairs`, in turn.
pub open spec fn savings_run(
    start: Seq<Seq<Stop>>,
    pairs: Seq<(usize, usize)>,
    num_vehicles: int,
    capacity: int,
) -> Seq<Seq<Stop>>
    decreases pairs.len(),
{
    if pairs.len() == 0 {
        start
    } else {
        savings_step_plan(
            savings_run(start, pairs.drop_last(), num_vehicles, capacity),
            pairs.last().0 as int,
            pairs.last().1 as int,
            num_vehicles,
            capacity,
        )
    }
}

/// Once there are no more routes than vehicles, further pairs change
/// nothing.
pub proof fn lemma_savings_run_settled(
    start: Seq<Seq<Stop>>,
    pairs: Seq<(usize, usize)>,
    k: int,
    num_vehicles: int,
    capacity: int,
)
    requires
        0 <= k <= pairs.len(),
        savings_run(start, pairs.take(k), num_vehicles, capacity).len() <= num_vehicles,
    ensures
        savings_run(start, pairs, num_vehicles, capacity) == savings_run(
            start,
            pairs.take(k),
            num_vehicles,
            capacity,
        ),
    decreases pairs.len(),
{
    if k == pairs.len() {
        assert(pairs.take(k) =~= pairs);
    } else {
        assert(pairs.drop_last().take(k) =~= pairs.take(k));
        lemma_savings_run_settled(start, pairs.drop_last(), k, num_vehicles, capacity);
    }
}

/// One step of the savings heuristic on the pair `(i, j)`.
pub fn savings_step(work: &mut VRPSolution, i: usize, j: usize, vrp_instance: &Arc<VRPInstance>)
    requires
        vrp_instance.wf(),
        old(work).wf(vrp_instance),
        old(work).routes_disjoint(),
        old(work).within_capacity(vrp_instance),
        1 <= i < vrp_instance.num_customers,
        1 <= j < vrp_instance.num_customers,
    ensures
        final(work).plan() == savings_step_plan(
            old(work).plan(),
            i as int,
            j as int,
            vrp_instance.num_vehicles as int,
            vrp_instance.vehicle_capacity as int,
        ),
        final(work).wf(vrp_instance),
        final(work).routes_disjoint(),
        final(work).within_capacity(vrp_instance),
        forall|c: int| final(work).serves(c) <==> old(work).serves(c),
        old(work).true_demands(vrp_instance) ==> final(work).true_demands(vrp_instance),
{
    let len = work.routes.len();
    if len <= vrp_instance.num_vehicles {
        return ;
    }
    let ri = route_index_of(work, i as u16);
    let rj = route_index_of(work, j as u16);
    if ri >= len || rj >= len || ri == rj {
        return ;
    }
    proof {
        assert(work.plan()[ri as int] == work.routes@[ri as int]@);
        assert(work.plan()[rj as int] == work.routes@[rj as int]@);
        work.routes@[ri as int].lemma_load();
        work.routes@[rj as int].lemma_load();
    }
    let cap_i = work.routes[ri].used_capacity();
    let cap_j = work.routes[rj].used_capacity();
    if cap_j > vrp_instance.vehicle_capacity - cap_i {
        return ;
    }
    let i_last = work.routes[ri].stops().len() > 0 && work.routes[ri].last() == i;
    let j_first = work.routes[rj].stops().len() > 0 && work.routes[rj].first() == j;
    if i_last && j_first {
        merge_routes(work, ri, rj, vrp_instance);
    } else {
        let j_last = work.routes[rj].stops().len() > 0 && work.routes[rj].last() == j;
        let i_first = work.routes[ri].stops().len() > 0 && work.routes[ri].first() == i;
        if j_last && i_first {
            merge_routes(work, rj, ri, vrp_instance);
        }
    }
}

/// What joining the route that ends with `i` to the route that begins with
/// `j` saves over serving them apart.
pub open spec fn saving(inst: &VRPInstance, i: int, j: int) -> int {
    inst.spec_dist(i, 0) + inst.spec_dist(0, j) - inst.spec_dist(i, j)
}

/// The number of pairs of customers `(a, b)` with `a < b` whose first
/// customer is below `i`, among `n` customers with the depot.
pub open spec fn pairs_before(i: int, n: int) -> int
    decreases i,
{
    if i <= 1 {
        0
    } else {
        pairs_before(i - 1, n) + (n - i)
    }
}

/// The place of the pair `(i, j)` when the pairs are listed by first
/// customer, then by second.
pub open spec fn pair_index(i: int, j: int, n: int) -> int {
    pairs_before(i, n) + (j - i - 1)
}

/// The noise for the pair at place `k`: the entry of `noise` there, and zero
/// past its end.
pub open spec fn noise_at(noise: Seq<i64>, k: int) -> int {
    if 0 <= k < noise.len() {
        noise[k] as int
    } else {
        0
    }
}

/// The saving of the pair `(i, j)` with its noise.
pub open spec fn perturbed_saving(inst: &VRPInstance, noise: Seq<i64>, i: int, j: int) -> int {
    saving(inst, i, j) + noise_at(noise, pair_index(i, j, inst.num_customers as int))
}

/// `p` comes before `q` by descending perturbed saving, equal savings in the
/// order in which the pairs are listed.
pub open spec fn saves_more(
    inst: &VRPInstance,
    noise: Seq<i64>,
    p: (usize, usize),
    q: (usize, usize),
) -> bool {
    let sp = perturbed_saving(inst, noise, p.0 as int, p.1 as int);
    let sq = perturbed_saving(inst, noise, q.0 as int, q.1 as int);
    let n = inst.num_customers as int;
    sp > sq || (sp == sq && pair_index(p.0 as int, p.1 as int, n) < pair_index(
        q.0 as int,
        q.1 as int,
        n,
    ))
}

/// `order` lists every pair of customers once, by descending perturbed
/// saving.
pub open spec fn is_savings_order(
    inst: &VRPInstance,
    noise: Seq<i64>,
    order: Seq<(usize, usize)>,
) -> bool {
    &&& forall|k: int|
        0 <= k < order.len() ==> 1 <= (#[trigger] order[k]).0 < order[k].1 < inst.num_customers
    &&& forall|i: usize, j: usize|
        1 <= i < j < inst.num_customers ==> #[trigger] order.contains((i, j))
    &&& forall|a: int, b: int|
        0 <= a < b < order.len() ==> saves_more(inst, noise, #[trigger] order[a], #[trigger] order[b])
}

/// A later first customer has no fewer pairs before it.
pub proof fn lemma_pair_index_grows(i: int, j: int, n: int)
    requires
        1 <= i <= j <= n,
    ensures
        pairs_before(i, n) <= pairs_before(j, n),
    decreases j - i,
{
    if i < j {
        lemma_pair_index_grows(i, j - 1, n);
    }
}

/// There is one order of the pairs by descending perturbed saving.
pub proof fn lemma_savings_order_unique(
    inst: &VRPInstance,
    noise: Seq<i64>,
    first: Seq<(usize, usize)>,
    second: Seq<(usize, usize)>,
)
    requires
        is_savings_order(inst, noise, first),
        is_savings_order(inst, noise, second),
    ensures
        first == second,
{
    let n = inst.num_customers as int;
    let a = Seq::new(
        first.len(),
        |k: int|
            (
                -perturbed_saving(inst, noise, first[k].0 as int, first[k].1 as int),
                pair_index(first[k].0 as int, first[k].1 as int, n),
            ),
    );
    let b = Seq::new(
        second.len(),
        |k: int|
            (
                -perturbed_saving(inst, noise, second[k].0 as int, second[k].1 as int),
                pair_index(second[k].0 as int, second[k].1 as int, n),
            ),
    );
    assert(lex_increasing(a)) by {
        assert forall|i: int, j: int| 0 <= i < j < a.len() implies lex_less(
            #[trigger] a[i],
            #[trigger] a[j],
        ) by {
            assert(saves_more(inst, noise, first[i], first[j]));
        }
    }
    assert(lex_increasing(b)) by {
        assert forall|i: int, j: int| 0 <= i < j < b.len() implies lex_less(
            #[trigger] b[i],
            #[trigger] b[j],
        ) by {
            assert(saves_more(inst, noise, second[i], second[j]));
        }
    }
    assert forall|x: (int, int)| a.contains(x) <==> b.contains(x) by {
        if a.contains(x) {
            let i = choose|i: int| 0 <= i < a.len() && a[i] == x;
            assert(1 <= first[i].0 < first[i].1 < inst.num_customers);
            assert(second.contains(first[i]));
            let j = choose|j: int| 0 <= j < second.len() && second[j] == first[i];
            assert(b[j] == x);
        }
        if b.contains(x) {
            let i = choose|i: int| 0 <= i < b.len() && b[i] == x;
            assert(1 <= second[i].0 < second[i].1 < inst.num_customers);
            assert(first.contains(second[i]));
            let j = choose|j: int| 0 <= j < first.len() && first[j] == second[i];
            assert(a[j] == x);
        }
    }
    lemma_lex_increasing_unique(a, b);
    assert forall|k: int| 0 <= k < first.len() implies first[k] == second[k] by {
        assert(a[k] == b[k]);
        assert(1 <= first[k].0 < first[k].1 < n);
        assert(1 <= second[k].0 < second[k].1 < n);
        let (i1, j1) = (first[k].0 as int, first[k].1 as int);
        let (i2, j2) = (second[k].0 as int, second[k].1 as int);
        if i1 < i2 {
            lemma_pair_index_grows(i1 + 1, i2, n);
            assert(pairs_before(i1 + 1, n) == pairs_before(i1, n) + (n - i1 - 1));
        } else if i2 < i1 {
            lemma_pair_index_grows(i2 + 1, i1, n);
            assert(pairs_before(i2 + 1, n) == pairs_before(i2, n) + (n - i2 - 1));
        }
    }
    assert(first =~= second);
}

/// One route for each customer, in the order of the customer numbers.
pub open spec fn is_singletons(inst: &VRPInstance, plan: Seq<Seq<Stop>>) -> bool {
    &&& plan.len() == inst.num_customers - 1
    &&& forall|k: int|
        0 <= k < plan.len() ==> (#[trigger] plan[k]).len() == 1 && plan[k][0].cust_no() == k + 1
            && plan[k][0].capacity() == inst.spec_demand(k + 1)
}

/// No customer demands more than a vehicle holds.
pub open spec fn all_demands_fit(inst: &VRPInstance) -> bool {
    forall|c: int| 1 <= c < inst.num_customers ==> #[trigger] inst.spec_demand(c) <= inst.vehicle_capacity
}

/// `plan` followed by empty routes, `num_vehicles` routes in all.
pub open spec fn padded(plan: Seq<Seq<Stop>>, num_vehicles: int) -> Seq<Seq<Stop>> {
    Seq::new(
        num_vehicles as nat,
        |r: int|
            if r < plan.len() {
                plan[r]
            } else {
                Seq::<Stop>::empty()
            },
    )
}

/// Whether the savings heuristic that ended with the routes `merged` ends as
/// `res` says: with those routes and empty ones for the vehicles left over,
/// or in failure where there are more routes than vehicles.
pub open spec fn savings_outcome(
    inst: &VRPInstance,
    merged: Seq<Seq<Stop>>,
    res: Result<VRPSolution, String>,
) -> bool {
    match res {
        Ok(sol) => merged.len() <= inst.num_vehicles && sol.plan() == padded(
            merged,
            inst.num_vehicles as int,
        ),
        Err(_) => merged.len() > inst.num_vehicles,
    }
}

/// Whether the savings heuristic with the noise `noise` ends as `res` says:
/// in failure where a customer demands more than a vehicle holds, else as
/// the run over the pairs by descending perturbed saving ends.
pub open spec fn savings_result(
    inst: &VRPInstance,
    noise: Seq<i64>,
    res: Result<VRPSolution, String>,
) -> bool {
    if all_demands_fit(inst) {
        exists|start: Seq<Seq<Stop>>, order: Seq<(usize, usize)>|
            #![trigger is_singletons(inst, start), is_savings_order(inst, noise, order)]
            is_singletons(inst, start) && is_savings_order(inst, noise, order) && savings_outcome(
                inst,
                savings_run(
                    start,
                    order,
                    inst.num_vehicles as int,
                    inst.vehicle_capacity as int,
                ),
                res,
            )
    } else {
        res is Err
    }
}

/// The pairs of customers by descending perturbed saving.
pub fn savings_order(vrp_instance: &Arc<VRPInstance>, noise: &Vec<i64>) -> (order: Vec<
    (usize, usize),
>)
    requires
        vrp_instance.wf(),
    ensures
        is_savings_order(vrp_instance, noise@, order@),
{
    let n = vrp_instance.num_customers;
    let mut pairs: Vec<(usize, usize)> = Vec::new();
    let mut keys: Vec<i128> = Vec::new();
    let mut i: usize = 1;
    while i < n
        invariant
            vrp_instance.wf(),
            n == vrp_instance.num_customers,
            1 <= i <= n,
            pairs@.len() == pairs_before(i as int, n as int),
            keys@.len() == pairs@.len(),
            forall|k: int|
                0 <= k < pairs@.len() ==> 1 <= (#[trigger] pairs@[k]).0 < pairs@[k].1 < n
                    && pair_index(pairs@[k].0 as int, pairs@[k].1 as int, n as int) == k
                    && keys@[k] == -perturbed_saving(
                    vrp_instance,
                    noise@,
                    pairs@[k].0 as int,
                    pairs@[k].1 as int,
                ),
            forall|a: usize, b: usize|
                1 <= a < b < n && a < i ==> 0 <= #[trigger] pair_index(a as int, b as int, n as int)
                    < pairs@.len() && pairs@[pair_index(a as int, b as int, n as int)] == (a, b),
        decreases n - i,
    {
        let mut j: usize = i + 1;
        while j < n
            invariant
                vrp_instance.wf(),
                n == vrp_instance.num_customers,
                1 <= i < j <= n,
                pairs@.len() == pairs_before(i as int, n as int) + (j - i - 1),
                keys@.len() == pairs@.len(),
                forall|k: int|
                    0 <= k < pairs@.len() ==> 1 <= (#[trigger] pairs@[k]).0 < pairs@[k].1 < n
                        && pair_index(pairs@[k].0 as int, pairs@[k].1 as int, n as int) == k
                        && keys@[k] == -perturbed_saving(
                        vrp_instance,
                        noise@,
                        pairs@[k].0 as int,
                        pairs@[k].1 as int,
                    ),
                forall|a: usize, b: usize|
                    1 <= a < b < n && (a < i || (a == i && b < j)) ==> 0 <= #[trigger] pair_index(
                        a as int,
                        b as int,
                        n as int,
                    ) < pairs@.len() && pairs@[pair_index(a as int, b as int, n as int)] == (
                        a,
                        b,
                    ),
            decreases n - j,
        {
            let k = pairs.len();
            let shift: i128 = if k < noise.len() {
                noise[k] as i128
            } else {
                0
            };
            let d_i0 = vrp_instance.distance_matrix.dist(i, 0) as i128;
            let d_0j = vrp_instance.distance_matrix.dist(0, j) as i128;
            let d_ij = vrp_instance.distance_matrix.dist(i, j) as i128;
            let s: i128 = d_i0 + d_0j - d_ij + shift;
            pairs.push((i, j));
            keys.push(-s);
            j = j + 1;
        }
        i = i + 1;
    }
    let by_key = order_by_key(&keys);
    let mut order: Vec<(usize, usize)> = Vec::new();
    let mut k: usize = 0;
    while k < by_key.len()
        invariant
            is_key_order(keys@, by_key@),
            keys@.len() == pairs@.len(),
            k <= by_key@.len(),
            order@.len() == k,
            forall|a: int| 0 <= a < k ==> #[trigger] order@[a] == pairs@[by_key@[a] as int],
        decreases by_key@.len() - k,
    {
        order.push(pairs[by_key[k]]);
        k = k + 1;
    }
    proof {
        assert forall|a: usize, b: usize| 1 <= a < b < n implies #[trigger] order@.contains(
            (a, b),
        ) by {
            let at = pair_index(a as int, b as int, n as int);
            assert(pairs@[at] == (a, b));
            assert(by_key@.contains(at as usize));
            let p = choose|p: int| 0 <= p < by_key@.len() && by_key@[p] == at as usize;
            assert(order@[p] == (a, b));
        }
        assert forall|a: int, b: int| 0 <= a < b < order@.len() implies saves_more(
            vrp_instance,
            noise@,
            #[trigger] order@[a],
            #[trigger] order@[b],
        ) by {
            let oa = by_key@[a] as int;
            let ob = by_key@[b] as int;
            assert(pair_le((keys@[oa], by_key@[a]), (keys@[ob], by_key@[b])));
            assert(by_key@[a] != by_key@[b]);
            assert(pair_index(pairs@[oa].0 as int, pairs@[oa].1 as int, n as int) == oa);
            assert(pair_index(pairs@[ob].0 as int, pairs@[ob].1 as int, n as int) == ob);
        }
        assert forall|k: int| 0 <= k < order@.len() implies 1 <= (#[trigger] order@[k]).0
            < order@[k].1 < vrp_instance.num_customers by {
            assert(1 <= pairs@[by_key@[k] as int].0);
        }
    }
    order
}

/// The savings heuristic of Clarke and Wright: starting from one route for
/// each customer, the pairs of customers are taken by descending saving,
/// each saving shifted by its entry of `noise` (zero past its end), and the
/// routes of a pair are joined where one ends and the other begins with it
/// and one vehicle can carry both, until there are no more routes than
/// vehicles.
///
/// Fails when a customer demands more than a vehicle holds, and when more
/// routes than vehicles are left.
pub fn clarke_wright(vrp: &Arc<VRPInstance>, noise: &Vec<i64>) -> (res: Result<
    VRPSolution,
    String,
>)
    requires
        vrp.wf(),
    ensures
        savings_result(vrp, noise@, res),
        res matches Ok(sol) ==> sol.is_valid(vrp),
{
    let n = vrp.num_customers;
    let mut work = VRPSolution { routes: Vec::new() };
    let mut c: usize = 1;
    proof {
        assert forall|x: int| !work.serves(x) by {}
    }
    while c < n
        invariant
            vrp.wf(),
            n == vrp.num_customers,
            1 <= c <= n,
            work.routes@.len() == c - 1,
            work.wf(vrp),
            work.routes_disjoint(),
            work.within_capacity(vrp),
            work.true_demands(vrp),
            forall|x: int| work.serves(x) <==> 1 <= x < c,
            forall|x: int| 1 <= x < c ==> #[trigger] vrp.spec_demand(x) <= vrp.vehicle_capacity,
            forall|k: int|
                0 <= k < work.routes@.len() ==> (#[trigger] work.routes@[k])@.len() == 1
                    && work.routes@[k]@[0].cust_no() == k + 1 && work.routes@[k]@[0].capacity()
                    == vrp.spec_demand(k + 1),
        decreases n - c,
    {
        let demand = vrp.demand_of_customer[c];
        if demand > vrp.vehicle_capacity {
            proof {
                assert(vrp.spec_demand(c as int) > vrp.vehicle_capacity);
            }
            return Err("didn't work".to_string());
        }
        let mut route = Route::new(share(vrp), c);
        let stop = Stop::new(c as u16, demand);
        proof {
            assert(route.customers() =~= Seq::<int>::empty());
        }
        route.add_stop_to_index(stop, 0);
        let ghost before = work;
        work.routes.push(route);
        proof {
            let last = work.routes@.len() - 1;
            assert(work.routes@[last]@ =~= seq![stop]);
            assert(work.routes@[last].customers() =~= seq![c as int]);
            assert forall|x: int| work.routes@[last].serves(x) <==> x == c by {
                if x == c {
                    assert(work.routes@[last].customers()[0] == x);
                }
            }
            assert forall|q: int| 0 <= q < last implies #[trigger] work.routes@[q]
                == before.routes@[q] by {}
            assert forall|x: int| work.serves(x) <==> 1 <= x < c + 1 by {
                if work.serves(x) {
                    let q = choose|q: int|
                        0 <= q < work.routes@.len() && (#[trigger] work.routes@[q]).serves(x);
                    if q != last {
                        assert(before.routes@[q].serves(x));
                        assert(before.serves(x));
                    }
                }
                if 1 <= x < c {
                    assert(before.serves(x));
                    let q = choose|q: int|
                        0 <= q < before.routes@.len() && (#[trigger] before.routes@[q]).serves(x);
                    assert(work.routes@[q].serves(x));
                }
                if x == c {
                    assert(work.routes@[last].serves(x));
                }
            }
            assert forall|r1: int, r2: int, x: int|
                0 <= r1 < work.routes@.len() && 0 <= r2 < work.routes@.len() && r1 != r2 implies !(
            #[trigger] work.routes@[r1].serves(x) && #[trigger] work.routes@[r2].serves(x)) by {
                if work.routes@[r1].serves(x) && work.routes@[r2].serves(x) {
                    if r1 == last {
                        assert(before.routes@[r2].serves(x));
                        assert(before.serves(x));
                    } else if r2 == last {
                        assert(before.routes@[r1].serves(x));
                        assert(before.serves(x));
                    } else {
                        assert(before.routes@[r1].serves(x));
                        assert(before.routes@[r2].serves(x));
                    }
                }
            }
            assert forall|r: int, i: int|
                0 <= r < work.routes@.len() && 0 <= i < work.routes@[r]@.len() implies (
            #[trigger] work.routes@[r]@[i]).capacity() == vrp.spec_demand(
                work.routes@[r]@[i].cust_no() as int,
            ) by {
                if r != last {
                    assert(work.routes@[r]@[i] == before.routes@[r]@[i]);
                }
            }
            assert forall|r: int| 0 <= r < work.routes@.len() implies (
            #[trigger] work.routes@[r]).spec_used_capacity() <= vrp.vehicle_capacity by {
                if r != last {
                    assert(work.routes@[r] == before.routes@[r]);
                }
            }
        }
        c = c + 1;
    }
    let ghost start = work.plan();
    let ghost nv = vrp.num_vehicles as int;
    let ghost cap = vrp.vehicle_capacity as int;
    proof {
        assert(is_singletons(vrp, start));
        assert(all_demands_fit(vrp));
    }
    let order = savings_order(vrp, noise);
    let mut k: usize = 0;
    proof {
        assert(order@.take(0) =~= Seq::<(usize, usize)>::empty());
    }
    while k < order.len() && work.routes.len() > vrp.num_vehicles
        invariant
            vrp.wf(),
            nv == vrp.num_vehicles,
            cap == vrp.vehicle_capacity,
            is_savings_order(vrp, noise@, order@),
            k <= order@.len(),
            work.plan() == savings_run(start, order@.take(k as int), nv, cap),
            work.wf(vrp),
            work.routes_disjoint(),
            work.within_capacity(vrp),
            work.true_demands(vrp),
            forall|x: int| work.serves(x) <==> 1 <= x < vrp.num_customers,
        decreases order@.len() - k,
    {
        let (i, j) = order[k];
        savings_step(&mut work, i, j, vrp);
        proof {
            assert(order@.take(k + 1).drop_last() =~= order@.take(k as int));
        }
        k = k + 1;
    }
    proof {
        if k < order@.len() {
            assert(work.plan().len() == work.routes@.len());
            lemma_savings_run_settled(start, order@, k as int, nv, cap);
        } else {
            assert(order@.take(k as int) =~= order@);
        }
    }
    let ghost merged = work.plan();
    if work.routes.len() > vrp.num_vehicles {
        let res = Err("didn't work".to_string());
        proof {
            assert(savings_outcome(vrp, merged, res));
        }
        return res;
    }
    let ghost joined = work;
    while work.routes.len() < vrp.num_vehicles
        invariant
            vrp.wf(),
            joined.routes@.len() <= work.routes@.len() <= vrp.num_vehicles,
            work.wf(vrp),
            forall|q: int| 0 <= q < joined.routes@.len() ==> #[trigger] work.routes@[q] == joined.routes@[q],
            forall|q: int|
                joined.routes@.len() <= q < work.routes@.len() ==> (#[trigger] work.routes@[q])@.len()
                    == 0 && work.routes@[q].spec_used_capacity() == 0,
        decreases vrp.num_vehicles - work.routes@.len(),
    {
        let id = work.routes.len();
        work.routes.push(Route::new(share(vrp), id));
    }
    proof {
        assert(work.plan() =~~= padded(merged, nv)) by {
            assert forall|r: int| 0 <= r < work.routes@.len() implies #[trigger] work.plan()[r]
                =~= padded(merged, nv)[r] by {
                if r < joined.routes@.len() {
                    assert(work.routes@[r] == joined.routes@[r]);
                    assert(merged[r] == joined.routes@[r]@);
                }
            }
        }
        assert forall|x: int| work.serves(x) <==> joined.serves(x) by {
            if work.serves(x) {
                let q = choose|q: int|
                    0 <= q < work.routes@.len() && (#[trigger] work.routes@[q]).serves(x);
                if q >= joined.routes@.len() {
                    assert(work.routes@[q].customers().len() == 0);
                } else {
                    assert(joined.routes@[q].serves(x));
                }
            }
            if joined.serves(x) {
                let q = choose|q: int|
                    0 <= q < joined.routes@.len() && (#[trigger] joined.routes@[q]).serves(x);
                assert(work.routes@[q].serves(x));
            }
        }
        assert forall|r1: int, r2: int, x: int|
            0 <= r1 < work.routes@.len() && 0 <= r2 < work.routes@.len() && r1 != r2 implies !(
        #[trigger] work.routes@[r1].serves(x) && #[trigger] work.routes@[r2].serves(x)) by {
            if work.routes@[r1].serves(x) && work.routes@[r2].serves(x) {
                if r1 >= joined.routes@.len() {
                    assert(work.routes@[r1].customers().len() == 0);
                } else if r2 >= joined.routes@.len() {
                    assert(work.routes@[r2].customers().len() == 0);
                } else {
                    assert(joined.routes@[r1].serves(x));
                    assert(joined.routes@[r2].serves(x));
                }
            }
        }
        assert forall|r: int| 0 <= r < work.routes@.len() implies (
        #[trigger] work.routes@[r]).spec_used_capacity() <= vrp.vehicle_capacity by {
            if r < joined.routes@.len() {
                assert(work.routes@[r] == joined.routes@[r]);
            }
        }
        assert forall|r: int, i: int|
            0 <= r < work.routes@.len() && 0 <= i < work.routes@[r]@.len() implies (
        #[trigger] work.routes@[r]@[i]).capacity() == vrp.spec_demand(
            work.routes@[r]@[i].cust_no() as int,
        ) by {
            if r < joined.routes@.len() {
                assert(work.routes@[r]@[i] == joined.routes@[r]@[i]);
            }
        }
        assert forall|x: int| 1 <= x < vrp.num_customers implies #[trigger] work.serves(x) by {
            assert(joined.serves(x));
        }
    }
    let res = Ok(work);
    proof {
        assert(savings_outcome(vrp, merged, res));
    }
    res
}

} // verus!
