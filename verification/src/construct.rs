use vstd::prelude::*;
use std::sync::Arc;
use crate::ordering::{
    is_key_order, lemma_lex_increasing_unique, lex_increasing, lex_less, order_by_key, pair_le,
};
use crate::random::{random_below, shuffle};
use crate::seq_util::{is_reordering, lemma_reordering};
use crate::route::{best_position, customers_of, route_cost, total_demand};
use crate::seq_util::{
    is_strict_order, lemma_chain_is_sorted, lemma_insert_contains, lemma_insert_no_duplicates,
    lemma_rotate_left, lemma_sorted_unique, rotate_left,
};
use crate::route::lemma_customers_of_insert;
use crate::solution::VRPSolution;
use crate::savings::{clarke_wright, savings_result};
use crate::stop::Stop;
use crate::vrp_instance::VRPInstance;

verus! {

/// The first route at or after `from` with room for `demand`, or the number
/// of routes if there is none.
pub open spec fn first_room(plan: Seq<Seq<Stop>>, demand: int, capacity: int, from: int) -> int
    decreases plan.len() - from,
{
    if from < 0 || from >= plan.len() {
        plan.len() as int
    } else if total_demand(plan[from]) + demand <= capacity {
        from
    } else {
        first_room(plan, demand, capacity, from + 1)
    }
}

/// One empty route per vehicle.
pub open spec fn empty_plan(num_vehicles: nat) -> Seq<Seq<Stop>> {
    Seq::new(num_vehicles, |r: int| Seq::<Stop>::empty())
}

/// The routes that come of appending each stop, in turn, to the first route
/// with room for it; `None` if some stop finds no room.
pub open spec fn first_fit(stops: Seq<Stop>, num_vehicles: nat, capacity: int) -> Option<
    Seq<Seq<Stop>>,
>
    decreases stops.len(),
{
    if stops.len() == 0 {
        Some(empty_plan(num_vehicles))
    } else {
        match first_fit(stops.drop_last(), num_vehicles, capacity) {
            None => None,
            Some(plan) => {
                let r = first_room(plan, stops.last().capacity() as int, capacity, 0);
                if r < plan.len() {
                    Some(plan.update(r, plan[r].push(stops.last())))
                } else {
                    None
                }
            },
        }
    }
}

/// Once a stop has found no room, the stops after it change nothing.
pub proof fn lemma_first_fit_stuck(stops: Seq<Stop>, k: int, num_vehicles: nat, capacity: int)
    requires
        0 <= k <= stops.len(),
        first_fit(stops.take(k), num_vehicles, capacity) is None,
    ensures
        first_fit(stops, num_vehicles, capacity) is None,
    decreases stops.len(),
{
    if k == stops.len() {
        assert(stops.take(k) =~= stops);
    } else {
        assert(stops.drop_last().take(k) =~= stops.take(k));
        lemma_first_fit_stuck(stops.drop_last(), k, num_vehicles, capacity);
    }
}

/// Every stop is a customer of `inst`, other than the depot, with the
/// demand that `inst` gives it.
pub open spec fn stops_of_instance(inst: &VRPInstance, stops: Seq<Stop>) -> bool {
    forall|k: int|
        0 <= k < stops.len() ==> 1 <= (#[trigger] stops[k]).cust_no() < inst.num_customers
            && stops[k].capacity() == inst.spec_demand(stops[k].cust_no() as int)
}

/// Appends each of `stops`, in turn, to the first route with room for it.
///
/// Fails when some stop finds no room in any route.
pub fn first_fit_insert(vrp_instance: &Arc<VRPInstance>, stops: &Vec<Stop>) -> (res: Result<
    VRPSolution,
    String,
>)
    requires
        vrp_instance.wf(),
        stops_of_instance(vrp_instance, stops@),
        customers_of(stops@).no_duplicates(),
    ensures
        match res {
            Ok(sol) => {
                &&& first_fit(
                    stops@,
                    vrp_instance.num_vehicles as nat,
                    vrp_instance.vehicle_capacity as int,
                ) == Some(sol.plan())
                &&& sol.wf(vrp_instance)
                &&& sol.routes@.len() == vrp_instance.num_vehicles
                &&& sol.routes_disjoint()
                &&& sol.within_capacity(vrp_instance)
                &&& sol.true_demands(vrp_instance)
                &&& forall|c: int| sol.serves(c) <==> customers_of(stops@).contains(c)
            },
            Err(_) => first_fit(
                stops@,
                vrp_instance.num_vehicles as nat,
                vrp_instance.vehicle_capacity as int,
            ) is None,
        },
{
    let mut sol = VRPSolution::new(vrp_instance);
    let ghost nv = vrp_instance.num_vehicles as nat;
    let ghost cap = vrp_instance.vehicle_capacity as int;
    let ghost custs = customers_of(stops@);
    proof {
        assert(sol.plan() =~~= empty_plan(nv));
        assert(stops@.take(0) =~= Seq::<Stop>::empty());
        assert forall|c: int| !sol.serves(c) by {
            if sol.serves(c) {
                let q = choose|q: int|
                    0 <= q < sol.routes@.len() && (#[trigger] sol.routes@[q]).serves(c);
                assert(sol.routes@[q]@.len() == 0);
                assert(sol.routes@[q].customers().len() == 0);
            }
        }
        assert forall|r: int| 0 <= r < sol.routes@.len() implies (
        #[trigger] sol.routes@[r]).spec_used_capacity() <= vrp_instance.vehicle_capacity by {
            assert(sol.routes@[r]@.len() == 0);
        }
    }
    let mut k: usize = 0;
    while k < stops.len()
        invariant
            vrp_instance.wf(),
            stops_of_instance(vrp_instance, stops@),
            custs == customers_of(stops@),
            custs.no_duplicates(),
            nv == vrp_instance.num_vehicles,
            cap == vrp_instance.vehicle_capacity,
            k <= stops@.len(),
            first_fit(stops@.take(k as int), nv, cap) == Some(sol.plan()),
            sol.wf(vrp_instance),
            sol.routes@.len() == vrp_instance.num_vehicles,
            sol.routes_disjoint(),
            sol.within_capacity(vrp_instance),
            sol.true_demands(vrp_instance),
            forall|c: int| sol.serves(c) <==> custs.take(k as int).contains(c),
        decreases stops@.len() - k,
    {
        let stop = stops[k];
        let demand = stop.capacity();
        let ghost plan = sol.plan();
        let mut r: usize = 0;
        while r < sol.routes.len() && vrp_instance.vehicle_capacity - sol.routes[r].used_capacity()
            < demand
            invariant
                r <= sol.routes@.len(),
                sol.wf(vrp_instance),
                sol.within_capacity(vrp_instance),
                plan == sol.plan(),
                cap == vrp_instance.vehicle_capacity,
                first_room(plan, demand as int, cap, 0) == first_room(
                    plan,
                    demand as int,
                    cap,
                    r as int,
                ),
            decreases sol.routes@.len() - r,
        {
            proof {
                assert(sol.routes@[r as int].wf());
                assert(plan[r as int] == sol.routes@[r as int]@);
            }
            r = r + 1;
        }
        proof {
            assert(stops@.take(k + 1).drop_last() =~= stops@.take(k as int));
            assert(stops@.take(k + 1).last() == stop);
            if r < sol.routes@.len() {
                assert(sol.routes@[r as int].wf());
                assert(plan[r as int] == sol.routes@[r as int]@);
            }
        }
        if r >= sol.routes.len() {
            proof {
                lemma_first_fit_stuck(stops@, k + 1, nv, cap);
            }
            return Err("didn't work".to_string());
        }
        let len = sol.routes[r].stops().len();
        proof {
            assert(custs[k as int] == stop.cust_no());
            if custs.take(k as int).contains(stop.cust_no() as int) {
                let j = choose|j: int|
                    0 <= j < custs.take(k as int).len() && custs.take(k as int)[j]
                        == stop.cust_no() as int;
                assert(custs[j] == custs[k as int]);
            }
        }
        sol.add_stop(r, stop, len);
        proof {
            assert(plan[r as int].insert(len as int, stop) =~= plan[r as int].push(stop));
            assert(sol.plan() =~= plan.update(r as int, plan[r as int].push(stop)));
            assert(custs.take(k + 1) =~= custs.take(k as int).push(stop.cust_no() as int));
            assert forall|c: int| sol.serves(c) <==> custs.take(k + 1).contains(c) by {
                lemma_insert_contains(custs.take(k as int), k as int, stop.cust_no() as int, c);
                assert(custs.take(k as int).insert(k as int, stop.cust_no() as int) =~= custs.take(
                    k + 1,
                ));
            }
        }
        k = k + 1;
    }
    proof {
        assert(stops@.take(k as int) =~= stops@);
        assert(custs.take(k as int) =~= custs);
    }
    Ok(sol)
}

/// Whether first-fit insertion of `stops` ends as `res` says: with the
/// routes of first fit, or in failure where first fit finds no room.
pub open spec fn first_fit_outcome(
    inst: &VRPInstance,
    stops: Seq<Stop>,
    res: Result<VRPSolution, String>,
) -> bool {
    match res {
        Ok(sol) => first_fit(stops, inst.num_vehicles as nat, inst.vehicle_capacity as int)
            == Some(sol.plan()),
        Err(_) => first_fit(stops, inst.num_vehicles as nat, inst.vehicle_capacity as int)
            is None,
    }
}

/// `a` comes before `b` by descending demand, equal demands by ascending
/// customer number.
pub open spec fn demand_before(a: Stop, b: Stop) -> bool {
    a.capacity() > b.capacity() || (a.capacity() == b.capacity() && a.cust_no() < b.cust_no())
}

/// `stops` are the customers of `inst`, each once, with its demand.
pub open spec fn all_customers(inst: &VRPInstance, stops: Seq<Stop>) -> bool {
    &&& stops.len() == inst.num_customers - 1
    &&& stops_of_instance(inst, stops)
    &&& customers_of(stops).no_duplicates()
    &&& forall|c: int| 1 <= c < inst.num_customers ==> #[trigger] customers_of(stops).contains(c)
}

/// `stops` are the customers of `inst` by descending demand.
pub open spec fn is_demand_order(inst: &VRPInstance, stops: Seq<Stop>) -> bool {
    &&& all_customers(inst, stops)
    &&& forall|a: int, b: int|
        0 <= a < b < stops.len() ==> demand_before(#[trigger] stops[a], #[trigger] stops[b])
}

/// There is one order of the customers by descending demand.
pub proof fn lemma_demand_order_unique(inst: &VRPInstance, first: Seq<Stop>, second: Seq<Stop>)
    requires
        is_demand_order(inst, first),
        is_demand_order(inst, second),
    ensures
        first == second,
{
    let a = Seq::new(first.len(), |k: int| (-first[k].capacity() as int, first[k].cust_no() as int));
    let b = Seq::new(
        second.len(),
        |k: int| (-second[k].capacity() as int, second[k].cust_no() as int),
    );
    assert(lex_increasing(a)) by {
        assert forall|i: int, j: int| 0 <= i < j < a.len() implies lex_less(
            #[trigger] a[i],
            #[trigger] a[j],
        ) by {
            assert(demand_before(first[i], first[j]));
        }
    }
    assert(lex_increasing(b)) by {
        assert forall|i: int, j: int| 0 <= i < j < b.len() implies lex_less(
            #[trigger] b[i],
            #[trigger] b[j],
        ) by {
            assert(demand_before(second[i], second[j]));
        }
    }
    assert forall|x: (int, int)| a.contains(x) <==> b.contains(x) by {
        if a.contains(x) {
            let i = choose|i: int| 0 <= i < a.len() && a[i] == x;
            let c = first[i].cust_no() as int;
            assert(customers_of(second).contains(c));
            let j = choose|j: int| 0 <= j < customers_of(second).len() && customers_of(second)[j] == c;
            assert(second[j].cust_no() == c);
            assert(b[j] == x);
        }
        if b.contains(x) {
            let i = choose|i: int| 0 <= i < b.len() && b[i] == x;
            let c = second[i].cust_no() as int;
            assert(customers_of(first).contains(c));
            let j = choose|j: int| 0 <= j < customers_of(first).len() && customers_of(first)[j] == c;
            assert(first[j].cust_no() == c);
            assert(a[j] == x);
        }
    }
    lemma_lex_increasing_unique(a, b);
    assert forall|k: int| 0 <= k < first.len() implies first[k] == second[k] by {
        assert(a[k] == b[k]);
        Stop::lemma_stop_ext(first[k], second[k]);
    }
    assert(first =~= second);
}

/// The stops of the customers `custs`, each with the demand of `inst`.
fn make_stops(vrp_instance: &Arc<VRPInstance>, custs: &Vec<usize>) -> (stops: Vec<Stop>)
    requires
        vrp_instance.wf(),
        forall|k: int| 0 <= k < custs@.len() ==> 1 <= #[trigger] custs@[k] < vrp_instance.num_customers,
    ensures
        stops@.len() == custs@.len(),
        stops_of_instance(vrp_instance, stops@),
        forall|k: int| 0 <= k < custs@.len() ==> (#[trigger] stops@[k]).cust_no() == custs@[k],
{
    let mut stops: Vec<Stop> = Vec::new();
    let mut k: usize = 0;
    while k < custs.len()
        invariant
            vrp_instance.wf(),
            forall|j: int|
                0 <= j < custs@.len() ==> 1 <= #[trigger] custs@[j] < vrp_instance.num_customers,
            k <= custs@.len(),
            stops@.len() == k,
            stops_of_instance(vrp_instance, stops@),
            forall|j: int| 0 <= j < k ==> (#[trigger] stops@[j]).cust_no() == custs@[j],
        decreases custs@.len() - k,
    {
        let c = custs[k];
        stops.push(Stop::new(c as u16, vrp_instance.demand_of_customer[c]));
        k = k + 1;
    }
    stops
}

/// A solution is valid when it comes of first-fit insertion of all the
/// customers.
proof fn lemma_all_served_is_valid(inst: &VRPInstance, stops: Seq<Stop>, sol: &VRPSolution)
    requires
        all_customers(inst, stops),
        sol.wf(inst),
        sol.routes@.len() == inst.num_vehicles,
        sol.routes_disjoint(),
        sol.within_capacity(inst),
        sol.true_demands(inst),
        forall|c: int| sol.serves(c) <==> customers_of(stops).contains(c),
    ensures
        sol.is_valid(inst),
{
    assert forall|c: int| 1 <= c < inst.num_customers implies #[trigger] sol.serves(c) by {
        assert(customers_of(stops).contains(c));
    }
}

/// Serves the customers by descending demand, each on the first vehicle with
/// room for it, on an instance where each finds room.
pub fn greedy(vrp_instance: &Arc<VRPInstance>) -> (sol: VRPSolution)
    requires
        vrp_instance.wf(),
        greedy_succeeds(vrp_instance),
    ensures
        exists|stops: Seq<Stop>| #[trigger]
            is_demand_order(vrp_instance, stops) && first_fit_outcome(
                vrp_instance,
                stops,
                Ok(sol),
            ),
        sol.is_valid(vrp_instance),
{
    match try_greedy(vrp_instance) {
        Ok(sol) => sol,
        Err(_) => vstd::pervasive::unreached(),
    }
}

/// Serves the customers by descending demand, each on the first vehicle with
/// room for it.
///
/// Fails when some customer finds no room on any vehicle.
pub fn try_greedy(vrp_instance: &Arc<VRPInstance>) -> (res: Result<VRPSolution, String>)
    requires
        vrp_instance.wf(),
    ensures
        exists|stops: Seq<Stop>| #[trigger]
            is_demand_order(vrp_instance, stops) && first_fit_outcome(vrp_instance, stops, res),
        res matches Ok(sol) ==> sol.is_valid(vrp_instance),
        greedy_succeeds(vrp_instance) ==> res is Ok,
{
    let n = vrp_instance.num_customers;
    let mut keys: Vec<i128> = Vec::new();
    let mut c: usize = 1;
    while c < n
        invariant
            vrp_instance.wf(),
            n == vrp_instance.num_customers,
            1 <= c <= n,
            keys@.len() == c - 1,
            forall|j: int|
                0 <= j < keys@.len() ==> #[trigger] keys@[j] == -vrp_instance.spec_demand(j + 1),
        decreases n - c,
    {
        keys.push(-(vrp_instance.demand_of_customer[c] as i128));
        c = c + 1;
    }
    let order = order_by_key(&keys);
    let mut custs: Vec<usize> = Vec::new();
    let mut k: usize = 0;
    while k < order.len()
        invariant
            is_key_order(keys@, order@),
            keys@.len() == n - 1,
            k <= order@.len(),
            custs@.len() == k,
            forall|j: int| 0 <= j < k ==> #[trigger] custs@[j] == order@[j] + 1,
        decreases order@.len() - k,
    {
        custs.push(order[k] + 1);
        k = k + 1;
    }
    let stops = make_stops(vrp_instance, &custs);
    proof {
        let cs = customers_of(stops@);
        assert forall|a: int, b: int| 0 <= a < cs.len() && 0 <= b < cs.len() && a != b implies cs[a]
            != cs[b] by {
            assert(stops@[a].cust_no() == custs@[a]);
            assert(stops@[b].cust_no() == custs@[b]);
            if a < b {
                assert(order@[a] != order@[b]);
            } else {
                assert(order@[b] != order@[a]);
            }
        }
        assert forall|x: int| 1 <= x < vrp_instance.num_customers implies #[trigger] cs.contains(
            x,
        ) by {
            let i = (x - 1) as usize;
            assert(order@.contains(i));
            let j = choose|j: int| 0 <= j < order@.len() && order@[j] == i;
            assert(stops@[j].cust_no() == custs@[j]);
            assert(cs[j] == x);
        }
        assert forall|a: int, b: int| 0 <= a < b < stops@.len() implies demand_before(
            #[trigger] stops@[a],
            #[trigger] stops@[b],
        ) by {
            assert(stops@[a].cust_no() == custs@[a]);
            assert(stops@[b].cust_no() == custs@[b]);
            assert(pair_le(
                (keys@[order@[a] as int], order@[a]),
                (keys@[order@[b] as int], order@[b]),
            ));
            assert(order@[a] != order@[b]);
            assert(keys@[order@[a] as int] == -vrp_instance.spec_demand(order@[a] + 1));
            assert(keys@[order@[b] as int] == -vrp_instance.spec_demand(order@[b] + 1));
        }
        assert(is_demand_order(vrp_instance, stops@));
    }
    let res = first_fit_insert(vrp_instance, &stops);
    proof {
        assert(first_fit_outcome(vrp_instance, stops@, res));
        if res is Ok {
            lemma_all_served_is_valid(vrp_instance, stops@, &res->Ok_0);
        }
        if greedy_succeeds(vrp_instance) {
            assert(is_demand_order(vrp_instance, stops@));
        }
    }
    res
}

/// The part of the plane, counted counter-clockwise from the ray to the
/// west, in which the direction `(dx, dy)` lies: below the horizontal axis,
/// on its eastern half, above it, on its western half.
pub open spec fn angle_region(dx: int, dy: int) -> int {
    if dy < 0 {
        0
    } else if dy == 0 && dx >= 0 {
        1
    } else if dy > 0 {
        2
    } else {
        3
    }
}

/// Whether the polar angle of `(ax, ay)` is smaller than that of
/// `(bx, by)`, both taken from just above the ray to the west, all the way
/// round, up to that ray.
pub open spec fn angle_less(ax: int, ay: int, bx: int, by: int) -> bool {
    let ra = angle_region(ax, ay);
    let rb = angle_region(bx, by);
    ra < rb || (ra == rb && (ra == 0 || ra == 2) && ax * by - ay * bx > 0)
}

/// Whether customer `a` has a smaller polar angle about the depot than
/// customer `b`.
pub open spec fn polar_less(inst: &VRPInstance, a: int, b: int) -> bool {
    angle_less(inst.spec_dx(a), inst.spec_dy(a), inst.spec_dx(b), inst.spec_dy(b))
}

/// Whether `a` is swept before `b`: by ascending polar angle, equal angles
/// by ascending customer number.
pub open spec fn sweeps_before(inst: &VRPInstance, a: int, b: int) -> bool {
    polar_less(inst, a, b) || (!polar_less(inst, b, a) && a < b)
}

/// `stops` are the customers of `inst` in the order of the sweep.
pub open spec fn is_sweep_order(inst: &VRPInstance, stops: Seq<Stop>) -> bool {
    &&& all_customers(inst, stops)
    &&& forall|k: int|
        0 <= k < stops.len() - 1 ==> sweeps_before(
            inst,
            (#[trigger] stops[k]).cust_no() as int,
            stops[k + 1].cust_no() as int,
        )
}

/// Directions in one open half of the plane, above or below the horizontal
/// axis, keep the order of their angles along a chain of three.
pub proof fn lemma_cross_chain(ax: int, ay: int, bx: int, by: int, cx: int, cy: int)
    requires
        (ay > 0 && by > 0 && cy > 0) || (ay < 0 && by < 0 && cy < 0),
    ensures
        ax * by - ay * bx > 0 && bx * cy - by * cx > 0 ==> ax * cy - ay * cx > 0,
        ax * by - ay * bx > 0 && bx * cy - by * cx >= 0 ==> ax * cy - ay * cx > 0,
        ax * by - ay * bx >= 0 && bx * cy - by * cx > 0 ==> ax * cy - ay * cx > 0,
        ax * by - ay * bx >= 0 && bx * cy - by * cx >= 0 ==> ax * cy - ay * cx >= 0,
{
    let ab = ax * by - ay * bx;
    let bc = bx * cy - by * cx;
    let ac = ax * cy - ay * cx;
    assert(by * ac == cy * ab + ay * bc) by (nonlinear_arith)
        requires
            ab == ax * by - ay * bx,
            bc == bx * cy - by * cx,
            ac == ax * cy - ay * cx,
    ;
    if ay > 0 {
        assert(ab > 0 && bc >= 0 ==> cy * ab + ay * bc > 0) by (nonlinear_arith)
            requires
                cy > 0,
                ay > 0,
        ;
        assert(ab >= 0 && bc > 0 ==> cy * ab + ay * bc > 0) by (nonlinear_arith)
            requires
                cy > 0,
                ay > 0,
        ;
        assert(ab >= 0 && bc >= 0 ==> cy * ab + ay * bc >= 0) by (nonlinear_arith)
            requires
                cy > 0,
                ay > 0,
        ;
        assert(by * ac > 0 ==> ac > 0) by (nonlinear_arith)
            requires
                by > 0,
        ;
        assert(by * ac >= 0 ==> ac >= 0) by (nonlinear_arith)
            requires
                by > 0,
        ;
    } else {
        assert(ab > 0 && bc >= 0 ==> cy * ab + ay * bc < 0) by (nonlinear_arith)
            requires
                cy < 0,
                ay < 0,
        ;
        assert(ab >= 0 && bc > 0 ==> cy * ab + ay * bc < 0) by (nonlinear_arith)
            requires
                cy < 0,
                ay < 0,
        ;
        assert(ab >= 0 && bc >= 0 ==> cy * ab + ay * bc <= 0) by (nonlinear_arith)
            requires
                cy < 0,
                ay < 0,
        ;
        assert(by * ac < 0 ==> ac > 0) by (nonlinear_arith)
            requires
                by < 0,
        ;
        assert(by * ac <= 0 ==> ac >= 0) by (nonlinear_arith)
            requires
                by < 0,
        ;
    }
}

/// The order of polar angles: no direction before itself, and a chain of
/// three keeps its order.
pub proof fn lemma_angle_order(ax: int, ay: int, bx: int, by: int, cx: int, cy: int)
    ensures
        !angle_less(ax, ay, ax, ay),
        angle_less(ax, ay, bx, by) ==> !angle_less(bx, by, ax, ay),
        angle_less(ax, ay, bx, by) && !angle_less(cx, cy, bx, by) ==> angle_less(ax, ay, cx, cy),
        !angle_less(bx, by, ax, ay) && angle_less(bx, by, cx, cy) ==> angle_less(ax, ay, cx, cy),
        !angle_less(bx, by, ax, ay) && !angle_less(cx, cy, bx, by) ==> !angle_less(
            cx,
            cy,
            ax,
            ay,
        ),
{
    let ra = angle_region(ax, ay);
    let rb = angle_region(bx, by);
    let rc = angle_region(cx, cy);
    assert(ax * ay - ay * ax == 0) by (nonlinear_arith);
    assert(bx * ay - by * ax == -(ax * by - ay * bx)) by (nonlinear_arith);
    assert(cx * by - cy * bx == -(bx * cy - by * cx)) by (nonlinear_arith);
    assert(cx * ay - cy * ax == -(ax * cy - ay * cx)) by (nonlinear_arith);
    if ra == rb && rb == rc && (ra == 0 || ra == 2) {
        lemma_cross_chain(ax, ay, bx, by, cx, cy);
    }
}

/// The order of the sweep is a strict order of the customers.
pub proof fn lemma_sweep_is_order(inst: &VRPInstance)
    ensures
        is_strict_order(|a: int, b: int| sweeps_before(inst, a, b)),
{
    let before = |a: int, b: int| sweeps_before(inst, a, b);
    assert forall|x: int| !#[trigger] before(x, x) by {
        lemma_angle_order(
            inst.spec_dx(x),
            inst.spec_dy(x),
            inst.spec_dx(x),
            inst.spec_dy(x),
            inst.spec_dx(x),
            inst.spec_dy(x),
        );
    }
    assert forall|x: int, y: int| x != y implies #[trigger] before(x, y) || #[trigger] before(
        y,
        x,
    ) by {}
    assert forall|x: int, y: int, z: int| #[trigger]
        before(x, y) && #[trigger] before(y, z) implies before(x, z) by {
        lemma_angle_order(
            inst.spec_dx(x),
            inst.spec_dy(x),
            inst.spec_dx(y),
            inst.spec_dy(y),
            inst.spec_dx(z),
            inst.spec_dy(z),
        );
        lemma_angle_order(
            inst.spec_dx(z),
            inst.spec_dy(z),
            inst.spec_dx(y),
            inst.spec_dy(y),
            inst.spec_dx(x),
            inst.spec_dy(x),
        );
        lemma_angle_order(
            inst.spec_dx(y),
            inst.spec_dy(y),
            inst.spec_dx(z),
            inst.spec_dy(z),
            inst.spec_dx(y),
            inst.spec_dy(y),
        );
        lemma_angle_order(
            inst.spec_dx(x),
            inst.spec_dy(x),
            inst.spec_dx(y),
            inst.spec_dy(y),
            inst.spec_dx(x),
            inst.spec_dy(x),
        );
    }
}

/// There is one order of the sweep.
pub proof fn lemma_sweep_order_unique(inst: &VRPInstance, first: Seq<Stop>, second: Seq<Stop>)
    requires
        is_sweep_order(inst, first),
        is_sweep_order(inst, second),
    ensures
        first == second,
{
    let before = |a: int, b: int| sweeps_before(inst, a, b);
    let a = customers_of(first);
    let b = customers_of(second);
    lemma_sweep_is_order(inst);
    assert forall|k: int| 0 <= k < a.len() - 1 implies before(#[trigger] a[k], a[k + 1]) by {
        assert(sweeps_before(inst, first[k].cust_no() as int, first[k + 1].cust_no() as int));
    }
    assert forall|k: int| 0 <= k < b.len() - 1 implies before(#[trigger] b[k], b[k + 1]) by {
        assert(sweeps_before(inst, second[k].cust_no() as int, second[k + 1].cust_no() as int));
    }
    lemma_chain_is_sorted(a, before);
    lemma_chain_is_sorted(b, before);
    assert forall|x: int| a.contains(x) <==> b.contains(x) by {
        if a.contains(x) {
            let i = choose|i: int| 0 <= i < a.len() && a[i] == x;
            assert(1 <= first[i].cust_no() < inst.num_customers);
        }
        if b.contains(x) {
            let i = choose|i: int| 0 <= i < b.len() && b[i] == x;
            assert(1 <= second[i].cust_no() < inst.num_customers);
        }
    }
    lemma_sorted_unique(a, b, before);
    assert forall|k: int| 0 <= k < first.len() implies first[k] == second[k] by {
        assert(a[k] == b[k]);
        Stop::lemma_stop_ext(first[k], second[k]);
    }
    assert(first =~= second);
}

fn region_of(dx: i64, dy: i64) -> (r: u8)
    ensures
        r == angle_region(dx as int, dy as int),
{
    if dy < 0 {
        0
    } else if dy == 0 && dx >= 0 {
        1
    } else if dy > 0 {
        2
    } else {
        3
    }
}

/// Whether customer `a` has a smaller polar angle about the depot than
/// customer `b`.
pub fn polar_angle_less(vrp_instance: &VRPInstance, a: usize, b: usize) -> (less: bool)
    requires
        vrp_instance.wf(),
        a < vrp_instance.num_customers,
        b < vrp_instance.num_customers,
    ensures
        less == polar_less(vrp_instance, a as int, b as int),
{
    let depot_x = vrp_instance.x_coord_of_customer[0];
    let depot_y = vrp_instance.y_coord_of_customer[0];
    let ax = depot_x - vrp_instance.x_coord_of_customer[a];
    let ay = depot_y - vrp_instance.y_coord_of_customer[a];
    let bx = depot_x - vrp_instance.x_coord_of_customer[b];
    let by = depot_y - vrp_instance.y_coord_of_customer[b];
    let ra = region_of(ax, ay);
    let rb = region_of(bx, by);
    if ra != rb {
        ra < rb
    } else if ra == 0 || ra == 2 {
        assert(-0x4000_0000_0000_0000 <= ax * by <= 0x4000_0000_0000_0000) by (nonlinear_arith)
            requires
                -0x8000_0000 <= ax <= 0x8000_0000,
                -0x8000_0000 <= by <= 0x8000_0000,
        ;
        assert(-0x4000_0000_0000_0000 <= ay * bx <= 0x4000_0000_0000_0000) by (nonlinear_arith)
            requires
                -0x8000_0000 <= ay <= 0x8000_0000,
                -0x8000_0000 <= bx <= 0x8000_0000,
        ;
        (ax as i128) * (by as i128) > (ay as i128) * (bx as i128)
    } else {
        false
    }
}

/// The customers in the order of the sweep.
pub fn sweep_order(vrp_instance: &Arc<VRPInstance>) -> (stops: Vec<Stop>)
    requires
        vrp_instance.wf(),
    ensures
        is_sweep_order(vrp_instance, stops@),
{
    let n = vrp_instance.num_customers;
    let mut stops: Vec<Stop> = Vec::new();
    let mut c: usize = 1;
    while c < n
        invariant
            vrp_instance.wf(),
            n == vrp_instance.num_customers,
            1 <= c <= n,
            stops@.len() == c - 1,
            stops_of_instance(vrp_instance, stops@),
            customers_of(stops@).no_duplicates(),
            forall|k: int| 0 <= k < stops@.len() ==> (#[trigger] stops@[k]).cust_no() < c,
            forall|x: int| 1 <= x < c ==> #[trigger] customers_of(stops@).contains(x),
            forall|k: int|
                0 <= k < stops@.len() - 1 ==> sweeps_before(
                    vrp_instance,
                    (#[trigger] stops@[k]).cust_no() as int,
                    stops@[k + 1].cust_no() as int,
                ),
        decreases n - c,
    {
        let mut p: usize = stops.len();
        while p > 0 && polar_angle_less(vrp_instance, c, stops[p - 1].cust_no() as usize)
            invariant
                vrp_instance.wf(),
                c < vrp_instance.num_customers,
                stops_of_instance(vrp_instance, stops@),
                p <= stops@.len(),
                p < stops@.len() ==> polar_less(
                    vrp_instance,
                    c as int,
                    stops@[p as int].cust_no() as int,
                ),
            decreases p,
        {
            p = p - 1;
        }
        let stop = Stop::new(c as u16, vrp_instance.demand_of_customer[c]);
        let ghost before = stops@;
        proof {
            let cs = customers_of(before);
            if cs.contains(c as int) {
                let j = choose|j: int| 0 <= j < cs.len() && cs[j] == c as int;
                assert(before[j].cust_no() < c);
            }
            lemma_customers_of_insert(before, p as int, stop);
            lemma_insert_no_duplicates(cs, p as int, c as int);
        }
        stops.insert(p, stop);
        proof {
            let cs = customers_of(before);
            assert forall|x: int| 1 <= x < c + 1 implies #[trigger] customers_of(
                stops@,
            ).contains(x) by {
                lemma_insert_contains(cs, p as int, c as int, x);
                if x < c {
                    assert(cs.contains(x));
                }
            }
            assert forall|k: int| 0 <= k < stops@.len() - 1 implies sweeps_before(
                vrp_instance,
                (#[trigger] stops@[k]).cust_no() as int,
                stops@[k + 1].cust_no() as int,
            ) by {
                if k < p - 1 {
                    assert(stops@[k] == before[k]);
                    assert(stops@[k + 1] == before[k + 1]);
                } else if k == p - 1 {
                    assert(stops@[k] == before[k]);
                    assert(before[k].cust_no() < c);
                } else if k == p {
                    assert(stops@[k + 1] == before[k]);
                } else {
                    assert(stops@[k] == before[k - 1]);
                    assert(stops@[k + 1] == before[k]);
                }
            }
            assert forall|k: int| 0 <= k < stops@.len() implies (#[trigger] stops@[k]).cust_no()
                < c + 1 by {
                if k < p {
                    assert(stops@[k] == before[k]);
                } else if k > p {
                    assert(stops@[k] == before[k - 1]);
                }
            }
            assert(stops_of_instance(vrp_instance, stops@)) by {
                assert forall|k: int| 0 <= k < stops@.len() implies 1 <= (
                #[trigger] stops@[k]).cust_no() < vrp_instance.num_customers
                    && stops@[k].capacity() == vrp_instance.spec_demand(
                    stops@[k].cust_no() as int,
                ) by {
                    if k < p {
                        assert(stops@[k] == before[k]);
                    } else if k > p {
                        assert(stops@[k] == before[k - 1]);
                    }
                }
            }
        }
        c = c + 1;
    }
    stops
}

/// The position at which a sweep of `len` customers starts for `offset`.
pub open spec fn sweep_start(offset: int, len: int) -> int {
    if len == 0 {
        0
    } else {
        offset % len
    }
}

/// Serves the customers in the order of the sweep, starting with the one at
/// position `offset` (taken modulo their number) and going round, each on the
/// first vehicle with room for it.
///
/// Fails when some customer finds no room on any vehicle.
pub fn sweep_from(vrp_instance: &Arc<VRPInstance>, offset: usize) -> (res: Result<
    VRPSolution,
    String,
>)
    requires
        vrp_instance.wf(),
    ensures
        exists|sorted: Seq<Stop>| #[trigger]
            is_sweep_order(vrp_instance, sorted) && first_fit_outcome(
                vrp_instance,
                rotate_left(sorted, sweep_start(offset as int, sorted.len() as int)),
                res,
            ),
        res matches Ok(sol) ==> sol.is_valid(vrp_instance),
{
    let sorted = sweep_order(vrp_instance);
    let m = sorted.len();
    let start = if m == 0 {
        0
    } else {
        offset % m
    };
    let mut stops: Vec<Stop> = Vec::new();
    let mut k: usize = start;
    while k < m
        invariant
            start <= k <= m,
            m == sorted@.len(),
            stops@ == sorted@.subrange(start as int, k as int),
        decreases m - k,
    {
        stops.push(sorted[k]);
        proof {
            assert(sorted@.subrange(start as int, k + 1) =~= sorted@.subrange(
                start as int,
                k as int,
            ).push(sorted@[k as int]));
        }
        k = k + 1;
    }
    let mut j: usize = 0;
    while j < start
        invariant
            j <= start <= m,
            m == sorted@.len(),
            stops@ == sorted@.subrange(start as int, m as int) + sorted@.subrange(0, j as int),
        decreases start - j,
    {
        stops.push(sorted[j]);
        proof {
            assert(sorted@.subrange(0, j + 1) =~= sorted@.subrange(0, j as int).push(
                sorted@[j as int],
            ));
            assert(sorted@.subrange(start as int, m as int) + sorted@.subrange(0, j + 1) =~= (
            sorted@.subrange(start as int, m as int) + sorted@.subrange(0, j as int)).push(
                sorted@[j as int],
            ));
        }
        j = j + 1;
    }
    proof {
        assert(stops@ == rotate_left(sorted@, start as int));
        lemma_rotate_left(sorted@, start as int);
        lemma_rotate_left(customers_of(sorted@), start as int);
        assert(customers_of(stops@) =~= rotate_left(customers_of(sorted@), start as int));
        assert(stops_of_instance(vrp_instance, stops@)) by {
            assert forall|i: int| 0 <= i < stops@.len() implies 1 <= (
            #[trigger] stops@[i]).cust_no() < vrp_instance.num_customers && stops@[i].capacity()
                == vrp_instance.spec_demand(stops@[i].cust_no() as int) by {
                assert(stops@.contains(stops@[i]));
                assert(sorted@.contains(stops@[i]));
                let q = choose|q: int| 0 <= q < sorted@.len() && sorted@[q] == stops@[i];
                assert(1 <= sorted@[q].cust_no());
            }
        }
        assert(all_customers(vrp_instance, stops@)) by {
            assert forall|x: int| 1 <= x < vrp_instance.num_customers implies #[trigger] customers_of(
                stops@,
            ).contains(x) by {
                assert(customers_of(sorted@).contains(x));
                assert(rotate_left(customers_of(sorted@), start as int).contains(x));
            }
        }
    }
    let res = first_fit_insert(vrp_instance, &stops);
    proof {
        assert(first_fit_outcome(vrp_instance, stops@, res));
        if res is Ok {
            lemma_all_served_is_valid(vrp_instance, stops@, &res->Ok_0);
        }
    }
    res
}

/// Serves the customers in the order of the sweep from a random start, each
/// on the first vehicle with room for it.
///
/// Fails when, from that start, some customer finds no room on any vehicle.
pub fn sweep(vrp_instance: &Arc<VRPInstance>) -> (res: Result<VRPSolution, String>)
    requires
        vrp_instance.wf(),
    ensures
        exists|sorted: Seq<Stop>, start: int| #[trigger]
            is_sweep_order(vrp_instance, sorted) && 0 <= start <= sorted.len()
                && #[trigger] first_fit_outcome(vrp_instance, rotate_left(sorted, start), res),
        res matches Ok(sol) ==> sol.is_valid(vrp_instance),
{
    let customers = vrp_instance.num_customers - 1;
    let offset = if customers == 0 {
        0
    } else {
        random_below(customers)
    };
    let res = sweep_from(vrp_instance, offset);
    proof {
        let sorted = choose|sorted: Seq<Stop>| #[trigger]
            is_sweep_order(vrp_instance, sorted) && first_fit_outcome(
                vrp_instance,
                rotate_left(sorted, sweep_start(offset as int, sorted.len() as int)),
                res,
            );
        let start = sweep_start(offset as int, sorted.len() as int);
        assert(is_sweep_order(vrp_instance, sorted) && 0 <= start <= sorted.len()
            && first_fit_outcome(vrp_instance, rotate_left(sorted, start), res));
    }
    res
}

/// The noise that try `t` of the savings heuristic takes from `noise`: its
/// entry for the try, none past the end.
pub open spec fn noise_of_try(noise: Seq<Vec<i64>>, t: int) -> Seq<i64> {
    if 0 <= t < noise.len() {
        noise[t]@
    } else {
        Seq::empty()
    }
}

/// Whether the savings heuristic fails with the noise `noise`.
pub open spec fn savings_fails(inst: &VRPInstance, noise: Seq<i64>) -> bool {
    exists|res: Result<VRPSolution, String>| #[trigger] savings_result(inst, noise, res) && res is Err
}

/// Whether `res` is what the sweep gives from some start.
pub open spec fn sweep_result(inst: &VRPInstance, res: Result<VRPSolution, String>) -> bool {
    exists|sorted: Seq<Stop>, start: int|
        #![trigger is_sweep_order(inst, sorted), rotate_left(sorted, start)]
        is_sweep_order(inst, sorted) && 0 <= start <= sorted.len() && first_fit_outcome(
            inst,
            rotate_left(sorted, start),
            res,
        )
}

/// Whether `res` is what `try_greedy` gives.
pub open spec fn greedy_result(inst: &VRPInstance, res: Result<VRPSolution, String>) -> bool {
    exists|stops: Seq<Stop>| #[trigger]
        is_demand_order(inst, stops) && first_fit_outcome(inst, stops, res)
}

/// Whether `res` is the solution of try `t` of the savings heuristic, the
/// first to find one.
pub open spec fn first_savings_success(
    inst: &VRPInstance,
    noise: Seq<Vec<i64>>,
    res: Result<VRPSolution, String>,
    t: int,
) -> bool {
    &&& 0 <= t < 5
    &&& res is Ok
    &&& savings_result(inst, noise_of_try(noise, t), res)
    &&& forall|u: int| 0 <= u < t ==> savings_fails(inst, #[trigger] noise_of_try(noise, u))
}

/// Whether all five tries of the savings heuristic fail.
pub open spec fn all_savings_fail(inst: &VRPInstance, noise: Seq<Vec<i64>>) -> bool {
    forall|u: int| 0 <= u < 5 ==> savings_fails(inst, #[trigger] noise_of_try(noise, u))
}

/// Whether `res` is what the cascade that begins with the savings
/// heuristic gives: the solution of the first try of the savings heuristic
/// that finds one; where all five fail, a solution of the sweep or what
/// `try_greedy` gives.
pub open spec fn savings_first_result(
    inst: &VRPInstance,
    noise: Seq<Vec<i64>>,
    res: Result<VRPSolution, String>,
) -> bool {
    (exists|t: int| first_savings_success(inst, noise, res, t)) || (all_savings_fail(inst, noise)
        && ((res is Ok && sweep_result(inst, res)) || greedy_result(inst, res)))
}

/// Whether `res` is what the cascade that begins with the sweep gives: a
/// solution of the sweep, or the solution of the first try of the savings
/// heuristic that finds one, or, where all five fail, what `try_greedy` gives.
pub open spec fn sweep_first_result(
    inst: &VRPInstance,
    noise: Seq<Vec<i64>>,
    res: Result<VRPSolution, String>,
) -> bool {
    (res is Ok && sweep_result(inst, res)) || (exists|t: int|
        first_savings_success(inst, noise, res, t)) || (all_savings_fail(inst, noise)
        && greedy_result(inst, res))
}

/// Try `t` of the savings heuristic.
fn savings_try(vrp: &Arc<VRPInstance>, noise: &Vec<Vec<i64>>, t: usize) -> (res: Result<
    VRPSolution,
    String,
>)
    requires
        vrp.wf(),
    ensures
        res matches Ok(sol) ==> sol.is_valid(vrp),
        savings_result(vrp, noise_of_try(noise@, t as int), res),
{
    if t < noise.len() {
        clarke_wright(vrp, &noise[t])
    } else {
        let none: Vec<i64> = Vec::new();
        clarke_wright(vrp, &none)
    }
}

/// Whether serving the customers by descending demand, each on the first
/// vehicle with room for it, finds room for all.
pub open spec fn greedy_succeeds(inst: &VRPInstance) -> bool {
    forall|stops: Seq<Stop>| #[trigger]
        is_demand_order(inst, stops) ==> first_fit(
            stops,
            inst.num_vehicles as nat,
            inst.vehicle_capacity as int,
        ) is Some
}

/// The savings heuristic, up to five times, each with its entry of `noise`;
/// then the sweep, up to fifty times; then `try_greedy`. The first solution
/// found is the result.
///
/// Fails when all of them fail.
pub fn clarke_wright_and_then_sweep(vrp: &Arc<VRPInstance>, noise: &Vec<Vec<i64>>) -> (res: Result<
    VRPSolution,
    String,
>)
    requires
        vrp.wf(),
    ensures
        res matches Ok(sol) ==> sol.is_valid(vrp),
        greedy_succeeds(vrp) ==> res is Ok,
        savings_first_result(vrp, noise@, res),
{
    let mut t: usize = 0;
    while t < 5
        invariant
            vrp.wf(),
            t <= 5,
            forall|u: int| 0 <= u < t ==> savings_fails(vrp, #[trigger] noise_of_try(noise@, u)),
        decreases 5 - t,
    {
        let tried = savings_try(vrp, noise, t);
        match tried {
            Ok(sol) => {
                let res = Ok(sol);
                proof {
                    assert(first_savings_success(vrp, noise@, res, t as int));
                }
                return res;
            },
            Err(e) => {
                proof {
                    let failed = Err::<VRPSolution, String>(e);
                    assert(savings_result(vrp, noise_of_try(noise@, t as int), failed)
                        && failed is Err);
                }
            },
        }
        t = t + 1;
    }
    let mut u: usize = 0;
    while u < 50
        invariant
            vrp.wf(),
            u <= 50,
            all_savings_fail(vrp, noise@),
        decreases 50 - u,
    {
        let swept = sweep(vrp);
        match swept {
            Ok(sol) => {
                let res = Ok(sol);
                proof {
                    lemma_sweep_result(vrp, res);
                }
                return res;
            },
            Err(_) => {},
        }
        u = u + 1;
    }
    try_greedy(vrp)
}

/// What the sweep ensures is what `sweep_result` says.
proof fn lemma_sweep_result(inst: &VRPInstance, res: Result<VRPSolution, String>)
    requires
        exists|sorted: Seq<Stop>, start: int| #[trigger]
            is_sweep_order(inst, sorted) && 0 <= start <= sorted.len()
                && #[trigger] first_fit_outcome(inst, rotate_left(sorted, start), res),
    ensures
        sweep_result(inst, res),
{
    let (sorted, start) = choose|sorted: Seq<Stop>, start: int| #[trigger]
        is_sweep_order(inst, sorted) && 0 <= start <= sorted.len()
            && #[trigger] first_fit_outcome(inst, rotate_left(sorted, start), res);
    assert(is_sweep_order(inst, sorted) && 0 <= start <= sorted.len() && first_fit_outcome(
        inst,
        rotate_left(sorted, start),
        res,
    ));
}

/// The sweep, up to fifty times; then the savings heuristic, up to five
/// times, each with its entry of `noise`; then `try_greedy`. The first solution
/// found is the result.
///
/// Fails when all of them fail.
pub fn sweep_then_clarke_wright(vrp: &Arc<VRPInstance>, noise: &Vec<Vec<i64>>) -> (res: Result<
    VRPSolution,
    String,
>)
    requires
        vrp.wf(),
    ensures
        res matches Ok(sol) ==> sol.is_valid(vrp),
        greedy_succeeds(vrp) ==> res is Ok,
        sweep_first_result(vrp, noise@, res),
{
    let mut u: usize = 0;
    while u < 50
        invariant
            vrp.wf(),
            u <= 50,
        decreases 50 - u,
    {
        let swept = sweep(vrp);
        match swept {
            Ok(sol) => {
                let res = Ok(sol);
                proof {
                    lemma_sweep_result(vrp, res);
                }
                return res;
            },
            Err(_) => {},
        }
        u = u + 1;
    }
    let mut t: usize = 0;
    while t < 5
        invariant
            vrp.wf(),
            t <= 5,
            forall|u: int| 0 <= u < t ==> savings_fails(vrp, #[trigger] noise_of_try(noise@, u)),
        decreases 5 - t,
    {
        let tried = savings_try(vrp, noise, t);
        match tried {
            Ok(sol) => {
                let res = Ok(sol);
                proof {
                    assert(first_savings_success(vrp, noise@, res, t as int));
                }
                return res;
            },
            Err(e) => {
                proof {
                    let failed = Err::<VRPSolution, String>(e);
                    assert(savings_result(vrp, noise_of_try(noise@, t as int), failed)
                        && failed is Err);
                }
            },
        }
        t = t + 1;
    }
    try_greedy(vrp)
}

/// By how much the route `stops` grows in cost when customer `c` is served
/// at its cheapest position.
pub open spec fn best_increase(d: Seq<Seq<u32>>, stops: Seq<Stop>, c: int) -> int {
    route_cost(d, customers_of(stops).insert(best_position(d, customers_of(stops), c), c))
        - route_cost(d, customers_of(stops))
}

/// Whether route `r` has room for `stop`.
pub open spec fn has_room_for(plan: Seq<Seq<Stop>>, r: int, stop: Stop, capacity: int) -> bool {
    0 <= r < plan.len() && total_demand(plan[r]) + stop.capacity() <= capacity
}

/// Whether `r` is, among the routes with room for `stop`, the one that
/// grows least in cost when it serves the stop at its cheapest position,
/// the first of them where several grow as little.
pub open spec fn is_cheapest_route(
    d: Seq<Seq<u32>>,
    plan: Seq<Seq<Stop>>,
    stop: Stop,
    capacity: int,
    r: int,
) -> bool {
    &&& has_room_for(plan, r, stop, capacity)
    &&& forall|q: int| #[trigger]
        has_room_for(plan, q, stop, capacity) ==> best_increase(d, plan[r], stop.cust_no() as int)
            <= best_increase(d, plan[q], stop.cust_no() as int)
    &&& forall|q: int| #[trigger]
        has_room_for(plan, q, stop, capacity) && q < r ==> best_increase(
            d,
            plan[r],
            stop.cust_no() as int,
        ) < best_increase(d, plan[q], stop.cust_no() as int)
}

/// The route that `is_cheapest_route` singles out.
pub open spec fn cheapest_route(
    d: Seq<Seq<u32>>,
    plan: Seq<Seq<Stop>>,
    stop: Stop,
    capacity: int,
) -> int {
    choose|r: int| is_cheapest_route(d, plan, stop, capacity, r)
}

/// There is one cheapest route.
pub proof fn lemma_cheapest_route(
    d: Seq<Seq<u32>>,
    plan: Seq<Seq<Stop>>,
    stop: Stop,
    capacity: int,
    r: int,
)
    requires
        is_cheapest_route(d, plan, stop, capacity, r),
    ensures
        cheapest_route(d, plan, stop, capacity) == r,
{
    let q = cheapest_route(d, plan, stop, capacity);
    assert(is_cheapest_route(d, plan, stop, capacity, q));
    assert(has_room_for(plan, q, stop, capacity));
    assert(has_room_for(plan, r, stop, capacity));
}

/// The routes that come of serving each stop, in turn, on its cheapest
/// route at its cheapest position; `None` if some stop finds no room.
pub open spec fn cheapest_fit(
    d: Seq<Seq<u32>>,
    plan: Seq<Seq<Stop>>,
    stops: Seq<Stop>,
    capacity: int,
) -> Option<Seq<Seq<Stop>>>
    decreases stops.len(),
{
    if stops.len() == 0 {
        Some(plan)
    } else {
        match cheapest_fit(d, plan, stops.drop_last(), capacity) {
            None => None,
            Some(mid) => if exists|q: int| has_room_for(mid, q, stops.last(), capacity) {
                let r = cheapest_route(d, mid, stops.last(), capacity);
                let p = best_position(d, customers_of(mid[r]), stops.last().cust_no() as int);
                Some(mid.update(r, mid[r].insert(p, stops.last())))
            } else {
                None
            },
        }
    }
}

/// One more stop goes on its cheapest route at its cheapest position.
pub proof fn lemma_cheapest_fit_step(
    d: Seq<Seq<u32>>,
    plan: Seq<Seq<Stop>>,
    stops: Seq<Stop>,
    capacity: int,
    mid: Seq<Seq<Stop>>,
    r: int,
)
    requires
        stops.len() > 0,
        cheapest_fit(d, plan, stops.drop_last(), capacity) == Some(mid),
        is_cheapest_route(d, mid, stops.last(), capacity, r),
    ensures
        cheapest_fit(d, plan, stops, capacity) == Some(
            mid.update(
                r,
                mid[r].insert(
                    best_position(d, customers_of(mid[r]), stops.last().cust_no() as int),
                    stops.last(),
                ),
            ),
        ),
{
    lemma_cheapest_route(d, mid, stops.last(), capacity, r);
    assert(has_room_for(mid, r, stops.last(), capacity));
}

/// Once a stop has found no room, the stops after it change nothing.
pub proof fn lemma_cheapest_fit_stuck(
    d: Seq<Seq<u32>>,
    plan: Seq<Seq<Stop>>,
    stops: Seq<Stop>,
    k: int,
    capacity: int,
)
    requires
        0 <= k <= stops.len(),
        cheapest_fit(d, plan, stops.take(k), capacity) is None,
    ensures
        cheapest_fit(d, plan, stops, capacity) is None,
    decreases stops.len(),
{
    if k == stops.len() {
        assert(stops.take(k) =~= stops);
    } else {
        assert(stops.drop_last().take(k) =~= stops.take(k));
        lemma_cheapest_fit_stuck(d, plan, stops.drop_last(), k, capacity);
    }
}

/// Whether cheapest insertion of `stops` ends as `res` says: with its
/// routes, or in failure where some stop finds no room.
pub open spec fn cheapest_fit_outcome(
    inst: &VRPInstance,
    stops: Seq<Stop>,
    res: Result<VRPSolution, String>,
) -> bool {
    match res {
        Ok(sol) => cheapest_fit(
            inst.distance_matrix@,
            empty_plan(inst.num_vehicles as nat),
            stops,
            inst.vehicle_capacity as int,
        ) == Some(sol.plan()),
        Err(_) => cheapest_fit(
            inst.distance_matrix@,
            empty_plan(inst.num_vehicles as nat),
            stops,
            inst.vehicle_capacity as int,
        ) is None,
    }
}

/// The route and the position where `stop` raises the cost of `sol` least,
/// among the routes with room for it, the first such route where several
/// raise it as little, at its cheapest position; `None` where no route has
/// room.
pub fn cheapest_spot(vrp_instance: &Arc<VRPInstance>, sol: &VRPSolution, stop: &Stop) -> (best:
    Option<(usize, usize)>)
    requires
        vrp_instance.wf(),
        sol.wf(vrp_instance),
        1 <= stop.cust_no() < vrp_instance.num_customers,
    ensures
        match best {
            Some(spot) => {
                &&& is_cheapest_route(
                    vrp_instance.distance_matrix@,
                    sol.plan(),
                    *stop,
                    vrp_instance.vehicle_capacity as int,
                    spot.0 as int,
                )
                &&& spot.1 == best_position(
                    vrp_instance.distance_matrix@,
                    customers_of(sol.plan()[spot.0 as int]),
                    stop.cust_no() as int,
                )
                &&& spot.0 < sol.routes@.len()
                &&& spot.1 <= sol.routes@[spot.0 as int]@.len()
                &&& sol.routes@[spot.0 as int].spec_used_capacity() + stop.capacity()
                    <= vrp_instance.vehicle_capacity
            },
            None => forall|q: int|
                !has_room_for(sol.plan(), q, *stop, vrp_instance.vehicle_capacity as int),
        },
{
    let ghost plan = sol.plan();
    let ghost c = stop.cust_no() as int;
    let ghost d = vrp_instance.distance_matrix@;
    let ghost cap = vrp_instance.vehicle_capacity as int;
    let mut best: Option<(usize, usize)> = None;
    let mut best_cost_delta: i64 = 0;
    let mut vehicle_idx: usize = 0;
    while vehicle_idx < sol.routes.len()
        invariant
            vrp_instance.wf(),
            sol.wf(vrp_instance),
            1 <= stop.cust_no() < vrp_instance.num_customers,
            c == stop.cust_no(),
            d == vrp_instance.distance_matrix@,
            cap == vrp_instance.vehicle_capacity,
            plan == sol.plan(),
            vehicle_idx <= sol.routes@.len(),
            best matches Some(spot) ==> spot.0 < vehicle_idx && spot.1
                <= sol.routes@[spot.0 as int]@.len()
                && sol.routes@[spot.0 as int].spec_used_capacity() + stop.capacity()
                <= vrp_instance.vehicle_capacity && spot.1 == best_position(
                d,
                customers_of(plan[spot.0 as int]),
                c,
            ) && best_cost_delta == best_increase(d, plan[spot.0 as int], c),
            best matches Some(spot) ==> forall|q: int| #[trigger]
                has_room_for(plan, q, *stop, cap) && q < vehicle_idx ==> best_cost_delta
                    <= best_increase(d, plan[q], c),
            best matches Some(spot) ==> forall|q: int| #[trigger]
                has_room_for(plan, q, *stop, cap) && q < spot.0 ==> best_cost_delta
                    < best_increase(d, plan[q], c),
            best is None ==> forall|q: int| #[trigger]
                has_room_for(plan, q, *stop, cap) ==> q >= vehicle_idx,
        decreases sol.routes@.len() - vehicle_idx,
    {
        let route = &sol.routes[vehicle_idx];
        proof {
            assert(route.wf());
            assert(plan[vehicle_idx as int] == route@);
            route.lemma_load();
            route.lemma_bounds();
            crate::route::lemma_route_cost_insert(
                vrp_instance.distance_matrix@,
                route.customers(),
                0,
                stop.cust_no() as int,
            );
        }
        let ((cost, feasible), stop_idx) = route.speculative_add_best(stop);
        proof {
            crate::route::lemma_route_cost_insert(
                vrp_instance.distance_matrix@,
                route.customers(),
                stop_idx as int,
                stop.cust_no() as int,
            );
            crate::route::lemma_walk_cost_bounds(
                vrp_instance.distance_matrix@,
                crate::route::tour(
                    route.customers().insert(stop_idx as int, stop.cust_no() as int),
                ),
            );
            assert((route@.len() + 3) * 0xffff_ffff <= 0x1_0001 * 0xffff_ffff)
                by (nonlinear_arith)
                requires
                    route@.len() + 3 <= 0x1_0001,
            ;
        }
        let delta: i64 = cost as i64 - route.cost() as i64;
        let better = match best {
            None => true,
            Some(_) => delta < best_cost_delta,
        };
        if feasible && better {
            best_cost_delta = delta;
            best = Some((vehicle_idx, stop_idx));
        }
        vehicle_idx = vehicle_idx + 1;
    }
    proof {
        match best {
            Some(spot) => {
                assert(sol.routes@[spot.0 as int].wf());
                sol.routes@[spot.0 as int].lemma_load();
                assert(plan[spot.0 as int] == sol.routes@[spot.0 as int]@);
                assert(has_room_for(plan, spot.0 as int, *stop, cap));
                assert(is_cheapest_route(d, plan, *stop, cap, spot.0 as int));
            },
            None => {
                assert forall|q: int| !has_room_for(plan, q, *stop, cap) by {
                    if has_room_for(plan, q, *stop, cap) {
                        assert(q >= vehicle_idx);
                    }
                }
            },
        }
    }
    best
}

/// Serves each of `stops`, in turn, on the route and at the position where
/// it raises the cost least among the routes with room for it, the first of
/// them where several raise it as little.
///
/// Fails at the first stop that finds no room on any route.
pub fn insert_each_cheapest(vrp_instance: &Arc<VRPInstance>, stops: &Vec<Stop>) -> (res: Result<
    VRPSolution,
    String,
>)
    requires
        vrp_instance.wf(),
        stops_of_instance(vrp_instance, stops@),
        customers_of(stops@).no_duplicates(),
    ensures
        res matches Ok(sol) ==> {
            &&& sol.wf(vrp_instance)
            &&& sol.routes@.len() == vrp_instance.num_vehicles
            &&& sol.routes_disjoint()
            &&& sol.within_capacity(vrp_instance)
            &&& sol.true_demands(vrp_instance)
            &&& forall|c: int| sol.serves(c) <==> customers_of(stops@).contains(c)
        },
        cheapest_fit_outcome(vrp_instance, stops@, res),
{
    let mut sol = VRPSolution::new(vrp_instance);
    let ghost custs = customers_of(stops@);
    let ghost d = vrp_instance.distance_matrix@;
    let ghost cap = vrp_instance.vehicle_capacity as int;
    let ghost start = empty_plan(vrp_instance.num_vehicles as nat);
    proof {
        assert(sol.plan() =~~= start);
        assert(stops@.take(0) =~= Seq::<Stop>::empty());
        assert forall|c: int| !sol.serves(c) by {
            if sol.serves(c) {
                let q = choose|q: int|
                    0 <= q < sol.routes@.len() && (#[trigger] sol.routes@[q]).serves(c);
                assert(sol.routes@[q]@.len() == 0);
                assert(sol.routes@[q].customers().len() == 0);
            }
        }
        assert forall|r: int| 0 <= r < sol.routes@.len() implies (
        #[trigger] sol.routes@[r]).spec_used_capacity() <= vrp_instance.vehicle_capacity by {
            assert(sol.routes@[r]@.len() == 0);
        }
    }
    let mut k: usize = 0;
    while k < stops.len()
        invariant
            vrp_instance.wf(),
            stops_of_instance(vrp_instance, stops@),
            custs == customers_of(stops@),
            custs.no_duplicates(),
            k <= stops@.len(),
            sol.wf(vrp_instance),
            sol.routes@.len() == vrp_instance.num_vehicles,
            sol.routes_disjoint(),
            sol.within_capacity(vrp_instance),
            sol.true_demands(vrp_instance),
            forall|c: int| sol.serves(c) <==> custs.take(k as int).contains(c),
            d == vrp_instance.distance_matrix@,
            cap == vrp_instance.vehicle_capacity,
            start == empty_plan(vrp_instance.num_vehicles as nat),
            cheapest_fit(d, start, stops@.take(k as int), cap) == Some(sol.plan()),
        decreases stops@.len() - k,
    {
        let stop = stops[k];
        let ghost plan = sol.plan();
        let ghost c = stop.cust_no() as int;
        let best = cheapest_spot(vrp_instance, &sol, &stop);
        proof {
            assert(stops@.take(k + 1).drop_last() =~= stops@.take(k as int));
            assert(stops@.take(k + 1).last() == stop);
        }
        let (best_vehicle_idx, best_stop_idx) = match best {
            Some(spot) => spot,
            None => {
                proof {
                    assert(!exists|q: int| has_room_for(plan, q, stop, cap));
                    lemma_cheapest_fit_stuck(d, start, stops@, k + 1, cap);
                }
                return Err("could not insert customer".to_string());
            },
        };
        proof {
            assert(sol.routes@[best_vehicle_idx as int].wf());
            sol.routes@[best_vehicle_idx as int].lemma_load();
            assert(plan[best_vehicle_idx as int] == sol.routes@[best_vehicle_idx as int]@);
            assert(has_room_for(plan, best_vehicle_idx as int, stop, cap));
            assert(is_cheapest_route(d, plan, stop, cap, best_vehicle_idx as int));
            lemma_cheapest_route(d, plan, stop, cap, best_vehicle_idx as int);
            assert(custs[k as int] == stop.cust_no());
            if custs.take(k as int).contains(stop.cust_no() as int) {
                let j = choose|j: int|
                    0 <= j < custs.take(k as int).len() && custs.take(k as int)[j]
                        == stop.cust_no() as int;
                assert(custs[j] == custs[k as int]);
            }
        }
        sol.add_stop(best_vehicle_idx, stop, best_stop_idx);
        proof {
            let grown = plan.update(
                best_vehicle_idx as int,
                plan[best_vehicle_idx as int].insert(best_stop_idx as int, stop),
            );
            assert(sol.plan() =~= grown);
            let next = stops@.take(k + 1);
            lemma_cheapest_fit_step(d, start, next, cap, plan, best_vehicle_idx as int);
            assert(custs.take(k + 1) =~= custs.take(k as int).push(stop.cust_no() as int));
            assert forall|c: int| sol.serves(c) <==> custs.take(k + 1).contains(c) by {
                lemma_insert_contains(custs.take(k as int), k as int, stop.cust_no() as int, c);
                assert(custs.take(k as int).insert(k as int, stop.cust_no() as int) =~= custs.take(
                    k + 1,
                ));
            }
        }
        k = k + 1;
    }
    proof {
        assert(custs.take(k as int) =~= custs);
        assert(stops@.take(k as int) =~= stops@);
    }
    Ok(sol)
}

/// Serves the customers in a random order, each on the route and at the
/// position where it raises the cost least.
///
/// Fails when some customer finds no room on any route.
pub fn cheapest_insertion(vrp_instance: &Arc<VRPInstance>) -> (res: Result<VRPSolution, String>)
    requires
        vrp_instance.wf(),
    ensures
        res matches Ok(sol) ==> sol.is_valid(vrp_instance),
        exists|stops: Seq<Stop>| #[trigger]
            all_customers(vrp_instance, stops) && cheapest_fit_outcome(vrp_instance, stops, res),
{
    let n = vrp_instance.num_customers;
    let mut customer_nos: Vec<usize> = Vec::new();
    let mut c: usize = 1;
    while c < n
        invariant
            1 <= c <= n,
            customer_nos@.len() == c - 1,
            forall|j: int| 0 <= j < customer_nos@.len() ==> #[trigger] customer_nos@[j] == j + 1,
        decreases n - c,
    {
        customer_nos.push(c);
        c = c + 1;
    }
    let ghost listed = customer_nos@;
    shuffle(&mut customer_nos);
    proof {
        let perm = choose|perm: Seq<int>| #[trigger] is_reordering(listed, customer_nos@, perm);
        lemma_reordering(listed, customer_nos@, perm);
        assert(listed.no_duplicates());
        assert forall|j: int| 0 <= j < customer_nos@.len() implies 1 <= #[trigger] customer_nos@[j]
            < n by {
            assert(customer_nos@.contains(customer_nos@[j]));
            let a = choose|a: int| 0 <= a < listed.len() && listed[a] == customer_nos@[j];
        }
    }
    let stops = make_stops(vrp_instance, &customer_nos);
    proof {
        let cs = customers_of(stops@);
        assert forall|a: int, b: int| 0 <= a < cs.len() && 0 <= b < cs.len() && a != b implies cs[a]
            != cs[b] by {
            assert(stops@[a].cust_no() == customer_nos@[a]);
            assert(stops@[b].cust_no() == customer_nos@[b]);
        }
        assert forall|x: int| 1 <= x < vrp_instance.num_customers implies #[trigger] cs.contains(
            x,
        ) by {
            assert(listed[x - 1] == x as usize);
            assert(listed.contains(x as usize));
            assert(customer_nos@.contains(x as usize));
            let j = choose|j: int| 0 <= j < customer_nos@.len() && customer_nos@[j] == x as usize;
            assert(stops@[j].cust_no() == customer_nos@[j]);
            assert(cs[j] == x);
        }
    }
    let res = insert_each_cheapest(vrp_instance, &stops);
    proof {
        if res is Ok {
            lemma_all_served_is_valid(vrp_instance, stops@, &res->Ok_0);
        }
        assert(all_customers(vrp_instance, stops@) && cheapest_fit_outcome(
            vrp_instance,
            stops@,
            res,
        ));
    }
    res
}

} // verus!
