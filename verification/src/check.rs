use vstd::prelude::*;
use crate::format::{parse_routes, parsed_routes};
use crate::route::{lemma_walk_cost_bounds, route_cost, tour, walk_cost};
use crate::solver::NOTICEABLE;
use crate::vrp_instance::VRPInstance;

verus! {

/// Why a solution text does not stand up to the instance.
#[derive(Debug, Clone, Copy, PartialEq, Eq, Structural)]
pub enum CheckError {
    /// A word of the text is no number.
    Malformed,
    /// A number is not the number of a customer.
    UnknownCustomer,
    /// A customer is visited twice.
    ServedTwice,
    /// A customer is not visited.
    Unserved,
    /// A route demands more than a vehicle holds.
    OverCapacity,
    /// The routes cost noticeably more than claimed.
    CostTooHigh,
}

/// The customer at place `i` of route `r`.
pub open spec fn entry(routes: Seq<Seq<nat>>, r: int, i: int) -> nat {
    routes[r][i]
}

/// Whether `(r, i)` is a place of `routes`.
pub open spec fn is_place(routes: Seq<Seq<nat>>, r: int, i: int) -> bool {
    0 <= r < routes.len() && 0 <= i < routes[r].len()
}

/// Whether place `(r1, i1)` comes before place `(r, i)`.
pub open spec fn place_before(r1: int, i1: int, r: int, i: int) -> bool {
    r1 < r || (r1 == r && i1 < i)
}

/// Every number is the number of a customer other than the depot.
pub open spec fn all_known(inst: &VRPInstance, routes: Seq<Seq<nat>>) -> bool {
    forall|r: int, i: int|
        is_place(routes, r, i) ==> 1 <= #[trigger] entry(routes, r, i) < inst.num_customers
}

/// No customer is visited twice.
pub open spec fn all_once(routes: Seq<Seq<nat>>) -> bool {
    forall|r1: int, i1: int, r2: int, i2: int|
        is_place(routes, r1, i1) && is_place(routes, r2, i2) && (r1 != r2 || i1 != i2)
            ==> #[trigger] entry(routes, r1, i1) != #[trigger] entry(routes, r2, i2)
}

/// Customer `c` is visited.
pub open spec fn visited(routes: Seq<Seq<nat>>, c: nat) -> bool {
    exists|r: int, i: int| is_place(routes, r, i) && #[trigger] entry(routes, r, i) == c
}

/// Every customer other than the depot is visited.
pub open spec fn all_visited(inst: &VRPInstance, routes: Seq<Seq<nat>>) -> bool {
    forall|c: nat| 1 <= c < inst.num_customers ==> #[trigger] visited(routes, c)
}

/// The demand of the customers `route`.
pub open spec fn load(inst: &VRPInstance, route: Seq<nat>) -> int
    decreases route.len(),
{
    if route.len() == 0 {
        0
    } else {
        load(inst, route.drop_last()) + inst.spec_demand(route.last() as int)
    }
}

/// No route demands more than a vehicle holds.
pub open spec fn loads_fit(inst: &VRPInstance, routes: Seq<Seq<nat>>) -> bool {
    forall|r: int|
        0 <= r < routes.len() ==> load(inst, #[trigger] routes[r]) <= inst.vehicle_capacity
}

/// The customers `route` as integers.
pub open spec fn as_ints(route: Seq<nat>) -> Seq<int> {
    Seq::new(route.len(), |i: int| route[i] as int)
}

/// The cost of the routes, by the distance matrix.
pub open spec fn routes_cost(inst: &VRPInstance, routes: Seq<Seq<nat>>) -> int
    decreases routes.len(),
{
    if routes.len() == 0 {
        0
    } else {
        routes_cost(inst, routes.drop_last()) + route_cost(
            inst.distance_matrix@,
            as_ints(routes.last()),
        )
    }
}

/// What the check makes of `text`: the first of the faults that it has, in
/// the order of `CheckError`, or none.
pub open spec fn verdict(inst: &VRPInstance, text: Seq<u8>, claimed_cost: nat) -> Result<
    (),
    CheckError,
> {
    match parsed_routes(text) {
        None => Err(CheckError::Malformed),
        Some(routes) => if !all_known(inst, routes) {
            Err(CheckError::UnknownCustomer)
        } else if !all_once(routes) {
            Err(CheckError::ServedTwice)
        } else if !all_visited(inst, routes) {
            Err(CheckError::Unserved)
        } else if !loads_fit(inst, routes) {
            Err(CheckError::OverCapacity)
        } else if routes_cost(inst, routes) > claimed_cost + NOTICEABLE {
            Err(CheckError::CostTooHigh)
        } else {
            Ok(())
        },
    }
}

/// The routes of `routes` as sequences of numbers.
pub open spec fn view_routes(routes: Seq<Vec<u64>>) -> Seq<Seq<nat>> {
    Seq::new(routes.len(), |r: int| Seq::new(routes[r]@.len(), |i: int| routes[r]@[i] as nat))
}

/// Whether every number is the number of a customer other than the depot.
fn check_known(instance: &VRPInstance, routes: &Vec<Vec<u64>>) -> (ok: bool)
    ensures
        ok == all_known(instance, view_routes(routes@)),
{
    let ghost rs = view_routes(routes@);
    let mut r: usize = 0;
    while r < routes.len()
        invariant
            r <= routes@.len(),
            rs == view_routes(routes@),
            forall|r1: int, i1: int|
                is_place(rs, r1, i1) && r1 < r ==> 1 <= #[trigger] entry(rs, r1, i1)
                    < instance.num_customers,
        decreases routes@.len() - r,
    {
        let mut i: usize = 0;
        while i < routes[r].len()
            invariant
                r < routes@.len(),
                i <= routes@[r as int]@.len(),
                rs == view_routes(routes@),
                forall|r1: int, i1: int|
                    is_place(rs, r1, i1) && place_before(r1, i1, r as int, i as int) ==> 1
                        <= #[trigger] entry(rs, r1, i1) < instance.num_customers,
            decreases routes@[r as int]@.len() - i,
        {
            let c = routes[r][i];
            if c < 1 || c >= instance.num_customers as u64 {
                proof {
                    assert(is_place(rs, r as int, i as int));
                    assert(entry(rs, r as int, i as int) == c);
                }
                return false;
            }
            i = i + 1;
        }
        r = r + 1;
    }
    true
}

/// Whether no customer is visited twice, and then whether every customer
/// is visited.
fn check_visits(instance: &VRPInstance, routes: &Vec<Vec<u64>>) -> (res: Result<(), CheckError>)
    requires
        instance.wf(),
        all_known(instance, view_routes(routes@)),
    ensures
        res == if !all_once(view_routes(routes@)) {
            Err::<(), CheckError>(CheckError::ServedTwice)
        } else if !all_visited(instance, view_routes(routes@)) {
            Err(CheckError::Unserved)
        } else {
            Ok(())
        },
{
    let ghost rs = view_routes(routes@);
    let n = instance.num_customers;
    let mut seen: Vec<bool> = Vec::new();
    let mut c: usize = 0;
    while c < n
        invariant
            c <= n,
            seen@.len() == c,
            forall|j: int| 0 <= j < c ==> !#[trigger] seen@[j],
        decreases n - c,
    {
        seen.push(false);
        c = c + 1;
    }
    let mut r: usize = 0;
    while r < routes.len()
        invariant
            n == instance.num_customers,
            r <= routes@.len(),
            rs == view_routes(routes@),
            all_known(instance, rs),
            seen@.len() == n,
            forall|v: int|
                0 <= v < n ==> (#[trigger] seen@[v] <==> exists|r1: int, i1: int|
                    is_place(rs, r1, i1) && r1 < r && #[trigger] entry(rs, r1, i1) == v),
            forall|r1: int, i1: int, r2: int, i2: int|
                is_place(rs, r1, i1) && is_place(rs, r2, i2) && r1 < r && r2 < r && (r1 != r2 || i1
                    != i2) ==> #[trigger] entry(rs, r1, i1) != #[trigger] entry(rs, r2, i2),
        decreases routes@.len() - r,
    {
        let mut i: usize = 0;
        while i < routes[r].len()
            invariant
                n == instance.num_customers,
                r < routes@.len(),
                i <= routes@[r as int]@.len(),
                rs == view_routes(routes@),
                all_known(instance, rs),
                seen@.len() == n,
                forall|v: int|
                    0 <= v < n ==> (#[trigger] seen@[v] <==> exists|r1: int, i1: int|
                        is_place(rs, r1, i1) && place_before(r1, i1, r as int, i as int)
                            && #[trigger] entry(rs, r1, i1) == v),
                forall|r1: int, i1: int, r2: int, i2: int|
                    is_place(rs, r1, i1) && is_place(rs, r2, i2) && place_before(
                        r1,
                        i1,
                        r as int,
                        i as int,
                    ) && place_before(r2, i2, r as int, i as int) && (r1 != r2 || i1 != i2)
                        ==> #[trigger] entry(rs, r1, i1) != #[trigger] entry(rs, r2, i2),
            decreases routes@[r as int]@.len() - i,
        {
            let v = routes[r][i] as usize;
            proof {
                assert(is_place(rs, r as int, i as int));
                assert(entry(rs, r as int, i as int) == v);
            }
            if seen[v] {
                proof {
                    let (r1, i1) = choose|r1: int, i1: int|
                        is_place(rs, r1, i1) && place_before(r1, i1, r as int, i as int)
                            && #[trigger] entry(rs, r1, i1) == v;
                    assert(entry(rs, r1, i1) == entry(rs, r as int, i as int));
                }
                return Err(CheckError::ServedTwice);
            }
            let ghost before = seen@;
            seen.set(v, true);
            proof {
                assert forall|w: int| 0 <= w < n implies (#[trigger] seen@[w] <==> exists|
                    r1: int,
                    i1: int,
                |
                    is_place(rs, r1, i1) && place_before(r1, i1, r as int, i + 1)
                        && #[trigger] entry(rs, r1, i1) == w) by {
                    if w == v {
                        assert(is_place(rs, r as int, i as int) && place_before(
                            r as int,
                            i as int,
                            r as int,
                            i + 1,
                        ) && entry(rs, r as int, i as int) == w);
                    } else {
                        if before[w] {
                            let (r1, i1) = choose|r1: int, i1: int|
                                is_place(rs, r1, i1) && place_before(r1, i1, r as int, i as int)
                                    && #[trigger] entry(rs, r1, i1) == w;
                            assert(place_before(r1, i1, r as int, i + 1));
                        }
                        if exists|r1: int, i1: int|
                            is_place(rs, r1, i1) && place_before(r1, i1, r as int, i + 1)
                                && #[trigger] entry(rs, r1, i1) == w {
                            let (r1, i1) = choose|r1: int, i1: int|
                                is_place(rs, r1, i1) && place_before(r1, i1, r as int, i + 1)
                                    && #[trigger] entry(rs, r1, i1) == w;
                            assert(place_before(r1, i1, r as int, i as int));
                        }
                    }
                }
                assert forall|r1: int, i1: int, r2: int, i2: int|
                    is_place(rs, r1, i1) && is_place(rs, r2, i2) && place_before(
                        r1,
                        i1,
                        r as int,
                        i + 1,
                    ) && place_before(r2, i2, r as int, i + 1) && (r1 != r2 || i1
                        != i2) implies #[trigger] entry(rs, r1, i1) != #[trigger] entry(
                    rs,
                    r2,
                    i2,
                ) by {
                    if r1 == r && i1 == i {
                        if entry(rs, r2, i2) == v {
                            assert(place_before(r2, i2, r as int, i as int));
                            assert(before[v as int]);
                        }
                    } else if r2 == r && i2 == i {
                        if entry(rs, r1, i1) == v {
                            assert(place_before(r1, i1, r as int, i as int));
                            assert(before[v as int]);
                        }
                    }
                }
            }
            i = i + 1;
        }
        proof {
            assert forall|v: int| 0 <= v < n implies (#[trigger] seen@[v] <==> exists|
                r1: int,
                i1: int,
            | is_place(rs, r1, i1) && r1 < r + 1 && #[trigger] entry(rs, r1, i1) == v) by {
                if seen@[v] {
                    let (r1, i1) = choose|r1: int, i1: int|
                        is_place(rs, r1, i1) && place_before(r1, i1, r as int, i as int)
                            && #[trigger] entry(rs, r1, i1) == v;
                    assert(r1 < r + 1);
                }
                if exists|r1: int, i1: int|
                    is_place(rs, r1, i1) && r1 < r + 1 && #[trigger] entry(rs, r1, i1) == v {
                    let (r1, i1) = choose|r1: int, i1: int|
                        is_place(rs, r1, i1) && r1 < r + 1 && #[trigger] entry(rs, r1, i1) == v;
                    assert(place_before(r1, i1, r as int, i as int));
                }
            }
            assert forall|r1: int, i1: int, r2: int, i2: int|
                is_place(rs, r1, i1) && is_place(rs, r2, i2) && r1 < r + 1 && r2 < r + 1 && (r1
                    != r2 || i1 != i2) implies #[trigger] entry(rs, r1, i1) != #[trigger] entry(
                rs,
                r2,
                i2,
            ) by {
                assert(place_before(r1, i1, r as int, i as int));
                assert(place_before(r2, i2, r as int, i as int));
            }
        }
        r = r + 1;
    }
    let mut c: usize = 1;
    while c < n
        invariant
            n == instance.num_customers,
            1 <= c,
            seen@.len() == n,
            rs == view_routes(routes@),
            all_once(rs),
            forall|v: int|
                0 <= v < n ==> (#[trigger] seen@[v] <==> exists|r1: int, i1: int|
                    is_place(rs, r1, i1) && #[trigger] entry(rs, r1, i1) == v),
            forall|v: nat| 1 <= v < c && v < n ==> #[trigger] visited(rs, v),
        decreases n - c,
    {
        if !seen[c] {
            proof {
                assert(!visited(rs, c as nat));
            }
            return Err(CheckError::Unserved);
        }
        proof {
            assert(seen@[c as int]);
        }
        c = c + 1;
    }
    Ok(())
}

/// The first customers of a route demand no more than all of them.
pub proof fn lemma_load_prefix(inst: &VRPInstance, route: Seq<nat>, k: int)
    requires
        0 <= k <= route.len(),
    ensures
        0 <= load(inst, route.take(k)) <= load(inst, route),
    decreases route.len(),
{
    if k == route.len() {
        assert(route.take(k) =~= route);
        if k > 0 {
            lemma_load_prefix(inst, route.drop_last(), k - 1);
        }
    } else {
        assert(route.drop_last().take(k) =~= route.take(k));
        lemma_load_prefix(inst, route.drop_last(), k);
    }
}

/// Whether no route demands more than a vehicle holds.
fn check_loads(instance: &VRPInstance, routes: &Vec<Vec<u64>>) -> (ok: bool)
    requires
        instance.wf(),
        all_known(instance, view_routes(routes@)),
    ensures
        ok == loads_fit(instance, view_routes(routes@)),
{
    let ghost rs = view_routes(routes@);
    let mut r: usize = 0;
    while r < routes.len()
        invariant
            instance.wf(),
            r <= routes@.len(),
            rs == view_routes(routes@),
            all_known(instance, rs),
            forall|q: int| 0 <= q < r ==> load(instance, #[trigger] rs[q]) <= instance.vehicle_capacity,
        decreases routes@.len() - r,
    {
        let mut used: usize = 0;
        let mut i: usize = 0;
        proof {
            assert(rs[r as int].take(0) =~= Seq::<nat>::empty());
        }
        while i < routes[r].len()
            invariant
                instance.wf(),
                r < routes@.len(),
                i <= routes@[r as int]@.len(),
                rs == view_routes(routes@),
                all_known(instance, rs),
                used == load(instance, rs[r as int].take(i as int)),
                used <= instance.vehicle_capacity,
            decreases routes@[r as int]@.len() - i,
        {
            proof {
                assert(is_place(rs, r as int, i as int));
                assert(1 <= entry(rs, r as int, i as int) < instance.num_customers);
                assert(rs[r as int].take(i + 1).drop_last() =~= rs[r as int].take(i as int));
                assert(rs[r as int].take(i + 1).last() == routes@[r as int]@[i as int]);
            }
            let demand = instance.demand_of_customer[routes[r][i] as usize];
            if demand > instance.vehicle_capacity - used {
                proof {
                    lemma_load_prefix(instance, rs[r as int], i + 1);
                }
                return false;
            }
            used = used + demand;
            i = i + 1;
        }
        proof {
            assert(rs[r as int].take(i as int) =~= rs[r as int]);
        }
        r = r + 1;
    }
    true
}

/// The first routes cost no more than all of them.
pub proof fn lemma_routes_cost_prefix(inst: &VRPInstance, routes: Seq<Seq<nat>>, k: int)
    requires
        0 <= k <= routes.len(),
    ensures
        0 <= routes_cost(inst, routes.take(k)) <= routes_cost(inst, routes),
    decreases routes.len(),
{
    if routes.len() > 0 {
        lemma_walk_cost_bounds(inst.distance_matrix@, tour(as_ints(routes.last())));
    }
    if k == routes.len() {
        assert(routes.take(k) =~= routes);
        if k > 0 {
            lemma_routes_cost_prefix(inst, routes.drop_last(), k - 1);
        }
    } else {
        assert(routes.drop_last().take(k) =~= routes.take(k));
        lemma_routes_cost_prefix(inst, routes.drop_last(), k);
    }
}

/// The first legs of a walk are no longer than the walk.
pub proof fn lemma_walk_cost_prefix(d: Seq<Seq<u32>>, walk: Seq<int>, k: int)
    requires
        0 <= k <= walk.len(),
    ensures
        0 <= walk_cost(d, walk.take(k)) <= walk_cost(d, walk),
    decreases walk.len(),
{
    if k == walk.len() {
        assert(walk.take(k) =~= walk);
        lemma_walk_cost_bounds(d, walk);
    } else {
        assert(walk.drop_last().take(k) =~= walk.take(k));
        lemma_walk_cost_prefix(d, walk.drop_last(), k);
    }
}

/// Whether the routes cost no more than `limit`.
fn check_cost(instance: &VRPInstance, routes: &Vec<Vec<u64>>, limit: u128) -> (ok: bool)
    requires
        instance.wf(),
        all_known(instance, view_routes(routes@)),
        limit <= 0x1_0000_0000_0000_0000_0000,
    ensures
        ok == (routes_cost(instance, view_routes(routes@)) <= limit),
{
    let ghost rs = view_routes(routes@);
    let ghost d = instance.distance_matrix@;
    let mut total: u128 = 0;
    let mut r: usize = 0;
    proof {
        assert(rs.take(0) =~= Seq::<Seq<nat>>::empty());
    }
    while r < routes.len()
        invariant
            instance.wf(),
            d == instance.distance_matrix@,
            r <= routes@.len(),
            rs == view_routes(routes@),
            all_known(instance, rs),
            limit <= 0x1_0000_0000_0000_0000_0000,
            total == routes_cost(instance, rs.take(r as int)),
            total <= limit,
        decreases routes@.len() - r,
    {
        let ghost route = as_ints(rs[r as int]);
        let ghost base = total;
        let mut prev: usize = 0;
        let mut i: usize = 0;
        proof {
            assert(rs.take(r + 1).drop_last() =~= rs.take(r as int));
            assert(rs.take(r + 1).last() == rs[r as int]);
            assert(tour(route).take(1) =~= seq![0int]);
            lemma_routes_cost_prefix(instance, rs, r + 1);
        }
        while i < routes[r].len()
            invariant
                instance.wf(),
                d == instance.distance_matrix@,
                r < routes@.len(),
                rs == view_routes(routes@),
                route == as_ints(rs[r as int]),
                all_known(instance, rs),
                limit <= 0x1_0000_0000_0000_0000_0000,
                i <= routes@[r as int]@.len(),
                prev < instance.num_customers,
                prev == tour(route)[i as int],
                total == base + walk_cost(d, tour(route).take(i + 1)),
                total <= limit,
                base == routes_cost(instance, rs.take(r as int)),
                routes_cost(instance, rs.take(r + 1)) == base + route_cost(d, route),
                routes_cost(instance, rs.take(r + 1)) <= routes_cost(instance, rs),
            decreases routes@[r as int]@.len() - i,
        {
            proof {
                assert(is_place(rs, r as int, i as int));
                assert(1 <= entry(rs, r as int, i as int) < instance.num_customers);
                let w = tour(route).take(i + 2);
                assert(w.drop_last() =~= tour(route).take(i + 1));
                assert(w.last() == route[i as int]);
                assert(w[w.len() - 2] == prev);
            }
            let c = routes[r][i] as usize;
            let leg = instance.distance_matrix.dist(prev, c) as u128;
            if total + leg > limit {
                proof {
                    lemma_walk_cost_prefix(d, tour(route), i + 2);
                }
                return false;
            }
            total = total + leg;
            prev = c;
            i = i + 1;
        }
        if routes[r].len() > 0 {
            proof {
                let w = tour(route);
                assert(w.drop_last() =~= w.take(i + 1));
                assert(w[w.len() - 2] == prev);
                assert(w.last() == 0);
            }
            let leg = instance.distance_matrix.dist(prev, 0) as u128;
            if total + leg > limit {
                return false;
            }
            total = total + leg;
        } else {
            proof {
                assert(walk_cost(d, tour(route).take(1)) == 0);
            }
        }
        r = r + 1;
    }
    proof {
        assert(rs.take(r as int) =~= rs);
    }
    true
}

/// Holds the solution text `text` against `instance`: every word a number,
/// every number a customer, every customer visited once, no route over
/// capacity, and the routes no more than noticeably dearer than
/// `claimed_cost`. The first fault, in that order, is the error.
pub fn check(instance: &VRPInstance, text: &[u8], claimed_cost: u64) -> (res: Result<
    (),
    CheckError,
>)
    requires
        instance.wf(),
    ensures
        res == verdict(instance, text@, claimed_cost as nat),
{
    let routes = match parse_routes(text) {
        Some(routes) => routes,
        None => {
            return Err(CheckError::Malformed);
        },
    };
    proof {
        assert(parsed_routes(text@) == Some(view_routes(routes@)));
    }
    if !check_known(instance, &routes) {
        return Err(CheckError::UnknownCustomer);
    }
    match check_visits(instance, &routes) {
        Err(e) => {
            return Err(e);
        },
        Ok(()) => {},
    }
    if !check_loads(instance, &routes) {
        return Err(CheckError::OverCapacity);
    }
    if !check_cost(instance, &routes, claimed_cost as u128 + NOTICEABLE as u128) {
        return Err(CheckError::CostTooHigh);
    }
    Ok(())
}

} // verus!
