use vstd::prelude::*;
use std::sync::Arc;
use crate::route::lemma_stop_within_load;
use crate::seq_util::is_reordering;
use crate::solution::VRPSolution;
use crate::stop::Stop;
use crate::vrp_instance::VRPInstance;

verus! {

/// An exchange of two stops between two routes: stop `a_stop` stood at
/// position `a_i` of route `a_route_i`, stop `b_stop` at position `b_i` of
/// route `b_route_i`.
#[derive(Debug)]
pub struct SwapResult {
    pub a_route_i: usize,
    pub a_i: usize,
    pub a_stop: Stop,
    pub b_route_i: usize,
    pub b_i: usize,
    pub b_stop: Stop,
}

/// The smallest gain in cost, in length units, for which stops are
/// exchanged.
pub const WORTHWHILE: u64 = 10;

/// The places name a stop of route `ar` and a stop of an earlier route `br`.
pub open spec fn is_swap(sol: &VRPSolution, ar: int, ai: int, br: int, bi: int) -> bool {
    &&& 0 <= br < ar < sol.routes@.len()
    &&& 0 <= ai < sol.routes@[ar]@.len()
    &&& 0 <= bi < sol.routes@[br]@.len()
}

/// Each of the two vehicles can carry the other's stop in place of its own.
pub open spec fn swap_fits(
    sol: &VRPSolution,
    inst: &VRPInstance,
    ar: int,
    ai: int,
    br: int,
    bi: int,
) -> bool {
    let a = sol.routes@[ar]@[ai];
    let b = sol.routes@[br]@[bi];
    &&& sol.routes@[ar].spec_used_capacity() - a.capacity() + b.capacity()
        <= inst.vehicle_capacity
    &&& sol.routes@[br].spec_used_capacity() - b.capacity() + a.capacity()
        <= inst.vehicle_capacity
}

/// By how much the two routes get cheaper when the two stops change
/// places.
pub open spec fn swap_gain(sol: &VRPSolution, ar: int, ai: int, br: int, bi: int) -> int {
    let a = sol.routes@[ar]@[ai];
    let b = sol.routes@[br]@[bi];
    sol.routes@[ar].spec_cost() + sol.routes@[br].spec_cost() - (sol.routes@[ar].cost_with_swap(
        b.cust_no() as int,
        ai,
    ) + sol.routes@[br].cost_with_swap(a.cust_no() as int, bi))
}

/// The exchange is possible and worthwhile.
pub open spec fn improves(
    sol: &VRPSolution,
    inst: &VRPInstance,
    ar: int,
    ai: int,
    br: int,
    bi: int,
) -> bool {
    is_swap(sol, ar, ai, br, bi) && swap_fits(sol, inst, ar, ai, br, bi) && swap_gain(
        sol,
        ar,
        ai,
        br,
        bi,
    ) >= WORTHWHILE
}

/// Whether the exchange `(x, xi, y, yi)` is looked at before the exchange
/// `(ar, ai, br, bi)`: by the later route, then by the earlier route, then
/// by the positions in them.
pub open spec fn looked_at_before(
    x: int,
    xi: int,
    y: int,
    yi: int,
    ar: int,
    ai: int,
    br: int,
    bi: int,
) -> bool {
    x < ar || (x == ar && y < br) || (x == ar && y == br && xi < ai) || (x == ar && y == br && xi
        == ai && yi < bi)
}

/// Whether the exchange is possible and worthwhile.
fn check_swap(
    sol: &VRPSolution,
    vrp_instance: &Arc<VRPInstance>,
    ar: usize,
    ai: usize,
    br: usize,
    bi: usize,
) -> (good: bool)
    requires
        vrp_instance.wf(),
        sol.wf(vrp_instance),
        is_swap(sol, ar as int, ai as int, br as int, bi as int),
    ensures
        good == improves(sol, vrp_instance, ar as int, ai as int, br as int, bi as int),
{
    let a_route = &sol.routes[ar];
    let b_route = &sol.routes[br];
    let a = a_route.stops()[ai];
    let b = b_route.stops()[bi];
    proof {
        assert(a_route.wf());
        assert(b_route.wf());
        a_route.lemma_load();
        b_route.lemma_load();
        lemma_stop_within_load(a_route@, ai as int);
        lemma_stop_within_load(b_route@, bi as int);
        a_route.lemma_bounds();
        b_route.lemma_bounds();
        assert(a_route.customers()[ai as int] == a.cust_no());
        assert(b_route.customers()[bi as int] == b.cust_no());
    }
    let capacity = vrp_instance.vehicle_capacity;
    let a_rest = a_route.used_capacity() - a.capacity();
    let b_rest = b_route.used_capacity() - b.capacity();
    let a_under_cap = a_rest <= capacity && b.capacity() <= capacity - a_rest;
    let b_under_cap = b_rest <= capacity && a.capacity() <= capacity - b_rest;
    if !a_under_cap || !b_under_cap {
        return false;
    }
    let new_a = a_route.cost_if_cust_no_was(&b, ai);
    let new_b = b_route.cost_if_cust_no_was(&a, bi);
    proof {
        crate::route::lemma_walk_cost_bounds(
            vrp_instance.distance_matrix@,
            crate::route::tour(a_route.customers().update(ai as int, b.cust_no() as int)),
        );
        crate::route::lemma_walk_cost_bounds(
            vrp_instance.distance_matrix@,
            crate::route::tour(b_route.customers().update(bi as int, a.cust_no() as int)),
        );
        assert((a_route@.len() + 2) * 0xffff_ffff <= 0x1_0000 * 0xffff_ffff) by (nonlinear_arith)
            requires
                a_route@.len() + 2 <= 0x1_0000,
        ;
        assert((b_route@.len() + 2) * 0xffff_ffff <= 0x1_0000 * 0xffff_ffff) by (nonlinear_arith)
            requires
                b_route@.len() + 2 <= 0x1_0000,
        ;
    }
    let new_cost = new_a + new_b;
    let initial_cost = a_route.cost() + b_route.cost();
    new_cost < initial_cost && initial_cost - new_cost >= WORTHWHILE
}

/// The first exchange, by route and position of the one stop and then of
/// the other, that is possible and worthwhile.
pub fn find_swap(sol: &VRPSolution, vrp_instance: &Arc<VRPInstance>) -> (found: Option<SwapResult>)
    requires
        vrp_instance.wf(),
        sol.wf(vrp_instance),
    ensures
        found matches Some(swap) ==> improves(
            sol,
            vrp_instance,
            swap.a_route_i as int,
            swap.a_i as int,
            swap.b_route_i as int,
            swap.b_i as int,
        ) && swap.a_stop == sol.routes@[swap.a_route_i as int]@[swap.a_i as int] && swap.b_stop
            == sol.routes@[swap.b_route_i as int]@[swap.b_i as int],
        found matches Some(swap) ==> forall|x: int, xi: int, y: int, yi: int|
            looked_at_before(
                x,
                xi,
                y,
                yi,
                swap.a_route_i as int,
                swap.a_i as int,
                swap.b_route_i as int,
                swap.b_i as int,
            ) ==> !#[trigger] improves(sol, vrp_instance, x, xi, y, yi),
        found is None ==> forall|ar: int, ai: int, br: int, bi: int|
            !#[trigger] improves(sol, vrp_instance, ar, ai, br, bi),
{
    let mut ar: usize = 0;
    while ar < sol.routes.len()
        invariant
            vrp_instance.wf(),
            sol.wf(vrp_instance),
            ar <= sol.routes@.len(),
            forall|x: int, xi: int, y: int, yi: int|
                x < ar ==> !#[trigger] improves(sol, vrp_instance, x, xi, y, yi),
        decreases sol.routes@.len() - ar,
    {
        let mut br: usize = 0;
        while br < ar
            invariant
                vrp_instance.wf(),
                sol.wf(vrp_instance),
                ar < sol.routes@.len(),
                br <= ar,
                forall|x: int, xi: int, y: int, yi: int|
                    x < ar || (x == ar && y < br) ==> !#[trigger] improves(
                        sol,
                        vrp_instance,
                        x,
                        xi,
                        y,
                        yi,
                    ),
            decreases ar - br,
        {
            let a_len = sol.routes[ar].stops().len();
            let b_len = sol.routes[br].stops().len();
            let mut ai: usize = 0;
            while ai < a_len
                invariant
                    vrp_instance.wf(),
                    sol.wf(vrp_instance),
                    br < ar < sol.routes@.len(),
                    a_len == sol.routes@[ar as int]@.len(),
                    b_len == sol.routes@[br as int]@.len(),
                    ai <= a_len,
                    forall|x: int, xi: int, y: int, yi: int|
                        x < ar || (x == ar && y < br) || (x == ar && y == br && xi < ai)
                            ==> !#[trigger] improves(sol, vrp_instance, x, xi, y, yi),
                decreases a_len - ai,
            {
                let mut bi: usize = 0;
                while bi < b_len
                    invariant
                        vrp_instance.wf(),
                        sol.wf(vrp_instance),
                        br < ar < sol.routes@.len(),
                        a_len == sol.routes@[ar as int]@.len(),
                        b_len == sol.routes@[br as int]@.len(),
                        ai < a_len,
                        bi <= b_len,
                        forall|x: int, xi: int, y: int, yi: int|
                            x < ar || (x == ar && y < br) || (x == ar && y == br && xi < ai) || (x
                                == ar && y == br && xi == ai && yi < bi) ==> !#[trigger] improves(
                                sol,
                                vrp_instance,
                                x,
                                xi,
                                y,
                                yi,
                            ),
                    decreases b_len - bi,
                {
                    if check_swap(sol, vrp_instance, ar, ai, br, bi) {
                        return Some(
                            SwapResult {
                                a_route_i: ar,
                                a_i: ai,
                                a_stop: sol.routes[ar].stops()[ai],
                                b_route_i: br,
                                b_i: bi,
                                b_stop: sol.routes[br].stops()[bi],
                            },
                        );
                    }
                    bi = bi + 1;
                }
                ai = ai + 1;
            }
            br = br + 1;
        }
        ar = ar + 1;
    }
    None
}

/// Lets the two stops of `swap` change places.
pub fn apply_swap(sol: &mut VRPSolution, swap: &SwapResult, vrp_instance: &Arc<VRPInstance>)
    requires
        vrp_instance.wf(),
        old(sol).is_valid(vrp_instance),
        is_swap(
            old(sol),
            swap.a_route_i as int,
            swap.a_i as int,
            swap.b_route_i as int,
            swap.b_i as int,
        ),
        swap_fits(
            old(sol),
            vrp_instance,
            swap.a_route_i as int,
            swap.a_i as int,
            swap.b_route_i as int,
            swap.b_i as int,
        ),
    ensures
        final(sol).is_valid(vrp_instance),
        final(sol).routes@.len() == old(sol).routes@.len(),
        final(sol).routes@[swap.a_route_i as int]@ == old(sol).routes@[swap.a_route_i as int]@.update(
            swap.a_i as int,
            old(sol).routes@[swap.b_route_i as int]@[swap.b_i as int],
        ),
        final(sol).routes@[swap.b_route_i as int]@ == old(sol).routes@[swap.b_route_i as int]@.update(
            swap.b_i as int,
            old(sol).routes@[swap.a_route_i as int]@[swap.a_i as int],
        ),
        forall|q: int|
            0 <= q < old(sol).routes@.len() && q != swap.a_route_i && q != swap.b_route_i
                ==> final(sol).routes@[q] == old(sol).routes@[q],
{
    let ghost before = *sol;
    let ar = swap.a_route_i;
    let br = swap.b_route_i;
    proof {
        assert(before.routes@[ar as int].wf());
        assert(before.routes@[br as int].wf());
        before.routes@[ar as int].lemma_load();
        before.routes@[br as int].lemma_load();
        lemma_stop_within_load(before.routes@[ar as int]@, swap.a_i as int);
        lemma_stop_within_load(before.routes@[br as int]@, swap.b_i as int);
    }
    let a = sol.take_stop(ar, swap.a_i);
    let b = sol.take_stop(br, swap.b_i);
    proof {
        assert(before.routes@[ar as int].customers()[swap.a_i as int] == a.cust_no());
        assert(before.routes@[br as int].customers()[swap.b_i as int] == b.cust_no());
        assert(before.routes@[ar as int].serves(a.cust_no() as int));
        assert(before.routes@[br as int].serves(b.cust_no() as int));
        assert(a.cust_no() != b.cust_no());
    }
    sol.add_stop(ar, b, swap.a_i);
    sol.add_stop(br, a, swap.b_i);
    proof {
        let sa = before.routes@[ar as int]@;
        let sb = before.routes@[br as int]@;
        assert(sa.remove(swap.a_i as int).insert(swap.a_i as int, b) =~= sa.update(
            swap.a_i as int,
            b,
        ));
        assert(sb.remove(swap.b_i as int).insert(swap.b_i as int, a) =~= sb.update(
            swap.b_i as int,
            a,
        ));
        assert forall|c: int| 1 <= c < vrp_instance.num_customers implies #[trigger] sol.serves(
            c,
        ) by {
            assert(before.serves(c));
        }
    }
}

/// Whether `swap` is the first exchange in `mid` that is possible and
/// worthwhile, and `after` is `mid` with the two stops exchanged.
pub open spec fn is_first_swap(
    inst: &VRPInstance,
    mid: &VRPSolution,
    swap: SwapResult,
    after: &VRPSolution,
) -> bool {
    let ar = swap.a_route_i as int;
    let ai = swap.a_i as int;
    let br = swap.b_route_i as int;
    let bi = swap.b_i as int;
    &&& improves(mid, inst, ar, ai, br, bi)
    &&& swap.a_stop == mid.routes@[ar]@[ai]
    &&& swap.b_stop == mid.routes@[br]@[bi]
    &&& forall|x: int, xi: int, y: int, yi: int|
        looked_at_before(x, xi, y, yi, ar, ai, br, bi) ==> !#[trigger] improves(
            mid,
            inst,
            x,
            xi,
            y,
            yi,
        )
    &&& after.routes@.len() == mid.routes@.len()
    &&& after.routes@[ar]@ == mid.routes@[ar]@.update(ai, swap.b_stop)
    &&& after.routes@[br]@ == mid.routes@[br]@.update(bi, swap.a_stop)
    &&& forall|q: int|
        0 <= q < mid.routes@.len() && q != ar && q != br ==> #[trigger] after.routes@[q]
            == mid.routes@[q]
}

/// Puts the routes in a random order and lets the first two stops change
/// places whose exchange is possible and worthwhile, if there are any.
pub fn naive_greedy(sol: VRPSolution, vrp_instance: &Arc<VRPInstance>) -> (res: (
    VRPSolution,
    Option<SwapResult>,
))
    requires
        vrp_instance.wf(),
        sol.is_valid(vrp_instance),
    ensures
        res.0.is_valid(vrp_instance),
        res.1 matches Some(swap) ==> is_swap(
            &res.0,
            swap.a_route_i as int,
            swap.a_i as int,
            swap.b_route_i as int,
            swap.b_i as int,
        ) && res.0.routes@[swap.a_route_i as int]@[swap.a_i as int] == swap.b_stop
            && res.0.routes@[swap.b_route_i as int]@[swap.b_i as int] == swap.a_stop,
        res.1 is None ==> forall|ar: int, ai: int, br: int, bi: int|
            !#[trigger] improves(&res.0, vrp_instance, ar, ai, br, bi),
        exists|mid: VRPSolution, perm: Seq<int>| #[trigger]
            is_reordering(sol.routes@, mid.routes@, perm) && match res.1 {
                Some(swap) => is_first_swap(vrp_instance, &mid, swap, &res.0),
                None => res.0 == mid,
            },
{
    let ghost given = sol;
    let mut sol = sol;
    sol.shuffle_routes(vrp_instance);
    let ghost mid = sol;
    proof {
        assert forall|c: int| 1 <= c < vrp_instance.num_customers implies #[trigger] sol.serves(
            c,
        ) by {
            assert(given.serves(c));
        }
    }
    let swap = find_swap(&sol, vrp_instance);
    match &swap {
        Some(found) => {
            apply_swap(&mut sol, found, vrp_instance);
        },
        None => {},
    }
    proof {
        let perm = choose|perm: Seq<int>| #[trigger]
            is_reordering(given.routes@, mid.routes@, perm);
        assert(is_reordering(given.routes@, mid.routes@, perm) && match swap {
            Some(found) => is_first_swap(vrp_instance, &mid, found, &sol),
            None => sol == mid,
        });
    }
    (sol, swap)
}

} // verus!
