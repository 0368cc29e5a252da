use vstd::prelude::*;
use std::sync::Arc;
use crate::ordering::{is_key_order, order_by_key};
use crate::random::shuffle;
use crate::construct::{
    cheapest_fit, cheapest_spot, has_room_for, lemma_cheapest_fit_step, lemma_cheapest_fit_stuck,
};
use crate::route::{names, without};
use crate::seq_util::{is_reordering, lemma_reordering};
use crate::solution::VRPSolution;
use crate::stop::Stop;
use crate::vrp_instance::VRPInstance;

verus! {

/// How many customers a jump drops: the share `frac_dropped`, in
/// thousandths, of the customers with the depot, rounded down.
pub open spec fn drop_count(num_customers: int, frac_dropped: int) -> int {
    num_customers * frac_dropped / 1000
}

/// The routes of `plan` without the stops of the customers `removed`.
pub open spec fn pruned(plan: Seq<Seq<Stop>>, removed: Seq<u16>) -> Seq<Seq<Stop>> {
    Seq::new(plan.len(), |r: int| without(plan[r], removed))
}

/// The keys by which dropped customers are put in order: their demands,
/// the largest first.
pub open spec fn drop_keys(inst: &VRPInstance, removed: Seq<u16>) -> Seq<i128> {
    Seq::new(removed.len(), |i: int| (-inst.spec_demand(removed[i] as int)) as i128)
}

/// `stops` are the customers `removed` of `inst`, each with its demand, by
/// descending demand, equal demands in the order of `removed`.
pub open spec fn is_drop_order(inst: &VRPInstance, removed: Seq<u16>, stops: Seq<Stop>) -> bool {
    exists|order: Seq<usize>|
        #![trigger is_key_order(drop_keys(inst, removed), order)]
        is_key_order(drop_keys(inst, removed), order) && stops.len() == removed.len() && forall|
            k: int,
        |
            0 <= k < stops.len() ==> (#[trigger] stops[k]).cust_no() == removed[order[k] as int]
                && stops[k].capacity() == inst.spec_demand(removed[order[k] as int] as int)
}

/// Whether putting each of `stops`, in turn, on the route of `plan` and at
/// the position where it raises the cost least, among the routes with room
/// for it, ends as `res` says: with its routes, or in failure where some
/// stop finds no room.
pub open spec fn refit_outcome(
    inst: &VRPInstance,
    plan: Seq<Seq<Stop>>,
    stops: Seq<Stop>,
    res: Result<VRPSolution, String>,
) -> bool {
    match res {
        Ok(sol) => cheapest_fit(inst.distance_matrix@, plan, stops, inst.vehicle_capacity as int)
            == Some(sol.plan()),
        Err(_) => cheapest_fit(
            inst.distance_matrix@,
            plan,
            stops,
            inst.vehicle_capacity as int,
        ) is None,
    }
}

/// Takes the customers `removed_cust_nos` out of `existing` and puts them
/// back, by descending demand, each on the route and at the position where
/// it raises the cost least among the routes with room for it.
///
/// Fails when some customer finds no room in any route.
pub fn reinsert_dropped(
    vrp_instance: &Arc<VRPInstance>,
    existing: VRPSolution,
    removed_cust_nos: &Vec<u16>,
) -> (res: Result<VRPSolution, String>)
    requires
        vrp_instance.wf(),
        existing.is_valid(vrp_instance),
        removed_cust_nos@.no_duplicates(),
        forall|i: int|
            0 <= i < removed_cust_nos@.len() ==> 1 <= #[trigger] removed_cust_nos@[i]
                < vrp_instance.num_customers,
    ensures
        res matches Ok(sol) ==> sol.is_valid(vrp_instance),
        removed_cust_nos@.len() == 0 ==> res is Ok,
        exists|stops: Seq<Stop>| #[trigger]
            is_drop_order(vrp_instance, removed_cust_nos@, stops) && refit_outcome(
                vrp_instance,
                pruned(existing.plan(), removed_cust_nos@),
                stops,
                res,
            ),
{
    let mut sol = existing;
    let ghost before = sol;
    let ghost d = vrp_instance.distance_matrix@;
    let ghost cap = vrp_instance.vehicle_capacity as int;
    sol.drop_customers(removed_cust_nos, vrp_instance);
    let ghost start = sol.plan();
    proof {
        assert(start =~= pruned(before.plan(), removed_cust_nos@)) by {
            assert forall|r: int| 0 <= r < start.len() implies #[trigger] start[r] == pruned(
                before.plan(),
                removed_cust_nos@,
            )[r] by {
                assert(sol.routes@[r].is_pruned(&before.routes@[r], removed_cust_nos@));
            }
        }
    }
    let mut keys: Vec<i128> = Vec::new();
    let mut i: usize = 0;
    while i < removed_cust_nos.len()
        invariant
            vrp_instance.wf(),
            i <= removed_cust_nos@.len(),
            keys@.len() == i,
            forall|j: int|
                0 <= j < removed_cust_nos@.len() ==> 1 <= #[trigger] removed_cust_nos@[j]
                    < vrp_instance.num_customers,
            forall|j: int|
                0 <= j < i ==> #[trigger] keys@[j] == (-vrp_instance.spec_demand(
                    removed_cust_nos@[j] as int,
                )) as i128,
        decreases removed_cust_nos@.len() - i,
    {
        let c = removed_cust_nos[i] as usize;
        keys.push(-(vrp_instance.demand_of_customer[c] as i128));
        i = i + 1;
    }
    let order = order_by_key(&keys);
    let ghost mut stops: Seq<Stop> = Seq::empty();
    let mut k: usize = 0;
    proof {
        assert(keys@ =~= drop_keys(vrp_instance, removed_cust_nos@));
    }
    while k < order.len()
        invariant
            vrp_instance.wf(),
            d == vrp_instance.distance_matrix@,
            cap == vrp_instance.vehicle_capacity,
            stops.len() == k,
            forall|j: int|
                0 <= j < k ==> (#[trigger] stops[j]).cust_no() == removed_cust_nos@[order@[j] as int]
                    && stops[j].capacity() == vrp_instance.spec_demand(
                    removed_cust_nos@[order@[j] as int] as int,
                ),
            cheapest_fit(d, start, stops, cap) == Some(sol.plan()),
            before == existing,
            start == pruned(before.plan(), removed_cust_nos@),
            before.is_valid(vrp_instance),
            is_key_order(keys@, order@),
            keys@ == drop_keys(vrp_instance, removed_cust_nos@),
            keys@.len() == removed_cust_nos@.len(),
            removed_cust_nos@.no_duplicates(),
            forall|j: int|
                0 <= j < removed_cust_nos@.len() ==> 1 <= #[trigger] removed_cust_nos@[j]
                    < vrp_instance.num_customers,
            k <= order@.len(),
            sol.wf(vrp_instance),
            sol.routes@.len() == vrp_instance.num_vehicles,
            sol.routes_disjoint(),
            sol.within_capacity(vrp_instance),
            sol.true_demands(vrp_instance),
            forall|c: int|
                sol.serves(c) <==> (before.serves(c) && !names(removed_cust_nos@, c)) || (
                exists|j: int| 0 <= j < k && removed_cust_nos@[#[trigger] order@[j] as int] == c),
        decreases order@.len() - k,
    {
        let cust_no = removed_cust_nos[order[k]];
        let s = Stop::new(cust_no, vrp_instance.demand_of_customer[cust_no as usize]);
        let ghost plan = sol.plan();
        let found = cheapest_spot(vrp_instance, &sol, &s);
        proof {
            assert(stops.push(s).drop_last() =~= stops);
        }
        if found.is_none() {
            let res = Err("didn't work".to_string());
            proof {
                assert(!exists|q: int| has_room_for(plan, q, s, cap));
                let all = Seq::new(
                    order@.len(),
                    |j: int|
                        if j < k {
                            stops[j]
                        } else if j == k {
                            s
                        } else {
                            Stop::spec_new(
                                removed_cust_nos@[order@[j] as int],
                                vrp_instance.demand_of_customer@[removed_cust_nos@[order@[j] as int] as int],
                            )
                        },
                );
                assert(all.take(k + 1) =~= stops.push(s));
                assert(cheapest_fit(d, start, stops.push(s), cap) is None);
                lemma_cheapest_fit_stuck(d, start, all, k + 1, cap);
                assert forall|j: int| 0 <= j < all.len() implies (#[trigger] all[j]).cust_no()
                    == removed_cust_nos@[order@[j] as int] && all[j].capacity()
                    == vrp_instance.spec_demand(removed_cust_nos@[order@[j] as int] as int) by {
                    if j > k {
                        Stop::lemma_spec_new(
                            removed_cust_nos@[order@[j] as int],
                            vrp_instance.demand_of_customer@[removed_cust_nos@[order@[j] as int] as int],
                        );
                    }
                }
                assert(is_key_order(drop_keys(vrp_instance, removed_cust_nos@), order@)
                    && all.len() == removed_cust_nos@.len() && forall|j: int|
                    0 <= j < all.len() ==> (#[trigger] all[j]).cust_no()
                        == removed_cust_nos@[order@[j] as int] && all[j].capacity()
                        == vrp_instance.spec_demand(removed_cust_nos@[order@[j] as int] as int));
                assert(is_drop_order(vrp_instance, removed_cust_nos@, all));
                assert(refit_outcome(vrp_instance, start, all, res));
            }
            return res;
        }
        let (r, index) = found.unwrap();
        proof {
            let m = cust_no as int;
            assert(names(removed_cust_nos@, m));
            if exists|j: int| 0 <= j < k && removed_cust_nos@[#[trigger] order@[j] as int] == m {
                let j = choose|j: int|
                    0 <= j < k && removed_cust_nos@[#[trigger] order@[j] as int] == m;
                assert(order@[j] != order@[k as int]);
            }
        }
        let ghost prior = sol;
        sol.add_stop(r, s, index);
        proof {
            assert(sol.plan() =~= plan.update(
                r as int,
                plan[r as int].insert(index as int, s),
            ));
            lemma_cheapest_fit_step(d, start, stops.push(s), cap, plan, r as int);
            stops = stops.push(s);
            assert forall|c: int|
                sol.serves(c) <==> (before.serves(c) && !names(removed_cust_nos@, c)) || (
                exists|j: int|
                    0 <= j < k + 1 && removed_cust_nos@[#[trigger] order@[j] as int] == c) by {
                if sol.serves(c) {
                    if c == cust_no {
                        assert(removed_cust_nos@[order@[k as int] as int] == c);
                    } else {
                        assert(prior.serves(c));
                    }
                }
                if exists|j: int|
                    0 <= j < k + 1 && removed_cust_nos@[#[trigger] order@[j] as int] == c {
                    let j = choose|j: int|
                        0 <= j < k + 1 && removed_cust_nos@[#[trigger] order@[j] as int] == c;
                    if j < k {
                        assert(prior.serves(c));
                    }
                }
            }
        }
        k = k + 1;
    }
    proof {
        assert forall|c: int| 1 <= c < vrp_instance.num_customers implies #[trigger] sol.serves(
            c,
        ) by {
            assert(before.serves(c));
            if names(removed_cust_nos@, c) {
                let i = choose|i: int|
                    0 <= i < removed_cust_nos@.len() && #[trigger] removed_cust_nos@[i] == c;
                assert(order@.contains(i as usize));
                let j = choose|j: int| 0 <= j < order@.len() && order@[j] == i as usize;
                assert(removed_cust_nos@[order@[j] as int] == c);
            }
        }
    }
    let res = Ok(sol);
    proof {
        assert(is_key_order(drop_keys(vrp_instance, removed_cust_nos@), order@) && stops.len()
            == removed_cust_nos@.len() && forall|j: int|
            0 <= j < stops.len() ==> (#[trigger] stops[j]).cust_no()
                == removed_cust_nos@[order@[j] as int] && stops[j].capacity()
                == vrp_instance.spec_demand(removed_cust_nos@[order@[j] as int] as int));
        assert(is_drop_order(vrp_instance, removed_cust_nos@, stops));
        assert(refit_outcome(vrp_instance, start, stops, res));
    }
    res
}

/// Whether `removed` may be the customers that a jump drops: customers of
/// `inst`, none twice, as many as the share `frac_dropped` asks for, or all
/// where it asks for more than there are.
pub open spec fn is_drop_choice(inst: &VRPInstance, removed: Seq<u16>, frac_dropped: int) -> bool {
    &&& removed.no_duplicates()
    &&& forall|i: int| 0 <= i < removed.len() ==> 1 <= #[trigger] removed[i] < inst.num_customers
    &&& removed.len() == if drop_count(inst.num_customers as int, frac_dropped)
        < inst.num_customers - 1 {
        drop_count(inst.num_customers as int, frac_dropped)
    } else {
        inst.num_customers - 1
    }
}

/// Whether `res` is what a random drop may make of the routes `plan`: for
/// some choice of customers and some order `mid` of the routes, what comes
/// of taking the customers out and putting them back by descending demand.
pub open spec fn is_random_drop(
    inst: &VRPInstance,
    plan: Seq<Seq<Stop>>,
    frac_dropped: int,
    res: Result<VRPSolution, String>,
) -> bool {
    exists|removed: Seq<u16>, mid: Seq<Seq<Stop>>, perm: Seq<int>, stops: Seq<Stop>|
        #![trigger is_drop_order(inst, removed, stops), is_reordering(plan, mid, perm)]
        is_drop_choice(inst, removed, frac_dropped) && is_reordering(plan, mid, perm)
            && is_drop_order(inst, removed, stops) && refit_outcome(
            inst,
            pruned(mid, removed),
            stops,
            res,
        )
}

/// Drops a random share of the customers, `frac_dropped` thousandths of
/// their number, from `existing`, puts the routes in a random order and
/// puts the customers back, by descending demand, each on the route and at
/// the position where it raises the cost least among the routes with room
/// for it.
///
/// Fails when some customer finds no room in any route.
pub fn random_drop(vrp_instance: &Arc<VRPInstance>, existing: VRPSolution, frac_dropped: u32) -> (res:
    Result<VRPSolution, String>)
    requires
        vrp_instance.wf(),
        existing.is_valid(vrp_instance),
        frac_dropped <= 1000,
    ensures
        res matches Ok(sol) ==> sol.is_valid(vrp_instance),
        drop_count(vrp_instance.num_customers as int, frac_dropped as int) == 0 ==> res is Ok,
        is_random_drop(vrp_instance, existing.plan(), frac_dropped as int, res),
{
    let n = vrp_instance.num_customers;
    assert(n * frac_dropped <= 65535 * 1000) by (nonlinear_arith)
        requires
            n <= 65535,
            frac_dropped <= 1000,
    ;
    let to_remove = (n as u64 * frac_dropped as u64 / 1000) as usize;
    let mut removed_cust_nos: Vec<u16> = Vec::new();
    let mut c: usize = 1;
    while c < n
        invariant
            n == vrp_instance.num_customers,
            n <= 65535,
            1 <= c <= n,
            removed_cust_nos@.len() == c - 1,
            forall|j: int| 0 <= j < removed_cust_nos@.len() ==> #[trigger] removed_cust_nos@[j] == j + 1,
        decreases n - c,
    {
        removed_cust_nos.push(c as u16);
        c = c + 1;
    }
    let ghost listed = removed_cust_nos@;
    shuffle(&mut removed_cust_nos);
    let ghost shuffled = removed_cust_nos@;
    proof {
        let perm = choose|perm: Seq<int>| #[trigger] is_reordering(listed, shuffled, perm);
        lemma_reordering(listed, shuffled, perm);
        assert(listed.no_duplicates());
        assert forall|j: int| 0 <= j < shuffled.len() implies 1 <= #[trigger] shuffled[j] < n by {
            assert(shuffled.contains(shuffled[j]));
            let a = choose|a: int| 0 <= a < listed.len() && listed[a] == shuffled[j];
        }
    }
    removed_cust_nos.truncate(to_remove);
    proof {
        assert forall|j: int| 0 <= j < removed_cust_nos@.len() implies #[trigger] removed_cust_nos@[j]
            == shuffled[j] by {}
    }
    let mut shuffled_sol = existing;
    let ghost before = shuffled_sol;
    shuffled_sol.shuffle_routes(vrp_instance);
    let ghost mid = shuffled_sol.plan();
    proof {
        assert forall|x: int| 1 <= x < vrp_instance.num_customers implies #[trigger] shuffled_sol.serves(
            x,
        ) by {
            assert(before.serves(x));
        }
    }
    let res = reinsert_dropped(vrp_instance, shuffled_sol, &removed_cust_nos);
    proof {
        let perm = choose|perm: Seq<int>| #[trigger]
            is_reordering(before.routes@, shuffled_sol.routes@, perm);
        assert(is_reordering(before.plan(), mid, perm));
        let stops = choose|stops: Seq<Stop>| #[trigger]
            is_drop_order(vrp_instance, removed_cust_nos@, stops) && refit_outcome(
                vrp_instance,
                pruned(mid, removed_cust_nos@),
                stops,
                res,
            );
        assert(removed_cust_nos@.no_duplicates()) by {
            assert forall|a: int, b: int|
                0 <= a < removed_cust_nos@.len() && 0 <= b < removed_cust_nos@.len() && a
                    != b implies removed_cust_nos@[a] != removed_cust_nos@[b] by {
                assert(shuffled[a] != shuffled[b]);
            }
        }
        assert(is_drop_choice(vrp_instance, removed_cust_nos@, frac_dropped as int));
        assert(is_drop_choice(vrp_instance, removed_cust_nos@, frac_dropped as int)
            && is_reordering(before.plan(), mid, perm) && is_drop_order(
            vrp_instance,
            removed_cust_nos@,
            stops,
        ) && refit_outcome(vrp_instance, pruned(mid, removed_cust_nos@), stops, res));
    }
    res
}

/// Whether no random drop on the routes `plan` can fail.
pub open spec fn drop_cannot_fail(inst: &VRPInstance, plan: Seq<Seq<Stop>>, frac_dropped: int) -> bool {
    forall|res: Result<VRPSolution, String>| #[trigger]
        is_random_drop(inst, plan, frac_dropped, res) ==> res is Ok
}

/// A drop of no customer cannot fail.
pub proof fn lemma_empty_drop_cannot_fail(
    inst: &VRPInstance,
    plan: Seq<Seq<Stop>>,
    frac_dropped: int,
)
    requires
        inst.wf(),
        drop_count(inst.num_customers as int, frac_dropped) == 0,
    ensures
        drop_cannot_fail(inst, plan, frac_dropped),
{
    assert forall|res: Result<VRPSolution, String>| #[trigger]
        is_random_drop(inst, plan, frac_dropped, res) implies res is Ok by {
        let (removed, mid, perm, stops) = choose|
            removed: Seq<u16>,
            mid: Seq<Seq<Stop>>,
            perm: Seq<int>,
            stops: Seq<Stop>,
        |
            #![trigger is_drop_order(inst, removed, stops), is_reordering(plan, mid, perm)]
            is_drop_choice(inst, removed, frac_dropped) && is_reordering(plan, mid, perm)
                && is_drop_order(inst, removed, stops) && refit_outcome(
                inst,
                pruned(mid, removed),
                stops,
                res,
            );
        assert(removed.len() == 0);
        assert(stops.len() == 0);
    }
}

/// A random drop on a copy of `existing`, where none can fail.
pub fn random_jump(vrp_instance: &Arc<VRPInstance>, existing: VRPSolution, frac_dropped: u32) -> (sol:
    VRPSolution)
    requires
        vrp_instance.wf(),
        existing.is_valid(vrp_instance),
        frac_dropped <= 1000,
        drop_cannot_fail(vrp_instance, existing.plan(), frac_dropped as int),
    ensures
        sol.is_valid(vrp_instance),
        is_random_drop(vrp_instance, existing.plan(), frac_dropped as int, Ok(sol)),
{
    match try_random_jump(vrp_instance, existing, frac_dropped) {
        Ok(sol) => sol,
        Err(_) => vstd::pervasive::unreached(),
    }
}

/// Tries `random_drop` on a copy of `existing` up to five times.
///
/// Fails when all five tries fail.
pub fn try_random_jump(vrp_instance: &Arc<VRPInstance>, existing: VRPSolution, frac_dropped: u32) -> (res:
    Result<VRPSolution, String>)
    requires
        vrp_instance.wf(),
        existing.is_valid(vrp_instance),
        frac_dropped <= 1000,
    ensures
        res matches Ok(sol) ==> sol.is_valid(vrp_instance),
        drop_count(vrp_instance.num_customers as int, frac_dropped as int) == 0 ==> res is Ok,
        res is Ok ==> is_random_drop(vrp_instance, existing.plan(), frac_dropped as int, res),
        res is Err ==> exists|failed: Result<VRPSolution, String>| #[trigger]
            is_random_drop(vrp_instance, existing.plan(), frac_dropped as int, failed)
                && failed is Err,
{
    let ghost mut last: Result<VRPSolution, String> = arbitrary();
    let mut tries: usize = 0;
    while tries < 5
        invariant
            vrp_instance.wf(),
            existing.is_valid(vrp_instance),
            frac_dropped <= 1000,
            tries <= 5,
            tries > 0 ==> drop_count(vrp_instance.num_customers as int, frac_dropped as int) != 0,
            tries > 0 ==> is_random_drop(
                vrp_instance,
                existing.plan(),
                frac_dropped as int,
                last,
            ) && last is Err,
        decreases 5 - tries,
    {
        let copy = existing.clone();
        proof {
            copy.lemma_agreement(&existing, vrp_instance);
            assert(copy.plan() =~= existing.plan()) by {
                assert forall|r: int| 0 <= r < copy.plan().len() implies #[trigger] copy.plan()[r]
                    == existing.plan()[r] by {
                    assert(copy.routes@[r].agrees_with(&existing.routes@[r]));
                }
            }
        }
        let dropped = random_drop(vrp_instance, copy, frac_dropped);
        match dropped {
            Ok(sol) => {
                return Ok(sol);
            },
            Err(e) => {
                proof {
                    last = Err(e);
                }
            },
        }
        tries = tries + 1;
    }
    Err("random_jump failed".to_string())
}

} // verus!
