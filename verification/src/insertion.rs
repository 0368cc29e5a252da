use vstd::prelude::*;
use crate::seq_util::{is_strict_order, lemma_sorted_unique, sorted_by};
use crate::solution::VRPSolution;
use crate::stop::Stop;
use crate::vrp_instance::VRPInstance;

verus! {

/// By how much route `r` grows in cost when customer `c` is served at
/// position `i`.
pub open spec fn cost_increase(sol: &VRPSolution, r: int, c: int, i: int) -> int {
    sol.routes@[r].cost_with_stop(c, i) - sol.routes@[r].spec_cost()
}

/// Whether the vehicle of route `r` can carry `stop` as well.
pub open spec fn has_room(sol: &VRPSolution, r: int, stop: Stop) -> bool {
    sol.routes@[r].spec_used_capacity() + stop.capacity() <= sol.routes@[r].inst().vehicle_capacity
}

/// Whether `stop` can be served at position `spot.1` of route `spot.0`.
pub open spec fn is_spot(sol: &VRPSolution, stop: Stop, spot: (usize, usize)) -> bool {
    &&& spot.0 < sol.routes@.len()
    &&& spot.1 <= sol.routes@[spot.0 as int]@.len()
    &&& has_room(sol, spot.0 as int, stop)
}

/// `a` is scanned before `b`: by route, then by position.
pub open spec fn spot_before(a: (usize, usize), b: (usize, usize)) -> bool {
    a.0 < b.0 || (a.0 == b.0 && a.1 < b.1)
}

/// `spots` lists the places where `stop` can be served, by route and then by
/// position.
pub open spec fn is_spot_list(sol: &VRPSolution, stop: Stop, spots: Seq<(usize, usize)>) -> bool {
    &&& forall|k: int| 0 <= k < spots.len() ==> is_spot(sol, stop, #[trigger] spots[k])
    &&& forall|a: int, b: int|
        0 <= a < b < spots.len() ==> spot_before(#[trigger] spots[a], #[trigger] spots[b])
    &&& forall|spot: (usize, usize)| is_spot(sol, stop, spot) ==> #[trigger] spots.contains(spot)
}

/// `best` is the place in `spots` that raises the cost least, the first of
/// them where several raise it as little; `None` where `spots` is empty.
pub open spec fn is_cheapest(
    sol: &VRPSolution,
    stop: Stop,
    spots: Seq<(usize, usize)>,
    best: Option<usize>,
) -> bool {
    match best {
        None => spots.len() == 0,
        Some(b) => {
            &&& b < spots.len()
            &&& forall|k: int|
                0 <= k < spots.len() ==> cost_increase(
                    sol,
                    spots[b as int].0 as int,
                    stop.cust_no() as int,
                    spots[b as int].1 as int,
                ) <= cost_increase(
                    sol,
                    (#[trigger] spots[k]).0 as int,
                    stop.cust_no() as int,
                    spots[k].1 as int,
                )
            &&& forall|k: int|
                0 <= k < b ==> cost_increase(
                    sol,
                    spots[b as int].0 as int,
                    stop.cust_no() as int,
                    spots[b as int].1 as int,
                ) < cost_increase(
                    sol,
                    (#[trigger] spots[k]).0 as int,
                    stop.cust_no() as int,
                    spots[k].1 as int,
                )
        },
    }
}

/// The places where a stop can be served make one list, and one place of
/// it is the cheapest.
pub proof fn lemma_spots_unique(
    sol: &VRPSolution,
    stop: Stop,
    a: Seq<(usize, usize)>,
    b: Seq<(usize, usize)>,
    best_a: Option<usize>,
    best_b: Option<usize>,
)
    requires
        is_spot_list(sol, stop, a),
        is_spot_list(sol, stop, b),
        is_cheapest(sol, stop, a, best_a),
        is_cheapest(sol, stop, b, best_b),
    ensures
        a == b,
        best_a == best_b,
{
    let earlier = |x: (usize, usize), y: (usize, usize)| spot_before(x, y);
    assert(is_strict_order(earlier));
    assert(sorted_by(a, earlier)) by {
        assert forall|i: int, j: int| 0 <= i < j < a.len() implies earlier(
            #[trigger] a[i],
            #[trigger] a[j],
        ) by {
            assert(spot_before(a[i], a[j]));
        }
    }
    assert(sorted_by(b, earlier)) by {
        assert forall|i: int, j: int| 0 <= i < j < b.len() implies earlier(
            #[trigger] b[i],
            #[trigger] b[j],
        ) by {
            assert(spot_before(b[i], b[j]));
        }
    }
    assert forall|x: (usize, usize)| a.contains(x) <==> b.contains(x) by {
        if a.contains(x) {
            let i = choose|i: int| 0 <= i < a.len() && a[i] == x;
            assert(is_spot(sol, stop, a[i]));
        }
        if b.contains(x) {
            let i = choose|i: int| 0 <= i < b.len() && b[i] == x;
            assert(is_spot(sol, stop, b[i]));
        }
    }
    lemma_sorted_unique(a, b, earlier);
    match (best_a, best_b) {
        (Some(p), Some(q)) => {
            if p < q {
                assert(a[p as int] == b[p as int]);
            } else if q < p {
                assert(b[q as int] == a[q as int]);
            }
        },
        _ => {},
    }
}

/// The places where `stop` can be served, by route and then by position, and
/// the one among them that raises the cost least.
pub fn insertion_spots(sol: &VRPSolution, stop: &Stop, inst: &VRPInstance) -> (res: (
    Vec<(usize, usize)>,
    Option<usize>,
))
    requires
        inst.wf(),
        sol.wf(inst),
        1 <= stop.cust_no() < inst.num_customers,
    ensures
        is_spot_list(sol, *stop, res.0@),
        is_cheapest(sol, *stop, res.0@, res.1),
{
    let mut spots: Vec<(usize, usize)> = Vec::new();
    let mut best: Option<usize> = None;
    let mut best_increase: i64 = 0;
    let ghost c = stop.cust_no() as int;
    let mut r: usize = 0;
    while r < sol.routes.len()
        invariant
            inst.wf(),
            sol.wf(inst),
            c == stop.cust_no(),
            1 <= c < inst.num_customers,
            r <= sol.routes@.len(),
            forall|k: int| 0 <= k < spots@.len() ==> is_spot(sol, *stop, #[trigger] spots@[k]),
            forall|k: int| 0 <= k < spots@.len() ==> (#[trigger] spots@[k]).0 < r,
            forall|a: int, b: int|
                0 <= a < b < spots@.len() ==> spot_before(#[trigger] spots@[a], #[trigger] spots@[b]),
            forall|spot: (usize, usize)|
                is_spot(sol, *stop, spot) && spot.0 < r ==> #[trigger] spots@.contains(spot),
            is_cheapest(sol, *stop, spots@, best),
            best matches Some(b) ==> best_increase == cost_increase(
                sol,
                spots@[b as int].0 as int,
                c,
                spots@[b as int].1 as int,
            ),
        decreases sol.routes@.len() - r,
    {
        let route = &sol.routes[r];
        let len = route.stops().len();
        let mut i: usize = 0;
        proof {
            route.lemma_bounds();
        }
        while i <= len
            invariant
                inst.wf(),
                sol.wf(inst),
                c == stop.cust_no(),
                1 <= c < inst.num_customers,
                r < sol.routes@.len(),
                *route == sol.routes@[r as int],
                len == route@.len(),
                len < 0xffff,
                i <= len + 1,
                forall|k: int| 0 <= k < spots@.len() ==> is_spot(sol, *stop, #[trigger] spots@[k]),
                forall|k: int|
                    0 <= k < spots@.len() ==> (#[trigger] spots@[k]).0 < r || (spots@[k].0 == r
                        && spots@[k].1 < i),
                forall|a: int, b: int|
                    0 <= a < b < spots@.len() ==> spot_before(
                        #[trigger] spots@[a],
                        #[trigger] spots@[b],
                    ),
                forall|spot: (usize, usize)|
                    is_spot(sol, *stop, spot) && (spot.0 < r || (spot.0 == r && spot.1 < i))
                        ==> #[trigger] spots@.contains(spot),
                is_cheapest(sol, *stop, spots@, best),
                best matches Some(b) ==> best_increase == cost_increase(
                    sol,
                    spots@[b as int].0 as int,
                    c,
                    spots@[b as int].1 as int,
                ),
            decreases len + 1 - i,
        {
            proof {
                route.lemma_bounds();
            }
            let (new_cost, feasible) = route.speculative_add_stop(stop, i);
            if feasible {
                let increase: i64 = new_cost as i64 - route.cost() as i64;
                let ghost old_spots = spots@;
                let at = spots.len();
                spots.push((r, i));
                proof {
                    assert forall|spot: (usize, usize)|
                        is_spot(sol, *stop, spot) && (spot.0 < r || (spot.0 == r && spot.1 < i + 1))
                        implies #[trigger] spots@.contains(spot) by {
                        if spot.0 == r && spot.1 == i {
                            assert(spots@[at as int] == spot);
                        } else {
                            assert(old_spots.contains(spot));
                            let k = choose|k: int| 0 <= k < old_spots.len() && old_spots[k] == spot;
                            assert(spots@[k] == spot);
                        }
                    }
                    assert forall|k: int| 0 <= k < spots@.len() implies is_spot(
                        sol,
                        *stop,
                        #[trigger] spots@[k],
                    ) by {
                        if k < at {
                            assert(spots@[k] == old_spots[k]);
                        }
                    }
                    assert forall|a: int, b: int| 0 <= a < b < spots@.len() implies spot_before(
                        #[trigger] spots@[a],
                        #[trigger] spots@[b],
                    ) by {
                        assert(spots@[a] == old_spots[a]);
                        if b < at {
                            assert(spots@[b] == old_spots[b]);
                        }
                    }
                }
                let better = match best {
                    None => true,
                    Some(_) => increase < best_increase,
                };
                if better {
                    proof {
                        assert forall|k: int| 0 <= k < at implies increase < cost_increase(
                            sol,
                            (#[trigger] spots@[k]).0 as int,
                            c,
                            spots@[k].1 as int,
                        ) by {
                            assert(spots@[k] == old_spots[k]);
                        }
                    }
                    best = Some(at);
                    best_increase = increase;
                } else {
                    proof {
                        let b = best->Some_0 as int;
                        assert(spots@[b] == old_spots[b]);
                        assert forall|k: int| 0 <= k < spots@.len() implies cost_increase(
                            sol,
                            spots@[b].0 as int,
                            c,
                            spots@[b].1 as int,
                        ) <= cost_increase(
                            sol,
                            (#[trigger] spots@[k]).0 as int,
                            c,
                            spots@[k].1 as int,
                        ) by {
                            if k < at {
                                assert(spots@[k] == old_spots[k]);
                            }
                        }
                        assert forall|k: int| 0 <= k < b implies cost_increase(
                            sol,
                            spots@[b].0 as int,
                            c,
                            spots@[b].1 as int,
                        ) < cost_increase(
                            sol,
                            (#[trigger] spots@[k]).0 as int,
                            c,
                            spots@[k].1 as int,
                        ) by {
                            assert(spots@[k] == old_spots[k]);
                        }
                    }
                }
            }
            i = i + 1;
        }
        r = r + 1;
    }
    (spots, best)
}

} // verus!
