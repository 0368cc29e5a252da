use std::sync::Arc;
use vrp_alns::route::Route;
use vrp_alns::stop::Stop;
use vrp_alns::vrp_instance::VRPInstance;

fn square_instance() -> Arc<VRPInstance> {
    // depot at the origin, customers on the corners of a square of side 3 and 4
    let demand = vec![0, 2, 3, 4];
    let x = vec![0, 3000, 3000, 0];
    let y = vec![0, 0, 4000, 4000];
    Arc::new(VRPInstance::from_values(2, 10, demand, x, y).unwrap())
}

#[test]
fn stop_equality_goes_by_customer_number() {
    let a = Stop::new(3, 10);
    let b = Stop::new(3, 99);
    let c = Stop::new(4, 10);
    assert!(a == b);
    assert!(a != c);
    assert_eq!(a.cust_no(), 3);
    assert_eq!(a.capacity(), 10);
}

#[test]
fn new_route_is_empty_and_free() {
    let inst = square_instance();
    let route = Route::new(inst.clone(), 7);
    assert_eq!(route.stops().len(), 0);
    assert_eq!(route.cost(), 0);
    assert_eq!(route.used_capacity(), 0);
    assert_eq!(route.recalculate_cost(), 0);
}

#[test]
fn first_stop_costs_the_round_trip() {
    let inst = square_instance();
    let mut route = Route::new(inst.clone(), 0);
    route.add_stop_to_index(Stop::new(2, 3), 0);
    // customer 2 lies at (3, 4): five units from the depot
    assert_eq!(route.cost(), 2 * 5000);
    assert_eq!(route.cost(), 2 * inst.distance_matrix.dist(0, 2) as u64);
    assert_eq!(route.used_capacity(), 3);
    assert_eq!(route.first(), 2);
    assert_eq!(route.last(), 2);
}

#[test]
fn removing_the_only_stop_returns_cost_to_zero() {
    let inst = square_instance();
    let mut route = Route::new(inst, 0);
    route.add_stop_to_index(Stop::new(2, 3), 0);
    let stop = route.remove_stop_at_index(0);
    assert_eq!(stop.cust_no(), 2);
    assert_eq!(stop.capacity(), 3);
    assert_eq!(route.cost(), 0);
    assert_eq!(route.used_capacity(), 0);
    assert_eq!(route.stops().len(), 0);
}

#[test]
fn cached_cost_and_load_follow_every_change() {
    let inst = square_instance();
    let mut route = Route::new(inst, 0);
    route.add_stop_to_index(Stop::new(1, 2), 0);
    assert_eq!(route.cost(), 6000);
    route.add_stop_to_index(Stop::new(3, 4), 1);
    // 0 -> 1 -> 3 -> 0: 3 + 5 + 4
    assert_eq!(route.cost(), 12000);
    route.add_stop_to_index(Stop::new(2, 3), 1);
    // 0 -> 1 -> 2 -> 3 -> 0: 3 + 4 + 3 + 4
    assert_eq!(route.cost(), 14000);
    assert_eq!(route.cost(), route.recalculate_cost());
    assert_eq!(route.used_capacity(), 9);
    assert_eq!(route.used_capacity(), route.recalculate_capacity());
    let customers: Vec<u16> = route.stops().iter().map(|s| s.cust_no()).collect();
    assert_eq!(customers, vec![1, 2, 3]);
    let removed = route.remove_stop_at_index(0);
    assert_eq!(removed.cust_no(), 1);
    // 0 -> 2 -> 3 -> 0: 5 + 3 + 4
    assert_eq!(route.cost(), 12000);
    assert_eq!(route.cost(), route.recalculate_cost());
    assert_eq!(route.used_capacity(), 7);
    assert_eq!(route.used_capacity(), route.recalculate_capacity());
    route.assert_sanity();
}

#[test]
fn speculative_queries_change_nothing() {
    let inst = square_instance();
    let mut route = Route::new(inst, 0);
    route.add_stop_to_index(Stop::new(1, 2), 0);
    route.add_stop_to_index(Stop::new(3, 4), 1);
    let stop = Stop::new(2, 3);
    for _ in 0..3 {
        assert_eq!(route.speculative_add_stop(&stop, 1), (14000, true));
        assert_eq!(route.speculative_remove_stop(0), (8000, true));
        assert_eq!(route.cost(), 12000);
        assert_eq!(route.used_capacity(), 6);
        assert_eq!(route.stops().len(), 2);
    }
}

#[test]
fn speculative_add_agrees_with_the_commit() {
    let inst = square_instance();
    let mut route = Route::new(inst, 0);
    route.add_stop_to_index(Stop::new(1, 2), 0);
    let stop = Stop::new(3, 4);
    let (cost, fits) = route.speculative_add_stop(&stop, 0);
    assert!(fits);
    route.add_stop_to_index(stop, 0);
    assert_eq!(route.cost(), cost);
    // 0 -> 3 -> 1 -> 0: 4 + 5 + 3
    assert_eq!(cost, 12000);
}

#[test]
fn speculative_add_reports_a_full_vehicle() {
    let inst = square_instance();
    let mut route = Route::new(inst, 0);
    route.add_stop_to_index(Stop::new(1, 8), 0);
    assert_eq!(route.speculative_add_stop(&Stop::new(2, 3), 1).1, false);
    assert_eq!(route.speculative_add_stop(&Stop::new(2, 2), 1).1, true);
}

#[test]
fn speculative_add_best_takes_the_last_of_the_cheapest() {
    let inst = square_instance();
    let mut route = Route::new(inst.clone(), 0);
    let ((cost, fits), index) = route.speculative_add_best(&Stop::new(2, 3));
    assert_eq!((cost, fits, index), (10000, true, 0));
    route.add_stop_to_index(Stop::new(1, 2), 0);
    route.add_stop_to_index(Stop::new(3, 4), 1);
    // between 1 and 3 customer 2 costs 14, before 1 or after 3 it costs 16
    let ((cost, fits), index) = route.speculative_add_best(&Stop::new(2, 3));
    assert_eq!((cost, fits, index), (14000, true, 1));
    let mut single = Route::new(inst, 1);
    single.add_stop_to_index(Stop::new(2, 3), 0);
    // before or after customer 2, customer 1 costs the same: the last wins
    let ((cost, _), index) = single.speculative_add_best(&Stop::new(1, 2));
    assert_eq!((cost, index), (12000, 1));
}

#[test]
fn replacing_a_stop_is_priced_without_change() {
    let inst = square_instance();
    let mut route = Route::new(inst, 0);
    route.add_stop_to_index(Stop::new(1, 2), 0);
    route.add_stop_to_index(Stop::new(3, 4), 1);
    // 0 -> 2 -> 3 -> 0: 5 + 3 + 4
    assert_eq!(route.cost_if_cust_no_was(&Stop::new(2, 3), 0), 12000);
    assert_eq!(route.speculative_replace_stop(&Stop::new(2, 3), 0), (12000, true));
    assert_eq!(route.speculative_replace_stop(&Stop::new(2, 7), 0), (12000, false));
    assert_eq!(route.cost(), 12000);
}

#[test]
fn cost_at_index_is_the_leg_that_ends_there() {
    let inst = square_instance();
    let mut route = Route::new(inst, 0);
    route.add_stop_to_index(Stop::new(1, 2), 0);
    route.add_stop_to_index(Stop::new(2, 3), 1);
    assert_eq!(route.cost_at_index(0), 3000);
    assert_eq!(route.cost_at_index(1), 4000);
    assert_eq!(route.cost_at_index(2), 5000);
}

#[test]
fn stops_are_found_by_customer_number() {
    let inst = square_instance();
    let mut route = Route::new(inst, 0);
    route.add_stop_to_index(Stop::new(3, 4), 0);
    route.add_stop_to_index(Stop::new(1, 2), 1);
    assert!(route.contains_stop(3));
    assert!(!route.contains_stop(2));
    assert_eq!(route.index_of_stop(1), Some(1));
    assert_eq!(route.index_of_stop(2), None);
}

#[test]
fn retain_stops_keeps_what_the_predicate_keeps() {
    let inst = square_instance();
    let mut route = Route::new(inst, 0);
    route.add_stop_to_index(Stop::new(1, 2), 0);
    route.add_stop_to_index(Stop::new(2, 3), 1);
    route.add_stop_to_index(Stop::new(3, 4), 2);
    route.retain_stops(|s| s.cust_no() != 2);
    let customers: Vec<u16> = route.stops().iter().map(|s| s.cust_no()).collect();
    assert_eq!(customers, vec![1, 3]);
    assert_eq!(route.cost(), 12000);
    assert_eq!(route.used_capacity(), 6);
    route.retain_except(&vec![1, 3]);
    assert_eq!(route.stops().len(), 0);
    assert_eq!(route.cost(), 0);
    assert_eq!(route.used_capacity(), 0);
}

#[test]
fn cloned_route_is_the_same_route() {
    let inst = square_instance();
    let mut route = Route::new(inst, 4);
    route.add_stop_to_index(Stop::new(1, 2), 0);
    let copy = route.clone();
    assert_eq!(copy.cost(), route.cost());
    assert_eq!(copy.used_capacity(), route.used_capacity());
    assert_eq!(copy.stops().len(), 1);
    assert_eq!(copy.stops()[0].cust_no(), 1);
}
