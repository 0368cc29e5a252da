use std::sync::Arc;
use vrp_alns::construct::{
    clarke_wright_and_then_sweep, first_fit_insert, greedy, polar_angle_less, sweep, sweep_from,
    sweep_order, sweep_then_clarke_wright, try_greedy,
};
use vrp_alns::savings::{clarke_wright, savings_order};
use vrp_alns::solution::VRPSolution;
use vrp_alns::stop::Stop;
use vrp_alns::vrp_instance::VRPInstance;

fn instance(vehicles: usize, capacity: usize, customers: &[(usize, i64, i64)]) -> Arc<VRPInstance> {
    let mut demand = vec![0];
    let mut x = vec![0];
    let mut y = vec![0];
    for (d, cx, cy) in customers {
        demand.push(*d);
        x.push(*cx * 1000);
        y.push(*cy * 1000);
    }
    Arc::new(VRPInstance::from_values(vehicles, capacity, demand, x, y).unwrap())
}

fn plan(sol: &VRPSolution) -> Vec<Vec<u16>> {
    sol.routes.iter().map(|r| r.stops().iter().map(|s| s.cust_no()).collect()).collect()
}

#[test]
fn greedy_serves_two_customers_on_one_route() {
    let inst = instance(1, 10, &[(1, 10, 0), (1, 0, 10)]);
    let sol = greedy(&inst);
    assert_eq!(plan(&sol), vec![vec![1, 2]]);
    // 10 + sqrt(200) + 10
    assert_eq!(sol.cost(), 10000 + 14142 + 10000);
    let cost = sol.cost() as f64 / 1000.0;
    assert!((cost - 34.14).abs() < 0.01);
    assert!(sol.is_valid_solution(&inst));
}

#[test]
fn greedy_takes_the_largest_demand_first() {
    let inst = instance(2, 10, &[(3, 1, 0), (7, 2, 0), (5, 3, 0), (5, 4, 0)]);
    let sol = greedy(&inst);
    // by demand: 2, then 3 and 4 in the order of their numbers, then 1
    assert_eq!(plan(&sol), vec![vec![2, 1], vec![3, 4]]);
    assert_eq!(sol.routes[0].used_capacity(), 10);
    assert_eq!(sol.routes[1].used_capacity(), 10);
    assert!(sol.is_valid_solution(&inst));
}

#[test]
fn greedy_fails_without_room() {
    let inst = instance(1, 10, &[(6, 1, 0), (6, 2, 0)]);
    assert!(try_greedy(&inst).is_err());
    let none = instance(0, 10, &[(1, 1, 0)]);
    assert!(try_greedy(&none).is_err());
}

#[test]
fn checked_greedy_gives_what_greedy_gives() {
    let inst = instance(2, 10, &[(3, 1, 0), (7, 2, 0), (5, 3, 0), (5, 4, 0)]);
    let sol = try_greedy(&inst).unwrap();
    assert_eq!(plan(&sol), plan(&greedy(&inst)));
    assert_eq!(plan(&sol), vec![vec![2, 1], vec![3, 4]]);
}

#[test]
fn first_fit_insert_fills_the_first_route_with_room() {
    let inst = instance(3, 10, &[(6, 1, 0), (6, 2, 0), (4, 3, 0)]);
    let stops = vec![Stop::new(1, 6), Stop::new(2, 6), Stop::new(3, 4)];
    let sol = first_fit_insert(&inst, &stops).unwrap();
    assert_eq!(plan(&sol), vec![vec![1, 3], vec![2], vec![]]);
}

#[test]
fn polar_angles_go_round_from_the_west() {
    // customers east, north, west and south of the depot: the direction from
    // the customer to the depot points west, south, east and north
    let inst = instance(1, 10, &[(1, 5, 0), (1, 0, 5), (1, -5, 0), (1, 0, -5)]);
    // angle of 2 (direction south) < angle of 3 (east) < angle of 4 (north) < angle of 1 (west)
    assert!(polar_angle_less(&inst, 2, 3));
    assert!(polar_angle_less(&inst, 3, 4));
    assert!(polar_angle_less(&inst, 4, 1));
    assert!(polar_angle_less(&inst, 2, 1));
    assert!(!polar_angle_less(&inst, 1, 2));
    assert!(!polar_angle_less(&inst, 3, 3));
}

#[test]
fn sweep_order_goes_by_angle_then_by_number() {
    let inst = instance(1, 10, &[(1, 5, 0), (1, 0, 5), (1, -5, 0), (1, 0, -5), (1, 0, 9)]);
    let order: Vec<u16> = sweep_order(&inst).iter().map(|s| s.cust_no()).collect();
    // customers 2 and 5 lie in the same direction
    assert_eq!(order, vec![2, 5, 3, 4, 1]);
}

#[test]
fn sweep_from_starts_at_the_offset_and_goes_round() {
    let inst = instance(2, 3, &[(1, 5, 0), (1, 0, 5), (1, -5, 0), (1, 0, -5), (1, 0, 9)]);
    let sol = sweep_from(&inst, 0).unwrap();
    assert_eq!(plan(&sol), vec![vec![2, 5, 3], vec![4, 1]]);
    let sol = sweep_from(&inst, 3).unwrap();
    assert_eq!(plan(&sol), vec![vec![4, 1, 2], vec![5, 3]]);
    let again = sweep_from(&inst, 8).unwrap();
    assert_eq!(plan(&again), plan(&sol));
    assert!(sol.is_valid_solution(&inst));
}

#[test]
fn sweep_fails_without_room() {
    let inst = instance(2, 3, &[(2, 5, 0), (2, 0, 5), (2, -5, 0)]);
    assert!(sweep_from(&inst, 0).is_err());
    assert!(sweep(&inst).is_err());
}

#[test]
fn sweep_serves_every_customer() {
    let inst = instance(3, 4, &[(1, 5, 0), (2, 0, 5), (3, -5, 0), (1, 0, -5), (2, 3, 3)]);
    for _ in 0..20 {
        let sol = sweep(&inst).unwrap();
        assert!(sol.is_valid_solution(&inst));
        let served: usize = sol.routes.iter().map(|r| r.stops().len()).sum();
        assert_eq!(served, 5);
    }
    let empty = instance(2, 4, &[]);
    assert_eq!(plan(&sweep(&empty).unwrap()), vec![Vec::<u16>::new(), vec![]]);
}

#[test]
fn savings_order_goes_by_descending_saving() {
    // customers on a line east of the depot, at 1, 2 and 4
    let inst = instance(1, 10, &[(1, 1, 0), (1, 2, 0), (1, 4, 0)]);
    // savings: (1,2) 1 + 2 - 1 = 2, (1,3) 1 + 4 - 3 = 2, (2,3) 2 + 4 - 2 = 4
    assert_eq!(savings_order(&inst, &vec![]), vec![(2, 3), (1, 2), (1, 3)]);
    // noise is added pair by pair: (1,2), (1,3), (2,3)
    assert_eq!(savings_order(&inst, &vec![0, 1, -3000]), vec![(1, 3), (1, 2), (2, 3)]);
    assert_eq!(savings_order(&inst, &vec![5000]), vec![(1, 2), (2, 3), (1, 3)]);
}

#[test]
fn clarke_wright_merges_three_customers_into_one_route() {
    let inst = instance(1, 10, &[(1, 1, 0), (1, 2, 0), (1, 4, 0)]);
    let sol = clarke_wright(&inst, &vec![]).unwrap();
    // (2,3) joins 2 -> 3; (1,2) joins 1 -> 2 -> 3
    assert_eq!(plan(&sol), vec![vec![1, 2, 3]]);
    assert_eq!(sol.cost(), 8000);
    assert!(sol.is_valid_solution(&inst));
}

#[test]
fn clarke_wright_joins_tail_to_head_only() {
    let inst = instance(2, 10, &[(1, 1, 0), (1, 2, 0), (1, 4, 0)]);
    let sol = clarke_wright(&inst, &vec![]).unwrap();
    // two vehicles: the first merge is enough
    assert_eq!(plan(&sol), vec![vec![1], vec![2, 3]]);
    let more = instance(5, 10, &[(1, 1, 0), (1, 2, 0), (1, 4, 0)]);
    let sol = clarke_wright(&more, &vec![]).unwrap();
    assert_eq!(plan(&sol), vec![vec![1], vec![2], vec![3], vec![], vec![]]);
}

#[test]
fn clarke_wright_fails_over_capacity() {
    let tight = instance(1, 2, &[(1, 1, 0), (1, 2, 0), (1, 4, 0)]);
    assert!(clarke_wright(&tight, &vec![]).is_err());
    let heavy = instance(3, 2, &[(1, 1, 0), (3, 2, 0), (1, 4, 0)]);
    assert!(clarke_wright(&heavy, &vec![]).is_err());
}

#[test]
fn cascade_covers_three_customers_with_one_vehicle() {
    let inst = instance(1, 10, &[(1, 1, 3), (1, -2, 0), (1, 4, -1)]);
    for noise in [vec![], vec![vec![100, -2000, 700]], vec![vec![-9000, 9000, 0]; 5]] {
        for sol in [
            clarke_wright_and_then_sweep(&inst, &noise).unwrap(),
            sweep_then_clarke_wright(&inst, &noise).unwrap(),
        ] {
            assert_eq!(sol.routes.len(), 1);
            let mut served = plan(&sol)[0].clone();
            served.sort();
            assert_eq!(served, vec![1, 2, 3]);
            assert!(sol.is_valid_solution(&inst));
        }
    }
}

#[test]
fn cascade_leaves_other_vehicles_empty() {
    let inst = instance(1, 10, &[(1, 1, 0), (1, 2, 0), (1, 4, 0)]);
    let sol = clarke_wright_and_then_sweep(&inst, &vec![]).unwrap();
    let non_empty = sol.routes.iter().filter(|r| !r.stops().is_empty()).count();
    assert_eq!(non_empty, 1);
}

#[test]
fn cascade_fails_when_greedy_fails() {
    let inst = instance(1, 10, &[(6, 1, 0), (6, 2, 0)]);
    assert!(clarke_wright_and_then_sweep(&inst, &vec![]).is_err());
    assert!(sweep_then_clarke_wright(&inst, &vec![]).is_err());
}

#[test]
fn cascade_falls_back_on_greedy() {
    // first fit by number leaves no room; first fit by demand does
    let inst = instance(2, 10, &[(4, 1, 0), (4, 1, 0), (6, 1, 0), (6, 1, 0)]);
    assert!(sweep_from(&inst, 0).is_err());
    let sol = clarke_wright_and_then_sweep(&inst, &vec![]).unwrap();
    assert!(sol.is_valid_solution(&inst));
}
