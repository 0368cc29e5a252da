use std::sync::Arc;
use vrp_alns::adaptive::{ALNSSolver, Operator};
use vrp_alns::construct::{greedy, insert_each_cheapest, sweep_order};
use vrp_alns::neighbor::SimpleLNSSolver;
use vrp_alns::solution::VRPSolution;
use vrp_alns::solver::{
    keep_best, solve, Constructor, Jumper, LNSSolver, SolveParams, TermCond,
};
use vrp_alns::stop::Stop;
use vrp_alns::swap::find_swap;
use vrp_alns::vrp_instance::VRPInstance;

fn instance(vehicles: usize, capacity: usize, customers: &[(usize, i64, i64)]) -> Arc<VRPInstance> {
    let mut demand = vec![0];
    let mut x = vec![0];
    let mut y = vec![0];
    for (d, cx, cy) in customers {
        demand.push(*d);
        x.push(*cx * 1000);
        y.push(*cy * 1000);
    }
    Arc::new(VRPInstance::from_values(vehicles, capacity, demand, x, y).unwrap())
}

fn plan(sol: &VRPSolution) -> Vec<Vec<u16>> {
    sol.routes.iter().map(|r| r.stops().iter().map(|s| s.cust_no()).collect()).collect()
}

fn routes(inst: &Arc<VRPInstance>, plan: &[&[u16]]) -> VRPSolution {
    let mut sol = VRPSolution::new(inst);
    for (r, route) in plan.iter().enumerate() {
        for (i, c) in route.iter().enumerate() {
            sol.add_stop(r, Stop::new(*c, inst.demand_of_customer[*c as usize]), i);
        }
    }
    sol
}

#[test]
fn instance_shows_its_size() {
    let inst = instance(2, 10, &[(1, 1, 0), (1, 2, 0)]);
    assert_eq!(
        inst.to_string(),
        "Number of customers: 3\nNumber of vehicles: 2\nVehicle capacity: 10\n"
    );
}

#[test]
fn unlike_solutions_are_far_apart() {
    let inst = instance(2, 10, &[(1, 1, 0), (1, 2, 0), (1, 3, 0)]);
    let a = routes(&inst, &[&[1, 2], &[3]]);
    let b = routes(&inst, &[&[1], &[2, 3]]);
    let c = routes(&inst, &[&[3], &[2, 1]]);
    // 1 and 2 ride together in one only, and so do 2 and 3: the root of two
    assert_eq!(VRPSolution::distance(&a, &b, &inst), 1414);
    assert_eq!(VRPSolution::distance(&b, &a, &inst), 1414);
    assert_eq!(VRPSolution::distance(&a, &a, &inst), 0);
    // the same customers ride together, whatever the route and the order
    assert_eq!(VRPSolution::distance(&a, &c, &inst), 0);
    let all = routes(&inst, &[&[1, 2, 3], &[]]);
    let none = instance(3, 10, &[(1, 1, 0), (1, 2, 0), (1, 3, 0)]);
    let apart = routes(&none, &[&[1], &[2], &[3]]);
    let whole = routes(&none, &[&[1, 2, 3], &[], &[]]);
    assert_eq!(VRPSolution::distance(&apart, &whole, &none), 1732);
    assert_eq!(VRPSolution::distance(&all, &a, &inst), 1414);
}

#[test]
fn tabu_queue_lets_the_oldest_go_first() {
    let customers: Vec<(usize, i64, i64)> = (0..30).map(|i| (1, i % 6, i / 6)).collect();
    let inst = instance(6, 5, &customers);
    let mut solver = ALNSSolver::new(inst.clone(), greedy(&inst));
    let pool_before = solver.not_tabu().clone();
    let removed = solver.remove_n_random_stops(5);
    let gone: Vec<usize> = removed.iter().map(|(s, _)| s.cust_no() as usize).collect();
    solver.update_tabu(&removed);
    // 31 customers with the depot: the queue holds three
    assert_eq!(solver.tabu(), gone[2..].to_vec());
    let pool = solver.not_tabu().clone();
    assert_eq!(pool.len(), 27);
    assert_eq!(pool[25..].to_vec(), gone[..2].to_vec());
    let mut all: Vec<usize> = pool.iter().chain(solver.tabu().iter()).copied().collect();
    all.sort();
    let mut expected = pool_before;
    expected.sort();
    assert_eq!(all, expected);
    assert!(solver.repair(removed).is_ok());
    let next = solver.remove_n_random_stops(2);
    let next_gone: Vec<usize> = next.iter().map(|(s, _)| s.cust_no() as usize).collect();
    assert!(!next_gone.iter().any(|c| gone[2..].contains(c)));
    solver.update_tabu(&next);
    assert_eq!(solver.tabu(), vec![gone[4], next_gone[0], next_gone[1]]);
    solver.jump_to_solution(&greedy(&inst));
    assert_eq!(solver.tabu_len(), 0);
    assert_eq!(solver.removable(), 30);
}

#[test]
fn cheapest_insertion_takes_the_cheapest_route_and_place() {
    let inst = instance(2, 2, &[(1, 5, 0), (1, -5, 0), (1, 6, 0), (1, -6, 0)]);
    let stops: Vec<Stop> = (1..=4).map(|c| Stop::new(c, 1)).collect();
    let sol = insert_each_cheapest(&inst, &stops).unwrap();
    // 1 opens the first route; 2 raises the cost by 10 next to 1 and by 10 alone, and
    // the first route wins; 3 and 4 find room on the second route only
    assert_eq!(plan(&sol), vec![vec![1, 2], vec![3, 4]]);
    let near = instance(2, 4, &[(2, 5, 0), (1, -5, 0), (2, 6, 0), (1, 7, 0)]);
    let loads: Vec<Stop> =
        (1..=4).map(|c| Stop::new(c, near.demand_of_customer[c as usize])).collect();
    let sol = insert_each_cheapest(&near, &loads).unwrap();
    // both routes have room for customer 4: before 1 it raises the cost by 4, next to 3 by 2
    assert_eq!(plan(&sol), vec![vec![1, 2], vec![3, 4]]);
    assert_eq!(sol.routes[0].used_capacity(), 3);
    let tight = instance(2, 1, &[(1, 5, 0), (1, -5, 0), (1, 6, 0)]);
    assert!(insert_each_cheapest(&tight, &stops[..3].to_vec()).is_err());
}

#[test]
fn first_improving_swap_is_found() {
    let inst = instance(3, 2, &[(1, 10, 0), (1, 10, 1), (1, -10, 0), (1, -10, 1), (1, 0, 9)]);
    let sol = routes(&inst, &[&[1, 3], &[2, 4], &[5]]);
    let swap = find_swap(&sol, &inst).unwrap();
    // routes are paired by the later one: the first pair is the second route with the first
    assert_eq!((swap.a_route_i, swap.b_route_i), (1, 0));
    assert_eq!((swap.a_i, swap.b_i), (0, 1));
}

#[test]
fn sweep_order_is_the_same_each_time() {
    let inst = instance(2, 9, &[(1, 3, 1), (1, -2, 2), (1, -1, -4), (1, 5, -5), (1, 6, 2)]);
    let first: Vec<u16> = sweep_order(&inst).iter().map(|s| s.cust_no()).collect();
    let second: Vec<u16> = sweep_order(&inst).iter().map(|s| s.cust_no()).collect();
    assert_eq!(first, second);
    // by the angle of the direction from the customer to the depot, from just above
    // the west all the way round; customers 1 and 5 lie in one direction
    assert_eq!(first, vec![1, 5, 2, 3, 4]);
}

#[test]
fn simple_search_removes_one_customer_at_a_time() {
    let customers: Vec<(usize, i64, i64)> = (0..9).map(|i| (1, i % 3 + 1, i / 3)).collect();
    let inst = instance(3, 4, &customers);
    let mut solver = <SimpleLNSSolver as LNSSolver>::new(inst.clone(), greedy(&inst));
    for _ in 0..50 {
        let old = solver.current().clone();
        let removed = solver.destroy();
        assert_eq!(removed.len(), 1);
        solver.update_tabu(&removed);
        if solver.repair(removed).is_err() {
            solver.jump_to_solution(&old);
        }
        assert!(solver.current().is_valid_solution(&inst));
    }
    let params = SolveParams {
        terminate: TermCond::MaxIters(100),
        frac_dropped: 500,
        patience: 5,
        constructor: Constructor::SweepThenClarkeWright,
        jumper: Jumper::RandomJump,
        initial_solution: None,
        savings_noise: Vec::new(),
    };
    if let Ok(best) = solve::<SimpleLNSSolver>(&inst, &params) {
        assert!(best.is_valid_solution(&inst));
    }
}

#[test]
fn draw_below_the_first_weight_falls_to_the_first_operator() {
    let ops = vec![
        Operator { id: 0, score: 0, weight: 1000, usage_count: 0 },
        Operator { id: 1, score: 0, weight: 250, usage_count: 0 },
    ];
    assert!(ALNSSolver::picks_first(&ops, 0));
    assert!(ALNSSolver::picks_first(&ops, 999));
    assert!(!ALNSSolver::picks_first(&ops, 1000));
    assert!(!ALNSSolver::picks_first(&ops, 1249));
}

#[test]
fn repair_counts_the_routes_that_took_a_stop_on() {
    let customers: Vec<(usize, i64, i64)> = (0..12).map(|i| (1, i % 4 + 1, i / 4)).collect();
    let inst = instance(4, 6, &customers);
    let mut solver = ALNSSolver::new(inst.clone(), greedy(&inst));
    let removed = solver.destroy();
    assert_eq!(removed.len(), 5);
    solver.update_tabu(&removed);
    let served_before: usize = solver.current().routes.iter().map(|r| r.stops().len()).sum();
    assert_eq!(served_before, 7);
    let done = solver.repair(removed);
    let served: usize = solver.current().routes.iter().map(|r| r.stops().len()).sum();
    let stats = solver.get_stats_mut();
    let added: usize = stats.route_add_freq.values().sum();
    let removed_count: usize = stats.route_remove_freq.values().sum();
    assert_eq!(removed_count, 5);
    if done.is_ok() {
        assert_eq!(added, 5);
        assert_eq!(served, 12);
    } else {
        assert_eq!(added, 0);
        assert!(served < 12);
        assert!(served >= 7);
    }
}

#[test]
fn iterations_and_restarts_are_recorded() {
    let inst = instance(2, 10, &[(1, 3, 4), (1, 0, 5)]);
    let sol = greedy(&inst);
    let mut solver = <SimpleLNSSolver as LNSSolver>::new(inst.clone(), sol.clone());
    solver.record_iteration(0, &sol, 11);
    solver.record_iteration(1, &sol, 3);
    solver.record_restart(1);
    solver.update_scores(5);
    solver.update_weights();
    let stats = solver.get_stats_mut();
    assert_eq!(stats.iterations, 2);
    assert_eq!(stats.improvements, vec![(0, sol.cost())]);
    assert_eq!(stats.restarts, vec![1]);
    stats.iterations = 9;
    assert_eq!(solver.get_stats_mut().iterations, 9);
    let mut adaptive = ALNSSolver::new(inst.clone(), sol.clone());
    LNSSolver::record_iteration(&mut adaptive, 4, &sol, 0);
    LNSSolver::record_restart(&mut adaptive, 4);
    adaptive.get_stats_mut().restarts.push(7);
    let stats = adaptive.get_stats_mut();
    assert_eq!((stats.iterations, stats.improvements.len()), (1, 0));
    assert_eq!(stats.restarts, vec![4, 7]);
}

#[test]
fn scores_go_to_the_operators_used_last() {
    let customers: Vec<(usize, i64, i64)> = (0..12).map(|i| (1, i % 4 + 1, i / 4)).collect();
    let inst = instance(4, 6, &customers);
    let mut solver = ALNSSolver::new(inst.clone(), greedy(&inst));
    let removed = solver.destroy();
    solver.update_tabu(&removed);
    if solver.repair(removed).is_err() {
        solver.jump_to_solution(&greedy(&inst));
    }
    solver.update_scores(10);
    let (destroy_ops, repair_ops) = solver.operators();
    for ops in [&destroy_ops, &repair_ops] {
        let used: Vec<&Operator> = ops.iter().filter(|op| op.usage_count == 1).collect();
        assert_eq!(used.len(), 1);
        assert_eq!(used[0].score, 10);
        assert_eq!(ops.iter().map(|op| op.score).sum::<usize>(), 10);
        assert!(ops.iter().all(|op| op.weight == 1000));
        assert_eq!((ops[0].id, ops[1].id), (0, 1));
    }
    solver.update_weights();
    let (destroy_ops, repair_ops) = solver.operators();
    for ops in [&destroy_ops, &repair_ops] {
        let mut weights: Vec<u64> = ops.iter().map(|op| op.weight).collect();
        weights.sort();
        // 0.99 * 1 + 0.01 * 0 and 0.99 * 1 + 0.01 * 10
        assert_eq!(weights, vec![990, 1090]);
        assert!(ops.iter().all(|op| op.score == 0));
        assert_eq!(ops.iter().map(|op| op.usage_count).sum::<usize>(), 1);
    }
}

fn crowded() -> (Arc<VRPInstance>, VRPSolution) {
    // two full vehicles; customer 5 rides on the second and lies on the way of the first
    let inst = instance(2, 10, &[(5, 20, 0), (3, 11, 0), (2, 13, 0), (6, -10, 0), (4, 12, 0)]);
    let sol = routes(&inst, &[&[1, 2, 3], &[4, 5]]);
    (inst, sol)
}

fn stop_of(removed: &[(Stop, usize)], c: u16) -> Stop {
    removed.iter().find(|(s, _)| s.cust_no() == c).unwrap().0
}

#[test]
fn reinsertion_takes_the_cheapest_place_unless_told_another() {
    let inst = instance(2, 10, &[(1, 3, 0), (1, 0, 4), (1, 3, 4)]);
    let sol = routes(&inst, &[&[1, 2, 3], &[]]);
    // customer 3 raises the cost by 6 before 1, by 2 between 1 and 2, by 4
    // after 2, and by 10 alone on the second route
    let mut solver = ALNSSolver::new(inst.clone(), sol.clone());
    let removed = solver.remove_n_shaw_from(3, 1);
    assert_eq!(solver.current().cost(), 12000);
    assert_eq!(solver.reinsert_where(removed[0].0, None), Ok(0));
    assert_eq!(plan(solver.current()), vec![vec![1, 3, 2], vec![]]);
    assert_eq!(solver.current().cost(), 14000);
    // the places are numbered by route, then by position
    let expected: Vec<Vec<Vec<u16>>> = vec![
        vec![vec![3, 1, 2], vec![]],
        vec![vec![1, 3, 2], vec![]],
        vec![vec![1, 2, 3], vec![]],
        vec![vec![1, 2], vec![3]],
    ];
    for (at, routes_after) in expected.iter().enumerate() {
        let mut solver = ALNSSolver::new(inst.clone(), sol.clone());
        let removed = solver.remove_n_shaw_from(3, 1);
        let route = solver.reinsert_where(removed[0].0, Some(at)).unwrap();
        assert_eq!(route, at / 3);
        assert_eq!(&plan(solver.current()), routes_after);
    }
    // of two places that cost the same the first is taken
    let alone = instance(2, 10, &[(1, 3, 4)]);
    let mut solver = ALNSSolver::new(alone.clone(), routes(&alone, &[&[], &[1]]));
    let removed = solver.remove_n_shaw_from(1, 1);
    assert_eq!(removed[0].1, 1);
    assert_eq!(solver.reinsert_where(removed[0].0, None), Ok(0));
    assert_eq!(plan(solver.current()), vec![vec![1], vec![]]);
}

#[test]
fn repair_fails_on_a_stop_without_a_place() {
    let (inst, sol) = crowded();
    let mut solver = ALNSSolver::new(inst.clone(), sol);
    let removed = solver.remove_n_shaw_from(5, 3);
    let gone: Vec<u16> = removed.iter().map(|(s, _)| s.cust_no()).collect();
    assert_eq!(gone, vec![5, 2, 3]);
    assert_eq!(plan(solver.current()), vec![vec![1], vec![4]]);
    // customer 5 costs nothing on the way to customer 1 and takes the room
    // that customers 2 and 3 had
    assert_eq!(solver.reinsert_where(stop_of(&removed, 5), None), Ok(0));
    assert_eq!(solver.reinsert_where(stop_of(&removed, 2), None), Ok(1));
    let before = plan(solver.current());
    assert_eq!(before, vec![vec![5, 1], vec![2, 4]]);
    let last = stop_of(&removed, 3);
    assert_eq!(solver.regret_k(&last, 2), None);
    assert!(solver.reinsert_where(last, None).is_err());
    assert!(solver.reinsert_two_regret(vec![(last, 0)]).is_err());
    assert_eq!(plan(solver.current()), before);
    assert!(solver.reinsert_n_stops_in_best_spots(vec![(last, 0)]).is_err());
    assert_eq!(plan(solver.current()), before);
    assert!(solver.repair_by(false, vec![(last, 0)]).is_err());
    assert!(solver.repair_by(true, vec![(last, 0)]).is_err());
    assert_eq!(plan(solver.current()), before);
    assert!(!solver.current().is_served(3));
}

#[test]
fn failed_repair_leaves_a_stop_that_fits_nowhere() {
    let (inst, sol) = crowded();
    let mut failed = 0;
    for _ in 0..40 {
        let mut solver = ALNSSolver::new(inst.clone(), sol.clone());
        let removed = solver.remove_n_shaw_from(5, 3);
        let pending = removed.clone();
        match solver.reinsert_n_stops_in_best_spots(removed) {
            Ok(on) => {
                assert_eq!(on.len(), 3);
                assert!(solver.current().is_valid_solution(&inst));
            },
            Err(_) => {
                failed += 1;
                let current = solver.current();
                assert!(pending.iter().any(|(s, _)| !current.is_served(s.cust_no())
                    && current.routes.iter().all(|r| r.used_capacity() + s.capacity() > 10)));
            },
        }
    }
    assert!(failed > 0);
}

#[test]
fn repair_succeeds_where_one_vehicle_has_room_for_all() {
    let customers: Vec<(usize, i64, i64)> = (0..8).map(|i| (1, i % 4 + 1, i / 4 + 1)).collect();
    let inst = instance(3, 8, &customers);
    let sol = routes(&inst, &[&[1, 2, 3], &[4, 5, 6], &[7, 8]]);
    for first in [true, false] {
        for _ in 0..20 {
            let mut solver = ALNSSolver::new(inst.clone(), sol.clone());
            let removed = solver.remove_n_random_stops(5);
            assert!(solver.repair_by(first, removed).is_ok());
            assert!(solver.current().is_valid_solution(&inst));
        }
    }
}

#[test]
fn repair_records_the_operator_it_was_told() {
    let customers: Vec<(usize, i64, i64)> = (0..8).map(|i| (1, i % 4 + 1, i / 4 + 1)).collect();
    let inst = instance(3, 8, &customers);
    for (first, used) in [(true, 0), (false, 1)] {
        let mut solver = ALNSSolver::new(inst.clone(), greedy(&inst));
        let removed = solver.remove_n_random_stops(3);
        assert!(solver.repair_by(first, removed).is_ok());
        solver.update_scores(5);
        let (_, repair_ops) = solver.operators();
        assert_eq!(repair_ops[used].usage_count, 1);
        assert_eq!(repair_ops[used].score, 5);
        assert_eq!(repair_ops[1 - used].usage_count, 0);
        assert_eq!(repair_ops[1 - used].score, 0);
    }
}

#[test]
fn best_solution_gives_way_to_a_noticeably_cheaper_one() {
    let inst = instance(2, 10, &[(1, 10, 0), (1, 0, 10)]);
    let apart = routes(&inst, &[&[1], &[2]]);
    let joined = routes(&inst, &[&[1, 2], &[]]);
    assert_eq!((apart.cost(), joined.cost()), (40000, 34142));
    let (kept, cost) = keep_best(&inst, apart.clone(), 40000, &joined, 34142);
    assert_eq!((plan(&kept), cost), (plan(&joined), 34142));
    let (kept, cost) = keep_best(&inst, joined.clone(), 34142, &apart, 40000);
    assert_eq!((plan(&kept), cost), (plan(&joined), 34142));
    let swapped = routes(&inst, &[&[2], &[1]]);
    let (kept, cost) = keep_best(&inst, apart.clone(), 40000, &swapped, 40000);
    assert_eq!((plan(&kept), cost), (plan(&apart), 40000));
}

#[test]
fn solve_without_iterations_returns_the_solution_given() {
    let inst = instance(2, 10, &[(1, 10, 0), (1, 0, 10)]);
    let given = routes(&inst, &[&[1], &[2]]);
    let params = SolveParams {
        terminate: TermCond::MaxIters(0),
        frac_dropped: 0,
        patience: 10,
        constructor: Constructor::ClarkeWrightAndThenSweep,
        jumper: Jumper::RandomJump,
        initial_solution: Some(given),
        savings_noise: Vec::new(),
    };
    let best = solve::<ALNSSolver>(&inst, &params).unwrap();
    assert_eq!(plan(&best), vec![vec![1], vec![2]]);
    assert_eq!(best.cost(), 40000);
    let best = solve::<SimpleLNSSolver>(&inst, &params).unwrap();
    assert_eq!(plan(&best), vec![vec![1], vec![2]]);
}

#[test]
fn solve_makes_no_jump_within_its_patience() {
    let (inst, sol) = crowded();
    for _ in 0..10 {
        let params = SolveParams {
            terminate: TermCond::MaxIters(20),
            frac_dropped: 1000,
            patience: 20,
            constructor: Constructor::SweepThenClarkeWright,
            jumper: Jumper::RandomJump,
            initial_solution: Some(sol.clone()),
            savings_noise: Vec::new(),
        };
        let best = solve::<ALNSSolver>(&inst, &params).unwrap();
        assert!(best.is_valid_solution(&inst));
        assert!(best.cost() <= sol.cost());
    }
}
