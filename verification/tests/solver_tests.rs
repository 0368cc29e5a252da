use std::sync::Arc;
use std::time::Duration;
use vrp_alns::adaptive::{ALNSSolver, Operator};
use vrp_alns::construct::{cheapest_insertion, greedy};
use vrp_alns::jump::{random_drop, random_jump, reinsert_dropped, try_random_jump};
use vrp_alns::multineighbor::MultiLNSSolver;
use vrp_alns::solution::VRPSolution;
use vrp_alns::solver::{
    first_solution, judge, solve, Constructor, IterativeSolver, Jumper, LNSSolver, SolveParams,
    TermCond,
};
use vrp_alns::stats::{bump, SolveStats};
use vrp_alns::stop::Stop;
use vrp_alns::swap::{apply_swap, find_swap, naive_greedy};
use vrp_alns::vrp_instance::VRPInstance;

fn instance(vehicles: usize, capacity: usize, customers: &[(usize, i64, i64)]) -> Arc<VRPInstance> {
    let mut demand = vec![0];
    let mut x = vec![0];
    let mut y = vec![0];
    for (d, cx, cy) in customers {
        demand.push(*d);
        x.push(*cx * 1000);
        y.push(*cy * 1000);
    }
    Arc::new(VRPInstance::from_values(vehicles, capacity, demand, x, y).unwrap())
}

fn ring(customers: usize, vehicles: usize, capacity: usize) -> Arc<VRPInstance> {
    let spots: Vec<(usize, i64, i64)> = (0..customers as i64)
        .map(|i| (1 + (i as usize % 3), (i * 7) % 11 - 5, (i * 5) % 13 - 6))
        .collect();
    instance(vehicles, capacity, &spots)
}

fn plan(sol: &VRPSolution) -> Vec<Vec<u16>> {
    sol.routes.iter().map(|r| r.stops().iter().map(|s| s.cust_no()).collect()).collect()
}

fn assert_valid(sol: &VRPSolution, inst: &Arc<VRPInstance>) {
    assert_eq!(sol.routes.len(), inst.num_vehicles);
    assert!(sol.is_valid_solution(inst));
    let mut served: Vec<u16> = plan(sol).concat();
    served.sort();
    let all: Vec<u16> = (1..inst.num_customers as u16).collect();
    assert_eq!(served, all);
    for route in &sol.routes {
        assert!(route.used_capacity() <= inst.vehicle_capacity);
        assert_eq!(route.cost(), route.recalculate_cost());
        assert_eq!(route.used_capacity(), route.recalculate_capacity());
        for stop in route.stops() {
            assert_eq!(stop.capacity(), inst.demand_of_customer[stop.cust_no() as usize]);
        }
    }
}

fn params(terminate: TermCond) -> SolveParams {
    SolveParams {
        terminate,
        frac_dropped: 300,
        patience: 10,
        constructor: Constructor::ClarkeWrightAndThenSweep,
        jumper: Jumper::RandomJump,
        initial_solution: None,
        savings_noise: vec![vec![250, -1200, 40, 900]],
    }
}

#[test]
fn removal_and_best_insertion_restore_the_cost() {
    let inst = instance(1, 10, &[(1, 10, 0), (1, 0, 10)]);
    let initial = greedy(&inst);
    let cost = initial.cost();
    for _ in 0..50 {
        let mut solver = ALNSSolver::new(inst.clone(), initial.clone());
        let removed = solver.remove_n_random_stops(2);
        assert_eq!(removed.len(), 2);
        assert_eq!(solver.current().cost(), 0);
        assert_eq!(solver.removable(), 0);
        assert_eq!(solver.reinsert_n_stops_in_best_spots(removed), Ok(vec![0, 0]));
        assert_eq!(solver.current().cost(), cost);
        assert_valid(solver.current(), &inst);
    }
}

#[test]
fn random_removal_takes_customers_out_of_pool_and_solution() {
    let inst = ring(12, 4, 8);
    let initial = greedy(&inst);
    let mut solver = ALNSSolver::new(inst.clone(), initial);
    assert_eq!(solver.removable(), 12);
    let removed = solver.remove_n_random_stops(5);
    assert_eq!(removed.len(), 5);
    assert_eq!(solver.removable(), 7);
    assert_eq!(solver.tabu_len(), 0);
    let served: usize = solver.current().routes.iter().map(|r| r.stops().len()).sum();
    assert_eq!(served, 7);
    for (stop, route) in &removed {
        assert!(*route < 4);
        assert!(!solver.current().is_served(stop.cust_no()));
        assert_eq!(stop.capacity(), inst.demand_of_customer[stop.cust_no() as usize]);
    }
    solver.update_tabu(&removed);
    // the tabu queue holds a tenth of the customers: one of thirteen
    assert_eq!(solver.tabu_len(), 1);
    assert_eq!(solver.removable(), 11);
}

#[test]
fn shaw_removal_takes_the_customers_most_like_the_seed() {
    // customers on a line; all demands alike
    let inst = instance(2, 10, &[(1, 1, 0), (1, 2, 0), (1, 3, 0), (1, 10, 0), (1, 20, 0)]);
    let mut solver = ALNSSolver::new(inst.clone(), greedy(&inst));
    let removed = solver.remove_n_shaw_from(2, 3);
    let customers: Vec<u16> = removed.iter().map(|(s, _)| s.cust_no()).collect();
    // the seed itself, then its neighbours at distance one by customer number
    assert_eq!(customers, vec![2, 1, 3]);
    assert_eq!(solver.removable(), 2);
    // a difference in demand counts like a difference in place
    let mixed = instance(2, 30, &[(1, 1, 0), (9, 2, 0), (1, 8, 0), (1, 3, 0)]);
    let mut solver = ALNSSolver::new(mixed.clone(), greedy(&mixed));
    let removed = solver.remove_n_shaw_from(1, 3);
    let customers: Vec<u16> = removed.iter().map(|(s, _)| s.cust_no()).collect();
    assert_eq!(customers, vec![1, 4, 3]);
    let mut solver = ALNSSolver::new(mixed.clone(), greedy(&mixed));
    assert_eq!(solver.remove_n_shaw(2).len(), 2);
}

#[test]
fn regret_is_the_gap_between_the_two_cheapest_places() {
    let inst = instance(2, 10, &[(1, 3, 0), (1, 0, 4), (1, 3, 4)]);
    let sol = greedy(&inst);
    assert_eq!(plan(&sol), vec![vec![1, 2, 3], vec![]]);
    let mut solver = ALNSSolver::new(inst.clone(), sol);
    let removed = solver.remove_n_shaw_from(3, 1);
    assert_eq!(removed[0].0.cust_no(), 3);
    // route 0 -> 1 -> 2 -> 0 costs 3 + 5 + 4; customer 3 raises it by
    // 6 before 1, by 2 between 1 and 2, by 4 after 2, and costs 10 alone
    assert_eq!(solver.regret_k(&removed[0].0, 1), Some(0));
    assert_eq!(solver.regret_k(&removed[0].0, 2), Some(2000));
    assert_eq!(solver.regret_k(&removed[0].0, 3), Some(4000));
    assert_eq!(solver.regret_k(&removed[0].0, 4), Some(8000));
    assert_eq!(solver.regret_k(&removed[0].0, 5), Some(2000));
    let full = instance(1, 2, &[(1, 3, 0), (1, 0, 4)]);
    let solver = ALNSSolver::new(full.clone(), greedy(&full));
    assert_eq!(solver.regret_k(&Stop::new(1, 1), 2), None);
}

#[test]
fn reinsertion_fails_without_room() {
    let inst = instance(1, 2, &[(1, 3, 0), (1, 0, 4)]);
    let mut solver = ALNSSolver::new(inst.clone(), greedy(&inst));
    let cost = solver.current().cost();
    // customer 1 is served already, so that a second stop of demand 1 finds no room
    let removed = solver.remove_n_shaw_from(1, 1);
    assert!(solver.reinsert_in_best_spot(Stop::new(removed[0].0.cust_no(), 2)).is_err());
    assert_eq!(solver.current().routes[0].stops().len(), 1);
    assert_eq!(solver.reinsert_in_best_spot(removed[0].0), Ok(0));
    assert_eq!(solver.current().cost(), cost);
}

#[test]
fn destroy_and_repair_keep_the_solution_valid() {
    let inst = ring(14, 5, 7);
    let mut solver = ALNSSolver::new(inst.clone(), greedy(&inst));
    let mut repaired = 0;
    for _ in 0..300 {
        let old = solver.current().clone();
        let removed = solver.destroy();
        assert_eq!(removed.len(), 5);
        solver.update_tabu(&removed);
        assert_eq!(solver.tabu_len() + solver.removable(), 14);
        match solver.repair(removed) {
            Ok(()) => {
                repaired += 1;
                assert_valid(solver.current(), &inst);
            }
            Err(_) => solver.jump_to_solution(&old),
        }
        assert_valid(solver.current(), &inst);
        solver.update_scores(1);
    }
    assert!(repaired > 0);
    solver.update_weights();
    let (destroy_ops, repair_ops) = solver.operators();
    for op in destroy_ops.iter().chain(repair_ops.iter()) {
        assert_eq!(op.score, 0);
        assert!(op.weight >= 1);
    }
    assert_eq!(destroy_ops[0].usage_count + destroy_ops[1].usage_count, 300);
}

#[test]
fn regret_repair_puts_every_stop_back() {
    let inst = ring(10, 4, 8);
    let mut solver = ALNSSolver::new(inst.clone(), greedy(&inst));
    for _ in 0..50 {
        let old = solver.current().clone();
        let removed = solver.remove_n_random_stops(4);
        solver.update_tabu(&removed);
        match solver.reinsert_two_regret(removed) {
            Ok(routes) => {
                assert_eq!(routes.len(), 4);
                assert_valid(solver.current(), &inst);
            }
            Err(_) => solver.jump_to_solution(&old),
        }
    }
}

#[test]
fn small_instances_are_destroyed_as_far_as_they_go() {
    let inst = instance(2, 10, &[(1, 1, 0), (1, 2, 0)]);
    let mut solver = ALNSSolver::new(inst.clone(), greedy(&inst));
    let removed = solver.destroy();
    assert_eq!(removed.len(), 2);
    solver.update_tabu(&removed);
    assert_eq!(solver.tabu_len(), 0);
    assert!(solver.repair(removed).is_ok());
    assert_valid(solver.current(), &inst);
    let depot_only = instance(2, 10, &[]);
    let mut solver = ALNSSolver::new(depot_only.clone(), greedy(&depot_only));
    assert_eq!(solver.destroy().len(), 0);
}

#[test]
fn operator_weight_is_smoothed_towards_the_score() {
    let mut op = Operator::new(1);
    assert_eq!((op.id, op.score, op.weight, op.usage_count), (1, 0, 1000, 0));
    op.update_score(10);
    op.update_score(5);
    assert_eq!((op.score, op.usage_count), (15, 2));
    op.update_weight(10);
    // 0.99 * 1 + 0.01 * 15
    assert_eq!((op.score, op.weight), (0, 1140));
    op.update_weight(10);
    assert_eq!(op.weight, 1128);
    let mut idle = Operator { id: 0, score: 0, weight: 1, usage_count: 0 };
    idle.update_weight(10);
    assert_eq!(idle.weight, 1);
    let mut busy = Operator { id: 0, score: usize::MAX, weight: 1000, usage_count: usize::MAX };
    busy.update_score(3);
    assert_eq!((busy.score, busy.usage_count), (usize::MAX, usize::MAX));
    busy.update_weight(1000);
    assert_eq!(busy.weight, 1 << 30);
}

#[test]
fn judge_sets_the_tiers_apart() {
    let v = judge(1000, 2000, 3000, 4000);
    assert_eq!((v.new_best, v.new_jump_best, v.improved, v.score), (true, true, true, 10));
    let v = judge(1000, 1100, 1101, 1101);
    assert_eq!((v.new_best, v.new_jump_best, v.improved, v.score), (false, true, true, 5));
    let v = judge(1000, 900, 1100, 1100);
    assert_eq!((v.new_best, v.new_jump_best, v.improved, v.score), (false, false, false, 1));
    let v = judge(u64::MAX, u64::MAX, 0, 5);
    assert_eq!((v.new_best, v.new_jump_best, v.improved, v.score), (false, false, false, 1));
}

#[test]
fn stats_count_iterations_and_record_gains() {
    let inst = instance(1, 10, &[(1, 3, 4)]);
    let sol = greedy(&inst);
    let mut stats = SolveStats::new();
    stats.update_on_iter(4, &sol, 11);
    stats.update_on_iter(5, &sol, 10);
    stats.on_restart(9);
    assert_eq!(stats.iterations, 2);
    assert_eq!(stats.improvements, vec![(4, 10000)]);
    assert_eq!(stats.restarts, vec![9]);
    bump(&mut stats.route_add_freq, 3);
    bump(&mut stats.route_add_freq, 3);
    bump(&mut stats.route_add_freq, 1);
    assert_eq!(stats.route_add_freq.get(&3), Some(&2));
    assert_eq!(stats.route_add_freq.get(&1), Some(&1));
    stats.route_add_freq.insert(7, usize::MAX);
    bump(&mut stats.route_add_freq, 7);
    assert_eq!(stats.route_add_freq.get(&7), Some(&usize::MAX));
}

#[test]
fn solver_counts_what_it_removes() {
    let inst = ring(12, 4, 8);
    let mut solver = ALNSSolver::new(inst.clone(), greedy(&inst));
    let removed = solver.destroy();
    let stats = solver.get_stats_mut();
    let customers: usize = stats.cust_change_freq.values().sum();
    let routes: usize = stats.route_remove_freq.values().sum();
    assert_eq!((customers, routes), (5, 5));
    for (stop, route) in &removed {
        assert_eq!(stats.cust_change_freq.get(&(stop.cust_no() as usize)), Some(&1));
        assert!(stats.route_remove_freq.contains_key(route));
    }
}

#[test]
fn solve_returns_a_valid_solution_no_dearer_than_the_first() {
    let inst = ring(15, 5, 8);
    let first = greedy(&inst);
    let mut given = params(TermCond::MaxIters(400));
    given.initial_solution = Some(first.clone());
    let best = solve::<ALNSSolver>(&inst, &given).unwrap();
    assert_valid(&best, &inst);
    assert!(best.cost() <= first.cost());
    let best = solve::<MultiLNSSolver>(&inst, &given).unwrap();
    assert_valid(&best, &inst);
    assert!(best.cost() <= first.cost());
}

#[test]
fn solve_constructs_where_no_solution_is_given() {
    let inst = ring(9, 3, 8);
    for constructor in [Constructor::ClarkeWrightAndThenSweep, Constructor::SweepThenClarkeWright] {
        let mut none = params(TermCond::MaxIters(100));
        none.constructor = constructor;
        none.frac_dropped = 0;
        none.patience = 3;
        assert_valid(&first_solution(&inst, &none).unwrap(), &inst);
        assert_valid(&solve::<ALNSSolver>(&inst, &none).unwrap(), &inst);
    }
    let idle = solve::<ALNSSolver>(&inst, &params(TermCond::MaxIters(0))).unwrap();
    assert_valid(&idle, &inst);
}

#[test]
fn solve_ends_when_the_time_is_up() {
    let inst = ring(12, 4, 8);
    let best =
        solve::<ALNSSolver>(&inst, &params(TermCond::TimeElapsed(Duration::from_millis(30))))
            .unwrap();
    assert_valid(&best, &inst);
    let at_once =
        solve::<ALNSSolver>(&inst, &params(TermCond::TimeElapsed(Duration::from_millis(0))))
            .unwrap();
    assert_valid(&at_once, &inst);
}

#[test]
fn solve_fails_where_nothing_can_be_constructed() {
    let inst = instance(1, 10, &[(6, 1, 0), (6, 2, 0)]);
    assert!(solve::<ALNSSolver>(&inst, &params(TermCond::MaxIters(10))).is_err());
}

#[test]
fn one_step_of_the_search_keeps_a_valid_solution_or_says_so() {
    let inst = ring(12, 4, 8);
    let mut solver = <MultiLNSSolver as LNSSolver>::new(inst.clone(), greedy(&inst));
    for _ in 0..100 {
        let old = LNSSolver::current(&solver).clone();
        match IterativeSolver::find_new_solution(&mut solver) {
            Some(()) => {
                assert_valid(LNSSolver::current(&solver), &inst);
                assert_eq!(IterativeSolver::cost(&solver), IterativeSolver::current(&solver).cost());
            }
            None => LNSSolver::jump_to_solution(&mut solver, &old),
        }
    }
    assert_valid(LNSSolver::current(&solver), &inst);
}

#[test]
fn random_drop_puts_the_dropped_customers_back() {
    let inst = ring(12, 4, 8);
    let sol = greedy(&inst);
    let same = random_drop(&inst, sol.clone(), 0).unwrap();
    let mut routes = plan(&same);
    let mut expected = plan(&sol);
    routes.sort();
    expected.sort();
    assert_eq!(routes, expected);
    let mut done = 0;
    for frac in [100, 500, 1000] {
        for _ in 0..20 {
            if let Ok(jumped) = random_drop(&inst, sol.clone(), frac) {
                assert_valid(&jumped, &inst);
                done += 1;
            }
        }
    }
    assert!(done > 0);
    assert_valid(&try_random_jump(&inst, sol.clone(), 200).unwrap(), &inst);
    // a drop of no customer cannot fail
    let kept = random_jump(&inst, sol.clone(), 0);
    let mut routes = plan(&kept);
    routes.sort();
    assert_eq!(routes, expected);
}

#[test]
fn dropped_customers_go_to_the_cheapest_route_with_room() {
    let inst = instance(2, 10, &[(4, 1, 0), (6, 2, 0), (5, 3, 0), (5, 4, 0)]);
    let sol = greedy(&inst);
    assert_eq!(plan(&sol), vec![vec![2, 1], vec![3, 4]]);
    let again = reinsert_dropped(&inst, sol.clone(), &vec![1, 3]).unwrap();
    // customer 3, the larger, goes first and finds room on the second route only;
    // before and after customer 4 it costs the same: the last place wins
    assert_eq!(plan(&again), vec![vec![2, 1], vec![4, 3]]);
    assert_valid(&again, &inst);
    let all = reinsert_dropped(&inst, sol, &vec![4, 3, 2, 1]).unwrap();
    // by demand 2, then 4 and 3 as they were given, then 1; two empty routes
    // cost the same, and the first of them wins
    assert_eq!(plan(&all), vec![vec![2, 1], vec![4, 3]]);
    assert_valid(&all, &inst);
    // with room on both routes the stop goes where it costs less, not to the first
    let apart = instance(2, 10, &[(1, 10, 0), (1, -10, 0), (1, -9, 0)]);
    let mut sol = VRPSolution::new(&apart);
    sol.routes[0].add_stop_to_index(Stop::new(1, 1), 0);
    sol.routes[1].add_stop_to_index(Stop::new(2, 1), 0);
    sol.routes[1].add_stop_to_index(Stop::new(3, 1), 1);
    assert_eq!(sol.cost(), 40000);
    let back = reinsert_dropped(&apart, sol, &vec![3]).unwrap();
    assert_eq!(plan(&back), vec![vec![1], vec![2, 3]]);
    assert_eq!(back.cost(), 40000);
    assert_valid(&back, &apart);
}

#[test]
fn jump_fails_where_the_dropped_find_no_room() {
    let inst = instance(2, 10, &[(6, 1, 0), (6, 2, 0), (4, 3, 0), (4, 4, 0)]);
    let sol = greedy(&inst);
    assert_eq!(plan(&sol), vec![vec![1, 3], vec![2, 4]]);
    // by demand 1, 2, 3, 4 all find room again
    assert!(reinsert_dropped(&inst, sol.clone(), &vec![1, 2, 3, 4]).is_ok());
    let packed = instance(2, 10, &[(5, 1, 0), (5, 2, 0), (4, 3, 0), (3, 4, 0), (3, 5, 0)]);
    let sol = greedy(&packed);
    assert_eq!(plan(&sol), vec![vec![1, 2], vec![3, 4, 5]]);
    // 2 goes to the second route, where it costs nothing; 4 then finds room on
    // the first route only, and 5 on neither
    assert!(reinsert_dropped(&packed, sol, &vec![4, 5, 2]).is_err());
}

#[test]
fn shuffled_routes_are_the_same_routes() {
    let inst = ring(12, 6, 4);
    let sol = greedy(&inst);
    let mut expected = plan(&sol);
    expected.sort();
    let mut moved = false;
    for _ in 0..30 {
        let mut copy = sol.clone();
        copy.shuffle_routes(&inst);
        let mut routes = plan(&copy);
        moved = moved || routes != plan(&sol);
        routes.sort();
        assert_eq!(routes, expected);
    }
    assert!(moved);
}

#[test]
fn swap_is_found_and_applied() {
    // customers 1 and 2 lie east, 3 and 4 west; the routes mix them
    let inst = instance(2, 2, &[(1, 10, 0), (1, 10, 1), (1, -10, 0), (1, -10, 1)]);
    let mut sol = VRPSolution::new(&inst);
    sol.add_stop(0, Stop::new(1, 1), 0);
    sol.add_stop(0, Stop::new(3, 1), 1);
    sol.add_stop(1, Stop::new(2, 1), 0);
    sol.add_stop(1, Stop::new(4, 1), 1);
    let before = sol.cost();
    let swap = find_swap(&sol, &inst).unwrap();
    assert_eq!((swap.a_route_i, swap.a_i, swap.b_route_i, swap.b_i), (1, 0, 0, 1));
    assert_eq!((swap.a_stop.cust_no(), swap.b_stop.cust_no()), (2, 3));
    apply_swap(&mut sol, &swap, &inst);
    assert_eq!(plan(&sol), vec![vec![1, 2], vec![3, 4]]);
    assert!(sol.cost() + 10 <= before);
    assert_valid(&sol, &inst);
    assert!(find_swap(&sol, &inst).is_none());
}

#[test]
fn naive_greedy_swaps_once_or_not_at_all() {
    let inst = instance(2, 2, &[(1, 10, 0), (1, 10, 1), (1, -10, 0), (1, -10, 1)]);
    let mut sol = VRPSolution::new(&inst);
    sol.add_stop(0, Stop::new(1, 1), 0);
    sol.add_stop(0, Stop::new(3, 1), 1);
    sol.add_stop(1, Stop::new(2, 1), 0);
    sol.add_stop(1, Stop::new(4, 1), 1);
    let before = sol.cost();
    let (better, swap) = naive_greedy(sol, &inst);
    let swap = swap.unwrap();
    assert_valid(&better, &inst);
    assert!(better.cost() + 10 <= before);
    assert_eq!(better.routes[swap.a_route_i].stops()[swap.a_i].cust_no(), swap.b_stop.cust_no());
    assert_eq!(better.routes[swap.b_route_i].stops()[swap.b_i].cust_no(), swap.a_stop.cust_no());
    let cost = better.cost();
    let (same, none) = naive_greedy(better, &inst);
    assert!(none.is_none());
    assert_eq!(same.cost(), cost);
    // a swap that would overload a vehicle is none
    let heavy = instance(2, 3, &[(1, 10, 0), (1, 10, 1), (2, -10, 0), (2, -10, 1)]);
    let mut sol = VRPSolution::new(&heavy);
    sol.add_stop(0, Stop::new(1, 1), 0);
    sol.add_stop(0, Stop::new(3, 2), 1);
    sol.add_stop(1, Stop::new(2, 1), 0);
    sol.add_stop(1, Stop::new(4, 2), 1);
    assert!(find_swap(&sol, &heavy).is_none());
}

#[test]
fn cheapest_insertion_serves_every_customer() {
    let inst = ring(12, 4, 8);
    for _ in 0..10 {
        assert_valid(&cheapest_insertion(&inst).unwrap(), &inst);
    }
    let tight = instance(1, 10, &[(6, 1, 0), (6, 2, 0)]);
    assert!(cheapest_insertion(&tight).is_err());
}

#[test]
fn solution_is_checked_for_capacity_and_coverage() {
    let inst = instance(2, 3, &[(2, 1, 0), (2, 2, 0)]);
    let mut sol = VRPSolution::new(&inst);
    assert!(!sol.is_valid_solution(&inst));
    sol.add_stop(0, Stop::new(1, 2), 0);
    assert!(!sol.is_valid_solution(&inst));
    assert!(sol.is_served(1));
    assert!(!sol.is_served(2));
    sol.add_stop(0, Stop::new(2, 2), 1);
    // both are served, on a vehicle that cannot carry them
    assert!(!sol.is_valid_solution(&inst));
    let stop = sol.take_stop(0, 1);
    sol.add_stop(1, stop, 0);
    assert!(sol.is_valid_solution(&inst));
    assert_eq!(sol.cost(), 2000 + 4000);
    let copy = sol.clone();
    assert_eq!(plan(&copy), plan(&sol));
    assert_eq!(copy.cost(), sol.cost());
    sol.drop_customers(&vec![2, 9], &inst);
    assert_eq!(plan(&sol), vec![vec![1], vec![]]);
    assert_eq!(sol.cost(), 2000);
}
