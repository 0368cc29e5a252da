use std::sync::Arc;
use vrp_alns::check::{check, CheckError};
use vrp_alns::construct::greedy;
use vrp_alns::format::parse_routes;
use vrp_alns::instance_text::{read_coord, split_lines};
use vrp_alns::route::Route;
use vrp_alns::solution::VRPSolution;
use vrp_alns::stop::Stop;
use vrp_alns::text::{read_number, split_words, write_number};
use vrp_alns::vrp_instance::VRPInstance;

fn two_customers() -> Arc<VRPInstance> {
    Arc::new(VRPInstance::new(b"3 2 10\n0 0 0\n1 10 0\n1 0 10\n").unwrap())
}

#[test]
fn instance_text_is_read() {
    let inst = two_customers();
    assert_eq!(inst.num_customers, 3);
    assert_eq!(inst.num_vehicles, 2);
    assert_eq!(inst.vehicle_capacity, 10);
    assert_eq!(inst.demand_of_customer, vec![0, 1, 1]);
    assert_eq!(inst.x_coord_of_customer, vec![0, 10000, 0]);
    assert_eq!(inst.y_coord_of_customer, vec![0, 0, 10000]);
    assert_eq!(inst.distance_matrix.dist(1, 2), 14142);
    assert_eq!(inst.max_route_len, 2);
}

#[test]
fn instance_text_takes_fractions_and_white_space() {
    let inst = VRPInstance::new(b"  2\t1   7 \r\n 0   1.5  -2.25 extra\r\n3 3.14159 +\n").err();
    assert!(inst.is_some());
    let inst = VRPInstance::new(b"  2\t1   7 \r\n 0   1.5  -2.25 extra\r\n3 3.14159 4.\n").unwrap();
    assert_eq!(inst.x_coord_of_customer, vec![1500, 3141]);
    assert_eq!(inst.y_coord_of_customer, vec![-2250, 4000]);
    assert_eq!(inst.demand_of_customer, vec![0, 3]);
}

#[test]
fn customers_past_the_end_of_the_text_are_empty() {
    let inst = VRPInstance::new(b"3 1 5\n0 1 1\n2 4 5").unwrap();
    assert_eq!(inst.demand_of_customer, vec![0, 2, 0]);
    assert_eq!(inst.x_coord_of_customer, vec![1000, 4000, 0]);
    assert_eq!(inst.y_coord_of_customer, vec![1000, 5000, 0]);
}

#[test]
fn malformed_instance_text_is_refused() {
    assert!(VRPInstance::new(b"").is_err());
    assert!(VRPInstance::new(b"3 1\n0 0 0\n").is_err());
    assert!(VRPInstance::new(b"x 1 10\n0 0 0\n").is_err());
    assert!(VRPInstance::new(b"0 1 10\n").is_err());
    assert!(VRPInstance::new(b"65536 1 10\n").is_err());
    assert!(VRPInstance::new(b"2 1 10\n0 0 0\n1 1\n").is_err());
    assert!(VRPInstance::new(b"2 1 10\n0 0 0\n\n").is_err());
    assert!(VRPInstance::new(b"2 1 10\n0 0 0\n1 a 0\n").is_err());
    assert!(VRPInstance::new(b"2 1 10\n0 0 0\n1 1e3 0\n").is_err());
    assert!(VRPInstance::new(b"2 1 10\n0 0 0\n-1 1 0\n").is_err());
    assert!(VRPInstance::new(b"2 1 10\n0 0 0\n1 1073741.825 0\n").is_err());
    assert!(VRPInstance::new(b"2 1 10\n0 0 0\n1 1073741.824 0\n").is_ok());
    assert!(VRPInstance::new(b"2 1 10\n0 0 0\n1 99999999999999999999 0\n").is_err());
}

#[test]
fn coordinates_are_read_in_thousandths() {
    assert_eq!(read_coord(&b"12".to_vec()), Some(12000));
    assert_eq!(read_coord(&b"12.5".to_vec()), Some(12500));
    assert_eq!(read_coord(&b"-0.001".to_vec()), Some(-1));
    assert_eq!(read_coord(&b"0.0019".to_vec()), Some(1));
    assert_eq!(read_coord(&b"7.".to_vec()), Some(7000));
    assert_eq!(read_coord(&b".5".to_vec()), None);
    assert_eq!(read_coord(&b"-".to_vec()), None);
    assert_eq!(read_coord(&b"".to_vec()), None);
    assert_eq!(read_coord(&b"1.2.3".to_vec()), None);
    assert_eq!(read_coord(&b"1,5".to_vec()), None);
}

#[test]
fn words_and_lines_are_split() {
    let words: Vec<Vec<u8>> = split_words(b" 12\t3 \n 45 ");
    assert_eq!(words, vec![b"12".to_vec(), b"3".to_vec(), b"45".to_vec()]);
    assert_eq!(split_words(b"  \n").len(), 0);
    let lines = split_lines(b"a b\n\nc\n");
    assert_eq!(lines, vec![b"a b".to_vec(), b"".to_vec(), b"c".to_vec()]);
    assert_eq!(split_lines(b"\n"), vec![b"".to_vec()]);
    assert_eq!(split_lines(b"x"), vec![b"x".to_vec()]);
    assert_eq!(split_lines(b"").len(), 0);
}

#[test]
fn numbers_are_read_and_written() {
    assert_eq!(read_number(&b"0".to_vec()), Some(0));
    assert_eq!(read_number(&b"007".to_vec()), Some(7));
    assert_eq!(read_number(&b"18446744073709551615".to_vec()), Some(u64::MAX));
    assert_eq!(read_number(&b"18446744073709551616".to_vec()), None);
    assert_eq!(read_number(&b"".to_vec()), None);
    assert_eq!(read_number(&b"1a".to_vec()), None);
    assert_eq!(read_number(&b"+1".to_vec()), None);
    let mut out = b"n=".to_vec();
    write_number(&mut out, 0);
    write_number(&mut out, 9050);
    assert_eq!(out, b"n=09050".to_vec());
    let mut out = Vec::new();
    write_number(&mut out, u64::MAX);
    assert_eq!(out, b"18446744073709551615".to_vec());
}

#[test]
fn solution_text_frames_routes_with_depot_markers() {
    let inst = two_customers();
    let sol = greedy(&inst);
    assert_eq!(sol.to_string(), "0 1 2 0 0 0");
    assert_eq!(sol.to_bytes(), b"0 1 2 0 0 0".to_vec());
    assert_eq!(sol.to_tokens(), vec![0, 1, 2, 0, 0, 0]);
    assert_eq!(sol.to_file_string(), "34.142 2\n0 1 2 0\n0 0\n");
    let none = VRPSolution { routes: Vec::new() };
    assert_eq!(none.to_string(), "");
    assert_eq!(none.to_file_string(), "0.000 0\n");
}

#[test]
fn route_text_shows_stops_and_load() {
    let inst = two_customers();
    let mut route = Route::new(inst, 3);
    assert_eq!(route.to_string(), "r3[--c0]");
    route.add_stop_to_index(Stop::new(2, 1), 0);
    assert_eq!(route.to_string(), "r3[2(1)--c1]");
    route.add_stop_to_index(Stop::new(1, 1), 1);
    assert_eq!(route.to_string(), "r3[2(1) -> 1(1)--c2]");
    assert_eq!(route.to_tokens(), vec![0, 2, 1, 0]);
}

#[test]
fn solution_text_reads_back_as_the_routes() {
    let inst = Arc::new(
        VRPInstance::new(b"6 4 4\n0 0 0\n2 1 0\n2 2 0\n2 0 3\n2 0 4\n1 5 5\n").unwrap(),
    );
    let sol = greedy(&inst);
    let text = sol.to_string();
    let routes = parse_routes(text.as_bytes()).unwrap();
    let expected: Vec<Vec<u64>> = sol
        .routes
        .iter()
        .filter(|r| !r.stops().is_empty())
        .map(|r| r.stops().iter().map(|s| s.cust_no() as u64).collect())
        .collect();
    assert_eq!(routes, expected);
    assert_eq!(routes, vec![vec![1, 2], vec![3, 4], vec![5]]);
    // the cost of each route, computed anew from the distance matrix
    for (route, customers) in sol.routes.iter().filter(|r| !r.stops().is_empty()).zip(&routes) {
        let mut cost = 0u64;
        let mut prev = 0usize;
        for c in customers {
            cost += inst.distance_matrix.dist(prev, *c as usize) as u64;
            prev = *c as usize;
        }
        cost += inst.distance_matrix.dist(prev, 0) as u64;
        assert_eq!(cost, route.cost());
    }
}

#[test]
fn routes_are_read_from_text() {
    assert_eq!(parse_routes(b"0 1 2 0 0 3 0"), Some(vec![vec![1, 2], vec![3]]));
    assert_eq!(parse_routes(b"0 0 1 2 0 0 3 0"), Some(vec![vec![1, 2], vec![3]]));
    // every word counts, and a route without its closing marker is dropped
    assert_eq!(parse_routes(b"9 4 0 5 6"), Some(vec![vec![9, 4]]));
    assert_eq!(parse_routes(b""), Some(vec![]));
    assert_eq!(parse_routes(b"0 "), Some(vec![]));
    assert_eq!(parse_routes(b"0 1 x 0"), None);
    assert_eq!(parse_routes(b"x 1 0"), None);
}

#[test]
fn check_accepts_a_true_solution() {
    let inst = two_customers();
    let sol = greedy(&inst);
    let text = sol.to_string();
    assert_eq!(check(&inst, text.as_bytes(), sol.cost()), Ok(()));
    assert_eq!(check(&inst, text.as_bytes(), sol.cost() - 100), Ok(()));
    assert_eq!(check(&inst, b"0 1 0 0 2 0", 40000), Ok(()));
}

#[test]
fn check_names_the_first_fault() {
    let inst = two_customers();
    assert_eq!(check(&inst, b"0 0 1 two 0", 99999), Err(CheckError::Malformed));
    assert_eq!(check(&inst, b"0 0 1 3 0", 99999), Err(CheckError::UnknownCustomer));
    assert_eq!(check(&inst, b"0 0 1 2 0 0 1 0", 99999), Err(CheckError::ServedTwice));
    assert_eq!(check(&inst, b"0 0 1 0", 99999), Err(CheckError::Unserved));
    assert_eq!(check(&inst, b"0 0 1 2", 99999), Err(CheckError::Unserved));
    assert_eq!(check(&inst, b"0 0 1 2 0", 34041), Err(CheckError::CostTooHigh));
    assert_eq!(check(&inst, b"0 1 2 0", 34042), Ok(()));
    let tight = VRPInstance::new(b"3 2 1\n0 0 0\n1 10 0\n1 0 10\n").unwrap();
    assert_eq!(check(&tight, b"0 0 1 2 0", 99999), Err(CheckError::OverCapacity));
    assert_eq!(check(&tight, b"0 0 1 0 0 2 0", 40000), Ok(()));
}
