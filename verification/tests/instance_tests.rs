use vrp_alns::distance::DistanceMatrix;
use vrp_alns::geometry::{euclidean, isqrt};
use vrp_alns::vrp_instance::VRPInstance;

#[test]
fn three_four_five_triangle_is_exact() {
    // depot at (0, 0), the customer at (3, 4)
    let inst = VRPInstance::from_values(1, 10, vec![0, 1], vec![0, 3000], vec![0, 4000]).unwrap();
    assert_eq!(inst.distance_matrix.dist(0, 1), 5000);
    assert_eq!(inst.distance_matrix.dist(0, 1) as f64 / 1000.0, 5.0);
    assert_eq!(inst.distance_matrix.dist(1, 0), 5000);
    assert_eq!(inst.distance_matrix.dist(0, 0), 0);
    assert_eq!(inst.distance_matrix.dist(1, 1), 0);
}

#[test]
fn distances_are_symmetric_and_rounded_down() {
    let inst = VRPInstance::from_values(
        1,
        10,
        vec![0, 1, 1],
        vec![0, 10000, 0],
        vec![0, 0, 10000],
    ).unwrap();
    assert_eq!(inst.distance_matrix.len(), 3);
    assert_eq!(inst.distance_matrix.dist(1, 2), 14142);
    assert_eq!(inst.distance_matrix.dist(2, 1), 14142);
    for i in 0..3 {
        assert_eq!(inst.distance_matrix.dist(i, i), 0);
    }
}

#[test]
fn isqrt_rounds_down() {
    assert_eq!(isqrt(0), 0);
    assert_eq!(isqrt(1), 1);
    assert_eq!(isqrt(3), 1);
    assert_eq!(isqrt(4), 2);
    assert_eq!(isqrt(24), 4);
    assert_eq!(isqrt(25), 5);
    assert_eq!(isqrt(200_000_000), 14142);
    assert_eq!(isqrt(u64::MAX), u32::MAX);
}

#[test]
fn euclidean_takes_far_points() {
    let far = 1 << 30;
    assert_eq!(euclidean(-far, 0, far, 0), 1 << 31);
    assert_eq!(euclidean(0, 0, 0, 0), 0);
    assert_eq!(euclidean(1000, 1000, 4000, 5000), 5000);
}

#[test]
fn instance_keeps_its_values() {
    let inst = VRPInstance::from_values(
        3,
        20,
        vec![0, 5, 7],
        vec![0, 1000, -2000],
        vec![0, 1000, 500],
    ).unwrap();
    assert_eq!(inst.num_customers, 3);
    assert_eq!(inst.num_vehicles, 3);
    assert_eq!(inst.vehicle_capacity, 20);
    assert_eq!(inst.demand_of_customer, vec![0, 5, 7]);
    assert_eq!(inst.x_coord_of_customer, vec![0, 1000, -2000]);
    assert_eq!(inst.y_coord_of_customer, vec![0, 1000, 500]);
    assert_eq!(inst.max_route_len, 2);
}

#[test]
fn values_that_make_no_instance_are_refused() {
    assert!(VRPInstance::from_values(1, 10, vec![], vec![], vec![]).is_err());
    assert!(VRPInstance::from_values(1, 10, vec![0, 1], vec![0], vec![0, 1]).is_err());
    assert!(VRPInstance::from_values(1, 10, vec![0, 1], vec![0, 1], vec![0]).is_err());
    let far = (1 << 30) + 1;
    assert!(VRPInstance::from_values(1, 10, vec![0, 1], vec![0, far], vec![0, 0]).is_err());
    assert!(VRPInstance::from_values(1, 10, vec![0, 1], vec![0, 0], vec![0, -far]).is_err());
    assert!(VRPInstance::from_values(1, 10, vec![0, 1], vec![0, far - 1], vec![0, 1 - far]).is_ok());
}

#[test]
fn max_route_len_packs_the_smallest_demands() {
    // the depot's demand is left out; 1 + 2 + 3 reach the capacity of 6
    assert_eq!(VRPInstance::max_route_len(&[0, 5, 3, 1, 2], 6), 3);
    // a vehicle takes customers on until it is full, the last one included
    assert_eq!(VRPInstance::max_route_len(&[0, 5, 3, 1, 2], 4), 3);
    assert_eq!(VRPInstance::max_route_len(&[0, 5, 3, 1, 2], 100), 4);
    assert_eq!(VRPInstance::max_route_len(&[0, 5, 3, 1, 2], 0), 0);
    assert_eq!(VRPInstance::max_route_len(&[9], 10), 0);
    assert_eq!(VRPInstance::max_route_len(&[0, usize::MAX, usize::MAX], usize::MAX), 1);
}

#[test]
fn distance_matrix_hands_out_its_entries() {
    let m = DistanceMatrix::new(vec![vec![0, 7], vec![7, 0]]);
    assert_eq!(m.len(), 2);
    assert_eq!(m.dist(0, 1), 7);
    assert_eq!(m.dist(1, 1), 0);
}
