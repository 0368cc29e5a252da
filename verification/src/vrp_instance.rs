use vstd::prelude::*;
use std::sync::Arc;
use crate::distance::{rows_of, DistanceMatrix};
use crate::geometry::{
    euclidean, is_floor_sqrt, lemma_floor_sqrt_unique, lemma_squared_distance_symmetric,
    squared_distance,
};
use crate::ordering::{is_key_order, order_by_key};

verus! {

/// Length units per unit of the instance's coordinate system.
pub const UNIT: u64 = 1000;

/// The largest number of customers, depot included, that an instance may hold:
/// customer numbers are 16-bit.
pub const MAX_CUSTOMERS: usize = 65535;

/// The largest coordinate, in length units, that a customer may have on
/// either axis and on either side of the origin.
pub const MAX_COORD: i64 = 0x4000_0000;

/// A capacitated vehicle routing problem: a depot (customer `0`), customers
/// with demands and positions, and a fleet of identical vehicles.
pub struct VRPInstance {
    pub num_customers: usize,
    pub num_vehicles: usize,
    pub vehicle_capacity: usize,
    pub demand_of_customer: Vec<usize>,
    pub x_coord_of_customer: Vec<i64>,
    pub y_coord_of_customer: Vec<i64>,
    pub distance_matrix: DistanceMatrix,
    pub max_route_len: usize,
}

impl VRPInstance {
    /// The parallel arrays have one entry per customer, and the distance
    /// matrix is a well-formed table over the customers.
    pub open spec fn wf(&self) -> bool {
        &&& 1 <= self.num_customers <= MAX_CUSTOMERS
        &&& self.demand_of_customer@.len() == self.num_customers
        &&& self.x_coord_of_customer@.len() == self.num_customers
        &&& self.y_coord_of_customer@.len() == self.num_customers
        &&& self.distance_matrix.dim() == self.num_customers
        &&& self.distance_matrix.wf()
        &&& forall|c: int|
            0 <= c < self.num_customers ==> -MAX_COORD <= #[trigger] self.x_coord_of_customer@[c]
                <= MAX_COORD
        &&& forall|c: int|
            0 <= c < self.num_customers ==> -MAX_COORD <= #[trigger] self.y_coord_of_customer@[c]
                <= MAX_COORD
    }

    /// Every distance is the straight-line distance between the two
    /// customers, rounded down.
    pub open spec fn is_euclidean(&self) -> bool {
        forall|i: int, j: int|
            0 <= i < self.num_customers && 0 <= j < self.num_customers ==> is_floor_sqrt(
                squared_distance(
                    self.x_coord_of_customer@[i] as int,
                    self.y_coord_of_customer@[i] as int,
                    self.x_coord_of_customer@[j] as int,
                    self.y_coord_of_customer@[j] as int,
                ),
                #[trigger] self.distance_matrix@[i][j] as int,
            )
    }

    /// Whether the values make an instance: one demand and one position
    /// for each customer, at least the depot, no more customers than
    /// `MAX_CUSTOMERS`, no coordinate beyond `MAX_COORD`.
    pub open spec fn values_ok(demand: Seq<usize>, x: Seq<i64>, y: Seq<i64>) -> bool {
        &&& 1 <= demand.len() <= MAX_CUSTOMERS
        &&& x.len() == demand.len()
        &&& y.len() == demand.len()
        &&& forall|c: int| 0 <= c < x.len() ==> -MAX_COORD <= #[trigger] x[c] <= MAX_COORD
        &&& forall|c: int| 0 <= c < y.len() ==> -MAX_COORD <= #[trigger] y[c] <= MAX_COORD
    }

    /// Whether every entry of `v` lies within `MAX_COORD` of zero.
    fn coords_in_range(v: &Vec<i64>) -> (ok: bool)
        ensures
            ok == forall|c: int| 0 <= c < v@.len() ==> -MAX_COORD <= #[trigger] v@[c] <= MAX_COORD,
    {
        let mut c: usize = 0;
        while c < v.len()
            invariant
                c <= v@.len(),
                forall|j: int| 0 <= j < c ==> -MAX_COORD <= #[trigger] v@[j] <= MAX_COORD,
            decreases v@.len() - c,
        {
            if v[c] < -MAX_COORD || v[c] > MAX_COORD {
                return false;
            }
            c = c + 1;
        }
        true
    }

    /// The instance with the given fleet, demands and positions, customer
    /// `0` being the depot; positions are in length units, and so are the
    /// straight-line distances, rounded down.
    ///
    /// Fails when the values make no instance.
    pub fn from_values(
        num_vehicles: usize,
        vehicle_capacity: usize,
        demand_of_customer: Vec<usize>,
        x_coord_of_customer: Vec<i64>,
        y_coord_of_customer: Vec<i64>,
    ) -> (res: Result<Self, String>)
        ensures
            res is Ok <==> Self::values_ok(
                demand_of_customer@,
                x_coord_of_customer@,
                y_coord_of_customer@,
            ),
            res matches Ok(inst) ==> {
                &&& inst.wf()
                &&& inst.is_euclidean()
                &&& inst.num_customers == demand_of_customer@.len()
                &&& inst.num_vehicles == num_vehicles
                &&& inst.vehicle_capacity == vehicle_capacity
                &&& inst.demand_of_customer@ == demand_of_customer@
                &&& inst.x_coord_of_customer@ == x_coord_of_customer@
                &&& inst.y_coord_of_customer@ == y_coord_of_customer@
            },
    {
        let n = demand_of_customer.len();
        if n < 1 || n > MAX_CUSTOMERS || x_coord_of_customer.len() != n
            || y_coord_of_customer.len() != n {
            return Err("the values make no instance".to_string());
        }
        if !Self::coords_in_range(&x_coord_of_customer) || !Self::coords_in_range(
            &y_coord_of_customer,
        ) {
            return Err("a coordinate is out of range".to_string());
        }
        let ghost xs = x_coord_of_customer@;
        let ghost ys = y_coord_of_customer@;
        let mut rows: Vec<Vec<u32>> = Vec::new();
        let mut i: usize = 0;
        while i < n
            invariant
                i <= n,
                n == xs.len(),
                n == ys.len(),
                xs == x_coord_of_customer@,
                ys == y_coord_of_customer@,
                forall|c: int| 0 <= c < xs.len() ==> -MAX_COORD <= #[trigger] xs[c] <= MAX_COORD,
                forall|c: int| 0 <= c < ys.len() ==> -MAX_COORD <= #[trigger] ys[c] <= MAX_COORD,
                rows@.len() == i,
                forall|a: int| 0 <= a < i ==> (#[trigger] rows@[a])@.len() == n,
                forall|a: int, b: int|
                    0 <= a < i && 0 <= b < n ==> is_floor_sqrt(
                        squared_distance(xs[a] as int, ys[a] as int, xs[b] as int, ys[b] as int),
                        #[trigger] rows@[a]@[b] as int,
                    ),
            decreases n - i,
        {
            let mut row: Vec<u32> = Vec::new();
            let mut j: usize = 0;
            while j < n
                invariant
                    i < n,
                    j <= n,
                    n == xs.len(),
                    n == ys.len(),
                    xs == x_coord_of_customer@,
                    ys == y_coord_of_customer@,
                    forall|c: int|
                        0 <= c < xs.len() ==> -MAX_COORD <= #[trigger] xs[c] <= MAX_COORD,
                    forall|c: int|
                        0 <= c < ys.len() ==> -MAX_COORD <= #[trigger] ys[c] <= MAX_COORD,
                    row@.len() == j,
                    forall|b: int|
                        0 <= b < j ==> is_floor_sqrt(
                            squared_distance(
                                xs[i as int] as int,
                                ys[i as int] as int,
                                xs[b] as int,
                                ys[b] as int,
                            ),
                            #[trigger] row@[b] as int,
                        ),
                decreases n - j,
            {
                row.push(
                    euclidean(
                        x_coord_of_customer[i],
                        y_coord_of_customer[i],
                        x_coord_of_customer[j],
                        y_coord_of_customer[j],
                    ),
                );
                j = j + 1;
            }
            rows.push(row);
            i = i + 1;
        }
        let ghost table = rows_of(rows);
        let distance_matrix = DistanceMatrix::new(rows);
        let max_route_len = Self::max_route_len(demand_of_customer.as_slice(), vehicle_capacity);
        let inst = VRPInstance {
            num_customers: n,
            num_vehicles,
            vehicle_capacity,
            max_route_len,
            demand_of_customer,
            x_coord_of_customer,
            y_coord_of_customer,
            distance_matrix,
        };
        proof {
            assert forall|a: int, b: int| 0 <= a < n && 0 <= b < n implies is_floor_sqrt(
                squared_distance(xs[a] as int, ys[a] as int, xs[b] as int, ys[b] as int),
                #[trigger] inst.distance_matrix@[a][b] as int,
            ) by {
                assert(table[a] == rows@[a]@);
            }
            assert forall|a: int| 0 <= a < inst.distance_matrix@.len() implies (
            #[trigger] inst.distance_matrix@[a]).len() == inst.distance_matrix@.len() by {
                assert(table[a] == rows@[a]@);
            }
            assert forall|a: int, b: int| 0 <= a < n && 0 <= b < n implies #[trigger] inst.distance_matrix@[a][b]
                == inst.distance_matrix@[b][a] by {
                lemma_squared_distance_symmetric(
                    xs[a] as int,
                    ys[a] as int,
                    xs[b] as int,
                    ys[b] as int,
                );
                assert(is_floor_sqrt(
                    squared_distance(xs[b] as int, ys[b] as int, xs[a] as int, ys[a] as int),
                    inst.distance_matrix@[b][a] as int,
                ));
                lemma_floor_sqrt_unique(
                    squared_distance(xs[a] as int, ys[a] as int, xs[b] as int, ys[b] as int),
                    inst.distance_matrix@[a][b] as int,
                    inst.distance_matrix@[b][a] as int,
                );
            }
            assert forall|a: int| 0 <= a < n implies #[trigger] inst.distance_matrix@[a][a] == 0 by {
                lemma_squared_distance_symmetric(
                    xs[a] as int,
                    ys[a] as int,
                    xs[a] as int,
                    ys[a] as int,
                );
                assert(is_floor_sqrt(0, inst.distance_matrix@[a][a] as int));
                assert(is_floor_sqrt(0, 0));
                lemma_floor_sqrt_unique(0, inst.distance_matrix@[a][a] as int, 0);
            }
        }
        Ok(inst)
    }

    /// How many of the smallest demands `sorted`, taken in order, a vehicle
    /// that has `used` of its `capacity` takes on before it is full.
    pub open spec fn packed(sorted: Seq<usize>, capacity: int, used: int) -> int
        decreases sorted.len(),
    {
        if sorted.len() == 0 || used >= capacity {
            0
        } else {
            1 + Self::packed(sorted.drop_first(), capacity, used + sorted[0])
        }
    }

    /// `sorted` are the demands of the customers other than the depot, in
    /// ascending order: the demand at place `k` is that of customer
    /// `order[k] + 1`.
    pub open spec fn is_sorted_demands(
        demands: Seq<usize>,
        order: Seq<usize>,
        sorted: Seq<usize>,
    ) -> bool {
        &&& is_key_order(Seq::new((demands.len() - 1) as nat, |i: int| demands[i + 1] as i128), order)
        &&& sorted.len() == demands.len() - 1
        &&& forall|k: int| 0 <= k < sorted.len() ==> #[trigger] sorted[k] == demands[order[k] + 1]
    }

    /// An upper bound on the number of stops of a route: how many of the
    /// smallest demands, taken in ascending order, a vehicle takes on
    /// before it is full. The first entry of `demands` is the depot's.
    pub fn max_route_len(demands: &[usize], capacity: usize) -> (count: usize)
        requires
            demands@.len() >= 1,
        ensures
            exists|order: Seq<usize>, sorted: Seq<usize>| #[trigger]
                Self::is_sorted_demands(demands@, order, sorted) && count == Self::packed(
                    sorted,
                    capacity as int,
                    0,
                ),
            count <= demands@.len() - 1,
    {
        let m = demands.len() - 1;
        let mut keys: Vec<i128> = Vec::new();
        let mut i: usize = 0;
        while i < m
            invariant
                m == demands@.len() - 1,
                i <= m,
                keys@.len() == i,
                forall|j: int| 0 <= j < i ==> #[trigger] keys@[j] == demands@[j + 1] as i128,
            decreases m - i,
        {
            keys.push(demands[i + 1] as i128);
            i = i + 1;
        }
        let order = order_by_key(&keys);
        let mut sorted_vec: Vec<usize> = Vec::new();
        let mut k: usize = 0;
        while k < m
            invariant
                m == demands@.len() - 1,
                is_key_order(keys@, order@),
                keys@.len() == m,
                k <= m,
                sorted_vec@.len() == k,
                forall|j: int| 0 <= j < k ==> #[trigger] sorted_vec@[j] == demands@[order@[j] + 1],
            decreases m - k,
        {
            sorted_vec.push(demands[order[k] + 1]);
            k = k + 1;
        }
        let ghost sorted = sorted_vec@;
        proof {
            assert(keys@ =~= Seq::new((demands@.len() - 1) as nat, |i: int| demands@[i + 1] as i128));
            assert(Self::is_sorted_demands(demands@, order@, sorted));
        }
        let mut used_cap: u128 = 0;
        let mut count: usize = 0;
        proof {
            assert(sorted.skip(0) =~= sorted);
        }
        while count < m && used_cap < capacity as u128
            invariant
                m == sorted.len(),
                sorted == sorted_vec@,
                count <= m,
                used_cap <= count * 0xffff_ffff_ffff_ffff,
                count + Self::packed(sorted.skip(count as int), capacity as int, used_cap as int)
                    == Self::packed(sorted, capacity as int, 0),
            decreases m - count,
        {
            proof {
                assert(sorted.skip(count as int).drop_first() =~= sorted.skip(count + 1));
                assert(sorted.skip(count as int)[0] == sorted[count as int]);
                assert(count * 0xffff_ffff_ffff_ffff + 0xffff_ffff_ffff_ffff == (count + 1)
                    * 0xffff_ffff_ffff_ffff) by (nonlinear_arith);
                assert((count + 1) * 0xffff_ffff_ffff_ffff <= 0xffff_ffff_ffff_ffff
                    * 0xffff_ffff_ffff_ffff) by (nonlinear_arith)
                    requires
                        count + 1 <= 0xffff_ffff_ffff_ffff,
                ;
            }
            used_cap = used_cap + sorted_vec[count] as u128;
            count = count + 1;
        }
        proof {
            assert(Self::packed(sorted.skip(count as int), capacity as int, used_cap as int) == 0);
        }
        count
    }

    /// How far west of the depot customer `c` lies.
    pub open spec fn spec_dx(&self, c: int) -> int {
        self.x_coord_of_customer@[0] - self.x_coord_of_customer@[c]
    }

    /// How far south of the depot customer `c` lies.
    pub open spec fn spec_dy(&self, c: int) -> int {
        self.y_coord_of_customer@[0] - self.y_coord_of_customer@[c]
    }

    /// The distance between two customers.
    pub open spec fn spec_dist(&self, a: int, b: int) -> int {
        self.distance_matrix.spec_dist(a, b)
    }

    /// The demand of a customer.
    pub open spec fn spec_demand(&self, c: int) -> int {
        self.demand_of_customer@[c] as int
    }
}

/// Another handle on a shared instance.
///
/// Calls `Arc::clone`, which hands out one more pointer to the same
/// allocation; the contract says that the instance behind the new handle is the
/// instance behind the old one.
#[verifier::external_body]
pub(crate) fn share(instance: &Arc<VRPInstance>) -> (shared: Arc<VRPInstance>)
    ensures
        shared == *instance,
{
    Arc::clone(instance)
}

} // verus!
