use vstd::prelude::*;
use std::sync::Arc;
use crate::geometry::{is_floor_sqrt, isqrt};
use crate::savings::route_index_of;
use crate::solution::VRPSolution;
use crate::vrp_instance::VRPInstance;

verus! {

/// The pairs of customers `(p, k)` with `i == p < k < j` that ride together
/// in one of the two solutions and apart in the other.
pub open spec fn differing_row(a: &VRPSolution, b: &VRPSolution, i: int, j: int) -> int
    decreases j - i,
{
    if j <= i + 1 {
        0
    } else {
        differing_row(a, b, i, j - 1) + if a.together(i, j - 1) != b.together(i, j - 1) {
            1int
        } else {
            0int
        }
    }
}

/// The pairs of customers `(p, k)` with `1 <= p < i` and `p < k < n` that
/// ride together in one of the two solutions and apart in the other.
pub open spec fn differing_pairs(a: &VRPSolution, b: &VRPSolution, n: int, i: int) -> int
    decreases i,
{
    if i <= 1 {
        0
    } else {
        differing_pairs(a, b, n, i - 1) + differing_row(a, b, i - 1, n)
    }
}

impl VRPSolution {
    /// Whether one route serves both customers.
    pub open spec fn together(&self, i: int, j: int) -> bool {
        exists|r: int|
            0 <= r < self.routes@.len() && #[trigger] self.routes@[r].serves(i)
                && self.routes@[r].serves(j)
    }

    /// The route of each customer, the depot counted with the first route.
    fn routes_of_customers(&self, instance: &Arc<VRPInstance>) -> (routes: Vec<usize>)
        requires
            instance.wf(),
            self.is_valid(instance),
        ensures
            routes@.len() == instance.num_customers,
            forall|c: int|
                1 <= c < instance.num_customers ==> (#[trigger] routes@[c]) < self.routes@.len()
                    && self.routes@[routes@[c] as int].serves(c),
    {
        let mut routes: Vec<usize> = Vec::new();
        routes.push(0);
        let mut c: usize = 1;
        while c < instance.num_customers
            invariant
                instance.wf(),
                self.is_valid(instance),
                1 <= c <= instance.num_customers,
                routes@.len() == c,
                forall|x: int|
                    1 <= x < c ==> (#[trigger] routes@[x]) < self.routes@.len()
                        && self.routes@[routes@[x] as int].serves(x),
            decreases instance.num_customers - c,
        {
            let r = route_index_of(self, c as u16);
            proof {
                assert(self.serves(c as int));
                if r >= self.routes@.len() {
                    let q = choose|q: int|
                        0 <= q < self.routes@.len() && (#[trigger] self.routes@[q]).serves(
                            c as int,
                        );
                    crate::savings::lemma_route_with_finds(self.plan(), c as int, 0, q);
                }
            }
            routes.push(r);
            c = c + 1;
        }
        routes
    }

    /// How unlike two solutions are: the square root, in thousandths and
    /// rounded down, of the number of pairs of customers that ride together
    /// in one of them and apart in the other.
    pub fn distance(a: &Self, b: &Self, instance: &Arc<VRPInstance>) -> (d: u32)
        requires
            instance.wf(),
            a.is_valid(instance),
            b.is_valid(instance),
        ensures
            is_floor_sqrt(
                differing_pairs(
                    a,
                    b,
                    instance.num_customers as int,
                    instance.num_customers as int,
                ) * 1_000_000,
                d as int,
            ),
    {
        let n = instance.num_customers;
        let map_a = a.routes_of_customers(instance);
        let map_b = b.routes_of_customers(instance);
        let mut dist: u64 = 0;
        let mut i: usize = 1;
        while i < n
            invariant
                instance.wf(),
                n == instance.num_customers,
                a.is_valid(instance),
                b.is_valid(instance),
                1 <= i <= n,
                map_a@.len() == n,
                map_b@.len() == n,
                forall|c: int|
                    1 <= c < n ==> (#[trigger] map_a@[c]) < a.routes@.len()
                        && a.routes@[map_a@[c] as int].serves(c),
                forall|c: int|
                    1 <= c < n ==> (#[trigger] map_b@[c]) < b.routes@.len()
                        && b.routes@[map_b@[c] as int].serves(c),
                dist == differing_pairs(a, b, n as int, i as int),
                dist <= i * 0x1_0000,
            decreases n - i,
        {
            let mut row: u64 = 0;
            let mut j: usize = i + 1;
            while j < n
                invariant
                    instance.wf(),
                    n == instance.num_customers,
                    a.is_valid(instance),
                    b.is_valid(instance),
                    1 <= i < j <= n,
                    map_a@.len() == n,
                    map_b@.len() == n,
                    forall|c: int|
                        1 <= c < n ==> (#[trigger] map_a@[c]) < a.routes@.len()
                            && a.routes@[map_a@[c] as int].serves(c),
                    forall|c: int|
                        1 <= c < n ==> (#[trigger] map_b@[c]) < b.routes@.len()
                            && b.routes@[map_b@[c] as int].serves(c),
                    row == differing_row(a, b, i as int, j as int),
                    row <= j,
                decreases n - j,
            {
                let same_a = map_a[i] == map_a[j];
                let same_b = map_b[i] == map_b[j];
                proof {
                    a.lemma_together(i as int, j as int, map_a@[i as int] as int, map_a@[j as int] as int);
                    b.lemma_together(i as int, j as int, map_b@[i as int] as int, map_b@[j as int] as int);
                }
                if same_a != same_b {
                    row = row + 1;
                }
                j = j + 1;
            }
            dist = dist + row;
            i = i + 1;
        }
        assert(dist * 1_000_000 <= 0x1_0000 * 0x1_0000 * 1_000_000) by (nonlinear_arith)
            requires
                dist <= n * 0x1_0000,
                n <= 0x1_0000,
        ;
        isqrt(dist * 1_000_000)
    }

    /// In a solution whose routes share no customer, two customers ride
    /// together where the routes that serve them are one route.
    pub proof fn lemma_together(&self, i: int, j: int, ri: int, rj: int)
        requires
            self.routes_disjoint(),
            0 <= ri < self.routes@.len(),
            0 <= rj < self.routes@.len(),
            self.routes@[ri].serves(i),
            self.routes@[rj].serves(j),
        ensures
            self.together(i, j) <==> ri == rj,
    {
        if self.together(i, j) {
            let r = choose|r: int|
                0 <= r < self.routes@.len() && #[trigger] self.routes@[r].serves(i)
                    && self.routes@[r].serves(j);
            if r != ri {
                assert(!(self.routes@[r].serves(i) && self.routes@[ri].serves(i)));
            }
            if r != rj {
                assert(!(self.routes@[r].serves(j) && self.routes@[rj].serves(j)));
            }
        }
        if ri == rj {
            assert(self.routes@[ri].serves(i) && self.routes@[ri].serves(j));
        }
    }
}

} // verus!
