use vstd::prelude::*;
use std::collections::HashMap;
use crate::solution::VRPSolution;

verus! {

/// The smallest gain on the best cost, in length units, that counts as an
/// improvement worth recording.
pub const RECORDED_GAIN: i64 = 10;

/// `counts` with the count of `key` raised by one, as far as `usize` goes.
pub open spec fn bumped(counts: Map<usize, usize>, key: usize) -> Map<usize, usize> {
    let was = if counts.contains_key(key) {
        counts[key]
    } else {
        0
    };
    counts.insert(
        key,
        if was < usize::MAX {
            (was + 1) as usize
        } else {
            was
        },
    )
}

/// Raises the count of `key` by one.
pub fn bump(counts: &mut HashMap<usize, usize>, key: usize)
    ensures
        final(counts)@ == bumped(old(counts)@, key),
{
    broadcast use vstd::std_specs::hash::group_hash_axioms;

    let was = match counts.get(&key) {
        Some(count) => *count,
        None => 0,
    };
    let now = if was < usize::MAX {
        was + 1
    } else {
        was
    };
    counts.insert(key, now);
}

/// `counts` with the count of each of `keys` raised by one, in turn.
pub open spec fn bumped_each(counts: Map<usize, usize>, keys: Seq<usize>) -> Map<usize, usize>
    decreases keys.len(),
{
    if keys.len() == 0 {
        counts
    } else {
        bumped(bumped_each(counts, keys.drop_last()), keys.last())
    }
}

/// What a solver run keeps count of.
#[derive(Debug)]
pub struct SolveStats {
    pub iterations: usize,
    pub improvements: Vec<(usize, u64)>,
    pub restarts: Vec<usize>,
    pub cust_change_freq: HashMap<usize, usize>,
    pub route_remove_freq: HashMap<usize, usize>,
    pub route_add_freq: HashMap<usize, usize>,
}

impl SolveStats {
    /// Whether the counts are those of `before` with one iteration more,
    /// and with the cost `cost` recorded at iteration `iter` where the gain
    /// on the best cost was more than `RECORDED_GAIN`.
    pub open spec fn counted_iteration(
        &self,
        before: &SolveStats,
        iter: usize,
        cost: int,
        improvement_on_best: i64,
    ) -> bool {
        &&& self.iterations == if before.iterations < usize::MAX {
            before.iterations + 1
        } else {
            before.iterations as int
        }
        &&& self.improvements@ == if improvement_on_best > RECORDED_GAIN {
            before.improvements@.push((iter, cost as u64))
        } else {
            before.improvements@
        }
        &&& self.restarts@ == before.restarts@
        &&& self.cust_change_freq@ == before.cust_change_freq@
        &&& self.route_remove_freq@ == before.route_remove_freq@
        &&& self.route_add_freq@ == before.route_add_freq@
    }

    /// Whether the counts are those of `before` with a restart at iteration
    /// `iter` recorded.
    pub open spec fn counted_restart(&self, before: &SolveStats, iter: usize) -> bool {
        &&& self.restarts@ == before.restarts@.push(iter)
        &&& self.iterations == before.iterations
        &&& self.improvements@ == before.improvements@
        &&& self.cust_change_freq@ == before.cust_change_freq@
        &&& self.route_remove_freq@ == before.route_remove_freq@
        &&& self.route_add_freq@ == before.route_add_freq@
    }

    /// Whether the counts are those of `before` with each of `customers`
    /// counted as changed and each of `routes` as a route that lost a stop.
    pub open spec fn counted_removed(
        &self,
        before: &SolveStats,
        customers: Seq<usize>,
        routes: Seq<usize>,
    ) -> bool {
        &&& self.cust_change_freq@ == bumped_each(before.cust_change_freq@, customers)
        &&& self.route_remove_freq@ == bumped_each(before.route_remove_freq@, routes)
        &&& self.route_add_freq@ == before.route_add_freq@
        &&& self.iterations == before.iterations
        &&& self.improvements@ == before.improvements@
        &&& self.restarts@ == before.restarts@
    }

    /// Whether the counts are those of `before` with each of `routes`
    /// counted as a route that took a stop on.
    pub open spec fn counted_added(&self, before: &SolveStats, routes: Seq<usize>) -> bool {
        &&& self.route_add_freq@ == bumped_each(before.route_add_freq@, routes)
        &&& self.cust_change_freq@ == before.cust_change_freq@
        &&& self.route_remove_freq@ == before.route_remove_freq@
        &&& self.iterations == before.iterations
        &&& self.improvements@ == before.improvements@
        &&& self.restarts@ == before.restarts@
    }

    /// Counts that stand at nothing.
    pub fn new() -> (stats: Self)
        ensures
            stats.iterations == 0,
            stats.improvements@ == Seq::<(usize, u64)>::empty(),
            stats.restarts@ == Seq::<usize>::empty(),
            stats.cust_change_freq@ == Map::<usize, usize>::empty(),
            stats.route_remove_freq@ == Map::<usize, usize>::empty(),
            stats.route_add_freq@ == Map::<usize, usize>::empty(),
    {
        SolveStats {
            iterations: 0,
            improvements: Vec::new(),
            restarts: Vec::new(),
            cust_change_freq: HashMap::new(),
            route_add_freq: HashMap::new(),
            route_remove_freq: HashMap::new(),
        }
    }

    /// Counts one iteration, and records the cost of `new_sol` where it
    /// gained more than `RECORDED_GAIN` on the best cost.
    pub fn update_on_iter(&mut self, iter: usize, new_sol: &VRPSolution, improvement_on_best: i64)
        requires
            new_sol.spec_cost() <= u64::MAX,
        ensures
            final(self).counted_iteration(old(self), iter, new_sol.spec_cost(), improvement_on_best),
    {
        if improvement_on_best > RECORDED_GAIN {
            self.improvements.push((iter, new_sol.cost()));
        }
        if self.iterations < usize::MAX {
            self.iterations = self.iterations + 1;
        }
    }

    /// Records a restart at iteration `iter`.
    pub fn on_restart(&mut self, iter: usize)
        ensures
            final(self).counted_restart(old(self), iter),
    {
        self.restarts.push(iter);
    }
}

} // verus!
