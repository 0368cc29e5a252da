use vstd::prelude::*;
use std::sync::Arc;
use crate::adaptive::ALNSSolver;
use crate::solution::VRPSolution;
use crate::solver::LNSSolver;
use crate::stats::SolveStats;
use crate::stop::Stop;
use crate::vrp_instance::VRPInstance;

verus! {

/// A large-neighbourhood search that removes up to five customers at
/// random and puts each back where it raises the cost least.
pub struct MultiLNSSolver {
    search: ALNSSolver,
}

impl MultiLNSSolver {
    /// The search state: the solution, the instance and the tabu pools.
    pub closed spec fn spec_search(&self) -> ALNSSolver {
        self.search
    }

    /// What the search keeps count of.
    pub fn get_stats_mut(&mut self) -> (stats: &mut SolveStats)
        ensures
            *stats == old(self).spec_search().spec_stats(),
            final(self).spec_search().spec_stats() == *final(stats),
            final(self).spec_search().spec_repair_ops() == old(self).spec_search().spec_repair_ops(),
            final(self).spec_search().spec_destroy_ops()
                == old(self).spec_search().spec_destroy_ops(),
            final(self).spec_search().spec_last_used() == old(self).spec_search().spec_last_used(),
            final(self).spec_search().spec_instance() == old(self).spec_search().spec_instance(),
            final(self).spec_search().spec_current() == old(self).spec_search().spec_current(),
            final(self).spec_search().spec_tabu() == old(self).spec_search().spec_tabu(),
            final(self).spec_search().spec_not_tabu() == old(self).spec_search().spec_not_tabu(),
    {
        self.search.get_stats_mut()
    }
}

impl LNSSolver for MultiLNSSolver {
    /// The stops that were removed, each with the route that served it.
    type DestroyResult = Vec<(Stop, usize)>;

    open spec fn instance_of(&self) -> VRPInstance {
        self.spec_search().spec_instance()
    }

    open spec fn solution_of(&self) -> VRPSolution {
        self.spec_search().spec_current()
    }

    open spec fn sound(&self) -> bool {
        self.spec_search().spec_instance().wf() && self.spec_search().ops_wf()
    }

    open spec fn ready(&self) -> bool {
        self.spec_search().intact()
    }

    open spec fn torn(&self, res: &Vec<(Stop, usize)>) -> bool {
        self.spec_search().damaged(res@)
    }

    open spec fn noted(&self, res: &Vec<(Stop, usize)>) -> bool {
        self.spec_search().marked(res@)
    }

    open spec fn stats_of(&self) -> SolveStats {
        self.spec_search().spec_stats()
    }

    open spec fn destroyed(&self, before: &Self, res: &Vec<(Stop, usize)>) -> bool {
        &&& self.spec_search().removal_effect(&before.spec_search(), res@, 5)
        &&& self.spec_search().spec_last_used() == before.spec_search().spec_last_used()
    }

    open spec fn repaired(
        &self,
        before: &Self,
        res: &Vec<(Stop, usize)>,
        done: Result<(), String>,
    ) -> bool {
        self.spec_search().best_insertion_effect(&before.spec_search(), res@, done)
    }

    open spec fn credited(&self, before: &Self, delta: usize) -> bool {
        self.spec_search() == before.spec_search()
    }

    open spec fn reweighed(&self, before: &Self) -> bool {
        self.spec_search() == before.spec_search()
    }

    proof fn lemma_ready(&self) {
        self.spec_search().lemma_intact_is_valid();
    }

    fn new(instance: Arc<VRPInstance>, initial_solution: VRPSolution) -> (solver: Self) {
        MultiLNSSolver { search: ALNSSolver::new(instance, initial_solution) }
    }

    fn current(&self) -> (sol: &VRPSolution) {
        self.search.current()
    }

    fn destroy(&mut self) -> (res: Vec<(Stop, usize)>) {
        let available = self.search.removable();
        let n: usize = if available < 5 {
            available
        } else {
            5
        };
        if n == 0 {
            let none: Vec<(Stop, usize)> = Vec::new();
            proof {
                self.search.lemma_nothing_removed(none@);
            }
            return none;
        }
        let removed_stops = self.search.remove_n_random_stops(n);
        self.search.note_removed(&removed_stops);
        removed_stops
    }

    fn repair(&mut self, res: Vec<(Stop, usize)>) -> (done: Result<(), String>) {
        let ghost before = self.search;
        let ghost pending = res@;
        let reinserted = self.search.reinsert_n_stops_in_best_spots(res);
        let ghost mid = self.search;
        let ghost back = reinserted;
        let done: Result<(), String> = match reinserted {
            Ok(route_idxs) => {
                self.search.note_added(&route_idxs);
                Ok(())
            },
            Err(e) => Err(e),
        };
        proof {
            mid.lemma_repaired_by_routes(&before, &self.search, &before, true, pending, back);
            assert(self.search.placed_by_demand(&before, pending, back) && (back is Ok <==> done
                is Ok));
        }
        done
    }

    fn record_iteration(&mut self, iter: usize, new_sol: &VRPSolution, improvement_on_best: i64) {
        self.search.record_iteration(iter, new_sol, improvement_on_best);
    }

    fn record_restart(&mut self, iter: usize) {
        self.search.record_restart(iter);
    }

    fn jump_to_solution(&mut self, sol: &VRPSolution) {
        self.search.jump_to_solution(sol)
    }

    fn update_tabu(&mut self, res: &Vec<(Stop, usize)>) {
        self.search.update_tabu(res)
    }

    /// There are no scores to update.
    fn update_scores(&mut self, delta: usize) {
    }

    /// There are no weights to update.
    fn update_weights(&mut self) {
    }
}

} // verus!
