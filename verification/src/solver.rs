use vstd::prelude::*;
use std::sync::Arc;
use std::time::Duration;
use crate::clock::{elapsed_since, is_longer, now};
use crate::construct::{
    clarke_wright_and_then_sweep, greedy_succeeds, savings_first_result, sweep_first_result,
    sweep_then_clarke_wright,
};
use crate::jump::{drop_count, is_random_drop, try_random_jump};
use crate::random::random_ratio;
use crate::solution::VRPSolution;
use crate::stats::SolveStats;
use crate::vrp_instance::VRPInstance;

verus! {

/// When the search ends: after a number of iterations, or once a span of
/// time has passed.
pub enum TermCond {
    MaxIters(usize),
    TimeElapsed(Duration),
}

/// The way to build the first solution.
pub enum Constructor {
    ClarkeWrightAndThenSweep,
    SweepThenClarkeWright,
}

/// The way to leave a stretch of the search that no longer improves.
pub enum Jumper {
    RandomJump,
}

/// What a run of the search is given.
pub struct SolveParams {
    pub terminate: TermCond,
    /// The share of the customers that a jump drops, in thousandths.
    pub frac_dropped: u32,
    /// A jump follows this many iterations without improvement.
    pub patience: usize,
    pub constructor: Constructor,
    pub jumper: Jumper,
    /// The solution to start from; constructed where there is none.
    pub initial_solution: Option<VRPSolution>,
    /// The noise of each try of the savings heuristic, pair by pair, in
    /// length units.
    pub savings_noise: Vec<Vec<i64>>,
}

/// The gain in cost, in length units, below which two costs count as the
/// same.
pub const NOTICEABLE: u64 = 100;

/// What an iteration made of the cost it reached.
pub struct Verdict {
    /// The cost is noticeably below the best of the run.
    pub new_best: bool,
    /// The cost is noticeably below the best since the last jump.
    pub new_jump_best: bool,
    /// The cost is noticeably below that of the iteration before.
    pub improved: bool,
    /// What the operators of the iteration are credited with.
    pub score: usize,
}

/// Whether `cost` is noticeably below `mark`.
pub open spec fn noticeably_below(cost: u64, mark: u64) -> bool {
    cost + NOTICEABLE < mark
}

/// Judges the cost `new_cost` of an iteration against the best cost of the
/// run, the best since the last jump and the cost of the iteration before:
/// ten for a new best of the run, five for another improvement on the
/// iteration before, one otherwise.
pub fn judge(new_cost: u64, best_cost: u64, best_cost_for_jump: u64, last_cost: u64) -> (v: Verdict)
    ensures
        v.new_best == noticeably_below(new_cost, best_cost),
        v.new_jump_best == noticeably_below(new_cost, best_cost_for_jump),
        v.improved == noticeably_below(new_cost, last_cost),
        v.score == if v.new_best {
            10usize
        } else if v.improved {
            5usize
        } else {
            1usize
        },
{
    let new_best = best_cost > new_cost && best_cost - new_cost > NOTICEABLE;
    let new_jump_best = best_cost_for_jump > new_cost && best_cost_for_jump - new_cost
        > NOTICEABLE;
    let improved = last_cost > new_cost && last_cost - new_cost > NOTICEABLE;
    let score: usize = if new_best {
        10
    } else if improved {
        5
    } else {
        1
    };
    Verdict { new_best, new_jump_best, improved, score }
}

/// A large-neighbourhood search: it stands at a solution, tears part of it
/// down and builds it up again.
pub trait LNSSolver: Sized {
    /// What a destroy hands to the repair that follows.
    type DestroyResult;

    /// The instance that is solved.
    spec fn instance_of(&self) -> VRPInstance;

    /// The solution that the search stands at.
    spec fn solution_of(&self) -> VRPSolution;

    /// The solver can be moved to a valid solution.
    spec fn sound(&self) -> bool;

    /// The solver stands at a valid solution and can destroy.
    spec fn ready(&self) -> bool;

    /// The state after a destroy that handed out `res`.
    spec fn torn(&self, res: &Self::DestroyResult) -> bool;

    /// The state after the tabu update that follows a destroy.
    spec fn noted(&self, res: &Self::DestroyResult) -> bool;

    /// What the search has counted.
    spec fn stats_of(&self) -> SolveStats;

    /// Whether `self` comes of `before` by a destroy that handed out `res`.
    spec fn destroyed(&self, before: &Self, res: &Self::DestroyResult) -> bool;

    /// Whether `self` comes of `before` by a repair of what `res` holds that
    /// ended as `done` says.
    spec fn repaired(
        &self,
        before: &Self,
        res: &Self::DestroyResult,
        done: Result<(), String>,
    ) -> bool;

    /// Whether `self` comes of `before` by crediting what the last
    /// iteration used with `delta`.
    spec fn credited(&self, before: &Self, delta: usize) -> bool;

    /// Whether `self` comes of `before` by adapting the weights to the
    /// scores.
    spec fn reweighed(&self, before: &Self) -> bool;

    /// A ready solver is sound and stands at a valid solution.
    proof fn lemma_ready(&self)
        requires
            self.ready(),
        ensures
            self.sound(),
            self.instance_of().wf(),
            self.solution_of().is_valid(&self.instance_of()),
    ;

    fn new(instance: Arc<VRPInstance>, initial_solution: VRPSolution) -> (solver: Self)
        requires
            instance.wf(),
            initial_solution.is_valid(&instance),
        ensures
            solver.ready(),
            solver.instance_of() == *instance,
            solver.solution_of().agrees_with(&initial_solution),
    ;

    fn current(&self) -> (sol: &VRPSolution)
        ensures
            *sol == self.solution_of(),
    ;

    /// Partially destroys the solution.
    fn destroy(&mut self) -> (res: Self::DestroyResult)
        requires
            old(self).ready(),
        ensures
            final(self).torn(&res),
            final(self).destroyed(old(self), &res),
            final(self).instance_of() == old(self).instance_of(),
    ;

    /// Repairs the solution; where it fails, the solver is sound but stands
    /// at no valid solution.
    fn repair(&mut self, res: Self::DestroyResult) -> (done: Result<(), String>)
        requires
            old(self).noted(&res),
        ensures
            final(self).sound(),
            final(self).repaired(old(self), &res, done),
            final(self).instance_of() == old(self).instance_of(),
            done is Ok ==> final(self).ready(),
    ;

    /// Counts one iteration that reached `new_sol`.
    fn record_iteration(&mut self, iter: usize, new_sol: &VRPSolution, improvement_on_best: i64)
        requires
            new_sol.spec_cost() <= u64::MAX,
        ensures
            final(self).stats_of().counted_iteration(
                &old(self).stats_of(),
                iter,
                new_sol.spec_cost(),
                improvement_on_best,
            ),
            final(self).sound() == old(self).sound(),
            final(self).ready() == old(self).ready(),
            final(self).instance_of() == old(self).instance_of(),
            final(self).solution_of() == old(self).solution_of(),
    ;

    /// Counts one restart.
    fn record_restart(&mut self, iter: usize)
        ensures
            final(self).stats_of().counted_restart(&old(self).stats_of(), iter),
            final(self).sound() == old(self).sound(),
            final(self).ready() == old(self).ready(),
            final(self).instance_of() == old(self).instance_of(),
            final(self).solution_of() == old(self).solution_of(),
    ;

    /// Moves the search to a copy of `sol`.
    fn jump_to_solution(&mut self, sol: &VRPSolution)
        requires
            old(self).sound(),
            sol.is_valid(&old(self).instance_of()),
        ensures
            final(self).ready(),
            final(self).instance_of() == old(self).instance_of(),
            final(self).solution_of().agrees_with(sol),
    ;

    /// Takes note of what a destroy removed.
    fn update_tabu(&mut self, res: &Self::DestroyResult)
        requires
            old(self).torn(res),
        ensures
            final(self).noted(res),
            final(self).instance_of() == old(self).instance_of(),
    ;

    /// Credits what the last iteration used with `delta`.
    fn update_scores(&mut self, delta: usize)
        requires
            old(self).sound(),
        ensures
            final(self).credited(old(self), delta),
            final(self).sound(),
            final(self).ready() == old(self).ready(),
            final(self).instance_of() == old(self).instance_of(),
            final(self).solution_of() == old(self).solution_of(),
    ;

    /// Adapts the weights to the scores.
    fn update_weights(&mut self)
        requires
            old(self).sound(),
        ensures
            final(self).reweighed(old(self)),
            final(self).sound(),
            final(self).ready() == old(self).ready(),
            final(self).instance_of() == old(self).instance_of(),
            final(self).solution_of() == old(self).solution_of(),
    ;
}

/// A search that goes from solution to solution.
pub trait IterativeSolver: Sized {
    /// The instance that is solved.
    spec fn problem(&self) -> VRPInstance;

    /// The solution that the search stands at.
    spec fn standing(&self) -> VRPSolution;

    /// The solver can be moved to a valid solution.
    spec fn movable(&self) -> bool;

    /// The solver stands at a valid solution and can go on.
    spec fn steady(&self) -> bool;

    /// What the search has counted.
    spec fn tally(&self) -> SolveStats;

    /// Whether `self` comes of `before` by crediting what the last step
    /// used with `delta`.
    spec fn scored(&self, before: &Self, delta: usize) -> bool;

    /// Whether `self` comes of `before` by adapting the weights to the
    /// scores.
    spec fn rebalanced(&self, before: &Self) -> bool;

    /// A steady solver is movable and stands at a valid solution.
    proof fn lemma_steady(&self)
        requires
            self.steady(),
        ensures
            self.movable(),
            self.problem().wf(),
            self.standing().is_valid(&self.problem()),
    ;

    fn new(instance: Arc<VRPInstance>, initial_solution: VRPSolution) -> (solver: Self)
        requires
            instance.wf(),
            initial_solution.is_valid(&instance),
        ensures
            solver.steady(),
            solver.problem() == *instance,
            solver.standing().agrees_with(&initial_solution),
    ;

    fn current(&self) -> (sol: &VRPSolution)
        ensures
            *sol == self.standing(),
    ;

    /// One step of the search; `None` where it reached no solution, and
    /// the solver then stands at none.
    fn find_new_solution(&mut self) -> (found: Option<()>)
        requires
            old(self).steady(),
        ensures
            final(self).movable(),
            final(self).problem() == old(self).problem(),
            found is Some ==> final(self).steady(),
    ;

    /// Moves the search to a copy of `sol`.
    fn jump_to_solution(&mut self, sol: &VRPSolution)
        requires
            old(self).movable(),
            sol.is_valid(&old(self).problem()),
        ensures
            final(self).steady(),
            final(self).problem() == old(self).problem(),
            final(self).standing().agrees_with(sol),
    ;

    /// Counts one iteration that reached `new_sol`.
    fn record_iteration(&mut self, iter: usize, new_sol: &VRPSolution, improvement_on_best: i64)
        requires
            new_sol.spec_cost() <= u64::MAX,
        ensures
            final(self).tally().counted_iteration(
                &old(self).tally(),
                iter,
                new_sol.spec_cost(),
                improvement_on_best,
            ),
            final(self).movable() == old(self).movable(),
            final(self).steady() == old(self).steady(),
            final(self).problem() == old(self).problem(),
            final(self).standing() == old(self).standing(),
    ;

    /// Counts one restart.
    fn record_restart(&mut self, iter: usize)
        ensures
            final(self).tally().counted_restart(&old(self).tally(), iter),
            final(self).movable() == old(self).movable(),
            final(self).steady() == old(self).steady(),
            final(self).problem() == old(self).problem(),
            final(self).standing() == old(self).standing(),
    ;

    /// The cost of the solution that the search stands at.
    fn cost(&self) -> (c: u64)
        requires
            self.steady(),
        ensures
            c == self.standing().spec_cost(),
    ;

    /// Credits what the last step used with `delta`.
    fn update_scores(&mut self, delta: usize)
        requires
            old(self).movable(),
        ensures
            final(self).scored(old(self), delta),
            final(self).movable(),
            final(self).steady() == old(self).steady(),
            final(self).problem() == old(self).problem(),
            final(self).standing() == old(self).standing(),
    ;

    /// Adapts the weights to the scores.
    fn update_weights(&mut self)
        requires
            old(self).movable(),
        ensures
            final(self).rebalanced(old(self)),
            final(self).movable(),
            final(self).steady() == old(self).steady(),
            final(self).problem() == old(self).problem(),
            final(self).standing() == old(self).standing(),
    ;
}

impl<T: LNSSolver> IterativeSolver for T {
    open spec fn problem(&self) -> VRPInstance {
        self.instance_of()
    }

    open spec fn standing(&self) -> VRPSolution {
        self.solution_of()
    }

    open spec fn movable(&self) -> bool {
        self.sound()
    }

    open spec fn steady(&self) -> bool {
        self.ready()
    }

    open spec fn tally(&self) -> SolveStats {
        self.stats_of()
    }

    open spec fn scored(&self, before: &Self, delta: usize) -> bool {
        self.credited(before, delta)
    }

    open spec fn rebalanced(&self, before: &Self) -> bool {
        self.reweighed(before)
    }

    proof fn lemma_steady(&self) {
        self.lemma_ready();
    }

    fn new(instance: Arc<VRPInstance>, initial_solution: VRPSolution) -> (solver: Self) {
        <T as LNSSolver>::new(instance, initial_solution)
    }

    fn current(&self) -> (sol: &VRPSolution) {
        <T as LNSSolver>::current(self)
    }

    fn find_new_solution(&mut self) -> (found: Option<()>) {
        let destroy_res = self.destroy();
        self.update_tabu(&destroy_res);
        match self.repair(destroy_res) {
            Ok(()) => Some(()),
            Err(_) => None,
        }
    }

    fn jump_to_solution(&mut self, sol: &VRPSolution) {
        <T as LNSSolver>::jump_to_solution(self, sol)
    }

    fn record_iteration(&mut self, iter: usize, new_sol: &VRPSolution, improvement_on_best: i64) {
        <T as LNSSolver>::record_iteration(self, iter, new_sol, improvement_on_best)
    }

    fn record_restart(&mut self, iter: usize) {
        <T as LNSSolver>::record_restart(self, iter)
    }

    fn cost(&self) -> (c: u64) {
        proof {
            self.lemma_ready();
            self.solution_of().lemma_cost_fits(&self.instance_of());
        }
        <T as LNSSolver>::current(self).cost()
    }

    fn update_scores(&mut self, delta: usize) {
        <T as LNSSolver>::update_scores(self, delta)
    }

    fn update_weights(&mut self) {
        <T as LNSSolver>::update_weights(self)
    }
}

/// Whether `res` is what the first solution of a run may be: a copy of the
/// one given, or what the chosen cascade gives.
pub open spec fn is_first_solution(
    instance: &VRPInstance,
    params: &SolveParams,
    res: Result<VRPSolution, String>,
) -> bool {
    match params.initial_solution {
        Some(given) => res matches Ok(sol) && sol.agrees_with(&given),
        None => match params.constructor {
            Constructor::ClarkeWrightAndThenSweep => savings_first_result(
                instance,
                params.savings_noise@,
                res,
            ),
            Constructor::SweepThenClarkeWright => sweep_first_result(
                instance,
                params.savings_noise@,
                res,
            ),
        },
    }
}

/// The first solution of a run: the one given, or the one constructed.
pub fn first_solution(instance: &Arc<VRPInstance>, params: &SolveParams) -> (res: Result<
    VRPSolution,
    String,
>)
    requires
        instance.wf(),
        params.initial_solution matches Some(sol) ==> sol.is_valid(instance),
    ensures
        res matches Ok(sol) ==> sol.is_valid(instance),
        params.initial_solution matches Some(given) ==> res matches Ok(sol) && sol.agrees_with(
            &given,
        ),
        greedy_succeeds(instance) ==> res is Ok,
        is_first_solution(instance, params, res),
{
    match &params.initial_solution {
        Some(sol) => {
            let copy = sol.clone();
            proof {
                copy.lemma_agreement(sol, instance);
            }
            Ok(copy)
        },
        None => match params.constructor {
            Constructor::ClarkeWrightAndThenSweep => clarke_wright_and_then_sweep(
                instance,
                &params.savings_noise,
            ),
            Constructor::SweepThenClarkeWright => sweep_then_clarke_wright(
                instance,
                &params.savings_noise,
            ),
        },
    }
}

/// A copy of `sol` with its cost.
fn copy_with_cost(sol: &VRPSolution, Ghost(inst): Ghost<&VRPInstance>) -> (res: (VRPSolution, u64))
    requires
        inst.wf(),
        sol.is_valid(inst),
    ensures
        res.0.is_valid(inst),
        res.0.agrees_with(sol),
        res.1 == res.0.spec_cost(),
        res.1 == sol.spec_cost(),
{
    let copy = sol.clone();
    proof {
        copy.lemma_agreement(sol, inst);
        copy.lemma_cost_fits(inst);
    }
    let cost = copy.cost();
    (copy, cost)
}

/// The best solution of a run after an iteration that reached `found`: a
/// copy of `found` where that is noticeably cheaper than `best`, else
/// `best`; and its cost. The best solution never gets dearer, and is never
/// noticeably dearer than a solution that the run has reached.
pub fn keep_best(
    instance: &Arc<VRPInstance>,
    best: VRPSolution,
    best_cost: u64,
    found: &VRPSolution,
    found_cost: u64,
) -> (kept: (VRPSolution, u64))
    requires
        instance.wf(),
        best.is_valid(instance),
        found.is_valid(instance),
        best_cost == best.spec_cost(),
        found_cost == found.spec_cost(),
    ensures
        kept.0.is_valid(instance),
        kept.1 == kept.0.spec_cost(),
        noticeably_below(found_cost, best_cost) ==> kept.0.agrees_with(found) && kept.1
            == found_cost,
        !noticeably_below(found_cost, best_cost) ==> kept.0 == best && kept.1 == best_cost,
        kept.1 <= best_cost,
        kept.1 <= found_cost + NOTICEABLE,
{
    if best_cost > found_cost && best_cost - found_cost > NOTICEABLE {
        copy_with_cost(found, Ghost(instance))
    } else {
        (best, best_cost)
    }
}

/// Solves `instance`: from a first solution, the solver `S` destroys and
/// repairs until `params.terminate` says to end; a solution that did not
/// improve on the one before is kept one time in ten; after
/// `params.patience` iterations without improvement the search jumps. The
/// best solution found is the result; with no iteration allowed it is the
/// first solution.
///
/// Fails when no first solution can be constructed, and when a jump fails.
/// A run of no more iterations than `params.patience` makes no jump.
pub fn solve<S: IterativeSolver>(instance: &Arc<VRPInstance>, params: &SolveParams) -> (res: Result<
    VRPSolution,
    String,
>)
    requires
        instance.wf(),
        params.frac_dropped <= 1000,
        params.initial_solution matches Some(sol) ==> sol.is_valid(instance),
    ensures
        res matches Ok(best) ==> best.is_valid(instance),
        res matches Ok(best) ==> (params.initial_solution matches Some(given)
            ==> best.spec_cost() <= given.spec_cost()),
        (params.initial_solution is Some || greedy_succeeds(instance)) && drop_count(
            instance.num_customers as int,
            params.frac_dropped as int,
        ) == 0 ==> res is Ok,
        res matches Ok(best) ==> exists|first: VRPSolution| #[trigger]
            is_first_solution(instance, params, Ok(first)) && first.is_valid(instance)
                && best.spec_cost() <= first.spec_cost(),
        res is Err ==> (exists|r: Result<VRPSolution, String>| #[trigger]
            is_first_solution(instance, params, r) && r is Err) || (exists|
            base: VRPSolution,
            failed: Result<VRPSolution, String>,
        |
            base.is_valid(instance) && #[trigger] is_random_drop(
                instance,
                base.plan(),
                params.frac_dropped as int,
                failed,
            ) && failed is Err),
        params.terminate matches TermCond::MaxIters(n) ==> (n <= params.patience && (
        params.initial_solution is Some || greedy_succeeds(instance)) ==> res is Ok),
        params.terminate matches TermCond::MaxIters(n) ==> (n == 0 ==> is_first_solution(
            instance,
            params,
            res,
        )),
{
    let made = first_solution(instance, params);
    let ghost made_at_first = made;
    let mut best = match made {
        Ok(sol) => sol,
        Err(e) => {
            let res: Result<VRPSolution, String> = Err(e);
            proof {
                assert(res == made_at_first);
                assert(is_first_solution(instance, params, res) && res is Err);
            }
            return res;
        },
    };
    let ghost initial_cost = best.spec_cost();
    let ghost first = best;
    proof {
        assert(made_at_first == Ok::<VRPSolution, String>(first));
        assert(is_first_solution(instance, params, Ok(first)));
        if params.initial_solution is Some {
            best.lemma_agreement(&params.initial_solution->Some_0, instance);
        }
        best.lemma_cost_fits(instance);
    }
    let mut best_cost = best.cost();
    let (mut best_for_jump, mut best_cost_for_jump) = copy_with_cost(&best, Ghost(instance));
    let (start_at, _) = copy_with_cost(&best, Ghost(instance));
    let mut solver = S::new(crate::vrp_instance::share(instance), start_at);
    let mut stagnant_iterations: usize = 0;
    let mut last_cost = best_cost;
    let limit: usize = match params.terminate {
        TermCond::MaxIters(max) => max,
        TermCond::TimeElapsed(_) => usize::MAX,
    };
    let start = now();
    let mut iter: usize = 0;
    let mut timed_out = false;
    while iter < limit && !timed_out
        invariant
            instance.wf(),
            params.frac_dropped <= 1000,
            solver.steady(),
            solver.problem() == **instance,
            best.is_valid(instance),
            best_for_jump.is_valid(instance),
            best_cost == best.spec_cost(),
            best_cost_for_jump == best_for_jump.spec_cost(),
            best_cost <= initial_cost,
            initial_cost == first.spec_cost(),
            first.is_valid(instance),
            is_first_solution(instance, params, Ok(first)),
            iter <= limit,
            iter == 0 ==> best == first,
            stagnant_iterations <= iter,
            params.terminate matches TermCond::MaxIters(n) ==> limit == n,
        decreases
                limit - iter + if timed_out {
                    0int
                } else {
                    1int
                },
    {
        if let TermCond::TimeElapsed(max_time) = params.terminate {
            let spent = elapsed_since(&start);
            if is_longer(&spent, &max_time) {
                timed_out = true;
            }
        }
        if !timed_out {
            proof {
                solver.lemma_steady();
            }
            let old_solution = solver.current().clone();
            proof {
                old_solution.lemma_agreement(&solver.standing(), instance);
            }
            match solver.find_new_solution() {
                None => {
                    solver.jump_to_solution(&old_solution);
                },
                Some(()) => {
                    proof {
                        solver.lemma_steady();
                    }
                    let (new_solution, new_cost) = copy_with_cost(
                        solver.current(),
                        Ghost(instance),
                    );
                    proof {
                        new_solution.lemma_cost_fits(instance);
                        best.lemma_cost_fits(instance);
                    }
                    solver.record_iteration(
                        iter,
                        &new_solution,
                        best_cost as i64 - new_cost as i64,
                    );
                    let verdict = judge(new_cost, best_cost, best_cost_for_jump, last_cost);
                    if verdict.new_jump_best {
                        let (copy, cost) = copy_with_cost(&new_solution, Ghost(instance));
                        best_for_jump = copy;
                        best_cost_for_jump = cost;
                    }
                    let kept = keep_best(instance, best, best_cost, &new_solution, new_cost);
                    best = kept.0;
                    best_cost = kept.1;
                    proof {
                        solver.lemma_steady();
                    }
                    solver.update_scores(verdict.score);
                    if verdict.improved {
                        stagnant_iterations = 0;
                    } else {
                        if stagnant_iterations < usize::MAX {
                            stagnant_iterations = stagnant_iterations + 1;
                        }
                        if random_ratio(9, 10) {
                            solver.jump_to_solution(&old_solution);
                        }
                    }
                    if iter % 1000 == 0 {
                        proof {
                            solver.lemma_steady();
                        }
                        solver.update_weights();
                    }
                    last_cost = new_cost;
                    if stagnant_iterations > params.patience {
                        stagnant_iterations = 0;
                        let base = if random_ratio(1, 5) {
                            copy_with_cost(&best_for_jump, Ghost(instance)).0
                        } else {
                            copy_with_cost(&best, Ghost(instance)).0
                        };
                        let ghost start_from = base;
                        let jumped = match params.jumper {
                            Jumper::RandomJump => try_random_jump(instance, base, params.frac_dropped),
                        };
                        let new_sol = match jumped {
                            Ok(new_sol) => new_sol,
                            Err(e) => {
                                proof {
                                    let failed = choose|failed: Result<VRPSolution, String>| #[trigger]
                                        is_random_drop(
                                            instance,
                                            start_from.plan(),
                                            params.frac_dropped as int,
                                            failed,
                                        ) && failed is Err;
                                    assert(start_from.is_valid(instance) && is_random_drop(
                                        instance,
                                        start_from.plan(),
                                        params.frac_dropped as int,
                                        failed,
                                    ) && failed is Err);
                                }
                                return Err(e);
                            },
                        };
                        solver.record_restart(iter);
                        let (copy, cost) = copy_with_cost(&new_sol, Ghost(instance));
                        best_for_jump = copy;
                        best_cost_for_jump = cost;
                        proof {
                            solver.lemma_steady();
                        }
                        solver.jump_to_solution(&new_sol);
                    }
                },
            }
            iter = iter + 1;
        }
    }
    Ok(best)
}

} // verus!
