//! The decisions of a search, apart from the searching.
//!
//! Which rungs are configured, what the opening does after each one, which
//! strategy delivers a batch, when a run of empty batches ends the search,
//! and what a caller is told. The host performs each step (a probe, a
//! solver call, brute force, a batch) and hands back what came of it.
use vstd::prelude::*;

use super::progress::Route;
use super::smt::Verdict;
use super::{ConstraintRef, ConstraintSystem, Infeasibility, Status, Strategy};

verus! {

/// The empty batches in a row after which a search is over.
pub const BARREN_BATCHES: usize = 3;

/// The points handed over per trip, at most.
pub const BATCH_SIZE: usize = 32;

/// What the search concluded while looking for its first point, with
/// constraints named by index.
#[derive(Debug, Clone, PartialEq, Eq)]
pub enum Opening {
    /// At least one feasible point is in hand.
    Satisfied,
    /// A solver proved the region empty, blaming these.
    Impossible { blamed: Vec<usize> },
    /// Nothing found and nothing proven; these were put to nothing that could
    /// reason about them.
    Unproven { unexpressed: Vec<usize> },
}

/// What the opening does next.
#[derive(Debug, Clone, PartialEq, Eq)]
pub enum Step {
    /// Ask the solver, with this resource limit.
    AskSolver { limit: u32 },
    /// Run brute force; should it land nothing, these stay unexpressed.
    BruteForce { unexpressed: Vec<usize> },
    /// The opening is over.
    Conclude(Opening),
}

/// The rungs a search has: rejection sampling, the walker, and the solver
/// with its resource limit.
#[derive(Debug, Clone, Copy, PartialEq, Eq)]
pub struct Rungs {
    pub sampler: bool,
    pub walker: bool,
    pub solver: Option<u32>,
}

/// Who delivers a batch.
#[derive(Debug, Clone, Copy, PartialEq, Eq, Structural)]
pub enum Deliverer {
    Sampler,
    Walker,
    /// The route's strategy is not configured: the batch is empty.
    Nobody,
}

fn listed(strategies: &[Strategy], wanted: Strategy) -> (found: bool)
    ensures
        found == strategies@.contains(wanted),
{
    let mut i: usize = 0;
    while i < strategies.len()
        invariant
            i <= strategies@.len(),
            forall|j: int| 0 <= j < i ==> strategies@[j] != wanted,
        decreases strategies@.len() - i,
    {
        if strategies[i] == wanted {
            proof {
                assert(strategies@[i as int] == wanted);
            }
            return true;
        }
        i += 1;
    }
    false
}

/// The rungs `strategies` configure: each strategy listed is a rung, the
/// solver with `solver_limit`.
pub fn rungs(strategies: &[Strategy], solver_limit: u32) -> (r: Rungs)
    ensures
        r.sampler == strategies@.contains(Strategy::BruteSquad),
        r.walker == strategies@.contains(Strategy::HitAndRun),
        r.solver == (if strategies@.contains(Strategy::Solver) {
            Some(solver_limit)
        } else {
            None
        }),
{
    let solver = if listed(strategies, Strategy::Solver) {
        Some(solver_limit)
    } else {
        None
    };
    Rungs {
        sampler: listed(strategies, Strategy::BruteSquad),
        walker: listed(strategies, Strategy::HitAndRun),
        solver,
    }
}

/// The route the probe settles. Without a walker plain sampling is all there
/// is; with one, sampling only where the probe landed `enough`.
pub fn route_for(walker: bool, enough: bool) -> (route: Route)
    ensures
        route == (if !walker || enough {
            Route::Sampling
        } else {
            Route::Walking
        }),
{
    if !walker || enough {
        Route::Sampling
    } else {
        Route::Walking
    }
}

/// The indices `0..n`.
pub open spec fn all_indices(n: nat) -> Seq<usize> {
    Seq::new(n, |i: int| i as usize)
}

/// What follows once a rung is done, `in_hand` telling whether points are
/// held: a held point settles it; otherwise brute force, if configured, and
/// else nothing found.
pub open spec fn settle(in_hand: bool, sampler: bool, unexpressed: Seq<usize>) -> Option<Seq<usize>> {
    if in_hand {
        None
    } else {
        Some(unexpressed)
    }
}

/// The step that a rung leaving `in_hand` calls for, `unexpressed` being what
/// no solver has reasoned about.
fn settled(in_hand: bool, sampler: bool, unexpressed: Vec<usize>) -> (step: Step)
    ensures
        in_hand ==> step == Step::Conclude(Opening::Satisfied),
        !in_hand && sampler ==> (step matches Step::BruteForce { unexpressed: u } && u@ == unexpressed@),
        !in_hand && !sampler ==> (step matches Step::Conclude(Opening::Unproven { unexpressed: u })
            && u@ == unexpressed@),
{
    if in_hand {
        Step::Conclude(Opening::Satisfied)
    } else if sampler {
        Step::BruteForce { unexpressed }
    } else {
        Step::Conclude(Opening::Unproven { unexpressed })
    }
}

/// What the opening does once the probe (or, without a sampler, nothing) has
/// run: a point in hand settles it; else the solver, if configured; else
/// brute force with every one of the `constraints` unexpressed.
pub fn after_probe(in_hand: bool, rungs: Rungs, constraints: usize) -> (step: Step)
    ensures
        in_hand ==> step == Step::Conclude(Opening::Satisfied),
        !in_hand && (rungs.solver is Some) ==> step == (Step::AskSolver { limit: rungs.solver->0 }),
        !in_hand && (rungs.solver is None) && rungs.sampler ==> (step matches Step::BruteForce { unexpressed: u }
            && u@ == all_indices(constraints as nat)),
        !in_hand && (rungs.solver is None) && !rungs.sampler ==> (step matches Step::Conclude(
            Opening::Unproven { unexpressed: u },
        ) && u@ == all_indices(constraints as nat)),
{
    if in_hand {
        return Step::Conclude(Opening::Satisfied);
    }
    match rungs.solver {
        Some(limit) => Step::AskSolver { limit },
        None => {
            let mut all: Vec<usize> = Vec::new();
            let mut i: usize = 0;
            while i < constraints
                invariant
                    i <= constraints,
                    all@ =~= all_indices(constraints as nat).take(i as int),
                decreases constraints - i,
            {
                all.push(i);
                i += 1;
            }
            proof {
                assert(all@ =~= all_indices(constraints as nat));
            }
            settled(false, rungs.sampler, all)
        },
    }
}

/// The step after an SMT verdict. Infeasibility stops the search. Otherwise
/// the search continues with the constraints the verdict could not express;
/// `in_hand` says whether feasible points are held after any seed was checked.
pub fn after_solver(verdict: Verdict, in_hand: bool, sampler: bool) -> (step: Step)
    ensures
        match verdict {
            Verdict::Impossible { blamed } => step matches Step::Conclude(Opening::Impossible { blamed: b })
                && b@ == blamed@,
            Verdict::Inconclusive { unexpressed } | Verdict::Seed { unexpressed, .. } => {
                &&& in_hand ==> step == Step::Conclude(Opening::Satisfied)
                &&& !in_hand && sampler ==> (step matches Step::BruteForce { unexpressed: u } && u@
                    == unexpressed@)
                &&& !in_hand && !sampler ==> (step matches Step::Conclude(Opening::Unproven { unexpressed: u })
                    && u@ == unexpressed@)
            },
        },
{
    match verdict {
        Verdict::Impossible { blamed } => Step::Conclude(Opening::Impossible { blamed }),
        Verdict::Inconclusive { unexpressed } => settled(in_hand, sampler, unexpressed),
        Verdict::Seed { unexpressed, .. } => settled(in_hand, sampler, unexpressed),
    }
}

/// The verdict once brute force has run: satisfied if anything is in hand.
pub fn after_brute_force(in_hand: bool, unexpressed: Vec<usize>) -> (opening: Opening)
    ensures
        in_hand ==> opening == Opening::Satisfied,
        !in_hand ==> (opening matches Opening::Unproven { unexpressed: u } && u@ == unexpressed@),
{
    if in_hand {
        Opening::Satisfied
    } else {
        Opening::Unproven { unexpressed }
    }
}

/// Who delivers on `route`: the sampler for sampling, the walker for
/// walking, and nobody when that strategy is not configured.
pub fn deliverer(route: Route, sampler: bool, walker: bool) -> (d: Deliverer)
    ensures
        d == (match route {
            Route::Sampling => if sampler {
                Deliverer::Sampler
            } else {
                Deliverer::Nobody
            },
            Route::Walking => if walker {
                Deliverer::Walker
            } else {
                Deliverer::Nobody
            },
        }),
{
    match route {
        Route::Sampling => if sampler {
            Deliverer::Sampler
        } else {
            Deliverer::Nobody
        },
        Route::Walking => if walker {
            Deliverer::Walker
        } else {
            Deliverer::Nobody
        },
    }
}

/// The run of empty batches after one more: back to none when the batch
/// delivered, and `None` (the search is over) once it reaches
/// [`BARREN_BATCHES`].
pub fn after_batch(barren: usize, delivered: bool) -> (next: Option<usize>)
    requires
        barren < BARREN_BATCHES,
    ensures
        delivered ==> next == Some(0usize),
        !delivered && barren + 1 < BARREN_BATCHES ==> next == Some((barren + 1) as usize),
        !delivered && barren + 1 >= BARREN_BATCHES ==> next is None,
{
    if delivered {
        Some(0)
    } else if barren + 1 >= BARREN_BATCHES {
        None
    } else {
        Some(barren + 1)
    }
}

/// What a pool is doing: failed if its worker left a failure, else exhausted
/// once it finished, else filling.
pub fn status_of(failure: Option<String>, exhausted: bool) -> (status: Status)
    ensures
        match failure {
            Some(f) => status matches Status::Failed(g) && g@ == f@,
            None => status == (if exhausted {
                Status::Exhausted
            } else {
                Status::Filling
            }),
        },
{
    match failure {
        Some(f) => Status::Failed(f),
        None => if exhausted {
            Status::Exhausted
        } else {
            Status::Filling
        },
    }
}

fn name_all(system: &ConstraintSystem, indices: &Vec<usize>) -> (named: Vec<ConstraintRef>)
    requires
        forall|i: int| 0 <= i < indices@.len() ==> indices@[i] < system.spec_constraints().len(),
    ensures
        names(*system, indices@, named@),
{
    let mut named: Vec<ConstraintRef> = Vec::new();
    let mut k: usize = 0;
    while k < indices.len()
        invariant
            k <= indices@.len(),
            forall|i: int| 0 <= i < indices@.len() ==> indices@[i] < system.spec_constraints().len(),
            named@.len() == k,
            forall|i: int|
                0 <= i < k ==> #[trigger] named@[i].index == indices@[i] && named@[i].source@
                    == system.spec_constraints()[indices@[i] as int].spec_source(),
        decreases indices@.len() - k,
    {
        named.push(system.named(indices[k]));
        k += 1;
    }
    named
}

/// Whether `named` names, in order, the constraints of `system` at `indices`.
pub open spec fn names(system: ConstraintSystem, indices: Seq<usize>, named: Seq<ConstraintRef>) -> bool {
    &&& named.len() == indices.len()
    &&& forall|i: int|
        0 <= i < indices.len() ==> #[trigger] named[i].index == indices[i] && named[i].source@
            == system.spec_constraints()[indices[i] as int].spec_source()
}

/// What a caller is told of `opening`: nothing when it is satisfied, else
/// the constraints a proof blamed, or those no solver reasoned about, named.
pub open spec fn told(system: ConstraintSystem, opening: Opening, r: Option<Infeasibility>) -> bool {
    match opening {
        Opening::Satisfied => r is None,
        Opening::Impossible { blamed } => match r {
            Some(Infeasibility::Proved { blamed: named }) => names(system, blamed@, named@),
            _ => false,
        },
        Opening::Unproven { unexpressed } => match r {
            Some(Infeasibility::NotFound { unexpressed: named }) => names(system, unexpressed@, named@),
            _ => false,
        },
    }
}

/// Every constraint `opening` names is one of `system`'s.
pub open spec fn names_in(system: ConstraintSystem, opening: Opening) -> bool {
    match opening {
        Opening::Impossible { blamed } => forall|i: int|
            0 <= i < blamed@.len() ==> blamed@[i] < system.spec_constraints().len(),
        Opening::Unproven { unexpressed } => forall|i: int|
            0 <= i < unexpressed@.len() ==> unexpressed@[i] < system.spec_constraints().len(),
        Opening::Satisfied => true,
    }
}

/// [`told`]: what a caller is told when the opening found nothing. `None`
/// when the opening is satisfied.
pub fn infeasibility_of(system: &ConstraintSystem, opening: Opening) -> (r: Option<Infeasibility>)
    requires
        names_in(*system, opening),
    ensures
        told(*system, opening, r),
{
    match opening {
        Opening::Satisfied => None,
        Opening::Impossible { blamed } => Some(Infeasibility::Proved { blamed: name_all(system, &blamed) }),
        Opening::Unproven { unexpressed } => Some(
            Infeasibility::NotFound { unexpressed: name_all(system, &unexpressed) },
        ),
    }
}

} // verus!
