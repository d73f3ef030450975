use babel::cvg::ladder::{
    after_batch, after_brute_force, after_probe, after_solver, deliverer, infeasibility_of, route_for, rungs,
    status_of, Deliverer, Opening, Rungs, Step, BARREN_BATCHES,
};
use babel::cvg::progress::Route;
use babel::cvg::smt::Verdict;
use babel::cvg::{ConstraintSystem, Infeasibility, InputVariable, Status, Strategy};
use babel::Ast;

fn parse(source: &str) -> Ast {
    babel::parse_unfolded(source, &|text: &str| text.parse::<f64>().expect("a number").to_bits()).expect("should compile")
}

#[test]
fn the_listed_strategies_are_the_rungs() {
    let all = rungs(&[Strategy::BruteSquad, Strategy::HitAndRun, Strategy::Solver], 5);
    assert_eq!(all, Rungs { sampler: true, walker: true, solver: Some(5) });
    let walker_only = rungs(&[Strategy::HitAndRun], 5);
    assert_eq!(walker_only, Rungs { sampler: false, walker: true, solver: None });
    assert_eq!(rungs(&[], 9), Rungs { sampler: false, walker: false, solver: None });
}

#[test]
fn without_a_walker_the_route_is_sampling() {
    assert_eq!(route_for(false, false), Route::Sampling);
    assert_eq!(route_for(true, true), Route::Sampling);
    assert_eq!(route_for(true, false), Route::Walking);
}

#[test]
fn the_opening_climbs_probe_solver_brute_force() {
    let full = Rungs { sampler: true, walker: true, solver: Some(7) };
    assert_eq!(after_probe(true, full, 3), Step::Conclude(Opening::Satisfied));
    assert_eq!(after_probe(false, full, 3), Step::AskSolver { limit: 7 });
    let no_solver = Rungs { sampler: true, walker: false, solver: None };
    assert_eq!(after_probe(false, no_solver, 3), Step::BruteForce { unexpressed: vec![0, 1, 2] });
    let nothing = Rungs { sampler: false, walker: true, solver: None };
    assert_eq!(after_probe(false, nothing, 2), Step::Conclude(Opening::Unproven { unexpressed: vec![0, 1] }));
}

#[test]
fn only_a_proof_ends_the_opening_empty_handed() {
    let proof = Verdict::Impossible { blamed: vec![1] };
    assert_eq!(after_solver(proof, false, true), Step::Conclude(Opening::Impossible { blamed: vec![1] }));
    let shrug = Verdict::Inconclusive { unexpressed: vec![2] };
    assert_eq!(after_solver(shrug, false, true), Step::BruteForce { unexpressed: vec![2] });
    let shrug = Verdict::Inconclusive { unexpressed: vec![2] };
    assert_eq!(after_solver(shrug, false, false), Step::Conclude(Opening::Unproven { unexpressed: vec![2] }));
    let seed = Verdict::Seed { point: vec![0], unexpressed: vec![] };
    assert_eq!(after_solver(seed, true, true), Step::Conclude(Opening::Satisfied));
    let rejected_seed = Verdict::Seed { point: vec![0], unexpressed: vec![] };
    assert_eq!(after_solver(rejected_seed, false, true), Step::BruteForce { unexpressed: vec![] });
    assert_eq!(after_brute_force(true, vec![4]), Opening::Satisfied);
    assert_eq!(after_brute_force(false, vec![4]), Opening::Unproven { unexpressed: vec![4] });
}

#[test]
fn a_batch_comes_from_the_route_strategy_or_from_nobody() {
    assert_eq!(deliverer(Route::Sampling, true, true), Deliverer::Sampler);
    assert_eq!(deliverer(Route::Walking, true, true), Deliverer::Walker);
    assert_eq!(deliverer(Route::Walking, true, false), Deliverer::Nobody);
    assert_eq!(deliverer(Route::Sampling, false, true), Deliverer::Nobody);
}

#[test]
fn three_barren_batches_in_a_row_end_the_search() {
    assert_eq!(BARREN_BATCHES, 3);
    assert_eq!(after_batch(0, false), Some(1));
    assert_eq!(after_batch(1, false), Some(2));
    assert_eq!(after_batch(2, false), None);
    assert_eq!(after_batch(2, true), Some(0));
}

#[test]
fn a_failure_outranks_exhaustion() {
    assert_eq!(status_of(Some("boom".to_string()), true), Status::Failed("boom".to_string()));
    assert_eq!(status_of(None, true), Status::Exhausted);
    assert_eq!(status_of(None, false), Status::Filling);
}

#[test]
fn a_caller_is_told_which_constraints_by_name() {
    let variables = vec![InputVariable::new("x1", 0.0f64.to_bits(), 10.0f64.to_bits())];
    let system = ConstraintSystem::new(variables, vec![parse("x1 < 3"), parse("x1 > 4")]).expect("binds");
    assert!(infeasibility_of(&system, Opening::Satisfied).is_none());
    match infeasibility_of(&system, Opening::Impossible { blamed: vec![1, 0] }) {
        Some(Infeasibility::Proved { blamed }) => {
            assert_eq!(blamed.len(), 2);
            assert_eq!((blamed[0].index, blamed[0].source.as_str()), (1, "x1 > 4"));
            assert_eq!((blamed[1].index, blamed[1].source.as_str()), (0, "x1 < 3"));
        }
        other => panic!("{other:?}"),
    }
    match infeasibility_of(&system, Opening::Unproven { unexpressed: vec![] }) {
        Some(Infeasibility::NotFound { unexpressed }) => assert!(unexpressed.is_empty()),
        other => panic!("{other:?}"),
    }
}
