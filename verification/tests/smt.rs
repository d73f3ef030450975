use babel::cvg::smt::{blamed_of, verdict_of, Outcome, Verdict};
use babel::cvg::InputVariable;

fn inputs() -> Vec<InputVariable> {
    vec![
        InputVariable::new("x1", (-8.0f64).to_bits(), 8.0f64.to_bits()),
        InputVariable::new("x2", 1.0f64.to_bits(), 2.0f64.to_bits()),
    ]
}

#[test]
fn an_unsat_core_blames_the_constraints_it_names() {
    let terms: Vec<String> = ["c3", "aux_0_1", "c0", "c", "x1", "c12"].iter().map(|t| t.to_string()).collect();
    assert_eq!(blamed_of(&terms), vec![3, 0, 12]);
    assert_eq!(blamed_of(&[]), Vec::<usize>::new());
}

#[test]
fn unsat_is_a_proof_only_when_nothing_was_left_out() {
    let unsat = || Outcome::Unsat { blamed: vec![1, 4] };
    assert_eq!(verdict_of(unsat(), &inputs(), vec![]), Verdict::Impossible { blamed: vec![1, 4] });
    assert_eq!(verdict_of(unsat(), &inputs(), vec![2]), Verdict::Inconclusive { unexpressed: vec![2] });
    assert_eq!(verdict_of(Outcome::Unknown, &inputs(), vec![]), Verdict::Inconclusive { unexpressed: vec![] });
}

#[test]
fn a_model_seeds_a_point_and_falls_back_to_the_lower_bound() {
    let model = Outcome::Sat(vec![
        ("aux_0_0".to_string(), 3.0f64.to_bits()),
        ("x1".to_string(), 0.5f64.to_bits()),
        ("x1".to_string(), 7.0f64.to_bits()),
    ]);
    assert_eq!(
        verdict_of(model, &inputs(), vec![5]),
        Verdict::Seed { point: vec![0.5f64.to_bits(), 1.0f64.to_bits()], unexpressed: vec![5] }
    );
}
