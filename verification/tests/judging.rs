use babel::ast::{BinaryOp, UnaryOp};
use babel::cvg::emit::SmtLogic;
use babel::cvg::problem::Problem;
use babel::cvg::{ConstraintSystem, InputVariable};
use babel::eval::evaluate::Samples;
use babel::frontend::invert::Inverse;
use babel::{compile, Ast, Schema};

fn literal_bits(text: &str) -> u64 {
    text.parse::<f64>().expect("a number").to_bits()
}

fn unary(op: UnaryOp, x: u64) -> u64 {
    let x = f64::from_bits(x);
    let value = match op {
        UnaryOp::Negate => -x,
        UnaryOp::Cos => x.cos(),
        UnaryOp::Sin => x.sin(),
        UnaryOp::Tan => x.tan(),
        UnaryOp::Acos => x.acos(),
        UnaryOp::Asin => x.asin(),
        UnaryOp::Atan => x.atan(),
        UnaryOp::Cosh => x.cosh(),
        UnaryOp::Sinh => x.sinh(),
        UnaryOp::Tanh => x.tanh(),
        UnaryOp::Cot => 1.0 / x.tan(),
        UnaryOp::Ln => x.ln(),
        UnaryOp::Log10 => x.log10(),
        UnaryOp::Abs => x.abs(),
        UnaryOp::Sqrt => x.sqrt(),
        UnaryOp::Cbrt => x.cbrt(),
        UnaryOp::Sqr => x * x,
        UnaryOp::Cube => x * x * x,
        UnaryOp::Ceil => x.ceil(),
        UnaryOp::Floor => x.floor(),
        UnaryOp::Sgn => {
            if x == 0.0 || x.is_nan() {
                x
            } else {
                x.signum()
            }
        }
    };
    value.to_bits()
}

fn binary(op: BinaryOp, a: u64, b: u64) -> u64 {
    let (a, b) = (f64::from_bits(a), f64::from_bits(b));
    let value = match op {
        BinaryOp::Add => a + b,
        BinaryOp::Sub => a - b,
        BinaryOp::Mul => a * b,
        BinaryOp::Div => a / b,
        BinaryOp::Rem => a % b,
        BinaryOp::Pow => a.powf(b),
        BinaryOp::Max => {
            if a.is_nan() || b.is_nan() {
                f64::NAN
            } else {
                a.max(b)
            }
        }
        BinaryOp::Min => {
            if a.is_nan() || b.is_nan() {
                f64::NAN
            } else {
                a.min(b)
            }
        }
        BinaryOp::LogB => b.ln() / a.ln(),
    };
    value.to_bits()
}

fn inverse(which: Inverse, c: u64) -> u64 {
    let c = f64::from_bits(c);
    let value = match which {
        Inverse::Exp => c.exp(),
        Inverse::TenTo => 10.0_f64.powf(c),
        Inverse::Square => c * c,
        Inverse::Cube => c * c * c,
        Inverse::CubeRoot => c.cbrt(),
        Inverse::Asinh => c.asinh(),
        Inverse::Atanh => c.atanh(),
        Inverse::Tan => c.tan(),
        Inverse::LogBase(base) => c.ln() / f64::from_bits(base).ln(),
        Inverse::PowerOf(base) => f64::from_bits(base).powf(c),
    };
    value.to_bits()
}

fn compile_all(sources: &[&str]) -> Vec<Ast> {
    sources
        .iter()
        .map(|source| {
            babel::parse(source, &literal_bits, &unary, &binary, &inverse)
                .unwrap_or_else(|e| panic!("{source:?}: {e:?}"))
        })
        .collect()
}

fn variable(name: &str, lower: f64, upper: f64) -> InputVariable {
    InputVariable::new(name, lower.to_bits(), upper.to_bits())
}

fn problem_for(inputs: Vec<InputVariable>, constraints: Vec<Ast>) -> Problem {
    let system = ConstraintSystem::new(inputs, constraints).expect("a consistent system");
    Problem::new(system, SmtLogic::from_variable(None)).expect("a problem the tape can run")
}

fn bits(point: &[f64]) -> Vec<u64> {
    point.iter().map(|value| value.to_bits()).collect()
}

fn matrix(points: &[Vec<f64>], rows: usize) -> Samples {
    let mut values = Vec::new();
    for point in points {
        assert_eq!(point.len(), rows);
        values.extend(bits(point));
    }
    Samples { rows, columns: points.len(), values }
}

/// A grid of candidates, some deliberately outside the box.
fn candidates() -> Vec<Vec<f64>> {
    let mut points = Vec::new();
    for i in 0..40 {
        let x1 = f64::from(i) * 0.3 - 1.0;
        let x2 = f64::from(i % 7) - 3.0;
        points.push(vec![x1, x2]);
    }
    points
}

fn batched_judging_agrees() {
    let inputs = vec![variable("x1", 0.0, 10.0), variable("x2", -5.0, 5.0)];
    let constraints = compile_all(&["x1 > 4", "ln(x1) < 2", "x2 * x2 < 5"]);
    let problem = problem_for(inputs, constraints);

    let points = candidates();
    let batched = problem.feasible_columns(&matrix(&points, 2), &unary, &binary);
    let one_at_a_time: Vec<Vec<u64>> = points
        .iter()
        .map(|point| bits(point))
        .filter(|point| problem.is_feasible(point, &unary, &binary))
        .collect();

    assert!(!batched.is_empty(), "the grid should contain feasible points");
    assert_eq!(batched, one_at_a_time);
    assert_eq!(problem.keep_feasible(points.iter().map(|p| bits(p)).collect(), &unary, &binary), batched);
}

#[test]
fn judging_tests_batched_judging_agrees_with_per_point_is_feasible() {
    batched_judging_agrees();
}

#[test]
fn problem_batched_judging_agrees_with_per_point_is_feasible() {
    batched_judging_agrees();
}

/// `sqrt(x1 - 5)` is NaN below five and is left alone by the front end, so
/// those candidates fault; lenient judging calls them infeasible.
fn faulting_candidate_is_infeasible() {
    let inputs = vec![variable("x1", 0.0, 10.0)];
    let constraints = compile_all(&["sqrt(x1 - 5) + x1 < 6"]);
    let schema = Schema::new(vec!["x1".to_string()]);
    let strict = compile(&constraints[0], &schema).unwrap();
    let problem = problem_for(inputs, constraints);

    let points: Vec<Vec<f64>> = (0..100).map(|i| vec![f64::from(i) * 0.1]).collect();
    let samples = matrix(&points, 1);

    assert!(strict.eval(&samples, &unary, &binary).is_err());

    let feasible = problem.feasible_columns(&samples, &unary, &binary);
    assert!(!feasible.is_empty());
    for point in &feasible {
        let x = f64::from_bits(point[0]);
        assert!(x >= 5.0 && x < 6.0, "{point:?}");
    }
    let expected: Vec<Vec<u64>> = points
        .iter()
        .map(|point| bits(point))
        .filter(|point| problem.is_feasible(point, &unary, &binary))
        .collect();
    assert_eq!(feasible, expected);
}

#[test]
fn judging_tests_a_faulting_candidate_is_infeasible_rather_than_fatal() {
    faulting_candidate_is_infeasible();
}

#[test]
fn problem_a_faulting_candidate_is_infeasible_rather_than_fatal() {
    faulting_candidate_is_infeasible();
}

fn wrong_height_yields_nothing() {
    let problem = problem_for(vec![variable("x1", 0.0, 10.0)], compile_all(&["x1 > 1"]));
    let wrong = Samples { rows: 2, columns: 5, values: vec![5.0f64.to_bits(); 10] };
    assert!(problem.feasible_columns(&wrong, &unary, &binary).is_empty());
}

#[test]
fn judging_tests_a_candidate_matrix_of_the_wrong_height_yields_nothing() {
    wrong_height_yields_nothing();
}

#[test]
fn problem_a_candidate_matrix_of_the_wrong_height_yields_nothing() {
    wrong_height_yields_nothing();
}

#[test]
fn a_point_outside_the_box_is_infeasible() {
    let problem = problem_for(vec![variable("x1", 0.0, 10.0)], compile_all(&["x1 > 1"]));
    assert!(problem.is_feasible(&bits(&[5.0]), &unary, &binary));
    assert!(!problem.is_feasible(&bits(&[0.5]), &unary, &binary));
    assert!(!problem.is_feasible(&bits(&[11.0]), &unary, &binary));
    assert_eq!(problem.box_bounds(), vec![(0.0f64.to_bits(), 10.0f64.to_bits())]);
}
