use babel::ast::{BinaryOp, Expr, Kind, UnaryOp};
use babel::diagnostics::{CompilationFailure, EvalError, ProblemKind, Span};
use babel::eval::evaluate;
use babel::eval::lower::Tape;
use babel::eval::tape::{Insn, Reg};
use babel::frontend::invert::Inverse;
use babel::cvg::classify::{shape, Shape};
use babel::cvg::emit::{emit, literal_magnitudes, SmtLogic};
use babel::cvg::InputVariable;
use babel::{compile, Ast, Schema};

fn literal_bits(text: &str) -> u64 {
    text.parse::<f64>().expect("a number").to_bits()
}

fn unary(op: UnaryOp, x: u64) -> u64 {
    let x = f64::from_bits(x);
    let value = match op {
        UnaryOp::Negate => -x,
        UnaryOp::Cos => x.cos(),
        UnaryOp::Sin => x.sin(),
        UnaryOp::Tan => x.tan(),
        UnaryOp::Acos => x.acos(),
        UnaryOp::Asin => x.asin(),
        UnaryOp::Atan => x.atan(),
        UnaryOp::Cosh => x.cosh(),
        UnaryOp::Sinh => x.sinh(),
        UnaryOp::Tanh => x.tanh(),
        UnaryOp::Cot => 1.0 / x.tan(),
        UnaryOp::Ln => x.ln(),
        UnaryOp::Log10 => x.log10(),
        UnaryOp::Abs => x.abs(),
        UnaryOp::Sqrt => x.sqrt(),
        UnaryOp::Cbrt => x.cbrt(),
        UnaryOp::Sqr => x * x,
        UnaryOp::Cube => x * x * x,
        UnaryOp::Ceil => x.ceil(),
        UnaryOp::Floor => x.floor(),
        UnaryOp::Sgn => {
            if x == 0.0 || x.is_nan() {
                x
            } else {
                x.signum()
            }
        }
    };
    value.to_bits()
}

fn binary(op: BinaryOp, a: u64, b: u64) -> u64 {
    let (a, b) = (f64::from_bits(a), f64::from_bits(b));
    let value = match op {
        BinaryOp::Add => a + b,
        BinaryOp::Sub => a - b,
        BinaryOp::Mul => a * b,
        BinaryOp::Div => a / b,
        BinaryOp::Rem => a % b,
        BinaryOp::Pow => a.powf(b),
        BinaryOp::Max => {
            if a.is_nan() || b.is_nan() {
                f64::NAN
            } else {
                a.max(b)
            }
        }
        BinaryOp::Min => {
            if a.is_nan() || b.is_nan() {
                f64::NAN
            } else {
                a.min(b)
            }
        }
        BinaryOp::LogB => b.ln() / a.ln(),
    };
    value.to_bits()
}

fn inverse(which: Inverse, c: u64) -> u64 {
    let c = f64::from_bits(c);
    let value = match which {
        Inverse::Exp => c.exp(),
        Inverse::TenTo => 10.0_f64.powf(c),
        Inverse::Square => c * c,
        Inverse::Cube => c * c * c,
        Inverse::CubeRoot => c.cbrt(),
        Inverse::Asinh => c.asinh(),
        Inverse::Atanh => c.atanh(),
        Inverse::Tan => c.tan(),
        Inverse::LogBase(base) => c.ln() / f64::from_bits(base).ln(),
        Inverse::PowerOf(base) => f64::from_bits(base).powf(c),
    };
    value.to_bits()
}

fn parse(source: &str) -> Result<Ast, CompilationFailure> {
    babel::parse(source, &literal_bits, &unary, &binary, &inverse)
}

fn compiled(source: &str) -> Ast {
    parse(source).unwrap_or_else(|e| panic!("{source:?}: {e:?}"))
}

fn eval_one(ast: &Ast, inputs: &[(&str, f64)]) -> Result<f64, EvalError> {
    let inputs: Vec<(String, u64)> = inputs.iter().map(|(name, value)| (name.to_string(), value.to_bits())).collect();
    evaluate::eval_one(ast, &inputs, &unary, &binary).map(f64::from_bits)
}

fn mentions_pow(node: &Expr) -> bool {
    match &node.kind {
        Kind::Binary { op, lhs, rhs } => *op == BinaryOp::Pow || mentions_pow(lhs) || mentions_pow(rhs),
        Kind::Unary { arg, .. } => mentions_pow(arg),
        Kind::Block(block) => block.assignments.iter().any(|a| mentions_pow(&a.value)) || mentions_pow(&block.result),
        Kind::Fold { terms, .. } => terms.iter().any(mentions_pow),
        _ => false,
    }
}

fn tape_for(source: &str, names: &[&str]) -> Tape {
    let schema = Schema::new(names.iter().map(|name| name.to_string()).collect());
    match compile(&compiled(source), &schema) {
        Ok(c) => c.tape,
        Err(e) => panic!("{source:?}: {e:?}"),
    }
}

/// The bits of the greatest value below a positive `x`.
fn below(x: f64) -> u64 {
    assert!(x > 0.0);
    x.to_bits() - 1
}

/// The bits of the least value above a negative `x`.
fn above(x: f64) -> u64 {
    assert!(x < 0.0);
    x.to_bits() - 1
}

fn bits(values: &[f64]) -> Vec<u64> {
    values.iter().map(|v| v.to_bits()).collect()
}

fn collect_literals(node: &Expr, into: &mut Vec<f64>) {
    match &node.kind {
        Kind::Literal(value) => into.push(f64::from_bits(*value)),
        Kind::Unary { arg, .. } => collect_literals(arg, into),
        Kind::Binary { lhs, rhs, .. } => {
            collect_literals(lhs, into);
            collect_literals(rhs, into);
        }
        _ => {}
    }
}

fn mentions_unary(node: &Expr, wanted: UnaryOp) -> bool {
    match &node.kind {
        Kind::Unary { op, arg } => *op == wanted || mentions_unary(arg, wanted),
        Kind::Binary { lhs, rhs, .. } => mentions_unary(lhs, wanted) || mentions_unary(rhs, wanted),
        Kind::Compare { lhs, rhs, .. } => mentions_unary(lhs, wanted) || mentions_unary(rhs, wanted),
        Kind::Fold { terms, .. } => terms.iter().any(|t| mentions_unary(t, wanted)),
        _ => false,
    }
}

fn mentions_any_unary(node: &Expr) -> bool {
    match &node.kind {
        Kind::Unary { .. } => true,
        Kind::Binary { lhs, rhs, .. } | Kind::Compare { lhs, rhs, .. } => {
            mentions_any_unary(lhs) || mentions_any_unary(rhs)
        }
        _ => false,
    }
}

fn holds_comparison(node: &Expr) -> bool {
    match &node.kind {
        Kind::Compare { .. } | Kind::NearEq { .. } => true,
        Kind::Unary { arg, .. } => holds_comparison(arg),
        Kind::Binary { lhs, rhs, .. } => holds_comparison(lhs) || holds_comparison(rhs),
        Kind::DynamicIndex(index) => holds_comparison(index),
        Kind::Block(block) => {
            block.assignments.iter().any(|a| holds_comparison(&a.value)) || holds_comparison(&block.result)
        }
        Kind::Fold { terms, .. } => terms.iter().any(holds_comparison),
        _ => false,
    }
}

#[test]
fn a_constant_call_becomes_a_literal() {
    let expression = compiled("sin(2.3)");
    match expression.program().body.result.kind {
        Kind::Literal(value) => assert_eq!(f64::from_bits(value), 2.3_f64.sin()),
        ref other => panic!("expected a literal, got {other:?}"),
    }
}

#[test]
fn folding_stops_at_the_first_variable() {
    let expression = compiled("x1 * (2 + 3) + sqrt(16)");
    let mut literals = Vec::new();
    collect_literals(&expression.program().body.result, &mut literals);
    assert_eq!(literals, vec![5.0, 4.0]);
}

#[test]
fn a_non_finite_constant_is_refused() {
    for source in ["ln(-1)", "sqrt(-1)", "1/0", "0/0", "1.0e400", "1.0e400 * 1.0"] {
        let failure = parse(source).expect_err(&format!("{source} should not compile"));
        assert!(
            failure.problems.iter().any(|p| matches!(p.kind, ProblemKind::NonFiniteConstant { .. })),
            "{source:?} reported {:?}",
            failure.problems
        );
    }
}

#[test]
fn an_aggregate_bound_that_needed_folding_still_unrolls() {
    let expression = compiled("sum(1, 2+3, i -> i)");
    match &expression.program().body.result.kind {
        Kind::Fold { terms, .. } => assert_eq!(terms.len(), 5),
        other => panic!("expected a flat fold, got {other:?}"),
    }
}

#[test]
fn whole_powers_expand_and_nothing_else_does() {
    let terms = |source: &str| -> Option<usize> {
        let expression = compiled(source);
        match &expression.program().body.result.kind {
            Kind::Fold { terms, .. } => Some(terms.len()),
            _ => None,
        }
    };

    assert_eq!(terms("x1^2"), Some(2));
    assert_eq!(terms("x1^5"), Some(5));
    assert_eq!(terms("x1^1"), Some(1));
    assert_eq!(terms("x1^64"), Some(64), "the cap is inclusive");

    let zero = compiled("x1^0");
    assert!(matches!(zero.program().body.result.kind, Kind::Literal(v) if f64::from_bits(v) == 1.0));

    let negative = compiled("x1^-2");
    assert!(matches!(negative.program().body.result.kind, Kind::Binary { op: BinaryOp::Div, .. }));

    for left_alone in ["x1^65", "x1^2.5", "x1^x2"] {
        let expression = compiled(left_alone);
        assert!(
            matches!(expression.program().body.result.kind, Kind::Binary { op: BinaryOp::Pow, .. }),
            "{left_alone:?} was expanded when it should not have been"
        );
    }
}

#[test]
fn a_variable_bound_is_left_alone() {
    let expression = compiled("ln(x1) > x2");
    assert!(
        mentions_unary(&expression.program().body.result, UnaryOp::Ln),
        "a logarithm against a variable was inverted"
    );
}

#[test]
fn a_monotone_function_no_longer_appears() {
    let expression = compiled("2 < ln(x1)");
    assert!(!mentions_unary(&expression.program().body.result, UnaryOp::Ln));
    match &expression.program().body.result.kind {
        Kind::Compare { op, lhs, rhs } => {
            assert_eq!(*op, babel::ast::CompareOp::Gt);
            assert!(matches!(lhs.kind, Kind::Global(_)));
            match rhs.kind {
                // e^2, widened one ulp downward for a lower bound.
                Kind::Literal(bound) => assert_eq!(bound, below(2.0_f64.exp())),
                ref other => panic!("expected the bound, got {other:?}"),
            }
        }
        other => panic!("expected a comparison, got {other:?}"),
    }
}

#[test]
fn an_inverted_bound_is_widened_by_one_ulp_outward() {
    let lower = compiled("ln(x1) > 2");
    match &lower.program().body.result.kind {
        Kind::Compare { rhs, .. } => match rhs.kind {
            Kind::Literal(bound) => assert_eq!(bound, below(2.0_f64.exp())),
            ref other => panic!("{other:?}"),
        },
        other => panic!("{other:?}"),
    }
    let upper = compiled("sqrt(x1) >= 3");
    match &upper.program().body.result.kind {
        Kind::Compare { op, rhs, .. } => {
            assert_eq!(*op, babel::ast::CompareOp::Gte);
            match rhs.kind {
                Kind::Literal(bound) => assert_eq!(bound, below(9.0)),
                ref other => panic!("{other:?}"),
            }
        }
        other => panic!("{other:?}"),
    }
}

#[test]
fn an_upper_bound_carries_the_domain_as_a_max() {
    let expression = compiled("ln(x1) < 2");
    match &expression.program().body.result.kind {
        Kind::Compare { op, lhs, rhs } => {
            assert_eq!(*op, babel::ast::CompareOp::Lte);
            assert!(matches!(rhs.kind, Kind::Literal(0)));
            assert!(matches!(lhs.kind, Kind::Binary { op: BinaryOp::Max, .. }));
        }
        other => panic!("{other:?}"),
    }
}

#[test]
fn a_decreasing_function_reverses_the_comparison() {
    let expression = compiled("0.5 ^ x1 > 8");
    match &expression.program().body.result.kind {
        Kind::Compare { op, rhs, .. } => {
            assert_eq!(*op, babel::ast::CompareOp::Lt);
            match rhs.kind {
                Kind::Literal(bound) => assert_eq!(bound, above(8.0_f64.ln() / 0.5_f64.ln())),
                ref other => panic!("{other:?}"),
            }
        }
        other => panic!("{other:?}"),
    }
}

#[test]
fn a_constant_outside_the_range_is_left_alone_as_written() {
    for source in ["atan(x1) > 2", "atan(x1) < -2", "tanh(x1) > 1.5", "sqrt(x1) < -1", "2 < atan(x1)"] {
        let expression = compiled(source);
        assert!(
            holds_comparison(&expression.program().body.result)
                || mentions_any_unary(&expression.program().body.result),
            "{source:?} was inverted when it should not have been"
        );
    }
    let mirrored = compiled("2 < atan(x1)");
    match &mirrored.program().body.result.kind {
        Kind::Compare { op, lhs, .. } => {
            assert_eq!(*op, babel::ast::CompareOp::Lt, "the comparison is left exactly as written");
            assert!(matches!(lhs.kind, Kind::Literal(_)));
        }
        other => panic!("{other:?}"),
    }
}

#[test]
fn a_literal_is_a_constant_register_and_no_instruction() {
    let tape = tape_for("3 + 4", &[]);
    assert!(tape.insns.is_empty(), "{:?}", tape.insns);
    assert_eq!(tape.consts, bits(&[7.0]));
    assert_eq!(tape.result, Reg(0));

    let tape = tape_for("x1 + 2", &["x1"]);
    assert_eq!(tape.consts, bits(&[2.0]));
    assert_eq!(tape.insns[0], Insn::Load { dst: Reg(1), input: 0 });
}

#[test]
fn equal_constants_share_a_register_but_signed_zeros_do_not() {
    let tape = tape_for("x1 + 2 + 2", &["x1"]);
    assert_eq!(tape.consts, bits(&[2.0]));

    let tape = tape_for("x1 + 0.0 - -0.0", &["x1"]);
    assert_eq!(tape.consts.len(), 2, "{:?}", tape.consts);
    assert_ne!(tape.consts[0], tape.consts[1]);
}

#[test]
fn folding_agrees_with_the_evaluator_bit_for_bit() {
    for (folded, held_apart, at) in [
        ("0.1 + 0.2 + 0.3", "x1 + 0.2 + 0.3", 0.1),
        ("1.0 / 3.0 * 3.0", "x1 / 3.0 * 3.0", 1.0),
        ("sin(2.3) * cos(1.1)", "sin(x1) * cos(1.1)", 2.3),
    ] {
        let folded = compiled(folded);
        let held_apart = compiled(held_apart);
        assert_eq!(
            eval_one(&folded, &[]).expect("should evaluate"),
            eval_one(&held_apart, &[("x1", at)]).expect("should evaluate"),
            "folding changed a value"
        );
    }
}

#[test]
fn an_expanded_power_multiplies_rather_than_calling_powf() {
    let x = 2.3_f64;
    let cubed = compiled("x1^3");
    assert_eq!(eval_one(&cubed, &[("x1", x)]).expect("should evaluate"), x * x * x);
    assert_ne!(x * x * x, x.powf(3.0));

    let reciprocal = compiled("x1^-2");
    assert_eq!(eval_one(&reciprocal, &[("x1", x)]).expect("should evaluate"), 1.0 / (x * x));

    let squared = compiled("x1^2");
    assert_eq!(eval_one(&squared, &[("x1", x)]).expect("should evaluate"), x.powf(2.0));
}

#[test]
fn a_loop_index_as_an_exponent_expands() {
    let expression = compiled("sum(1, 3, i -> x1^i)");
    assert_eq!(eval_one(&expression, &[("x1", 2.0)]).expect("should evaluate"), 2.0 + 4.0 + 8.0);

    let Kind::Fold { terms, .. } = &expression.program().body.result.kind else {
        panic!("expected the unrolled sum");
    };
    assert!(terms.iter().all(|term| !mentions_pow(term)), "a power survived inside the unrolled aggregate");
}

#[test]
fn a_monotone_function_leaves_the_comparison() {
    let expression = compiled("2 < ln(x1)");
    assert!(
        !mentions_unary(&expression.program().body.result, UnaryOp::Ln),
        "the logarithm survived: {:?}",
        expression.program().body.result
    );
    let bound = std::f64::consts::E.powi(2);
    assert!(eval_one(&expression, &[("x1", bound * 1.001)]).unwrap() < 0.0);
    assert!(eval_one(&expression, &[("x1", bound * 0.999)]).unwrap() > 0.0);
}

#[test]
fn every_inversion_agrees_with_the_function_it_replaced() {
    let cases = [
        ("ln(x1) > 2", "ln(x1) > 2 * x2", 1.0),
        ("ln(x1) < 2", "ln(x1) < 2 * x2", 1.0),
        ("log(x1) >= 0.5", "log(x1) >= 0.5 * x2", 1.0),
        ("sqrt(x1) > 3", "sqrt(x1) > 3 * x2", 1.0),
        ("sqrt(x1) <= 3", "sqrt(x1) <= 3 * x2", 1.0),
        ("cbrt(x1) < 2", "cbrt(x1) < 2 * x2", 1.0),
        ("cube(x1) >= 8", "cube(x1) >= 8 * x2", 1.0),
        ("sinh(x1) > 1.5", "sinh(x1) > 1.5 * x2", 1.0),
        ("tanh(x1) < 0.5", "tanh(x1) < 0.5 * x2", 1.0),
        ("atan(x1) > 0.7", "atan(x1) > 0.7 * x2", 1.0),
        ("2 ^ x1 < 20", "2 ^ x1 < 20 * x2", 1.0),
        ("log(2, x1) > 3", "log(2, x1) > 3 * x2", 1.0),
        ("log(2, x1) < 3", "log(2, x1) < 3 * x2", 1.0),
        ("log(10, x1) >= 0.5", "log(10, x1) >= 0.5 * x2", 1.0),
        ("log(0.5, x1) > -3", "log(0.5, x1) > -3 * x2", 1.0),
        ("0.5 ^ x1 > 8", "0.5 ^ x1 > 8 * x2", 1.0),
    ];

    for (source, equivalent, x2) in cases {
        let inverted = compiled(source);
        let original = compiled(equivalent);

        let mut widened = 0;
        for step in -200..=200 {
            let x1 = f64::from(step) * 0.1;
            let (a, b) = (
                eval_one(&inverted, &[("x1", x1), ("x2", x2)]),
                eval_one(&original, &[("x1", x1), ("x2", x2)]),
            );
            let (Ok(a), Ok(b)) = (a.as_ref().copied(), b.as_ref().copied()) else {
                if let Ok(a) = a {
                    assert!(a > 0.0, "{source:?} accepted x1 = {x1}, where {equivalent:?} will not evaluate at all");
                }
                continue;
            };
            assert!(
                !(a > 0.0 && b <= 0.0),
                "{source:?} rejected x1 = {x1}, which {equivalent:?} accepts"
            );
            if a <= 0.0 && b > 0.0 {
                widened += 1;
            }
        }
        assert!(widened <= 2, "{source:?} accepted {widened} points {equivalent:?} rejects");
    }
}

#[test]
fn an_upper_bound_keeps_the_domain() {
    let expression = compiled("ln(x1) < 2");
    assert!(eval_one(&expression, &[("x1", 1.0)]).unwrap() <= 0.0);
    assert!(eval_one(&expression, &[("x1", 100.0)]).unwrap() > 0.0);
    assert!(eval_one(&expression, &[("x1", -5.0)]).unwrap() > 0.0, "a negative argument passed a logarithm constraint");
    assert!(
        eval_one(&expression, &[("x1", 0.0)]).unwrap() > 0.0,
        "zero passed a logarithm constraint whose floor is exclusive"
    );
}

#[test]
fn a_constant_outside_the_range_is_left_alone() {
    for source in ["atan(x1) > 2", "atan(x1) < -2", "tanh(x1) > 1.5", "sqrt(x1) < -1"] {
        let expression = compiled(source);
        assert!(
            holds_comparison(&expression.program().body.result) || mentions_any_unary(&expression.program().body.result),
            "{source:?} was inverted when it should not have been"
        );
    }

    let unsatisfiable = compiled("atan(x1) > 2");
    for step in -100..=100 {
        let x1 = f64::from(step);
        assert!(eval_one(&unsatisfiable, &[("x1", x1)]).unwrap() > 0.0, "atan({x1}) > 2 should never hold");
    }
}

#[test]
fn eval_an_empty_aggregate_range_yields_the_identity() {
    let sum = compiled("sum(5, 1, i -> i)");
    assert_eq!(eval_one(&sum, &[]).expect("should evaluate"), 0.0);
    let product = compiled("prod(5, 1, i -> i)");
    assert_eq!(eval_one(&product, &[]).expect("should evaluate"), 1.0);
}

#[test]
fn mod_an_empty_aggregate_range_yields_the_identity() {
    let sum = compiled("sum(5, 1, i -> i)");
    assert_eq!(eval_one(&sum, &[]).expect("should evaluate"), 0.0);
    let product = compiled("prod(5, 1, i -> i)");
    assert_eq!(eval_one(&product, &[]).expect("should evaluate"), 1.0);
}

fn zero_subscript() {
    let expression = compiled("var[0]");
    let error = eval_one(&expression, &[("x1", 7.0)]).expect_err("var[0] is not the first parameter");
    match error {
        EvalError::Runtime(problem) => assert_eq!(
            problem.problem.kind,
            ProblemKind::DynamicIndexOutOfBounds { requested_1index: 0, available: 1 }
        ),
        other => panic!("expected a runtime problem, got {other:?}"),
    }
}

#[test]
fn eval_a_zero_subscript_is_out_of_bounds() {
    zero_subscript();
}

#[test]
fn mod_a_zero_subscript_is_out_of_bounds() {
    zero_subscript();
}

fn fractional_subscript() {
    let expression = compiled("var[1.5]");
    let error = eval_one(&expression, &[("x1", 7.0), ("x2", 8.0)]).expect_err("1.5 is not an index");
    match error {
        EvalError::Runtime(problem) => assert!(
            matches!(problem.problem.kind, ProblemKind::DynamicIndexNotAnInteger { .. }),
            "expected a non-integer subscript, got {:?}",
            problem.problem.kind
        ),
        other => panic!("expected a runtime problem, got {other:?}"),
    }
}

#[test]
fn eval_a_non_integral_subscript_is_an_error() {
    fractional_subscript();
}

#[test]
fn mod_a_non_integral_subscript_is_an_error() {
    fractional_subscript();
}

#[test]
fn a_runtime_fault_names_the_parameters_and_the_subscript() {
    let expression = compiled("x2 + var[x1]");
    match eval_one(&expression, &[("x1", 3.0), ("x2", 8.0)]) {
        Err(EvalError::Runtime(problem)) => {
            assert_eq!(problem.problem.span, Span::new(9, 11));
            assert_eq!(problem.problem.column_idx, 9);
            assert_eq!(problem.sample, None);
            assert_eq!(problem.parameters, vec![("x1".to_string(), 3.0f64.to_bits()), ("x2".to_string(), 8.0f64.to_bits())]);
            assert_eq!(problem.problem.kind, ProblemKind::DynamicIndexOutOfBounds { requested_1index: 3, available: 2 });
        }
        other => panic!("expected a runtime problem, got {other:?}"),
    }
    assert_eq!(eval_one(&expression, &[("x1", 2.0), ("x2", 8.0)]).unwrap(), 16.0);
    assert!(matches!(eval_one(&compiled("sum(1, x1, i -> i)"), &[("x1", 3.0)]), Err(EvalError::RuntimeAggregate)));
    assert!(matches!(eval_one(&compiled("x1 + x3"), &[("x1", 3.0)]), Err(EvalError::Bind(_))));
}

#[test]
fn a_batch_reports_its_first_faulting_sample_or_poisons_it() {
    let expression = compiled("ln(x1)");
    let schema = Schema::new(vec!["x1".to_string()]);
    let compiled = compile(&expression, &schema).expect("compiles");
    let values: Vec<u64> = [1.0f64, -1.0, 2.0, -3.0].iter().map(|v| v.to_bits()).collect();
    let samples = evaluate::Samples { rows: 1, columns: 4, values };
    match compiled.eval(&samples, &unary, &binary) {
        Err(EvalError::Runtime(problem)) => assert_eq!(problem.sample, Some(1)),
        other => panic!("expected the second sample to fault, got {other:?}"),
    }
    let lenient = compiled.eval_lenient(&samples, &unary, &binary).expect("same height");
    assert_eq!(lenient[0], 0.0f64.to_bits());
    assert!(f64::from_bits(lenient[1]).is_nan());
    assert_eq!(lenient[2], 2.0f64.ln().to_bits());
    assert!(f64::from_bits(lenient[3]).is_nan());
    let wrong = evaluate::Samples { rows: 2, columns: 1, values: vec![0, 0] };
    assert!(matches!(
        compiled.eval(&wrong, &unary, &binary),
        Err(EvalError::RowWidthMismatch { expected: 1, actual: 2 })
    ));
}

fn driven(source: &str) -> (String, Ast) {
    let constraint = compiled(source);
    match shape(&constraint) {
        Shape::Driven { variable, from, .. } | Shape::Pinned { variable, value: from, .. } => {
            (constraint.symbols()[variable.index()].clone(), from)
        }
        other => panic!("{source} should drive, got {other:?}"),
    }
}

fn definition_at(source: &str, at: &[(&str, f64)]) -> f64 {
    eval_one(&driven(source).1, at).unwrap_or_else(|e| panic!("{source}: the definition failed to evaluate: {e:?}"))
}

fn assert_substitution_satisfies(source: &str, free: &[(&str, f64)]) {
    let constraint = compiled(source);
    let (name, definition) = driven(source);

    let mut bindings: Vec<(&str, f64)> = free.to_vec();
    bindings.push((name.as_str(), 0.0));
    let computed = eval_one(&definition, &bindings)
        .unwrap_or_else(|e| panic!("{source}: the definition of {name} failed: {e:?}"));

    let mut substituted = free.to_vec();
    substituted.push((name.as_str(), computed));
    let residual = eval_one(&constraint, &substituted)
        .unwrap_or_else(|e| panic!("{source}: evaluating at {substituted:?}: {e:?}"));

    assert!(
        residual <= 0.0,
        "{source}: driving {name} to {computed} leaves a residual of {residual}"
    );
}

#[test]
fn addition_undoes_to_subtraction() {
    assert_eq!(definition_at("x1 + x2 == 3 +/- 0.001", &[("x1", 0.0), ("x2", 4.0)]), 3.0 - 4.0);
    assert_substitution_satisfies("x1 + x2 == 3 +/- 0.001", &[("x2", 4.0)]);
}

#[test]
fn subtraction_on_the_left_undoes_to_addition() {
    assert_eq!(definition_at("x1 - x2 == 1 +/- 0.001", &[("x1", 0.0), ("x2", 4.0)]), 1.0 + 4.0);
    assert_substitution_satisfies("x1 - x2 == 1 +/- 0.001", &[("x2", 4.0)]);
}

#[test]
fn subtraction_on_the_right_keeps_its_operand_order() {
    assert_eq!(definition_at("3 - x1 == 1 +/- 0.001", &[("x1", 0.0)]), 3.0 - 1.0);
    assert_substitution_satisfies("3 - x1 == 1 +/- 0.001", &[]);
}

#[test]
fn multiplication_undoes_to_division() {
    assert_eq!(definition_at("x1 * x2 == 12 +/- 0.001", &[("x1", 0.0), ("x2", 4.0)]), 12.0 / 4.0);
    assert_substitution_satisfies("x1 * x2 == 12 +/- 0.001", &[("x2", 4.0)]);
}

#[test]
fn division_on_the_left_undoes_to_multiplication() {
    assert_eq!(definition_at("x1 / x2 == 4 +/- 0.001", &[("x1", 0.0), ("x2", 3.0)]), 4.0 * 3.0);
    assert_substitution_satisfies("x1 / x2 == 4 +/- 0.001", &[("x2", 3.0)]);
}

#[test]
fn division_on_the_right_keeps_its_operand_order() {
    assert_eq!(definition_at("12 / x1 == 4 +/- 0.001", &[("x1", 0.0)]), 12.0 / 4.0);
    assert_substitution_satisfies("12 / x1 == 4 +/- 0.001", &[]);
}

#[test]
fn a_subtraction_from_zero_is_not_a_negation() {
    assert_eq!(definition_at("0 - x1 == 5 +/- 0.001", &[("x1", 0.0)]), 0.0 - 5.0);
    assert_substitution_satisfies("0 - x1 == 5 +/- 0.001", &[]);
}

#[test]
fn negation_undoes_to_itself() {
    assert_eq!(definition_at("-x1 == 5 +/- 0.001", &[("x1", 0.0)]), -5.0);
    assert_substitution_satisfies("-x1 == 5 +/- 0.001", &[]);
}

#[test]
fn peeling_past_a_transcendental_agrees_with_rust() {
    assert_eq!(definition_at("sin(x) + y == 3 +/- 0.001", &[("x", 1.0), ("y", 0.0)]), 3.0 - 1.0_f64.sin());
    assert_substitution_satisfies("sin(x) + y == 3 +/- 0.001", &[("x", 1.0)]);
}

#[test]
fn a_chain_of_rules_composes() {
    assert_substitution_satisfies("x2/2 - x1 + x3 / x4 == 0 +/- 0.001", &[("x1", 1.0), ("x3", 8.0), ("x4", 2.0)]);
}

#[test]
fn a_stuck_variable_does_not_block_a_free_one() {
    let constraint = compiled("x1 + x2 + x1 == 3 +/- 0.001");
    let Shape::Driven { variable, from, .. } = shape(&constraint) else {
        panic!("x2 occurs once and should drive");
    };
    assert_eq!(constraint.symbols()[variable.index()], "x2");
    assert_eq!(eval_one(&from, &[("x1", 1.0), ("x2", 0.0)]).expect("evaluates"), 1.0);
}

#[test]
fn the_reds_this_is_meant_to_unlock() {
    for source in [
        "2 < ln(x1)",
        "20 > 2^x5",
        "x1 % 3.0 >= 2",
        "x3 == x4 % 4.5 +/- 0.0001",
        "x1 > floor(x2)",
        "x3 > ceil(x4) + floor(x4)",
        "x2 == x1 + 1/2*x2 - x3 / x4 +/- 0.00001",
        "x1 == x2^3 +/- 0.0001",
        "abs(x1) == 1 +/- 0.001",
        "x1 == pi +/- 0.001",
        "1.5 == var[1] + var[2] +/- 0.001",
        "x1 == sqrt(x2) +/- 0.0001",
        "x3 == cbrt(x4) +/- 0.0001",
    ] {
        let inputs: Vec<InputVariable> = ["x1", "x2", "x3", "x4"]
            .iter()
            .map(|name| InputVariable::new(name, 0.0f64.to_bits(), 10.0f64.to_bits()))
            .collect();
        let constraints = vec![compiled(source)];
        let table: Vec<(u64, String)> = literal_magnitudes(&inputs, &constraints)
            .into_iter()
            .map(|m| (m, format!("{:?}", f64::from_bits(m))))
            .collect();
        let rendered = emit(&inputs, &constraints, &SmtLogic::from_variable(None), &table);
        assert_eq!(
            rendered.untranslated,
            Vec::<usize>::new(),
            "{source:?} should be expressible in QF_NIRA, but:\n{}",
            rendered.text
        );
    }
}
