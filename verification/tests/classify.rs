use babel::ast::{BinaryOp, Kind};
use babel::cvg::classify::{plan, shape, Plan, Shape};
use babel::{Ast, Schema};

fn parse(source: &str) -> Ast {
    babel::parse_unfolded(source, &|text: &str| text.parse::<f64>().expect("a number").to_bits())
        .expect("test constraint should compile")
}

/// The variable a shape names, by name.
fn driven_name(constraint: &Ast) -> Option<String> {
    match shape(constraint) {
        Shape::Driven { variable, .. } | Shape::Pinned { variable, .. } => {
            Some(constraint.symbols()[variable.index()].clone())
        }
        _ => None,
    }
}

fn is_opaque(source: &str) -> bool {
    matches!(shape(&parse(source)), Shape::Opaque)
}

#[test]
fn a_bare_variable_on_one_side_is_driven() {
    let constraint = parse("y == sin(x) +/- 0.001");
    assert_eq!(driven_name(&constraint).as_deref(), Some("y"));
    assert!(matches!(shape(&constraint), Shape::Driven { .. }));
}

#[test]
fn the_driven_side_may_be_either() {
    let constraint = parse("sin(x) == y +/- 0.001");
    assert_eq!(driven_name(&constraint).as_deref(), Some("y"));
}

#[test]
fn a_variable_on_both_sides_is_implicit() {
    for source in [
        "x == sin(x) +/- 0.001",
        "x == ln(x) +/- 0.001",
        "x2 == x1 + 1/2*x2 - x3 / x4 +/- 0.001",
        "y == y/2 + x1 +/- 0.001",
        "sin(x) == x/2 +/- 0.001",
        "x*x == x + 2 +/- 0.001",
        "x == x*x + 2 +/- 0.001",
    ] {
        assert!(matches!(shape(&parse(source)), Shape::Implicit { .. }), "{source} defines a variable in terms of itself");
    }
}

#[test]
fn the_rearranged_form_is_explicit() {
    assert!(matches!(shape(&parse("x2/2 - x1 + x3 / x4 == 0 +/- 0.001")), Shape::Driven { .. }));
    assert!(is_opaque("x*x - x + 2 == 0 +/- 0.001"));
}

#[test]
fn a_variable_appearing_twice_on_the_far_side_is_still_driven() {
    let constraint = parse("y == x*x + x +/- 0.001");
    assert_eq!(driven_name(&constraint).as_deref(), Some("y"));
}

#[test]
fn a_constant_side_is_pinned_not_driven() {
    let constraint = parse("x1 == pi +/- 0.001");
    assert!(matches!(shape(&constraint), Shape::Pinned { .. }));
}

#[test]
fn a_compound_side_isolates_its_lone_variable() {
    let constraint = parse("x1 + x2 == 3 +/- 0.001");
    let Shape::Driven { variable, .. } = shape(&constraint) else {
        panic!("x1 + x2 == 3 should drive one of its variables");
    };
    assert_eq!(constraint.symbols()[variable.index()], "x1");
}

#[test]
fn a_variable_occurring_twice_is_not_isolated() {
    assert!(is_opaque("x1 + x1 == 3 +/- 0.001"));
    assert!(is_opaque("x1 * x1 == 3 +/- 0.001"));
}

#[test]
fn an_operator_without_an_inverse_declines() {
    for source in [
        "x1 ^ 2 == 3 +/- 0.001",
        "max(x1, x2) == 3 +/- 0.001",
        "x1 % 3 == 1 +/- 0.001",
        "sqrt(x1) == 3 +/- 0.001",
        "sin(x1) + cos(x1) == 1 +/- 0.001",
    ] {
        assert!(is_opaque(source), "{source} has no arithmetic inverse and must decline");
    }
}

#[test]
fn isolation_is_deterministic() {
    let first = shape(&parse("x1 + x2 == 3 +/- 0.001"));
    let Shape::Driven { variable: v0, from: f0, tolerance: t0 } = first else {
        panic!("should drive");
    };
    for _ in 0..8 {
        let Shape::Driven { variable, from, tolerance } = shape(&parse("x1 + x2 == 3 +/- 0.001")) else {
            panic!("should drive");
        };
        assert_eq!(variable, v0);
        assert_eq!(tolerance, t0);
        assert_eq!(from.source(), f0.source());
        assert_eq!(from.program(), f0.program());
        assert_eq!(from.symbols(), f0.symbols());
    }
}

#[test]
fn a_bare_side_still_wins() {
    let constraint = parse("y == x1 + x2 +/- 0.001");
    let Shape::Driven { variable, .. } = shape(&constraint) else {
        panic!("y == x1 + x2 should drive y");
    };
    assert_eq!(constraint.symbols()[variable.index()], "y");
}

#[test]
fn an_inequality_is_not_classified() {
    assert!(is_opaque("x > 4"));
    assert!(is_opaque("x1 + x2 > 20 - x3^2"));
}

#[test]
fn a_scalar_expression_is_not_classified() {
    assert!(is_opaque("x + 1"));
}

#[test]
fn a_dynamic_lookup_defeats_classification() {
    assert!(is_opaque("1.5 == var[1] + var[2] +/- 0.001"));
}

fn plan_over(names: &[&str], sources: &[&str]) -> Option<Plan> {
    let schema = Schema::new(names.iter().map(|name| name.to_string()).collect());
    let constraints: Vec<Ast> = sources.iter().map(|s| parse(s)).collect();
    plan(&constraints, &schema)
}

#[test]
fn two_independent_drives_are_both_taken() {
    let plan = plan_over(&["x1", "x2", "x3", "x4"], &["x1 == sqrt(x2) +/- 0.001", "x3 == cbrt(x4) +/- 0.001"])
        .expect("both should drive");
    let driven: Vec<usize> = plan.driven().iter().map(|d| d.position).collect();
    assert_eq!(driven, vec![0, 2]);
    assert_eq!(plan.free(), &[1, 3]);
}

#[test]
fn a_chain_of_drives_is_ordered() {
    let plan = plan_over(&["x", "y", "z"], &["y == sin(x) +/- 0.001", "z == y + 1 +/- 0.001"]).expect("both should drive");
    let driven: Vec<usize> = plan.driven().iter().map(|d| d.position).collect();
    assert_eq!(driven, vec![1, 2], "y must be computed before z");
    assert_eq!(plan.free(), &[0]);
}

#[test]
fn evaluation_order_beats_declaration_order() {
    let plan = plan_over(&["z", "y", "x"], &["y == sin(x) +/- 0.001", "z == y + 1 +/- 0.001"]).expect("both should drive");
    let driven: Vec<usize> = plan.driven().iter().map(|d| d.position).collect();
    assert_eq!(driven, vec![1, 0], "y (at 1) must be computed before z (at 0)");
}

#[test]
fn a_cycle_between_drives_is_refused() {
    assert!(plan_over(&["x", "y"], &["y == x + 1 +/- 0.001", "x == y + 1 +/- 0.001"]).is_none(), "a cycle should drive nothing");
}

#[test]
fn a_variable_driven_twice_is_driven_once_or_not_at_all() {
    let plan = plan_over(&["x", "y", "z"], &["y == x + 1 +/- 0.001", "y == z * 2 +/- 0.001"]);
    assert!(plan.is_none(), "an ambiguous definition should not be resolved by source order");
}

#[test]
fn a_system_with_nothing_driven_has_no_plan() {
    assert!(plan_over(&["x1", "x2", "x3"], &["x1 + x2 > 20 - x3^2"]).is_none());
}

#[test]
fn a_fully_pinned_system_leaves_nothing_free() {
    let plan = plan_over(&["x1", "x2"], &["x1 == pi +/- 0.001", "x2 == e +/- 0.001"]).expect("both should pin");
    assert_eq!(plan.free(), &[] as &[usize]);
    assert_eq!(plan.driven().len(), 2);
}

#[test]
fn peeling_a_sum_carries_the_other_term_across() {
    // `x1 + x2 == 3` defines `x1` as `3 - x2`.
    let constraint = parse("x1 + x2 == 3 +/- 0.001");
    let Shape::Driven { from, tolerance, .. } = shape(&constraint) else {
        panic!("should drive");
    };
    assert_eq!(tolerance, 0.001f64.to_bits());
    match &from.program().body.result.kind {
        Kind::Binary { op: BinaryOp::Sub, lhs, rhs } => {
            assert!(matches!(lhs.kind, Kind::Literal(bits) if bits == 3.0f64.to_bits()));
            assert!(matches!(&rhs.kind, Kind::Global(id) if constraint.symbols()[id.index()] == "x2"));
        }
        other => panic!("expected 3 - x2, got {other:?}"),
    }
    assert_eq!(from.source(), "expression [from x1 + x2 == 3 +/- 0.001]");
    assert!(!from.is_constraint());
}

#[test]
fn a_negative_tolerance_is_kept_as_a_magnitude() {
    let Shape::Driven { tolerance, .. } = shape(&parse("y == x +/- -0.25")) else {
        panic!("should drive");
    };
    assert_eq!(tolerance, 0.25f64.to_bits());
}

#[test]
fn subtraction_on_the_right_swaps_the_operands() {
    // `3 - x1 == 1` defines `x1` as `3 - 1`.
    let Shape::Driven { from, .. } = shape(&parse("3 - x1 == 1 +/- 0.001")) else {
        panic!("should drive");
    };
    match &from.program().body.result.kind {
        Kind::Binary { op: BinaryOp::Sub, lhs, rhs } => {
            assert!(matches!(lhs.kind, Kind::Literal(bits) if bits == 3.0f64.to_bits()));
            assert!(matches!(rhs.kind, Kind::Literal(bits) if bits == 1.0f64.to_bits()));
        }
        other => panic!("expected 3 - 1, got {other:?}"),
    }
}
