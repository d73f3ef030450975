use babel::ast::{BinaryOp, Block, Expr, Kind, Program};
use babel::ast::CompareOp;
use babel::frontend::rewrite::{mirrored, rewrite_booleans};
use babel::Ast;

fn parse(source: &str) -> Ast {
    babel::parse_unfolded(source, &|text: &str| text.parse::<f64>().expect("a number").to_bits()).expect("should compile")
}

fn holds(node: &Expr) -> bool {
    match &node.kind {
        Kind::Compare { .. } | Kind::NearEq { .. } => true,
        Kind::Binary { lhs, rhs, .. } => holds(lhs) || holds(rhs),
        Kind::Unary { arg, .. } => holds(arg),
        Kind::DynamicIndex(index) => holds(index),
        Kind::Block(block) => block_holds(block),
        Kind::Fold { terms, .. } => terms.iter().any(holds),
        Kind::Aggregate { lower, upper, body, .. } => holds(lower) || holds(upper) || block_holds(body),
        Kind::Literal(_) | Kind::Global(_) | Kind::Local(_) => false,
    }
}

fn block_holds(block: &Block) -> bool {
    block.assignments.iter().any(|a| holds(&a.value)) || holds(&block.result)
}

fn mentions_pow(node: &Expr) -> bool {
    match &node.kind {
        Kind::Binary { op, lhs, rhs } => *op == BinaryOp::Pow || mentions_pow(lhs) || mentions_pow(rhs),
        Kind::Unary { arg, .. } => mentions_pow(arg),
        Kind::Block(block) => block.assignments.iter().any(|a| mentions_pow(&a.value)) || mentions_pow(&block.result),
        Kind::Fold { terms, .. } => terms.iter().any(mentions_pow),
        _ => false,
    }
}

#[test]
fn rewrite_a_static_aggregate_becomes_one_flat_fold() {
    let expression = parse("sum(1, 5, i -> i)");
    match &expression.program().body.result.kind {
        Kind::Fold { terms, .. } => assert_eq!(terms.len(), 5),
        other => panic!("expected a flat fold, got {other:?}"),
    }
}

#[test]
fn rewrite_an_aggregate_past_the_cap_stays_a_loop() {
    let expression = parse("sum(1, 2000, i -> i)");
    assert!(
        matches!(expression.program().body.result.kind, Kind::Aggregate { .. }),
        "expected the loop to survive, got {:?}",
        expression.program().body.result.kind
    );
    assert!(expression.has_runtime_aggregate());
}

#[test]
fn rewrite_no_comparison_survives_the_rewrite() {
    for source in ["4 < 6", "6 > 6", "1.0e200 <= 1.0e200", "1.0e200 >= 1.0e200", "x1 == x2 +/- 0.15", "(4 < 6)"] {
        let expression = parse(source);
        let program = Program {
            body: babel::ast::clone_block(&expression.program().body),
            frame_size: expression.program().frame_size,
        };
        let rewritten = rewrite_booleans(program);
        assert!(!block_holds(&rewritten.body), "a comparison survived the rewrite of {source:?}");
    }
}

#[test]
fn a_whole_power_up_to_the_cap_expands_and_past_it_stays() {
    let terms = |source: &str| -> Option<usize> {
        match &parse(source).program().body.result.kind {
            Kind::Fold { terms, .. } => Some(terms.len()),
            _ => None,
        }
    };
    assert_eq!(terms("x1^2"), Some(2));
    assert_eq!(terms("x1^5"), Some(5));
    assert_eq!(terms("x1^1"), Some(1));
    assert_eq!(terms("x1^64"), Some(64));
    assert!(matches!(parse("x1^0").program().body.result.kind, Kind::Literal(v) if v == 1.0f64.to_bits()));
    for left_alone in ["x1^65", "x1^2.5", "x1^x2"] {
        assert!(
            matches!(parse(left_alone).program().body.result.kind, Kind::Binary { op: BinaryOp::Pow, .. }),
            "{left_alone:?} was expanded when it should not have been"
        );
    }
}

#[test]
fn a_fractional_aggregate_bound_is_refused_where_it_stands() {
    let failure = babel::parse_unfolded("sum(1.5, 3, i -> i)", &|text: &str| text.parse::<f64>().unwrap().to_bits())
        .expect_err("a fractional bound is not an index");
    assert_eq!(failure.problems.len(), 1);
    assert!(matches!(
        failure.problems[0].kind,
        babel::diagnostics::ProblemKind::IllegalAggregateBound { bound: babel::diagnostics::BoundKind::Lower, value }
            if value == 1.5f64.to_bits()
    ));
    assert_eq!(failure.problems[0].span, babel::diagnostics::Span::new(4, 7));
}

#[test]
fn mirroring_exchanges_the_sides() {
    assert_eq!(mirrored(CompareOp::Lt), CompareOp::Gt);
    assert_eq!(mirrored(CompareOp::Gte), CompareOp::Lte);
    for op in [CompareOp::Lt, CompareOp::Lte, CompareOp::Gt, CompareOp::Gte] {
        assert_eq!(mirrored(mirrored(op)), op);
    }
}
