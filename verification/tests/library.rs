use babel::binary64::{index_bits, to_index};
use babel::cvg::incidence::{ConstraintId, Incidence, Row};
use babel::cvg::{ConstraintSystem, InputVariable, SystemError};
use babel::diagnostics::{line_col_idx, ProblemKind, Span};
use babel::{is_legal_variable_name, Ast, Schema};

fn parse(source: &str) -> Ast {
    babel::parse_unfolded(source, &|text: &str| text.parse::<f64>().expect("a number").to_bits()).expect("should compile")
}

#[test]
fn an_index_is_a_whole_number_and_nothing_else() {
    assert_eq!(to_index(3.0f64.to_bits()), Some(3));
    assert_eq!(to_index((-7.0f64).to_bits()), Some(-7));
    assert_eq!(to_index(0.0f64.to_bits()), Some(0));
    assert_eq!(to_index((-0.0f64).to_bits()), Some(0));
    assert_eq!(to_index(2.5f64.to_bits()), None);
    assert_eq!(to_index(f64::NAN.to_bits()), None);
    assert_eq!(to_index(f64::INFINITY.to_bits()), None);
    assert_eq!(to_index(1.0e30f64.to_bits()), None);
    assert_eq!(to_index((-9.223372036854775808e18f64).to_bits()), Some(i64::MIN));
}

#[test]
fn an_index_becomes_the_nearest_value() {
    for k in [0i64, 1, -1, 7, 1024, -4096, 9_007_199_254_740_992] {
        assert_eq!(index_bits(k), (k as f64).to_bits(), "{k}");
        assert_eq!(to_index(index_bits(k)), Some(k));
    }
    assert_eq!(index_bits(9_007_199_254_740_993), (9_007_199_254_740_993i64 as f64).to_bits());
}

#[test]
fn lines_and_columns_count_characters() {
    assert_eq!(line_col_idx("ab\ncd", 4), (1, 1));
    assert_eq!(line_col_idx("ab\ncd", 0), (0, 0));
    assert_eq!(line_col_idx("λ\nπ", 3), (1, 1));
    // Past the end reports the end.
    assert_eq!(line_col_idx("ab", 10), (0, 2));
}

#[test]
fn byte_ranges_become_character_spans() {
    let source = "λx + π";
    // `λ` is two bytes; the byte range 2..3 is the `x`.
    assert_eq!(Span::from_utf8_range(source, 2..3), Span::new(1, 2));
    // Inside a character rounds down to its start.
    assert_eq!(Span::from_utf8_range(source, 1..2), Span::new(0, 1));
    // Past the end clamps.
    assert_eq!(Span::from_utf8_range(source, 0..100), Span::new(0, 6));
    assert!(Span::new(3, 3).is_empty());
    assert!(!Span::new(3, 4).is_empty());
}

#[test]
fn empty_text_is_one_problem_at_the_start() {
    let failure = babel::parse_unfolded("", &|t: &str| t.parse::<f64>().unwrap().to_bits()).expect_err("empty");
    assert_eq!(failure.problems.len(), 1);
    assert_eq!(failure.problems[0].kind, ProblemKind::EmptyExpression);
    assert_eq!(failure.problems[0].span, Span::new(0, 0));
}

#[test]
fn text_that_is_not_babel_is_one_syntax_problem() {
    let failure = babel::parse_unfolded("x1 + * 2", &|t: &str| t.parse::<f64>().unwrap().to_bits()).expect_err("not babel");
    assert_eq!(failure.problems.len(), 1);
    assert!(matches!(&failure.problems[0].kind, ProblemKind::Syntax { from_lexer: false, .. }));

    let failure = babel::parse_unfolded("x1 # 2", &|t: &str| t.parse::<f64>().unwrap().to_bits()).expect_err("bad character");
    assert!(matches!(&failure.problems[0].kind, ProblemKind::Syntax { from_lexer: true, .. }));
    assert_eq!(failure.problems[0].span.start, 3);
}

#[test]
fn variable_names_may_be_any_unicode_but_not_a_keyword() {
    for name in ["x1", "π", "测试", "☕", "_tmp"] {
        assert!(is_legal_variable_name(name), "{name}");
    }
    for name in ["", "1x", "var", "sum", "sin", "x-1", "pi"] {
        assert!(!is_legal_variable_name(name), "{name}");
    }
}

#[test]
fn symbols_are_in_first_reference_order_and_sorted_on_request() {
    let expression = parse("b + a + b + c");
    assert_eq!(expression.symbols(), &["b".to_string(), "a".to_string(), "c".to_string()]);
    assert_eq!(expression.statically_referenced_symbols(), vec!["a".to_string(), "b".to_string(), "c".to_string()]);
    assert!(!expression.contains_dynamic_lookup());
    assert!(parse("var[1] > 0").contains_dynamic_lookup());
}

#[test]
fn the_graph_runs_both_ways() {
    let schema = Schema::new(vec!["x".to_string(), "y".to_string(), "z".to_string()]);
    let constraints = vec![parse("y + x > 1"), parse("z < 2"), parse("x * z > 0")];
    let graph = Incidence::of(&constraints, &schema);
    assert_eq!(graph.rows_of(ConstraintId(0)), &[Row(1), Row(0)]);
    assert_eq!(graph.naming(Row(0)), &[ConstraintId(0), ConstraintId(2)]);
    assert_eq!(graph.naming(Row(2)), &[ConstraintId(1), ConstraintId(2)]);
    assert_eq!(graph.affected(Row(1)), &[ConstraintId(0)]);

    let widened = graph.with_always(&[ConstraintId(2), ConstraintId(0)]);
    assert_eq!(widened.affected(Row(1)), &[ConstraintId(0), ConstraintId(2)]);
    assert_eq!(widened.affected(Row(2)), &[ConstraintId(0), ConstraintId(1), ConstraintId(2)]);
    assert_eq!(widened.naming(Row(1)), &[ConstraintId(0)]);
}

#[test]
fn a_system_refuses_the_first_constraint_that_does_not_fit() {
    let variables = || vec![InputVariable::new("x", 0.0f64.to_bits(), 1.0f64.to_bits())];
    let system = ConstraintSystem::new(variables(), vec![parse("x > 0.5")]).expect("fits");
    assert_eq!(system.schema().names(), &["x".to_string()]);
    assert_eq!(system.named(0).source, "x > 0.5");

    match ConstraintSystem::new(variables(), vec![parse("x > 0.5"), parse("x + 1"), parse("y > 0")]) {
        Err(SystemError::NotAConstraint { constraint }) => {
            assert_eq!(constraint.index, 1);
            assert_eq!(constraint.source, "x + 1");
        }
        other => panic!("expected the scalar to be refused, got {other:?}"),
    }
    match ConstraintSystem::new(variables(), vec![parse("y + w > 0")]) {
        Err(SystemError::Unbound { constraint, missing }) => {
            assert_eq!(constraint.index, 0);
            assert_eq!(missing, vec!["y".to_string(), "w".to_string()]);
        }
        other => panic!("expected the unbound names, got {other:?}"),
    }
}
