use babel::cvg::{ConstraintRef, SystemError};
use babel::diagnostics::{BindError, BoundKind, CompilationFailure, Problem, ProblemKind, Span};

fn out_of_bounds(requested_1index: i64, available: usize) -> ProblemKind {
    ProblemKind::DynamicIndexOutOfBounds { requested_1index, available }
}

const GAP: &str = "                      ";

#[test]
fn every_kind_has_a_summary() {
    assert_eq!(ProblemKind::EmptyExpression.summary(), "expression is empty");
    let syntax = ProblemKind::Syntax { message: "no viable alternative".to_string(), from_lexer: false };
    assert_eq!(syntax.summary(), "syntax error");
    let unsupported = ProblemKind::Unsupported { feature: "recursion".to_string() };
    assert_eq!(unsupported.summary(), "recursion is not supported yet");
    let bound = ProblemKind::IllegalAggregateBound { bound: BoundKind::Upper, value: f64::NAN.to_bits() };
    assert_eq!(bound.summary(), "illegal upper bound value");
    let lower = ProblemKind::IllegalAggregateBound { bound: BoundKind::Lower, value: 0.5f64.to_bits() };
    assert_eq!(lower.summary(), "illegal lower bound value");
    let index = ProblemKind::DynamicIndexNotAnInteger { value: 1.5f64.to_bits() };
    assert_eq!(index.summary(), "attempted to use a non-integer as an index");
    assert_eq!(
        out_of_bounds(3, 2).summary(),
        format!("attempted to access 'var[3]'{GAP}(the 3rd parameter){GAP}when only 2 exist")
    );
}

#[test]
fn ordinals_follow_english() {
    let suffix = |n: i64| {
        let text = out_of_bounds(n, 0).summary();
        let from = text.find("(the ").unwrap() + 5;
        let to = text.find(" parameter)").unwrap();
        text[from..to].to_string()
    };
    assert_eq!(suffix(1), "1st");
    assert_eq!(suffix(2), "2nd");
    assert_eq!(suffix(3), "3rd");
    assert_eq!(suffix(4), "4th");
    assert_eq!(suffix(0), "0th");
    assert_eq!(suffix(11), "11th");
    assert_eq!(suffix(12), "12th");
    assert_eq!(suffix(13), "13th");
    assert_eq!(suffix(21), "21st");
    assert_eq!(suffix(102), "102nd");
    assert_eq!(suffix(111), "111th");
    assert_eq!(suffix(-2), "-2nd");
    assert_eq!(suffix(i64::MAX), "9223372036854775807th");
}

#[test]
fn annotations_carry_the_value_or_the_message() {
    assert_eq!(ProblemKind::EmptyExpression.annotation("1"), "");
    assert_eq!(ProblemKind::Unsupported { feature: "x".to_string() }.annotation("1"), "");
    let syntax = ProblemKind::Syntax { message: "extraneous input ')'".to_string(), from_lexer: false };
    assert_eq!(syntax.annotation("1"), "extraneous input ')'");
    assert_eq!(out_of_bounds(-4, 2).annotation("ignored"), "evaluates to -4");
    let index = ProblemKind::DynamicIndexNotAnInteger { value: 1.5f64.to_bits() };
    assert_eq!(index.annotation("1.5"), "evaluates to 1.5");
    let bound = ProblemKind::IllegalAggregateBound { bound: BoundKind::Lower, value: f64::INFINITY.to_bits() };
    assert_eq!(bound.annotation("inf"), "evaluates to inf");
}

#[test]
fn a_problem_knows_its_text_by_character() {
    let problem = Problem::new(ProblemKind::EmptyExpression, "λ + μ", Span::new(4, 5));
    assert_eq!(problem.text(), "μ");
    let past = Problem::new(ProblemKind::EmptyExpression, "ab", Span::new(1, 9));
    assert_eq!(past.text(), "b");
    let nothing = Problem::new(ProblemKind::EmptyExpression, "ab", Span::new(2, 2));
    assert_eq!(nothing.text(), "");
    let reversed = Problem::new(ProblemKind::EmptyExpression, "abc", Span::new(2, 1));
    assert_eq!(reversed.text(), "");
}

#[test]
fn the_one_line_form_names_the_place_and_the_note() {
    let unsupported = ProblemKind::Unsupported { feature: "thing".to_string() };
    let problem = Problem::new(unsupported, "a + b\nc * d", Span::new(6, 7));
    assert_eq!(problem.render(""), "thing is not supported yet at 'c'");

    let syntax = ProblemKind::Syntax { message: "oops".to_string(), from_lexer: false };
    let at_end = Problem::new(syntax, "x1 +", Span::new(4, 4));
    assert_eq!(at_end.render(""), "syntax error at 'end of expression': oops");

    let empty = Problem::new(ProblemKind::EmptyExpression, "", Span::new(0, 0));
    assert_eq!(empty.render(""), "expression is empty");
}

#[test]
fn the_block_form_marks_the_offending_text_under_its_line() {
    let unsupported = ProblemKind::Unsupported { feature: "thing".to_string() };
    let problem = Problem::new(unsupported, "a + b\nc * d", Span::new(6, 7));
    assert_eq!(problem.line_idx, 1);
    assert_eq!(problem.column_idx, 0);
    assert_eq!(problem.render_block(""), "Error in 'c': thing is not supported yet.\na + b\nc * d\n~");

    let syntax = ProblemKind::Syntax { message: "oops".to_string(), from_lexer: false };
    let at_end = Problem::new(syntax, "x1 +", Span::new(4, 4));
    assert_eq!(at_end.render_block(""), "Error in 'end of expression': syntax error.\nx1 +\n   ~ oops");

    let wide = ProblemKind::DynamicIndexNotAnInteger { value: 2.5f64.to_bits() };
    let gather = Problem::new(wide, "var[x1]", Span::new(4, 6));
    assert_eq!(gather.render_block("2.5"), "Error in 'x1': attempted to use a non-integer as an index.\nvar[x1]\n    ~~ evaluates to 2.5");

    let crlf = Problem::new(ProblemKind::EmptyExpression, "a\r\nb", Span::new(3, 4));
    assert_eq!(crlf.render_block(""), "Error in 'b': expression is empty.\na\nb\n~");

    let empty = Problem::new(ProblemKind::EmptyExpression, "", Span::new(0, 0));
    assert_eq!(empty.render_block(""), "Error in 'end of expression': expression is empty.");
}

#[test]
fn a_failure_lists_its_problems() {
    let first = Problem::new(ProblemKind::Unsupported { feature: "f".to_string() }, "a b", Span::new(0, 1));
    let second = Problem::new(ProblemKind::Unsupported { feature: "g".to_string() }, "a b", Span::new(2, 3));
    let failure = CompilationFailure { source: "a b".to_string(), problems: vec![first, second] };
    let texts = vec![String::new(), String::new()];
    assert_eq!(failure.render(&texts), "f is not supported yet at 'a'\ng is not supported yet at 'b'");
    assert_eq!(
        failure.render_block(&texts),
        "Error in 'a': f is not supported yet.\na b\n~\n\nError in 'b': g is not supported yet.\na b\n  ~"
    );
}

#[test]
fn a_bind_error_names_what_is_missing() {
    let error = BindError { missing: vec!["x2".to_string(), "x9".to_string()] };
    assert_eq!(error.render(), "missing value(s) for x2, x9");
}

#[test]
fn a_system_error_quotes_the_constraint() {
    let constraint = ConstraintRef { index: 0, source: "x1 < \"y\"".to_string() };
    assert_eq!(constraint.render(), "\"x1 < \\\"y\\\"\"");
    let unbound = SystemError::Unbound {
        constraint: ConstraintRef { index: 1, source: "x1 + y < 0".to_string() },
        missing: vec!["y".to_string()],
    };
    assert_eq!(unbound.render(), "constraint \"x1 + y < 0\" references y which is not an input variable");
    let scalar = SystemError::NotAConstraint { constraint: ConstraintRef { index: 0, source: "x1 + 1".to_string() } };
    assert_eq!(scalar.render(), "\"x1 + 1\" is a scalar expression, not a constraint: it has no truth value");
}
