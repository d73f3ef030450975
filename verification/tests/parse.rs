use babel::ast::Kind;
use babel::Ast;

fn parse(source: &str) -> Ast {
    babel::parse_unfolded(source, &|text: &str| text.parse::<f64>().expect("a number").to_bits()).expect("should compile")
}

#[test]
fn a_local_is_not_a_global() {
    let expression = parse(
        "var x = x1;
 x + x1",
    );
    let globals = expression.statically_referenced_symbols();
    assert_eq!(globals, vec!["x1".to_string()], "`x` is local and must not be a global");
}

#[test]
fn a_local_shadows_a_global_of_the_same_name() {
    let expression = parse(
        "var x1 = 7;
 x1",
    );
    assert!(
        expression.statically_referenced_symbols().is_empty(),
        "the trailing x1 resolves to the local, so nothing is referenced globally"
    );
    // The result reads the local the literal 7 was bound to.
    let body = &expression.program().body;
    assert!(matches!(body.assignments[0].value.kind, Kind::Literal(bits) if bits == 7.0f64.to_bits()));
    assert!(matches!(body.result.kind, Kind::Local(slot) if slot == body.assignments[0].slot));
}

#[test]
fn an_assignment_does_not_bind_its_own_right_hand_side() {
    let expression = parse(
        "var x1 = x1 + 1;
 x1",
    );
    let globals = expression.statically_referenced_symbols();
    assert_eq!(globals, vec!["x1".to_string()], "the right-hand x1 is the global");
    let body = &expression.program().body;
    assert!(matches!(&body.assignments[0].value.kind, Kind::Binary { lhs, .. } if matches!(lhs.kind, Kind::Global(_))));
    assert!(matches!(body.result.kind, Kind::Local(_)));
}

#[test]
fn a_result_may_be_introduced_by_return() {
    let expression = parse("var a = 4; return x > a;");
    assert!(expression.is_constraint());
    assert!(!babel::is_legal_variable_name("return"));
}

fn bits_of(text: &str) -> u64 {
    text.parse::<f64>().expect("a number").to_bits()
}

#[test]
fn a_character_that_starts_no_token_is_a_lexer_error_at_its_offset() {
    let error = match babel::frontend::parse::translate("x1 # 2", &bits_of) {
        Err(error) => error,
        Ok(_) => panic!("`#` starts no token"),
    };
    assert!(error.from_lexer);
    assert_eq!((error.start, error.end), (3, 4));
    assert_eq!(error.message, "token recognition error at: '#'");
}

#[test]
fn a_dangling_operator_is_a_parser_error_at_the_end() {
    let error = match babel::frontend::parse::translate("x1 +", &bits_of) {
        Err(error) => error,
        Ok(_) => panic!("nothing follows the `+`"),
    };
    assert!(!error.from_lexer);
    assert_eq!(error.message, "mismatched input '<EOF>'");
}

#[test]
fn every_rule_of_the_grammar_is_accepted() {
    for source in [
        "var y = -x1 ^ -2 * 3 % 4 / 5; return (y + x2 - 1) >= log(2, 8) ;",
        "sum(1, 3, k -> var w = k; w * var[k]) < max(x1, min(pi, e))",
        "cos(x1) == sqrt(x2) +/- -0.5",
        "((x1 < 2))",
        "log(x1) + prod(1, 2, j -> j)",
    ] {
        assert!(babel::frontend::parse::translate(source, &bits_of).is_ok(), "{source:?}");
    }
}
