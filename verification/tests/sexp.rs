use babel::cvg::sexp::Sexp;

#[test]
fn nesting_renders_with_matched_parentheses() {
    let term = Sexp::call(
        "assert",
        vec![Sexp::call(
            "<=",
            vec![Sexp::call("+", vec![Sexp::symbol("x"), Sexp::atom("1.0")]), Sexp::atom("0.0")],
        )],
    );
    assert_eq!(term.render(), "(assert (<= (+ |x| 1.0) 0.0))");
}

#[test]
fn an_empty_list_is_still_a_list() {
    assert_eq!(Sexp::list(vec![]).render(), "()");
    assert_eq!(Sexp::call("check-sat", vec![]).render(), "(check-sat)");
}

#[test]
fn every_rendering_is_balanced() {
    let specimens = vec![
        Sexp::atom("1.0"),
        Sexp::symbol("x"),
        Sexp::list(vec![]),
        Sexp::call("-", vec![Sexp::atom("1.0")]),
        Sexp::call(
            "let",
            vec![
                Sexp::list(vec![Sexp::list(vec![Sexp::atom("l0"), Sexp::symbol("x")])]),
                Sexp::call("*", vec![Sexp::atom("l0"), Sexp::atom("l0")]),
            ],
        ),
    ];

    for specimen in specimens {
        let rendered = specimen.render();
        let mut depth = 0i32;
        for character in rendered.chars() {
            match character {
                '(' => depth += 1,
                ')' => depth -= 1,
                _ => {}
            }
            assert!(depth >= 0, "closed too early: {rendered}");
        }
        assert_eq!(depth, 0, "left open: {rendered}");
    }
}

#[test]
fn the_macro_builds_what_the_constructors_would() {
    // The short form is a list whose head is an atom; it must be the same
    // value as the long-hand call.
    let short = Sexp::list(vec![Sexp::atom("*"), Sexp::atom("x"), Sexp::atom("x"), Sexp::atom("x")]);
    let long = Sexp::call("*", vec![Sexp::atom("x"), Sexp::atom("x"), Sexp::atom("x")]);
    assert_eq!(short.render(), long.render());
    let ite = Sexp::list(vec![
        Sexp::atom("ite"),
        Sexp::list(vec![Sexp::atom("<"), Sexp::atom("x"), Sexp::atom("0.0")]),
        Sexp::list(vec![Sexp::atom("-"), Sexp::atom("x")]),
        Sexp::atom("x"),
    ]);
    assert_eq!(ite.render(), "(ite (< x 0.0) (- x) x)");
    assert_eq!(Sexp::list(vec![Sexp::atom(">="), Sexp::atom("a"), Sexp::atom("b")]).render(), "(>= a b)");
    assert_eq!(Sexp::list(vec![Sexp::atom("<="), Sexp::atom("a"), Sexp::atom("b")]).render(), "(<= a b)");
}

#[test]
fn a_quoted_symbol_survives_unicode() {
    assert_eq!(Sexp::symbol("λ").render(), "|λ|");
    assert_eq!(Sexp::symbol("x1").render(), "|x1|");
}

#[test]
fn a_deep_copy_renders_the_same() {
    let term = Sexp::call("let", vec![Sexp::list(vec![Sexp::atom("a")]), Sexp::symbol("y")]);
    assert_eq!(term.duplicate().render(), term.render());
}
