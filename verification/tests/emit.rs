use babel::ast::Program;
use babel::cvg::emit::{core_index, core_name, emit, literal_magnitudes, prelude, Document, SmtLogic};
use babel::cvg::InputVariable;
use babel::Ast;

fn parse(source: &str) -> Ast {
    babel::parse_unfolded(source, &|text: &str| text.parse::<f64>().expect("a number").to_bits())
        .expect("test constraint should compile")
}

/// The decimal text of a magnitude, as a host writes it.
fn decimal(magnitude: u64) -> String {
    format!("{:?}", f64::from_bits(magnitude))
}

fn inputs_of(variables: &[(&str, f64, f64)]) -> Vec<InputVariable> {
    variables.iter().map(|(name, low, high)| InputVariable::new(name, low.to_bits(), high.to_bits())).collect()
}

fn document_with(variables: &[(&str, f64, f64)], sources: &[&str], logic: &SmtLogic) -> Document {
    let inputs = inputs_of(variables);
    let constraints: Vec<Ast> = sources.iter().map(|source| parse(source)).collect();
    let table: Vec<(u64, String)> =
        literal_magnitudes(&inputs, &constraints).into_iter().map(|m| (m, decimal(m))).collect();
    emit(&inputs, &constraints, logic, &table)
}

fn document(variables: &[(&str, f64, f64)], sources: &[&str]) -> Document {
    document_with(variables, sources, &SmtLogic::from_variable(None))
}

#[test]
fn a_whole_document() {
    let rendered = document(&[("x", 0.0, 10.0)], &["x > 4"]);
    let preamble: String = prelude().iter().map(|line| line.render()).collect::<Vec<_>>().join("\n");

    assert_eq!(rendered.untranslated, Vec::<usize>::new());
    assert_eq!(
        rendered.text,
        format!(
            "(set-option :produce-unsat-cores true)\n\
             (set-logic QF_NIRA)\n{preamble}\n\
             (declare-const |x| Real)\n\
             (assert (and (>= |x| 0.0) (<= |x| 10.0)))\n\
             ; x > 4\n\
             (assert (! (< (- 4.0 |x|) 0.0) :named c0))\n\
             (check-sat)\n(get-model)\n"
        )
    );
}

#[test]
fn a_comparison_is_never_emitted_as_a_comparison() {
    let rendered = document(&[("x", 0.0, 10.0)], &["x > 4"]);
    assert!(rendered.text.contains("(< (- 4.0 |x|) 0.0)"));
}

#[test]
fn strictness_becomes_the_relation_not_a_denormal() {
    let strict = document(&[("x", 0.0, 10.0)], &["x > 4"]);
    let loose = document(&[("x", 0.0, 10.0)], &["x >= 4"]);

    assert!(strict.text.contains("(assert (! (< (- 4.0 |x|) 0.0) :named c0))"));
    assert!(loose.text.contains("(assert (! (<= (- 4.0 |x|) 0.0) :named c0))"));
    assert!(!strict.text.contains("0.0000000000"), "the denormal leaked into the document:\n{}", strict.text);
}

#[test]
fn an_unrolled_aggregate_becomes_one_n_ary_application() {
    let rendered = document(
        &[("a", 0.0, 1.0), ("b", 0.0, 1.0), ("c", 0.0, 1.0)],
        &["sum(1, 3, i -> var[i]) > 2"],
    );
    assert_eq!(rendered.untranslated, Vec::<usize>::new());
    assert!(rendered.text.contains("(+ |a| |b| |c|)"), "expected one n-ary sum, got:\n{}", rendered.text);
}

#[test]
fn assignments_become_nested_lets() {
    let rendered = document(&[("x", 0.0, 10.0)], &["var a = x * 2; var b = a + 1; b > 3"]);
    assert_eq!(rendered.untranslated, Vec::<usize>::new());
    let text = &rendered.text;
    let outer = text.find("(let ((l0").expect("first binding");
    let inner = text.find("(let ((l1").expect("second binding");
    assert!(outer < inner, "bindings nested the wrong way:\n{text}");
}

#[test]
fn what_cannot_be_expressed_is_reported_not_dropped() {
    for source in ["3 > log(2, x)", "sin(x) <= 0", "x^x > 2", "x > sin(ln(cos(2.1^x)))"] {
        let rendered = document(&[("x", 0.1, 10.0)], &[source]);
        assert_eq!(rendered.untranslated, vec![0], "{source:?} should have been reported as untranslated");
        assert!(!rendered.text.contains(":named"), "{source:?} produced an assertion anyway:\n{}", rendered.text);
    }
}

#[test]
fn translatable_and_untranslatable_constraints_coexist() {
    let rendered = document(&[("x", 0.1, 10.0)], &["x > 4", "sin(x) <= 0", "x < 9"]);
    assert_eq!(rendered.untranslated, vec![1]);
    assert!(rendered.text.contains(":named c0)"));
    assert!(!rendered.text.contains(":named c1)"));
    assert!(rendered.text.contains(":named c2)"));
}

#[test]
fn a_division_pins_its_divisor_away_from_zero() {
    let rendered = document(&[("a", 0.0, 1.0), ("b", 0.0, 1.0)], &["a / b > 2"]);
    assert_eq!(rendered.untranslated, Vec::<usize>::new());
    assert!(rendered.text.contains("(assert (not (= |b| 0.0)))"), "no divisor guard:\n{}", rendered.text);
}

#[test]
fn a_modulo_pins_its_divisor_away_from_zero_too() {
    let rendered = document(&[("a", 0.0, 10.0), ("b", 0.0, 10.0)], &["3 > a % b"]);
    assert_eq!(rendered.untranslated, Vec::<usize>::new());
    assert!(rendered.text.contains("(assert (not (= |b| 0.0)))"), "no divisor guard on `%`:\n{}", rendered.text);
    assert!(rendered.text.contains("babel_rem"), "`%` did not reach the helper:\n{}", rendered.text);
}

#[test]
fn every_division_gets_its_own_guard() {
    let rendered =
        document(&[("a", 0.0, 1.0), ("b", 0.0, 1.0), ("c", 0.0, 1.0)], &["a / b + a / c > 2"]);
    assert!(rendered.text.contains("(assert (not (= |b| 0.0)))"));
    assert!(rendered.text.contains("(assert (not (= |c| 0.0)))"));
}

#[test]
fn a_root_becomes_an_auxiliary_variable() {
    let rendered = document(&[("x", 0.0, 10.0), ("y", 0.0, 10.0)], &["y > sqrt(x)"]);
    assert_eq!(rendered.untranslated, Vec::<usize>::new());
    assert!(rendered.text.contains("(declare-const aux_0_0 Real)"));
    assert!(rendered.text.contains("(assert (>= aux_0_0 0.0))"));
    assert!(rendered.text.contains("(assert (= (* aux_0_0 aux_0_0) |x|))"));

    let cubed = document(&[("x", -10.0, 10.0), ("y", -10.0, 10.0)], &["y > cbrt(x)"]);
    assert!(cubed.text.contains("(assert (= (* aux_0_0 aux_0_0 aux_0_0) |x|))"));
    assert!(!cubed.text.contains("(assert (>= aux_0_0 0.0))"));
}

#[test]
fn auxiliary_names_do_not_collide_across_constraints() {
    let rendered = document(&[("x", 0.0, 10.0), ("y", 0.0, 10.0)], &["y > sqrt(x)", "x > sqrt(y)"]);
    assert_eq!(rendered.untranslated, Vec::<usize>::new());
    assert!(rendered.text.contains("(declare-const aux_0_0 Real)"));
    assert!(rendered.text.contains("(declare-const aux_1_0 Real)"));
    assert_eq!(rendered.text.matches("declare-const aux").count(), 2);
}

#[test]
fn side_conditions_precede_the_assertion_that_needs_them() {
    let rendered = document(&[("x", 0.0, 10.0), ("y", 0.0, 10.0)], &["y > sqrt(x)"]);
    let declaration = rendered.text.find("declare-const aux_0_0").expect("declared");
    let usage = rendered.text.find(":named c0").expect("asserted");
    assert!(declaration < usage, "declared too late:\n{}", rendered.text);
}

#[test]
fn the_logic_is_the_callers_to_choose() {
    let rendered = document(&[("x", 0.0, 10.0)], &["x > 4"]);
    assert!(rendered.text.contains("(set-logic QF_NIRA)"), "the default logic is not what it claims:\n{}", rendered.text);

    let overridden = document_with(&[("x", 0.0, 10.0)], &["x > 4"], &SmtLogic::named("QF_NRA"));
    assert!(overridden.text.contains("(set-logic QF_NRA)"));
    assert!(!overridden.text.contains("QF_NIRA"));
}

#[test]
fn the_environment_sets_the_default_and_nothing_more() {
    assert_eq!(SmtLogic::from_variable(None), SmtLogic::named("QF_NIRA"));
    assert_eq!(SmtLogic::from_variable(Some("")), SmtLogic::named("QF_NIRA"));
    assert_eq!(SmtLogic::from_variable(Some("   ")), SmtLogic::named("QF_NIRA"));
    assert_eq!(SmtLogic::from_variable(Some("ALL")), SmtLogic::named("ALL"));
    assert_eq!(SmtLogic::from_variable(Some(" QF_NRA ")), SmtLogic::named("QF_NRA"));
}

#[test]
fn a_comment_cannot_swallow_the_command_after_it() {
    let source = "var a = 4;
  return x
 > a";
    let rendered = document(&[("x", 0.0, 10.0)], &[source]);

    for line in rendered.text.lines() {
        assert!(!(line.starts_with(';') && line.contains('(')), "a command ended up inside a comment:\n{line}");
    }
    assert_eq!(
        rendered.text.lines().filter(|l| l.starts_with(';')).count(),
        1,
        "the source broke across more than one comment line:\n{}",
        rendered.text
    );
    assert!(rendered.text.contains(":named"), "the assertion after the comment did not survive:\n{}", rendered.text);
}

#[test]
fn core_names_round_trip() {
    for index in [0usize, 1, 7, 29] {
        assert_eq!(core_index(&core_name(index)), Some(index));
    }
    assert_eq!(core_index("not-a-core-name"), None);
}

#[test]
fn unicode_names_survive_as_quoted_symbols() {
    let rendered = document(&[("λ", 0.0, 1.0)], &["λ > 0.5"]);
    assert!(rendered.text.contains("(declare-const |λ| Real)"));
}

#[test]
fn a_scalar_expression_is_never_asserted() {
    let rendered = document(&[("x", 0.0, 10.0)], &["x + 1"]);
    assert_eq!(rendered.untranslated, vec![0]);
    assert!(rendered.text.contains("; NOT TRANSLATED - outside the declared logic, left unasserted\n"));
}

#[test]
fn a_literal_missing_from_the_table_leaves_its_constraint_out() {
    let inputs = inputs_of(&[("x", 0.0, 10.0)]);
    let constraints = vec![parse("x > 4")];
    let rendered = emit(&inputs, &constraints, &SmtLogic::named("QF_NIRA"), &[]);
    assert_eq!(rendered.untranslated, vec![0]);
    // Without texts for the bounds, no range is asserted either.
    assert!(!rendered.text.contains("(assert (and"));
}

#[test]
fn a_negative_bound_is_the_operator_applied() {
    let rendered = document(&[("x", -1.5, 2.0)], &["x > 0"]);
    assert!(rendered.text.contains("(assert (and (>= |x| (- 1.5)) (<= |x| 2.0)))"), "{}", rendered.text);
}

#[test]
fn core_indices_read_what_parse_reads() {
    assert_eq!(core_index("c+7"), Some(7));
    assert_eq!(core_index("c"), None);
    assert_eq!(core_index("c-1"), None);
    assert_eq!(core_index("c99999999999999999999999"), None);
    assert_eq!(core_index("d3"), None);
}

#[test]
fn the_table_covers_every_literal_and_bound() {
    let inputs = inputs_of(&[("x", -2.0, 3.0)]);
    let constraints = vec![parse("x * 5 > 7")];
    let magnitudes = literal_magnitudes(&inputs, &constraints);
    for value in [0.0f64, 1.0, 2.0, 3.0, 5.0, 7.0] {
        assert!(magnitudes.contains(&value.to_bits()), "{value} missing from {magnitudes:?}");
    }
    let _: Option<&Program> = constraints.first().map(|c| c.program());
}
