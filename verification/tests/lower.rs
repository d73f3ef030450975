use babel::ast::{BinaryOp, Block, CompareOp, Expr, Kind, LocalSlot, Program, UnaryOp};
use babel::diagnostics::Span;
use babel::diagnostics::{BoundKind, ProblemKind};
use babel::eval::lower::{lower, FaultKind, LaneFault, Tape};
use babel::eval::tape::{Accumulate, Insn, Reg};
use babel::{compile, Schema};

#[allow(non_snake_case)]
fn R(index: u16) -> Reg {
    Reg(index)
}

fn tape_for(source: &str, names: &[&str]) -> Tape {
    let ast = babel::parse_unfolded(source, &|text: &str| text.parse::<f64>().expect("a number").to_bits())
        .unwrap_or_else(|e| panic!("{source:?}: {e:?}"));
    let schema = Schema::new(names.iter().map(|name| name.to_string()).collect());
    match compile(&ast, &schema) {
        Ok(compiled) => compiled.tape,
        Err(e) => panic!("{source:?} against {names:?}: {e:?}"),
    }
}

fn loads(tape: &Tape, input: u32) -> usize {
    tape.insns.iter().filter(|i| matches!(i, Insn::Load { input: x, .. } if *x == input)).count()
}

fn bits(values: &[f64]) -> Vec<u64> {
    values.iter().map(|v| v.to_bits()).collect()
}

#[test]
fn a_sum_of_two_globals_lowers_to_two_loads_and_an_add() {
    let tape = tape_for("x1 + x2", &["x1", "x2"]);
    assert_eq!(
        tape.insns,
        vec![
            Insn::Load { dst: R(0), input: 0 },
            Insn::Load { dst: R(1), input: 1 },
            Insn::Binary { dst: R(2), op: BinaryOp::Add, a: R(0), b: R(1) },
        ]
    );
    assert_eq!(tape.result, R(2));
}

#[test]
fn a_repeated_global_is_loaded_once() {
    let tape = tape_for("x1 * x1", &["x1"]);
    assert_eq!(loads(&tape, 0), 1);
    assert_eq!(tape.insns[1], Insn::Binary { dst: R(1), op: BinaryOp::Mul, a: R(0), b: R(0) });
}

#[test]
fn a_valid_literal_subscript_is_a_plain_load() {
    let tape = tape_for("var[2] + x2", &["x1", "x2", "x3"]);
    assert!(!tape.insns.iter().any(|i| matches!(i, Insn::Gather { .. })));
    assert_eq!(loads(&tape, 1), 1);
    assert_eq!(tape.consts, Vec::<u64>::new());
}

#[test]
fn an_invalid_literal_subscript_keeps_a_gather() {
    let tape = tape_for("var[0]", &["x1"]);
    assert_eq!(tape.consts, bits(&[0.0]));
    assert_eq!(tape.insns, vec![Insn::Gather { dst: R(1), index: R(0), subscript: Span::new(4, 5) }]);
}

#[test]
fn a_strict_comparison_is_one_compare_instruction() {
    let tape = tape_for("x1 < x2", &["x1", "x2"]);
    assert_eq!(tape.insns[2], Insn::Compare { dst: R(2), op: CompareOp::Lt, a: R(0), b: R(1) });
    assert!(tape.consts.is_empty());
}

#[test]
fn near_equality_is_one_instruction_with_the_tolerance_as_a_constant() {
    let tape = tape_for("x1 == x2 +/- 0.5", &["x1", "x2"]);
    assert_eq!(tape.consts, bits(&[0.5]));
    assert_eq!(tape.insns[2], Insn::NearEq { dst: R(3), a: R(1), b: R(2), tolerance: R(0) });
}

#[test]
fn a_fold_seeds_from_the_identity_and_checks_only_its_last_step() {
    let tape = tape_for("sum(1, 3, i -> x1 * i)", &["x1"]);
    let identity = tape.consts.iter().position(|c| *c == 0.0f64.to_bits()).expect("the identity is a constant");
    let identity = R(u16::try_from(identity).unwrap());
    let combines: Vec<(Reg, Reg, bool)> = tape
        .insns
        .iter()
        .filter_map(|i| match *i {
            Insn::Combine { dst, how: Accumulate::Sum, a, last, .. } => Some((dst, a, last)),
            _ => None,
        })
        .collect();
    assert_eq!(combines.len(), 3);
    let acc = combines[0].0;
    assert_eq!(combines[0].1, identity, "the first step reads the identity");
    assert!(combines[1..].iter().all(|(d, a, _)| *d == acc && *a == acc));
    assert_eq!(combines.iter().map(|c| c.2).collect::<Vec<_>>(), [false, false, true]);
}

#[test]
fn a_local_is_written_in_place_and_read_without_an_instruction() {
    let tape = tape_for("var x = x1 * 2;\nx + x", &["x1"]);
    let local = R(tape.consts.len() as u16);
    assert_eq!(tape.locals, 1);
    assert!(tape.insns.iter().any(|i| matches!(i, Insn::Binary { dst, op: BinaryOp::Mul, .. } if *dst == local)));
    assert!(!tape.insns.iter().any(|i| matches!(i, Insn::Copy { .. })));
    assert!(!tape.insns.iter().any(|i| matches!(i, Insn::Check { .. })));
}

#[test]
fn a_leaf_assignment_becomes_a_copy() {
    let tape = tape_for("var x = x1;\nx + 1", &["x1"]);
    let local = R(tape.consts.len() as u16);
    assert!(tape.insns.iter().any(|i| matches!(i, Insn::Copy { dst, .. } if *dst == local)));
}

#[test]
fn an_aggregate_is_a_flat_fold() {
    let tape = tape_for("sum(1, 3, i -> i * x1)", &["x1"]);
    let combines = tape.insns.iter().filter(|i| matches!(i, Insn::Combine { .. })).count();
    assert_eq!(combines, 3);
}

#[test]
fn every_checked_instruction_carries_the_span_of_its_node() {
    let tape = tape_for("sin(x1) + 2", &["x1"]);
    assert_eq!(tape.spans, vec![Span::new(4, 6), Span::new(0, 7), Span::new(0, 11)]);
    assert!(matches!(tape.insns[1], Insn::Unary { op: UnaryOp::Sin, .. }));
}

#[test]
fn an_unassigned_local_read_gets_a_check_at_the_local() {
    let program = Program {
        body: Block {
            assignments: Vec::new(),
            result: Expr::new(Kind::Local(LocalSlot::from_index(0)), Span::new(0, 1)),
        },
        frame_size: 1,
    };
    let tape = lower(&program, &Vec::new(), 0).expect("small enough to lower");
    assert_eq!(tape.insns, vec![Insn::Check { reg: R(0) }]);
    assert_eq!(tape.spans, vec![Span::new(0, 1)]);
    assert_eq!(tape.result, R(0));
}

#[test]
fn a_binding_the_schema_lacks_is_reported_by_name() {
    let ast = babel::parse_unfolded("x1 + y + z", &|text: &str| text.parse::<f64>().unwrap().to_bits()).unwrap();
    let schema = Schema::new(vec!["x1".to_string()]);
    match compile(&ast, &schema) {
        Err(babel::CompileError::Bind(e)) => assert_eq!(e.missing, vec!["y".to_string(), "z".to_string()]),
        other => panic!("expected a bind error, got {other:?}"),
    }
}

#[test]
fn a_subscript_fault_is_located_at_the_subscript_and_a_value_fault_at_the_node() {
    let tape = tape_for("var[0]", &["x1"]);
    let not_whole = tape.fault(LaneFault { insn: 0, kind: FaultKind::NotAnInteger(0.5f64.to_bits()) });
    assert_eq!(not_whole.span, Span::new(4, 5));
    assert_eq!(not_whole.kind, ProblemKind::DynamicIndexNotAnInteger { value: 0.5f64.to_bits() });
    let outside = tape.fault(LaneFault { insn: 0, kind: FaultKind::OutOfBounds { requested_1index: 0, available: 1 } });
    assert_eq!(outside.span, Span::new(4, 5));
    assert_eq!(outside.kind, ProblemKind::DynamicIndexOutOfBounds { requested_1index: 0, available: 1 });
    let infinite = tape.fault(LaneFault { insn: 0, kind: FaultKind::NonFinite(f64::INFINITY.to_bits()) });
    assert_eq!(infinite.span, tape.spans[0]);
    assert_eq!(infinite.kind, ProblemKind::NonFiniteValue { value: f64::INFINITY.to_bits() });

    let sum = tape_for("x1 + x2", &["x1", "x2"]);
    let bound = sum.fault(LaneFault { insn: 2, kind: FaultKind::Bound(BoundKind::Upper, f64::NAN.to_bits()) });
    assert_eq!(bound.span, sum.spans[2]);
    assert_eq!(bound.span, Span::new(0, 7));
    let not_whole = sum.fault(LaneFault { insn: 2, kind: FaultKind::NotAnInteger(0.5f64.to_bits()) });
    assert_eq!(not_whole.span, Span::new(0, 7));
}
