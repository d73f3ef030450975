use babel::eval::lower::Tape;
use babel::eval::tape::Insn;
use babel::{compile, Schema};

fn tape_for(source: &str, names: &[&str]) -> Tape {
    let ast = babel::parse_unfolded(source, &|text: &str| text.parse::<f64>().expect("a number").to_bits())
        .unwrap_or_else(|e| panic!("{source:?}: {e:?}"));
    let schema = Schema::new(names.iter().map(|name| name.to_string()).collect());
    match compile(&ast, &schema) {
        Ok(compiled) => compiled.tape,
        Err(e) => panic!("{source:?} against {names:?}: {e:?}"),
    }
}

fn first_local(tape: &Tape) -> u16 {
    tape.consts.len() as u16
}

fn dead_temporary(name: &str) {
    let tape = tape_for("(x1 + x2) + (x1 - x2)", &["x1", "x2"]);
    assert_eq!(tape.registers, 4, "{name}: {:?}", tape.insns);
}

fn addition_chain(name: &str) {
    let names = ["x1", "x2", "x3", "x4", "x5", "x6", "x7", "x8"];
    let tape = tape_for("x1 + x2 + x3 + x4 + x5 + x6 + x7 + x8", &names);
    assert!(tape.registers <= 3, "{name}: {} registers: {:?}", tape.registers, tape.insns);
}

fn long_fold(name: &str) {
    let names: Vec<String> = (1..=200).map(|i| format!("x{i}")).collect();
    let names: Vec<&str> = names.iter().map(String::as_str).collect();
    let tape = tape_for("sum(1, 200, i -> var[i]^2 - 3.0)", &names);
    let temps = tape.registers - first_local(&tape) - tape.locals;
    assert!(temps < 8, "{name}: {temps} temporaries");
    assert!(tape.consts.len() <= 4, "{:?}", tape.consts);
    assert_eq!(tape.insns.iter().filter(|i| matches!(i, Insn::Load { .. })).count(), 200);
}

fn no_aliasing(name: &str) {
    for (source, names) in [
        ("x1 * x1 + x1", vec!["x1"]),
        ("(x1 + x2) * (x1 + x2)", vec!["x1", "x2"]),
        ("max(x1, x1 - x2) < x2 * x2", vec!["x1", "x2"]),
        ("x1 == x2 * x2 +/- 0.1", vec!["x1", "x2"]),
    ] {
        let tape = tape_for(source, &names);
        for insn in &tape.insns {
            if let Some(dst) = insn.dst() {
                if !matches!(insn, Insn::Combine { .. }) {
                    assert!(!insn.sources().contains(&dst), "{name}: {source:?}: {insn:?} writes an operand");
                }
            }
        }
    }
}

fn pinned_registers(name: &str) {
    let tape = tape_for("var x = x1 * 2;\nvar y = x + 3;\ny * y - x", &["x1"]);
    assert_eq!(tape.consts, vec![2.0f64.to_bits(), 3.0f64.to_bits()]);
    assert_eq!(tape.locals, 2);
    for insn in &tape.insns {
        if let Some(dst) = insn.dst() {
            assert!(dst.0 >= first_local(&tape), "{name}: {insn:?} writes a constant register");
        }
    }
    let first_temp = first_local(&tape) + tape.locals;
    let writes_to_locals = tape
        .insns
        .iter()
        .filter_map(|i| i.dst())
        .filter(|dst| dst.0 >= first_local(&tape) && dst.0 < first_temp)
        .count();
    assert_eq!(writes_to_locals, 2);
}

#[test]
fn regalloc_a_dead_temporary_frees_its_register() {
    dead_temporary("regalloc");
}

#[test]
fn regalloc_tests_a_dead_temporary_frees_its_register() {
    dead_temporary("regalloc_tests");
}

#[test]
fn regalloc_an_eight_term_addition_chain_needs_at_most_three_temporaries() {
    addition_chain("regalloc");
}

#[test]
fn regalloc_tests_an_eight_term_addition_chain_needs_at_most_three_temporaries() {
    addition_chain("regalloc_tests");
}

#[test]
fn regalloc_the_two_hundred_term_fold_needs_fewer_than_eight_registers() {
    long_fold("regalloc");
}

#[test]
fn regalloc_tests_the_two_hundred_term_fold_needs_fewer_than_eight_registers() {
    long_fold("regalloc_tests");
}

#[test]
fn regalloc_a_binary_destination_never_aliases_an_operand() {
    no_aliasing("regalloc");
}

#[test]
fn regalloc_tests_a_binary_destination_never_aliases_an_operand() {
    no_aliasing("regalloc_tests");
}

#[test]
fn regalloc_constants_and_locals_are_never_reused() {
    pinned_registers("regalloc");
}

#[test]
fn regalloc_tests_constants_and_locals_are_never_reused() {
    pinned_registers("regalloc_tests");
}
