//! The tape as WGSL: the GPU sieve's kernel, one function per constraint.
//!
//! A small function that walks the instructions and writes text, which a
//! driver then compiles. The GPU is a sieve, never a judge: the function
//! computes the residual in `f32`, the harness keeps every candidate within a
//! slack of feasible, and the survivors are judged again on the CPU. So the
//! text may be loose where the CPU tape is strict, but every operator with a
//! domain (`sqrt`, `ln`, `log`, `acos`, `asin`, division, `%`, `pow`) is
//! guarded by a comparison on its input, which fast-math respects, and a
//! candidate outside the domain returns `BABEL_FAULT` as the CPU tape faults.
//! A subscript out of range is a fault too. `Check` emits nothing: a
//! non-finite value never passes the sieve.
//!
//! Constants are narrowed to `f32` and written by the host, which formats
//! floating point; the emitter places the texts it is given.
use vstd::prelude::*;

use crate::ast::{BinaryOp, CompareOp, UnaryOp};
use crate::eval::lower::Tape;
use crate::eval::lane::compare_value;
use crate::eval::tape::{Accumulate, Insn, Reg};
use crate::frontend::fold::binary_value;
use crate::frontend::rewrite::EPSILON_BITS;
use crate::text::{decimal, push_decimal};
use vstd::string::StringExecFns;

verus! {

/// The helpers every emitted function calls: the slack a comparison is
/// widened by (a hundredth of a percent of the magnitudes compared) and the
/// residual of a fault, the largest finite `f32`. Emitted once per shader.
pub open spec fn prelude_text() -> Seq<char> {
    "const BABEL_SLACK: f32 = 0.0001;\nconst BABEL_FAULT: f32 = 3.4028235e38;\nfn babel_slack(a: f32, b: f32) -> f32 {\n    return BABEL_SLACK * (abs(a) + abs(b));\n}\n"@
}

/// [`prelude_text`].
pub fn prelude() -> (text: String)
    ensures
        text@ == prelude_text(),
{
    "const BABEL_SLACK: f32 = 0.0001;\nconst BABEL_FAULT: f32 = 3.4028235e38;\nfn babel_slack(a: f32, b: f32) -> f32 {\n    return BABEL_SLACK * (abs(a) + abs(b));\n}\n".to_string()
}

/// `r[i]`.
pub open spec fn reg_text(i: nat) -> Seq<char> {
    "r["@ + decimal(i) + "]"@
}

/// [`reg_text`].
pub fn reg(index: usize) -> (text: String)
    ensures
        text@ == reg_text(index as nat),
{
    let mut text = String::new();
    text.append("r[");
    push_decimal(&mut text, index as u64);
    text.append("]");
    text
}

/// `head(a)`.
pub open spec fn applied(head: Seq<char>, a: Seq<char>) -> Seq<char> {
    head + "("@ + a + ")"@
}

/// The value of `op` on `a`.
pub open spec fn unary_text(op: UnaryOp, a: Seq<char>) -> Seq<char> {
    match op {
        UnaryOp::Negate => applied("-"@, a),
        UnaryOp::Cos => applied("cos"@, a),
        UnaryOp::Sin => applied("sin"@, a),
        UnaryOp::Tan => applied("tan"@, a),
        UnaryOp::Acos => applied("acos"@, a),
        UnaryOp::Asin => applied("asin"@, a),
        UnaryOp::Atan => applied("atan"@, a),
        UnaryOp::Cosh => applied("cosh"@, a),
        UnaryOp::Sinh => applied("sinh"@, a),
        UnaryOp::Tanh => applied("tanh"@, a),
        UnaryOp::Cot => "1.0 / "@ + applied("tan"@, a),
        UnaryOp::Ln => applied("log"@, a),
        UnaryOp::Log10 => applied("log"@, a) + " / 2.3025851"@,
        UnaryOp::Abs => applied("abs"@, a),
        UnaryOp::Sqrt => applied("sqrt"@, a),
        UnaryOp::Cbrt => applied("sign"@, a) + " * pow("@ + applied("abs"@, a) + ", 0.33333334)"@,
        UnaryOp::Sqr => a + " * "@ + a,
        UnaryOp::Cube => a + " * "@ + a + " * "@ + a,
        UnaryOp::Ceil => applied("ceil"@, a),
        UnaryOp::Floor => applied("floor"@, a),
        UnaryOp::Sgn => applied("sign"@, a),
    }
}

/// The condition under which `op` leaves its domain, where the CPU tape
/// faults; nothing for an operator that is total or only overflows.
pub open spec fn unary_domain_text(op: UnaryOp, a: Seq<char>) -> Option<Seq<char>> {
    match op {
        UnaryOp::Sqrt => Some(a + " < 0.0"@),
        UnaryOp::Ln => Some(a + " <= 0.0"@),
        UnaryOp::Log10 => Some(a + " <= 0.0"@),
        UnaryOp::Acos => Some(applied("abs"@, a) + " > 1.0"@),
        UnaryOp::Asin => Some(applied("abs"@, a) + " > 1.0"@),
        _ => None,
    }
}

/// The value of `op` on `a` and `b`; `log(a, b)` is the log of `b` to base
/// `a`.
pub open spec fn binary_text(op: BinaryOp, a: Seq<char>, b: Seq<char>) -> Seq<char> {
    match op {
        BinaryOp::Add => a + " + "@ + b,
        BinaryOp::Sub => a + " - "@ + b,
        BinaryOp::Mul => a + " * "@ + b,
        BinaryOp::Div => a + " / "@ + b,
        BinaryOp::Rem => a + " % "@ + b,
        BinaryOp::Pow => "pow("@ + a + ", "@ + b + ")"@,
        BinaryOp::Max => "max("@ + a + ", "@ + b + ")"@,
        BinaryOp::Min => "min("@ + a + ", "@ + b + ")"@,
        BinaryOp::LogB => applied("log"@, b) + " / "@ + applied("log"@, a),
    }
}

/// [`unary_domain_text`]'s binary twin: a zero divisor, a negative base under
/// a non-integral exponent, and a logarithm's non-positive argument or base
/// or unit base.
pub open spec fn binary_domain_text(op: BinaryOp, a: Seq<char>, b: Seq<char>) -> Option<Seq<char>> {
    match op {
        BinaryOp::Div => Some(b + " == 0.0"@),
        BinaryOp::Rem => Some(b + " == 0.0"@),
        BinaryOp::Pow => Some(a + " < 0.0 && "@ + b + " != "@ + applied("floor"@, b)),
        BinaryOp::LogB => Some(a + " <= 0.0 || "@ + b + " <= 0.0 || "@ + a + " == 1.0"@),
        _ => None,
    }
}

/// A statement returning the fault when `outside` holds.
pub open spec fn guard_text(outside: Option<Seq<char>>) -> Seq<char> {
    match outside {
        Some(condition) => "    if "@ + condition + " {\n        return BABEL_FAULT;\n    }\n"@,
        None => Seq::empty(),
    }
}

/// `    r[dst] = value;`
pub open spec fn assign_text(dst: Reg, value: Seq<char>) -> Seq<char> {
    "    "@ + reg_text(dst.0 as nat) + " = "@ + value + ";\n"@
}

/// The statements of one instruction in a function over `inputs` values.
/// A comparison is its `<= 0` residual widened by the slack; an equality is
/// the larger of its two one-sided residuals, widened for both operands and
/// the tolerance; a subscript is one-based, integral and in range, or a
/// fault. The loop instructions of a run-time aggregate have no text: such
/// tapes are not lowered.
pub open spec fn insn_text(insn: Insn<Reg>, inputs: nat) -> Seq<char> {
    match insn {
        Insn::Load { dst, input } => assign_text(dst, "(*x)["@ + decimal(input as nat) + "]"@),
        Insn::Copy { dst, src } => assign_text(dst, reg_text(src.0 as nat)),
        Insn::Unary { dst, op, a } => {
            let a = reg_text(a.0 as nat);
            guard_text(unary_domain_text(op, a)) + assign_text(dst, unary_text(op, a))
        },
        Insn::Binary { dst, op, a, b } => {
            let (a, b) = (reg_text(a.0 as nat), reg_text(b.0 as nat));
            guard_text(binary_domain_text(op, a, b)) + assign_text(dst, binary_text(op, a, b))
        },
        Insn::Compare { dst, op, a, b } => {
            let (a, b) = (reg_text(a.0 as nat), reg_text(b.0 as nat));
            let residual = if op == CompareOp::Lte || op == CompareOp::Lt {
                "("@ + a + " - "@ + b + ")"@
            } else {
                "("@ + b + " - "@ + a + ")"@
            };
            assign_text(dst, residual + " - babel_slack("@ + a + ", "@ + b + ")"@)
        },
        Insn::NearEq { dst, a, b, tolerance } => {
            let (a, b, t) = (reg_text(a.0 as nat), reg_text(b.0 as nat), reg_text(tolerance.0 as nat));
            assign_text(
                dst,
                "max(("@ + b + " - "@ + t + ") - "@ + a + ", "@ + a + " - ("@ + b + " + "@ + t + ")) - babel_slack("@ + a
                    + ", "@ + b + ") - babel_slack("@ + t + ", 0.0)"@,
            )
        },
        Insn::Combine { dst, how, a, b, .. } => {
            let (a, b) = (reg_text(a.0 as nat), reg_text(b.0 as nat));
            assign_text(
                dst,
                match how {
                    Accumulate::Sum => a + " + "@ + b,
                    Accumulate::Prod => a + " * "@ + b,
                    Accumulate::Worst => "max("@ + a + ", "@ + b + ")"@,
                },
            )
        },
        Insn::Gather { dst, index, .. } => {
            let g = reg_text(index.0 as nat);
            "    {\n        let gi = i32("@ + g + ") - 1;\n        if gi < 0 || gi >= "@ + decimal(inputs) + " || f32(gi + 1) != "@ + g
                + " {\n            return BABEL_FAULT;\n        }\n        "@ + reg_text(dst.0 as nat) + " = (*x)[u32(gi)];\n    }\n"@
        },
        _ => Seq::empty(),
    }
}

/// `v` is the host's difference `x - y`, or that difference plus the
/// smallest normal, as a strict comparison's residual is.
pub open spec fn difference_of<B: Fn(BinaryOp, u64, u64) -> u64>(binary: B, v: u64, x: u64, y: u64) -> bool {
    ||| v == binary_value(binary, BinaryOp::Sub, x, y)
    ||| v == binary_value(binary, BinaryOp::Add, binary_value(binary, BinaryOp::Sub, x, y), EPSILON_BITS)
}

/// A comparison computes the same difference on the GPU as on the CPU, in
/// the same order: where the lane's residual of `l op r` is `l - r`
/// (plus the strict margin), the shader subtracts register `b` from
/// register `a`, and where it is `r - l`, register `a` from register `b`;
/// so both are `<= 0` for the same operands.
pub proof fn law_shader_compare_agrees_with_lane<B: Fn(BinaryOp, u64, u64) -> u64>(
    binary: B,
    dst: Reg,
    op: CompareOp,
    a: Reg,
    b: Reg,
    inputs: nat,
    l: u64,
    r: u64,
)
    ensures
        ({
            let (ta, tb) = (reg_text(a.0 as nat), reg_text(b.0 as nat));
            let slack = " - babel_slack("@ + ta + ", "@ + tb + ")"@;
            let text = insn_text(Insn::Compare { dst, op, a, b }, inputs);
            let cpu = compare_value(binary, op, l, r);
            ||| text == assign_text(dst, "("@ + ta + " - "@ + tb + ")"@ + slack) && difference_of(binary, cpu, l, r)
            ||| text == assign_text(dst, "("@ + tb + " - "@ + ta + ")"@ + slack) && difference_of(binary, cpu, r, l)
        }),
{
}

/// The statements of a run of instructions.
pub open spec fn insns_text(insns: Seq<Insn<Reg>>, inputs: nat) -> Seq<char>
    decreases insns.len(),
{
    if insns.len() == 0 {
        Seq::empty()
    } else {
        insns_text(insns.drop_last(), inputs) + insn_text(insns.last(), inputs)
    }
}

/// A register loaded with each constant's text, in order.
pub open spec fn constants_text(literals: Seq<String>) -> Seq<char>
    decreases literals.len(),
{
    if literals.len() == 0 {
        Seq::empty()
    } else {
        constants_text(literals.drop_last()) + assign_text(Reg((literals.len() - 1) as u16), literals.last()@)
    }
}

/// The function `name` over a pointer to `inputs` values, returning the
/// residual: the register file as a local array (of at least one register),
/// the constants, one statement group per instruction, and the result.
pub open spec fn function_text(tape: Tape, name: Seq<char>, inputs: nat, literals: Seq<String>) -> Seq<char> {
    "fn "@ + name + "(x: ptr<function, array<f32, "@ + decimal(inputs) + ">>) -> f32 {\n"@ + "    var r: array<f32, "@
        + decimal(if tape.registers == 0 { 1 } else { tape.registers as nat }) + ">;\n"@ + constants_text(literals)
        + insns_text(tape.insns@, inputs) + "    return "@ + reg_text(tape.result.0 as nat) + ";\n}\n"@
}

fn unary(op: UnaryOp, a: &str) -> (text: String)
    ensures
        text@ == unary_text(op, a@),
{
    let mut t = String::new();
    match op {
        UnaryOp::Cot => {
            t.append("1.0 / ");
            t.append("tan");
            t.append("(");
            t.append(a);
            t.append(")");
        },
        UnaryOp::Log10 => {
            t.append("log");
            t.append("(");
            t.append(a);
            t.append(")");
            t.append(" / 2.3025851");
        },
        UnaryOp::Cbrt => {
            t.append("sign");
            t.append("(");
            t.append(a);
            t.append(")");
            t.append(" * pow(");
            t.append("abs");
            t.append("(");
            t.append(a);
            t.append(")");
            t.append(", 0.33333334)");
        },
        UnaryOp::Sqr => {
            t.append(a);
            t.append(" * ");
            t.append(a);
        },
        UnaryOp::Cube => {
            t.append(a);
            t.append(" * ");
            t.append(a);
            t.append(" * ");
            t.append(a);
        },
        _ => {
            let head = match op {
                UnaryOp::Negate => "-",
                UnaryOp::Cos => "cos",
                UnaryOp::Sin => "sin",
                UnaryOp::Tan => "tan",
                UnaryOp::Acos => "acos",
                UnaryOp::Asin => "asin",
                UnaryOp::Atan => "atan",
                UnaryOp::Cosh => "cosh",
                UnaryOp::Sinh => "sinh",
                UnaryOp::Tanh => "tanh",
                UnaryOp::Ln => "log",
                UnaryOp::Abs => "abs",
                UnaryOp::Sqrt => "sqrt",
                UnaryOp::Ceil => "ceil",
                UnaryOp::Floor => "floor",
                _ => "sign",
            };
            t.append(head);
            t.append("(");
            t.append(a);
            t.append(")");
        },
    }
    proof {
        assert(t@ =~= unary_text(op, a@));
    }
    t
}

fn unary_domain(op: UnaryOp, a: &str) -> (text: Option<String>)
    ensures
        match (text, unary_domain_text(op, a@)) {
            (Some(t), Some(s)) => t@ == s,
            (None, None) => true,
            _ => false,
        },
{
    let mut t = String::new();
    match op {
        UnaryOp::Sqrt => {
            t.append(a);
            t.append(" < 0.0");
        },
        UnaryOp::Ln | UnaryOp::Log10 => {
            t.append(a);
            t.append(" <= 0.0");
        },
        UnaryOp::Acos | UnaryOp::Asin => {
            t.append("abs");
            t.append("(");
            t.append(a);
            t.append(")");
            t.append(" > 1.0");
        },
        _ => {
            return None;
        },
    }
    proof {
        assert(t@ =~= unary_domain_text(op, a@)->Some_0);
    }
    Some(t)
}

fn binary(op: BinaryOp, a: &str, b: &str) -> (text: String)
    ensures
        text@ == binary_text(op, a@, b@),
{
    let mut t = String::new();
    match op {
        BinaryOp::Pow | BinaryOp::Max | BinaryOp::Min => {
            t.append(
                match op {
                    BinaryOp::Pow => "pow(",
                    BinaryOp::Max => "max(",
                    _ => "min(",
                },
            );
            t.append(a);
            t.append(", ");
            t.append(b);
            t.append(")");
        },
        BinaryOp::LogB => {
            t.append("log");
            t.append("(");
            t.append(b);
            t.append(")");
            t.append(" / ");
            t.append("log");
            t.append("(");
            t.append(a);
            t.append(")");
        },
        _ => {
            t.append(a);
            t.append(
                match op {
                    BinaryOp::Add => " + ",
                    BinaryOp::Sub => " - ",
                    BinaryOp::Mul => " * ",
                    BinaryOp::Div => " / ",
                    _ => " % ",
                },
            );
            t.append(b);
        },
    }
    proof {
        assert(t@ =~= binary_text(op, a@, b@));
    }
    t
}

fn binary_domain(op: BinaryOp, a: &str, b: &str) -> (text: Option<String>)
    ensures
        match (text, binary_domain_text(op, a@, b@)) {
            (Some(t), Some(s)) => t@ == s,
            (None, None) => true,
            _ => false,
        },
{
    let mut t = String::new();
    match op {
        BinaryOp::Div | BinaryOp::Rem => {
            t.append(b);
            t.append(" == 0.0");
        },
        BinaryOp::Pow => {
            t.append(a);
            t.append(" < 0.0 && ");
            t.append(b);
            t.append(" != ");
            t.append("floor");
            t.append("(");
            t.append(b);
            t.append(")");
        },
        BinaryOp::LogB => {
            t.append(a);
            t.append(" <= 0.0 || ");
            t.append(b);
            t.append(" <= 0.0 || ");
            t.append(a);
            t.append(" == 1.0");
        },
        _ => {
            return None;
        },
    }
    proof {
        assert(t@ =~= binary_domain_text(op, a@, b@)->Some_0);
    }
    Some(t)
}

fn push_guard(out: &mut String, outside: Option<String>)
    ensures
        final(out)@ == old(out)@ + guard_text(
            match outside {
                Some(t) => Some(t@),
                None => None,
            },
        ),
{
    match outside {
        Some(condition) => {
            out.append("    if ");
            out.append(condition.as_str());
            out.append(" {\n        return BABEL_FAULT;\n    }\n");
            proof {
                assert(out@ =~= old(out)@ + ("    if "@ + condition@ + " {\n        return BABEL_FAULT;\n    }\n"@));
            }
        },
        None => {
            assert(out@ =~= old(out)@ + Seq::<char>::empty());
        },
    }
}

fn push_assign(out: &mut String, dst: Reg, value: &str)
    ensures
        final(out)@ == old(out)@ + assign_text(dst, value@),
{
    out.append("    ");
    out.append(reg(dst.index()).as_str());
    out.append(" = ");
    out.append(value);
    out.append(";\n");
    proof {
        assert(out@ =~= old(out)@ + assign_text(dst, value@));
    }
}

/// Appends the statements of `insn`.
fn push_insn(out: &mut String, insn: &Insn<Reg>, inputs: usize)
    ensures
        final(out)@ == old(out)@ + insn_text(*insn, inputs as nat),
{
    match *insn {
        Insn::Load { dst, input } => {
            let mut value = String::new();
            value.append("(*x)[");
            push_decimal(&mut value, input as u64);
            value.append("]");
            push_assign(out, dst, value.as_str());
        },
        Insn::Copy { dst, src } => {
            push_assign(out, dst, reg(src.index()).as_str());
        },
        Insn::Unary { dst, op, a } => {
            let a = reg(a.index());
            push_guard(out, unary_domain(op, a.as_str()));
            push_assign(out, dst, unary(op, a.as_str()).as_str());
        },
        Insn::Binary { dst, op, a, b } => {
            let (a, b) = (reg(a.index()), reg(b.index()));
            push_guard(out, binary_domain(op, a.as_str(), b.as_str()));
            push_assign(out, dst, binary(op, a.as_str(), b.as_str()).as_str());
        },
        Insn::Compare { dst, op, a, b } => {
            let (a, b) = (reg(a.index()), reg(b.index()));
            let mut value = String::new();
            value.append("(");
            match op {
                CompareOp::Lte | CompareOp::Lt => {
                    value.append(a.as_str());
                    value.append(" - ");
                    value.append(b.as_str());
                },
                _ => {
                    value.append(b.as_str());
                    value.append(" - ");
                    value.append(a.as_str());
                },
            }
            value.append(")");
            value.append(" - babel_slack(");
            value.append(a.as_str());
            value.append(", ");
            value.append(b.as_str());
            value.append(")");
            proof {
                let (ra, rb) = (a@, b@);
                let residual = if op == CompareOp::Lte || op == CompareOp::Lt {
                    "("@ + ra + " - "@ + rb + ")"@
                } else {
                    "("@ + rb + " - "@ + ra + ")"@
                };
                assert(value@ =~= residual + " - babel_slack("@ + ra + ", "@ + rb + ")"@);
            }
            push_assign(out, dst, value.as_str());
        },
        Insn::NearEq { dst, a, b, tolerance } => {
            let (a, b, t) = (reg(a.index()), reg(b.index()), reg(tolerance.index()));
            let mut value = String::new();
            value.append("max((");
            value.append(b.as_str());
            value.append(" - ");
            value.append(t.as_str());
            value.append(") - ");
            value.append(a.as_str());
            value.append(", ");
            value.append(a.as_str());
            value.append(" - (");
            value.append(b.as_str());
            value.append(" + ");
            value.append(t.as_str());
            value.append(")) - babel_slack(");
            value.append(a.as_str());
            value.append(", ");
            value.append(b.as_str());
            value.append(") - babel_slack(");
            value.append(t.as_str());
            value.append(", 0.0)");
            proof {
                let (ra, rb, rt) = (a@, b@, t@);
                assert(value@ =~= "max(("@ + rb + " - "@ + rt + ") - "@ + ra + ", "@ + ra + " - ("@ + rb + " + "@ + rt
                    + ")) - babel_slack("@ + ra + ", "@ + rb + ") - babel_slack("@ + rt + ", 0.0)"@);
            }
            push_assign(out, dst, value.as_str());
        },
        Insn::Combine { dst, how, a, b, .. } => {
            let (a, b) = (reg(a.index()), reg(b.index()));
            let mut value = String::new();
            match how {
                Accumulate::Sum => {
                    value.append(a.as_str());
                    value.append(" + ");
                    value.append(b.as_str());
                },
                Accumulate::Prod => {
                    value.append(a.as_str());
                    value.append(" * ");
                    value.append(b.as_str());
                },
                Accumulate::Worst => {
                    value.append("max(");
                    value.append(a.as_str());
                    value.append(", ");
                    value.append(b.as_str());
                    value.append(")");
                },
            }
            proof {
                let (ra, rb) = (a@, b@);
                assert(value@ =~= match how {
                    Accumulate::Sum => ra + " + "@ + rb,
                    Accumulate::Prod => ra + " * "@ + rb,
                    Accumulate::Worst => "max("@ + ra + ", "@ + rb + ")"@,
                });
            }
            push_assign(out, dst, value.as_str());
        },
        Insn::Gather { dst, index, .. } => {
            let g = reg(index.index());
            out.append("    {\n        let gi = i32(");
            out.append(g.as_str());
            out.append(") - 1;\n        if gi < 0 || gi >= ");
            push_decimal(out, inputs as u64);
            out.append(" || f32(gi + 1) != ");
            out.append(g.as_str());
            out.append(" {\n            return BABEL_FAULT;\n        }\n        ");
            out.append(reg(dst.index()).as_str());
            out.append(" = (*x)[u32(gi)];\n    }\n");
            proof {
                assert(out@ =~= old(out)@ + insn_text(*insn, inputs as nat));
            }
        },
        _ => {
            assert(out@ =~= old(out)@ + Seq::<char>::empty());
        },
    }
}

/// Renders `tape` as the WGSL function `name` over a pointer to an array of
/// `inputs` values; see [`function_text`]. `literals[i]` is the `f32` text
/// of constant `i`, as the host narrowed and wrote it.
pub fn emit_function(tape: &Tape, name: &str, inputs: usize, literals: &[String]) -> (text: String)
    requires
        literals@.len() == tape.consts@.len(),
        literals@.len() <= u16::MAX + 1,
    ensures
        text@ == function_text(*tape, name@, inputs as nat, literals@),
{
    let mut out = String::new();
    out.append("fn ");
    out.append(name);
    out.append("(x: ptr<function, array<f32, ");
    push_decimal(&mut out, inputs as u64);
    out.append(">>) -> f32 {\n");
    out.append("    var r: array<f32, ");
    let registers: usize = if tape.registers == 0 {
        1
    } else {
        tape.registers as usize
    };
    push_decimal(&mut out, registers as u64);
    out.append(">;\n");
    let ghost header = out@;
    proof {
        assert(literals@.take(0) =~= Seq::<String>::empty());
        assert(header + constants_text(literals@.take(0)) =~= header);
    }
    let mut i: usize = 0;
    while i < literals.len()
        invariant
            i <= literals@.len(),
            literals@.len() <= u16::MAX + 1,
            out@ == header + constants_text(literals@.take(i as int)),
        decreases literals@.len() - i,
    {
        proof {
            assert(literals@.take(i + 1).drop_last() =~= literals@.take(i as int));
            assert(literals@.take(i + 1).last() == literals@[i as int]);
        }
        push_assign(&mut out, Reg(i as u16), literals[i].as_str());
        proof {
            assert(out@ =~= header + constants_text(literals@.take(i + 1)));
        }
        i += 1;
    }
    proof {
        assert(literals@.take(literals@.len() as int) =~= literals@);
    }
    let ghost with_constants = out@;
    proof {
        assert(tape.insns@.take(0) =~= Seq::<Insn<Reg>>::empty());
        assert(with_constants + insns_text(tape.insns@.take(0), inputs as nat) =~= with_constants);
    }
    let mut k: usize = 0;
    while k < tape.insns.len()
        invariant
            k <= tape.insns@.len(),
            out@ == with_constants + insns_text(tape.insns@.take(k as int), inputs as nat),
        decreases tape.insns@.len() - k,
    {
        proof {
            assert(tape.insns@.take(k + 1).drop_last() =~= tape.insns@.take(k as int));
            assert(tape.insns@.take(k + 1).last() == tape.insns@[k as int]);
        }
        push_insn(&mut out, &tape.insns[k], inputs);
        proof {
            assert(out@ =~= with_constants + insns_text(tape.insns@.take(k + 1), inputs as nat));
        }
        k += 1;
    }
    proof {
        assert(tape.insns@.take(tape.insns@.len() as int) =~= tape.insns@);
    }
    out.append("    return ");
    out.append(reg(tape.result.index()).as_str());
    out.append(";\n}\n");
    proof {
        assert(out@ =~= function_text(*tape, name@, inputs as nat, literals@));
    }
    out
}

} // verus!
