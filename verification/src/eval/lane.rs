//! Running a tape one row at a time.
//!
//! The instruction semantics on bits, with the arithmetic the host's: each
//! operator is the host's `unary` or `binary`, and what is proved is the
//! rest (which register is read and written, the finite checks and where a
//! fault is reported, and how a `var[i]` subscript becomes a row position).
use vstd::prelude::*;

use super::lower::{FaultKind, LaneFault, Tape};
use super::tape::{Accumulate, Insn, Reg};
use crate::ast::{BinaryOp, CompareOp, UnaryOp};
use crate::binary64::{index_of, to_index};
use crate::frontend::fold::{binary_is_function, binary_value, finite, unary_is_function, unary_value};
use crate::frontend::invert::{at_most, max_bounds};
use crate::frontend::rewrite::EPSILON_BITS;

verus! {

/// The bits a register holds before anything writes it, and what a poisoned
/// result is: a quiet NaN.
pub const NAN_BITS: u64 = 0x7FF8_0000_0000_0000;

/// The registers of `tape` before the first instruction: each constant in
/// its own register, every other register a NaN.
pub open spec fn primed(tape: Tape) -> Seq<u64> {
    Seq::new(
        tape.registers as nat,
        |i: int|
            if i < tape.consts@.len() {
                tape.consts@[i]
            } else {
                NAN_BITS
            },
    )
}

/// The residual of `l op r` under the `<= 0` convention, through the host's
/// subtraction and addition; a strict comparison adds the smallest normal.
pub open spec fn compare_value<B: Fn(BinaryOp, u64, u64) -> u64>(binary: B, op: CompareOp, l: u64, r: u64) -> u64 {
    match op {
        CompareOp::Lte => binary_value(binary, BinaryOp::Sub, l, r),
        CompareOp::Gte => binary_value(binary, BinaryOp::Sub, r, l),
        CompareOp::Lt => binary_value(binary, BinaryOp::Add, binary_value(binary, BinaryOp::Sub, l, r), EPSILON_BITS),
        CompareOp::Gt => binary_value(binary, BinaryOp::Add, binary_value(binary, BinaryOp::Sub, r, l), EPSILON_BITS),
    }
}

/// `|l - r| <= t` as the larger of `(r - t) - l` and `l - (r + t)`.
pub open spec fn near_eq_value<B: Fn(BinaryOp, u64, u64) -> u64>(binary: B, l: u64, r: u64, t: u64) -> u64 {
    binary_value(
        binary,
        BinaryOp::Max,
        binary_value(binary, BinaryOp::Sub, binary_value(binary, BinaryOp::Sub, r, t), l),
        binary_value(binary, BinaryOp::Sub, l, binary_value(binary, BinaryOp::Add, r, t)),
    )
}

/// How far `l` falls short of `r - t`: `(r - t) - l`, through the host.
pub open spec fn below_by<B: Fn(BinaryOp, u64, u64) -> u64>(binary: B, l: u64, r: u64, t: u64) -> u64 {
    binary_value(binary, BinaryOp::Sub, binary_value(binary, BinaryOp::Sub, r, t), l)
}

/// How far `l` exceeds `r + t`: `l - (r + t)`, through the host.
pub open spec fn above_by<B: Fn(BinaryOp, u64, u64) -> u64>(binary: B, l: u64, r: u64, t: u64) -> u64 {
    binary_value(binary, BinaryOp::Sub, l, binary_value(binary, BinaryOp::Add, r, t))
}

/// A near-equality's residual is `<= 0` exactly when `l` is within `t` of
/// `r` on both sides: when neither `(r - t) - l` nor `l - (r + t)` is
/// positive, wherever the host's `max` behaves as a maximum.
pub proof fn law_near_eq_holds_on_both_sides<B: Fn(BinaryOp, u64, u64) -> u64>(binary: B, l: u64, r: u64, t: u64)
    requires
        max_bounds(binary, below_by(binary, l, r, t), above_by(binary, l, r, t)),
    ensures
        at_most(near_eq_value(binary, l, r, t), 0) <==> at_most(below_by(binary, l, r, t), 0) && at_most(
            above_by(binary, l, r, t),
            0,
        ),
{
}

/// A lane's near-equality instruction leaves in its destination a value
/// that is `<= 0` exactly when its left operand lies within the tolerance
/// of its right one, on both sides.
pub proof fn law_near_eq_step<U: Fn(UnaryOp, u64) -> u64, B: Fn(BinaryOp, u64, u64) -> u64>(
    tape: Tape,
    row: Seq<u64>,
    regs: Seq<u64>,
    pc: int,
    unary: U,
    binary: B,
)
    requires
        0 <= pc < tape.insns@.len(),
        tape.insns@[pc] is NearEq,
        ({
            let (d, a, b, t) = match tape.insns@[pc] {
                Insn::NearEq { dst, a, b, tolerance } => (dst, a, b, tolerance),
                _ => arbitrary(),
            };
            &&& 0 <= d.0 < regs.len()
            &&& max_bounds(
                binary,
                below_by(binary, regs[a.0 as int], regs[b.0 as int], regs[t.0 as int]),
                above_by(binary, regs[a.0 as int], regs[b.0 as int], regs[t.0 as int]),
            )
        }),
    ensures
        match tape.insns@[pc] {
            Insn::NearEq { dst, a, b, tolerance } => step(tape, row, regs, pc, unary, binary) matches Ok(after) ==> (
            at_most(after[dst.0 as int], 0) <==> at_most(
                below_by(binary, regs[a.0 as int], regs[b.0 as int], regs[tolerance.0 as int]),
                0,
            ) && at_most(above_by(binary, regs[a.0 as int], regs[b.0 as int], regs[tolerance.0 as int]), 0)),
            _ => true,
        },
{
    match tape.insns@[pc] {
        Insn::NearEq { dst, a, b, tolerance } => {
            law_near_eq_holds_on_both_sides(binary, regs[a.0 as int], regs[b.0 as int], regs[tolerance.0 as int]);
        },
        _ => {},
    }
}

/// One step of a fold: a sum adds, a product multiplies, and a conjunction
/// keeps the worst residual.
pub open spec fn combine_value<B: Fn(BinaryOp, u64, u64) -> u64>(binary: B, how: Accumulate, x: u64, y: u64) -> u64 {
    match how {
        Accumulate::Sum => binary_value(binary, BinaryOp::Add, x, y),
        Accumulate::Prod => binary_value(binary, BinaryOp::Mul, x, y),
        Accumulate::Worst => binary_value(binary, BinaryOp::Max, x, y),
    }
}

/// The row position a `var[i]` subscript of `value` names among `available`:
/// one-based, so a whole number below one, like one past the end, is out of
/// bounds; a value that is not a whole number names nothing.
pub open spec fn resolved(value: u64, available: nat) -> Result<int, FaultKind> {
    match index_of(value) {
        None => Err(FaultKind::NotAnInteger(value)),
        Some(k) => if 1 <= k && k - 1 < available {
            Ok(k - 1)
        } else {
            Err(FaultKind::OutOfBounds { requested_1index: k, available: available as usize })
        },
    }
}

/// `value` written to `dst`, or a fault at `pc` when it is not finite.
pub open spec fn written(regs: Seq<u64>, dst: Reg, value: u64, pc: int) -> Result<Seq<u64>, LaneFault> {
    if finite(value) {
        Ok(regs.update(dst.0 as int, value))
    } else {
        Err(LaneFault { insn: pc as usize, kind: FaultKind::NonFinite(value) })
    }
}

/// What instruction `pc` of `tape` does to the registers `regs`, over `row`.
pub open spec fn step<U: Fn(UnaryOp, u64) -> u64, B: Fn(BinaryOp, u64, u64) -> u64>(
    tape: Tape,
    row: Seq<u64>,
    regs: Seq<u64>,
    pc: int,
    unary: U,
    binary: B,
) -> Result<Seq<u64>, LaneFault> {
    match tape.insns@[pc] {
        Insn::Load { dst, input } => written(regs, dst, row[input as int], pc),
        Insn::Copy { dst, src } => Ok(regs.update(dst.0 as int, regs[src.0 as int])),
        Insn::Unary { dst, op, a } => written(regs, dst, unary_value(unary, op, regs[a.0 as int]), pc),
        Insn::Binary { dst, op, a, b } => written(
            regs,
            dst,
            binary_value(binary, op, regs[a.0 as int], regs[b.0 as int]),
            pc,
        ),
        Insn::Compare { dst, op, a, b } => written(
            regs,
            dst,
            compare_value(binary, op, regs[a.0 as int], regs[b.0 as int]),
            pc,
        ),
        Insn::NearEq { dst, a, b, tolerance } => written(
            regs,
            dst,
            near_eq_value(binary, regs[a.0 as int], regs[b.0 as int], regs[tolerance.0 as int]),
            pc,
        ),
        Insn::Combine { dst, how, a, b, last } => {
            let v = combine_value(binary, how, regs[a.0 as int], regs[b.0 as int]);
            if last {
                written(regs, dst, v, pc)
            } else {
                Ok(regs.update(dst.0 as int, v))
            }
        },
        Insn::Check { reg } => if finite(regs[reg.0 as int]) {
            Ok(regs)
        } else {
            Err(LaneFault { insn: pc as usize, kind: FaultKind::NonFinite(regs[reg.0 as int]) })
        },
        Insn::Gather { dst, index, .. } => match resolved(regs[index.0 as int], row.len()) {
            Err(kind) => Err(LaneFault { insn: pc as usize, kind }),
            Ok(p) => written(regs, dst, row[p], pc),
        },
        // Not in a runnable tape.
        _ => Ok(regs),
    }
}

/// The registers after the first `n` instructions, or the first fault.
pub open spec fn run<U: Fn(UnaryOp, u64) -> u64, B: Fn(BinaryOp, u64, u64) -> u64>(
    tape: Tape,
    row: Seq<u64>,
    n: nat,
    unary: U,
    binary: B,
) -> Result<Seq<u64>, LaneFault>
    decreases n,
{
    if n == 0 {
        Ok(primed(tape))
    } else {
        match run(tape, row, (n - 1) as nat, unary, binary) {
            Err(f) => Err(f),
            Ok(regs) => step(tape, row, regs, n - 1, unary, binary),
        }
    }
}

/// What one row makes of `tape`: the result register once every
/// instruction has run, or the first fault.
pub open spec fn lane_result<U: Fn(UnaryOp, u64) -> u64, B: Fn(BinaryOp, u64, u64) -> u64>(
    tape: Tape,
    row: Seq<u64>,
    unary: U,
    binary: B,
) -> Result<u64, LaneFault> {
    match run(tape, row, tape.insns@.len(), unary, binary) {
        Ok(regs) => Ok(regs[tape.result.0 as int]),
        Err(f) => Err(f),
    }
}

/// [`resolved`].
fn resolve_index(value: u64, available: usize) -> (r: Result<usize, FaultKind>)
    ensures
        match (r, resolved(value, available as nat)) {
            (Ok(p), Ok(q)) => p == q,
            (Err(a), Err(b)) => a == b,
            _ => false,
        },
{
    match to_index(value) {
        None => Err(FaultKind::NotAnInteger(value)),
        Some(k) => {
            if 1 <= k && ((k - 1) as u64) < (available as u64) {
                Ok((k - 1) as usize)
            } else {
                Err(FaultKind::OutOfBounds { requested_1index: k, available })
            }
        },
    }
}

fn write_checked(regs: &mut Vec<u64>, dst: Reg, value: u64, pc: usize) -> (r: Result<(), LaneFault>)
    requires
        (dst.0 as int) < old(regs)@.len(),
    ensures
        match (r, written(old(regs)@, dst, value, pc as int)) {
            (Ok(()), Ok(s)) => final(regs)@ == s,
            (Err(a), Err(b)) => a == b,
            _ => false,
        },
{
    if (value / 0x10_0000_0000_0000) % 2048 == 2047 {
        Err(LaneFault { insn: pc, kind: FaultKind::NonFinite(value) })
    } else {
        regs.set(dst.0 as usize, value);
        Ok(())
    }
}

/// Runs `tape` over one row with the host's `unary` and `binary`: the
/// result register once every instruction has run, or the first fault; see
/// [`lane_result`].
pub fn run_lane<U: Fn(UnaryOp, u64) -> u64, B: Fn(BinaryOp, u64, u64) -> u64>(
    tape: &Tape,
    row: &[u64],
    unary: &U,
    binary: &B,
) -> (r: Result<u64, LaneFault>)
    requires
        tape.runnable(row@.len()),
        unary_is_function(*unary),
        binary_is_function(*binary),
    ensures
        r == lane_result(*tape, row@, *unary, *binary),
{
    let registers = tape.registers as usize;
    let mut regs: Vec<u64> = Vec::new();
    let mut i: usize = 0;
    while i < registers
        invariant
            i <= registers,
            registers == tape.registers,
            regs@ =~= primed(*tape).take(i as int),
            tape.registers >= tape.consts@.len() + tape.locals,
        decreases registers - i,
    {
        if i < tape.consts.len() {
            regs.push(tape.consts[i]);
        } else {
            regs.push(NAN_BITS);
        }
        i += 1;
    }
    proof {
        assert(regs@ =~= primed(*tape));
    }
    let mut pc: usize = 0;
    while pc < tape.insns.len()
        invariant
            pc <= tape.insns@.len(),
            tape.runnable(row@.len()),
            unary_is_function(*unary),
            binary_is_function(*binary),
            run(*tape, row@, pc as nat, *unary, *binary) == Ok::<Seq<u64>, LaneFault>(regs@),
            regs@.len() == tape.registers,
        decreases tape.insns@.len() - pc,
    {
        let insn = tape.insns[pc];
        proof {
            let ms = insn.spec_mentions();
            assert forall|k: int| 0 <= k < ms.len() implies (#[trigger] ms[k]).0 < regs@.len() by {
                assert(tape.insns@[pc as int].spec_mentions()[k].0 < tape.registers);
            }
            assert(tape.insns@[pc as int].is_straight());
        }
        let ghost before = regs@;
        let outcome: Result<(), LaneFault> = match insn {
            Insn::Load { dst, input } => {
                proof {
                    assert(insn.spec_mentions()[0] == dst);
                    assert(tape.insns@[pc as int] is Load ==> tape.insns@[pc as int]->Load_input < row@.len());
                }
                write_checked(&mut regs, dst, row[input as usize], pc)
            },
            Insn::Copy { dst, src } => {
                proof {
                    assert(insn.spec_mentions()[0] == dst);
                    assert(insn.spec_mentions()[1] == src);
                }
                let v = regs[src.0 as usize];
                regs.set(dst.0 as usize, v);
                Ok(())
            },
            Insn::Unary { dst, op, a } => {
                proof {
                    assert(insn.spec_mentions()[0] == dst);
                    assert(insn.spec_mentions()[1] == a);
                }
                let v = unary(op, regs[a.0 as usize]);
                write_checked(&mut regs, dst, v, pc)
            },
            Insn::Binary { dst, op, a, b } => {
                proof {
                    assert(insn.spec_mentions()[0] == dst);
                    assert(insn.spec_mentions()[1] == a);
                    assert(insn.spec_mentions()[2] == b);
                }
                let v = binary(op, regs[a.0 as usize], regs[b.0 as usize]);
                write_checked(&mut regs, dst, v, pc)
            },
            Insn::Compare { dst, op, a, b } => {
                proof {
                    assert(insn.spec_mentions()[0] == dst);
                    assert(insn.spec_mentions()[1] == a);
                    assert(insn.spec_mentions()[2] == b);
                }
                let l = regs[a.0 as usize];
                let r = regs[b.0 as usize];
                let v = match op {
                    CompareOp::Lte => binary(BinaryOp::Sub, l, r),
                    CompareOp::Gte => binary(BinaryOp::Sub, r, l),
                    CompareOp::Lt => {
                        let d = binary(BinaryOp::Sub, l, r);
                        binary(BinaryOp::Add, d, EPSILON_BITS)
                    },
                    CompareOp::Gt => {
                        let d = binary(BinaryOp::Sub, r, l);
                        binary(BinaryOp::Add, d, EPSILON_BITS)
                    },
                };
                write_checked(&mut regs, dst, v, pc)
            },
            Insn::NearEq { dst, a, b, tolerance } => {
                proof {
                    assert(insn.spec_mentions()[0] == dst);
                    assert(insn.spec_mentions()[1] == a);
                    assert(insn.spec_mentions()[2] == b);
                    assert(insn.spec_mentions()[3] == tolerance);
                }
                let l = regs[a.0 as usize];
                let r = regs[b.0 as usize];
                let t = regs[tolerance.0 as usize];
                let low = binary(BinaryOp::Sub, r, t);
                let at_least = binary(BinaryOp::Sub, low, l);
                let high = binary(BinaryOp::Add, r, t);
                let at_most = binary(BinaryOp::Sub, l, high);
                let v = binary(BinaryOp::Max, at_least, at_most);
                write_checked(&mut regs, dst, v, pc)
            },
            Insn::Combine { dst, how, a, b, last } => {
                proof {
                    assert(insn.spec_mentions()[0] == dst);
                    assert(insn.spec_mentions()[1] == a);
                    assert(insn.spec_mentions()[2] == b);
                }
                let x = regs[a.0 as usize];
                let y = regs[b.0 as usize];
                let v = match how {
                    Accumulate::Sum => binary(BinaryOp::Add, x, y),
                    Accumulate::Prod => binary(BinaryOp::Mul, x, y),
                    Accumulate::Worst => binary(BinaryOp::Max, x, y),
                };
                if last {
                    write_checked(&mut regs, dst, v, pc)
                } else {
                    regs.set(dst.0 as usize, v);
                    Ok(())
                }
            },
            Insn::Check { reg } => {
                proof {
                    assert(insn.spec_mentions()[0] == reg);
                }
                let v = regs[reg.0 as usize];
                if (v / 0x10_0000_0000_0000) % 2048 == 2047 {
                    Err(LaneFault { insn: pc, kind: FaultKind::NonFinite(v) })
                } else {
                    Ok(())
                }
            },
            Insn::Gather { dst, index, .. } => {
                proof {
                    assert(insn.spec_mentions()[0] == dst);
                    assert(insn.spec_mentions()[1] == index);
                }
                match resolve_index(regs[index.0 as usize], row.len()) {
                    Err(kind) => Err(LaneFault { insn: pc, kind }),
                    Ok(p) => write_checked(&mut regs, dst, row[p], pc),
                }
            },
            _ => Ok(()),
        };
        proof {
            assert(step(*tape, row@, before, pc as int, *unary, *binary) == match outcome {
                Ok(()) => Ok::<Seq<u64>, LaneFault>(regs@),
                Err(f) => Err::<Seq<u64>, LaneFault>(f),
            });
        }
        match outcome {
            Err(f) => {
                proof {
                    lemma_run_rest_fails(*tape, row@, (pc + 1) as nat, *unary, *binary);
                }
                return Err(f);
            },
            Ok(()) => {},
        }
        pc += 1;
    }
    Ok(regs[tape.result.0 as usize])
}

/// A fault is the outcome of the whole run.
proof fn lemma_run_rest_fails<U: Fn(UnaryOp, u64) -> u64, B: Fn(BinaryOp, u64, u64) -> u64>(
    tape: Tape,
    row: Seq<u64>,
    n: nat,
    unary: U,
    binary: B,
)
    requires
        n <= tape.insns@.len(),
        run(tape, row, n, unary, binary) is Err,
    ensures
        run(tape, row, tape.insns@.len(), unary, binary) == run(tape, row, n, unary, binary),
    decreases tape.insns@.len() - n,
{
    if n < tape.insns@.len() {
        lemma_run_rest_fails(tape, row, n + 1, unary, binary);
    }
}

} // verus!
