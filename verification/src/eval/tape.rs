//! The evaluator's intermediate representation: a flat list of three-address
//! instructions over virtual registers.
//!
//! A tape pays its dispatch once per instruction per tile of samples, and the
//! same tape read one lane at a time is the per-row evaluator. Three-address
//! form rather than a stack, because every consumer wants names: the batched
//! executor wants destination and operand slices, the register allocator wants
//! intervals, and a shader emitter wants `r[7] = r[3] * r[4];`.
use vstd::prelude::*;

use crate::ast::{AggregateKind, BinaryOp, CompareOp, UnaryOp};
use crate::diagnostics::{BoundKind, Span};

verus! {

/// A physical register: an index into the frame (per lane) or the register
/// file (per tile).
#[derive(Debug, Clone, Copy, PartialEq, Eq, Structural, PartialOrd, Ord, Hash)]
pub struct Reg(pub u16);

impl Reg {
    pub fn index(self) -> (index: usize)
        ensures
            index == self.0,
    {
        self.0 as usize
    }
}

/// A register before allocation, by class.
///
/// Constants and locals are pinned: a constant lives in one register for the
/// life of the tape, and a local keeps the frame slot the front end gave it, so
/// an unwritten local reads the NaN it was primed with. Only temporaries are
/// packed.
#[derive(Debug, Clone, Copy, PartialEq, Eq, Structural, Hash)]
pub enum VReg {
    Const(u16),
    Local(u16),
    Temp(u32),
}

/// How a fold step combines.
#[derive(Debug, Clone, Copy, PartialEq, Eq, Structural, Hash)]
pub enum Accumulate {
    Sum,
    Prod,
    /// Conjunction under the `<= 0` convention: the worst residual wins.
    Worst,
}

impl Accumulate {
    /// The fold's starting value, as bits: `0` for a sum, `1` for a product,
    /// negative infinity for a conjunction.
    pub fn identity(self) -> (bits: u64)
        ensures
            self == Accumulate::Sum ==> bits == 0,
            self == Accumulate::Prod ==> bits == 0x3FF0_0000_0000_0000,
            self == Accumulate::Worst ==> bits == 0xFFF0_0000_0000_0000,
    {
        match self {
            Accumulate::Sum => 0,
            Accumulate::Prod => 0x3FF0_0000_0000_0000,
            Accumulate::Worst => 0xFFF0_0000_0000_0000,
        }
    }

    pub fn from_aggregate(kind: AggregateKind) -> (how: Accumulate)
        ensures
            kind == AggregateKind::Sum ==> how == Accumulate::Sum,
            kind == AggregateKind::Prod ==> how == Accumulate::Prod,
    {
        match kind {
            AggregateKind::Sum => Accumulate::Sum,
            AggregateKind::Prod => Accumulate::Prod,
        }
    }
}

/// Whether a tape can run a tile at a time.
#[derive(Debug, Clone, Copy, PartialEq, Eq, Structural, Hash)]
pub enum Shape {
    StraightLine,
    Loops,
}

/// One instruction, generic over the register type so that a tape whose
/// registers have not been allocated cannot be run by mistake.
///
/// "Checked" means the destination is tested for a finite value, and a
/// non-finite one is a fault at the instruction's span.
#[derive(Debug, Clone, Copy, PartialEq, Eq, Structural)]
pub enum Insn<R> {
    /// `row[input]` into `dst`. Checked.
    Load { dst: R, input: u32 },
    /// A leaf copied into a local. Unchecked: the leaf was.
    Copy { dst: R, src: R },
    Unary { dst: R, op: UnaryOp, a: R },
    /// `dst` never aliases `a` or `b` once allocated.
    Binary { dst: R, op: BinaryOp, a: R, b: R },
    /// The residual of `a op b` under the `<= 0` convention. Checked.
    Compare { dst: R, op: CompareOp, a: R, b: R },
    /// `a == b +/- tolerance`; `tolerance` is a constant register. Checked.
    NearEq { dst: R, a: R, b: R, tolerance: R },
    /// One step of a fold: `dst = how(a, b)`; `dst == a` is allowed and usual.
    /// Checked only when `last`.
    Combine { dst: R, how: Accumulate, a: R, b: R, last: bool },
    /// Test `reg` for a finite value.
    Check { reg: R },
    /// `var[index]`: one-based into the whole row.
    Gather { dst: R, index: R, subscript: Span },
    /// Convert an aggregate bound to an index, or fault.
    Bound { reg: R, which: BoundKind },
    /// A run-time-bounded aggregate.
    LoopStart { lower: R, upper: R, param: R, acc: R, kind: AggregateKind, end: u32 },
    /// `acc = kind.combine(acc, term)`; then the next index, or fall through.
    LoopEnd { start: u32, acc: R, term: R },
}

impl<R> Insn<R> {
    /// The register this instruction writes, if any.
    pub open spec fn spec_dst(self) -> Option<R> {
        match self {
            Insn::Load { dst, .. } => Some(dst),
            Insn::Copy { dst, .. } => Some(dst),
            Insn::Unary { dst, .. } => Some(dst),
            Insn::Binary { dst, .. } => Some(dst),
            Insn::Compare { dst, .. } => Some(dst),
            Insn::NearEq { dst, .. } => Some(dst),
            Insn::Combine { dst, .. } => Some(dst),
            Insn::Gather { dst, .. } => Some(dst),
            Insn::LoopStart { acc, .. } => Some(acc),
            Insn::LoopEnd { acc, .. } => Some(acc),
            Insn::Check { .. } => None,
            Insn::Bound { .. } => None,
        }
    }

    /// The registers this instruction reads.
    pub open spec fn spec_sources(self) -> Seq<R> {
        match self {
            Insn::Load { .. } => seq![],
            Insn::Copy { src, .. } => seq![src],
            Insn::Unary { a, .. } => seq![a],
            Insn::Binary { a, b, .. } => seq![a, b],
            Insn::Compare { a, b, .. } => seq![a, b],
            Insn::NearEq { a, b, tolerance, .. } => seq![a, b, tolerance],
            Insn::Combine { a, b, .. } => seq![a, b],
            Insn::Check { reg } => seq![reg],
            Insn::Bound { reg, .. } => seq![reg],
            Insn::Gather { index, .. } => seq![index],
            Insn::LoopStart { lower, upper, param, .. } => seq![lower, upper, param],
            Insn::LoopEnd { acc, term, .. } => seq![acc, term],
        }
    }

    /// Every register the instruction names: its destination, then its sources.
    pub open spec fn spec_mentions(self) -> Seq<R> {
        match self {
            Insn::Load { dst, .. } => seq![dst],
            Insn::Copy { dst, src } => seq![dst, src],
            Insn::Unary { dst, a, .. } => seq![dst, a],
            Insn::Binary { dst, a, b, .. } => seq![dst, a, b],
            Insn::Compare { dst, a, b, .. } => seq![dst, a, b],
            Insn::NearEq { dst, a, b, tolerance } => seq![dst, a, b, tolerance],
            Insn::Combine { dst, a, b, .. } => seq![dst, a, b],
            Insn::Check { reg } => seq![reg],
            Insn::Bound { reg, .. } => seq![reg],
            Insn::Gather { dst, index, .. } => seq![dst, index],
            Insn::LoopStart { lower, upper, param, acc, .. } => seq![acc, lower, upper, param],
            Insn::LoopEnd { acc, term, .. } => seq![acc, acc, term],
        }
    }

    /// The mentions are the destination followed by the sources.
    pub proof fn lemma_mentions(self)
        ensures
            self.spec_mentions() == (match self.spec_dst() {
                Some(d) => seq![d] + self.spec_sources(),
                None => self.spec_sources(),
            }),
    {
        match self.spec_dst() {
            Some(d) => assert(self.spec_mentions() =~= seq![d] + self.spec_sources()),
            None => assert(self.spec_mentions() =~= self.spec_sources()),
        }
    }

    /// `self` and `other` are the same instruction with every register of `self`
    /// related by `rel` to the register in the same place in `other`.
    pub open spec fn related<S>(self, other: Insn<S>, rel: spec_fn(R, S) -> bool) -> bool {
        match (self, other) {
            (Insn::Load { dst: d, input: i }, Insn::Load { dst: d2, input: i2 }) => rel(d, d2) && i
                == i2,
            (Insn::Copy { dst: d, src: s }, Insn::Copy { dst: d2, src: s2 }) => rel(d, d2) && rel(
                s,
                s2,
            ),
            (Insn::Unary { dst: d, op, a }, Insn::Unary { dst: d2, op: op2, a: a2 }) => rel(d, d2)
                && op == op2 && rel(a, a2),
            (Insn::Binary { dst: d, op, a, b }, Insn::Binary { dst: d2, op: op2, a: a2, b: b2 }) =>
                rel(d, d2) && op == op2 && rel(a, a2) && rel(b, b2),
            (
                Insn::Compare { dst: d, op, a, b },
                Insn::Compare { dst: d2, op: op2, a: a2, b: b2 },
            ) => rel(d, d2) && op == op2 && rel(a, a2) && rel(b, b2),
            (
                Insn::NearEq { dst: d, a, b, tolerance: t },
                Insn::NearEq { dst: d2, a: a2, b: b2, tolerance: t2 },
            ) => rel(d, d2) && rel(a, a2) && rel(b, b2) && rel(t, t2),
            (
                Insn::Combine { dst: d, how, a, b, last },
                Insn::Combine { dst: d2, how: how2, a: a2, b: b2, last: last2 },
            ) => rel(d, d2) && how == how2 && rel(a, a2) && rel(b, b2) && last == last2,
            (Insn::Check { reg }, Insn::Check { reg: reg2 }) => rel(reg, reg2),
            (
                Insn::Gather { dst: d, index, subscript },
                Insn::Gather { dst: d2, index: index2, subscript: subscript2 },
            ) => rel(d, d2) && rel(index, index2) && subscript == subscript2,
            (Insn::Bound { reg, which }, Insn::Bound { reg: reg2, which: which2 }) => rel(reg, reg2)
                && which == which2,
            (
                Insn::LoopStart { lower, upper, param, acc, kind, end },
                Insn::LoopStart {
                    lower: lower2,
                    upper: upper2,
                    param: param2,
                    acc: acc2,
                    kind: kind2,
                    end: end2,
                },
            ) => rel(lower, lower2) && rel(upper, upper2) && rel(param, param2) && rel(acc, acc2)
                && kind == kind2 && end == end2,
            (
                Insn::LoopEnd { start, acc, term },
                Insn::LoopEnd { start: start2, acc: acc2, term: term2 },
            ) => start == start2 && rel(acc, acc2) && rel(term, term2),
            _ => false,
        }
    }

    /// Whether the instruction is a fold step, the one kind allowed to write a
    /// register it also reads.
    pub open spec fn is_combine(self) -> bool {
        self is Combine
    }

    /// Not one of the instructions of a run-time loop.
    pub open spec fn is_straight(self) -> bool {
        !(self is Bound || self is LoopStart || self is LoopEnd)
    }
}

impl<R: Copy> Insn<R> {
    /// The register this instruction writes, if any.
    pub fn dst(&self) -> (dst: Option<R>)
        ensures
            dst == self.spec_dst(),
    {
        match *self {
            Insn::Load { dst, .. } => Some(dst),
            Insn::Copy { dst, .. } => Some(dst),
            Insn::Unary { dst, .. } => Some(dst),
            Insn::Binary { dst, .. } => Some(dst),
            Insn::Compare { dst, .. } => Some(dst),
            Insn::NearEq { dst, .. } => Some(dst),
            Insn::Combine { dst, .. } => Some(dst),
            Insn::Gather { dst, .. } => Some(dst),
            Insn::LoopStart { acc, .. } => Some(acc),
            Insn::LoopEnd { acc, .. } => Some(acc),
            Insn::Check { .. } => None,
            Insn::Bound { .. } => None,
        }
    }

    /// The registers this instruction reads.
    pub fn sources(&self) -> (sources: Vec<R>)
        ensures
            sources@ == self.spec_sources(),
    {
        let sources = match *self {
            Insn::Load { .. } => Vec::new(),
            Insn::Copy { src, .. } => vec![src],
            Insn::Unary { a, .. } => vec![a],
            Insn::Binary { a, b, .. } => vec![a, b],
            Insn::Compare { a, b, .. } => vec![a, b],
            Insn::NearEq { a, b, tolerance, .. } => vec![a, b, tolerance],
            Insn::Combine { a, b, .. } => vec![a, b],
            Insn::Check { reg } => vec![reg],
            Insn::Bound { reg, .. } => vec![reg],
            Insn::Gather { index, .. } => vec![index],
            Insn::LoopStart { lower, upper, param, .. } => vec![lower, upper, param],
            Insn::LoopEnd { acc, term, .. } => vec![acc, term],
        };
        proof {
            assert(sources@ =~= self.spec_sources());
        }
        sources
    }

    /// The destination followed by the sources.
    pub fn mentions(&self) -> (mentions: Vec<R>)
        ensures
            mentions@ == self.spec_mentions(),
    {
        let mut mentions = Vec::new();
        if let Some(d) = self.dst() {
            mentions.push(d);
        }
        let mut sources = self.sources();
        mentions.append(&mut sources);
        proof {
            self.lemma_mentions();
            assert(mentions@ =~= self.spec_mentions());
        }
        mentions
    }

    /// The same instruction over another register type, each register put
    /// through `f`.
    pub fn map<S, F: Fn(R) -> S>(self, f: F) -> (mapped: Insn<S>)
        requires
            forall|r: R| #[trigger] self.spec_mentions().contains(r) ==> f.requires((r,)),
        ensures
            self.related(mapped, |r: R, s: S| f.ensures((r,), s)),
    {
        proof {
            assert forall|i: int| 0 <= i < self.spec_mentions().len() implies f.requires(
                (#[trigger] self.spec_mentions()[i],),
            ) by {
                assert(self.spec_mentions().contains(self.spec_mentions()[i]));
            }
            let m = self.spec_mentions();
            if m.len() > 0 { let _ = m[0]; }
            if m.len() > 1 { let _ = m[1]; }
            if m.len() > 2 { let _ = m[2]; }
            if m.len() > 3 { let _ = m[3]; }
        }
        match self {
            Insn::Load { dst, input } => Insn::Load { dst: f(dst), input },
            Insn::Copy { dst, src } => Insn::Copy { dst: f(dst), src: f(src) },
            Insn::Unary { dst, op, a } => Insn::Unary { dst: f(dst), op, a: f(a) },
            Insn::Binary { dst, op, a, b } => Insn::Binary { dst: f(dst), op, a: f(a), b: f(b) },
            Insn::Compare { dst, op, a, b } => Insn::Compare { dst: f(dst), op, a: f(a), b: f(b) },
            Insn::NearEq { dst, a, b, tolerance } => Insn::NearEq {
                dst: f(dst),
                a: f(a),
                b: f(b),
                tolerance: f(tolerance),
            },
            Insn::Combine { dst, how, a, b, last } => Insn::Combine {
                dst: f(dst),
                how,
                a: f(a),
                b: f(b),
                last,
            },
            Insn::Check { reg } => Insn::Check { reg: f(reg) },
            Insn::Gather { dst, index, subscript } => Insn::Gather {
                dst: f(dst),
                index: f(index),
                subscript,
            },
            Insn::Bound { reg, which } => Insn::Bound { reg: f(reg), which },
            Insn::LoopStart { lower, upper, param, acc, kind, end } => Insn::LoopStart {
                lower: f(lower),
                upper: f(upper),
                param: f(param),
                acc: f(acc),
                kind,
                end,
            },
            Insn::LoopEnd { start, acc, term } => Insn::LoopEnd {
                start,
                acc: f(acc),
                term: f(term),
            },
        }
    }
}

} // verus!
