//! Program to tape: one post-order walk emitting instructions in the order
//! the nodes are evaluated, so that a fault lands on the same span and a fold
//! accumulates in the same order.
//!
//! Register classes are decided here and packed by [`super::regalloc`]:
//! literals become constant registers, local slots become local registers
//! one to one, and everything else is a temporary.
use vstd::prelude::*;

use crate::ast::{model_block, model_expr, AssignmentModel, scoped, scoped_block, Block, Expr, ExprModel, BlockModel, Kind, KindModel, LocalSlot, Program};
use crate::binary64::to_index;
use crate::diagnostics::{BoundKind, Fault, ProblemKind, Span};

use super::regalloc::{allocate, allocation_by, defines, maps_physically, register_in_class, well_formed};
use super::tape::{Accumulate, Insn, Reg, Shape, VReg};

verus! {

/// Whether `e` reads local slot `s` anywhere.
pub open spec fn reads_slot(e: ExprModel, s: LocalSlot) -> bool
    decreases e,
{
    match e.kind {
        KindModel::Local(slot) => slot == s,
        KindModel::DynamicIndex(index) => reads_slot(*index, s),
        KindModel::Unary { arg, .. } => reads_slot(*arg, s),
        KindModel::Binary { lhs, rhs, .. } => reads_slot(*lhs, s) || reads_slot(*rhs, s),
        KindModel::Compare { lhs, rhs, .. } => reads_slot(*lhs, s) || reads_slot(*rhs, s),
        KindModel::NearEq { lhs, rhs, .. } => reads_slot(*lhs, s) || reads_slot(*rhs, s),
        KindModel::Aggregate { lower, upper, body, .. } => reads_slot(*lower, s) || reads_slot(*upper, s)
            || block_reads_slot(*body, s),
        KindModel::Block(block) => block_reads_slot(*block, s),
        KindModel::Fold { terms, .. } => exists|i: int| 0 <= i < terms.len() && reads_slot(#[trigger] terms[i], s),
        _ => false,
    }
}

/// Whether `b` reads local slot `s` anywhere.
pub open spec fn block_reads_slot(b: BlockModel, s: LocalSlot) -> bool
    decreases b,
{
    ||| exists|i: int| 0 <= i < b.assignments.len() && reads_slot(#[trigger] b.assignments[i].value, s)
    ||| reads_slot(b.result, s)
}

/// How many nodes `e` has, a fold counting each of its terms once more
/// for the step that combines it: what bounds the registers and the
/// instructions its lowering takes.
pub open spec fn expr_size(e: ExprModel) -> nat
    decreases e,
{
    match e.kind {
        KindModel::DynamicIndex(index) => 1 + expr_size(*index),
        KindModel::Unary { arg, .. } => 1 + expr_size(*arg),
        KindModel::Binary { lhs, rhs, .. } => 1 + expr_size(*lhs) + expr_size(*rhs),
        KindModel::Compare { lhs, rhs, .. } => 1 + expr_size(*lhs) + expr_size(*rhs),
        KindModel::NearEq { lhs, rhs, .. } => 1 + expr_size(*lhs) + expr_size(*rhs),
        KindModel::Block(block) => 1 + block_size(*block),
        KindModel::Fold { terms, .. } => 1 + terms_size(terms),
        _ => 1,
    }
}

/// [`expr_size`] of each term, plus one each.
pub open spec fn terms_size(terms: Seq<ExprModel>) -> nat
    decreases terms,
{
    if terms.len() == 0 {
        0
    } else {
        terms_size(terms.drop_last()) + expr_size(terms.last()) + 1
    }
}

/// [`expr_size`] of each assigned value.
pub open spec fn values_size(assignments: Seq<AssignmentModel>) -> nat
    decreases assignments,
{
    if assignments.len() == 0 {
        0
    } else {
        values_size(assignments.drop_last()) + expr_size(assignments.last().value)
    }
}

/// [`expr_size`] for a block: its values and its result.
pub open spec fn block_size(b: BlockModel) -> nat
    decreases b,
{
    values_size(b.assignments) + expr_size(b.result)
}

/// The values of a prefix of `assignments` take no more than a longer one.
pub proof fn lemma_values_size_grows(assignments: Seq<AssignmentModel>, i: int, j: int)
    requires
        0 <= i <= j <= assignments.len(),
    ensures
        values_size(assignments.take(i)) <= values_size(assignments.take(j)),
        values_size(assignments.take(assignments.len() as int)) == values_size(assignments),
    decreases j - i,
{
    assert(assignments.take(assignments.len() as int) =~= assignments);
    if i < j {
        lemma_values_size_grows(assignments, i, j - 1);
        assert(assignments.take(j).drop_last() =~= assignments.take(j - 1));
    }
}

/// The terms of a prefix of `terms` take no more than a longer one.
pub proof fn lemma_terms_size_grows(terms: Seq<ExprModel>, i: int, j: int)
    requires
        0 <= i <= j <= terms.len(),
    ensures
        terms_size(terms.take(i)) <= terms_size(terms.take(j)),
        terms_size(terms.take(terms.len() as int)) == terms_size(terms),
    decreases j - i,
{
    assert(terms.take(terms.len() as int) =~= terms);
    if i < j {
        lemma_terms_size_grows(terms, i, j - 1);
        assert(terms.take(j).drop_last() =~= terms.take(j - 1));
    }
}

/// A program small enough that the registers and instructions its tape
/// takes are sure to be numbered: the bound under which [`lower`] succeeds.
pub open spec fn fits_tape(body: BlockModel, frame: nat) -> bool {
    2 * block_size(body) + frame <= 0xffff
}

/// What lowering asks of an expression: every local slot is below `frame`,
/// every global id below `globals`, no assignment reads the slot it writes,
/// and no aggregate is left, which unrolling removes whenever its bounds are
/// literals.
pub open spec fn lowerable(e: ExprModel, frame: nat, globals: nat) -> bool
    decreases e,
{
    match e.kind {
        KindModel::Literal(_) => true,
        KindModel::Global(id) => id.spec_index() < globals,
        KindModel::Local(slot) => slot.0 < frame,
        KindModel::DynamicIndex(index) => lowerable(*index, frame, globals),
        KindModel::Unary { arg, .. } => lowerable(*arg, frame, globals),
        KindModel::Binary { lhs, rhs, .. } => lowerable(*lhs, frame, globals) && lowerable(*rhs, frame, globals),
        KindModel::Compare { lhs, rhs, .. } => lowerable(*lhs, frame, globals) && lowerable(*rhs, frame, globals),
        KindModel::NearEq { lhs, rhs, .. } => lowerable(*lhs, frame, globals) && lowerable(*rhs, frame, globals),
        KindModel::Aggregate { .. } => false,
        KindModel::Block(block) => lowerable_block(*block, frame, globals),
        KindModel::Fold { terms, .. } => forall|i: int| 0 <= i < terms.len() ==> lowerable(#[trigger] terms[i], frame, globals),
    }
}

/// [`lowerable`] for a block.
pub open spec fn lowerable_block(b: BlockModel, frame: nat, globals: nat) -> bool
    decreases b,
{
    &&& forall|i: int|
        0 <= i < b.assignments.len() ==> {
            let a = #[trigger] b.assignments[i];
            &&& a.slot.0 < frame
            &&& lowerable(a.value, frame, globals)
            &&& !reads_slot(a.value, a.slot)
        }
    &&& lowerable(b.result, frame, globals)
}

/// No aggregate anywhere in `e`: every one was unrolled.
pub open spec fn aggregate_free(e: ExprModel) -> bool
    decreases e,
{
    match e.kind {
        KindModel::Aggregate { .. } => false,
        KindModel::DynamicIndex(index) => aggregate_free(*index),
        KindModel::Unary { arg, .. } => aggregate_free(*arg),
        KindModel::Binary { lhs, rhs, .. } => aggregate_free(*lhs) && aggregate_free(*rhs),
        KindModel::Compare { lhs, rhs, .. } => aggregate_free(*lhs) && aggregate_free(*rhs),
        KindModel::NearEq { lhs, rhs, .. } => aggregate_free(*lhs) && aggregate_free(*rhs),
        KindModel::Block(block) => block_aggregate_free(*block),
        KindModel::Fold { terms, .. } => forall|i: int| 0 <= i < terms.len() ==> aggregate_free(#[trigger] terms[i]),
        _ => true,
    }
}

/// No aggregate anywhere in `b`.
pub open spec fn block_aggregate_free(b: BlockModel) -> bool
    decreases b,
{
    &&& forall|i: int| 0 <= i < b.assignments.len() ==> aggregate_free(#[trigger] b.assignments[i].value)
    &&& aggregate_free(b.result)
}

/// A scoped expression reads no slot at or past its frame.
pub proof fn lemma_scoped_reads_below(e: ExprModel, f: nat, g: nat, s: LocalSlot)
    requires
        scoped(e, f, g),
        s.0 >= f,
    ensures
        !reads_slot(e, s),
    decreases e,
{
    match e.kind {
        KindModel::DynamicIndex(index) => lemma_scoped_reads_below(*index, f, g, s),
        KindModel::Unary { arg, .. } => lemma_scoped_reads_below(*arg, f, g, s),
        KindModel::Binary { lhs, rhs, .. } => {
            lemma_scoped_reads_below(*lhs, f, g, s);
            lemma_scoped_reads_below(*rhs, f, g, s);
        },
        KindModel::Compare { lhs, rhs, .. } => {
            lemma_scoped_reads_below(*lhs, f, g, s);
            lemma_scoped_reads_below(*rhs, f, g, s);
        },
        KindModel::NearEq { lhs, rhs, .. } => {
            lemma_scoped_reads_below(*lhs, f, g, s);
            lemma_scoped_reads_below(*rhs, f, g, s);
        },
        KindModel::Aggregate { lower, upper, body, .. } => {
            lemma_scoped_reads_below(*lower, f, g, s);
            lemma_scoped_reads_below(*upper, f, g, s);
            lemma_scoped_block_reads_below(*body, f, g, s);
        },
        KindModel::Block(block) => lemma_scoped_block_reads_below(*block, f, g, s),
        KindModel::Fold { terms, .. } => {
            assert forall|i: int| 0 <= i < terms.len() implies !reads_slot(#[trigger] terms[i], s) by {
                lemma_scoped_reads_below(terms[i], f, g, s);
            }
        },
        _ => {},
    }
}

/// [`lemma_scoped_reads_below`] for a block.
pub proof fn lemma_scoped_block_reads_below(b: BlockModel, f: nat, g: nat, s: LocalSlot)
    requires
        scoped_block(b, f, g),
        s.0 >= f,
    ensures
        !block_reads_slot(b, s),
    decreases b,
{
    assert forall|i: int| 0 <= i < b.assignments.len() implies !reads_slot(#[trigger] b.assignments[i].value, s) by {
        lemma_scoped_reads_below(b.assignments[i].value, b.assignments[i].slot.0 as nat, g, s);
    }
    lemma_scoped_reads_below(b.result, f, g, s);
}

/// A scoped expression with no aggregate left can be lowered.
pub proof fn lemma_lowerable(e: ExprModel, f: nat, g: nat)
    requires
        scoped(e, f, g),
        aggregate_free(e),
    ensures
        lowerable(e, f, g),
    decreases e,
{
    match e.kind {
        KindModel::DynamicIndex(index) => lemma_lowerable(*index, f, g),
        KindModel::Unary { arg, .. } => lemma_lowerable(*arg, f, g),
        KindModel::Binary { lhs, rhs, .. } => {
            lemma_lowerable(*lhs, f, g);
            lemma_lowerable(*rhs, f, g);
        },
        KindModel::Compare { lhs, rhs, .. } => {
            lemma_lowerable(*lhs, f, g);
            lemma_lowerable(*rhs, f, g);
        },
        KindModel::NearEq { lhs, rhs, .. } => {
            lemma_lowerable(*lhs, f, g);
            lemma_lowerable(*rhs, f, g);
        },
        KindModel::Block(block) => lemma_block_lowerable(*block, f, g),
        KindModel::Fold { terms, .. } => {
            assert forall|i: int| 0 <= i < terms.len() implies lowerable(#[trigger] terms[i], f, g) by {
                lemma_lowerable(terms[i], f, g);
            }
        },
        _ => {},
    }
}

/// [`lemma_lowerable`] for a block.
pub proof fn lemma_block_lowerable(b: BlockModel, f: nat, g: nat)
    requires
        scoped_block(b, f, g),
        block_aggregate_free(b),
    ensures
        lowerable_block(b, f, g),
    decreases b,
{
    assert forall|i: int| 0 <= i < b.assignments.len() implies {
        let a = #[trigger] b.assignments[i];
        &&& a.slot.0 < f
        &&& lowerable(a.value, f, g)
        &&& !reads_slot(a.value, a.slot)
    } by {
        let a = b.assignments[i];
        crate::ast::lemma_scoped_grows(a.value, a.slot.0 as nat, g, f, g);
        lemma_lowerable(a.value, f, g);
        lemma_scoped_reads_below(a.value, a.slot.0 as nat, g, a.slot);
    }
    lemma_lowerable(b.result, f, g);
}

/// Whether no aggregate is left anywhere in `e`.
pub fn is_aggregate_free(e: &Expr) -> (free: bool)
    ensures
        free == aggregate_free(e@),
    decreases e,
{
    match &e.kind {
        Kind::Aggregate { .. } => false,
        Kind::DynamicIndex(index) => is_aggregate_free(index),
        Kind::Unary { arg, .. } => is_aggregate_free(arg),
        Kind::Binary { lhs, rhs, .. } => is_aggregate_free(lhs) && is_aggregate_free(rhs),
        Kind::Compare { lhs, rhs, .. } => is_aggregate_free(lhs) && is_aggregate_free(rhs),
        Kind::NearEq { lhs, rhs, .. } => is_aggregate_free(lhs) && is_aggregate_free(rhs),
        Kind::Block(block) => is_block_aggregate_free(block),
        Kind::Fold { terms, .. } => {
            let mut i: usize = 0;
            while i < terms.len()
                invariant
                    e.kind == (Kind::Fold { kind: e.kind->Fold_kind, terms: *terms }),
                    i <= terms@.len(),
                    forall|j: int| 0 <= j < i ==> aggregate_free(#[trigger] terms@[j]@),
                decreases terms@.len() - i,
            {
                assert(decreases_to!(*e => e.kind->Fold_terms@[i as int]));
                if !is_aggregate_free(&terms[i]) {
                    proof {
                        assert(e@.kind->Fold_terms[i as int] == terms@[i as int]@);
                    }
                    return false;
                }
                i += 1;
            }
            proof {
                assert forall|j: int| 0 <= j < e@.kind->Fold_terms.len() implies aggregate_free(#[trigger] e@.kind->Fold_terms[j]) by {
                    assert(e@.kind->Fold_terms[j] == terms@[j]@);
                }
            }
            true
        },
        _ => true,
    }
}

/// Whether no aggregate is left anywhere in `b`.
pub fn is_block_aggregate_free(b: &Block) -> (free: bool)
    ensures
        free == block_aggregate_free(b@),
    decreases b,
{
    let mut i: usize = 0;
    while i < b.assignments.len()
        invariant
            i <= b.assignments@.len(),
            forall|j: int| 0 <= j < i ==> aggregate_free(#[trigger] b.assignments@[j].value@),
        decreases b.assignments@.len() - i,
    {
        assert(decreases_to!(*b => b.assignments@[i as int].value));
        if !is_aggregate_free(&b.assignments[i].value) {
            proof {
                assert(b@.assignments[i as int].value == b.assignments@[i as int].value@);
            }
            return false;
        }
        i += 1;
    }
    proof {
        assert forall|j: int| 0 <= j < b@.assignments.len() implies aggregate_free(#[trigger] b@.assignments[j].value) by {
            assert(b@.assignments[j].value == b.assignments@[j].value@);
        }
    }
    is_aggregate_free(&b.result)
}

/// A virtual register that an instruction may name in a tape with `consts`
/// constants, `locals` locals and temporaries below `temps`.
pub open spec fn in_class(r: VReg, consts: nat, locals: nat, temps: nat) -> bool {
    match r {
        VReg::Const(c) => c < consts,
        VReg::Local(l) => l < locals,
        VReg::Temp(t) => t < temps,
    }
}

/// Some instruction of `insns` writes temporary `t`.
pub open spec fn defined(insns: Seq<Insn<VReg>>, t: u32) -> bool {
    exists|j: int| 0 <= j < insns.len() && #[trigger] defines(insns[j], t)
}

/// A tape of virtual registers, before allocation.
pub struct VirtualTape {
    /// Register `Const(i)` holds `consts[i]`, as bits; no two are equal.
    pub consts: Vec<u64>,
    pub locals: u16,
    pub insns: Vec<Insn<VReg>>,
    /// `spans[i]` is the node `insns[i]` computes.
    pub spans: Vec<Span>,
    pub result: VReg,
}

/// A lowered, allocated tape.
#[derive(Debug)]
pub struct Tape {
    /// Register `i` holds `consts[i]`, as bits; no two are equal.
    pub consts: Vec<u64>,
    /// The program's frame size: registers `consts.len()..` are the locals.
    pub locals: u16,
    /// Constants, locals and packed temporaries together.
    pub registers: u16,
    pub insns: Vec<Insn<Reg>>,
    /// `spans[i]` is the node `insns[i]` computes: the span a check reports.
    pub spans: Vec<Span>,
    pub result: Reg,
    pub shape: Shape,
}

/// What stopped one lane: the value a check saw, a subscript that is not a
/// whole number or addresses no parameter, or an aggregate bound that cannot
/// be used. Values are the bits of binary64 values.
#[derive(Debug, Clone, Copy, PartialEq, Eq, Structural)]
pub enum FaultKind {
    NonFinite(u64),
    NotAnInteger(u64),
    OutOfBounds { requested_1index: i64, available: usize },
    Bound(BoundKind, u64),
}

/// The instruction one lane stopped at, and why.
#[derive(Debug, Clone, Copy, PartialEq, Eq, Structural)]
pub struct LaneFault {
    pub insn: usize,
    pub kind: FaultKind,
}

impl Tape {
    /// What running the tape a row at a time needs: a span for each
    /// instruction, no instruction of a run-time loop, every load within a
    /// row of `row_len`, the constants and locals within the registers, and
    /// every register it names below the register count.
    pub open spec fn runnable(self, row_len: nat) -> bool {
        &&& self.spans@.len() == self.insns@.len()
        &&& self.registers >= self.consts@.len() + self.locals
        &&& forall|i: int| 0 <= i < self.insns@.len() ==> (#[trigger] self.insns@[i]).is_straight()
        &&& forall|i: int|
            0 <= i < self.insns@.len() ==> ((#[trigger] self.insns@[i]) is Load ==> self.insns@[i]->Load_input
                < row_len)
        &&& forall|i: int, k: int|
            0 <= i < self.insns@.len() && 0 <= k < self.insns@[i].spec_mentions().len() ==> (
            #[trigger] self.insns@[i].spec_mentions()[k]).0 < self.registers
        &&& self.result.0 < self.registers
    }

    /// The span a fault at instruction `at` is reported against: a gather's
    /// subscript for the faults that concern a subscript, else the span of
    /// the node the instruction computes.
    pub open spec fn subscript_span(self, at: int) -> Span {
        match self.insns@[at] {
            Insn::Gather { subscript, .. } => subscript,
            _ => self.spans@[at],
        }
    }

    /// The fault a lane's stop is reported as.
    pub open spec fn spec_fault(self, lane: LaneFault) -> Fault {
        let at = lane.insn as int;
        match lane.kind {
            FaultKind::NonFinite(value) => Fault { kind: ProblemKind::NonFiniteValue { value }, span: self.spans@[at] },
            FaultKind::NotAnInteger(value) => Fault {
                kind: ProblemKind::DynamicIndexNotAnInteger { value },
                span: self.subscript_span(at),
            },
            FaultKind::OutOfBounds { requested_1index, available } => Fault {
                kind: ProblemKind::DynamicIndexOutOfBounds { requested_1index, available },
                span: self.subscript_span(at),
            },
            FaultKind::Bound(bound, value) => Fault {
                kind: ProblemKind::IllegalAggregateBound { bound, value },
                span: self.spans@[at],
            },
        }
    }

    /// [`Tape::spec_fault`]: a lane's stop located against the tape's spans.
    pub fn fault(&self, lane: LaneFault) -> (fault: Fault)
        requires
            lane.insn < self.insns@.len(),
            self.spans@.len() == self.insns@.len(),
        ensures
            fault == self.spec_fault(lane),
    {
        let at = lane.insn;
        let subscript = match self.insns[at] {
            Insn::Gather { subscript, .. } => subscript,
            _ => self.spans[at],
        };
        match lane.kind {
            FaultKind::NonFinite(value) => Fault { kind: ProblemKind::NonFiniteValue { value }, span: self.spans[at] },
            FaultKind::NotAnInteger(value) => Fault {
                kind: ProblemKind::DynamicIndexNotAnInteger { value },
                span: subscript,
            },
            FaultKind::OutOfBounds { requested_1index, available } => Fault {
                kind: ProblemKind::DynamicIndexOutOfBounds { requested_1index, available },
                span: subscript,
            },
            FaultKind::Bound(bound, value) => Fault {
                kind: ProblemKind::IllegalAggregateBound { bound, value },
                span: self.spans[at],
            },
        }
    }
}

struct Lowerer {
    row_len: usize,
    frame_size: u32,
    consts: Vec<u64>,
    next_temp: u32,
    insns: Vec<Insn<VReg>>,
    spans: Vec<Span>,
    /// Row position and the register already holding it.
    loads: Vec<(u32, VReg)>,
    /// Which local slots are definitely written by the time they are read.
    assigned: Vec<bool>,
}

/// The index of the first instruction of `insns`, from `k` on, that writes
/// `reg`.
pub open spec fn first_def(insns: Seq<Insn<VReg>>, reg: VReg, k: int) -> Option<int>
    decreases insns.len() - k,
{
    if k < 0 || k >= insns.len() {
        None
    } else if insns[k].spec_dst() == Some(reg) {
        Some(k)
    } else {
        first_def(insns, reg, k + 1)
    }
}

/// The instruction of `insns` that first writes `reg`.
pub open spec fn definition(insns: Seq<Insn<VReg>>, reg: VReg) -> Option<Insn<VReg>> {
    match first_def(insns, reg, 0) {
        Some(k) => Some(insns[k]),
        None => None,
    }
}

/// Register `reg` of the virtual program `insns`, over the constants
/// `consts` and a schema that puts global `id` at row position
/// `positions[id]`, is where `e` is worked out: a literal's constant
/// register, a load of a global's position, a local's own register, and for
/// an operation a register first written by an instruction of that
/// operation from the registers where its operands, in their order, are
/// worked out. Blocks, folds and subscripts are not described.
pub open spec fn computes(insns: Seq<Insn<VReg>>, consts: Seq<u64>, positions: Seq<u32>, reg: VReg, e: ExprModel) -> bool
    decreases e,
{
    match e.kind {
        KindModel::Literal(x) => reg is Const && (reg->Const_0 as int) < consts.len() && consts[reg->Const_0 as int] == x,
        KindModel::Global(id) => id.spec_index() < positions.len() && loaded(insns, (positions[id.spec_index() as int], reg)),
        KindModel::Local(slot) => reg == VReg::Local(slot.0 as u16),
        KindModel::Unary { op, arg } => match definition(insns, reg) {
            Some(Insn::Unary { op: o, a, .. }) => o == op && computes(insns, consts, positions, a, *arg),
            _ => false,
        },
        KindModel::Binary { op, lhs, rhs } => match definition(insns, reg) {
            Some(Insn::Binary { op: o, a, b, .. }) => o == op && computes(insns, consts, positions, a, *lhs) && computes(
                insns,
                consts,
                positions,
                b,
                *rhs,
            ),
            _ => false,
        },
        KindModel::Compare { op, lhs, rhs } => match definition(insns, reg) {
            Some(Insn::Compare { op: o, a, b, .. }) => o == op && computes(insns, consts, positions, a, *lhs) && computes(
                insns,
                consts,
                positions,
                b,
                *rhs,
            ),
            _ => false,
        },
        _ => true,
    }
}

/// The first writer found from `k` on stands at or after `k`, and writes
/// the register.
pub proof fn lemma_first_def_range(insns: Seq<Insn<VReg>>, reg: VReg, k: int)
    ensures
        first_def(insns, reg, k) matches Some(i) ==> k <= i < insns.len() && insns[i].spec_dst() == Some(reg),
    decreases insns.len() - k,
{
    if 0 <= k < insns.len() && insns[k].spec_dst() != Some(reg) {
        lemma_first_def_range(insns, reg, k + 1);
    }
}

/// The first writer of a register stays the first as instructions are
/// added after it.
pub proof fn lemma_first_def_grows(insns: Seq<Insn<VReg>>, more: Seq<Insn<VReg>>, reg: VReg, k: int)
    requires
        0 <= k,
        first_def(insns, reg, k) is Some,
        insns.len() <= more.len(),
        more.subrange(0, insns.len() as int) == insns,
    ensures
        first_def(more, reg, k) == first_def(insns, reg, k),
    decreases insns.len() - k,
{
    assert(more[k] == more.subrange(0, insns.len() as int)[k]);
    if insns[k].spec_dst() != Some(reg) {
        lemma_first_def_grows(insns, more, reg, k + 1);
    }
}

/// A register nothing in `insns` writes is first written by an instruction
/// pushed after them that writes it.
pub proof fn lemma_first_def_fresh(insns: Seq<Insn<VReg>>, insn: Insn<VReg>, reg: VReg, k: int)
    requires
        0 <= k <= insns.len(),
        forall|i: int| k <= i < insns.len() ==> insns[i].spec_dst() != Some(reg),
        insn.spec_dst() == Some(reg),
    ensures
        first_def(insns.push(insn), reg, k) == Some(insns.len() as int),
    decreases insns.len() - k,
{
    if k < insns.len() {
        assert(insns.push(insn)[k] == insns[k]);
        lemma_first_def_fresh(insns, insn, reg, k + 1);
    } else {
        assert(insns.push(insn)[k] == insn);
    }
}

/// The value of `e` over `row`, when `e` is built from literals, globals
/// and operations on them: a global is the row's value at its position, an
/// operation the host's result on its operands' values (a comparison its
/// residual).
pub open spec fn value_of<U: Fn(crate::ast::UnaryOp, u64) -> u64, B: Fn(crate::ast::BinaryOp, u64, u64) -> u64>(
    e: ExprModel,
    row: Seq<u64>,
    positions: Seq<u32>,
    unary: U,
    binary: B,
) -> Option<u64>
    decreases e,
{
    match e.kind {
        KindModel::Literal(x) => Some(x),
        KindModel::Global(id) => if id.spec_index() < positions.len() && positions[id.spec_index() as int] < row.len() {
            Some(row[positions[id.spec_index() as int] as int])
        } else {
            None
        },
        KindModel::Unary { op, arg } => match value_of(*arg, row, positions, unary, binary) {
            Some(x) => Some(crate::frontend::fold::unary_value(unary, op, x)),
            None => None,
        },
        KindModel::Binary { op, lhs, rhs } => match (
            value_of(*lhs, row, positions, unary, binary),
            value_of(*rhs, row, positions, unary, binary),
        ) {
            (Some(x), Some(y)) => Some(crate::frontend::fold::binary_value(binary, op, x, y)),
            _ => None,
        },
        KindModel::Compare { op, lhs, rhs } => match (
            value_of(*lhs, row, positions, unary, binary),
            value_of(*rhs, row, positions, unary, binary),
        ) {
            (Some(x), Some(y)) => Some(super::lane::compare_value(binary, op, x, y)),
            _ => None,
        },
        _ => None,
    }
}

/// `vals` gives every register of the virtual program `insns` the value it
/// holds when run over `row`: a constant register its constant, and the
/// register a load, a function, an operation or a comparison writes what
/// that instruction works out from the values of its sources.
pub open spec fn consistent<U: Fn(crate::ast::UnaryOp, u64) -> u64, B: Fn(crate::ast::BinaryOp, u64, u64) -> u64>(
    insns: Seq<Insn<VReg>>,
    consts: Seq<u64>,
    row: Seq<u64>,
    vals: spec_fn(VReg) -> u64,
    unary: U,
    binary: B,
) -> bool {
    &&& forall|i: u16| (i as int) < consts.len() ==> vals(VReg::Const(i)) == consts[i as int]
    &&& forall|j: int|
        0 <= j < insns.len() ==> match #[trigger] insns[j] {
            Insn::Load { dst, input } => vals(dst) == row[input as int],
            Insn::Unary { dst, op, a } => vals(dst) == crate::frontend::fold::unary_value(unary, op, vals(a)),
            Insn::Binary { dst, op, a, b } => vals(dst) == crate::frontend::fold::binary_value(binary, op, vals(a), vals(b)),
            Insn::Compare { dst, op, a, b } => vals(dst) == super::lane::compare_value(binary, op, vals(a), vals(b)),
            _ => true,
        }
}

/// Lowering keeps meaning: wherever the virtual program puts `e`, running it
/// over a row leaves there the value of `e` over that row, each operation
/// applied to its left operand's value first and its right one's second.
pub proof fn law_lowering_keeps_meaning<U: Fn(crate::ast::UnaryOp, u64) -> u64, B: Fn(crate::ast::BinaryOp, u64, u64) -> u64>(
    insns: Seq<Insn<VReg>>,
    consts: Seq<u64>,
    positions: Seq<u32>,
    row: Seq<u64>,
    vals: spec_fn(VReg) -> u64,
    unary: U,
    binary: B,
    reg: VReg,
    e: ExprModel,
)
    requires
        computes(insns, consts, positions, reg, e),
        consistent(insns, consts, row, vals, unary, binary),
        value_of(e, row, positions, unary, binary) is Some,
    ensures
        vals(reg) == value_of(e, row, positions, unary, binary)->Some_0,
    decreases e,
{
    match e.kind {
        KindModel::Literal(x) => {
            let c = reg->Const_0;
            assert(vals(VReg::Const(c)) == consts[c as int]);
        },
        KindModel::Global(id) => {
            let input = positions[id.spec_index() as int];
            let j = choose|j: int| 0 <= j < insns.len() && insns[j] == Insn::Load { dst: reg, input };
            assert(match insns[j] {
                Insn::Load { dst, input } => vals(dst) == row[input as int],
                _ => true,
            });
        },
        KindModel::Unary { op, arg } => {
            lemma_first_def_range(insns, reg, 0);
            let k = first_def(insns, reg, 0)->Some_0;
            let insn = insns[k];
            law_lowering_keeps_meaning(insns, consts, positions, row, vals, unary, binary, insn->Unary_a, *arg);
            assert(match insns[k] {
                Insn::Unary { dst, op, a } => vals(dst) == crate::frontend::fold::unary_value(unary, op, vals(a)),
                _ => true,
            });
        },
        KindModel::Binary { op, lhs, rhs } => {
            lemma_first_def_range(insns, reg, 0);
            let k = first_def(insns, reg, 0)->Some_0;
            let insn = insns[k];
            law_lowering_keeps_meaning(insns, consts, positions, row, vals, unary, binary, insn->Binary_a, *lhs);
            law_lowering_keeps_meaning(insns, consts, positions, row, vals, unary, binary, insn->Binary_b, *rhs);
            assert(match insns[k] {
                Insn::Binary { dst, op, a, b } => vals(dst) == crate::frontend::fold::binary_value(binary, op, vals(a), vals(b)),
                _ => true,
            });
        },
        KindModel::Compare { op, lhs, rhs } => {
            lemma_first_def_range(insns, reg, 0);
            let k = first_def(insns, reg, 0)->Some_0;
            let insn = insns[k];
            law_lowering_keeps_meaning(insns, consts, positions, row, vals, unary, binary, insn->Compare_a, *lhs);
            law_lowering_keeps_meaning(insns, consts, positions, row, vals, unary, binary, insn->Compare_b, *rhs);
            assert(match insns[k] {
                Insn::Compare { dst, op, a, b } => vals(dst) == super::lane::compare_value(binary, op, vals(a), vals(b)),
                _ => true,
            });
        },
        _ => {},
    }
}

/// What [`computes`] says survives more instructions and more constants.
pub proof fn lemma_computes_grows(
    insns: Seq<Insn<VReg>>,
    consts: Seq<u64>,
    more_insns: Seq<Insn<VReg>>,
    more_consts: Seq<u64>,
    positions: Seq<u32>,
    reg: VReg,
    e: ExprModel,
)
    requires
        computes(insns, consts, positions, reg, e),
        insns.len() <= more_insns.len(),
        more_insns.subrange(0, insns.len() as int) == insns,
        consts.len() <= more_consts.len(),
        more_consts.subrange(0, consts.len() as int) == consts,
    ensures
        computes(more_insns, more_consts, positions, reg, e),
    decreases e,
{
    match e.kind {
        KindModel::Literal(x) => {
            assert(more_consts[reg->Const_0 as int] == more_consts.subrange(0, consts.len() as int)[reg->Const_0 as int]);
        },
        KindModel::Global(id) => {
            let entry = (positions[id.spec_index() as int], reg);
            let j = choose|j: int| 0 <= j < insns.len() && insns[j] == Insn::Load { dst: entry.1, input: entry.0 };
            assert(more_insns[j] == more_insns.subrange(0, insns.len() as int)[j]);
        },
        KindModel::Unary { op, arg } => {
            lemma_first_def_grows(insns, more_insns, reg, 0);
            lemma_first_def_range(insns, reg, 0);
            let k = first_def(insns, reg, 0)->Some_0;
            assert(more_insns[k] == more_insns.subrange(0, insns.len() as int)[k]);
            let a = insns[k]->Unary_a;
            lemma_computes_grows(insns, consts, more_insns, more_consts, positions, a, *arg);
        },
        KindModel::Binary { op, lhs, rhs } => {
            lemma_first_def_grows(insns, more_insns, reg, 0);
            lemma_first_def_range(insns, reg, 0);
            let k = first_def(insns, reg, 0)->Some_0;
            assert(more_insns[k] == more_insns.subrange(0, insns.len() as int)[k]);
            lemma_computes_grows(insns, consts, more_insns, more_consts, positions, insns[k]->Binary_a, *lhs);
            lemma_computes_grows(insns, consts, more_insns, more_consts, positions, insns[k]->Binary_b, *rhs);
        },
        KindModel::Compare { op, lhs, rhs } => {
            lemma_first_def_grows(insns, more_insns, reg, 0);
            lemma_first_def_range(insns, reg, 0);
            let k = first_def(insns, reg, 0)->Some_0;
            assert(more_insns[k] == more_insns.subrange(0, insns.len() as int)[k]);
            lemma_computes_grows(insns, consts, more_insns, more_consts, positions, insns[k]->Compare_a, *lhs);
            lemma_computes_grows(insns, consts, more_insns, more_consts, positions, insns[k]->Compare_b, *rhs);
        },
        _ => {},
    }
}

/// Some instruction of `insns` loads row position `entry.0` into register
/// `entry.1`.
pub open spec fn loaded(insns: Seq<Insn<VReg>>, entry: (u32, VReg)) -> bool {
    exists|j: int| 0 <= j < insns.len() && insns[j] == Insn::Load { dst: entry.1, input: entry.0 }
}

impl Lowerer {
    spec fn ready(&self, r: VReg) -> bool {
        &&& in_class(r, self.consts@.len(), self.frame_size as nat, self.next_temp as nat)
        &&& (r is Temp ==> defined(self.insns@, r->Temp_0))
    }

    spec fn inv(&self) -> bool {
        &&& self.consts@.len() < 0xffff
        &&& self.frame_size <= 0xffff
        &&& self.spans@.len() == self.insns@.len()
        &&& forall|i: int| 0 <= i < self.insns@.len() ==> (#[trigger] self.insns@[i]).is_straight()
        &&& forall|i: int| 0 <= i < self.insns@.len() ==> ((#[trigger] self.insns@[i]) is Load ==> self.insns@[i]->Load_input < self.row_len)
        &&& self.assigned@.len() == self.frame_size
        &&& forall|a: int, b: int| 0 <= a < b < self.consts@.len() ==> self.consts@[a] != self.consts@[b]
        &&& forall|i: int, k: int|
            0 <= i < self.insns@.len() && 0 <= k < self.insns@[i].spec_mentions().len() ==> in_class(
                #[trigger] self.insns@[i].spec_mentions()[k],
                self.consts@.len(),
                self.frame_size as nat,
                self.next_temp as nat,
            )
        &&& forall|i: int, k: int|
            0 <= i < self.insns@.len() && 0 <= k < self.insns@[i].spec_sources().len()
                && (#[trigger] self.insns@[i].spec_sources()[k]) is Temp ==> exists|j: int|
                0 <= j <= i && #[trigger] defines(self.insns@[j], self.insns@[i].spec_sources()[k]->Temp_0)
        &&& forall|i: int|
            0 <= i < self.insns@.len() && !self.insns@[i].is_combine() && (#[trigger] self.insns@[i].spec_dst()) is Some
                ==> !self.insns@[i].spec_sources().contains(self.insns@[i].spec_dst()->0)
        &&& forall|k: int| 0 <= k < self.loads@.len() ==> self.ready(#[trigger] self.loads@[k].1) && self.loads@[k].1 is Temp
        &&& forall|k: int| 0 <= k < self.loads@.len() ==> loaded(self.insns@, #[trigger] self.loads@[k])
    }

    /// `self` took at most `n` nodes' worth of temporaries, constants and
    /// instructions more than `old`.
    spec fn within(&self, old: &Lowerer, n: nat) -> bool {
        &&& self.next_temp <= old.next_temp + n
        &&& self.consts@.len() <= old.consts@.len() + n
        &&& self.insns@.len() <= old.insns@.len() + 2 * n
    }

    /// There is room for `n` nodes' worth of temporaries and constants.
    spec fn room(&self, n: nat) -> bool {
        &&& self.next_temp + n < u32::MAX
        &&& self.consts@.len() + n < 0xfffe
    }

    /// `self` grew from `old`: everything it held is still there.
    spec fn extends(&self, old: &Lowerer) -> bool {
        &&& self.row_len == old.row_len
        &&& self.frame_size == old.frame_size
        &&& old.next_temp <= self.next_temp
        &&& old.insns@.len() <= self.insns@.len()
        &&& self.insns@.subrange(0, old.insns@.len() as int) == old.insns@
        &&& old.consts@.len() <= self.consts@.len()
        &&& self.consts@.subrange(0, old.consts@.len() as int) == old.consts@
        &&& old.loads@.len() <= self.loads@.len()
        &&& self.loads@.subrange(0, old.loads@.len() as int) == old.loads@
        &&& self.assigned@.len() == old.assigned@.len()
    }

    proof fn lemma_ready_persists(&self, old: &Lowerer, r: VReg)
        requires
            self.extends(old),
            old.ready(r),
        ensures
            self.ready(r),
    {
        if r is Temp {
            let j = choose|j: int| 0 <= j < old.insns@.len() && #[trigger] defines(old.insns@[j], r->Temp_0);
            assert(self.insns@[j] == old.insns@[j]);
        }
    }

    proof fn lemma_extends_refl(&self)
        ensures
            self.extends(self),
    {
        assert(self.insns@.subrange(0, self.insns@.len() as int) =~= self.insns@);
        assert(self.consts@.subrange(0, self.consts@.len() as int) =~= self.consts@);
        assert(self.loads@.subrange(0, self.loads@.len() as int) =~= self.loads@);
    }

    /// No instruction yet writes the next temporary.
    proof fn lemma_fresh_temp(&self)
        requires
            self.inv(),
        ensures
            forall|i: int| 0 <= i < self.insns@.len() ==> self.insns@[i].spec_dst() != Some(VReg::Temp(self.next_temp)),
    {
        assert forall|i: int| 0 <= i < self.insns@.len() implies self.insns@[i].spec_dst() != Some(
            VReg::Temp(self.next_temp),
        ) by {
            let insn = self.insns@[i];
            insn.lemma_mentions();
            if insn.spec_dst() is Some {
                assert(insn.spec_mentions()[0] == insn.spec_dst()->0);
                assert(in_class(insn.spec_mentions()[0], self.consts@.len(), self.frame_size as nat, self.next_temp as nat));
            }
        }
    }

    proof fn lemma_extends_transitive(&self, mid: &Lowerer, old: &Lowerer)
        requires
            self.extends(mid),
            mid.extends(old),
        ensures
            self.extends(old),
    {
        assert(self.insns@.subrange(0, old.insns@.len() as int) =~= old.insns@) by {
            assert forall|i: int| 0 <= i < old.insns@.len() implies self.insns@[i] == old.insns@[i] by {
                assert(self.insns@[i] == mid.insns@[i]);
            }
        }
        assert(self.consts@.subrange(0, old.consts@.len() as int) =~= old.consts@) by {
            assert forall|i: int| 0 <= i < old.consts@.len() implies self.consts@[i] == old.consts@[i] by {
                assert(self.consts@[i] == mid.consts@[i]);
            }
        }
        assert(self.loads@.subrange(0, old.loads@.len() as int) =~= old.loads@) by {
            assert forall|i: int| 0 <= i < old.loads@.len() implies self.loads@[i] == old.loads@[i] by {
                assert(self.loads@[i] == mid.loads@[i]);
            }
        }
    }

    fn emit(&mut self, insn: Insn<VReg>, span: Span)
        requires
            old(self).inv(),
            forall|k: int|
                0 <= k < insn.spec_mentions().len() ==> in_class(
                    #[trigger] insn.spec_mentions()[k],
                    old(self).consts@.len(),
                    old(self).frame_size as nat,
                    old(self).next_temp as nat,
                ),
            forall|k: int|
                0 <= k < insn.spec_sources().len() && (#[trigger] insn.spec_sources()[k]) is Temp
                    ==> insn.spec_dst() == Some(insn.spec_sources()[k]) || defined(
                    old(self).insns@,
                    insn.spec_sources()[k]->Temp_0,
                ),
            !insn.is_combine() && insn.spec_dst() is Some ==> !insn.spec_sources().contains(insn.spec_dst()->0),
            insn.is_straight(),
            insn is Load ==> insn->Load_input < old(self).row_len,
        ensures
            final(self).inv(),
            final(self).extends(old(self)),
            final(self).insns@ == old(self).insns@.push(insn),
            final(self).next_temp == old(self).next_temp,
            final(self).consts@ == old(self).consts@,
            final(self).loads@ == old(self).loads@,
            final(self).assigned@ == old(self).assigned@,
    {
        let ghost before = *self;
        self.insns.push(insn);
        self.spans.push(span);
        proof {
            let n = before.insns@.len() as int;
            insn.lemma_mentions();
            assert forall|i: int, k: int|
                0 <= i < self.insns@.len() && 0 <= k < self.insns@[i].spec_sources().len()
                    && (#[trigger] self.insns@[i].spec_sources()[k]) is Temp implies exists|j: int|
                    0 <= j <= i && #[trigger] defines(self.insns@[j], self.insns@[i].spec_sources()[k]->Temp_0) by {
                if i < n {
                    assert(self.insns@[i] == before.insns@[i]);
                    let j = choose|j: int| 0 <= j <= i && #[trigger] defines(before.insns@[j], before.insns@[i].spec_sources()[k]->Temp_0);
                    assert(self.insns@[j] == before.insns@[j]);
                } else {
                    let t = insn.spec_sources()[k]->Temp_0;
                    if insn.spec_dst() == Some(insn.spec_sources()[k]) {
                        assert(defines(self.insns@[n], t));
                    } else {
                        let j = choose|j: int| 0 <= j < n && #[trigger] defines(before.insns@[j], t);
                        assert(self.insns@[j] == before.insns@[j]);
                    }
                }
            }
            assert(self.insns@.subrange(0, n) =~= before.insns@);
            assert(self.consts@.subrange(0, before.consts@.len() as int) =~= before.consts@);
            assert(self.loads@.subrange(0, before.loads@.len() as int) =~= before.loads@);
            assert forall|k: int| 0 <= k < self.loads@.len() implies self.ready(#[trigger] self.loads@[k].1) && self.loads@[k].1 is Temp by {
                self.lemma_ready_persists(&before, self.loads@[k].1);
            }
            assert forall|k: int| 0 <= k < self.loads@.len() implies loaded(self.insns@, #[trigger] self.loads@[k]) by {
                let entry = self.loads@[k];
                assert(loaded(before.insns@, before.loads@[k]));
                let j = choose|j: int| 0 <= j < before.insns@.len() && before.insns@[j] == Insn::Load { dst: entry.1, input: entry.0 };
                assert(self.insns@[j] == before.insns@[j]);
            }
        }
    }

    /// A fresh temporary, or `None` when the ids run out.
    fn temp(&mut self) -> (t: Option<VReg>)
        requires
            old(self).inv(),
        ensures
            final(self).inv(),
            final(self).extends(old(self)),
            final(self).insns@ == old(self).insns@,
            final(self).consts@ == old(self).consts@,
            final(self).loads@ == old(self).loads@,
            final(self).assigned@ == old(self).assigned@,
            t matches Some(r) ==> r == VReg::Temp(old(self).next_temp) && final(self).next_temp == old(self).next_temp + 1,
            t is None ==> final(self).next_temp == old(self).next_temp,
            old(self).next_temp < u32::MAX ==> t is Some,
    {
        if self.next_temp == u32::MAX {
            proof {
                assert(self.insns@.subrange(0, self.insns@.len() as int) =~= self.insns@);
                assert(self.consts@.subrange(0, self.consts@.len() as int) =~= self.consts@);
                assert(self.loads@.subrange(0, self.loads@.len() as int) =~= self.loads@);
            }
            return None;
        }
        let ghost before = *self;
        let t = VReg::Temp(self.next_temp);
        self.next_temp = self.next_temp + 1;
        proof {
            assert forall|k: int| 0 <= k < self.loads@.len() implies self.ready(#[trigger] self.loads@[k].1) && self.loads@[k].1 is Temp by {
                assert(before.ready(before.loads@[k].1));
            }
            assert(self.insns@.subrange(0, self.insns@.len() as int) =~= self.insns@);
            assert(self.consts@.subrange(0, self.consts@.len() as int) =~= self.consts@);
            assert(self.loads@.subrange(0, self.loads@.len() as int) =~= self.loads@);
        }
        Some(t)
    }

    /// The constant register holding `bits`, added if it is new. Equal bit
    /// patterns share a register, so `0.0` and `-0.0` do not.
    fn constant(&mut self, bits: u64) -> (c: Option<VReg>)
        requires
            old(self).inv(),
        ensures
            final(self).inv(),
            final(self).extends(old(self)),
            final(self).insns@ == old(self).insns@,
            final(self).next_temp == old(self).next_temp,
            final(self).loads@ == old(self).loads@,
            final(self).assigned@ == old(self).assigned@,
            final(self).consts@.len() <= old(self).consts@.len() + 1,
            c matches Some(r) ==> r is Const && final(self).ready(r) && final(self).consts@[r->Const_0 as int] == bits,
            old(self).consts@.len() < 0xfffe ==> c is Some,
    {
        let ghost before = *self;
        let mut i: usize = 0;
        while i < self.consts.len()
            invariant
                *self == before,
                self.inv(),
                i <= self.consts@.len(),
                forall|j: int| 0 <= j < i ==> self.consts@[j] != bits,
            decreases self.consts@.len() - i,
        {
            if self.consts[i] == bits {
                proof {
                    assert(self.insns@.subrange(0, self.insns@.len() as int) =~= self.insns@);
                    assert(self.consts@.subrange(0, self.consts@.len() as int) =~= self.consts@);
                    assert(self.loads@.subrange(0, self.loads@.len() as int) =~= self.loads@);
                }
                return Some(VReg::Const(i as u16));
            }
            i += 1;
        }
        if self.consts.len() >= 0xfffe {
            proof {
                assert(self.insns@.subrange(0, self.insns@.len() as int) =~= self.insns@);
                assert(self.consts@.subrange(0, self.consts@.len() as int) =~= self.consts@);
                assert(self.loads@.subrange(0, self.loads@.len() as int) =~= self.loads@);
            }
            return None;
        }
        let index = self.consts.len() as u16;
        self.consts.push(bits);
        proof {
            assert(self.insns@.subrange(0, self.insns@.len() as int) =~= self.insns@);
            assert(self.consts@.subrange(0, before.consts@.len() as int) =~= before.consts@);
            assert(self.loads@.subrange(0, self.loads@.len() as int) =~= self.loads@);
            assert forall|k: int| 0 <= k < self.loads@.len() implies self.ready(#[trigger] self.loads@[k].1) && self.loads@[k].1 is Temp by {
                self.lemma_ready_persists(&before, self.loads@[k].1);
            }
        }
        Some(VReg::Const(index))
    }

    /// Delivers a value that already lives in `value` to `dst`, if one was
    /// asked for: only a leaf ever needs this.
    fn place(&mut self, value: VReg, dst: Option<VReg>, span: Span) -> (r: VReg)
        requires
            old(self).inv(),
            old(self).ready(value),
            dst matches Some(d) ==> d is Local && old(self).ready(d),
        ensures
            final(self).inv(),
            final(self).extends(old(self)),
            final(self).next_temp == old(self).next_temp,
            final(self).consts@ == old(self).consts@,
            final(self).assigned@ == old(self).assigned@,
            final(self).ready(r),
            dst matches Some(d) ==> r == d,
            dst is None ==> r == value,
            final(self).insns@.len() <= old(self).insns@.len() + 1,
    {
        match dst {
            Some(d) => {
                if d != value {
                    let ghost before = *self;
                    let insn = Insn::Copy { dst: d, src: value };
                    proof {
                        assert(insn.spec_mentions() == seq![d, value]);
                        assert(insn.spec_sources() == seq![value]);
                        assert(insn.spec_sources()[0] == value);
                    }
                    self.emit(insn, span);
                    proof {
                        self.lemma_ready_persists(&before, d);
                    }
                } else {
                    proof {
                        assert(self.insns@.subrange(0, self.insns@.len() as int) =~= self.insns@);
                        assert(self.consts@.subrange(0, self.consts@.len() as int) =~= self.consts@);
                        assert(self.loads@.subrange(0, self.loads@.len() as int) =~= self.loads@);
                    }
                }
                d
            },
            None => {
                proof {
                    assert(self.insns@.subrange(0, self.insns@.len() as int) =~= self.insns@);
                    assert(self.consts@.subrange(0, self.consts@.len() as int) =~= self.consts@);
                    assert(self.loads@.subrange(0, self.loads@.len() as int) =~= self.loads@);
                }
                value
            },
        }
    }

    /// The register holding row position `input`, loading it on its first
    /// read. A non-finite input faults at that first read; later reads need
    /// no instruction.
    fn load(&mut self, input: u32, span: Span) -> (r: Option<VReg>)
        requires
            old(self).inv(),
            input < old(self).row_len,
        ensures
            final(self).inv(),
            final(self).extends(old(self)),
            final(self).consts@ == old(self).consts@,
            final(self).assigned@ == old(self).assigned@,
            r matches Some(reg) ==> final(self).ready(reg) && reg is Temp,
            r matches Some(reg) ==> loaded(final(self).insns@, (input, reg)),
            final(self).next_temp <= old(self).next_temp + 1,
            final(self).insns@.len() <= old(self).insns@.len() + 1,
            old(self).next_temp < u32::MAX ==> r is Some,
    {
        let ghost entry = *self;
        let mut i: usize = 0;
        while i < self.loads.len()
            invariant
                *self == entry,
                self.inv(),
                i <= self.loads@.len(),
            decreases self.loads@.len() - i,
        {
            if self.loads[i].0 == input {
                proof {
                    assert(self.insns@.subrange(0, self.insns@.len() as int) =~= self.insns@);
                    assert(self.consts@.subrange(0, self.consts@.len() as int) =~= self.consts@);
                    assert(self.loads@.subrange(0, self.loads@.len() as int) =~= self.loads@);
                    assert(self.ready(self.loads@[i as int].1));
                    assert(loaded(self.insns@, self.loads@[i as int]));
                }
                return Some(self.loads[i].1);
            }
            i += 1;
        }
        let ghost start = *self;
        let dst = match self.temp() {
            Some(t) => t,
            None => return None,
        };
        let ghost mid = *self;
        let insn = Insn::Load { dst, input };
        proof {
            assert(insn.spec_mentions() == seq![dst]);
            assert(insn.spec_sources() == Seq::<VReg>::empty());
        }
        self.emit(insn, span);
        let ghost after_emit = *self;
        self.loads.push((input, dst));
        proof {
            let n = mid.insns@.len() as int;
            assert(defines(self.insns@[n], dst->Temp_0));
            assert(self.ready(dst));
            assert(self.loads@.subrange(0, after_emit.loads@.len() as int) =~= after_emit.loads@);
            assert(self.insns@.subrange(0, self.insns@.len() as int) =~= self.insns@);
            assert(self.consts@.subrange(0, self.consts@.len() as int) =~= self.consts@);
            assert forall|k: int| 0 <= k < self.loads@.len() implies self.ready(#[trigger] self.loads@[k].1) && self.loads@[k].1 is Temp by {
                if k < after_emit.loads@.len() {
                    assert(after_emit.ready(after_emit.loads@[k].1));
                }
            }
            assert(self.insns@[n] == insn);
            assert forall|k: int| 0 <= k < self.loads@.len() implies loaded(self.insns@, #[trigger] self.loads@[k]) by {
                if k < after_emit.loads@.len() {
                    assert(self.loads@[k] == after_emit.loads@[k]);
                    assert(loaded(after_emit.insns@, after_emit.loads@[k]));
                } else {
                    assert(self.loads@[k] == (input, dst));
                }
            }
            after_emit.lemma_extends_transitive(&mid, &start);
            self.lemma_extends_transitive(&after_emit, &start);
        }
        Some(dst)
    }

    /// Where a node that produces an instruction writes: the requested local,
    /// or a fresh temporary.
    fn destination(&mut self, dst: Option<VReg>) -> (r: Option<VReg>)
        requires
            old(self).inv(),
            dst matches Some(d) ==> d is Local && old(self).ready(d),
        ensures
            final(self).inv(),
            final(self).extends(old(self)),
            final(self).insns@ == old(self).insns@,
            final(self).consts@ == old(self).consts@,
            final(self).assigned@ == old(self).assigned@,
            r matches Some(reg) ==> in_class(reg, final(self).consts@.len(), final(self).frame_size as nat, final(self).next_temp as nat)
                && (dst matches Some(d) ==> reg == d)
                && (dst is None ==> reg == VReg::Temp(old(self).next_temp)),
            final(self).next_temp <= old(self).next_temp + 1,
            old(self).next_temp < u32::MAX ==> r is Some,
    {
        match dst {
            Some(d) => {
                proof {
                    assert(self.insns@.subrange(0, self.insns@.len() as int) =~= self.insns@);
                    assert(self.consts@.subrange(0, self.consts@.len() as int) =~= self.consts@);
                    assert(self.loads@.subrange(0, self.loads@.len() as int) =~= self.loads@);
                }
                Some(d)
            },
            None => self.temp(),
        }
    }

    /// Lowers `e`, into `dst` if given, and returns the register holding its
    /// value. `None` when the tape outgrows its register numbering.
    #[verifier::rlimit(60)]
    fn expr(&mut self, e: &Expr, dst: Option<VReg>, positions: &Vec<u32>) -> (r: Option<VReg>)
        requires
            old(self).inv(),
            forall|i: int| 0 <= i < positions@.len() ==> #[trigger] positions@[i] < old(self).row_len,
            old(self).row_len <= u32::MAX,
            lowerable(e@, old(self).frame_size as nat, positions@.len() as nat),
            dst matches Some(d) ==> d is Local && old(self).ready(d) && !reads_slot(e@, LocalSlot(d->Local_0 as u32)),
        ensures
            final(self).inv(),
            r is Some ==> final(self).extends(old(self)),
            r matches Some(reg) ==> final(self).ready(reg) && (dst matches Some(d) ==> reg == d) && (dst is None
                && reg is Local ==> reads_slot(e@, LocalSlot(reg->Local_0 as u32))),
            r is Some ==> final(self).within(old(self), expr_size(e@)),
            old(self).room(expr_size(e@)) ==> r is Some,
            r matches Some(reg) ==> dst is None ==> computes(final(self).insns@, final(self).consts@, positions@, reg, e@),
        decreases e,
    {
        let ghost start = *self;
        let span = e.span;
        match &e.kind {
            Kind::Literal(bits) => {
                let c = match self.constant(*bits) {
                    Some(c) => c,
                    None => return None,
                };
                let ghost mid = *self;
                proof {
                    if dst is Some {
                        mid.lemma_ready_persists(&start, dst->0);
                    }
                }
                let r = self.place(c, dst, span);
                proof {
                    self.lemma_extends_transitive(&mid, &start);
                }
                Some(r)
            },
            Kind::Global(id) => {
                let position = positions[id.index()];
                let reg = match self.load(position, span) {
                    Some(reg) => reg,
                    None => return None,
                };
                let ghost mid = *self;
                proof {
                    if dst is Some {
                        mid.lemma_ready_persists(&start, dst->0);
                    }
                }
                let r = self.place(reg, dst, span);
                proof {
                    self.lemma_extends_transitive(&mid, &start);
                }
                Some(r)
            },
            Kind::Local(slot) => {
                let reg = VReg::Local(slot.0 as u16);
                if !self.assigned[slot.index()] {
                    let insn = Insn::Check { reg };
                    proof {
                        assert(insn.spec_mentions() == seq![reg]);
                        assert(insn.spec_sources() == seq![reg]);
                    }
                    self.emit(insn, span);
                } else {
                    proof {
                        assert(self.insns@.subrange(0, self.insns@.len() as int) =~= self.insns@);
                        assert(self.consts@.subrange(0, self.consts@.len() as int) =~= self.consts@);
                        assert(self.loads@.subrange(0, self.loads@.len() as int) =~= self.loads@);
                    }
                }
                let ghost mid = *self;
                proof {
                    if dst is Some {
                        mid.lemma_ready_persists(&start, dst->0);
                    }
                }
                let r = self.place(reg, dst, span);
                proof {
                    self.lemma_extends_transitive(&mid, &start);
                }
                Some(r)
            },
            Kind::DynamicIndex(subscript) => {
                proof {
                    assert(expr_size(e@) == 1 + expr_size(subscript@));
                }
                // A literal subscript that names a real row is a plain load.
                if let Kind::Literal(bits) = subscript.kind {
                    if let Some(index) = to_index(bits) {
                        if index >= 1 && ((index - 1) as u64) < (self.row_len as u64) {
                            let reg = match self.load((index - 1) as u32, span) {
                                Some(reg) => reg,
                                None => return None,
                            };
                            let ghost mid = *self;
                            proof {
                                if dst is Some {
                                    mid.lemma_ready_persists(&start, dst->0);
                                }
                            }
                            let r = self.place(reg, dst, span);
                            proof {
                                self.lemma_extends_transitive(&mid, &start);
                            }
                            return Some(r);
                        }
                    }
                }
                let index = match self.expr(subscript, None, positions) {
                    Some(index) => index,
                    None => return None,
                };
                let ghost s1 = *self;
                proof {
                    if dst is Some {
                        s1.lemma_ready_persists(&start, dst->0);
                    }
                }
                let d = match self.destination(dst) {
                    Some(d) => d,
                    None => return None,
                };
                let ghost s2 = *self;
                proof {
                    s2.lemma_ready_persists(&s1, index);
                }
                let insn = Insn::Gather { dst: d, index, subscript: subscript.span };
                proof {
                    assert(insn.spec_mentions() == seq![d, index]);
                    assert(insn.spec_sources() == seq![index]);
                    assert(index != d);
                }
                self.emit(insn, span);
                proof {
                    let n = s2.insns@.len() as int;
                    assert(self.insns@[n] == insn);
                    if d is Temp {
                        assert(defines(self.insns@[n], d->Temp_0));
                    }
                    s2.lemma_extends_transitive(&s1, &start);
                    self.lemma_extends_transitive(&s2, &start);
                }
                Some(d)
            },
            Kind::Unary { op, arg } => {
                proof {
                    assert(expr_size(e@) == 1 + expr_size(arg@));
                }
                let a = match self.expr(arg, None, positions) {
                    Some(a) => a,
                    None => return None,
                };
                let ghost s1 = *self;
                proof {
                    if dst is Some {
                        s1.lemma_ready_persists(&start, dst->0);
                    }
                }
                let d = match self.destination(dst) {
                    Some(d) => d,
                    None => return None,
                };
                let ghost s2 = *self;
                proof {
                    s2.lemma_ready_persists(&s1, a);
                }
                let insn = Insn::Unary { dst: d, op: *op, a };
                proof {
                    assert(insn.spec_mentions() == seq![d, a]);
                    assert(insn.spec_sources() == seq![a]);
                    assert(a != d);
                }
                self.emit(insn, span);
                proof {
                    let n = s2.insns@.len() as int;
                    assert(self.insns@[n] == insn);
                    if d is Temp {
                        assert(defines(self.insns@[n], d->Temp_0));
                    }
                    s2.lemma_extends_transitive(&s1, &start);
                    self.lemma_extends_transitive(&s2, &start);
                    if dst is None {
                        s1.lemma_fresh_temp();
                        lemma_first_def_fresh(s2.insns@, insn, d, 0);
                        self.lemma_extends_transitive(&s2, &s1);
                        lemma_computes_grows(s1.insns@, s1.consts@, self.insns@, self.consts@, positions@, a, arg@);
                        assert(definition(self.insns@, d) == Some(insn));
                    }
                }
                Some(d)
            },
            Kind::Binary { op, lhs, rhs } => {
                proof {
                    assert(expr_size(e@) == 1 + expr_size(lhs@) + expr_size(rhs@));
                }
                let a = match self.expr(lhs, None, positions) {
                    Some(a) => a,
                    None => return None,
                };
                let ghost s0 = *self;
                let b = match self.expr(rhs, None, positions) {
                    Some(b) => b,
                    None => return None,
                };
                let ghost s1 = *self;
                proof {
                    s1.lemma_extends_transitive(&s0, &start);
                    s1.lemma_ready_persists(&s0, a);
                    if dst is Some {
                        s1.lemma_ready_persists(&start, dst->0);
                    }
                }
                let d = match self.destination(dst) {
                    Some(d) => d,
                    None => return None,
                };
                let ghost s2 = *self;
                proof {
                    s2.lemma_ready_persists(&s1, a);
                    s2.lemma_ready_persists(&s1, b);
                }
                let insn = Insn::Binary { dst: d, op: *op, a, b };
                proof {
                    assert(insn.spec_mentions() == seq![d, a, b]);
                    assert(insn.spec_sources() == seq![a, b]);
                    assert(a != d);
                    assert(b != d);
                }
                self.emit(insn, span);
                proof {
                    let n = s2.insns@.len() as int;
                    assert(self.insns@[n] == insn);
                    if d is Temp {
                        assert(defines(self.insns@[n], d->Temp_0));
                    }
                    s2.lemma_extends_transitive(&s1, &start);
                    self.lemma_extends_transitive(&s2, &start);
                    if dst is None {
                        s1.lemma_fresh_temp();
                        lemma_first_def_fresh(s2.insns@, insn, d, 0);
                        self.lemma_extends_transitive(&s2, &s1);
                        self.lemma_extends_transitive(&s1, &s0);
                        lemma_computes_grows(s0.insns@, s0.consts@, self.insns@, self.consts@, positions@, a, lhs@);
                        lemma_computes_grows(s1.insns@, s1.consts@, self.insns@, self.consts@, positions@, b, rhs@);
                        assert(definition(self.insns@, d) == Some(insn));
                    }
                }
                Some(d)
            },
            Kind::Compare { op, lhs, rhs } => {
                proof {
                    assert(expr_size(e@) == 1 + expr_size(lhs@) + expr_size(rhs@));
                }
                let a = match self.expr(lhs, None, positions) {
                    Some(a) => a,
                    None => return None,
                };
                let ghost s0 = *self;
                let b = match self.expr(rhs, None, positions) {
                    Some(b) => b,
                    None => return None,
                };
                let ghost s1 = *self;
                proof {
                    s1.lemma_extends_transitive(&s0, &start);
                    s1.lemma_ready_persists(&s0, a);
                    if dst is Some {
                        s1.lemma_ready_persists(&start, dst->0);
                    }
                }
                let d = match self.destination(dst) {
                    Some(d) => d,
                    None => return None,
                };
                let ghost s2 = *self;
                proof {
                    s2.lemma_ready_persists(&s1, a);
                    s2.lemma_ready_persists(&s1, b);
                }
                let insn = Insn::Compare { dst: d, op: *op, a, b };
                proof {
                    assert(insn.spec_mentions() == seq![d, a, b]);
                    assert(insn.spec_sources() == seq![a, b]);
                    assert(a != d);
                    assert(b != d);
                }
                self.emit(insn, span);
                proof {
                    let n = s2.insns@.len() as int;
                    assert(self.insns@[n] == insn);
                    if d is Temp {
                        assert(defines(self.insns@[n], d->Temp_0));
                    }
                    s2.lemma_extends_transitive(&s1, &start);
                    self.lemma_extends_transitive(&s2, &start);
                    if dst is None {
                        s1.lemma_fresh_temp();
                        lemma_first_def_fresh(s2.insns@, insn, d, 0);
                        self.lemma_extends_transitive(&s2, &s1);
                        self.lemma_extends_transitive(&s1, &s0);
                        lemma_computes_grows(s0.insns@, s0.consts@, self.insns@, self.consts@, positions@, a, lhs@);
                        lemma_computes_grows(s1.insns@, s1.consts@, self.insns@, self.consts@, positions@, b, rhs@);
                        assert(definition(self.insns@, d) == Some(insn));
                    }
                }
                Some(d)
            },
            Kind::NearEq { lhs, rhs, tolerance } => {
                proof {
                    assert(expr_size(e@) == 1 + expr_size(lhs@) + expr_size(rhs@));
                }
                let a = match self.expr(lhs, None, positions) {
                    Some(a) => a,
                    None => return None,
                };
                let ghost s0 = *self;
                let b = match self.expr(rhs, None, positions) {
                    Some(b) => b,
                    None => return None,
                };
                let ghost s1 = *self;
                proof {
                    s1.lemma_extends_transitive(&s0, &start);
                    s1.lemma_ready_persists(&s0, a);
                }
                let t = match self.constant(*tolerance) {
                    Some(t) => t,
                    None => return None,
                };
                let ghost s1b = *self;
                proof {
                    s1b.lemma_extends_transitive(&s1, &start);
                    s1b.lemma_ready_persists(&s1, a);
                    s1b.lemma_ready_persists(&s1, b);
                    if dst is Some {
                        s1b.lemma_ready_persists(&start, dst->0);
                    }
                }
                let d = match self.destination(dst) {
                    Some(d) => d,
                    None => return None,
                };
                let ghost s2 = *self;
                proof {
                    s2.lemma_ready_persists(&s1b, a);
                    s2.lemma_ready_persists(&s1b, b);
                    s2.lemma_ready_persists(&s1b, t);
                }
                let insn = Insn::NearEq { dst: d, a, b, tolerance: t };
                proof {
                    assert(insn.spec_mentions() == seq![d, a, b, t]);
                    assert(insn.spec_sources() == seq![a, b, t]);
                    assert(a != d);
                    assert(b != d);
                    assert(t != d);
                }
                self.emit(insn, span);
                proof {
                    let n = s2.insns@.len() as int;
                    assert(self.insns@[n] == insn);
                    if d is Temp {
                        assert(defines(self.insns@[n], d->Temp_0));
                    }
                    s2.lemma_extends_transitive(&s1b, &start);
                    self.lemma_extends_transitive(&s2, &start);
                }
                Some(d)
            },
            Kind::Block(block) => {
                proof {
                    assert(expr_size(e@) == 1 + block_size(block@));
                }
                self.block(block, dst, positions)
            },
            Kind::Fold { kind, terms } => {
                proof {
                    assert(e@.kind->Fold_terms =~= terms@.map_values(|t: Expr| t@));
                    assert(expr_size(e@) == 1 + terms_size(terms@.map_values(|t: Expr| t@)));
                    assert forall|i: int| 0 <= i < terms@.len() implies lowerable(
                        #[trigger] terms@[i]@,
                        start.frame_size as nat,
                        positions@.len() as nat,
                    ) by {
                        assert(e@.kind->Fold_terms[i] == terms@[i]@);
                    }
                }
                self.fold(Accumulate::from_aggregate(*kind), terms, dst, span, positions)
            },
            Kind::Aggregate { .. } => {
                proof {
                    assert(false);
                }
                None
            },
        }
    }

    fn block(&mut self, b: &Block, dst: Option<VReg>, positions: &Vec<u32>) -> (r: Option<VReg>)
        requires
            old(self).inv(),
            forall|i: int| 0 <= i < positions@.len() ==> #[trigger] positions@[i] < old(self).row_len,
            old(self).row_len <= u32::MAX,
            lowerable_block(b@, old(self).frame_size as nat, positions@.len() as nat),
            dst matches Some(d) ==> d is Local && old(self).ready(d) && !block_reads_slot(b@, LocalSlot(d->Local_0 as u32)),
        ensures
            final(self).inv(),
            r is Some ==> final(self).extends(old(self)),
            r matches Some(reg) ==> final(self).ready(reg) && (dst matches Some(d) ==> reg == d) && (dst is None
                && reg is Local ==> block_reads_slot(b@, LocalSlot(reg->Local_0 as u32))),
            r is Some ==> final(self).within(old(self), block_size(b@)),
            old(self).room(block_size(b@)) ==> r is Some,
            r matches Some(reg) ==> dst is None ==> computes(final(self).insns@, final(self).consts@, positions@, reg, b@.result),
        decreases b,
    {
        let ghost start = *self;
        proof {
            self.lemma_extends_refl();
            lemma_values_size_grows(b@.assignments, 0, b@.assignments.len() as int);
            assert(b@.assignments.take(0) =~= Seq::<AssignmentModel>::empty());
        }
        let mut i: usize = 0;
        while i < b.assignments.len()
            invariant
                self.inv(),
                self.extends(&start),
                self.row_len <= u32::MAX,
                start.inv(),
                i <= b.assignments@.len(),
                lowerable_block(b@, start.frame_size as nat, positions@.len() as nat),
                forall|i: int| 0 <= i < positions@.len() ==> #[trigger] positions@[i] < start.row_len,
                self.within(&start, values_size(b@.assignments.take(i as int))),
                values_size(b@.assignments.take(i as int)) <= values_size(b@.assignments),
                start == *old(self),
                block_size(b@) == values_size(b@.assignments) + expr_size(b@.result),
            decreases b.assignments@.len() - i,
        {
            let assignment = &b.assignments[i];
            proof {
                assert(decreases_to!(*b => b.assignments@[i as int].value));
                let am = b@.assignments[i as int];
                assert(am.slot == assignment.slot && am.value == assignment.value@);
                lemma_values_size_grows(b@.assignments, i + 1, b@.assignments.len() as int);
                assert(b@.assignments.take(i + 1).drop_last() =~= b@.assignments.take(i as int));
                assert(b@.assignments.take(i + 1).last() == am);
            }
            let slot = VReg::Local(assignment.slot.0 as u16);
            let ghost before = *self;
            match self.expr(&assignment.value, Some(slot), positions) {
                Some(_) => {},
                None => return None,
            }
            let ghost mid = *self;
            self.assigned.set(assignment.slot.index(), true);
            proof {
                assert(self.insns@.subrange(0, self.insns@.len() as int) =~= self.insns@);
                assert(self.consts@.subrange(0, self.consts@.len() as int) =~= self.consts@);
                assert(self.loads@.subrange(0, self.loads@.len() as int) =~= self.loads@);
                assert forall|k: int| 0 <= k < self.loads@.len() implies self.ready(#[trigger] self.loads@[k].1)
                    && self.loads@[k].1 is Temp by {
                    assert(mid.ready(mid.loads@[k].1));
                }
                mid.lemma_extends_transitive(&before, &start);
                self.lemma_extends_transitive(&mid, &start);
            }
            i += 1;
        }
        let ghost before_result = *self;
        proof {
            if dst is Some {
                before_result.lemma_ready_persists(&start, dst->0);
            }
            lemma_values_size_grows(b@.assignments, b@.assignments.len() as int, b@.assignments.len() as int);
        }
        let r = self.expr(&b.result, dst, positions);
        proof {
            if r is Some {
                self.lemma_extends_transitive(&before_result, &start);
            }
        }
        r
    }

    /// Left to right from the identity, one `Combine` per term, checked only
    /// on the last: a fold's value is checked, not each step.
    fn fold(&mut self, how: Accumulate, terms: &Vec<Expr>, dst: Option<VReg>, span: Span, positions: &Vec<u32>) -> (r:
        Option<VReg>)
        requires
            old(self).inv(),
            forall|i: int| 0 <= i < positions@.len() ==> #[trigger] positions@[i] < old(self).row_len,
            old(self).row_len <= u32::MAX,
            forall|i: int| 0 <= i < terms@.len() ==> lowerable(#[trigger] terms@[i]@, old(self).frame_size as nat, positions@.len() as nat),
            dst matches Some(d) ==> d is Local && old(self).ready(d),
        ensures
            final(self).inv(),
            r is Some ==> final(self).extends(old(self)),
            r matches Some(reg) ==> final(self).ready(reg) && (dst matches Some(d) ==> reg == d) && !(dst is None && reg is Local),
            r is Some ==> final(self).within(old(self), 1 + terms_size(terms@.map_values(|t: Expr| t@))),
            old(self).room(1 + terms_size(terms@.map_values(|t: Expr| t@))) ==> r is Some,
        decreases terms,
    {
        let ghost start = *self;
        let identity = match self.constant(how.identity()) {
            Some(c) => c,
            None => return None,
        };
        let ghost s0 = *self;
        proof {
            if dst is Some {
                s0.lemma_ready_persists(&start, dst->0);
            }
        }
        if terms.len() == 0 {
            let r = self.place(identity, dst, span);
            proof {
                self.lemma_extends_transitive(&s0, &start);
            }
            return Some(r);
        }
        let acc = match self.destination(dst) {
            Some(acc) => acc,
            None => return None,
        };
        let ghost s1 = *self;
        proof {
            s1.lemma_extends_transitive(&s0, &start);
            s1.lemma_ready_persists(&s0, identity);
        }
        let last = terms.len() - 1;
        let ghost ts = terms@.map_values(|t: Expr| t@);
        proof {
            self.lemma_extends_refl();
            lemma_terms_size_grows(ts, 0, ts.len() as int);
            assert(ts.take(0) =~= Seq::<ExprModel>::empty());
        }
        let mut k: usize = 0;
        while k < terms.len()
            invariant
                self.inv(),
                self.extends(&s1),
                s1.extends(&start),
                self.row_len <= u32::MAX,
                k <= terms@.len(),
                last == terms@.len() - 1,
                forall|i: int| 0 <= i < positions@.len() ==> #[trigger] positions@[i] < start.row_len,
                forall|i: int| 0 <= i < terms@.len() ==> lowerable(#[trigger] terms@[i]@, start.frame_size as nat, positions@.len() as nat),
                s1.ready(identity),
                in_class(acc, s1.consts@.len(), s1.frame_size as nat, s1.next_temp as nat),
                k > 0 ==> self.ready(acc),
                dst matches Some(d) ==> acc == d,
                dst is None ==> acc is Temp,
                ts == terms@.map_values(|t: Expr| t@),
                start == *old(self),
                s1.within(&start, 1),
                s1.insns@.len() == start.insns@.len(),
                self.within(&s1, terms_size(ts.take(k as int))),
                terms_size(ts.take(k as int)) <= terms_size(ts),
            decreases terms@.len() - k,
        {
            proof {
                assert(decreases_to!(*terms => terms@[k as int]));
                lemma_terms_size_grows(ts, k + 1, ts.len() as int);
                assert(ts.take(k + 1).drop_last() =~= ts.take(k as int));
                assert(ts.take(k + 1).last() == terms@[k as int]@);
            }
            let ghost before = *self;
            let b = match self.expr(&terms[k], None, positions) {
                Some(b) => b,
                None => return None,
            };
            let ghost mid = *self;
            proof {
                mid.lemma_extends_transitive(&before, &s1);
                mid.lemma_ready_persists(&s1, identity);
                if k > 0 {
                    mid.lemma_ready_persists(&before, acc);
                }
            }
            let a = if k == 0 {
                identity
            } else {
                acc
            };
            let insn = Insn::Combine { dst: acc, how, a, b, last: k == last };
            proof {
                assert(insn.spec_mentions() == seq![acc, a, b]);
                assert(insn.spec_sources() == seq![a, b]);
            }
            self.emit(insn, span);
            proof {
                let n = mid.insns@.len() as int;
                assert(self.insns@[n] == insn);
                if acc is Temp {
                    assert(defines(self.insns@[n], acc->Temp_0));
                }
                self.lemma_extends_transitive(&mid, &s1);
            }
            k += 1;
        }
        proof {
            self.lemma_extends_transitive(&s1, &start);
            lemma_terms_size_grows(ts, ts.len() as int, ts.len() as int);
        }
        Some(acc)
    }

    /// Packs the temporaries and assembles the tape, or `None` when the
    /// registers do not fit a `u16`.
    fn finish(self, result: VReg) -> (tape: Option<Tape>)
        requires
            self.inv(),
            self.ready(result),
        ensures
            tape is Some <==> self.next_temp + self.consts@.len() + self.frame_size <= 0xffff && self.insns@.len()
                < usize::MAX - 1,
            tape matches Some(t) ==> {
                &&& t.locals == self.frame_size
                &&& t.consts@ == self.consts@
                &&& t.spans@ == self.spans@
                &&& t.shape == Shape::StraightLine
                &&& t.registers >= t.consts@.len() + t.locals
                &&& well_formed(self.insns@, result, t.consts@.len() as u16, t.locals)
                &&& exists|slot: Seq<u16>|
                    #[trigger] allocation_by(
                        self.insns@,
                        result,
                        t.consts@.len() as u16,
                        t.locals,
                        slot,
                        t.insns@,
                        t.result,
                        t.registers,
                    )
            },
    {
        let consts_len = self.consts.len();
        let locals = self.frame_size as u16;
        if (self.next_temp as u64) + (consts_len as u64) + (locals as u64) > 0xffff {
            return None;
        }
        if self.insns.len() >= usize::MAX - 1 {
            return None;
        }
        let consts = consts_len as u16;
        proof {
            let limit = u16::MAX - consts - locals;
            assert forall|i: int, k: int|
                0 <= i < self.insns@.len() && 0 <= k < self.insns@[i].spec_mentions().len() implies register_in_class(
                    #[trigger] self.insns@[i].spec_mentions()[k],
                    consts,
                    locals,
                    limit,
                ) by {
                assert(in_class(self.insns@[i].spec_mentions()[k], self.consts@.len(), self.frame_size as nat, self.next_temp as nat));
            }
            assert forall|t: u32| result == VReg::Temp(t) implies exists|j: int|
                0 <= j < self.insns@.len() && #[trigger] defines(self.insns@[j], t) by {
                assert(defined(self.insns@, t));
            }
            assert(well_formed(self.insns@, result, consts, locals));
        }
        let ghost virtual_insns = self.insns@;
        let Lowerer { row_len, frame_size, consts: constants, next_temp, insns, spans, loads, assigned } = self;
        let (allocated, result_register, registers) = allocate(insns, result, consts, locals);
        proof {
            assert(constants@.len() as u16 == consts);
            let slot = choose|slot: Seq<u16>| #[trigger] allocation_by(virtual_insns, result, consts, locals, slot, allocated@, result_register, registers);
            assert(allocation_by(virtual_insns, result, consts, locals, slot, allocated@, result_register, registers));
        }
        let t = Tape {
            consts: constants,
            locals,
            registers,
            insns: allocated,
            spans,
            result: result_register,
            shape: Shape::StraightLine,
        };
        proof {
            assert(t.locals == self.frame_size);
            assert(t.consts@ == self.consts@);
            assert(t.spans@ == self.spans@);
            assert(t.consts@.len() as u16 == consts);
            assert(well_formed(self.insns@, result, t.consts@.len() as u16, t.locals));
            let slot = choose|slot: Seq<u16>| #[trigger] allocation_by(virtual_insns, result, consts, locals, slot, allocated@, result_register, registers);
            assert(allocation_by(self.insns@, result, t.consts@.len() as u16, t.locals, slot, t.insns@, t.result, t.registers));
        }
        Some(t)
    }
}

/// Lowers `program` against a schema of `row_len` variables, with
/// `global_positions[id]` giving each symbol's row, and packs the registers.
///
/// The tape is an allocation, in the sense of [`allocation_by`], of a
/// well-formed virtual tape with one span per instruction; its constants
/// are distinct bit patterns. `None` when the registers the tape needs do not
/// fit a `u16`.
pub fn lower(program: &Program, global_positions: &Vec<u32>, row_len: usize) -> (tape: Option<Tape>)
    requires
        lowerable_block(program@.body, program.frame_size as nat, global_positions@.len() as nat),
        forall|i: int| 0 <= i < global_positions@.len() ==> #[trigger] global_positions@[i] < row_len,
        row_len <= u32::MAX,
        program.frame_size <= 0xffff,
    ensures
        fits_tape(program@.body, program.frame_size as nat) ==> tape is Some,
        tape matches Some(t) ==> {
            &&& t.locals == program.frame_size
            &&& t.spans@.len() == t.insns@.len()
            &&& t.runnable(row_len as nat)
            &&& t.shape == Shape::StraightLine
            &&& forall|a: int, b: int| 0 <= a < b < t.consts@.len() ==> t.consts@[a] != t.consts@[b]
            &&& exists|v: Seq<Insn<VReg>>, r: VReg, slot: Seq<u16>|
                well_formed(v, r, t.consts@.len() as u16, t.locals) && computes(
                    v,
                    t.consts@,
                    global_positions@,
                    r,
                    program@.body.result,
                ) && #[trigger] allocation_by(
                    v,
                    r,
                    t.consts@.len() as u16,
                    t.locals,
                    slot,
                    t.insns@,
                    t.result,
                    t.registers,
                )
        },
{
    let mut assigned: Vec<bool> = Vec::new();
    let mut i: u32 = 0;
    while i < program.frame_size
        invariant
            i <= program.frame_size,
            assigned@.len() == i,
        decreases program.frame_size - i,
    {
        assigned.push(false);
        i += 1;
    }
    let mut lowerer = Lowerer {
        row_len,
        frame_size: program.frame_size,
        consts: Vec::new(),
        next_temp: 0,
        insns: Vec::new(),
        spans: Vec::new(),
        loads: Vec::new(),
        assigned,
    };
    proof {
        assert(lowerer.consts@.len() == 0 && lowerer.next_temp == 0 && lowerer.insns@.len() == 0);
    }
    let ghost entry = lowerer;
    let result = match lowerer.block(&program.body, None, global_positions) {
        Some(r) => r,
        None => return None,
    };
    proof {
        assert(lowerer.within(&entry, block_size(program@.body)));
    }
    let ghost v = lowerer.insns@;
    let ghost consts = lowerer.consts@;
    let ghost spans = lowerer.spans@;
    assert(spans.len() == v.len());
    let tape = lowerer.finish(result);
    proof {
        if tape is Some {
            let t = tape->0;
            let slot = choose|slot: Seq<u16>| #[trigger] allocation_by(v, result, t.consts@.len() as u16, t.locals, slot, t.insns@, t.result, t.registers);
            assert(well_formed(v, result, t.consts@.len() as u16, t.locals) && allocation_by(v, result, t.consts@.len() as u16, t.locals, slot, t.insns@, t.result, t.registers));
            assert(computes(v, t.consts@, global_positions@, result, program@.body.result));
            assert(t.spans@.len() == v.len());
            assert(forall|a: int, b: int| 0 <= a < b < t.consts@.len() ==> t.consts@[a] != t.consts@[b]);
            assert forall|i: int| 0 <= i < t.insns@.len() implies (#[trigger] t.insns@[i]).is_straight() by {
                assert(maps_physically(v[i], t.insns@[i], slot, t.consts@.len() as u16, t.locals));
                assert(v[i].is_straight());
            }
            assert forall|i: int| 0 <= i < t.insns@.len() implies ((#[trigger] t.insns@[i]) is Load ==> t.insns@[i]->Load_input < row_len) by {
                assert(maps_physically(v[i], t.insns@[i], slot, t.consts@.len() as u16, t.locals));
            }
            assert(t.runnable(row_len as nat));
        }
    }
    tape
}

} // verus!
