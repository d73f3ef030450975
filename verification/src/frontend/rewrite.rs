//! Tree-to-tree rewrites.
//!
//! Each pass takes the program by value, so unchanged subtrees are moved
//! rather than copied.
//!
//! # The boolean convention
//!
//! Babel has no boolean values at run time. A comparison lowers to arithmetic
//! whose sign carries the truth value: `<= 0` is true, `> 0` is false, which is
//! the canonical `g(x) <= 0` constraint form.
use vstd::prelude::*;

use crate::ast::{
    scoped, scoped_block,
    clone_expr, model_block, model_expr, AggregateKind, Assignment, AssignmentModel, BinaryOp,
    Block, BlockModel, CompareOp, Expr, ExprModel, Kind, KindModel, LocalSlot, Program,
    ProgramModel,
};
use crate::binary64::{index_bits, index_literal, index_of, to_index};
use crate::diagnostics::{BoundKind, Fault, ProblemKind, Span};
use crate::frontend::fold::binary_value;
use crate::eval::lane::{above_by, below_by, law_near_eq_holds_on_both_sides};
use crate::frontend::invert::{at_most, max_bounds};

verus! {

/// The bits of the smallest positive normal binary64, the nudge that makes a
/// strict inequality representable when `<= 0` means true.
pub const EPSILON_BITS: u64 = 0x0010_0000_0000_0000;

/// A literal node.
pub open spec fn literal_model(bits: u64, span: Span) -> ExprModel {
    ExprModel { kind: KindModel::Literal(bits), span }
}

/// A binary node.
pub open spec fn binary_model(op: BinaryOp, lhs: ExprModel, rhs: ExprModel, span: Span) -> ExprModel {
    ExprModel { kind: KindModel::Binary { op, lhs: Box::new(lhs), rhs: Box::new(rhs) }, span }
}

/// `lhs op rhs` as arithmetic that is `<= 0` exactly when the comparison
/// holds:
///
/// | source | becomes |
/// |---|---|
/// | `a <= b` | `a - b` |
/// | `a >= b` | `b - a` |
/// | `a < b` | `(a - b) + eps` |
/// | `a > b` | `(b - a) + eps` |
pub open spec fn residual_model(op: CompareOp, lhs: ExprModel, rhs: ExprModel, span: Span) -> ExprModel {
    let difference = match op {
        CompareOp::Lt | CompareOp::Lte => binary_model(BinaryOp::Sub, lhs, rhs, span),
        CompareOp::Gt | CompareOp::Gte => binary_model(BinaryOp::Sub, rhs, lhs, span),
    };
    match op {
        CompareOp::Lte | CompareOp::Gte => difference,
        CompareOp::Lt | CompareOp::Gt => binary_model(
            BinaryOp::Add,
            difference,
            literal_model(EPSILON_BITS, span),
            span,
        ),
    }
}

/// `a == b +/- t` as `max((b - t) - a, a - (b + t))`.
pub open spec fn near_eq_model(lhs: ExprModel, rhs: ExprModel, tolerance: u64, span: Span) -> ExprModel {
    let t = literal_model(tolerance, span);
    let at_least = binary_model(BinaryOp::Sub, binary_model(BinaryOp::Sub, rhs, t, span), lhs, span);
    let at_most = binary_model(BinaryOp::Sub, lhs, binary_model(BinaryOp::Add, rhs, t, span), span);
    binary_model(BinaryOp::Max, at_least, at_most, span)
}

/// What the boolean rewrite makes of an expression.
pub open spec fn rewritten(e: ExprModel) -> ExprModel
    decreases e,
{
    match e.kind {
        KindModel::Compare { op, lhs, rhs } => residual_model(op, rewritten(*lhs), rewritten(*rhs), e.span),
        KindModel::NearEq { lhs, rhs, tolerance } => near_eq_model(
            rewritten(*lhs),
            rewritten(*rhs),
            tolerance,
            e.span,
        ),
        KindModel::Unary { op, arg } => ExprModel {
            kind: KindModel::Unary { op, arg: Box::new(rewritten(*arg)) },
            span: e.span,
        },
        KindModel::Binary { op, lhs, rhs } => binary_model(op, rewritten(*lhs), rewritten(*rhs), e.span),
        KindModel::DynamicIndex(index) => ExprModel {
            kind: KindModel::DynamicIndex(Box::new(rewritten(*index))),
            span: e.span,
        },
        KindModel::Aggregate { kind, lower, upper, param, body } => ExprModel {
            kind: KindModel::Aggregate {
                kind,
                lower: Box::new(rewritten(*lower)),
                upper: Box::new(rewritten(*upper)),
                param,
                body: Box::new(rewritten_block(*body)),
            },
            span: e.span,
        },
        KindModel::Block(block) => ExprModel {
            kind: KindModel::Block(Box::new(rewritten_block(*block))),
            span: e.span,
        },
        KindModel::Fold { kind, terms } => ExprModel {
            kind: KindModel::Fold {
                kind,
                terms: Seq::new(
                    terms.len(),
                    |i: int|
                        if 0 <= i < terms.len() {
                            rewritten(terms[i])
                        } else {
                            arbitrary()
                        },
                ),
            },
            span: e.span,
        },
        _ => e,
    }
}

/// The rewritten near-equality `lhs == rhs +/- tolerance`, with sides that
/// work out to `a` and `b`, works out to a residual that is `<= 0` exactly
/// when `a` lies in `[b - tolerance, b + tolerance]`: when neither
/// `(b - tolerance) - a` nor `a - (b + tolerance)` is positive, wherever
/// the host's `max` behaves as a maximum.
pub proof fn law_rewritten_near_eq_holds_on_both_sides<U: Fn(crate::ast::UnaryOp, u64) -> u64, B: Fn(BinaryOp, u64, u64) -> u64>(
    lhs: ExprModel,
    rhs: ExprModel,
    tolerance: u64,
    span: Span,
    unary: U,
    binary: B,
    a: u64,
    b: u64,
)
    requires
        crate::frontend::fold::folded(rewritten(lhs), unary, binary) matches Ok(l) && l.kind == KindModel::Literal(a),
        crate::frontend::fold::folded(rewritten(rhs), unary, binary) matches Ok(r) && r.kind == KindModel::Literal(b),
        max_bounds(binary, below_by(binary, a, b, tolerance), above_by(binary, a, b, tolerance)),
    ensures
        crate::frontend::fold::folded(
            rewritten(ExprModel { kind: KindModel::NearEq { lhs: Box::new(lhs), rhs: Box::new(rhs), tolerance }, span }),
            unary,
            binary,
        ) matches Ok(v) ==> (v.kind matches KindModel::Literal(x) && (at_most(x, 0) <==> at_most(
            below_by(binary, a, b, tolerance),
            0,
        ) && at_most(above_by(binary, a, b, tolerance), 0))),
{
    let t = literal_model(tolerance, span);
    let (l, r) = (rewritten(lhs), rewritten(rhs));
    let shifted_down = binary_model(BinaryOp::Sub, r, t, span);
    let shifted_up = binary_model(BinaryOp::Add, r, t, span);
    let at_least = binary_model(BinaryOp::Sub, shifted_down, l, span);
    let at_most_side = binary_model(BinaryOp::Sub, l, shifted_up, span);
    lemma_folded_literals(BinaryOp::Sub, r, t, span, unary, binary, b, tolerance);
    lemma_folded_literals(BinaryOp::Add, r, t, span, unary, binary, b, tolerance);
    let down = binary_value(binary, BinaryOp::Sub, b, tolerance);
    let up = binary_value(binary, BinaryOp::Add, b, tolerance);
    lemma_folded_literals(BinaryOp::Sub, shifted_down, l, span, unary, binary, down, a);
    lemma_folded_literals(BinaryOp::Sub, l, shifted_up, span, unary, binary, a, up);
    lemma_folded_literals(
        BinaryOp::Max,
        at_least,
        at_most_side,
        span,
        unary,
        binary,
        below_by(binary, a, b, tolerance),
        above_by(binary, a, b, tolerance),
    );
    law_near_eq_holds_on_both_sides(binary, a, b, tolerance);
}

/// Folding a binary node whose sides work out to literals `x` and `y`
/// gives the host's value of it, refused when that is not finite; a side
/// that is refused refuses the node.
pub proof fn lemma_folded_literals<U: Fn(crate::ast::UnaryOp, u64) -> u64, B: Fn(BinaryOp, u64, u64) -> u64>(
    op: BinaryOp,
    lhs: ExprModel,
    rhs: ExprModel,
    span: Span,
    unary: U,
    binary: B,
    x: u64,
    y: u64,
)
    ensures
        crate::frontend::fold::folded(lhs, unary, binary) is Err ==> crate::frontend::fold::folded(
            binary_model(op, lhs, rhs, span),
            unary,
            binary,
        ) is Err,
        crate::frontend::fold::folded(lhs, unary, binary) is Ok && crate::frontend::fold::folded(rhs, unary, binary) is Err
            ==> crate::frontend::fold::folded(binary_model(op, lhs, rhs, span), unary, binary) is Err,
        (crate::frontend::fold::folded(lhs, unary, binary) matches Ok(l) && l.kind == KindModel::Literal(x)) && (
        crate::frontend::fold::folded(rhs, unary, binary) matches Ok(r) && r.kind == KindModel::Literal(y))
            ==> crate::frontend::fold::folded(binary_model(op, lhs, rhs, span), unary, binary)
            == crate::frontend::fold::checked(KindModel::Literal(binary_value(binary, op, x, y)), span),
{
}

/// What the boolean rewrite makes of a block.
pub open spec fn rewritten_block(b: BlockModel) -> BlockModel
    decreases b,
{
    BlockModel {
        assignments: Seq::new(
            b.assignments.len(),
            |i: int|
                if 0 <= i < b.assignments.len() {
                    AssignmentModel {
                        slot: b.assignments[i].slot,
                        value: rewritten(b.assignments[i].value),
                        span: b.assignments[i].span,
                    }
                } else {
                    arbitrary()
                },
        ),
        result: rewritten(b.result),
    }
}

/// No comparison and no near-equality anywhere in `e`.
pub open spec fn free_of_booleans(e: ExprModel) -> bool
    decreases e,
{
    match e.kind {
        KindModel::Compare { .. } | KindModel::NearEq { .. } => false,
        KindModel::Unary { arg, .. } => free_of_booleans(*arg),
        KindModel::Binary { lhs, rhs, .. } => free_of_booleans(*lhs) && free_of_booleans(*rhs),
        KindModel::DynamicIndex(index) => free_of_booleans(*index),
        KindModel::Aggregate { lower, upper, body, .. } => free_of_booleans(*lower)
            && free_of_booleans(*upper) && block_free_of_booleans(*body),
        KindModel::Block(block) => block_free_of_booleans(*block),
        KindModel::Fold { terms, .. } => forall|i: int|
            0 <= i < terms.len() ==> free_of_booleans(#[trigger] terms[i]),
        _ => true,
    }
}

/// No comparison and no near-equality anywhere in `b`.
pub open spec fn block_free_of_booleans(b: BlockModel) -> bool
    decreases b,
{
    &&& forall|i: int|
        0 <= i < b.assignments.len() ==> free_of_booleans(#[trigger] b.assignments[i].value)
    &&& free_of_booleans(b.result)
}

/// After the boolean rewrite no comparison survives, anywhere: the evaluator
/// treats the two boolean node kinds as unreachable and relies on this.
pub proof fn lemma_rewrite_leaves_no_boolean(e: ExprModel)
    ensures
        free_of_booleans(rewritten(e)),
    decreases e,
{
    match e.kind {
        KindModel::Compare { op, lhs, rhs } => {
            lemma_rewrite_leaves_no_boolean(*lhs);
            lemma_rewrite_leaves_no_boolean(*rhs);
            let (l, r) = (rewritten(*lhs), rewritten(*rhs));
            assert(free_of_booleans(binary_model(BinaryOp::Sub, l, r, e.span)));
            assert(free_of_booleans(binary_model(BinaryOp::Sub, r, l, e.span)));
            assert(free_of_booleans(literal_model(EPSILON_BITS, e.span)));
            assert(rewritten(e) == residual_model(op, l, r, e.span));
            match op {
                CompareOp::Lt => {
                    assert(free_of_booleans(binary_model(BinaryOp::Add, binary_model(BinaryOp::Sub, l, r, e.span), literal_model(EPSILON_BITS, e.span), e.span)));
                },
                CompareOp::Gt => {
                    assert(free_of_booleans(binary_model(BinaryOp::Add, binary_model(BinaryOp::Sub, r, l, e.span), literal_model(EPSILON_BITS, e.span), e.span)));
                },
                _ => {},
            }
        },
        KindModel::NearEq { lhs, rhs, tolerance } => {
            lemma_rewrite_leaves_no_boolean(*lhs);
            lemma_rewrite_leaves_no_boolean(*rhs);
            let (l, r) = (rewritten(*lhs), rewritten(*rhs));
            let t = literal_model(tolerance, e.span);
            assert(free_of_booleans(t));
            let at_least = binary_model(BinaryOp::Sub, binary_model(BinaryOp::Sub, r, t, e.span), l, e.span);
            let at_most = binary_model(BinaryOp::Sub, l, binary_model(BinaryOp::Add, r, t, e.span), e.span);
            assert(free_of_booleans(binary_model(BinaryOp::Sub, r, t, e.span)));
            assert(free_of_booleans(binary_model(BinaryOp::Add, r, t, e.span)));
            assert(free_of_booleans(at_least));
            assert(free_of_booleans(at_most));
            assert(free_of_booleans(binary_model(BinaryOp::Max, at_least, at_most, e.span)));
        },
        KindModel::Unary { arg, .. } => lemma_rewrite_leaves_no_boolean(*arg),
        KindModel::Binary { lhs, rhs, .. } => {
            lemma_rewrite_leaves_no_boolean(*lhs);
            lemma_rewrite_leaves_no_boolean(*rhs);
        },
        KindModel::DynamicIndex(index) => lemma_rewrite_leaves_no_boolean(*index),
        KindModel::Aggregate { lower, upper, body, .. } => {
            lemma_rewrite_leaves_no_boolean(*lower);
            lemma_rewrite_leaves_no_boolean(*upper);
            lemma_rewrite_block_leaves_no_boolean(*body);
        },
        KindModel::Block(block) => lemma_rewrite_block_leaves_no_boolean(*block),
        KindModel::Fold { terms, .. } => {
            let out = rewritten(e).kind->terms;
            assert forall|i: int| 0 <= i < out.len() implies free_of_booleans(#[trigger] out[i]) by {
                lemma_rewrite_leaves_no_boolean(terms[i]);
            }
        },
        _ => {},
    }
}

/// The block form of [`lemma_rewrite_leaves_no_boolean`].
pub proof fn lemma_rewrite_block_leaves_no_boolean(b: BlockModel)
    ensures
        block_free_of_booleans(rewritten_block(b)),
    decreases b,
{
    let out = rewritten_block(b);
    assert forall|i: int| 0 <= i < out.assignments.len() implies free_of_booleans(
        #[trigger] out.assignments[i].value,
    ) by {
        lemma_rewrite_leaves_no_boolean(b.assignments[i].value);
    }
    lemma_rewrite_leaves_no_boolean(b.result);
}

pub(crate) fn binary(op: BinaryOp, lhs: Expr, rhs: Expr, span: Span) -> (e: Expr)
    ensures
        e@ == binary_model(op, lhs@, rhs@, span),
{
    Expr { kind: Kind::Binary { op, lhs: Box::new(lhs), rhs: Box::new(rhs) }, span }
}

pub(crate) fn literal(bits: u64, span: Span) -> (e: Expr)
    ensures
        e@ == literal_model(bits, span),
{
    Expr { kind: Kind::Literal(bits), span }
}

/// `lhs op rhs` as arithmetic that is `<= 0` exactly when the comparison
/// holds; see [`residual_model`].
pub fn residual(op: CompareOp, lhs: Expr, rhs: Expr, span: Span) -> (e: Expr)
    ensures
        e@ == residual_model(op, lhs@, rhs@, span),
{
    let difference = match op {
        CompareOp::Lt | CompareOp::Lte => binary(BinaryOp::Sub, lhs, rhs, span),
        CompareOp::Gt | CompareOp::Gte => binary(BinaryOp::Sub, rhs, lhs, span),
    };
    match op {
        CompareOp::Lte | CompareOp::Gte => difference,
        CompareOp::Lt | CompareOp::Gt => binary(
            BinaryOp::Add,
            difference,
            literal(EPSILON_BITS, span),
            span,
        ),
    }
}

/// Eliminates every comparison and near-equality, replacing them with
/// arithmetic under the sign convention.
pub fn rewrite_booleans(program: Program) -> (out: Program)
    ensures
        out@ == (ProgramModel { body: rewritten_block(program@.body), frame_size: program.frame_size }),
        block_free_of_booleans(out@.body),
{
    let Program { body, frame_size } = program;
    let body = rewrite_block(body);
    proof {
        lemma_rewrite_block_leaves_no_boolean(model_block(program.body));
    }
    Program { body, frame_size }
}

fn rewrite_block(block: Block) -> (out: Block)
    ensures
        out@ == rewritten_block(block@),
    decreases block,
{
    let ghost whole = block;
    let Block { assignments, result } = block;
    let mut done: Vec<Assignment> = Vec::new();
    let mut k: usize = 0;
    let ghost n = assignments@.len();
    for a in it: assignments
        invariant
            whole == block,
            it.seq() == whole.assignments@,
            n == whole.assignments@.len(),
            done@.len() == it.index(),
            forall|j: int|
                0 <= j < done@.len() ==> (#[trigger] done@[j]).slot == whole.assignments@[j].slot
                    && done@[j].span == whole.assignments@[j].span
                    && done@[j].value@ == rewritten(whole.assignments@[j].value@),
    {
        assert(a == whole.assignments@[it.index() as int]);
        assert(decreases_to!(whole => whole.assignments@[it.index() as int].value));
        let Assignment { slot, value, span } = a;
        done.push(Assignment { slot, value: rewrite_expr(value), span });
    }
    let out = Block { assignments: done, result: rewrite_expr(result) };
    proof {
        assert(model_block(out).assignments =~= rewritten_block(model_block(whole)).assignments);
    }
    out
}

fn rewrite_expr(node: Expr) -> (out: Expr)
    ensures
        out@ == rewritten(node@),
    decreases node,
{
    let ghost whole = node;
    let Expr { kind, span } = node;
    match kind {
        Kind::Compare { op, lhs, rhs } => {
            let lhs = rewrite_expr(*lhs);
            let rhs = rewrite_expr(*rhs);
            residual(op, lhs, rhs, span)
        },
        Kind::NearEq { lhs, rhs, tolerance } => {
            let lhs = rewrite_expr(*lhs);
            let rhs = rewrite_expr(*rhs);
            let lower_bound = binary(BinaryOp::Sub, clone_expr(&rhs), literal(tolerance, span), span);
            let upper_bound = binary(BinaryOp::Add, rhs, literal(tolerance, span), span);
            let at_least = binary(BinaryOp::Sub, lower_bound, clone_expr(&lhs), span);
            let at_most = binary(BinaryOp::Sub, lhs, upper_bound, span);
            binary(BinaryOp::Max, at_least, at_most, span)
        },
        Kind::Unary { op, arg } => Expr {
            kind: Kind::Unary { op, arg: Box::new(rewrite_expr(*arg)) },
            span,
        },
        Kind::Binary { op, lhs, rhs } => {
            let lhs = rewrite_expr(*lhs);
            let rhs = rewrite_expr(*rhs);
            binary(op, lhs, rhs, span)
        },
        Kind::DynamicIndex(index) => Expr {
            kind: Kind::DynamicIndex(Box::new(rewrite_expr(*index))),
            span,
        },
        Kind::Aggregate { kind, lower, upper, param, body } => Expr {
            kind: Kind::Aggregate {
                kind,
                lower: Box::new(rewrite_expr(*lower)),
                upper: Box::new(rewrite_expr(*upper)),
                param,
                body: Box::new(rewrite_block(*body)),
            },
            span,
        },
        Kind::Block(block) => Expr { kind: Kind::Block(Box::new(rewrite_block(*block))), span },
        Kind::Fold { kind, terms } => {
            let mut done: Vec<Expr> = Vec::new();
            for t in it: terms
                invariant
                    whole == node,
                    whole.kind == (Kind::Fold { kind, terms: whole.kind->terms }),
                    it.seq() == whole.kind->terms@,
                    done@.len() == it.index(),
                    forall|j: int| 0 <= j < done@.len() ==> (#[trigger] done@[j])@ == rewritten(whole.kind->terms@[j]@),
            {
                assert(t == whole.kind->terms@[it.index() as int]);
                assert(decreases_to!(whole => whole.kind->terms@[it.index() as int]));
                done.push(rewrite_expr(t));
            }
            let out = Expr { kind: Kind::Fold { kind, terms: done }, span };
            proof {
                assert(model_expr(out).kind->terms =~= rewritten(model_expr(whole)).kind->terms);
            }
            out
        },
        Kind::Literal(bits) => Expr { kind: Kind::Literal(bits), span },
        Kind::Global(id) => Expr { kind: Kind::Global(id), span },
        Kind::Local(slot) => Expr { kind: Kind::Local(slot), span },
    }
}


// ------------------------------------------------------------ substitution

/// `e` with every reference to `param` replaced by the literal `bits`.
pub open spec fn substituted(e: ExprModel, param: LocalSlot, bits: u64) -> ExprModel
    decreases e,
{
    match e.kind {
        KindModel::Local(slot) => if slot == param {
            literal_model(bits, e.span)
        } else {
            e
        },
        KindModel::Unary { op, arg } => ExprModel {
            kind: KindModel::Unary { op, arg: Box::new(substituted(*arg, param, bits)) },
            span: e.span,
        },
        KindModel::Binary { op, lhs, rhs } => binary_model(
            op,
            substituted(*lhs, param, bits),
            substituted(*rhs, param, bits),
            e.span,
        ),
        KindModel::Compare { op, lhs, rhs } => ExprModel {
            kind: KindModel::Compare {
                op,
                lhs: Box::new(substituted(*lhs, param, bits)),
                rhs: Box::new(substituted(*rhs, param, bits)),
            },
            span: e.span,
        },
        KindModel::NearEq { lhs, rhs, tolerance } => ExprModel {
            kind: KindModel::NearEq {
                lhs: Box::new(substituted(*lhs, param, bits)),
                rhs: Box::new(substituted(*rhs, param, bits)),
                tolerance,
            },
            span: e.span,
        },
        KindModel::DynamicIndex(index) => ExprModel {
            kind: KindModel::DynamicIndex(Box::new(substituted(*index, param, bits))),
            span: e.span,
        },
        KindModel::Aggregate { kind, lower, upper, param: inner, body } => ExprModel {
            kind: KindModel::Aggregate {
                kind,
                lower: Box::new(substituted(*lower, param, bits)),
                upper: Box::new(substituted(*upper, param, bits)),
                param: inner,
                body: Box::new(substituted_block(*body, param, bits)),
            },
            span: e.span,
        },
        KindModel::Block(block) => ExprModel {
            kind: KindModel::Block(Box::new(substituted_block(*block, param, bits))),
            span: e.span,
        },
        KindModel::Fold { kind, terms } => ExprModel {
            kind: KindModel::Fold {
                kind,
                terms: Seq::new(
                    terms.len(),
                    |i: int|
                        if 0 <= i < terms.len() {
                            substituted(terms[i], param, bits)
                        } else {
                            arbitrary()
                        },
                ),
            },
            span: e.span,
        },
        _ => e,
    }
}

/// `b` with every reference to `param` replaced by the literal `bits`.
pub open spec fn substituted_block(b: BlockModel, param: LocalSlot, bits: u64) -> BlockModel
    decreases b,
{
    BlockModel {
        assignments: Seq::new(
            b.assignments.len(),
            |i: int|
                if 0 <= i < b.assignments.len() {
                    AssignmentModel {
                        slot: b.assignments[i].slot,
                        value: substituted(b.assignments[i].value, param, bits),
                        span: b.assignments[i].span,
                    }
                } else {
                    arbitrary()
                },
        ),
        result: substituted(b.result, param, bits),
    }
}

/// Replaces every reference to `param` with the literal `bits`. By slot
/// rather than by name, so a body that binds a slot of its own is untouched.
pub fn substitute(expr: Expr, param: LocalSlot, bits: u64) -> (out: Expr)
    ensures
        out@ == substituted(expr@, param, bits),
    decreases expr,
{
    let ghost whole = expr;
    let Expr { kind, span } = expr;
    let kind = match kind {
        Kind::Local(slot) => if slot == param {
            Kind::Literal(bits)
        } else {
            Kind::Local(slot)
        },
        Kind::Unary { op, arg } => Kind::Unary { op, arg: Box::new(substitute(*arg, param, bits)) },
        Kind::Binary { op, lhs, rhs } => Kind::Binary {
            op,
            lhs: Box::new(substitute(*lhs, param, bits)),
            rhs: Box::new(substitute(*rhs, param, bits)),
        },
        Kind::Compare { op, lhs, rhs } => Kind::Compare {
            op,
            lhs: Box::new(substitute(*lhs, param, bits)),
            rhs: Box::new(substitute(*rhs, param, bits)),
        },
        Kind::NearEq { lhs, rhs, tolerance } => Kind::NearEq {
            lhs: Box::new(substitute(*lhs, param, bits)),
            rhs: Box::new(substitute(*rhs, param, bits)),
            tolerance,
        },
        Kind::DynamicIndex(index) => Kind::DynamicIndex(Box::new(substitute(*index, param, bits))),
        Kind::Aggregate { kind, lower, upper, param: inner, body } => Kind::Aggregate {
            kind,
            lower: Box::new(substitute(*lower, param, bits)),
            upper: Box::new(substitute(*upper, param, bits)),
            param: inner,
            body: Box::new(substitute_block(*body, param, bits)),
        },
        Kind::Block(block) => Kind::Block(Box::new(substitute_block(*block, param, bits))),
        Kind::Fold { kind, terms } => {
            let mut done: Vec<Expr> = Vec::new();
            for t in it: terms
                invariant
                    whole == expr,
                    whole.kind == (Kind::Fold { kind, terms: whole.kind->terms }),
                    it.seq() == whole.kind->terms@,
                    done@.len() == it.index(),
                    forall|j: int|
                        0 <= j < done@.len() ==> (#[trigger] done@[j])@ == substituted(
                            whole.kind->terms@[j]@,
                            param,
                            bits,
                        ),
            {
                assert(t == whole.kind->terms@[it.index() as int]);
                assert(decreases_to!(whole => whole.kind->terms@[it.index() as int]));
                done.push(substitute(t, param, bits));
            }
            let out = Kind::Fold { kind, terms: done };
            proof {
                assert(model_expr(Expr { kind: out, span }).kind->terms =~= substituted(
                    model_expr(whole),
                    param,
                    bits,
                ).kind->terms);
            }
            out
        },
        Kind::Literal(b) => Kind::Literal(b),
        Kind::Global(id) => Kind::Global(id),
    };
    Expr { kind, span }
}

fn substitute_block(block: Block, param: LocalSlot, bits: u64) -> (out: Block)
    ensures
        out@ == substituted_block(block@, param, bits),
    decreases block,
{
    let ghost whole = block;
    let Block { assignments, result } = block;
    let mut done: Vec<Assignment> = Vec::new();
    for a in it: assignments
        invariant
            whole == block,
            it.seq() == whole.assignments@,
            done@.len() == it.index(),
            forall|j: int|
                0 <= j < done@.len() ==> (#[trigger] done@[j]).slot == whole.assignments@[j].slot
                    && done@[j].span == whole.assignments@[j].span
                    && done@[j].value@ == substituted(whole.assignments@[j].value@, param, bits),
    {
        assert(a == whole.assignments@[it.index() as int]);
        assert(decreases_to!(whole => whole.assignments@[it.index() as int].value));
        let Assignment { slot, value, span } = a;
        done.push(Assignment { slot, value: substitute(value, param, bits), span });
    }
    let out = Block { assignments: done, result: substitute(result, param, bits) };
    proof {
        assert(model_block(out).assignments =~= substituted_block(model_block(whole), param, bits).assignments);
    }
    out
}


// --------------------------------------------------------------- unrolling

/// The most terms an aggregate will unroll into.
pub const UNROLL_LIMIT: i64 = 1024;

/// Whether a pass's result is the model's.
pub open spec fn same_outcome(out: Result<Expr, Vec<Fault>>, model: Result<ExprModel, Fault>) -> bool {
    match (out, model) {
        (Ok(e), Ok(m)) => e@ == m,
        (Err(faults), Err(f)) => faults@ == seq![f],
        _ => false,
    }
}

/// The range an aggregate covers when both bounds are literals: `Ok(None)`
/// when a bound is not a literal or the range is wider than the cap, and an
/// error when a literal bound is not a usable index.
pub open spec fn static_range(lower: ExprModel, upper: ExprModel) -> Result<Option<(i64, i64)>, Fault> {
    match (lower.kind, upper.kind) {
        (KindModel::Literal(lo), KindModel::Literal(hi)) => match (index_of(lo), index_of(hi)) {
            (None, _) => Err(
                Fault { kind: ProblemKind::IllegalAggregateBound { bound: BoundKind::Lower, value: lo }, span: lower.span },
            ),
            (Some(_), None) => Err(
                Fault { kind: ProblemKind::IllegalAggregateBound { bound: BoundKind::Upper, value: hi }, span: upper.span },
            ),
            (Some(first), Some(last)) => if last - first >= UNROLL_LIMIT {
                Ok(None)
            } else {
                Ok(Some((first, last)))
            },
        },
        _ => Ok(None),
    }
}

/// The terms an aggregate over `first..=last` unrolls into: the body once
/// per index, the parameter replaced by the index as a literal.
pub open spec fn unrolled_terms_for(
    body: BlockModel,
    param: LocalSlot,
    span: Span,
    first: i64,
    last: i64,
) -> Seq<ExprModel> {
    let count: nat = if last >= first { (last - first + 1) as nat } else { 0 };
    Seq::new(
        count,
        |i: int|
            substituted(
                ExprModel { kind: KindModel::Block(Box::new(body)), span },
                param,
                index_literal((first + i) as i64),
            ),
    )
}

/// What unrolling makes of an expression: the first fault in evaluation
/// order, or the expression with every aggregate over literal bounds
/// replaced by the fold of its terms.
pub open spec fn unrolled(e: ExprModel) -> Result<ExprModel, Fault>
    decreases e,
{
    match e.kind {
        KindModel::Aggregate { kind, lower, upper, param, body } => match unrolled(*lower) {
            Err(f) => Err(f),
            Ok(l) => match unrolled(*upper) {
                Err(f) => Err(f),
                Ok(u) => match unrolled_block(*body) {
                    Err(f) => Err(f),
                    Ok(b) => match static_range(l, u) {
                        Err(f) => Err(f),
                        Ok(None) => Ok(
                            ExprModel {
                                kind: KindModel::Aggregate {
                                    kind,
                                    lower: Box::new(l),
                                    upper: Box::new(u),
                                    param,
                                    body: Box::new(b),
                                },
                                span: e.span,
                            },
                        ),
                        Ok(Some((first, last))) => Ok(
                            ExprModel {
                                kind: KindModel::Fold {
                                    kind,
                                    terms: unrolled_terms_for(b, param, e.span, first, last),
                                },
                                span: e.span,
                            },
                        ),
                    },
                },
            },
        },
        KindModel::Unary { op, arg } => match unrolled(*arg) {
            Err(f) => Err(f),
            Ok(a) => Ok(ExprModel { kind: KindModel::Unary { op, arg: Box::new(a) }, span: e.span }),
        },
        KindModel::Binary { op, lhs, rhs } => match unrolled(*lhs) {
            Err(f) => Err(f),
            Ok(l) => match unrolled(*rhs) {
                Err(f) => Err(f),
                Ok(r) => Ok(binary_model(op, l, r, e.span)),
            },
        },
        KindModel::DynamicIndex(index) => match unrolled(*index) {
            Err(f) => Err(f),
            Ok(i) => Ok(ExprModel { kind: KindModel::DynamicIndex(Box::new(i)), span: e.span }),
        },
        KindModel::Block(block) => match unrolled_block(*block) {
            Err(f) => Err(f),
            Ok(b) => Ok(ExprModel { kind: KindModel::Block(Box::new(b)), span: e.span }),
        },
        KindModel::Fold { kind, terms } => match unrolled_seq(terms) {
            Err(f) => Err(f),
            Ok(ts) => Ok(ExprModel { kind: KindModel::Fold { kind, terms: ts }, span: e.span }),
        },
        KindModel::Compare { op, lhs, rhs } => match unrolled(*lhs) {
            Err(f) => Err(f),
            Ok(l) => match unrolled(*rhs) {
                Err(f) => Err(f),
                Ok(r) => Ok(
                    ExprModel {
                        kind: KindModel::Compare { op, lhs: Box::new(l), rhs: Box::new(r) },
                        span: e.span,
                    },
                ),
            },
        },
        KindModel::NearEq { lhs, rhs, tolerance } => match unrolled(*lhs) {
            Err(f) => Err(f),
            Ok(l) => match unrolled(*rhs) {
                Err(f) => Err(f),
                Ok(r) => Ok(
                    ExprModel {
                        kind: KindModel::NearEq { lhs: Box::new(l), rhs: Box::new(r), tolerance },
                        span: e.span,
                    },
                ),
            },
        },
        _ => Ok(e),
    }
}

/// Unrolling of each expression in turn, stopping at the first fault.
pub open spec fn unrolled_seq(terms: Seq<ExprModel>) -> Result<Seq<ExprModel>, Fault>
    decreases terms,
{
    if terms.len() == 0 {
        Ok(Seq::empty())
    } else {
        match unrolled_seq(terms.drop_last()) {
            Err(f) => Err(f),
            Ok(done) => match unrolled(terms.last()) {
                Err(f) => Err(f),
                Ok(t) => Ok(done.push(t)),
            },
        }
    }
}

/// Unrolling of each assignment in turn, stopping at the first fault.
pub open spec fn unrolled_assignments(assignments: Seq<AssignmentModel>) -> Result<
    Seq<AssignmentModel>,
    Fault,
>
    decreases assignments,
{
    if assignments.len() == 0 {
        Ok(Seq::empty())
    } else {
        let a = assignments.last();
        match unrolled_assignments(assignments.drop_last()) {
            Err(f) => Err(f),
            Ok(done) => match unrolled(a.value) {
                Err(f) => Err(f),
                Ok(v) => Ok(done.push(AssignmentModel { slot: a.slot, value: v, span: a.span })),
            },
        }
    }
}

/// What unrolling makes of a block.
pub open spec fn unrolled_block(b: BlockModel) -> Result<BlockModel, Fault>
    decreases b,
{
    match unrolled_assignments(b.assignments) {
        Err(f) => Err(f),
        Ok(assignments) => match unrolled(b.result) {
            Err(f) => Err(f),
            Ok(result) => Ok(BlockModel { assignments, result }),
        },
    }
}

/// The range an aggregate covers, when both bounds are literals; see
/// [`static_range`].
fn static_range_of(lower: &Expr, upper: &Expr) -> (range: Result<Option<(i64, i64)>, Vec<Fault>>)
    ensures
        match (range, static_range(lower@, upper@)) {
            (Ok(r), Ok(m)) => r == m,
            (Err(faults), Err(f)) => faults@ == seq![f],
            _ => false,
        },
{
    let (lo, hi) = match (&lower.kind, &upper.kind) {
        (Kind::Literal(lo), Kind::Literal(hi)) => (*lo, *hi),
        _ => return Ok(None),
    };
    let first = match to_index(lo) {
        Some(first) => first,
        None => {
            let fault = Fault {
                kind: ProblemKind::IllegalAggregateBound { bound: BoundKind::Lower, value: lo },
                span: lower.span,
            };
            let faults = vec![fault];
            proof {
                assert(faults@ =~= seq![fault]);
            }
            return Err(faults);
        },
    };
    let last = match to_index(hi) {
        Some(last) => last,
        None => {
            let fault = Fault {
                kind: ProblemKind::IllegalAggregateBound { bound: BoundKind::Upper, value: hi },
                span: upper.span,
            };
            let faults = vec![fault];
            proof {
                assert(faults@ =~= seq![fault]);
            }
            return Err(faults);
        },
    };
    if (last as i128) - (first as i128) >= UNROLL_LIMIT as i128 {
        Ok(None)
    } else {
        Ok(Some((first, last)))
    }
}

/// Replaces every aggregate whose bounds are literals with the terms it
/// expands to, so no loop reaches a backend that would rather not have one.
/// A literal bound that is not a usable index is a fault, here, rather than
/// one waiting for every evaluation.
pub fn unroll_aggregates(program: Program) -> (out: Result<Program, Vec<Fault>>)
    ensures
        match (out, unrolled_block(program@.body)) {
            (Ok(p), Ok(b)) => p@ == (ProgramModel { body: b, frame_size: program.frame_size }),
            (Err(faults), Err(f)) => faults@ == seq![f],
            _ => false,
        },
{
    let Program { body, frame_size } = program;
    match unroll_block(body) {
        Ok(body) => Ok(Program { body, frame_size }),
        Err(faults) => Err(faults),
    }
}

/// The models of a run of assignments.
pub open spec fn assignment_models(v: Seq<Assignment>) -> Seq<AssignmentModel> {
    Seq::new(
        v.len(),
        |i: int| AssignmentModel { slot: v[i].slot, value: model_expr(v[i].value), span: v[i].span },
    )
}

/// The models of a run of expressions.
pub open spec fn expr_models(v: Seq<Expr>) -> Seq<ExprModel> {
    Seq::new(v.len(), |i: int| model_expr(v[i]))
}

/// A fault in a prefix is the fault of the whole run.
proof fn lemma_unrolled_assignments_prefix(s: Seq<AssignmentModel>, j: int)
    requires
        0 <= j <= s.len(),
        unrolled_assignments(s.take(j)) is Err,
    ensures
        unrolled_assignments(s) == unrolled_assignments(s.take(j)),
    decreases s.len() - j,
{
    if j < s.len() {
        assert(s.take(j + 1).drop_last() =~= s.take(j));
        lemma_unrolled_assignments_prefix(s, j + 1);
    } else {
        assert(s.take(j) =~= s);
    }
}

/// A fault in a prefix is the fault of the whole run.
proof fn lemma_unrolled_seq_prefix(s: Seq<ExprModel>, j: int)
    requires
        0 <= j <= s.len(),
        unrolled_seq(s.take(j)) is Err,
    ensures
        unrolled_seq(s) == unrolled_seq(s.take(j)),
    decreases s.len() - j,
{
    if j < s.len() {
        assert(s.take(j + 1).drop_last() =~= s.take(j));
        lemma_unrolled_seq_prefix(s, j + 1);
    } else {
        assert(s.take(j) =~= s);
    }
}

fn unroll_block(block: Block) -> (out: Result<Block, Vec<Fault>>)
    ensures
        match (out, unrolled_block(block@)) {
            (Ok(b), Ok(m)) => b@ == m,
            (Err(faults), Err(f)) => faults@ == seq![f],
            _ => false,
        },
    decreases block,
{
    let ghost whole = block;
    let ghost models = model_block(whole).assignments;
    let Block { assignments, result } = block;
    let mut done: Vec<Assignment> = Vec::new();
    proof {
        assert(models.take(0) =~= Seq::<AssignmentModel>::empty());
        assert(assignment_models(done@) =~= Seq::<AssignmentModel>::empty());
    }
    for a in it: assignments
        invariant
            whole == block,
            models == model_block(whole).assignments,
            it.seq() == whole.assignments@,
            done@.len() == it.index(),
            unrolled_assignments(models.take(it.index() as int)) == Ok::<Seq<AssignmentModel>, Fault>(
                assignment_models(done@),
            ),
    {
        let ghost k = it.index() as int;
        assert(a == whole.assignments@[k]);
        assert(decreases_to!(whole => whole.assignments@[k].value));
        let Assignment { slot, value, span } = a;
        match unroll_expr(value) {
            Ok(v) => {
                let ghost before = done@;
                done.push(Assignment { slot, value: v, span });
                proof {
                    assert(models.take(k + 1).drop_last() =~= models.take(k));
                    assert(assignment_models(done@) =~= assignment_models(before).push(
                        AssignmentModel { slot, value: model_expr(v), span },
                    ));
                }
            },
            Err(faults) => {
                proof {
                    assert(models.take(k + 1).drop_last() =~= models.take(k));
                    lemma_unrolled_assignments_prefix(models, k + 1);
                }
                return Err(faults);
            },
        }
    }
    proof {
        assert(models.take(models.len() as int) =~= models);
    }
    match unroll_expr(result) {
        Ok(r) => {
            let b = Block { assignments: done, result: r };
            proof {
                assert(model_block(b).assignments =~= assignment_models(done@));
            }
            Ok(b)
        },
        Err(faults) => Err(faults),
    }
}

/// Unrolls `expr`; see [`unrolled`].
fn unroll_expr(expr: Expr) -> (out: Result<Expr, Vec<Fault>>)
    ensures
        same_outcome(out, unrolled(expr@)),
    decreases expr,
{
    let ghost whole = expr;
    let Expr { kind, span } = expr;
    match kind {
        Kind::Aggregate { kind, lower, upper, param, body } => {
            let lower = match unroll_expr(*lower) {
                Ok(l) => l,
                Err(faults) => return Err(faults),
            };
            let upper = match unroll_expr(*upper) {
                Ok(u) => u,
                Err(faults) => return Err(faults),
            };
            let body = match unroll_block(*body) {
                Ok(b) => b,
                Err(faults) => return Err(faults),
            };
            match static_range_of(&lower, &upper) {
                Err(faults) => Err(faults),
                Ok(None) => Ok(
                    Expr {
                        kind: Kind::Aggregate {
                            kind,
                            lower: Box::new(lower),
                            upper: Box::new(upper),
                            param,
                            body: Box::new(body),
                        },
                        span,
                    },
                ),
                Ok(Some((first, last))) => {
                    let ghost b = model_block(body);
                    let mut terms: Vec<Expr> = Vec::new();
                    let count: i64 = if first <= last {
                        last - first + 1
                    } else {
                        0
                    };
                    let mut j: i64 = 0;
                    while j < count
                        invariant
                            0 <= j <= count,
                            count == (if last >= first { last - first + 1 } else { 0 }),
                            last - first < UNROLL_LIMIT,
                            b == model_block(body),
                            terms@.len() == j,
                            forall|i: int|
                                0 <= i < terms@.len() ==> (#[trigger] terms@[i])@ == unrolled_terms_for(
                                    b,
                                    param,
                                    span,
                                    first,
                                    last,
                                )[i],
                        decreases count - j,
                    {
                        let term = Expr { kind: Kind::Block(Box::new(crate::ast::clone_block(&body))), span };
                        terms.push(substitute(term, param, index_bits(first + j)));
                        j = j + 1;
                    }
                    let out = Expr { kind: Kind::Fold { kind, terms }, span };
                    proof {
                        assert(model_expr(out).kind->terms =~= unrolled_terms_for(b, param, span, first, last));
                    }
                    Ok(out)
                },
            }
        },
        Kind::Unary { op, arg } => match unroll_expr(*arg) {
            Ok(a) => Ok(Expr { kind: Kind::Unary { op, arg: Box::new(a) }, span }),
            Err(faults) => Err(faults),
        },
        Kind::Binary { op, lhs, rhs } => {
            let lhs = match unroll_expr(*lhs) {
                Ok(l) => l,
                Err(faults) => return Err(faults),
            };
            match unroll_expr(*rhs) {
                Ok(r) => Ok(binary(op, lhs, r, span)),
                Err(faults) => Err(faults),
            }
        },
        Kind::DynamicIndex(index) => match unroll_expr(*index) {
            Ok(i) => Ok(Expr { kind: Kind::DynamicIndex(Box::new(i)), span }),
            Err(faults) => Err(faults),
        },
        Kind::Block(block) => match unroll_block(*block) {
            Ok(b) => Ok(Expr { kind: Kind::Block(Box::new(b)), span }),
            Err(faults) => Err(faults),
        },
        Kind::Fold { kind, terms } => {
            let ghost models = model_expr(whole).kind->terms;
            let mut done: Vec<Expr> = Vec::new();
            proof {
                assert(models.take(0) =~= Seq::<ExprModel>::empty());
                assert(expr_models(done@) =~= Seq::<ExprModel>::empty());
            }
            for t in it: terms
                invariant
                    whole == expr,
                    whole.kind == (Kind::Fold { kind, terms: whole.kind->terms }),
                    models == model_expr(whole).kind->terms,
                    it.seq() == whole.kind->terms@,
                    done@.len() == it.index(),
                    unrolled_seq(models.take(it.index() as int)) == Ok::<Seq<ExprModel>, Fault>(
                        expr_models(done@),
                    ),
            {
                let ghost k = it.index() as int;
                assert(t == whole.kind->terms@[k]);
                assert(decreases_to!(whole => whole.kind->terms@[k]));
                match unroll_expr(t) {
                    Ok(u) => {
                        let ghost before = done@;
                        done.push(u);
                        proof {
                            assert(models.take(k + 1).drop_last() =~= models.take(k));
                            assert(expr_models(done@) =~= expr_models(before).push(model_expr(u)));
                        }
                    },
                    Err(faults) => {
                        proof {
                            assert(models.take(k + 1).drop_last() =~= models.take(k));
                            lemma_unrolled_seq_prefix(models, k + 1);
                        }
                        return Err(faults);
                    },
                }
            }
            let out = Expr { kind: Kind::Fold { kind, terms: done }, span };
            proof {
                assert(models.take(models.len() as int) =~= models);
                assert(model_expr(out).kind->terms =~= expr_models(done@));
            }
            Ok(out)
        },
        Kind::Literal(b) => Ok(Expr { kind: Kind::Literal(b), span }),
        Kind::Global(id) => Ok(Expr { kind: Kind::Global(id), span }),
        Kind::Local(slot) => Ok(Expr { kind: Kind::Local(slot), span }),
        Kind::Compare { op, lhs, rhs } => {
            let lhs = match unroll_expr(*lhs) {
                Ok(l) => l,
                Err(faults) => return Err(faults),
            };
            match unroll_expr(*rhs) {
                Ok(r) => Ok(Expr { kind: Kind::Compare { op, lhs: Box::new(lhs), rhs: Box::new(r) }, span }),
                Err(faults) => Err(faults),
            }
        },
        Kind::NearEq { lhs, rhs, tolerance } => {
            let lhs = match unroll_expr(*lhs) {
                Ok(l) => l,
                Err(faults) => return Err(faults),
            };
            match unroll_expr(*rhs) {
                Ok(r) => Ok(
                    Expr { kind: Kind::NearEq { lhs: Box::new(lhs), rhs: Box::new(r), tolerance }, span },
                ),
                Err(faults) => Err(faults),
            }
        },
    }
}


// --------------------------------------------------------- power expansion

/// The largest exponent worth expanding.
pub const POWER_LIMIT: i64 = 64;

/// The bits of `1.0`.
pub const ONE_BITS: u64 = 0x3FF0_0000_0000_0000;

/// `base ^ exponent` as multiplication, when the exponent is a literal whole
/// number of magnitude at most [`POWER_LIMIT`]: `1` for a zero exponent, the
/// product of that many copies of the base for a positive one, and one over
/// that product for a negative one.
pub open spec fn power_terms(base: ExprModel, exponent: ExprModel, span: Span) -> Option<KindModel> {
    match exponent.kind {
        KindModel::Literal(v) => match index_of(v) {
            Some(times) => if times < -POWER_LIMIT || times > POWER_LIMIT {
                None
            } else if times == 0 {
                Some(KindModel::Literal(ONE_BITS))
            } else {
                let count: nat = if times < 0 { (-times) as nat } else { times as nat };
                let product = ExprModel {
                    kind: KindModel::Fold { kind: AggregateKind::Prod, terms: Seq::new(count, |i: int| base) },
                    span,
                };
                if times < 0 {
                    Some(
                        KindModel::Binary {
                            op: BinaryOp::Div,
                            lhs: Box::new(literal_model(ONE_BITS, span)),
                            rhs: Box::new(product),
                        },
                    )
                } else {
                    Some(product.kind)
                }
            },
            None => None,
        },
        _ => None,
    }
}

/// What power expansion makes of an expression: every `x ^ n` with a
/// literal whole `n` of magnitude at most the cap, rewritten by
/// [`power_terms`], innermost first.
pub open spec fn expanded(e: ExprModel) -> ExprModel
    decreases e,
{
    match e.kind {
        KindModel::Binary { op, lhs, rhs } => {
            let (l, r) = (expanded(*lhs), expanded(*rhs));
            if op == BinaryOp::Pow {
                match power_terms(l, r, e.span) {
                    Some(k) => ExprModel { kind: k, span: e.span },
                    None => binary_model(op, l, r, e.span),
                }
            } else {
                binary_model(op, l, r, e.span)
            }
        },
        KindModel::Unary { op, arg } => ExprModel {
            kind: KindModel::Unary { op, arg: Box::new(expanded(*arg)) },
            span: e.span,
        },
        KindModel::DynamicIndex(index) => ExprModel {
            kind: KindModel::DynamicIndex(Box::new(expanded(*index))),
            span: e.span,
        },
        KindModel::Aggregate { kind, lower, upper, param, body } => ExprModel {
            kind: KindModel::Aggregate {
                kind,
                lower: Box::new(expanded(*lower)),
                upper: Box::new(expanded(*upper)),
                param,
                body: Box::new(expanded_block(*body)),
            },
            span: e.span,
        },
        KindModel::Block(block) => ExprModel {
            kind: KindModel::Block(Box::new(expanded_block(*block))),
            span: e.span,
        },
        KindModel::Compare { op, lhs, rhs } => ExprModel {
            kind: KindModel::Compare { op, lhs: Box::new(expanded(*lhs)), rhs: Box::new(expanded(*rhs)) },
            span: e.span,
        },
        KindModel::NearEq { lhs, rhs, tolerance } => ExprModel {
            kind: KindModel::NearEq {
                lhs: Box::new(expanded(*lhs)),
                rhs: Box::new(expanded(*rhs)),
                tolerance,
            },
            span: e.span,
        },
        KindModel::Fold { kind, terms } => ExprModel {
            kind: KindModel::Fold {
                kind,
                terms: Seq::new(
                    terms.len(),
                    |i: int|
                        if 0 <= i < terms.len() {
                            expanded(terms[i])
                        } else {
                            arbitrary()
                        },
                ),
            },
            span: e.span,
        },
        _ => e,
    }
}

/// What power expansion makes of a block.
pub open spec fn expanded_block(b: BlockModel) -> BlockModel
    decreases b,
{
    BlockModel {
        assignments: Seq::new(
            b.assignments.len(),
            |i: int|
                if 0 <= i < b.assignments.len() {
                    AssignmentModel {
                        slot: b.assignments[i].slot,
                        value: expanded(b.assignments[i].value),
                        span: b.assignments[i].span,
                    }
                } else {
                    arbitrary()
                },
        ),
        result: expanded(b.result),
    }
}

/// Rewrites `x ^ n` into repeated multiplication, for a literal whole `n` of
/// magnitude at most [`POWER_LIMIT`]; see [`power_terms`].
pub fn expand_powers(program: Program) -> (out: Program)
    ensures
        out@ == (ProgramModel { body: expanded_block(program@.body), frame_size: program.frame_size }),
{
    let Program { body, frame_size } = program;
    Program { body: expand_block(body), frame_size }
}

fn expand_block(block: Block) -> (out: Block)
    ensures
        out@ == expanded_block(block@),
    decreases block,
{
    let ghost whole = block;
    let Block { assignments, result } = block;
    let mut done: Vec<Assignment> = Vec::new();
    for a in it: assignments
        invariant
            whole == block,
            it.seq() == whole.assignments@,
            done@.len() == it.index(),
            forall|j: int|
                0 <= j < done@.len() ==> (#[trigger] done@[j]).slot == whole.assignments@[j].slot
                    && done@[j].span == whole.assignments@[j].span
                    && done@[j].value@ == expanded(whole.assignments@[j].value@),
    {
        let ghost k = it.index() as int;
        assert(a == whole.assignments@[k]);
        assert(decreases_to!(whole => whole.assignments@[k].value));
        let Assignment { slot, value, span } = a;
        done.push(Assignment { slot, value: expand_expr(value), span });
    }
    let out = Block { assignments: done, result: expand_expr(result) };
    proof {
        assert(model_block(out).assignments =~= expanded_block(model_block(whole)).assignments);
    }
    out
}

/// `base ^ exponent` as multiplication, or `None`; see [`power_terms`].
fn power_terms_of(base: &Expr, exponent: &Expr, span: Span) -> (out: Option<Kind>)
    ensures
        match (out, power_terms(base@, exponent@, span)) {
            (Some(k), Some(m)) => (Expr { kind: k, span })@ == (ExprModel { kind: m, span }),
            (None, None) => true,
            _ => false,
        },
{
    let v = match &exponent.kind {
        Kind::Literal(v) => *v,
        _ => return None,
    };
    let times = match to_index(v) {
        Some(times) => times,
        None => return None,
    };
    if times < -POWER_LIMIT || times > POWER_LIMIT {
        return None;
    }
    if times == 0 {
        return Some(Kind::Literal(ONE_BITS));
    }
    let count: i64 = if times < 0 {
        -times
    } else {
        times
    };
    let mut terms: Vec<Expr> = Vec::new();
    let mut j: i64 = 0;
    while j < count
        invariant
            0 <= j <= count <= POWER_LIMIT,
            terms@.len() == j,
            forall|i: int| 0 <= i < j ==> (#[trigger] terms@[i])@ == base@,
        decreases count - j,
    {
        terms.push(clone_expr(base));
        j = j + 1;
    }
    let product = Expr { kind: Kind::Fold { kind: AggregateKind::Prod, terms }, span };
    proof {
        assert(model_expr(product).kind->terms =~= Seq::new(count as nat, |i: int| model_expr(*base)));
    }
    if times < 0 {
        Some(Kind::Binary { op: BinaryOp::Div, lhs: Box::new(literal(ONE_BITS, span)), rhs: Box::new(product) })
    } else {
        Some(product.kind)
    }
}

fn expand_expr(node: Expr) -> (out: Expr)
    ensures
        out@ == expanded(node@),
    decreases node,
{
    let ghost whole = node;
    let Expr { kind, span } = node;
    match kind {
        Kind::Binary { op, lhs, rhs } => {
            let lhs = expand_expr(*lhs);
            let rhs = expand_expr(*rhs);
            if op == BinaryOp::Pow {
                match power_terms_of(&lhs, &rhs, span) {
                    Some(k) => Expr { kind: k, span },
                    None => binary(op, lhs, rhs, span),
                }
            } else {
                binary(op, lhs, rhs, span)
            }
        },
        Kind::Unary { op, arg } => Expr {
            kind: Kind::Unary { op, arg: Box::new(expand_expr(*arg)) },
            span,
        },
        Kind::DynamicIndex(index) => Expr {
            kind: Kind::DynamicIndex(Box::new(expand_expr(*index))),
            span,
        },
        Kind::Aggregate { kind, lower, upper, param, body } => Expr {
            kind: Kind::Aggregate {
                kind,
                lower: Box::new(expand_expr(*lower)),
                upper: Box::new(expand_expr(*upper)),
                param,
                body: Box::new(expand_block(*body)),
            },
            span,
        },
        Kind::Block(block) => Expr { kind: Kind::Block(Box::new(expand_block(*block))), span },
        Kind::Fold { kind, terms } => {
            let mut done: Vec<Expr> = Vec::new();
            for t in it: terms
                invariant
                    whole == node,
                    whole.kind == (Kind::Fold { kind, terms: whole.kind->terms }),
                    it.seq() == whole.kind->terms@,
                    done@.len() == it.index(),
                    forall|j: int| 0 <= j < done@.len() ==> (#[trigger] done@[j])@ == expanded(whole.kind->terms@[j]@),
            {
                let ghost k = it.index() as int;
                assert(t == whole.kind->terms@[k]);
                assert(decreases_to!(whole => whole.kind->terms@[k]));
                done.push(expand_expr(t));
            }
            let out = Expr { kind: Kind::Fold { kind, terms: done }, span };
            proof {
                assert(model_expr(out).kind->terms =~= expanded(model_expr(whole)).kind->terms);
            }
            out
        },
        Kind::Literal(bits) => Expr { kind: Kind::Literal(bits), span },
        Kind::Global(id) => Expr { kind: Kind::Global(id), span },
        Kind::Local(slot) => Expr { kind: Kind::Local(slot), span },
        Kind::Compare { op, lhs, rhs } => Expr {
            kind: Kind::Compare { op, lhs: Box::new(expand_expr(*lhs)), rhs: Box::new(expand_expr(*rhs)) },
            span,
        },
        Kind::NearEq { lhs, rhs, tolerance } => Expr {
            kind: Kind::NearEq {
                lhs: Box::new(expand_expr(*lhs)),
                rhs: Box::new(expand_expr(*rhs)),
                tolerance,
            },
            span,
        },
    }
}


// ---------------------------------------------------------------- scoping

/// Substituting a literal for a parameter keeps every name in scope.
pub proof fn lemma_substitute_scoped(e: ExprModel, param: LocalSlot, bits: u64, f: nat, g: nat)
    requires
        scoped(e, f, g),
    ensures
        scoped(substituted(e, param, bits), f, g),
    decreases e,
{
    match e.kind {
        KindModel::DynamicIndex(index) => lemma_substitute_scoped(*index, param, bits, f, g),
        KindModel::Unary { arg, .. } => lemma_substitute_scoped(*arg, param, bits, f, g),
        KindModel::Binary { lhs, rhs, .. } => {
            lemma_substitute_scoped(*lhs, param, bits, f, g);
            lemma_substitute_scoped(*rhs, param, bits, f, g);
        },
        KindModel::Compare { lhs, rhs, .. } => {
            lemma_substitute_scoped(*lhs, param, bits, f, g);
            lemma_substitute_scoped(*rhs, param, bits, f, g);
        },
        KindModel::NearEq { lhs, rhs, .. } => {
            lemma_substitute_scoped(*lhs, param, bits, f, g);
            lemma_substitute_scoped(*rhs, param, bits, f, g);
        },
        KindModel::Aggregate { lower, upper, body, .. } => {
            lemma_substitute_scoped(*lower, param, bits, f, g);
            lemma_substitute_scoped(*upper, param, bits, f, g);
            lemma_substitute_block_scoped(*body, param, bits, f, g);
        },
        KindModel::Block(block) => lemma_substitute_block_scoped(*block, param, bits, f, g),
        KindModel::Fold { terms, .. } => {
            let out = substituted(e, param, bits).kind->Fold_terms;
            assert forall|i: int| 0 <= i < out.len() implies scoped(#[trigger] out[i], f, g) by {
                lemma_substitute_scoped(terms[i], param, bits, f, g);
            }
        },
        _ => {},
    }
}

/// [`lemma_substitute_scoped`] for a block.
pub proof fn lemma_substitute_block_scoped(b: BlockModel, param: LocalSlot, bits: u64, f: nat, g: nat)
    requires
        scoped_block(b, f, g),
    ensures
        scoped_block(substituted_block(b, param, bits), f, g),
    decreases b,
{
    let out = substituted_block(b, param, bits);
    assert forall|i: int| 0 <= i < out.assignments.len() implies {
        let a = #[trigger] out.assignments[i];
        &&& a.slot.0 < f
        &&& scoped(a.value, a.slot.0 as nat, g)
    } by {
        lemma_substitute_scoped(b.assignments[i].value, param, bits, b.assignments[i].slot.0 as nat, g);
    }
    lemma_substitute_scoped(b.result, param, bits, f, g);
}

/// Unrolling keeps every name in scope.
pub proof fn lemma_unroll_scoped(e: ExprModel, f: nat, g: nat)
    requires
        scoped(e, f, g),
        unrolled(e) is Ok,
    ensures
        scoped(unrolled(e)->Ok_0, f, g),
    decreases e,
{
    match e.kind {
        KindModel::Aggregate { kind, lower, upper, param, body } => {
            lemma_unroll_scoped(*lower, f, g);
            lemma_unroll_scoped(*upper, f, g);
            lemma_unroll_block_scoped(*body, f, g);
            let l = unrolled(*lower)->Ok_0;
            let u = unrolled(*upper)->Ok_0;
            let b = unrolled_block(*body)->Ok_0;
            match static_range(l, u) {
                Ok(Some((first, last))) => {
                    let terms = unrolled_terms_for(b, param, e.span, first, last);
                    assert forall|i: int| 0 <= i < terms.len() implies scoped(#[trigger] terms[i], f, g) by {
                        let whole = ExprModel { kind: KindModel::Block(Box::new(b)), span: e.span };
                        lemma_substitute_scoped(whole, param, index_literal((first + i) as i64), f, g);
                    }
                },
                _ => {},
            }
        },
        KindModel::Unary { arg, .. } => lemma_unroll_scoped(*arg, f, g),
        KindModel::Binary { lhs, rhs, .. } => {
            lemma_unroll_scoped(*lhs, f, g);
            lemma_unroll_scoped(*rhs, f, g);
        },
        KindModel::Compare { lhs, rhs, .. } => {
            lemma_unroll_scoped(*lhs, f, g);
            lemma_unroll_scoped(*rhs, f, g);
        },
        KindModel::NearEq { lhs, rhs, .. } => {
            lemma_unroll_scoped(*lhs, f, g);
            lemma_unroll_scoped(*rhs, f, g);
        },
        KindModel::DynamicIndex(index) => lemma_unroll_scoped(*index, f, g),
        KindModel::Block(block) => lemma_unroll_block_scoped(*block, f, g),
        KindModel::Fold { terms, .. } => lemma_unroll_seq_scoped(terms, f, g),
        _ => {},
    }
}

/// [`lemma_unroll_scoped`] for each term of a run.
pub proof fn lemma_unroll_seq_scoped(terms: Seq<ExprModel>, f: nat, g: nat)
    requires
        forall|i: int| 0 <= i < terms.len() ==> scoped(#[trigger] terms[i], f, g),
        unrolled_seq(terms) is Ok,
    ensures
        unrolled_seq(terms)->Ok_0.len() == terms.len(),
        forall|i: int| 0 <= i < terms.len() ==> scoped(#[trigger] unrolled_seq(terms)->Ok_0[i], f, g),
    decreases terms,
{
    if terms.len() > 0 {
        let rest = terms.drop_last();
        assert forall|i: int| 0 <= i < rest.len() implies scoped(#[trigger] rest[i], f, g) by {
            assert(rest[i] == terms[i]);
        }
        lemma_unroll_seq_scoped(rest, f, g);
        lemma_unroll_scoped(terms.last(), f, g);
        let done = unrolled_seq(rest)->Ok_0;
        let out = unrolled_seq(terms)->Ok_0;
        assert forall|i: int| 0 <= i < terms.len() implies scoped(#[trigger] out[i], f, g) by {
            if i < rest.len() {
                assert(out[i] == done[i]);
            }
        }
    }
}

/// [`lemma_unroll_scoped`] for each assignment of a run.
pub proof fn lemma_unroll_assignments_scoped(assignments: Seq<AssignmentModel>, g: nat)
    requires
        forall|i: int|
            0 <= i < assignments.len() ==> scoped(
                #[trigger] assignments[i].value,
                assignments[i].slot.0 as nat,
                g,
            ),
        unrolled_assignments(assignments) is Ok,
    ensures
        unrolled_assignments(assignments)->Ok_0.len() == assignments.len(),
        forall|i: int|
            0 <= i < assignments.len() ==> {
                let a = #[trigger] unrolled_assignments(assignments)->Ok_0[i];
                &&& a.slot == assignments[i].slot
                &&& scoped(a.value, a.slot.0 as nat, g)
            },
    decreases assignments,
{
    if assignments.len() > 0 {
        let rest = assignments.drop_last();
        assert forall|i: int| 0 <= i < rest.len() implies scoped(#[trigger] rest[i].value, rest[i].slot.0 as nat, g) by {
            assert(rest[i] == assignments[i]);
        }
        lemma_unroll_assignments_scoped(rest, g);
        let last = assignments.last();
        lemma_unroll_scoped(last.value, last.slot.0 as nat, g);
        let done = unrolled_assignments(rest)->Ok_0;
        let out = unrolled_assignments(assignments)->Ok_0;
        assert forall|i: int| 0 <= i < assignments.len() implies {
            let a = #[trigger] out[i];
            &&& a.slot == assignments[i].slot
            &&& scoped(a.value, a.slot.0 as nat, g)
        } by {
            if i < rest.len() {
                assert(out[i] == done[i]);
                assert(rest[i] == assignments[i]);
            }
        }
    }
}

/// [`lemma_unroll_scoped`] for a block.
pub proof fn lemma_unroll_block_scoped(b: BlockModel, f: nat, g: nat)
    requires
        scoped_block(b, f, g),
        unrolled_block(b) is Ok,
    ensures
        scoped_block(unrolled_block(b)->Ok_0, f, g),
    decreases b,
{
    assert forall|i: int| 0 <= i < b.assignments.len() implies scoped(
        #[trigger] b.assignments[i].value,
        b.assignments[i].slot.0 as nat,
        g,
    ) by {
        let a = b.assignments[i];
        assert(scoped(a.value, a.slot.0 as nat, g));
    }
    lemma_unroll_assignments_scoped(b.assignments, g);
    lemma_unroll_scoped(b.result, f, g);
    let out = unrolled_block(b)->Ok_0;
    assert forall|i: int| 0 <= i < out.assignments.len() implies {
        let a = #[trigger] out.assignments[i];
        &&& a.slot.0 < f
        &&& scoped(a.value, a.slot.0 as nat, g)
    } by {
        assert(out.assignments[i].slot == b.assignments[i].slot);
    }
}

/// Power expansion keeps every name in scope.
pub proof fn lemma_expand_scoped(e: ExprModel, f: nat, g: nat)
    requires
        scoped(e, f, g),
    ensures
        scoped(expanded(e), f, g),
    decreases e,
{
    match e.kind {
        KindModel::Binary { op, lhs, rhs } => {
            lemma_expand_scoped(*lhs, f, g);
            lemma_expand_scoped(*rhs, f, g);
            let (l, r) = (expanded(*lhs), expanded(*rhs));
            if op == BinaryOp::Pow {
                match power_terms(l, r, e.span) {
                    Some(k) => {
                        let out = ExprModel { kind: k, span: e.span };
                        assert(expanded(e) == out);
                        match k {
                            KindModel::Fold { terms, .. } => {
                                assert forall|i: int| 0 <= i < terms.len() implies scoped(#[trigger] terms[i], f, g) by {
                                    assert(terms[i] == l);
                                }
                            },
                            KindModel::Binary { lhs: one, rhs: product, .. } => {
                                let terms = product.kind->Fold_terms;
                                assert forall|i: int| 0 <= i < terms.len() implies scoped(#[trigger] terms[i], f, g) by {
                                    assert(terms[i] == l);
                                }
                                assert(scoped(*product, f, g));
                                assert(scoped(*one, f, g));
                            },
                            _ => {},
                        }
                    },
                    None => {},
                }
            }
        },
        KindModel::Unary { arg, .. } => lemma_expand_scoped(*arg, f, g),
        KindModel::Compare { lhs, rhs, .. } => {
            lemma_expand_scoped(*lhs, f, g);
            lemma_expand_scoped(*rhs, f, g);
        },
        KindModel::NearEq { lhs, rhs, .. } => {
            lemma_expand_scoped(*lhs, f, g);
            lemma_expand_scoped(*rhs, f, g);
        },
        KindModel::DynamicIndex(index) => lemma_expand_scoped(*index, f, g),
        KindModel::Aggregate { lower, upper, body, .. } => {
            lemma_expand_scoped(*lower, f, g);
            lemma_expand_scoped(*upper, f, g);
            lemma_expand_block_scoped(*body, f, g);
        },
        KindModel::Block(block) => lemma_expand_block_scoped(*block, f, g),
        KindModel::Fold { terms, .. } => {
            let out = expanded(e).kind->Fold_terms;
            assert forall|i: int| 0 <= i < out.len() implies scoped(#[trigger] out[i], f, g) by {
                lemma_expand_scoped(terms[i], f, g);
            }
        },
        _ => {},
    }
}

/// [`lemma_expand_scoped`] for a block.
pub proof fn lemma_expand_block_scoped(b: BlockModel, f: nat, g: nat)
    requires
        scoped_block(b, f, g),
    ensures
        scoped_block(expanded_block(b), f, g),
    decreases b,
{
    let out = expanded_block(b);
    assert forall|i: int| 0 <= i < out.assignments.len() implies {
        let a = #[trigger] out.assignments[i];
        &&& a.slot.0 < f
        &&& scoped(a.value, a.slot.0 as nat, g)
    } by {
        lemma_expand_scoped(b.assignments[i].value, b.assignments[i].slot.0 as nat, g);
    }
    lemma_expand_scoped(b.result, f, g);
}


/// The only fault unrolling reports is an aggregate bound.
pub proof fn lemma_unroll_faults_are_bounds(e: ExprModel)
    ensures
        unrolled(e) matches Err(f) ==> f.kind is IllegalAggregateBound,
    decreases e,
{
    match e.kind {
        KindModel::Aggregate { lower, upper, body, .. } => {
            lemma_unroll_faults_are_bounds(*lower);
            lemma_unroll_faults_are_bounds(*upper);
            lemma_unroll_block_faults_are_bounds(*body);
        },
        KindModel::Unary { arg, .. } => lemma_unroll_faults_are_bounds(*arg),
        KindModel::Binary { lhs, rhs, .. } => {
            lemma_unroll_faults_are_bounds(*lhs);
            lemma_unroll_faults_are_bounds(*rhs);
        },
        KindModel::Compare { lhs, rhs, .. } => {
            lemma_unroll_faults_are_bounds(*lhs);
            lemma_unroll_faults_are_bounds(*rhs);
        },
        KindModel::NearEq { lhs, rhs, .. } => {
            lemma_unroll_faults_are_bounds(*lhs);
            lemma_unroll_faults_are_bounds(*rhs);
        },
        KindModel::DynamicIndex(index) => lemma_unroll_faults_are_bounds(*index),
        KindModel::Block(block) => lemma_unroll_block_faults_are_bounds(*block),
        KindModel::Fold { terms, .. } => lemma_unroll_seq_faults_are_bounds(terms),
        _ => {},
    }
}

/// [`lemma_unroll_faults_are_bounds`] for a run of terms.
pub proof fn lemma_unroll_seq_faults_are_bounds(terms: Seq<ExprModel>)
    ensures
        unrolled_seq(terms) matches Err(f) ==> f.kind is IllegalAggregateBound,
    decreases terms,
{
    if terms.len() > 0 {
        lemma_unroll_seq_faults_are_bounds(terms.drop_last());
        lemma_unroll_faults_are_bounds(terms.last());
    }
}

/// [`lemma_unroll_faults_are_bounds`] for a run of assignments.
pub proof fn lemma_unroll_assignments_faults_are_bounds(assignments: Seq<AssignmentModel>)
    ensures
        unrolled_assignments(assignments) matches Err(f) ==> f.kind is IllegalAggregateBound,
    decreases assignments,
{
    if assignments.len() > 0 {
        lemma_unroll_assignments_faults_are_bounds(assignments.drop_last());
        lemma_unroll_faults_are_bounds(assignments.last().value);
    }
}

/// [`lemma_unroll_faults_are_bounds`] for a block.
pub proof fn lemma_unroll_block_faults_are_bounds(b: BlockModel)
    ensures
        unrolled_block(b) matches Err(f) ==> f.kind is IllegalAggregateBound,
    decreases b,
{
    lemma_unroll_assignments_faults_are_bounds(b.assignments);
    lemma_unroll_faults_are_bounds(b.result);
}

/// `a op b` with the sides exchanged: what `b ? a` has to be to mean the same.
pub open spec fn mirror(op: CompareOp) -> CompareOp {
    match op {
        CompareOp::Lt => CompareOp::Gt,
        CompareOp::Lte => CompareOp::Gte,
        CompareOp::Gt => CompareOp::Lt,
        CompareOp::Gte => CompareOp::Lte,
    }
}

/// [`mirror`].
pub fn mirrored(op: CompareOp) -> (m: CompareOp)
    ensures
        m == mirror(op),
{
    match op {
        CompareOp::Lt => CompareOp::Gt,
        CompareOp::Lte => CompareOp::Gte,
        CompareOp::Gt => CompareOp::Lt,
        CompareOp::Gte => CompareOp::Lte,
    }
}

/// Exchanging the sides twice changes nothing, and never changes whether a
/// comparison is strict.
pub proof fn lemma_mirror_involution(op: CompareOp)
    ensures
        mirror(mirror(op)) == op,
        (op == CompareOp::Lt || op == CompareOp::Gt) <==> (mirror(op) == CompareOp::Lt || mirror(op) == CompareOp::Gt),
{
}

} // verus!
