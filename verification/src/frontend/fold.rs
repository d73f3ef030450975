//! Constant folding: every operation whose operands are all literals becomes
//! the literal it works out to.
//!
//! The arithmetic is the host's: the library never computes in floating
//! point, so the values come from the functions a caller hands in, and what
//! is proved here is everything around them (which nodes collapse, the order
//! the tree is visited in, and which constant is refused).
use vstd::prelude::*;

use crate::ast::{
    model_block, model_expr, scoped, scoped_block, Assignment, AssignmentModel, BinaryOp, Block, BlockModel,
    Expr, ExprModel, Kind, KindModel, Program, ProgramModel, UnaryOp,
};
use crate::binary64::exponent_field;
use crate::diagnostics::{Fault, ProblemKind, Span};
use crate::frontend::rewrite::{assignment_models, expr_models, same_outcome};

verus! {

/// The value the host's `unary` gives `op` applied to `x`.
pub open spec fn unary_value<U: Fn(UnaryOp, u64) -> u64>(unary: U, op: UnaryOp, x: u64) -> u64 {
    choose|r: u64| call_ensures(unary, (op, x), r)
}

/// The value the host's `binary` gives `op` applied to `x` and `y`.
pub open spec fn binary_value<B: Fn(BinaryOp, u64, u64) -> u64>(binary: B, op: BinaryOp, x: u64, y: u64) -> u64 {
    choose|r: u64| call_ensures(binary, (op, x, y), r)
}

/// `unary` may be called on anything, and gives one value for each call.
pub open spec fn unary_is_function<U: Fn(UnaryOp, u64) -> u64>(unary: U) -> bool {
    &&& forall|op: UnaryOp, x: u64| #[trigger] unary.requires((op, x))
    &&& forall|op: UnaryOp, x: u64, r: u64| #[trigger] call_ensures(unary, (op, x), r) ==> r == unary_value(unary, op, x)
}

/// `binary` may be called on anything, and gives one value for each call.
pub open spec fn binary_is_function<B: Fn(BinaryOp, u64, u64) -> u64>(binary: B) -> bool {
    &&& forall|op: BinaryOp, x: u64, y: u64| #[trigger] binary.requires((op, x, y))
    &&& forall|op: BinaryOp, x: u64, y: u64, r: u64| #[trigger] call_ensures(binary, (op, x, y), r) ==> r
        == binary_value(binary, op, x, y)
}

/// The bits of a finite value: the exponent field is not all ones.
pub open spec fn finite(bits: u64) -> bool {
    exponent_field(bits) != 2047
}

/// A node as folding leaves it: refused when it is a literal that is not
/// finite, which catches a source literal such as `1.0e400` as well as a
/// folded value.
pub open spec fn checked(kind: KindModel, span: Span) -> Result<ExprModel, Fault> {
    match kind {
        KindModel::Literal(v) => if finite(v) {
            Ok(ExprModel { kind, span })
        } else {
            Err(Fault { kind: ProblemKind::NonFiniteConstant { value: v }, span })
        },
        _ => Ok(ExprModel { kind, span }),
    }
}

/// What folding makes of `e`, children first and left to right, stopping at
/// the first constant that is not finite.
pub open spec fn folded<U: Fn(UnaryOp, u64) -> u64, B: Fn(BinaryOp, u64, u64) -> u64>(
    e: ExprModel,
    unary: U,
    binary: B,
) -> Result<ExprModel, Fault>
    decreases e,
{
    match e.kind {
        KindModel::Unary { op, arg } => match folded(*arg, unary, binary) {
            Err(f) => Err(f),
            Ok(a) => checked(
                match a.kind {
                    KindModel::Literal(x) => KindModel::Literal(unary_value(unary, op, x)),
                    _ => KindModel::Unary { op, arg: Box::new(a) },
                },
                e.span,
            ),
        },
        KindModel::Binary { op, lhs, rhs } => match folded(*lhs, unary, binary) {
            Err(f) => Err(f),
            Ok(l) => match folded(*rhs, unary, binary) {
                Err(f) => Err(f),
                Ok(r) => checked(
                    match (l.kind, r.kind) {
                        (KindModel::Literal(x), KindModel::Literal(y)) => KindModel::Literal(
                            binary_value(binary, op, x, y),
                        ),
                        _ => KindModel::Binary { op, lhs: Box::new(l), rhs: Box::new(r) },
                    },
                    e.span,
                ),
            },
        },
        KindModel::Compare { op, lhs, rhs } => match folded(*lhs, unary, binary) {
            Err(f) => Err(f),
            Ok(l) => match folded(*rhs, unary, binary) {
                Err(f) => Err(f),
                Ok(r) => Ok(
                    ExprModel { kind: KindModel::Compare { op, lhs: Box::new(l), rhs: Box::new(r) }, span: e.span },
                ),
            },
        },
        KindModel::NearEq { lhs, rhs, tolerance } => match folded(*lhs, unary, binary) {
            Err(f) => Err(f),
            Ok(l) => match folded(*rhs, unary, binary) {
                Err(f) => Err(f),
                Ok(r) => Ok(
                    ExprModel {
                        kind: KindModel::NearEq { lhs: Box::new(l), rhs: Box::new(r), tolerance },
                        span: e.span,
                    },
                ),
            },
        },
        KindModel::DynamicIndex(index) => match folded(*index, unary, binary) {
            Err(f) => Err(f),
            Ok(i) => Ok(ExprModel { kind: KindModel::DynamicIndex(Box::new(i)), span: e.span }),
        },
        KindModel::Aggregate { kind, lower, upper, param, body } => match folded(*lower, unary, binary) {
            Err(f) => Err(f),
            Ok(l) => match folded(*upper, unary, binary) {
                Err(f) => Err(f),
                Ok(u) => match folded_block(*body, unary, binary) {
                    Err(f) => Err(f),
                    Ok(b) => Ok(
                        ExprModel {
                            kind: KindModel::Aggregate {
                                kind,
                                lower: Box::new(l),
                                upper: Box::new(u),
                                param,
                                body: Box::new(b),
                            },
                            span: e.span,
                        },
                    ),
                },
            },
        },
        KindModel::Block(block) => match folded_block(*block, unary, binary) {
            Err(f) => Err(f),
            Ok(b) => Ok(ExprModel { kind: KindModel::Block(Box::new(b)), span: e.span }),
        },
        KindModel::Fold { kind, terms } => match folded_seq(terms, unary, binary) {
            Err(f) => Err(f),
            Ok(ts) => Ok(ExprModel { kind: KindModel::Fold { kind, terms: ts }, span: e.span }),
        },
        _ => checked(e.kind, e.span),
    }
}

/// Folding of each expression in turn, stopping at the first refusal.
pub open spec fn folded_seq<U: Fn(UnaryOp, u64) -> u64, B: Fn(BinaryOp, u64, u64) -> u64>(
    terms: Seq<ExprModel>,
    unary: U,
    binary: B,
) -> Result<Seq<ExprModel>, Fault>
    decreases terms,
{
    if terms.len() == 0 {
        Ok(Seq::empty())
    } else {
        match folded_seq(terms.drop_last(), unary, binary) {
            Err(f) => Err(f),
            Ok(done) => match folded(terms.last(), unary, binary) {
                Err(f) => Err(f),
                Ok(t) => Ok(done.push(t)),
            },
        }
    }
}

/// Folding of each assignment in turn, stopping at the first refusal.
pub open spec fn folded_assignments<U: Fn(UnaryOp, u64) -> u64, B: Fn(BinaryOp, u64, u64) -> u64>(
    assignments: Seq<AssignmentModel>,
    unary: U,
    binary: B,
) -> Result<Seq<AssignmentModel>, Fault>
    decreases assignments,
{
    if assignments.len() == 0 {
        Ok(Seq::empty())
    } else {
        let a = assignments.last();
        match folded_assignments(assignments.drop_last(), unary, binary) {
            Err(f) => Err(f),
            Ok(done) => match folded(a.value, unary, binary) {
                Err(f) => Err(f),
                Ok(v) => Ok(done.push(AssignmentModel { slot: a.slot, value: v, span: a.span })),
            },
        }
    }
}

/// What folding makes of a block: its assignments in order, then its result.
pub open spec fn folded_block<U: Fn(UnaryOp, u64) -> u64, B: Fn(BinaryOp, u64, u64) -> u64>(
    b: BlockModel,
    unary: U,
    binary: B,
) -> Result<BlockModel, Fault>
    decreases b,
{
    match folded_assignments(b.assignments, unary, binary) {
        Err(f) => Err(f),
        Ok(assignments) => match folded(b.result, unary, binary) {
            Err(f) => Err(f),
            Ok(result) => Ok(BlockModel { assignments, result }),
        },
    }
}

proof fn lemma_folded_seq_prefix<U: Fn(UnaryOp, u64) -> u64, B: Fn(BinaryOp, u64, u64) -> u64>(
    s: Seq<ExprModel>,
    j: int,
    unary: U,
    binary: B,
)
    requires
        0 <= j <= s.len(),
        folded_seq(s.take(j), unary, binary) is Err,
    ensures
        folded_seq(s, unary, binary) == folded_seq(s.take(j), unary, binary),
    decreases s.len() - j,
{
    if j < s.len() {
        assert(s.take(j + 1).drop_last() =~= s.take(j));
        lemma_folded_seq_prefix(s, j + 1, unary, binary);
    } else {
        assert(s.take(j) =~= s);
    }
}

proof fn lemma_folded_assignments_prefix<U: Fn(UnaryOp, u64) -> u64, B: Fn(BinaryOp, u64, u64) -> u64>(
    s: Seq<AssignmentModel>,
    j: int,
    unary: U,
    binary: B,
)
    requires
        0 <= j <= s.len(),
        folded_assignments(s.take(j), unary, binary) is Err,
    ensures
        folded_assignments(s, unary, binary) == folded_assignments(s.take(j), unary, binary),
    decreases s.len() - j,
{
    if j < s.len() {
        assert(s.take(j + 1).drop_last() =~= s.take(j));
        lemma_folded_assignments_prefix(s, j + 1, unary, binary);
    } else {
        assert(s.take(j) =~= s);
    }
}

/// Whether `bits` is finite; see [`finite`].
fn is_finite(bits: u64) -> (r: bool)
    ensures
        r == finite(bits),
{
    (bits / 0x10_0000_0000_0000) % 2048 != 2047
}

/// [`checked`], on a node.
fn check(kind: Kind, span: Span) -> (out: Result<Expr, Vec<Fault>>)
    ensures
        same_outcome(out, checked(model_expr(Expr { kind, span }).kind, span)),
{
    match kind {
        Kind::Literal(v) => {
            if is_finite(v) {
                Ok(Expr { kind: Kind::Literal(v), span })
            } else {
                let fault = Fault { kind: ProblemKind::NonFiniteConstant { value: v }, span };
                let faults = vec![fault];
                proof {
                    assert(faults@ =~= seq![fault]);
                }
                Err(faults)
            }
        },
        _ => Ok(Expr { kind, span }),
    }
}

/// Replaces every operation on literals with the literal it works out to,
/// under the host's `unary` and `binary`; see [`folded_block`]. The first
/// constant that is not finite, in the order the tree is visited, is refused
/// with its span.
pub fn fold_constants<U: Fn(UnaryOp, u64) -> u64, B: Fn(BinaryOp, u64, u64) -> u64>(
    program: Program,
    unary: &U,
    binary: &B,
) -> (out: Result<Program, Vec<Fault>>)
    requires
        unary_is_function(*unary),
        binary_is_function(*binary),
    ensures
        match (out, folded_block(program@.body, *unary, *binary)) {
            (Ok(p), Ok(b)) => p@ == (ProgramModel { body: b, frame_size: program.frame_size }),
            (Err(faults), Err(f)) => faults@ == seq![f],
            _ => false,
        },
{
    let Program { body, frame_size } = program;
    match fold_block(body, unary, binary) {
        Ok(body) => Ok(Program { body, frame_size }),
        Err(faults) => Err(faults),
    }
}

fn fold_block<U: Fn(UnaryOp, u64) -> u64, B: Fn(BinaryOp, u64, u64) -> u64>(
    block: Block,
    unary: &U,
    binary: &B,
) -> (out: Result<Block, Vec<Fault>>)
    requires
        unary_is_function(*unary),
        binary_is_function(*binary),
    ensures
        match (out, folded_block(block@, *unary, *binary)) {
            (Ok(b), Ok(m)) => b@ == m,
            (Err(faults), Err(f)) => faults@ == seq![f],
            _ => false,
        },
    decreases block,
{
    let ghost whole = block;
    let ghost models = model_block(whole).assignments;
    let Block { assignments, result } = block;
    let mut done: Vec<Assignment> = Vec::new();
    proof {
        assert(models.take(0) =~= Seq::<AssignmentModel>::empty());
        assert(assignment_models(done@) =~= Seq::<AssignmentModel>::empty());
    }
    for a in it: assignments
        invariant
            whole == block,
            models == model_block(whole).assignments,
            it.seq() == whole.assignments@,
            done@.len() == it.index(),
            unary_is_function(*unary),
            binary_is_function(*binary),
            folded_assignments(models.take(it.index() as int), *unary, *binary) == Ok::<
                Seq<AssignmentModel>,
                Fault,
            >(assignment_models(done@)),
    {
        let ghost k = it.index() as int;
        assert(a == whole.assignments@[k]);
        assert(decreases_to!(whole => whole.assignments@[k].value));
        let Assignment { slot, value, span } = a;
        match fold_expr(value, unary, binary) {
            Ok(v) => {
                let ghost before = done@;
                done.push(Assignment { slot, value: v, span });
                proof {
                    assert(models.take(k + 1).drop_last() =~= models.take(k));
                    assert(assignment_models(done@) =~= assignment_models(before).push(
                        AssignmentModel { slot, value: model_expr(v), span },
                    ));
                }
            },
            Err(faults) => {
                proof {
                    assert(models.take(k + 1).drop_last() =~= models.take(k));
                    lemma_folded_assignments_prefix(models, k + 1, *unary, *binary);
                }
                return Err(faults);
            },
        }
    }
    proof {
        assert(models.take(models.len() as int) =~= models);
    }
    match fold_expr(result, unary, binary) {
        Ok(r) => {
            let b = Block { assignments: done, result: r };
            proof {
                assert(model_block(b).assignments =~= assignment_models(done@));
            }
            Ok(b)
        },
        Err(faults) => Err(faults),
    }
}

fn fold_expr<U: Fn(UnaryOp, u64) -> u64, B: Fn(BinaryOp, u64, u64) -> u64>(
    expr: Expr,
    unary: &U,
    binary: &B,
) -> (out: Result<Expr, Vec<Fault>>)
    requires
        unary_is_function(*unary),
        binary_is_function(*binary),
    ensures
        same_outcome(out, folded(expr@, *unary, *binary)),
    decreases expr,
{
    let ghost whole = expr;
    let Expr { kind, span } = expr;
    match kind {
        Kind::Unary { op, arg } => {
            let a = match fold_expr(*arg, unary, binary) {
                Ok(a) => a,
                Err(faults) => return Err(faults),
            };
            match a.kind {
                Kind::Literal(x) => {
                    let v = unary(op, x);
                    check(Kind::Literal(v), span)
                },
                other => check(Kind::Unary { op, arg: Box::new(Expr { kind: other, span: a.span }) }, span),
            }
        },
        Kind::Binary { op, lhs, rhs } => {
            let l = match fold_expr(*lhs, unary, binary) {
                Ok(l) => l,
                Err(faults) => return Err(faults),
            };
            let r = match fold_expr(*rhs, unary, binary) {
                Ok(r) => r,
                Err(faults) => return Err(faults),
            };
            match (&l.kind, &r.kind) {
                (Kind::Literal(x), Kind::Literal(y)) => {
                    let v = binary(op, *x, *y);
                    check(Kind::Literal(v), span)
                },
                _ => check(Kind::Binary { op, lhs: Box::new(l), rhs: Box::new(r) }, span),
            }
        },
        Kind::Compare { op, lhs, rhs } => {
            let l = match fold_expr(*lhs, unary, binary) {
                Ok(l) => l,
                Err(faults) => return Err(faults),
            };
            match fold_expr(*rhs, unary, binary) {
                Ok(r) => Ok(Expr { kind: Kind::Compare { op, lhs: Box::new(l), rhs: Box::new(r) }, span }),
                Err(faults) => Err(faults),
            }
        },
        Kind::NearEq { lhs, rhs, tolerance } => {
            let l = match fold_expr(*lhs, unary, binary) {
                Ok(l) => l,
                Err(faults) => return Err(faults),
            };
            match fold_expr(*rhs, unary, binary) {
                Ok(r) => Ok(Expr { kind: Kind::NearEq { lhs: Box::new(l), rhs: Box::new(r), tolerance }, span }),
                Err(faults) => Err(faults),
            }
        },
        Kind::DynamicIndex(index) => match fold_expr(*index, unary, binary) {
            Ok(i) => Ok(Expr { kind: Kind::DynamicIndex(Box::new(i)), span }),
            Err(faults) => Err(faults),
        },
        Kind::Aggregate { kind, lower, upper, param, body } => {
            let lower = match fold_expr(*lower, unary, binary) {
                Ok(l) => l,
                Err(faults) => return Err(faults),
            };
            let upper = match fold_expr(*upper, unary, binary) {
                Ok(u) => u,
                Err(faults) => return Err(faults),
            };
            match fold_block(*body, unary, binary) {
                Ok(b) => Ok(
                    Expr {
                        kind: Kind::Aggregate {
                            kind,
                            lower: Box::new(lower),
                            upper: Box::new(upper),
                            param,
                            body: Box::new(b),
                        },
                        span,
                    },
                ),
                Err(faults) => Err(faults),
            }
        },
        Kind::Block(block) => match fold_block(*block, unary, binary) {
            Ok(b) => Ok(Expr { kind: Kind::Block(Box::new(b)), span }),
            Err(faults) => Err(faults),
        },
        Kind::Fold { kind, terms } => {
            let ghost models = model_expr(whole).kind->terms;
            let mut done: Vec<Expr> = Vec::new();
            proof {
                assert(models.take(0) =~= Seq::<ExprModel>::empty());
                assert(expr_models(done@) =~= Seq::<ExprModel>::empty());
            }
            for t in it: terms
                invariant
                    whole == expr,
                    whole.kind == (Kind::Fold { kind, terms: whole.kind->terms }),
                    models == model_expr(whole).kind->terms,
                    it.seq() == whole.kind->terms@,
                    done@.len() == it.index(),
                    unary_is_function(*unary),
                    binary_is_function(*binary),
                    folded_seq(models.take(it.index() as int), *unary, *binary) == Ok::<Seq<ExprModel>, Fault>(
                        expr_models(done@),
                    ),
            {
                let ghost k = it.index() as int;
                assert(t == whole.kind->terms@[k]);
                assert(decreases_to!(whole => whole.kind->terms@[k]));
                match fold_expr(t, unary, binary) {
                    Ok(u) => {
                        let ghost before = done@;
                        done.push(u);
                        proof {
                            assert(models.take(k + 1).drop_last() =~= models.take(k));
                            assert(expr_models(done@) =~= expr_models(before).push(model_expr(u)));
                        }
                    },
                    Err(faults) => {
                        proof {
                            assert(models.take(k + 1).drop_last() =~= models.take(k));
                            lemma_folded_seq_prefix(models, k + 1, *unary, *binary);
                        }
                        return Err(faults);
                    },
                }
            }
            let out = Expr { kind: Kind::Fold { kind, terms: done }, span };
            proof {
                assert(models.take(models.len() as int) =~= models);
                assert(model_expr(out).kind->terms =~= expr_models(done@));
            }
            Ok(out)
        },
        Kind::Literal(b) => check(Kind::Literal(b), span),
        Kind::Global(id) => check(Kind::Global(id), span),
        Kind::Local(slot) => check(Kind::Local(slot), span),
    }
}

/// Folding keeps every name in scope.
pub proof fn lemma_fold_scoped<U: Fn(UnaryOp, u64) -> u64, B: Fn(BinaryOp, u64, u64) -> u64>(
    e: ExprModel,
    f: nat,
    g: nat,
    unary: U,
    binary: B,
)
    requires
        scoped(e, f, g),
        folded(e, unary, binary) is Ok,
    ensures
        scoped(folded(e, unary, binary)->Ok_0, f, g),
    decreases e,
{
    match e.kind {
        KindModel::Aggregate { lower, upper, body, .. } => {
            lemma_fold_scoped(*lower, f, g, unary, binary);
            lemma_fold_scoped(*upper, f, g, unary, binary);
            lemma_fold_block_scoped(*body, f, g, unary, binary);
        },
        KindModel::Unary { arg, .. } => lemma_fold_scoped(*arg, f, g, unary, binary),
        KindModel::Binary { lhs, rhs, .. } => {
            lemma_fold_scoped(*lhs, f, g, unary, binary);
            lemma_fold_scoped(*rhs, f, g, unary, binary);
        },
        KindModel::Compare { lhs, rhs, .. } => {
            lemma_fold_scoped(*lhs, f, g, unary, binary);
            lemma_fold_scoped(*rhs, f, g, unary, binary);
        },
        KindModel::NearEq { lhs, rhs, .. } => {
            lemma_fold_scoped(*lhs, f, g, unary, binary);
            lemma_fold_scoped(*rhs, f, g, unary, binary);
        },
        KindModel::DynamicIndex(index) => lemma_fold_scoped(*index, f, g, unary, binary),
        KindModel::Block(block) => lemma_fold_block_scoped(*block, f, g, unary, binary),
        KindModel::Fold { terms, .. } => lemma_fold_seq_scoped(terms, f, g, unary, binary),
        _ => {},
    }
}

/// [`lemma_fold_scoped`] for each term of a run.
pub proof fn lemma_fold_seq_scoped<U: Fn(UnaryOp, u64) -> u64, B: Fn(BinaryOp, u64, u64) -> u64>(
    terms: Seq<ExprModel>,
    f: nat,
    g: nat,
    unary: U,
    binary: B,
)
    requires
        forall|i: int| 0 <= i < terms.len() ==> scoped(#[trigger] terms[i], f, g),
        folded_seq(terms, unary, binary) is Ok,
    ensures
        folded_seq(terms, unary, binary)->Ok_0.len() == terms.len(),
        forall|i: int| 0 <= i < terms.len() ==> scoped(#[trigger] folded_seq(terms, unary, binary)->Ok_0[i], f, g),
    decreases terms,
{
    if terms.len() > 0 {
        let rest = terms.drop_last();
        assert forall|i: int| 0 <= i < rest.len() implies scoped(#[trigger] rest[i], f, g) by {
            assert(rest[i] == terms[i]);
        }
        lemma_fold_seq_scoped(rest, f, g, unary, binary);
        lemma_fold_scoped(terms.last(), f, g, unary, binary);
        let done = folded_seq(rest, unary, binary)->Ok_0;
        let out = folded_seq(terms, unary, binary)->Ok_0;
        assert forall|i: int| 0 <= i < terms.len() implies scoped(#[trigger] out[i], f, g) by {
            if i < rest.len() {
                assert(out[i] == done[i]);
            }
        }
    }
}

/// [`lemma_fold_scoped`] for each assignment of a run.
pub proof fn lemma_fold_assignments_scoped<U: Fn(UnaryOp, u64) -> u64, B: Fn(BinaryOp, u64, u64) -> u64>(
    assignments: Seq<AssignmentModel>,
    g: nat,
    unary: U,
    binary: B,
)
    requires
        forall|i: int|
            0 <= i < assignments.len() ==> scoped(
                #[trigger] assignments[i].value,
                assignments[i].slot.0 as nat,
                g,
            ),
        folded_assignments(assignments, unary, binary) is Ok,
    ensures
        folded_assignments(assignments, unary, binary)->Ok_0.len() == assignments.len(),
        forall|i: int|
            0 <= i < assignments.len() ==> {
                let a = #[trigger] folded_assignments(assignments, unary, binary)->Ok_0[i];
                &&& a.slot == assignments[i].slot
                &&& scoped(a.value, a.slot.0 as nat, g)
            },
    decreases assignments,
{
    if assignments.len() > 0 {
        let rest = assignments.drop_last();
        assert forall|i: int| 0 <= i < rest.len() implies scoped(#[trigger] rest[i].value, rest[i].slot.0 as nat, g) by {
            assert(rest[i] == assignments[i]);
        }
        lemma_fold_assignments_scoped(rest, g, unary, binary);
        let last = assignments.last();
        lemma_fold_scoped(last.value, last.slot.0 as nat, g, unary, binary);
        let done = folded_assignments(rest, unary, binary)->Ok_0;
        let out = folded_assignments(assignments, unary, binary)->Ok_0;
        assert forall|i: int| 0 <= i < assignments.len() implies {
            let a = #[trigger] out[i];
            &&& a.slot == assignments[i].slot
            &&& scoped(a.value, a.slot.0 as nat, g)
        } by {
            if i < rest.len() {
                assert(out[i] == done[i]);
                assert(rest[i] == assignments[i]);
            }
        }
    }
}

/// [`lemma_fold_scoped`] for a block.
pub proof fn lemma_fold_block_scoped<U: Fn(UnaryOp, u64) -> u64, B: Fn(BinaryOp, u64, u64) -> u64>(
    b: BlockModel,
    f: nat,
    g: nat,
    unary: U,
    binary: B,
)
    requires
        scoped_block(b, f, g),
        folded_block(b, unary, binary) is Ok,
    ensures
        scoped_block(folded_block(b, unary, binary)->Ok_0, f, g),
    decreases b,
{
    assert forall|i: int| 0 <= i < b.assignments.len() implies scoped(
        #[trigger] b.assignments[i].value,
        b.assignments[i].slot.0 as nat,
        g,
    ) by {
        let a = b.assignments[i];
        assert(scoped(a.value, a.slot.0 as nat, g));
    }
    lemma_fold_assignments_scoped(b.assignments, g, unary, binary);
    lemma_fold_scoped(b.result, f, g, unary, binary);
    let out = folded_block(b, unary, binary)->Ok_0;
    assert forall|i: int| 0 <= i < out.assignments.len() implies {
        let a = #[trigger] out.assignments[i];
        &&& a.slot.0 < f
        &&& scoped(a.value, a.slot.0 as nat, g)
    } by {
        assert(out.assignments[i].slot == b.assignments[i].slot);
    }
}

/// What folding refuses is a constant that is not finite.
pub proof fn lemma_fold_faults_are_non_finite<U: Fn(UnaryOp, u64) -> u64, B: Fn(BinaryOp, u64, u64) -> u64>(
    e: ExprModel,
    unary: U,
    binary: B,
)
    ensures
        folded(e, unary, binary) matches Err(f) ==> f.kind is NonFiniteConstant,
    decreases e,
{
    match e.kind {
        KindModel::Aggregate { lower, upper, body, .. } => {
            lemma_fold_faults_are_non_finite(*lower, unary, binary);
            lemma_fold_faults_are_non_finite(*upper, unary, binary);
            lemma_fold_block_faults_are_non_finite(*body, unary, binary);
        },
        KindModel::Unary { arg, .. } => lemma_fold_faults_are_non_finite(*arg, unary, binary),
        KindModel::Binary { lhs, rhs, .. } => {
            lemma_fold_faults_are_non_finite(*lhs, unary, binary);
            lemma_fold_faults_are_non_finite(*rhs, unary, binary);
        },
        KindModel::Compare { lhs, rhs, .. } => {
            lemma_fold_faults_are_non_finite(*lhs, unary, binary);
            lemma_fold_faults_are_non_finite(*rhs, unary, binary);
        },
        KindModel::NearEq { lhs, rhs, .. } => {
            lemma_fold_faults_are_non_finite(*lhs, unary, binary);
            lemma_fold_faults_are_non_finite(*rhs, unary, binary);
        },
        KindModel::DynamicIndex(index) => lemma_fold_faults_are_non_finite(*index, unary, binary),
        KindModel::Block(block) => lemma_fold_block_faults_are_non_finite(*block, unary, binary),
        KindModel::Fold { terms, .. } => lemma_fold_seq_faults_are_non_finite(terms, unary, binary),
        _ => {},
    }
}

/// [`lemma_fold_faults_are_non_finite`] for a run of terms.
pub proof fn lemma_fold_seq_faults_are_non_finite<U: Fn(UnaryOp, u64) -> u64, B: Fn(BinaryOp, u64, u64) -> u64>(
    terms: Seq<ExprModel>,
    unary: U,
    binary: B,
)
    ensures
        folded_seq(terms, unary, binary) matches Err(f) ==> f.kind is NonFiniteConstant,
    decreases terms,
{
    if terms.len() > 0 {
        lemma_fold_seq_faults_are_non_finite(terms.drop_last(), unary, binary);
        lemma_fold_faults_are_non_finite(terms.last(), unary, binary);
    }
}

/// [`lemma_fold_faults_are_non_finite`] for a run of assignments.
pub proof fn lemma_fold_assignments_faults_are_non_finite<
    U: Fn(UnaryOp, u64) -> u64,
    B: Fn(BinaryOp, u64, u64) -> u64,
>(assignments: Seq<AssignmentModel>, unary: U, binary: B)
    ensures
        folded_assignments(assignments, unary, binary) matches Err(f) ==> f.kind is NonFiniteConstant,
    decreases assignments,
{
    if assignments.len() > 0 {
        lemma_fold_assignments_faults_are_non_finite(assignments.drop_last(), unary, binary);
        lemma_fold_faults_are_non_finite(assignments.last().value, unary, binary);
    }
}

/// [`lemma_fold_faults_are_non_finite`] for a block.
pub proof fn lemma_fold_block_faults_are_non_finite<U: Fn(UnaryOp, u64) -> u64, B: Fn(BinaryOp, u64, u64) -> u64>(
    b: BlockModel,
    unary: U,
    binary: B,
)
    ensures
        folded_block(b, unary, binary) matches Err(f) ==> f.kind is NonFiniteConstant,
    decreases b,
{
    lemma_fold_assignments_faults_are_non_finite(b.assignments, unary, binary);
    lemma_fold_faults_are_non_finite(b.result, unary, binary);
}

} // verus!
