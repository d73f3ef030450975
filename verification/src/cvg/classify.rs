//! What an equality lets a sampler conclude about the variables it mentions.
//!
//! Every constraint reaches the sampler as one residual, satisfied when
//! `<= 0`. An equality `a == b +/- t` is more than that: where one side is a
//! lone variable that the other side never names, that variable can be
//! *computed* from the others instead of searched for, and a point moved along
//! the free coordinates stays on the equality.
//!
//! This is a reading of the tree; it changes nothing. Anything it cannot read
//! is [`Shape::Opaque`], which is always safe: a caller that learns nothing
//! does what it did before.
use vstd::prelude::*;

use crate::ast::{clone_expr, BinaryOp, Block, Expr, ExprModel, GlobalId, Kind, KindModel, Program, UnaryOp};
use crate::ast::{AssignmentModel, BlockModel, ProgramModel};
use crate::frontend::rewrite::binary_model;
use crate::text::{append_text, copy_strings};
use crate::ast::scoped;
use crate::eval::lower::{block_aggregate_free, fits_tape, is_block_aggregate_free};
use crate::{compile, find_position, first_position, missing_symbols, Ast, CompiledExpression, Schema};

verus! {

// ------------------------------------------------------------ occurrences

/// How many times `v` is read in `e`.
pub open spec fn occurrences(e: ExprModel, v: GlobalId) -> nat
    decreases e,
{
    match e.kind {
        KindModel::Global(id) => if id == v {
            1
        } else {
            0
        },
        KindModel::Literal(_) => 0,
        KindModel::Local(_) => 0,
        KindModel::DynamicIndex(index) => occurrences(*index, v),
        KindModel::Unary { arg, .. } => occurrences(*arg, v),
        KindModel::Binary { lhs, rhs, .. } => occurrences(*lhs, v) + occurrences(*rhs, v),
        KindModel::Compare { lhs, rhs, .. } => occurrences(*lhs, v) + occurrences(*rhs, v),
        KindModel::NearEq { lhs, rhs, .. } => occurrences(*lhs, v) + occurrences(*rhs, v),
        KindModel::Aggregate { lower, upper, body, .. } => occurrences(*lower, v) + occurrences(*upper, v)
            + block_occurrences(*body, v),
        KindModel::Block(block) => block_occurrences(*block, v),
        KindModel::Fold { terms, .. } => terms_occurrences(terms, v),
    }
}

/// [`occurrences`] summed over a run of terms.
pub open spec fn terms_occurrences(terms: Seq<ExprModel>, v: GlobalId) -> nat
    decreases terms,
{
    if terms.len() == 0 {
        0
    } else {
        terms_occurrences(terms.drop_last(), v) + occurrences(terms.last(), v)
    }
}

/// [`occurrences`] summed over the values of a run of assignments.
pub open spec fn assignments_occurrences(assignments: Seq<AssignmentModel>, v: GlobalId) -> nat
    decreases assignments,
{
    if assignments.len() == 0 {
        0
    } else {
        assignments_occurrences(assignments.drop_last(), v) + occurrences(assignments.last().value, v)
    }
}

/// [`occurrences`] in a block: its assignments' values and its result.
pub open spec fn block_occurrences(b: BlockModel, v: GlobalId) -> nat
    decreases b,
{
    assignments_occurrences(b.assignments, v) + occurrences(b.result, v)
}

/// Whether `v` is read anywhere in `e`.
pub open spec fn mentions(e: ExprModel, v: GlobalId) -> bool {
    occurrences(e, v) > 0
}

/// A count, saturated at two: all the peeling below needs to know is none,
/// once, or more.
pub open spec fn capped(n: nat) -> u8 {
    if n >= 2 {
        2
    } else {
        n as u8
    }
}

fn add_capped(a: u8, b: u8) -> (c: u8)
    requires
        a <= 2,
        b <= 2,
    ensures
        c == capped((a + b) as nat),
{
    if a + b >= 2 {
        2
    } else {
        a + b
    }
}

/// How many times `v` is read in `e`, saturated at two.
fn count(e: &Expr, v: GlobalId) -> (c: u8)
    ensures
        c == capped(occurrences(e@, v)),
    decreases e,
{
    match &e.kind {
        Kind::Global(id) => if *id == v {
            1
        } else {
            0
        },
        Kind::Literal(_) => 0,
        Kind::Local(_) => 0,
        Kind::DynamicIndex(index) => count(index, v),
        Kind::Unary { arg, .. } => count(arg, v),
        Kind::Binary { lhs, rhs, .. } => add_capped(count(lhs, v), count(rhs, v)),
        Kind::Compare { lhs, rhs, .. } => add_capped(count(lhs, v), count(rhs, v)),
        Kind::NearEq { lhs, rhs, .. } => add_capped(count(lhs, v), count(rhs, v)),
        Kind::Aggregate { lower, upper, body, .. } => {
            let bounds = add_capped(count(lower, v), count(upper, v));
            add_capped(bounds, count_block(body, v))
        },
        Kind::Block(block) => count_block(block, v),
        Kind::Fold { terms, .. } => {
            let ghost model = e@.kind->Fold_terms;
            let mut c: u8 = 0;
            let mut i: usize = 0;
            while i < terms.len()
                invariant
                    e.kind == (Kind::Fold { kind: e.kind->Fold_kind, terms: *terms }),
                    model == e@.kind->Fold_terms,
                    model.len() == terms@.len(),
                    forall|j: int| 0 <= j < terms@.len() ==> model[j] == (#[trigger] terms@[j])@,
                    i <= terms@.len(),
                    c == capped(terms_occurrences(model.take(i as int), v)),
                decreases terms@.len() - i,
            {
                assert(decreases_to!(*e => e.kind->Fold_terms@[i as int]));
                proof {
                    assert(model.take(i + 1).drop_last() =~= model.take(i as int));
                    assert(model.take(i + 1).last() == model[i as int]);
                }
                c = add_capped(c, count(&terms[i], v));
                i += 1;
            }
            proof {
                assert(model.take(model.len() as int) =~= model);
            }
            c
        },
    }
}

/// How many times `v` is read in `b`, saturated at two.
fn count_block(b: &Block, v: GlobalId) -> (c: u8)
    ensures
        c == capped(block_occurrences(b@, v)),
    decreases b,
{
    let ghost model = b@.assignments;
    let mut c: u8 = 0;
    let mut i: usize = 0;
    while i < b.assignments.len()
        invariant
            model == b@.assignments,
            model.len() == b.assignments@.len(),
            i <= b.assignments@.len(),
            c == capped(assignments_occurrences(model.take(i as int), v)),
        decreases b.assignments@.len() - i,
    {
        assert(decreases_to!(*b => b.assignments@[i as int].value));
        proof {
            assert(model.take(i + 1).drop_last() =~= model.take(i as int));
            assert(model.take(i + 1).last() == model[i as int]);
        }
        c = add_capped(c, count(&b.assignments[i].value, v));
        i += 1;
    }
    proof {
        assert(model.take(model.len() as int) =~= model);
    }
    add_capped(c, count(&b.result, v))
}

/// Adds every global read in `e` to `found`.
fn collect(e: &Expr, found: &mut Vec<GlobalId>)
    ensures
        forall|v: GlobalId| #[trigger] final(found)@.contains(v) <==> old(found)@.contains(v) || mentions(e@, v),
    decreases e,
{
    match &e.kind {
        Kind::Global(id) => {
            let ghost before = found@;
            found.push(*id);
            proof {
                broadcast use vstd::seq_lib::lemma_seq_contains_after_push;

                assert(found@ == before.push(*id));
            }
        },
        Kind::Literal(_) => {},
        Kind::Local(_) => {},
        Kind::DynamicIndex(index) => collect(index, found),
        Kind::Unary { arg, .. } => collect(arg, found),
        Kind::Binary { lhs, rhs, .. } => {
            collect(lhs, found);
            collect(rhs, found);
        },
        Kind::Compare { lhs, rhs, .. } => {
            collect(lhs, found);
            collect(rhs, found);
        },
        Kind::NearEq { lhs, rhs, .. } => {
            collect(lhs, found);
            collect(rhs, found);
        },
        Kind::Aggregate { lower, upper, body, .. } => {
            collect(lower, found);
            collect(upper, found);
            collect_block(body, found);
        },
        Kind::Block(block) => collect_block(block, found),
        Kind::Fold { terms, .. } => {
            let ghost model = e@.kind->Fold_terms;
            let ghost before = found@;
            let mut i: usize = 0;
            while i < terms.len()
                invariant
                    e.kind == (Kind::Fold { kind: e.kind->Fold_kind, terms: *terms }),
                    model == e@.kind->Fold_terms,
                    model.len() == terms@.len(),
                    forall|j: int| 0 <= j < terms@.len() ==> model[j] == (#[trigger] terms@[j])@,
                    i <= terms@.len(),
                    forall|v: GlobalId|
                        #[trigger] found@.contains(v) <==> before.contains(v) || terms_occurrences(model.take(i as int), v) > 0,
                decreases terms@.len() - i,
            {
                assert(decreases_to!(*e => e.kind->Fold_terms@[i as int]));
                proof {
                    assert(model.take(i + 1).drop_last() =~= model.take(i as int));
                    assert(model.take(i + 1).last() == model[i as int]);
                }
                let ghost previous = found@;
                collect(&terms[i], found);
                proof {
                    assert forall|v: GlobalId|
                        found@.contains(v) <==> before.contains(v) || terms_occurrences(model.take(i + 1), v) > 0 by {
                        assert(terms_occurrences(model.take(i + 1), v) == terms_occurrences(model.take(i as int), v)
                            + occurrences(terms@[i as int]@, v));
                        assert(previous.contains(v) <==> before.contains(v) || terms_occurrences(
                            model.take(i as int),
                            v,
                        ) > 0);
                    }
                }
                i += 1;
            }
            proof {
                assert(model.take(model.len() as int) =~= model);
            }
        },
    }
}

/// Adds every global read in `b` to `found`.
fn collect_block(b: &Block, found: &mut Vec<GlobalId>)
    ensures
        forall|v: GlobalId| #[trigger] final(found)@.contains(v) <==> old(found)@.contains(v) || block_occurrences(b@, v) > 0,
    decreases b,
{
    let ghost model = b@.assignments;
    let ghost before = found@;
    let mut i: usize = 0;
    while i < b.assignments.len()
        invariant
            model == b@.assignments,
            model.len() == b.assignments@.len(),
            i <= b.assignments@.len(),
            forall|v: GlobalId|
                #[trigger] found@.contains(v) <==> before.contains(v) || assignments_occurrences(model.take(i as int), v) > 0,
        decreases b.assignments@.len() - i,
    {
        assert(decreases_to!(*b => b.assignments@[i as int].value));
        proof {
            assert(model.take(i + 1).drop_last() =~= model.take(i as int));
            assert(model.take(i + 1).last() == model[i as int]);
        }
        let ghost previous = found@;
        collect(&b.assignments[i].value, found);
        proof {
            assert forall|v: GlobalId|
                found@.contains(v) <==> before.contains(v) || assignments_occurrences(model.take(i + 1), v) > 0 by {
                assert(assignments_occurrences(model.take(i + 1), v) == assignments_occurrences(model.take(i as int), v)
                    + occurrences(b.assignments@[i as int].value@, v));
                assert(previous.contains(v) <==> before.contains(v) || assignments_occurrences(
                    model.take(i as int),
                    v,
                ) > 0);
            }
        }
        i += 1;
    }
    proof {
        assert(model.take(model.len() as int) =~= model);
    }
    collect(&b.result, found);
}

// ------------------------------------------------------------ isolation

/// `other` carried across one arithmetic node: `side == other`, with `side`
/// the node `op` whose operand holding the variable is on the left when
/// `left`, becomes `operand == result`.
///
/// | node | variable on the left | variable on the right |
/// |---|---|---|
/// | `u + b == c` | `u == c - b` | `u == c - a` |
/// | `u - b == c` | `u == c + b` | `u == a - c` |
/// | `u * b == c` | `u == c / b` | `u == c / a` |
/// | `u / b == c` | `u == c * b` | `u == a / c` |
///
/// Any other operator has no inverse here.
pub open spec fn carried(op: BinaryOp, left: bool, other: ExprModel, moved: ExprModel, span: crate::diagnostics::Span) -> Option<
    ExprModel,
> {
    match op {
        BinaryOp::Add => Some(binary_model(BinaryOp::Sub, other, moved, span)),
        BinaryOp::Sub => if left {
            Some(binary_model(BinaryOp::Add, other, moved, span))
        } else {
            Some(binary_model(BinaryOp::Sub, moved, other, span))
        },
        BinaryOp::Mul => Some(binary_model(BinaryOp::Div, other, moved, span)),
        BinaryOp::Div => if left {
            Some(binary_model(BinaryOp::Mul, other, moved, span))
        } else {
            Some(binary_model(BinaryOp::Div, moved, other, span))
        },
        _ => None,
    }
}

/// The definition of `v` peeled out of `side == other`: descend into the
/// operand holding `v`, carrying the rest of each node across, until the
/// descent lands on `v` itself. Only negation and the four field operations
/// are peeled; anything else has no definition. Built nodes take the span of
/// the node they replace.
pub open spec fn isolated(side: ExprModel, other: ExprModel, v: GlobalId) -> Option<ExprModel>
    decreases side,
{
    match side.kind {
        KindModel::Global(id) => if id == v {
            Some(other)
        } else {
            None
        },
        KindModel::Unary { op, arg } => if op == UnaryOp::Negate {
            isolated(
                *arg,
                ExprModel { kind: KindModel::Unary { op: UnaryOp::Negate, arg: Box::new(other) }, span: side.span },
                v,
            )
        } else {
            None
        },
        KindModel::Binary { op, lhs, rhs } => if mentions(*lhs, v) {
            match carried(op, true, other, *rhs, side.span) {
                Some(c) => isolated(*lhs, c, v),
                None => None,
            }
        } else {
            match carried(op, false, other, *lhs, side.span) {
                Some(c) => isolated(*rhs, c, v),
                None => None,
            }
        },
        _ => None,
    }
}

fn carry(op: BinaryOp, left: bool, other: Expr, moved: Expr, span: crate::diagnostics::Span) -> (r: Option<Expr>)
    ensures
        match (r, carried(op, left, other@, moved@, span)) {
            (Some(e), Some(m)) => e@ == m,
            (None, None) => true,
            _ => false,
        },
{
    let (op, lhs, rhs) = match op {
        BinaryOp::Add => (BinaryOp::Sub, other, moved),
        BinaryOp::Sub => if left {
            (BinaryOp::Add, other, moved)
        } else {
            (BinaryOp::Sub, moved, other)
        },
        BinaryOp::Mul => (BinaryOp::Div, other, moved),
        BinaryOp::Div => if left {
            (BinaryOp::Mul, other, moved)
        } else {
            (BinaryOp::Div, moved, other)
        },
        _ => return None,
    };
    Some(Expr::new(Kind::Binary { op, lhs: Box::new(lhs), rhs: Box::new(rhs) }, span))
}

/// [`isolated`]: the definition of `v` peeled out of `side == other`.
fn isolate(side: &Expr, other: Expr, v: GlobalId) -> (r: Option<Expr>)
    ensures
        match (r, isolated(side@, other@, v)) {
            (Some(e), Some(m)) => e@ == m,
            (None, None) => true,
            _ => false,
        },
    decreases side,
{
    match &side.kind {
        Kind::Global(id) => if *id == v {
            Some(other)
        } else {
            None
        },
        Kind::Unary { op, arg } => match op {
            UnaryOp::Negate => {
                let negated = Expr::new(Kind::Unary { op: UnaryOp::Negate, arg: Box::new(other) }, side.span);
                isolate(arg, negated, v)
            },
            _ => None,
        },
        Kind::Binary { op, lhs, rhs } => {
            if count(lhs, v) > 0 {
                let moved = clone_expr(rhs);
                match carry(*op, true, other, moved, side.span) {
                    Some(c) => isolate(lhs, c, v),
                    None => None,
                }
            } else {
                let moved = clone_expr(lhs);
                match carry(*op, false, other, moved, side.span) {
                    Some(c) => isolate(rhs, c, v),
                    None => None,
                }
            }
        },
        _ => None,
    }
}

/// Peeling a variable read once out of one side, where the other side does
/// not read it, leaves a definition that does not read it either: the
/// variable ends up computed from the others, never from itself.
pub proof fn lemma_isolated_is_free_of_its_variable(side: ExprModel, other: ExprModel, v: GlobalId)
    requires
        occurrences(side, v) == 1,
        !mentions(other, v),
        isolated(side, other, v) is Some,
    ensures
        !mentions(isolated(side, other, v)->Some_0, v),
    decreases side,
{
    match side.kind {
        KindModel::Unary { op, arg } => {
            lemma_isolated_is_free_of_its_variable(
                *arg,
                ExprModel { kind: KindModel::Unary { op: UnaryOp::Negate, arg: Box::new(other) }, span: side.span },
                v,
            );
        },
        KindModel::Binary { op, lhs, rhs } => {
            if mentions(*lhs, v) {
                lemma_isolated_is_free_of_its_variable(*lhs, carried(op, true, other, *rhs, side.span)->Some_0, v);
            } else {
                lemma_isolated_is_free_of_its_variable(*rhs, carried(op, false, other, *lhs, side.span)->Some_0, v);
            }
        },
        _ => {},
    }
}

// ------------------------------------------------------------ shapes

/// What one equality lets a sampler conclude.
#[derive(Debug)]
pub enum Shape {
    /// `x == pi +/- t`: one variable equals an expression naming no variable
    /// at all, so that coordinate has nothing to search.
    Pinned { variable: GlobalId, value: Ast, tolerance: u64 },
    /// `y == sin(x) +/- t`: the variable stands alone on one side, or can be
    /// peeled out of it, and the definition does not read it, so it is
    /// computed rather than searched.
    Driven { variable: GlobalId, from: Ast, tolerance: u64 },
    /// `x == sin(x)`: a variable named on both sides, so the equality is
    /// implicit in it. The same set written with the variable on one side is
    /// explicit.
    Implicit { variable: GlobalId },
    /// Nothing structural to say, including anything that is not an equality.
    Opaque,
}

/// A [`Shape`] with each definition reduced to its expression.
pub ghost enum ShapeModel {
    Pinned { variable: GlobalId, value: ExprModel, tolerance: u64 },
    Driven { variable: GlobalId, from: ExprModel, tolerance: u64 },
    Implicit { variable: GlobalId },
    Opaque,
}

impl View for Shape {
    type V = ShapeModel;

    open spec fn view(&self) -> ShapeModel {
        match *self {
            Shape::Pinned { variable, value, tolerance } => ShapeModel::Pinned {
                variable,
                value: value.spec_program()@.body.result,
                tolerance,
            },
            Shape::Driven { variable, from, tolerance } => ShapeModel::Driven {
                variable,
                from: from.spec_program()@.body.result,
                tolerance,
            },
            Shape::Implicit { variable } => ShapeModel::Implicit { variable },
            Shape::Opaque => ShapeModel::Opaque,
        }
    }
}

/// `v` is read on both sides.
pub open spec fn shared(lhs: ExprModel, rhs: ExprModel, v: GlobalId) -> bool {
    mentions(lhs, v) && mentions(rhs, v)
}

/// The shared variable of least id.
pub open spec fn least_shared(lhs: ExprModel, rhs: ExprModel) -> GlobalId {
    choose|v: GlobalId|
        shared(lhs, rhs, v) && forall|w: GlobalId| #[trigger] shared(lhs, rhs, w) ==> v.spec_index() <= w.spec_index()
}

/// The side of `lhs == rhs` that reads `v`, and the other one.
pub open spec fn side_of(lhs: ExprModel, rhs: ExprModel, v: GlobalId) -> ExprModel {
    if mentions(lhs, v) {
        lhs
    } else {
        rhs
    }
}

pub open spec fn other_of(lhs: ExprModel, rhs: ExprModel, v: GlobalId) -> ExprModel {
    if mentions(lhs, v) {
        rhs
    } else {
        lhs
    }
}

/// `v` is read exactly once in `lhs == rhs`, and can be peeled out of its
/// side.
pub open spec fn isolable(lhs: ExprModel, rhs: ExprModel, v: GlobalId) -> bool {
    &&& occurrences(lhs, v) + occurrences(rhs, v) == 1
    &&& isolated(side_of(lhs, rhs, v), other_of(lhs, rhs, v), v) is Some
}

/// The isolable variable of least id.
pub open spec fn least_isolable(lhs: ExprModel, rhs: ExprModel) -> GlobalId {
    choose|v: GlobalId|
        isolable(lhs, rhs, v) && forall|w: GlobalId| #[trigger] isolable(lhs, rhs, w) ==> v.spec_index() <= w.spec_index()
}

/// The magnitude of a binary64 value: its sign bit cleared.
pub open spec fn magnitude_bits(bits: u64) -> u64 {
    bits & 0x7fff_ffff_ffff_ffffu64
}

/// `v` alone on one side and `other` on the other: pinned when `other`
/// reads no variable, driven otherwise.
pub open spec fn bare_shape(v: GlobalId, other: ExprModel, tolerance: u64) -> ShapeModel {
    if exists|w: GlobalId| mentions(other, w) {
        ShapeModel::Driven { variable: v, from: other, tolerance }
    } else {
        ShapeModel::Pinned { variable: v, value: other, tolerance }
    }
}

/// The shape of a constraint whose tree is `body`.
///
/// Anything with a dynamic lookup (which may read a variable it never
/// names), anything that is not a constraint, and a block with bindings are
/// opaque, as is every constraint that is not an equality. Of an equality:
/// a variable read on both sides makes it implicit in the least such id;
/// otherwise a side that is a lone variable (the left first) makes that
/// variable pinned or driven by the other side; otherwise the least id read
/// exactly once that can be peeled out of its side is driven by what the
/// peeling leaves; otherwise it is opaque. The tolerance is kept as a
/// magnitude.
pub open spec fn shape_of(body: BlockModel, dynamic: bool, constraint: bool) -> ShapeModel {
    if dynamic || !constraint || body.assignments.len() != 0 {
        ShapeModel::Opaque
    } else {
        match body.result.kind {
            KindModel::NearEq { lhs, rhs, tolerance } => {
                let tolerance = magnitude_bits(tolerance);
                if exists|v: GlobalId| shared(*lhs, *rhs, v) {
                    ShapeModel::Implicit { variable: least_shared(*lhs, *rhs) }
                } else if lhs.kind is Global {
                    bare_shape(lhs.kind->Global_0, *rhs, tolerance)
                } else if rhs.kind is Global {
                    bare_shape(rhs.kind->Global_0, *lhs, tolerance)
                } else if exists|v: GlobalId| isolable(*lhs, *rhs, v) {
                    let v = least_isolable(*lhs, *rhs);
                    ShapeModel::Driven {
                        variable: v,
                        from: isolated(side_of(*lhs, *rhs, v), other_of(*lhs, *rhs, v), v)->Some_0,
                        tolerance,
                    }
                } else {
                    ShapeModel::Opaque
                }
            },
            _ => ShapeModel::Opaque,
        }
    }
}

/// How a detached side names itself in diagnostics: by its shape, since the
/// parent's spans no longer index its text.
pub open spec fn side_label(side: ExprModel) -> Seq<char> {
    match side.kind {
        KindModel::Literal(_) => "literal"@,
        KindModel::Global(_) => "variable"@,
        _ => "expression"@,
    }
}

/// `a` is `side` standing alone as a scalar expression of `parent`: the same
/// symbols, frame and dynamic-lookup flag, no bindings, not a constraint,
/// and a source naming the side and the parent.
pub open spec fn detached(a: Ast, parent: Ast, side: ExprModel) -> bool {
    &&& a.spec_program()@ == (ProgramModel {
        body: BlockModel { assignments: Seq::empty(), result: side },
        frame_size: parent.spec_program().frame_size,
    })
    &&& a.spec_symbols() == parent.spec_symbols()
    &&& a.spec_contains_dynamic_lookup() == parent.spec_contains_dynamic_lookup()
    &&& !a.spec_is_constraint()
    &&& a.spec_source() == side_label(side) + " [from "@ + parent.spec_source() + "]"@
}

/// `side` as a standalone scalar expression sharing `parent`'s symbols.
fn detach(parent: &Ast, side: Expr) -> (a: Ast)
    ensures
        detached(a, *parent, side@),
{
    let label = match &side.kind {
        Kind::Literal(_) => "literal",
        Kind::Global(_) => "variable",
        _ => "expression",
    };
    let mut source = String::new();
    append_text(&mut source, label);
    append_text(&mut source, " [from ");
    append_text(&mut source, parent.source());
    append_text(&mut source, "]");
    proof {
        assert(source@ =~= side_label(side@) + " [from "@ + parent.spec_source() + "]"@);
    }
    let ghost result = side@;
    let program = Program {
        body: Block { assignments: Vec::new(), result: side },
        frame_size: parent.program().frame_size,
    };
    proof {
        assert(program@.body.assignments =~= Seq::<AssignmentModel>::empty());
    }
    let symbols = copy_strings(parent.symbols());
    Ast::from_parts(source.as_str(), program, symbols, parent.contains_dynamic_lookup(), false)
}

/// The only id satisfying the least-shared property is the one chosen.
proof fn lemma_least_shared(lhs: ExprModel, rhs: ExprModel, v: GlobalId)
    requires
        shared(lhs, rhs, v),
        forall|w: GlobalId| #[trigger] shared(lhs, rhs, w) ==> v.spec_index() <= w.spec_index(),
    ensures
        least_shared(lhs, rhs) == v,
{
    let c = least_shared(lhs, rhs);
    assert(shared(lhs, rhs, c));
    GlobalId::lemma_ids_are_their_index(c, v);
}

/// The only id satisfying the least-isolable property is the one chosen.
proof fn lemma_least_isolable(lhs: ExprModel, rhs: ExprModel, v: GlobalId)
    requires
        isolable(lhs, rhs, v),
        forall|w: GlobalId| #[trigger] isolable(lhs, rhs, w) ==> v.spec_index() <= w.spec_index(),
    ensures
        least_isolable(lhs, rhs) == v,
{
    let c = least_isolable(lhs, rhs);
    assert(isolable(lhs, rhs, c));
    GlobalId::lemma_ids_are_their_index(c, v);
}

/// Of `candidates`, which are the variables `lhs` reads, the shared one of
/// least id.
fn find_least_shared(candidates: &Vec<GlobalId>, lhs: &Expr, rhs: &Expr) -> (r: Option<GlobalId>)
    requires
        forall|v: GlobalId| #[trigger] candidates@.contains(v) <==> mentions(lhs@, v),
    ensures
        match r {
            Some(v) => shared(lhs@, rhs@, v) && forall|w: GlobalId| #[trigger] shared(lhs@, rhs@, w) ==> v.spec_index()
                <= w.spec_index(),
            None => forall|w: GlobalId| !shared(lhs@, rhs@, w),
        },
{
    let mut best: Option<GlobalId> = None;
    let mut i: usize = 0;
    while i < candidates.len()
        invariant
            i <= candidates@.len(),
            forall|v: GlobalId| #[trigger] candidates@.contains(v) <==> mentions(lhs@, v),
            match best {
                Some(v) => shared(lhs@, rhs@, v) && forall|j: int|
                    0 <= j < i && shared(lhs@, rhs@, #[trigger] candidates@[j]) ==> v.spec_index() <= candidates@[j].spec_index(),
                None => forall|j: int| 0 <= j < i ==> !shared(lhs@, rhs@, #[trigger] candidates@[j]),
            },
        decreases candidates@.len() - i,
    {
        let c = candidates[i];
        assert(candidates@.contains(c));
        if count(rhs, c) > 0 {
            match best {
                Some(b) => {
                    if c.index() < b.index() {
                        best = Some(c);
                    }
                },
                None => {
                    best = Some(c);
                },
            }
        }
        i += 1;
    }
    proof {
        assert forall|w: GlobalId| #[trigger] shared(lhs@, rhs@, w) implies best matches Some(v) && v.spec_index()
            <= w.spec_index() by {
            assert(candidates@.contains(w));
            let j = choose|j: int| 0 <= j < candidates@.len() && candidates@[j] == w;
            assert(shared(lhs@, rhs@, candidates@[j]));
        }
    }
    best
}

/// Of `candidates`, which are the variables `lhs == rhs` reads, the
/// isolable one of least id and its definition.
fn find_least_isolable(candidates: &Vec<GlobalId>, lhs: &Expr, rhs: &Expr) -> (r: Option<(GlobalId, Expr)>)
    requires
        forall|v: GlobalId| #[trigger] candidates@.contains(v) <==> mentions(lhs@, v) || mentions(rhs@, v),
    ensures
        match r {
            Some((v, d)) => isolable(lhs@, rhs@, v) && (forall|w: GlobalId| #[trigger] isolable(lhs@, rhs@, w) ==> v.spec_index()
                <= w.spec_index()) && d@ == isolated(side_of(lhs@, rhs@, v), other_of(lhs@, rhs@, v), v)->Some_0,
            None => forall|w: GlobalId| !isolable(lhs@, rhs@, w),
        },
{
    let mut best: Option<(GlobalId, Expr)> = None;
    let mut i: usize = 0;
    while i < candidates.len()
        invariant
            i <= candidates@.len(),
            forall|v: GlobalId| #[trigger] candidates@.contains(v) <==> mentions(lhs@, v) || mentions(rhs@, v),
            match best {
                Some((v, d)) => isolable(lhs@, rhs@, v) && d@ == isolated(
                    side_of(lhs@, rhs@, v),
                    other_of(lhs@, rhs@, v),
                    v,
                )->Some_0 && forall|j: int|
                    0 <= j < i && isolable(lhs@, rhs@, #[trigger] candidates@[j]) ==> v.spec_index()
                        <= candidates@[j].spec_index(),
                None => forall|j: int| 0 <= j < i ==> !isolable(lhs@, rhs@, #[trigger] candidates@[j]),
            },
        decreases candidates@.len() - i,
    {
        let c = candidates[i];
        let in_left = count(lhs, c);
        let once = add_capped(in_left, count(rhs, c)) == 1;
        let better = match &best {
            Some((b, _)) => c.index() < b.index(),
            None => true,
        };
        if once && better {
            let attempt = if in_left > 0 {
                isolate(lhs, clone_expr(rhs), c)
            } else {
                isolate(rhs, clone_expr(lhs), c)
            };
            match attempt {
                Some(d) => {
                    best = Some((c, d));
                },
                None => {},
            }
        }
        i += 1;
    }
    proof {
        assert forall|w: GlobalId| #[trigger] isolable(lhs@, rhs@, w) implies best matches Some((v, _)) && v.spec_index()
            <= w.spec_index() by {
            assert(mentions(lhs@, w) || mentions(rhs@, w));
            assert(candidates@.contains(w));
            let j = choose|j: int| 0 <= j < candidates@.len() && candidates@[j] == w;
            assert(isolable(lhs@, rhs@, candidates@[j]));
        }
    }
    best
}

/// `v` alone on one side of `constraint` and `other` on the other.
fn bare(constraint: &Ast, v: GlobalId, other: &Expr, tolerance: u64) -> (s: Shape)
    ensures
        s@ == bare_shape(v, other@, tolerance),
        s matches Shape::Pinned { value, .. } ==> detached(value, *constraint, other@),
        s matches Shape::Driven { from, .. } ==> detached(from, *constraint, other@),
        constraint.well_formed() && scoped(other@, constraint.spec_program().frame_size as nat, constraint.spec_symbols().len() as nat)
            ==> (s matches Shape::Pinned { value, .. } ==> value.well_formed()),
        constraint.well_formed() && scoped(other@, constraint.spec_program().frame_size as nat, constraint.spec_symbols().len() as nat)
            ==> (s matches Shape::Driven { from, .. } ==> from.well_formed()),
{
    let mut found: Vec<GlobalId> = Vec::new();
    collect(other, &mut found);
    let from = detach(constraint, clone_expr(other));
    proof {
        constraint.lemma_well_formed();
        from.lemma_well_formed();
    }
    if found.len() == 0 {
        proof {
            assert forall|w: GlobalId| !mentions(other@, w) by {
                assert(!found@.contains(w));
            }
        }
        Shape::Pinned { variable: v, value: from, tolerance }
    } else {
        assert(found@.contains(found@[0]));
        Shape::Driven { variable: v, from, tolerance }
    }
}

/// The shape of one constraint; see [`shape_of`]. A pinned or driven
/// definition is the other side [`detached`] from the constraint.
#[verifier::spinoff_prover]
pub fn shape(constraint: &Ast) -> (s: Shape)
    ensures
        s@ == shape_of(
            constraint.spec_program()@.body,
            constraint.spec_contains_dynamic_lookup(),
            constraint.spec_is_constraint(),
        ),
        s matches Shape::Pinned { value, .. } ==> detached(value, *constraint, value.spec_program()@.body.result),
        s matches Shape::Driven { from, .. } ==> detached(from, *constraint, from.spec_program()@.body.result),
        // A driven variable is never read by its own definition, and a pinned
        // one's value reads no variable at all: either way the coordinate is
        // computed from the others.
        s@ matches ShapeModel::Driven { variable, from, .. } ==> !mentions(from, variable),
        s@ matches ShapeModel::Pinned { value, .. } ==> forall|w: GlobalId| !mentions(value, w),
        constraint.well_formed() ==> (s matches Shape::Pinned { value, .. } ==> value.well_formed()),
        constraint.well_formed() ==> (s matches Shape::Driven { from, .. } ==> from.well_formed()),
{
    if constraint.contains_dynamic_lookup() || !constraint.is_constraint() {
        return Shape::Opaque;
    }
    let body = &constraint.program().body;
    if body.assignments.len() != 0 {
        return Shape::Opaque;
    }
    let (lhs, rhs, tolerance) = match &body.result.kind {
        Kind::NearEq { lhs, rhs, tolerance } => (lhs, rhs, *tolerance & 0x7fff_ffff_ffff_ffffu64),
        _ => return Shape::Opaque,
    };
    let ghost frame = constraint.spec_program().frame_size as nat;
    let ghost globals = constraint.spec_symbols().len() as nat;
    proof {
        constraint.lemma_well_formed();
        if constraint.well_formed() {
            assert(scoped(body@.result, frame, globals));
            assert(scoped(lhs@, frame, globals) && scoped(rhs@, frame, globals));
        }
    }
    let mut found: Vec<GlobalId> = Vec::new();
    collect(lhs, &mut found);
    match find_least_shared(&found, lhs, rhs) {
        Some(v) => {
            proof {
                lemma_least_shared(lhs@, rhs@, v);
            }
            return Shape::Implicit { variable: v };
        },
        None => {},
    }
    match &lhs.kind {
        Kind::Global(v) => {
            proof {
                assert(lhs@.kind == KindModel::Global(*v));
                assert(occurrences(lhs@, *v) == 1);
                assert(!shared(lhs@, rhs@, *v));
            }
            return bare(constraint, *v, rhs, tolerance);
        },
        _ => {
            assert(!(lhs@.kind is Global));
        },
    }
    match &rhs.kind {
        Kind::Global(v) => {
            proof {
                assert(rhs@.kind == KindModel::Global(*v));
                assert(occurrences(rhs@, *v) == 1);
                assert(!shared(lhs@, rhs@, *v));
            }
            return bare(constraint, *v, lhs, tolerance);
        },
        _ => {
            assert(!(rhs@.kind is Global));
        },
    }
    collect(rhs, &mut found);
    match find_least_isolable(&found, lhs, rhs) {
        Some((v, definition)) => {
            proof {
                lemma_least_isolable(lhs@, rhs@, v);
                lemma_isolated_is_free_of_its_variable(side_of(lhs@, rhs@, v), other_of(lhs@, rhs@, v), v);
                if constraint.well_formed() {
                    lemma_isolated_scoped(side_of(lhs@, rhs@, v), other_of(lhs@, rhs@, v), v, frame, globals);
                }
            }
            let from = detach(constraint, definition);
            proof {
                from.lemma_well_formed();
            }
            Shape::Driven { variable: v, from, tolerance }
        },
        None => Shape::Opaque,
    }
}

// ------------------------------------------------------------ plans

/// Peeling keeps a definition within the scope of what it was peeled from.
proof fn lemma_isolated_scoped(side: ExprModel, other: ExprModel, v: GlobalId, frame: nat, globals: nat)
    requires
        scoped(side, frame, globals),
        scoped(other, frame, globals),
        isolated(side, other, v) is Some,
    ensures
        scoped(isolated(side, other, v)->Some_0, frame, globals),
    decreases side,
{
    match side.kind {
        KindModel::Unary { op, arg } => {
            lemma_isolated_scoped(
                *arg,
                ExprModel { kind: KindModel::Unary { op: UnaryOp::Negate, arg: Box::new(other) }, span: side.span },
                v,
                frame,
                globals,
            );
        },
        KindModel::Binary { op, lhs, rhs } => {
            if mentions(*lhs, v) {
                lemma_isolated_scoped(*lhs, carried(op, true, other, *rhs, side.span)->Some_0, v, frame, globals);
            } else {
                lemma_isolated_scoped(*rhs, carried(op, false, other, *lhs, side.span)->Some_0, v, frame, globals);
            }
        },
        _ => {},
    }
}

/// The variable a constraint defines and its definition and tolerance, when
/// its shape is pinned or driven.
pub open spec fn defined_by(c: Ast) -> Option<(GlobalId, ExprModel, u64)> {
    match shape_of(c.spec_program()@.body, c.spec_contains_dynamic_lookup(), c.spec_is_constraint()) {
        ShapeModel::Driven { variable, from, tolerance } => Some((variable, from, tolerance)),
        ShapeModel::Pinned { variable, value, tolerance } => Some((variable, value, tolerance)),
        _ => None,
    }
}

/// Where `v`, an id into `symbols`, sits in the schema `names`: the first
/// position of its name.
pub open spec fn position_in(names: Seq<String>, symbols: Seq<String>, v: GlobalId) -> Option<int> {
    if v.spec_index() < symbols.len() {
        first_position(names, symbols[v.spec_index() as int]@)
    } else {
        None
    }
}

/// A coordinate's definition: which constraint gave it, the expression, and
/// the equality's tolerance.
pub ghost struct Definition {
    pub constraint: int,
    pub expression: ExprModel,
    pub tolerance: u64,
}

/// The definition of each schema position after reading `cs` in order. A
/// position defined a second time is left undefined, since only one
/// definition can hold and choosing between them is not a structural
/// question; a third definition is then taken afresh. A variable the schema
/// does not name defines nothing.
pub open spec fn definitions(cs: Seq<Ast>, names: Seq<String>) -> Seq<Option<Definition>>
    decreases cs.len(),
{
    if cs.len() == 0 {
        Seq::new(names.len(), |p: int| None)
    } else {
        let before = definitions(cs.drop_last(), names);
        let c = cs.last();
        match defined_by(c) {
            None => before,
            Some((v, expression, tolerance)) => match position_in(names, c.spec_symbols(), v) {
                None => before,
                Some(p) => if before[p] is Some {
                    before.update(p, None)
                } else {
                    before.update(p, Some(Definition { constraint: cs.len() - 1, expression, tolerance }))
                },
            },
        }
    }
}

/// The definition `d` reads the variable at schema position `q`.
pub open spec fn depends(cs: Seq<Ast>, names: Seq<String>, d: Definition, q: int) -> bool {
    exists|g: GlobalId| mentions(d.expression, g) && position_in(names, cs[d.constraint].spec_symbols(), g) == Some(q)
}

/// Position `p` is defined, not yet ordered, and every position its
/// definition reads is either ordered already or not defined at all.
pub open spec fn ready(cs: Seq<Ast>, names: Seq<String>, defs: Seq<Option<Definition>>, settled: Seq<bool>, p: int) -> bool {
    &&& defs[p] is Some
    &&& !settled[p]
    &&& forall|q: int|
        0 <= q < defs.len() && #[trigger] depends(cs, names, defs[p]->Some_0, q) ==> settled[q] || defs[q] is None
}

/// The ready positions below `k`, ascending.
pub open spec fn round(cs: Seq<Ast>, names: Seq<String>, defs: Seq<Option<Definition>>, settled: Seq<bool>, k: int) -> Seq<int>
    decreases k,
{
    if k <= 0 {
        Seq::empty()
    } else {
        let r = round(cs, names, defs, settled, k - 1);
        if ready(cs, names, defs, settled, k - 1) {
            r.push(k - 1)
        } else {
            r
        }
    }
}

/// `settled` with the positions of `r` added.
pub open spec fn settle(settled: Seq<bool>, r: Seq<int>) -> Seq<bool> {
    Seq::new(settled.len(), |p: int| settled[p] || r.contains(p))
}

/// Evaluation order: round after round, every position ready in that round,
/// ascending, until a round finds none ready. Each round orders at least one
/// of the positions, so as many rounds as there are positions suffice. What
/// is never ready is defined in a cycle, or reads one.
pub open spec fn ordering(
    cs: Seq<Ast>,
    names: Seq<String>,
    defs: Seq<Option<Definition>>,
    settled: Seq<bool>,
    fuel: nat,
) -> Seq<int>
    decreases fuel,
{
    let r = round(cs, names, defs, settled, defs.len() as int);
    if fuel == 0 || r.len() == 0 {
        Seq::empty()
    } else {
        r + ordering(cs, names, defs, settle(settled, r), (fuel - 1) as nat)
    }
}

/// The evaluation order of the definitions `cs` gives the schema `names`.
pub open spec fn evaluation_order(cs: Seq<Ast>, names: Seq<String>) -> Seq<int> {
    let defs = definitions(cs, names);
    ordering(cs, names, defs, Seq::new(names.len(), |p: int| false), names.len())
}

/// `s` is `order` with some elements left out.
pub open spec fn subsequence_of(s: Seq<int>, order: Seq<int>) -> bool {
    exists|index: Seq<int>|
        #![trigger index.len()]
        index.len() == s.len() && (forall|i: int| 0 <= i < s.len() ==> 0 <= #[trigger] index[i] < order.len() && order[index[i]] == s[i])
            && (forall|i: int, j: int| 0 <= i < j < s.len() ==> index[i] < index[j])
}

/// One coordinate a walker computes rather than searches.
#[derive(Debug)]
pub struct Drive {
    /// Position in the bound schema.
    pub position: usize,
    /// The other side of the equality, compiled against the schema.
    pub definition: CompiledExpression,
    /// The equality's tolerance as a magnitude: half the width of the slice
    /// this coordinate may occupy once the others are fixed.
    pub tolerance: u64,
}

/// Which coordinates a walker moves, and which it computes from them.
#[derive(Debug)]
pub struct Plan {
    /// Driven coordinates in evaluation order: a definition reads only
    /// coordinates that are free or computed before it.
    driven: Vec<Drive>,
    /// Positions the walker is free to move: everything not driven,
    /// ascending.
    free: Vec<usize>,
}

impl Plan {
    pub closed spec fn spec_driven(&self) -> Seq<Drive> {
        self.driven@
    }

    pub closed spec fn spec_free(&self) -> Seq<usize> {
        self.free@
    }

    pub fn free(&self) -> (free: &[usize])
        ensures
            free@ == self.spec_free(),
    {
        self.free.as_slice()
    }

    pub fn driven(&self) -> (driven: &[Drive])
        ensures
            driven@ == self.spec_driven(),
    {
        self.driven.as_slice()
    }
}

/// The positions of `drives`.
pub open spec fn positions_of(drives: Seq<Drive>) -> Seq<int> {
    Seq::new(drives.len(), |i: int| drives[i].position as int)
}

/// A definition under construction.
struct Entry {
    definition: Ast,
    tolerance: u64,
    /// For each schema position, whether the definition reads it.
    reads: Vec<bool>,
}

/// `entries` holds `defs`: each definition's expression detached from its
/// constraint, well formed, with the positions it reads.
spec fn holds(entries: Seq<Option<Entry>>, defs: Seq<Option<Definition>>, cs: Seq<Ast>, names: Seq<String>) -> bool {
    &&& entries.len() == defs.len()
    &&& defs.len() == names.len()
    &&& forall|p: int|
        0 <= p < entries.len() ==> (#[trigger] entries[p] is Some <==> defs[p] is Some) && (entries[p] is Some ==> {
            let e = entries[p]->Some_0;
            let d = defs[p]->Some_0;
            &&& 0 <= d.constraint < cs.len()
            &&& detached(e.definition, cs[d.constraint], d.expression)
            &&& e.definition.well_formed()
            &&& e.tolerance == d.tolerance
            &&& e.reads@.len() == names.len()
            &&& forall|q: int| 0 <= q < names.len() ==> #[trigger] e.reads@[q] == depends(cs, names, d, q)
        })
}

/// [`position_in`].
fn position_of(names: &[String], symbols: &[String], v: GlobalId) -> (r: Option<usize>)
    ensures
        match (r, position_in(names@, symbols@, v)) {
            (Some(p), Some(q)) => p == q,
            (None, None) => true,
            _ => false,
        },
        r matches Some(p) ==> p < names@.len(),
{
    let k = v.index();
    let count = names.len();
    if k < symbols.len() {
        proof {
            crate::lemma_first_position_bound(names@, symbols@[k as int]@);
        }
        find_position(names, &symbols[k])
    } else {
        None
    }
}

/// Which schema positions the expression `e` of constraint `c` reads.
fn reads_of(e: &Expr, c: &Ast, names: &[String], Ghost(cs): Ghost<Seq<Ast>>, Ghost(d): Ghost<Definition>) -> (reads: Vec<bool>)
    requires
        0 <= d.constraint < cs.len(),
        cs[d.constraint] == *c,
        d.expression == e@,
    ensures
        reads@.len() == names@.len(),
        forall|q: int| 0 <= q < names@.len() ==> #[trigger] reads@[q] == depends(cs, names@, d, q),
{
    let mut found: Vec<GlobalId> = Vec::new();
    collect(e, &mut found);
    let mut reads: Vec<bool> = Vec::new();
    while reads.len() < names.len()
        invariant
            reads@.len() <= names@.len(),
            forall|q: int| 0 <= q < reads@.len() ==> !reads@[q],
        decreases names@.len() - reads@.len(),
    {
        reads.push(false);
    }
    let mut j: usize = 0;
    while j < found.len()
        invariant
            j <= found@.len(),
            reads@.len() == names@.len(),
            forall|v: GlobalId| #[trigger] found@.contains(v) <==> mentions(e@, v),
            forall|q: int|
                0 <= q < names@.len() ==> #[trigger] reads@[q] == exists|k: int|
                    0 <= k < j && position_in(names@, c.spec_symbols(), #[trigger] found@[k]) == Some(q),
        decreases found@.len() - j,
    {
        let ghost before = reads@;
        match position_of(names, c.symbols(), found[j]) {
            Some(q) => {
                proof {
                    crate::lemma_first_position_bound(names@, c.spec_symbols()[found@[j as int].spec_index() as int]@);
                }
                reads[q] = true;
            },
            None => {},
        }
        proof {
            assert forall|q: int| 0 <= q < names@.len() implies #[trigger] reads@[q] == exists|k: int|
                0 <= k < j + 1 && position_in(names@, c.spec_symbols(), #[trigger] found@[k]) == Some(q) by {
                if position_in(names@, c.spec_symbols(), found@[j as int]) == Some(q) {
                    assert(reads@[q]);
                } else {
                    assert(reads@[q] == before[q]);
                    if reads@[q] {
                        let k = choose|k: int| 0 <= k < j && position_in(names@, c.spec_symbols(), #[trigger] found@[k]) == Some(q);
                        assert(0 <= k < j + 1);
                    }
                }
            }
        }
        j += 1;
    }
    proof {
        assert forall|q: int| 0 <= q < names@.len() implies #[trigger] reads@[q] == depends(cs, names@, d, q) by {
            if reads@[q] {
                let k = choose|k: int| 0 <= k < j && position_in(names@, c.spec_symbols(), #[trigger] found@[k]) == Some(q);
                assert(found@.contains(found@[k]));
            }
            if depends(cs, names@, d, q) {
                let g = choose|g: GlobalId| mentions(d.expression, g) && position_in(names@, cs[d.constraint].spec_symbols(), g) == Some(q);
                assert(found@.contains(g));
                let k = choose|k: int| 0 <= k < found@.len() && found@[k] == g;
                assert(position_in(names@, c.spec_symbols(), found@[k]) == Some(q));
            }
        }
    }
    reads
}

/// [`definitions`]: every constraint's definition, by schema position.
fn gather(constraints: &[Ast], schema: &Schema) -> (entries: Vec<Option<Entry>>)
    requires
        forall|i: int| 0 <= i < constraints@.len() ==> (#[trigger] constraints@[i]).well_formed(),
    ensures
        holds(entries@, definitions(constraints@, schema.spec_names()), constraints@, schema.spec_names()),
{
    let names = schema.names();
    let ghost cs = constraints@;
    let mut entries: Vec<Option<Entry>> = Vec::new();
    while entries.len() < names.len()
        invariant
            entries@.len() <= names@.len(),
            forall|p: int| 0 <= p < entries@.len() ==> entries@[p] is None,
        decreases names@.len() - entries@.len(),
    {
        entries.push(None);
    }
    proof {
        assert(cs.take(0).len() == 0);
        assert(definitions(cs.take(0), names@) =~= Seq::new(names@.len(), |p: int| None::<Definition>));
    }
    let mut i: usize = 0;
    while i < constraints.len()
        invariant
            i <= cs.len(),
            cs == constraints@,
            names@ == schema.spec_names(),
            forall|k: int| 0 <= k < cs.len() ==> (#[trigger] cs[k]).well_formed(),
            holds(entries@, definitions(cs.take(i as int), names@), cs, names@),
        decreases cs.len() - i,
    {
        let constraint = &constraints[i];
        let ghost before = definitions(cs.take(i as int), names@);
        proof {
            assert(cs.take(i + 1).drop_last() =~= cs.take(i as int));
            assert(cs.take(i + 1).last() == cs[i as int]);
        }
        let found = match shape(constraint) {
            Shape::Driven { variable, from, tolerance } => Some((variable, from, tolerance)),
            Shape::Pinned { variable, value, tolerance } => Some((variable, value, tolerance)),
            _ => None,
        };
        match found {
            Some((variable, definition, tolerance)) => {
                match position_of(names, constraint.symbols(), variable) {
                    Some(p) => {
                        if entries[p].is_some() {
                            entries[p] = None;
                            proof {
                                assert(definitions(cs.take(i + 1), names@) =~= before.update(p as int, None));
                            }
                        } else {
                            let ghost d = Definition {
                                constraint: i as int,
                                expression: definition.spec_program()@.body.result,
                                tolerance,
                            };
                            let reads = reads_of(&definition.program().body.result, constraint, names, Ghost(cs), Ghost(d));
                            entries[p] = Some(Entry { definition, tolerance, reads });
                            proof {
                                assert(definitions(cs.take(i + 1), names@) =~= before.update(p as int, Some(d)));
                            }
                        }
                    },
                    None => {
                        proof {
                            assert(definitions(cs.take(i + 1), names@) == before);
                        }
                    },
                }
            },
            None => {
                proof {
                    assert(definitions(cs.take(i + 1), names@) == before);
                }
            },
        }
        i += 1;
    }
    proof {
        assert(cs.take(cs.len() as int) =~= cs);
    }
    entries
}

/// Every position of a round is ready, below the bound, and ascending.
proof fn lemma_round(cs: Seq<Ast>, names: Seq<String>, defs: Seq<Option<Definition>>, settled: Seq<bool>, k: int)
    ensures
        forall|i: int| 0 <= i < round(cs, names, defs, settled, k).len() ==> {
            let p = #[trigger] round(cs, names, defs, settled, k)[i];
            &&& 0 <= p < k
            &&& ready(cs, names, defs, settled, p)
        },
        forall|i: int, j: int| 0 <= i < j < round(cs, names, defs, settled, k).len() ==> round(cs, names, defs, settled, k)[i] < round(cs, names, defs, settled, k)[j],
    decreases k,
{
    if k > 0 {
        lemma_round(cs, names, defs, settled, k - 1);
        let r = round(cs, names, defs, settled, k - 1);
        let whole = round(cs, names, defs, settled, k);
        assert forall|i: int| 0 <= i < whole.len() implies {
            let p = #[trigger] whole[i];
            &&& 0 <= p < k
            &&& ready(cs, names, defs, settled, p)
        } by {
            if i < r.len() {
                assert(whole[i] == r[i]);
            }
        }
        assert forall|i: int, j: int| 0 <= i < j < whole.len() implies whole[i] < whole[j] by {
            assert(whole[i] == r[i]);
            if j < r.len() {
                assert(whole[j] == r[j]);
            }
        }
    }
}

/// A position a definition reads, when it is defined and not yet ordered, is
/// ordered before the definition.
proof fn lemma_ordering_respects_reads(
    cs: Seq<Ast>,
    names: Seq<String>,
    defs: Seq<Option<Definition>>,
    settled: Seq<bool>,
    fuel: nat,
    i: int,
    q: int,
)
    requires
        settled.len() == defs.len(),
        0 <= i < ordering(cs, names, defs, settled, fuel).len(),
        0 <= q < defs.len(),
        defs[q] is Some,
        !settled[q],
        depends(cs, names, defs[ordering(cs, names, defs, settled, fuel)[i]]->Some_0, q),
    ensures
        exists|j: int| 0 <= j < i && ordering(cs, names, defs, settled, fuel)[j] == q,
    decreases fuel,
{
    let r = round(cs, names, defs, settled, defs.len() as int);
    let order = ordering(cs, names, defs, settled, fuel);
    lemma_round(cs, names, defs, settled, defs.len() as int);
    let next = settle(settled, r);
    let rest = ordering(cs, names, defs, next, (fuel - 1) as nat);
    assert(order == r + rest);
    if i < r.len() {
        assert(order[i] == r[i]);
        assert(ready(cs, names, defs, settled, r[i]));
    } else {
        assert(order[i] == rest[i - r.len()]);
        if next[q] {
            assert(r.contains(q));
            let j = choose|j: int| 0 <= j < r.len() && r[j] == q;
            assert(order[j] == q);
        } else {
            lemma_ordering_respects_reads(cs, names, defs, next, (fuel - 1) as nat, i - r.len(), q);
            let j = choose|j: int| 0 <= j < i - r.len() && rest[j] == q;
            assert(order[j + r.len()] == q);
        }
    }
}

/// Every ordered position is a position of the schema.
proof fn lemma_ordering_in_range(
    cs: Seq<Ast>,
    names: Seq<String>,
    defs: Seq<Option<Definition>>,
    settled: Seq<bool>,
    fuel: nat,
)
    ensures
        forall|i: int| 0 <= i < ordering(cs, names, defs, settled, fuel).len() ==> 0 <= #[trigger] ordering(cs, names, defs, settled, fuel)[i] < defs.len()
            && defs[ordering(cs, names, defs, settled, fuel)[i]] is Some,
    decreases fuel,
{
    let r = round(cs, names, defs, settled, defs.len() as int);
    lemma_round(cs, names, defs, settled, defs.len() as int);
    if fuel > 0 && r.len() > 0 {
        lemma_ordering_in_range(cs, names, defs, settle(settled, r), (fuel - 1) as nat);
        let rest = ordering(cs, names, defs, settle(settled, r), (fuel - 1) as nat);
        assert forall|i: int| 0 <= i < ordering(cs, names, defs, settled, fuel).len() implies 0 <= #[trigger] ordering(cs, names, defs, settled, fuel)[i] < defs.len()
            && defs[ordering(cs, names, defs, settled, fuel)[i]] is Some by {
            if i < r.len() {
                assert(ready(cs, names, defs, settled, r[i]));
            } else {
                assert(ordering(cs, names, defs, settled, fuel)[i] == rest[i - r.len()]);
            }
        }
    }
}

/// Reading the constraints in order leaves one slot per schema position.
proof fn lemma_definitions_len(cs: Seq<Ast>, names: Seq<String>)
    ensures
        definitions(cs, names).len() == names.len(),
    decreases cs.len(),
{
    if cs.len() > 0 {
        lemma_definitions_len(cs.drop_last(), names);
        let c = cs.last();
        match defined_by(c) {
            Some((v, e, t)) => {
                if v.spec_index() < c.spec_symbols().len() {
                    crate::lemma_first_position_bound(names, c.spec_symbols()[v.spec_index() as int]@);
                }
            },
            None => {},
        }
    }
}

/// In the evaluation order, whatever defined position a definition reads
/// comes before it: computing the driven coordinates in that order never
/// reads a stale value.
pub proof fn lemma_evaluation_order_respects_reads(cs: Seq<Ast>, names: Seq<String>, i: int, q: int)
    requires
        0 <= i < evaluation_order(cs, names).len(),
        0 <= q < names.len(),
        definitions(cs, names)[q] is Some,
        depends(cs, names, definitions(cs, names)[evaluation_order(cs, names)[i]]->Some_0, q),
    ensures
        exists|j: int| 0 <= j < i && evaluation_order(cs, names)[j] == q,
{
    lemma_definitions_len(cs, names);
    lemma_ordering_respects_reads(
        cs,
        names,
        definitions(cs, names),
        Seq::new(names.len(), |p: int| false),
        names.len(),
        i,
        q,
    );
}

/// [`ready`] for the entries.
fn is_ready(
    entries: &Vec<Option<Entry>>,
    settled: &Vec<bool>,
    p: usize,
    Ghost(cs): Ghost<Seq<Ast>>,
    Ghost(names): Ghost<Seq<String>>,
    Ghost(defs): Ghost<Seq<Option<Definition>>>,
) -> (b: bool)
    requires
        holds(entries@, defs, cs, names),
        settled@.len() == names.len(),
        p < names.len(),
    ensures
        b == ready(cs, names, defs, settled@, p as int),
{
    match &entries[p] {
        None => false,
        Some(entry) => {
            if settled[p] {
                return false;
            }
            let mut q: usize = 0;
            while q < entry.reads.len()
                invariant
                    holds(entries@, defs, cs, names),
                    entries@[p as int] == Some(*entry),
                    settled@.len() == names.len(),
                    p < names.len(),
                    q <= entry.reads@.len(),
                    entry.reads@.len() == names.len(),
                    forall|k: int|
                        0 <= k < q && #[trigger] depends(cs, names, defs[p as int]->Some_0, k) ==> settled@[k] || defs[k] is None,
                decreases entry.reads@.len() - q,
            {
                assert(entry.reads@[q as int] == depends(cs, names, defs[p as int]->Some_0, q as int));
                if entry.reads[q] && !settled[q] && entries[q].is_some() {
                    return false;
                }
                q += 1;
            }
            true
        },
    }
}

/// The positions `r` as integers.
spec fn ints(r: Seq<usize>) -> Seq<int> {
    r.map_values(|p: usize| p as int)
}

/// [`round`] over every position.
fn round_of(
    entries: &Vec<Option<Entry>>,
    settled: &Vec<bool>,
    Ghost(cs): Ghost<Seq<Ast>>,
    Ghost(names): Ghost<Seq<String>>,
    Ghost(defs): Ghost<Seq<Option<Definition>>>,
) -> (r: Vec<usize>)
    requires
        holds(entries@, defs, cs, names),
        settled@.len() == names.len(),
    ensures
        ints(r@) == round(cs, names, defs, settled@, names.len() as int),
        forall|i: int| 0 <= i < r@.len() ==> #[trigger] r@[i] < names.len(),
{
    let mut r: Vec<usize> = Vec::new();
    let mut p: usize = 0;
    while p < entries.len()
        invariant
            holds(entries@, defs, cs, names),
            settled@.len() == names.len(),
            p <= entries@.len(),
            ints(r@) == round(cs, names, defs, settled@, p as int),
            forall|i: int| 0 <= i < r@.len() ==> #[trigger] r@[i] < p,
        decreases entries@.len() - p,
    {
        if is_ready(entries, settled, p, Ghost(cs), Ghost(names), Ghost(defs)) {
            r.push(p);
            proof {
                assert(ints(r@) =~= round(cs, names, defs, settled@, p as int).push(p as int));
            }
        }
        p += 1;
    }
    r
}

/// Marks the positions of `r` settled.
fn settle_all(settled: &mut Vec<bool>, r: &Vec<usize>)
    requires
        forall|i: int| 0 <= i < r@.len() ==> #[trigger] r@[i] < old(settled)@.len(),
    ensures
        final(settled)@ == settle(old(settled)@, ints(r@)),
{
    let ghost start = settled@;
    let mut j: usize = 0;
    while j < r.len()
        invariant
            j <= r@.len(),
            settled@.len() == start.len(),
            forall|i: int| 0 <= i < r@.len() ==> #[trigger] r@[i] < start.len(),
            settled@ == settle(start, ints(r@).take(j as int)),
        decreases r@.len() - j,
    {
        let ghost before = settled@;
        settled[r[j]] = true;
        proof {
            broadcast use vstd::seq_lib::lemma_seq_contains_after_push;

            assert(ints(r@).take(j + 1) =~= ints(r@).take(j as int).push(r@[j as int] as int));
            assert(settled@ =~= settle(start, ints(r@).take(j + 1)));
        }
        j += 1;
    }
    proof {
        assert(ints(r@).take(r@.len() as int) =~= ints(r@));
    }
}

/// [`evaluation_order`] of the entries.
fn order_of(
    entries: &Vec<Option<Entry>>,
    Ghost(cs): Ghost<Seq<Ast>>,
    Ghost(names): Ghost<Seq<String>>,
    Ghost(defs): Ghost<Seq<Option<Definition>>>,
) -> (ordered: Vec<usize>)
    requires
        holds(entries@, defs, cs, names),
    ensures
        ints(ordered@) == ordering(cs, names, defs, Seq::new(names.len(), |p: int| false), names.len()),
        forall|i: int| 0 <= i < ordered@.len() ==> #[trigger] ordered@[i] < names.len(),
{
    let n = entries.len();
    let mut settled: Vec<bool> = Vec::new();
    while settled.len() < n
        invariant
            settled@.len() <= n,
            forall|p: int| 0 <= p < settled@.len() ==> !settled@[p],
        decreases n - settled@.len(),
    {
        settled.push(false);
    }
    let ghost start = settled@;
    proof {
        assert(start =~= Seq::new(names.len(), |p: int| false));
    }
    let mut ordered: Vec<usize> = Vec::new();
    let mut fuel: usize = n;
    let mut going = true;
    while going && fuel > 0
        invariant
            holds(entries@, defs, cs, names),
            n == names.len(),
            settled@.len() == names.len(),
            fuel <= n,
            ints(ordered@) + ordering(cs, names, defs, settled@, fuel as nat) == ordering(cs, names, defs, start, n as nat),
            !going ==> ordering(cs, names, defs, settled@, fuel as nat) == Seq::<int>::empty(),
            forall|i: int| 0 <= i < ordered@.len() ==> #[trigger] ordered@[i] < names.len(),
        decreases fuel + (if going { 1int } else { 0int }),
    {
        let r = round_of(entries, &settled, Ghost(cs), Ghost(names), Ghost(defs));
        if r.len() == 0 {
            going = false;
        } else {
            let ghost before = ordered@;
            let ghost was = settled@;
            settle_all(&mut settled, &r);
            let mut j: usize = 0;
            while j < r.len()
                invariant
                    j <= r@.len(),
                    ordered@ == before + r@.take(j as int),
                    forall|i: int| 0 <= i < r@.len() ==> #[trigger] r@[i] < names.len(),
                    forall|i: int| 0 <= i < before.len() ==> #[trigger] before[i] < names.len(),
                decreases r@.len() - j,
            {
                ordered.push(r[j]);
                proof {
                    assert(r@.take(j + 1) =~= r@.take(j as int).push(r@[j as int]));
                }
                j += 1;
            }
            proof {
                assert(r@.take(r@.len() as int) =~= r@);
                assert(ints(ordered@) =~= ints(before) + ints(r@));
                assert(ordering(cs, names, defs, was, fuel as nat) == ints(r@) + ordering(
                    cs,
                    names,
                    defs,
                    settled@,
                    (fuel - 1) as nat,
                ));
                assert(ints(ordered@) + ordering(cs, names, defs, settled@, (fuel - 1) as nat) =~= ints(before) + (ints(r@)
                    + ordering(cs, names, defs, settled@, (fuel - 1) as nat)));
                assert forall|i: int| 0 <= i < ordered@.len() implies #[trigger] ordered@[i] < names.len() by {
                    if i >= before.len() {
                        assert(ordered@[i] == r@[i - before.len()]);
                    }
                }
            }
            fuel -= 1;
        }
    }
    proof {
        assert(ints(ordered@) =~= ints(ordered@) + Seq::<int>::empty());
    }
    ordered
}

/// The definition `d` can be compiled against `names` as far as binding is
/// concerned: every symbol of its constraint is named, nothing is aggregated
/// over bounds known only at run time, and the frame and schema fit their
/// indices.
pub open spec fn binds(cs: Seq<Ast>, names: Seq<String>, d: Definition) -> bool {
    &&& missing_symbols(cs[d.constraint].spec_symbols(), names).len() == 0
    &&& block_aggregate_free(BlockModel { assignments: Seq::empty(), result: d.expression })
    &&& cs[d.constraint].spec_program().frame_size <= 0xffff
    &&& names.len() <= u32::MAX
}

/// The definition `d` binds, and its expression is small enough for the
/// registers of its tape to be numbered: it is sure to compile.
pub open spec fn drivable(cs: Seq<Ast>, names: Seq<String>, d: Definition) -> bool {
    &&& binds(cs, names, d)
    &&& fits_tape(
        BlockModel { assignments: Seq::empty(), result: d.expression },
        cs[d.constraint].spec_program().frame_size as nat,
    )
}

/// The split a walker consumes, over a whole system.
///
/// Every pinned or driven equality defines its variable's schema position
/// ([`definitions`]); the definitions are put in [`evaluation_order`], and
/// each is compiled against the schema in that order. A definition that does
/// not compile stays an ordinary constraint; no constraint is ever dropped,
/// since a walker still checks all of them. `None` when nothing is driven.
pub fn plan(constraints: &[Ast], schema: &Schema) -> (r: Option<Plan>)
    requires
        forall|i: int| 0 <= i < constraints@.len() ==> (#[trigger] constraints@[i]).well_formed(),
    ensures
        r is None ==> forall|i: int|
            0 <= i < evaluation_order(constraints@, schema.spec_names()).len() ==> !drivable(
                constraints@,
                schema.spec_names(),
                definitions(constraints@, schema.spec_names())[#[trigger] evaluation_order(
                    constraints@,
                    schema.spec_names(),
                )[i]]->Some_0,
            ),
        r matches Some(plan) ==> {
            let cs = constraints@;
            let names = schema.spec_names();
            let defs = definitions(cs, names);
            let driven = plan.spec_driven();
            let free = plan.spec_free();
            &&& driven.len() > 0
            &&& subsequence_of(positions_of(driven), evaluation_order(cs, names))
            &&& forall|i: int|
                0 <= i < driven.len() ==> {
                    let drive = #[trigger] driven[i];
                    let d = defs[drive.position as int]->Some_0;
                    &&& defs[drive.position as int] is Some
                    &&& binds(cs, names, d)
                    &&& drive.tolerance == d.tolerance
                    &&& drive.definition.source@ == side_label(d.expression) + " [from "@ + cs[d.constraint].spec_source() + "]"@
                    &&& drive.definition.schema.spec_names() == names
                }
            &&& forall|p: int| 0 <= p < names.len() ==> (free.contains(p as usize) <==> !positions_of(driven).contains(p))
            &&& forall|i: int| 0 <= i < free.len() ==> #[trigger] free[i] < names.len()
            &&& forall|i: int, j: int| 0 <= i < j < free.len() ==> free[i] < free[j]
        },
{
    let ghost cs = constraints@;
    let ghost names = schema.spec_names();
    let ghost defs = definitions(cs, names);
    let entries = gather(constraints, schema);
    let ordered = order_of(&entries, Ghost(cs), Ghost(names), Ghost(defs));
    let ghost order = ints(ordered@);
    proof {
        lemma_ordering_in_range(cs, names, defs, Seq::new(names.len(), |p: int| false), names.len());
    }
    let count = schema.len();
    let mut driven: Vec<Drive> = Vec::new();
    let ghost mut index: Seq<int> = Seq::empty();
    let mut k: usize = 0;
    while k < ordered.len()
        invariant
            holds(entries@, defs, cs, names),
            count == names.len(),
            names == schema.spec_names(),
            order == ints(ordered@),
            order == evaluation_order(cs, names),
            forall|i: int| 0 <= i < order.len() ==> 0 <= #[trigger] order[i] < defs.len() && defs[order[i]] is Some,
            k <= ordered@.len(),
            index.len() == driven@.len(),
            forall|i: int| 0 <= i < ordered@.len() ==> #[trigger] ordered@[i] < count,
            forall|i: int| 0 <= i < driven@.len() ==> (#[trigger] driven@[i]).position < count,
            forall|i: int| 0 <= i < driven@.len() ==> 0 <= #[trigger] index[i] < k && order[index[i]] == positions_of(driven@)[i],
            forall|i: int, j: int| 0 <= i < j < driven@.len() ==> index[i] < index[j],
            driven@.len() == 0 ==> forall|j: int| 0 <= j < k ==> !drivable(cs, names, defs[#[trigger] order[j]]->Some_0),
            forall|i: int|
                0 <= i < driven@.len() ==> {
                    let drive = #[trigger] driven@[i];
                    let d = defs[drive.position as int]->Some_0;
                    &&& defs[drive.position as int] is Some
                    &&& binds(cs, names, d)
                    &&& drive.tolerance == d.tolerance
                    &&& drive.definition.source@ == side_label(d.expression) + " [from "@ + cs[d.constraint].spec_source() + "]"@
                    &&& drive.definition.schema.spec_names() == names
                },
        decreases ordered@.len() - k,
    {
        let p = ordered[k];
        assert(order[k as int] == p as int);
        match &entries[p] {
            Some(entry) => {
                let definition = &entry.definition;
                let ghost d = defs[p as int]->Some_0;
                if is_block_aggregate_free(&definition.program().body) && definition.program().frame_size <= 0xffff
                    && count <= 0xffff_ffff {
                    match compile(definition, schema) {
                        Ok(compiled) => {
                            proof {
                                if missing_symbols(cs[d.constraint].spec_symbols(), names).len() > 0 {
                                    assert(false);
                                }
                            }
                            let ghost before = driven@;
                            driven.push(Drive { position: p, definition: compiled, tolerance: entry.tolerance });
                            proof {
                                index = index.push(k as int);
                                assert(positions_of(driven@) =~= positions_of(before).push(p as int));
                            }
                        },
                        Err(_) => {},
                    }
                }
            },
            None => {},
        }
        k += 1;
    }
    if driven.len() == 0 {
        return None;
    }
    let mut taken: Vec<bool> = Vec::new();
    while taken.len() < count
        invariant
            taken@.len() <= count,
            forall|p: int| 0 <= p < taken@.len() ==> !taken@[p],
        decreases count - taken@.len(),
    {
        taken.push(false);
    }
    let mut i: usize = 0;
    while i < driven.len()
        invariant
            i <= driven@.len(),
            taken@.len() == count,
            count == names.len(),
            forall|j: int| 0 <= j < driven@.len() ==> (#[trigger] driven@[j]).position < count,
            forall|p: int| 0 <= p < count ==> (#[trigger] taken@[p] <==> positions_of(driven@).take(i as int).contains(p)),
        decreases driven@.len() - i,
    {
        let ghost before = taken@;
        taken[driven[i].position] = true;
        proof {
            broadcast use vstd::seq_lib::lemma_seq_contains_after_push;

            assert(positions_of(driven@).take(i + 1) =~= positions_of(driven@).take(i as int).push(driven@[i as int].position as int));
        }
        i += 1;
    }
    proof {
        assert(positions_of(driven@).take(driven@.len() as int) =~= positions_of(driven@));
    }
    let mut free: Vec<usize> = Vec::new();
    let mut p: usize = 0;
    while p < count
        invariant
            p <= count,
            taken@.len() == count,
            forall|q: int| 0 <= q < p ==> (free@.contains(q as usize) <==> !taken@[q]),
            forall|j: int| 0 <= j < free@.len() ==> #[trigger] free@[j] < p,
            forall|a: int, b: int| 0 <= a < b < free@.len() ==> free@[a] < free@[b],
        decreases count - p,
    {
        if !taken[p] {
            proof {
                broadcast use vstd::seq_lib::lemma_seq_contains_after_push;

            }
            free.push(p);
        } else {
            proof {
                assert(!free@.contains(p));
            }
        }
        proof {
            broadcast use vstd::seq_lib::lemma_seq_contains_after_push;

        }
        p += 1;
    }
    proof {
        assert(index.len() == positions_of(driven@).len());
        assert(subsequence_of(positions_of(driven@), order));
        assert forall|q: int| 0 <= q < count implies (free@.contains(q as usize) <==> !positions_of(driven@).contains(q)) by {
            assert(taken@[q] <==> positions_of(driven@).contains(q));
        }
    }
    Some(Plan { driven, free })
}

} // verus!
