//! Babel's abstract syntax tree.
//!
//! Names are resolved while the tree is built: a statically named variable is a
//! [`GlobalId`] and a `var x = ...` binding or lambda parameter is a
//! [`LocalSlot`], so shadowing is settled structurally. Every node carries a
//! [`Span`].
//!
//! A numeric literal is held as the IEEE-754 bit pattern of the binary64 value
//! it denotes. The tree only ever moves, compares and deduplicates literals;
//! the arithmetic on them belongs to the evaluator.
use vstd::prelude::*;

use crate::diagnostics::Span;
use crate::text::same_text;

verus! {

/// Position of a variable in an expression's own statically referenced
/// symbols, in first-reference order.
#[derive(Debug, Clone, Copy, PartialEq, Eq, Structural, PartialOrd, Ord, Hash)]
pub struct GlobalId(u32);

impl GlobalId {
    /// The position this id stands for.
    pub closed spec fn spec_index(self) -> nat {
        self.0 as nat
    }

    /// The id standing for `index`.
    pub closed spec fn spec_from_index(index: u32) -> GlobalId {
        GlobalId(index)
    }

    pub proof fn lemma_index_of_from_index(index: u32)
        ensures
            Self::spec_from_index(index).spec_index() == index,
    {
    }

    pub proof fn lemma_ids_are_their_index(a: GlobalId, b: GlobalId)
        ensures
            a.spec_index() == b.spec_index() <==> a == b,
            a.spec_index() <= u32::MAX,
    {
    }

    pub fn from_index(index: u32) -> (id: GlobalId)
        ensures
            id == Self::spec_from_index(index),
            id.spec_index() == index,
    {
        GlobalId(index)
    }

    pub fn index(self) -> (index: usize)
        ensures
            index == self.spec_index(),
    {
        self.0 as usize
    }
}

/// Position of a value in the evaluation frame: a `var x = ...` binding or a
/// lambda parameter.
#[derive(Debug, Clone, Copy, PartialEq, Eq, Structural, PartialOrd, Ord, Hash)]
pub struct LocalSlot(pub u32);

impl LocalSlot {
    pub fn from_index(index: u32) -> (slot: LocalSlot)
        ensures
            slot.0 == index,
    {
        LocalSlot(index)
    }

    pub fn index(self) -> (index: usize)
        ensures
            index == self.0,
    {
        self.0 as usize
    }
}

#[derive(Debug, Clone, Copy, PartialEq, Eq, Structural, Hash)]
pub enum UnaryOp {
    Negate,
    Cos,
    Sin,
    Tan,
    Acos,
    Asin,
    Atan,
    Cosh,
    Sinh,
    Tanh,
    Cot,
    /// Natural logarithm, spelled `ln`.
    Ln,
    /// Base-10 logarithm, spelled `log` with one argument.
    Log10,
    Abs,
    Sqrt,
    Cbrt,
    Sqr,
    Cube,
    Ceil,
    Floor,
    Sgn,
}

/// The keyword table of the unary functions, as characters.
pub open spec fn unary_keyword(op: UnaryOp) -> Seq<char> {
    match op {
        UnaryOp::Negate => "-"@,
        UnaryOp::Cos => "cos"@,
        UnaryOp::Sin => "sin"@,
        UnaryOp::Tan => "tan"@,
        UnaryOp::Acos => "acos"@,
        UnaryOp::Asin => "asin"@,
        UnaryOp::Atan => "atan"@,
        UnaryOp::Cosh => "cosh"@,
        UnaryOp::Sinh => "sinh"@,
        UnaryOp::Tanh => "tanh"@,
        UnaryOp::Cot => "cot"@,
        UnaryOp::Ln => "ln"@,
        UnaryOp::Log10 => "log"@,
        UnaryOp::Abs => "abs"@,
        UnaryOp::Sqrt => "sqrt"@,
        UnaryOp::Cbrt => "cbrt"@,
        UnaryOp::Sqr => "sqr"@,
        UnaryOp::Cube => "cube"@,
        UnaryOp::Ceil => "ceil"@,
        UnaryOp::Floor => "floor"@,
        UnaryOp::Sgn => "sgn"@,
    }
}


/// The operator a keyword names, looked up in the order the table is read.
pub open spec fn keyword_op(w: Seq<char>) -> Option<UnaryOp> {
    if w == "cos"@ {
        Some(UnaryOp::Cos)
    } else if w == "sin"@ {
        Some(UnaryOp::Sin)
    } else if w == "tan"@ {
        Some(UnaryOp::Tan)
    } else if w == "acos"@ {
        Some(UnaryOp::Acos)
    } else if w == "asin"@ {
        Some(UnaryOp::Asin)
    } else if w == "atan"@ {
        Some(UnaryOp::Atan)
    } else if w == "cosh"@ {
        Some(UnaryOp::Cosh)
    } else if w == "sinh"@ {
        Some(UnaryOp::Sinh)
    } else if w == "tanh"@ {
        Some(UnaryOp::Tanh)
    } else if w == "cot"@ {
        Some(UnaryOp::Cot)
    } else if w == "ln"@ {
        Some(UnaryOp::Ln)
    } else if w == "log"@ {
        Some(UnaryOp::Log10)
    } else if w == "abs"@ {
        Some(UnaryOp::Abs)
    } else if w == "sqrt"@ {
        Some(UnaryOp::Sqrt)
    } else if w == "cbrt"@ {
        Some(UnaryOp::Cbrt)
    } else if w == "sqr"@ {
        Some(UnaryOp::Sqr)
    } else if w == "cube"@ {
        Some(UnaryOp::Cube)
    } else if w == "ceil"@ {
        Some(UnaryOp::Ceil)
    } else if w == "floor"@ {
        Some(UnaryOp::Floor)
    } else if w == "sgn"@ {
        Some(UnaryOp::Sgn)
    } else {
        None
    }
}

impl UnaryOp {
    /// Maps a `unaryFunction` keyword to its operator. `-` is not a keyword.
    pub fn from_keyword(keyword: &str) -> (op: Option<UnaryOp>)
        ensures
            match op {
                Some(op) => op != UnaryOp::Negate && unary_keyword(op) == keyword@,
                None => forall|o: UnaryOp| o != UnaryOp::Negate ==> unary_keyword(o) != keyword@,
            },
            op == keyword_op(keyword@),
    {
        let op = if same_text(keyword, "cos") {
            UnaryOp::Cos
        } else if same_text(keyword, "sin") {
            UnaryOp::Sin
        } else if same_text(keyword, "tan") {
            UnaryOp::Tan
        } else if same_text(keyword, "acos") {
            UnaryOp::Acos
        } else if same_text(keyword, "asin") {
            UnaryOp::Asin
        } else if same_text(keyword, "atan") {
            UnaryOp::Atan
        } else if same_text(keyword, "cosh") {
            UnaryOp::Cosh
        } else if same_text(keyword, "sinh") {
            UnaryOp::Sinh
        } else if same_text(keyword, "tanh") {
            UnaryOp::Tanh
        } else if same_text(keyword, "cot") {
            UnaryOp::Cot
        } else if same_text(keyword, "ln") {
            UnaryOp::Ln
        } else if same_text(keyword, "log") {
            UnaryOp::Log10
        } else if same_text(keyword, "abs") {
            UnaryOp::Abs
        } else if same_text(keyword, "sqrt") {
            UnaryOp::Sqrt
        } else if same_text(keyword, "cbrt") {
            UnaryOp::Cbrt
        } else if same_text(keyword, "sqr") {
            UnaryOp::Sqr
        } else if same_text(keyword, "cube") {
            UnaryOp::Cube
        } else if same_text(keyword, "ceil") {
            UnaryOp::Ceil
        } else if same_text(keyword, "floor") {
            UnaryOp::Floor
        } else if same_text(keyword, "sgn") {
            UnaryOp::Sgn
        } else {
            proof {
                assert forall|o: UnaryOp| o != UnaryOp::Negate implies unary_keyword(o) != keyword@ by {
                    match o {
                        UnaryOp::Negate => {},
                        _ => {},
                    }
                }
            }
            return None;
        };
        Some(op)
    }
}

#[derive(Debug, Clone, Copy, PartialEq, Eq, Structural, Hash)]
pub enum BinaryOp {
    Add,
    Sub,
    Mul,
    Div,
    /// Truncated remainder, spelled `%`.
    Rem,
    Pow,
    Max,
    Min,
    /// `log(base, x)`, the two-argument `log`.
    LogB,
}

impl BinaryOp {
    /// Maps a `binaryFunction` keyword to its operator: only the three
    /// call-syntax functions `max`, `min` and `log`.
    pub fn from_function_keyword(keyword: &str) -> (op: Option<BinaryOp>)
        ensures
            keyword@ == "max"@ ==> op == Some(BinaryOp::Max),
            keyword@ == "min"@ ==> op == Some(BinaryOp::Min),
            keyword@ == "log"@ ==> op == Some(BinaryOp::LogB),
            keyword@ != "max"@ && keyword@ != "min"@ && keyword@ != "log"@ ==> op.is_none(),
    {
        proof {
            reveal_strlit("max");
            reveal_strlit("min");
            reveal_strlit("log");
            assert("max"@[1] != "min"@[1]);
            assert("max"@[0] != "log"@[0]);
            assert("min"@[0] != "log"@[0]);
        }
        if same_text(keyword, "max") {
            Some(BinaryOp::Max)
        } else if same_text(keyword, "min") {
            Some(BinaryOp::Min)
        } else if same_text(keyword, "log") {
            Some(BinaryOp::LogB)
        } else {
            None
        }
    }
}

#[derive(Debug, Clone, Copy, PartialEq, Eq, Structural, Hash)]
pub enum CompareOp {
    Lt,
    Lte,
    Gt,
    Gte,
}

#[derive(Debug, Clone, Copy, PartialEq, Eq, Structural, Hash)]
pub enum AggregateKind {
    Sum,
    Prod,
}

/// A complete compiled expression.
#[derive(Debug, PartialEq)]
pub struct Program {
    pub body: Block,
    /// Number of local slots the deepest frame requires.
    pub frame_size: u32,
}

/// `(statement ';')* result`: a run of bindings and the value they lead to.
#[derive(Debug, PartialEq)]
pub struct Block {
    pub assignments: Vec<Assignment>,
    pub result: Expr,
}

/// `var <name> = <expr>`
#[derive(Debug, PartialEq)]
pub struct Assignment {
    pub slot: LocalSlot,
    pub value: Expr,
    pub span: Span,
}

/// An expression node: a [`Kind`] plus its source location.
#[derive(Debug, PartialEq)]
pub struct Expr {
    pub kind: Kind,
    pub span: Span,
}

#[derive(Debug, PartialEq)]
pub enum Kind {
    /// The bit pattern of a binary64 value.
    Literal(u64),
    /// A statically named variable.
    Global(GlobalId),
    /// A `var x = ...` binding or a lambda parameter.
    Local(LocalSlot),
    /// `var[expr]`: a one-based index into schema declaration order.
    DynamicIndex(Box<Expr>),
    Unary { op: UnaryOp, arg: Box<Expr> },
    Binary { op: BinaryOp, lhs: Box<Expr>, rhs: Box<Expr> },
    /// `sum(lower, upper, param -> body)` / `prod(...)`.
    Aggregate {
        kind: AggregateKind,
        lower: Box<Expr>,
        upper: Box<Expr>,
        param: LocalSlot,
        body: Box<Block>,
    },
    /// A multi-statement body in expression position.
    Block(Box<Block>),
    /// `a < b`, `a >= b`, ...: eliminated by the boolean rewrite.
    Compare { op: CompareOp, lhs: Box<Expr>, rhs: Box<Expr> },
    /// `a == b +/- tolerance`, the tolerance as bits: eliminated by the
    /// boolean rewrite.
    NearEq { lhs: Box<Expr>, rhs: Box<Expr>, tolerance: u64 },
    /// An aggregate over known bounds, unrolled: its terms in order.
    Fold { kind: AggregateKind, terms: Vec<Expr> },
}

impl Expr {
    pub fn new(kind: Kind, span: Span) -> (expr: Expr)
        ensures
            expr.kind == kind,
            expr.span == span,
    {
        Expr { kind, span }
    }
}

// ---------------------------------------------------------------- the model

/// The mathematical model of an expression: the same tree with its
/// sequences as `Seq`.
#[verifier::ext_equal]
pub ghost struct ExprModel {
    pub kind: KindModel,
    pub span: Span,
}

#[verifier::ext_equal]
pub ghost enum KindModel {
    Literal(u64),
    Global(GlobalId),
    Local(LocalSlot),
    DynamicIndex(Box<ExprModel>),
    Unary { op: UnaryOp, arg: Box<ExprModel> },
    Binary { op: BinaryOp, lhs: Box<ExprModel>, rhs: Box<ExprModel> },
    Aggregate {
        kind: AggregateKind,
        lower: Box<ExprModel>,
        upper: Box<ExprModel>,
        param: LocalSlot,
        body: Box<BlockModel>,
    },
    Block(Box<BlockModel>),
    Compare { op: CompareOp, lhs: Box<ExprModel>, rhs: Box<ExprModel> },
    NearEq { lhs: Box<ExprModel>, rhs: Box<ExprModel>, tolerance: u64 },
    Fold { kind: AggregateKind, terms: Seq<ExprModel> },
}

#[verifier::ext_equal]
pub ghost struct BlockModel {
    pub assignments: Seq<AssignmentModel>,
    pub result: ExprModel,
}

#[verifier::ext_equal]
pub ghost struct AssignmentModel {
    pub slot: LocalSlot,
    pub value: ExprModel,
    pub span: Span,
}

#[verifier::ext_equal]
pub ghost struct ProgramModel {
    pub body: BlockModel,
    pub frame_size: u32,
}

/// The model of an expression.
pub open spec fn model_expr(e: Expr) -> ExprModel
    decreases e,
{
    ExprModel {
        kind: match e.kind {
            Kind::Literal(bits) => KindModel::Literal(bits),
            Kind::Global(id) => KindModel::Global(id),
            Kind::Local(slot) => KindModel::Local(slot),
            Kind::DynamicIndex(index) => KindModel::DynamicIndex(Box::new(model_expr(*index))),
            Kind::Unary { op, arg } => KindModel::Unary { op, arg: Box::new(model_expr(*arg)) },
            Kind::Binary { op, lhs, rhs } => KindModel::Binary {
                op,
                lhs: Box::new(model_expr(*lhs)),
                rhs: Box::new(model_expr(*rhs)),
            },
            Kind::Aggregate { kind, lower, upper, param, body } => KindModel::Aggregate {
                kind,
                lower: Box::new(model_expr(*lower)),
                upper: Box::new(model_expr(*upper)),
                param,
                body: Box::new(model_block(*body)),
            },
            Kind::Block(block) => KindModel::Block(Box::new(model_block(*block))),
            Kind::Compare { op, lhs, rhs } => KindModel::Compare {
                op,
                lhs: Box::new(model_expr(*lhs)),
                rhs: Box::new(model_expr(*rhs)),
            },
            Kind::NearEq { lhs, rhs, tolerance } => KindModel::NearEq {
                lhs: Box::new(model_expr(*lhs)),
                rhs: Box::new(model_expr(*rhs)),
                tolerance,
            },
            Kind::Fold { kind, terms } => KindModel::Fold {
                kind,
                terms: Seq::new(
                    terms@.len(),
                    |i: int|
                        if 0 <= i < terms@.len() {
                            model_expr(terms@[i])
                        } else {
                            arbitrary()
                        },
                ),
            },
        },
        span: e.span,
    }
}

/// The model of a block.
pub open spec fn model_block(b: Block) -> BlockModel
    decreases b,
{
    BlockModel {
        assignments: Seq::new(
            b.assignments@.len(),
            |i: int|
                if 0 <= i < b.assignments@.len() {
                    AssignmentModel {
                        slot: b.assignments@[i].slot,
                        value: model_expr(b.assignments@[i].value),
                        span: b.assignments@[i].span,
                    }
                } else {
                    arbitrary()
                },
        ),
        result: model_expr(b.result),
    }
}

/// A deep copy of `e`.
pub fn clone_expr(e: &Expr) -> (c: Expr)
    ensures
        c@ == e@,
    decreases e,
{
    let kind = match &e.kind {
        Kind::Literal(bits) => Kind::Literal(*bits),
        Kind::Global(id) => Kind::Global(*id),
        Kind::Local(slot) => Kind::Local(*slot),
        Kind::DynamicIndex(index) => Kind::DynamicIndex(Box::new(clone_expr(index))),
        Kind::Unary { op, arg } => Kind::Unary { op: *op, arg: Box::new(clone_expr(arg)) },
        Kind::Binary { op, lhs, rhs } => Kind::Binary {
            op: *op,
            lhs: Box::new(clone_expr(lhs)),
            rhs: Box::new(clone_expr(rhs)),
        },
        Kind::Aggregate { kind, lower, upper, param, body } => Kind::Aggregate {
            kind: *kind,
            lower: Box::new(clone_expr(lower)),
            upper: Box::new(clone_expr(upper)),
            param: *param,
            body: Box::new(clone_block(body)),
        },
        Kind::Block(block) => Kind::Block(Box::new(clone_block(block))),
        Kind::Compare { op, lhs, rhs } => Kind::Compare {
            op: *op,
            lhs: Box::new(clone_expr(lhs)),
            rhs: Box::new(clone_expr(rhs)),
        },
        Kind::NearEq { lhs, rhs, tolerance } => Kind::NearEq {
            lhs: Box::new(clone_expr(lhs)),
            rhs: Box::new(clone_expr(rhs)),
            tolerance: *tolerance,
        },
        Kind::Fold { kind, terms } => {
            let mut out: Vec<Expr> = Vec::new();
            let mut i: usize = 0;
            while i < terms.len()
                invariant
                    e.kind == (Kind::Fold { kind: *kind, terms: *terms }),
                    i <= terms@.len(),
                    out@.len() == i,
                    forall|j: int| 0 <= j < i ==> (#[trigger] out@[j])@ == terms@[j]@,
                decreases terms@.len() - i,
            {
                assert(decreases_to!(*e => e.kind->terms@[i as int]));
                out.push(clone_expr(&terms[i]));
                i += 1;
            }
            proof {
                assert(model_expr(Expr { kind: Kind::Fold { kind: *kind, terms: out }, span: e.span }).kind->terms
                    =~= model_expr(*e).kind->terms);
            }
            Kind::Fold { kind: *kind, terms: out }
        },
    };
    Expr { kind, span: e.span }
}

/// A deep copy of `b`.
pub fn clone_block(b: &Block) -> (c: Block)
    ensures
        c@ == b@,
    decreases b,
{
    let mut assignments: Vec<Assignment> = Vec::new();
    let mut i: usize = 0;
    while i < b.assignments.len()
        invariant
            i <= b.assignments@.len(),
            assignments@.len() == i,
            forall|j: int|
                0 <= j < i ==> (#[trigger] assignments@[j]).slot == b.assignments@[j].slot
                    && assignments@[j].span == b.assignments@[j].span
                    && assignments@[j].value@ == b.assignments@[j].value@,
        decreases b.assignments@.len() - i,
    {
        assert(decreases_to!(*b => b.assignments@[i as int].value));
        let a = &b.assignments[i];
        assignments.push(Assignment { slot: a.slot, value: clone_expr(&a.value), span: a.span });
        i += 1;
    }
    let result = clone_expr(&b.result);
    let c = Block { assignments, result };
    proof {
        assert(model_block(c).assignments =~= model_block(*b).assignments);
    }
    c
}

impl View for Expr {
    type V = ExprModel;

    open spec fn view(&self) -> ExprModel {
        model_expr(*self)
    }
}

impl View for Block {
    type V = BlockModel;

    open spec fn view(&self) -> BlockModel {
        model_block(*self)
    }
}

impl View for Program {
    type V = ProgramModel;

    open spec fn view(&self) -> ProgramModel {
        ProgramModel { body: model_block(self.body), frame_size: self.frame_size }
    }
}

// ------------------------------------------------------------- scoping

/// Every local slot `e` names is below `frame` and every global id below
/// `globals`; an assignment's value names only slots below its own, which
/// were handed out before it.
pub open spec fn scoped(e: ExprModel, frame: nat, globals: nat) -> bool
    decreases e,
{
    match e.kind {
        KindModel::Literal(_) => true,
        KindModel::Global(id) => id.spec_index() < globals,
        KindModel::Local(slot) => slot.0 < frame,
        KindModel::DynamicIndex(index) => scoped(*index, frame, globals),
        KindModel::Unary { arg, .. } => scoped(*arg, frame, globals),
        KindModel::Binary { lhs, rhs, .. } => scoped(*lhs, frame, globals) && scoped(*rhs, frame, globals),
        KindModel::Compare { lhs, rhs, .. } => scoped(*lhs, frame, globals) && scoped(*rhs, frame, globals),
        KindModel::NearEq { lhs, rhs, .. } => scoped(*lhs, frame, globals) && scoped(*rhs, frame, globals),
        KindModel::Aggregate { lower, upper, param, body, .. } => scoped(*lower, frame, globals) && scoped(
            *upper,
            frame,
            globals,
        ) && param.0 < frame && scoped_block(*body, frame, globals),
        KindModel::Block(block) => scoped_block(*block, frame, globals),
        KindModel::Fold { terms, .. } => forall|i: int| 0 <= i < terms.len() ==> scoped(#[trigger] terms[i], frame, globals),
    }
}

/// [`scoped`] for a block.
pub open spec fn scoped_block(b: BlockModel, frame: nat, globals: nat) -> bool
    decreases b,
{
    &&& forall|i: int|
        0 <= i < b.assignments.len() ==> {
            let a = #[trigger] b.assignments[i];
            &&& a.slot.0 < frame
            &&& scoped(a.value, a.slot.0 as nat, globals)
        }
    &&& scoped(b.result, frame, globals)
}

/// Whether `e` holds a `var[i]` lookup anywhere.
pub open spec fn has_dynamic(e: ExprModel) -> bool
    decreases e,
{
    match e.kind {
        KindModel::DynamicIndex(_) => true,
        KindModel::Unary { arg, .. } => has_dynamic(*arg),
        KindModel::Binary { lhs, rhs, .. } => has_dynamic(*lhs) || has_dynamic(*rhs),
        KindModel::Compare { lhs, rhs, .. } => has_dynamic(*lhs) || has_dynamic(*rhs),
        KindModel::NearEq { lhs, rhs, .. } => has_dynamic(*lhs) || has_dynamic(*rhs),
        KindModel::Aggregate { lower, upper, body, .. } => has_dynamic(*lower) || has_dynamic(*upper)
            || block_has_dynamic(*body),
        KindModel::Block(block) => block_has_dynamic(*block),
        KindModel::Fold { terms, .. } => exists|i: int| 0 <= i < terms.len() && has_dynamic(#[trigger] terms[i]),
        _ => false,
    }
}

/// Whether `b` holds a `var[i]` lookup anywhere.
pub open spec fn block_has_dynamic(b: BlockModel) -> bool
    decreases b,
{
    ||| exists|i: int| 0 <= i < b.assignments.len() && has_dynamic(#[trigger] b.assignments[i].value)
    ||| has_dynamic(b.result)
}

/// Scoping survives more slots and more globals.
pub proof fn lemma_scoped_grows(e: ExprModel, f1: nat, g1: nat, f2: nat, g2: nat)
    requires
        scoped(e, f1, g1),
        f1 <= f2,
        g1 <= g2,
    ensures
        scoped(e, f2, g2),
    decreases e,
{
    match e.kind {
        KindModel::DynamicIndex(index) => lemma_scoped_grows(*index, f1, g1, f2, g2),
        KindModel::Unary { arg, .. } => lemma_scoped_grows(*arg, f1, g1, f2, g2),
        KindModel::Binary { lhs, rhs, .. } => {
            lemma_scoped_grows(*lhs, f1, g1, f2, g2);
            lemma_scoped_grows(*rhs, f1, g1, f2, g2);
        },
        KindModel::Compare { lhs, rhs, .. } => {
            lemma_scoped_grows(*lhs, f1, g1, f2, g2);
            lemma_scoped_grows(*rhs, f1, g1, f2, g2);
        },
        KindModel::NearEq { lhs, rhs, .. } => {
            lemma_scoped_grows(*lhs, f1, g1, f2, g2);
            lemma_scoped_grows(*rhs, f1, g1, f2, g2);
        },
        KindModel::Aggregate { lower, upper, body, .. } => {
            lemma_scoped_grows(*lower, f1, g1, f2, g2);
            lemma_scoped_grows(*upper, f1, g1, f2, g2);
            lemma_scoped_block_grows(*body, f1, g1, f2, g2);
        },
        KindModel::Block(block) => lemma_scoped_block_grows(*block, f1, g1, f2, g2),
        KindModel::Fold { terms, .. } => {
            assert forall|i: int| 0 <= i < terms.len() implies scoped(#[trigger] terms[i], f2, g2) by {
                lemma_scoped_grows(terms[i], f1, g1, f2, g2);
            }
        },
        _ => {},
    }
}

/// [`lemma_scoped_grows`] for a block.
pub proof fn lemma_scoped_block_grows(b: BlockModel, f1: nat, g1: nat, f2: nat, g2: nat)
    requires
        scoped_block(b, f1, g1),
        f1 <= f2,
        g1 <= g2,
    ensures
        scoped_block(b, f2, g2),
    decreases b,
{
    assert forall|i: int| 0 <= i < b.assignments.len() implies {
        let a = #[trigger] b.assignments[i];
        &&& a.slot.0 < f2
        &&& scoped(a.value, a.slot.0 as nat, g2)
    } by {
        lemma_scoped_grows(b.assignments[i].value, b.assignments[i].slot.0 as nat, g1, b.assignments[i].slot.0 as nat, g2);
    }
    lemma_scoped_grows(b.result, f1, g1, f2, g2);
}

} // verus!
