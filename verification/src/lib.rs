//! Babel: a small constraint-expression language for optimizer formulations.
//!
//! `x1 + x2 * cos(x3)^2` is a transform and `x1 < x2 + x3` is a constraint.
//! Source text is parsed into an [`Ast`], which one backend lowers to a tape
//! to run over batches of samples and another reads to search for points that
//! satisfy it.
//!
//! Boolean expressions evaluate to a scalar whose sign carries the truth
//! value: `<= 0` is true, `> 0` is false, which is the canonical
//! `g(x) <= 0` constraint form.
use vstd::prelude::*;

pub mod ast;
pub mod binary64;
pub mod cvg;
pub mod diagnostics;
pub mod eval;
pub mod frontend;
pub mod text;

use crate::ast::{scoped_block, Program, ProgramModel};
use crate::diagnostics::{
    BindError, CompilationFailure, Fault, Problem, ProblemKind, Span, line_of, column_of,
};
use crate::eval::lower::{block_aggregate_free, fits_tape, lemma_block_lowerable, lower, Tape};
use crate::frontend::parse::{offset, translate};
use crate::frontend::rewrite::{
    expand_powers, expanded_block, lemma_expand_block_scoped, lemma_unroll_block_scoped,
    unroll_aggregates, unrolled_block,
};
use crate::frontend::fold::{
    binary_is_function, fold_constants, lemma_fold_block_faults_are_non_finite, lemma_fold_block_scoped,
    unary_is_function,
};
use crate::frontend::invert::{inverse_is_function, invert_monotone, lemma_invert_block_scoped, Inverse};
use crate::frontend::scope::distinct_names;
use crate::ast::{BinaryOp, UnaryOp};

verus! {

/// A parsed expression, ready to be bound to a [`Schema`].
#[derive(Debug)]
pub struct Ast {
    source: String,
    program: Program,
    /// Distinct statically referenced names in first-reference order; a
    /// global id indexes into this.
    symbols: Vec<String>,
    contains_dynamic_lookup: bool,
    is_constraint: bool,
}

impl Ast {
    /// Every name of the tree is in scope, and the symbols are distinct.
    pub closed spec fn well_formed(&self) -> bool {
        &&& scoped_block(self.program@.body, self.program.frame_size as nat, self.symbols@.len() as nat)
        &&& distinct_names(self.symbols@)
    }

    /// What well-formedness asks of the parts.
    pub proof fn lemma_well_formed(&self)
        ensures
            self.well_formed() == (scoped_block(
                self.spec_program()@.body,
                self.spec_program().frame_size as nat,
                self.spec_symbols().len() as nat,
            ) && distinct_names(self.spec_symbols())),
    {
    }

    pub closed spec fn spec_program(&self) -> Program {
        self.program
    }

    pub closed spec fn spec_symbols(&self) -> Seq<String> {
        self.symbols@
    }

    pub closed spec fn spec_source(&self) -> Seq<char> {
        self.source@
    }

    /// An expression from parts, for a host that rewrites the tree between
    /// translation and unrolling.
    pub fn from_parts(
        source: &str,
        program: Program,
        symbols: Vec<String>,
        contains_dynamic_lookup: bool,
        is_constraint: bool,
    ) -> (ast: Ast)
        ensures
            ast.spec_source() == source@,
            ast.spec_program() == program,
            ast.spec_symbols() == symbols@,
            ast.spec_contains_dynamic_lookup() == contains_dynamic_lookup,
            ast.spec_is_constraint() == is_constraint,
    {
        Ast { source: source.to_string(), program, symbols, contains_dynamic_lookup, is_constraint }
    }

    /// The source text this was parsed from.
    pub fn source(&self) -> (source: &str)
        ensures
            source@ == self.spec_source(),
    {
        self.source.as_str()
    }

    /// The tree.
    pub fn program(&self) -> (program: &Program)
        ensures
            *program == self.spec_program(),
    {
        &self.program
    }

    /// Whether the expression uses `var[i]` dynamic lookup, which can read a
    /// variable it never names: a caller must not prune columns it believes
    /// unreferenced while this is true.
    #[verifier::when_used_as_spec(spec_contains_dynamic_lookup)]
    pub fn contains_dynamic_lookup(&self) -> (dynamic: bool)
        ensures
            dynamic == self.spec_contains_dynamic_lookup(),
    {
        self.contains_dynamic_lookup
    }

    pub closed spec fn spec_contains_dynamic_lookup(&self) -> bool {
        self.contains_dynamic_lookup
    }

    /// Whether the source was a comparison, so that the result reads as a
    /// constraint residual rather than a value.
    #[verifier::when_used_as_spec(spec_is_constraint)]
    pub fn is_constraint(&self) -> (constraint: bool)
        ensures
            constraint == self.spec_is_constraint(),
    {
        self.is_constraint
    }

    pub closed spec fn spec_is_constraint(&self) -> bool {
        self.is_constraint
    }

    /// Statically referenced names in first-reference order, indexed by
    /// global id.
    pub fn symbols(&self) -> (symbols: &[String])
        ensures
            symbols@ == self.spec_symbols(),
    {
        self.symbols.as_slice()
    }
}

/// An ordered set of variable names. Order is load-bearing: `var[i]` indexes
/// into it, one-based.
#[derive(Debug)]
pub struct Schema {
    names: Vec<String>,
}

impl Schema {
    pub closed spec fn spec_names(&self) -> Seq<String> {
        self.names@
    }

    /// A schema of `names` in declaration order.
    pub fn new(names: Vec<String>) -> (schema: Schema)
        ensures
            schema.spec_names() == names@,
    {
        Schema { names }
    }

    pub fn len(&self) -> (len: usize)
        ensures
            len == self.spec_names().len(),
    {
        self.names.len()
    }

    pub fn is_empty(&self) -> (empty: bool)
        ensures
            empty == (self.spec_names().len() == 0),
    {
        self.names.len() == 0
    }

    pub fn names(&self) -> (names: &[String])
        ensures
            names@ == self.spec_names(),
    {
        self.names.as_slice()
    }
}

/// Whether `name` is a legal variable name: a letter, an underscore or any
/// character past ASCII, then more of those or digits, and not a keyword.
/// Unicode names such as `π`, `测试` and `☕` are legal.
pub fn is_legal_variable_name(name: &str) -> (legal: bool)
    ensures
        legal == crate::frontend::parse::is_variable_text(name@),
{
    !name.is_empty() && crate::frontend::parse::parses_as_variable(name)
}

/// Problems located in `source` from faults that know only their spans.
fn render(source: &str, faults: Vec<Fault>) -> (failure: CompilationFailure)
    ensures
        failure.source@ == source@,
        failure.problems@.len() == faults@.len(),
        forall|i: int|
            0 <= i < faults@.len() ==> (#[trigger] failure.problems@[i]).kind == faults@[i].kind
                && failure.problems@[i].span == faults@[i].span && failure.problems@[i].source@ == source@,
{
    let mut problems: Vec<Problem> = Vec::new();
    let mut i: usize = 0;
    while i < faults.len()
        invariant
            i <= faults@.len(),
            problems@.len() == i,
            forall|k: int|
                0 <= k < i ==> (#[trigger] problems@[k]).kind == faults@[k].kind && problems@[k].span
                    == faults@[k].span && problems@[k].source@ == source@,
        decreases faults@.len() - i,
    {
        let fault = &faults[i];
        let kind = clone_kind(&fault.kind);
        problems.push(Problem::new(kind, source, fault.span));
        i += 1;
    }
    CompilationFailure { source: source.to_string(), problems }
}

/// A copy of a problem kind.
fn clone_kind(kind: &ProblemKind) -> (copy: ProblemKind)
    ensures
        copy == *kind,
{
    match kind {
        ProblemKind::EmptyExpression => ProblemKind::EmptyExpression,
        ProblemKind::Syntax { message, from_lexer } => ProblemKind::Syntax {
            message: message.clone(),
            from_lexer: *from_lexer,
        },
        ProblemKind::Unsupported { feature } => ProblemKind::Unsupported { feature: feature.clone() },
        ProblemKind::IllegalAggregateBound { bound, value } => ProblemKind::IllegalAggregateBound {
            bound: *bound,
            value: *value,
        },
        ProblemKind::DynamicIndexOutOfBounds { requested_1index, available } =>
            ProblemKind::DynamicIndexOutOfBounds {
            requested_1index: *requested_1index,
            available: *available,
        },
        ProblemKind::DynamicIndexNotAnInteger { value } => ProblemKind::DynamicIndexNotAnInteger {
            value: *value,
        },
        ProblemKind::NonFiniteConstant { value } => ProblemKind::NonFiniteConstant { value: *value },
        ProblemKind::NonFiniteValue { value } => ProblemKind::NonFiniteValue { value: *value },
    }
}

/// Parses `source` into an expression without the two passes that compute
/// in floating point: translation, then aggregates over literal bounds
/// unrolled, then whole powers expanded. `literal_bits` gives the bits of
/// the binary64 value nearest to a number's text. [`parse`] is the whole
/// pipeline.
///
/// Empty text is one `EmptyExpression` problem at the start; text that is not
/// babel is one syntax problem where it stops being babel; an aggregate bound
/// that is a literal but not a whole number is an `IllegalAggregateBound`.
pub fn parse_unfolded<F: Fn(&str) -> u64>(source: &str, literal_bits: &F) -> (r: Result<Ast, CompilationFailure>)
    requires
        forall|s: &str| literal_bits.requires((s,)),
    ensures
        source@.len() == 0 <==> (r matches Err(failure) && failure.problems@.len() == 1
            && failure.problems@[0].kind == ProblemKind::EmptyExpression),
        r matches Ok(ast) ==> ast.spec_source() == source@ && ast.well_formed(),
        r matches Err(failure) ==> failure.source@ == source@ && failure.problems@.len() >= 1,
{
    if source.is_empty() {
        let problem = Problem::new(ProblemKind::EmptyExpression, source, Span::new(0, 0));
        let problems = vec![problem];
        return Err(CompilationFailure { source: source.to_string(), problems });
    }
    let lowered = match translate(source, literal_bits) {
        Ok(lowered) => lowered,
        Err(error) => {
            let span = Span::new(offset(error.start), offset(error.end));
            let kind = ProblemKind::Syntax { message: error.message, from_lexer: error.from_lexer };
            let problem = Problem::new(kind, source, span);
            let problems = vec![problem];
            return Err(CompilationFailure { source: source.to_string(), problems });
        },
    };
    let ghost translated = lowered.program@;
    let program = match unroll_aggregates(lowered.program) {
        Ok(program) => program,
        Err(faults) => {
            proof {
                crate::frontend::rewrite::lemma_unroll_block_faults_are_bounds(translated.body);
            }
            return Err(render(source, faults));
        },
    };
    let program = expand_powers(program);
    proof {
        lemma_unroll_block_scoped(translated.body, translated.frame_size as nat, lowered.symbols@.len() as nat);
        lemma_expand_block_scoped(
            unrolled_block(translated.body)->Ok_0,
            translated.frame_size as nat,
            lowered.symbols@.len() as nat,
        );
    }
    Ok(
        Ast {
            source: source.to_string(),
            program,
            symbols: lowered.symbols,
            contains_dynamic_lookup: lowered.contains_dynamic_lookup,
            is_constraint: lowered.is_constraint,
        },
    )
}

/// Parses `source` into an expression, the whole pipeline: translation;
/// constants folded, under the host's `unary` and `binary` arithmetic;
/// comparisons against strictly monotone functions inverted, under the
/// host's `inverse`; aggregates over literal bounds unrolled; whole powers
/// expanded. `literal_bits` gives the bits of the binary64 value nearest to
/// a number's text.
///
/// Empty text is one `EmptyExpression` problem at the start; text that is not
/// babel is one syntax problem where it stops being babel; a constant that
/// works out to a value that is not finite is one `NonFiniteConstant`
/// problem where it stands; an aggregate bound that is a literal but not a
/// whole number is an `IllegalAggregateBound`.
pub fn parse<L, U, B, I>(source: &str, literal_bits: &L, unary: &U, binary: &B, inverse: &I) -> (r: Result<
    Ast,
    CompilationFailure,
>) where L: Fn(&str) -> u64, U: Fn(UnaryOp, u64) -> u64, B: Fn(BinaryOp, u64, u64) -> u64, I: Fn(Inverse, u64) -> u64
    requires
        forall|s: &str| literal_bits.requires((s,)),
        unary_is_function(*unary),
        binary_is_function(*binary),
        inverse_is_function(*inverse),
    ensures
        source@.len() == 0 <==> (r matches Err(failure) && failure.problems@.len() == 1
            && failure.problems@[0].kind == ProblemKind::EmptyExpression),
        r matches Ok(ast) ==> ast.spec_source() == source@ && ast.well_formed(),
        r matches Err(failure) ==> failure.source@ == source@ && failure.problems@.len() >= 1,
{
    if source.is_empty() {
        let problem = Problem::new(ProblemKind::EmptyExpression, source, Span::new(0, 0));
        let problems = vec![problem];
        return Err(CompilationFailure { source: source.to_string(), problems });
    }
    let lowered = match translate(source, literal_bits) {
        Ok(lowered) => lowered,
        Err(error) => {
            let span = Span::new(offset(error.start), offset(error.end));
            let kind = ProblemKind::Syntax { message: error.message, from_lexer: error.from_lexer };
            let problem = Problem::new(kind, source, span);
            let problems = vec![problem];
            return Err(CompilationFailure { source: source.to_string(), problems });
        },
    };
    let ghost translated = lowered.program@;
    let ghost globals = lowered.symbols@.len() as nat;
    let program = match fold_constants(lowered.program, unary, binary) {
        Ok(program) => program,
        Err(faults) => {
            proof {
                lemma_fold_block_faults_are_non_finite(translated.body, *unary, *binary);
            }
            return Err(render(source, faults));
        },
    };
    proof {
        lemma_fold_block_scoped(translated.body, translated.frame_size as nat, globals, *unary, *binary);
    }
    let ghost folded = program@;
    let program = invert_monotone(program, inverse);
    proof {
        lemma_invert_block_scoped(folded.body, folded.frame_size as nat, globals, *inverse);
    }
    let ghost inverted = program@;
    let program = match unroll_aggregates(program) {
        Ok(program) => program,
        Err(faults) => {
            proof {
                crate::frontend::rewrite::lemma_unroll_block_faults_are_bounds(inverted.body);
            }
            return Err(render(source, faults));
        },
    };
    let program = expand_powers(program);
    proof {
        lemma_unroll_block_scoped(inverted.body, inverted.frame_size as nat, globals);
        lemma_expand_block_scoped(
            unrolled_block(inverted.body)->Ok_0,
            inverted.frame_size as nat,
            globals,
        );
    }
    Ok(
        Ast {
            source: source.to_string(),
            program,
            symbols: lowered.symbols,
            contains_dynamic_lookup: lowered.contains_dynamic_lookup,
            is_constraint: lowered.is_constraint,
        },
    )
}

/// Why an expression could not be compiled.
#[derive(Debug)]
pub enum CompileError {
    /// The schema omits a symbol the expression needs.
    Bind(BindError),
    /// The tape needs more registers than a `u16` can number.
    TooLarge,
}

/// An expression resolved against a schema and lowered, ready to run over a
/// batch: one column per sample, one row per schema variable.
#[derive(Debug)]
pub struct CompiledExpression {
    pub tape: Tape,
    /// For diagnostics: a run-time failure is located in it.
    pub source: String,
    pub schema: Schema,
}

impl CompiledExpression {
    pub fn schema(&self) -> (schema: &Schema)
        ensures
            *schema == self.schema,
    {
        &self.schema
    }

    pub fn source(&self) -> (source: &str)
        ensures
            source@ == self.source@,
    {
        self.source.as_str()
    }

    pub fn tape(&self) -> (tape: &Tape)
        ensures
            *tape == self.tape,
    {
        &self.tape
    }
}

/// `sorted` holds exactly the texts of `names`, each once, in
/// [`crate::text::text_less`] order.
pub open spec fn sorted_set_of(sorted: Seq<String>, names: Seq<String>) -> bool {
    &&& forall|i: int, j: int| 0 <= i < j < sorted.len() ==> crate::text::text_less(sorted[i]@, sorted[j]@)
    &&& forall|i: int| 0 <= i < sorted.len() ==> appears_in(#[trigger] sorted[i]@, names)
    &&& forall|j: int| 0 <= j < names.len() ==> appears_in(#[trigger] names[j]@, sorted)
}

/// Some name of `names` is the text `t`.
pub open spec fn appears_in(t: Seq<char>, names: Seq<String>) -> bool {
    exists|j: int| 0 <= j < names.len() && #[trigger] names[j]@ == t
}

/// Witnesses for both directions make `sorted` the sorted set of `names`.
proof fn lemma_witnessed_sorted_set(sorted: Seq<String>, names: Seq<String>, origin: Seq<int>, place: Seq<int>)
    requires
        forall|i: int, j: int| 0 <= i < j < sorted.len() ==> crate::text::text_less(sorted[i]@, sorted[j]@),
        origin.len() == sorted.len(),
        forall|i: int| 0 <= i < sorted.len() ==> 0 <= #[trigger] origin[i] < names.len() && sorted[i]@ == names[origin[i]]@,
        place.len() == names.len(),
        forall|j: int| 0 <= j < names.len() ==> 0 <= #[trigger] place[j] < sorted.len() && sorted[place[j]]@ == names[j]@,
    ensures
        sorted_set_of(sorted, names),
{
    assert forall|i: int| 0 <= i < sorted.len() implies appears_in(#[trigger] sorted[i]@, names) by {
        let j = origin[i];
        assert(names[j]@ == sorted[i]@);
    }
    assert forall|j: int| 0 <= j < names.len() implies appears_in(#[trigger] names[j]@, sorted) by {
        let i = place[j];
        assert(sorted[i]@ == names[j]@);
    }
}

/// Inserting `name` where everything before sorts before it and everything
/// from there on after it keeps the order.
proof fn lemma_insertion_keeps_order(before: Seq<String>, name: Seq<char>, p: int)
    requires
        0 <= p <= before.len(),
        forall|i: int, j: int| 0 <= i < j < before.len() ==> crate::text::text_less(before[i]@, before[j]@),
        forall|i: int| 0 <= i < p ==> crate::text::text_less(before[i]@, name),
        p < before.len() ==> !crate::text::text_less(before[p]@, name) && before[p]@ != name,
    ensures
        forall|i: int| p <= i < before.len() ==> crate::text::text_less(name, before[i]@),
{
    if p < before.len() {
        crate::text::lemma_text_less_trichotomy(before[p]@, name);
        assert forall|i: int| p <= i < before.len() implies crate::text::text_less(name, before[i]@) by {
            if i > p {
                crate::text::lemma_text_less_transitive(name, before[p]@, before[i]@);
            }
        }
    }
}

/// The first position of `name` among `names`.
pub open spec fn first_position(names: Seq<String>, name: Seq<char>) -> Option<int>
    decreases names.len(),
{
    if names.len() == 0 {
        None
    } else {
        match first_position(names.drop_last(), name) {
            Some(i) => Some(i),
            None => if names.last()@ == name {
                Some(names.len() - 1)
            } else {
                None
            },
        }
    }
}

/// The symbols `names` does not supply, in order, as text.
pub open spec fn missing_symbols(symbols: Seq<String>, names: Seq<String>) -> Seq<Seq<char>>
    decreases symbols.len(),
{
    if symbols.len() == 0 {
        Seq::empty()
    } else {
        let rest = missing_symbols(symbols.drop_last(), names);
        if first_position(names, symbols.last()@) is None {
            rest.push(symbols.last()@)
        } else {
            rest
        }
    }
}

/// The first position of `name` among `names`.
pub(crate) fn find_position(names: &[String], name: &String) -> (p: Option<usize>)
    ensures
        p == (match first_position(names@, name@) {
            Some(i) => Some(i as usize),
            None => None::<usize>,
        }),
{
    let mut i: usize = 0;
    while i < names.len()
        invariant
            i <= names@.len(),
            first_position(names@.take(i as int), name@) is None,
        decreases names@.len() - i,
    {
        proof {
            assert(names@.take(i + 1).drop_last() =~= names@.take(i as int));
        }
        if names[i] == *name {
            proof {
                lemma_first_position_prefix(names@, name@, i + 1);
            }
            return Some(i);
        }
        i += 1;
    }
    proof {
        assert(names@.take(names@.len() as int) =~= names@);
    }
    None
}

/// A position found in a prefix is the position in the whole.
proof fn lemma_first_position_prefix(names: Seq<String>, name: Seq<char>, k: int)
    requires
        0 <= k <= names.len(),
        first_position(names.take(k), name) is Some,
    ensures
        first_position(names, name) == first_position(names.take(k), name),
    decreases names.len() - k,
{
    if k < names.len() {
        assert(names.take(k + 1).drop_last() =~= names.take(k));
        lemma_first_position_prefix(names, name, k + 1);
    } else {
        assert(names.take(k) =~= names);
    }
}

impl Ast {
    /// The same names as [`Ast::symbols`], as a set sorted by
    /// [`crate::text::text_less`], for callers that only care about membership.
    pub fn statically_referenced_symbols(&self) -> (sorted: Vec<String>)
        ensures
            sorted_set_of(sorted@, self.spec_symbols()),
    {
        let mut sorted: Vec<String> = Vec::new();
        // Where each sorted name came from, and where each name went.
        let ghost mut origin: Seq<int> = Seq::empty();
        let ghost mut place: Seq<int> = Seq::empty();
        let mut k: usize = 0;
        while k < self.symbols.len()
            invariant
                k <= self.symbols@.len(),
                forall|i: int, j: int| 0 <= i < j < sorted@.len() ==> crate::text::text_less(sorted@[i]@, sorted@[j]@),
                origin.len() == sorted@.len(),
                forall|i: int| 0 <= i < sorted@.len() ==> 0 <= #[trigger] origin[i] < k && sorted@[i]@ == self.symbols@[origin[i]]@,
                place.len() == k,
                forall|j: int| 0 <= j < k ==> 0 <= #[trigger] place[j] < sorted@.len() && sorted@[place[j]]@ == self.symbols@[j]@,
            decreases self.symbols@.len() - k,
        {
            let name = self.symbols[k].clone();
            let mut p: usize = 0;
            while p < sorted.len() && crate::text::less_text(sorted[p].as_str(), name.as_str())
                invariant
                    p <= sorted@.len(),
                    forall|i: int| 0 <= i < p ==> crate::text::text_less(sorted@[i]@, name@),
                decreases sorted@.len() - p,
            {
                p += 1;
            }
            let ghost before = sorted@;
            let duplicate = p < sorted.len() && crate::text::same_text(sorted[p].as_str(), name.as_str());
            if duplicate {
                proof {
                    place = place.push(p as int);
                }
            } else {
                proof {
                    lemma_insertion_keeps_order(before, name@, p as int);
                }
                sorted.insert(p, name);
                proof {
                    let old_place = place;
                    origin = origin.insert(p as int, k as int);
                    place = Seq::new(k as nat, |j: int| if old_place[j] >= p { old_place[j] + 1 } else { old_place[j] }).push(p as int);
                    assert forall|i: int, j: int| 0 <= i < j < sorted@.len() implies crate::text::text_less(
                        sorted@[i]@,
                        sorted@[j]@,
                    ) by {
                        if j < p {
                            assert(sorted@[i] == before[i] && sorted@[j] == before[j]);
                        } else if j == p {
                            assert(sorted@[i] == before[i]);
                        } else if i < p {
                            assert(sorted@[i] == before[i] && sorted@[j] == before[j - 1]);
                            crate::text::lemma_text_less_transitive(before[i]@, name@, before[j - 1]@);
                        } else if i == p {
                            assert(sorted@[j] == before[j - 1]);
                        } else {
                            assert(sorted@[i] == before[i - 1] && sorted@[j] == before[j - 1]);
                        }
                    }
                    assert forall|j: int| 0 <= j < k + 1 implies 0 <= #[trigger] place[j] < sorted@.len()
                        && sorted@[place[j]]@ == self.symbols@[j]@ by {
                        if j < k {
                            if old_place[j] >= p {
                                assert(sorted@[old_place[j] + 1] == before[old_place[j]]);
                            } else {
                                assert(sorted@[old_place[j]] == before[old_place[j]]);
                            }
                        }
                    }
                }
            }
            k += 1;
        }
        proof {
            lemma_witnessed_sorted_set(sorted@, self.symbols@, origin, place);
        }
        sorted
    }

    /// Whether an aggregate with bounds known only at run time is left, which
    /// the tape cannot yet lower.
    pub fn has_runtime_aggregate(&self) -> (found: bool)
        ensures
            found == !block_aggregate_free(self.spec_program()@.body),
    {
        !crate::eval::lower::is_block_aggregate_free(&self.program.body)
    }
}

/// Resolves an expression's symbols against a schema and lowers it. A symbol
/// resolves to the first position of its name in the schema; the symbols the
/// schema omits are reported, in order, as a [`BindError`].
pub fn compile(ast: &Ast, schema: &Schema) -> (r: Result<CompiledExpression, CompileError>)
    requires
        ast.well_formed(),
        block_aggregate_free(ast.spec_program()@.body),
        ast.spec_program().frame_size <= 0xffff,
        schema.spec_names().len() <= u32::MAX,
    ensures
        r matches Err(CompileError::Bind(e)) ==> missing_symbols(ast.spec_symbols(), schema.spec_names()).len() > 0
            && e.missing@.map_values(|m: String| m@) == missing_symbols(ast.spec_symbols(), schema.spec_names()),
        missing_symbols(ast.spec_symbols(), schema.spec_names()).len() > 0 ==> r matches Err(CompileError::Bind(_)),
        r matches Err(CompileError::TooLarge) ==> !fits_tape(ast.spec_program()@.body, ast.spec_program().frame_size as nat),
        missing_symbols(ast.spec_symbols(), schema.spec_names()).len() == 0 && fits_tape(
            ast.spec_program()@.body,
            ast.spec_program().frame_size as nat,
        ) ==> r is Ok,
        r matches Ok(c) ==> c.source@ == ast.spec_source() && c.schema.spec_names() == schema.spec_names() && c.tape.locals
            == ast.spec_program().frame_size && c.tape.runnable(schema.spec_names().len()),
{
    let mut positions: Vec<u32> = Vec::new();
    let mut missing: Vec<String> = Vec::new();
    let mut i: usize = 0;
    while i < ast.symbols.len()
        invariant
            i <= ast.symbols@.len(),
            schema.names@.len() <= u32::MAX,
            missing@.map_values(|m: String| m@) == missing_symbols(ast.symbols@.take(i as int), schema.names@),
            missing@.len() == 0 ==> positions@.len() == i,
            forall|k: int| 0 <= k < positions@.len() ==> #[trigger] positions@[k] < schema.names@.len(),
        decreases ast.symbols@.len() - i,
    {
        proof {
            assert(ast.symbols@.take(i + 1).drop_last() =~= ast.symbols@.take(i as int));
            assert(ast.symbols@.take(i + 1).last() == ast.symbols@[i as int]);
        }
        match find_position(&schema.names, &ast.symbols[i]) {
            Some(position) => {
                proof {
                    lemma_first_position_bound(schema.names@, ast.symbols@[i as int]@);
                }
                positions.push(position as u32);
            },
            None => {
                let ghost before = missing@;
                missing.push(ast.symbols[i].clone());
                proof {
                    assert(missing@.map_values(|m: String| m@) =~= before.map_values(|m: String| m@).push(
                        ast.symbols@[i as int]@,
                    ));
                }
            },
        }
        i += 1;
    }
    proof {
        assert(ast.symbols@.take(ast.symbols@.len() as int) =~= ast.symbols@);
    }
    if missing.len() > 0 {
        return Err(CompileError::Bind(BindError { missing }));
    }
    proof {
        lemma_block_lowerable(ast.program@.body, ast.program.frame_size as nat, ast.symbols@.len() as nat);
    }
    match lower(&ast.program, &positions, schema.names.len()) {
        Some(tape) => Ok(
            CompiledExpression { tape, source: ast.source.clone(), schema: Schema { names: clone_names(&schema.names) } },
        ),
        None => Err(CompileError::TooLarge),
    }
}

/// The symbols of `ast` that `schema` does not name, in order: what
/// [`compile`] reports as a [`BindError`].
pub fn unbound_symbols(ast: &Ast, schema: &Schema) -> (missing: Vec<String>)
    ensures
        missing@.map_values(|m: String| m@) == missing_symbols(ast.spec_symbols(), schema.spec_names()),
{
    let mut missing: Vec<String> = Vec::new();
    let mut i: usize = 0;
    proof {
        assert(ast.symbols@.take(0) =~= Seq::<String>::empty());
        assert(missing@.map_values(|m: String| m@) =~= Seq::<Seq<char>>::empty());
    }
    while i < ast.symbols.len()
        invariant
            i <= ast.symbols@.len(),
            missing@.map_values(|m: String| m@) == missing_symbols(ast.symbols@.take(i as int), schema.names@),
        decreases ast.symbols@.len() - i,
    {
        proof {
            assert(ast.symbols@.take(i + 1).drop_last() =~= ast.symbols@.take(i as int));
            assert(ast.symbols@.take(i + 1).last() == ast.symbols@[i as int]);
        }
        if find_position(&schema.names, &ast.symbols[i]).is_none() {
            let ghost before = missing@;
            missing.push(ast.symbols[i].clone());
            proof {
                assert(missing@.map_values(|m: String| m@) =~= before.map_values(|m: String| m@).push(
                    ast.symbols@[i as int]@,
                ));
            }
        }
        i += 1;
    }
    proof {
        assert(ast.symbols@.take(ast.symbols@.len() as int) =~= ast.symbols@);
    }
    missing
}

pub(crate) proof fn lemma_first_position_bound(names: Seq<String>, name: Seq<char>)
    ensures
        first_position(names, name) matches Some(i) ==> 0 <= i < names.len(),
    decreases names.len(),
{
    if names.len() > 0 {
        lemma_first_position_bound(names.drop_last(), name);
    }
}

/// A copy of a list of names.
fn clone_names(names: &Vec<String>) -> (copy: Vec<String>)
    ensures
        copy@ == names@,
{
    let mut copy: Vec<String> = Vec::new();
    let mut i: usize = 0;
    while i < names.len()
        invariant
            i <= names@.len(),
            copy@ == names@.take(i as int),
        decreases names@.len() - i,
    {
        copy.push(names[i].clone());
        proof {
            assert(copy@ =~= names@.take(i + 1));
        }
        i += 1;
    }
    proof {
        assert(names@.take(names@.len() as int) =~= names@);
    }
    copy
}

} // verus!
