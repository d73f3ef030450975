//! Running a compiled expression: one row, a batch of samples, or one
//! point given by name.
use vstd::prelude::*;

use super::lane::{lane_result, run_lane, NAN_BITS};
use super::lower::{LaneFault, Tape};
use crate::ast::{BinaryOp, UnaryOp};
use crate::diagnostics::{column_of, line_of, EvalError, Problem, RuntimeProblem};
use crate::frontend::fold::{binary_is_function, unary_is_function};
use crate::eval::lower::block_aggregate_free;
use crate::{compile, missing_symbols, Ast, CompileError, CompiledExpression, Schema};

verus! {

/// Samples laid out column by column: `columns` samples of `rows` values
/// each, sample `c`'s value `r` at `values[c * rows + r]`.
#[derive(Debug, Clone, PartialEq)]
pub struct Samples {
    pub rows: usize,
    pub columns: usize,
    pub values: Vec<u64>,
}

impl Samples {
    /// The layout holds: exactly `rows * columns` values.
    pub open spec fn laid_out(self) -> bool {
        self.values@.len() == self.rows * self.columns
    }

    /// Sample `c`.
    pub open spec fn column(self, c: int) -> Seq<u64> {
        self.values@.subrange(c * self.rows, (c + 1) * self.rows)
    }
}

/// The names of `names` paired with the values of `row`, in order, as far
/// as both go.
pub open spec fn bindings(names: Seq<String>, row: Seq<u64>) -> Seq<(String, u64)> {
    let n = if names.len() <= row.len() {
        names.len()
    } else {
        row.len()
    };
    Seq::new(n, |i: int| (names[i], row[i]))
}

impl CompiledExpression {
    /// Whether `problem` is a lane's fault located in the source: its kind
    /// and span, with line and column derived from where the span starts.
    pub open spec fn locates(self, problem: Problem, lane: LaneFault) -> bool {
        let fault = self.tape.spec_fault(lane);
        &&& problem.kind == fault.kind
        &&& problem.source@ == self.source@
        &&& problem.span == fault.span
        &&& problem.line_idx == line_of(self.source@, fault.span.start as int)
        &&& problem.column_idx == column_of(self.source@, fault.span.start as int)
    }

    /// Whether `p` is what a caller is told of a lane's fault on `row`.
    pub open spec fn reports(self, p: RuntimeProblem, lane: LaneFault, sample: Option<usize>, row: Seq<u64>) -> bool {
        &&& self.locates(p.problem, lane)
        &&& p.sample == sample
        &&& p.locals@.len() == 0
        &&& p.parameters@ == bindings(self.schema.spec_names(), row)
    }

    /// The residual sample `c` of `samples` gets: its value, or a NaN where
    /// it faults.
    pub open spec fn residual_of<U: Fn(UnaryOp, u64) -> u64, B: Fn(BinaryOp, u64, u64) -> u64>(
        self,
        samples: Samples,
        c: int,
        unary: U,
        binary: B,
    ) -> u64 {
        match lane_result(self.tape, samples.column(c), unary, binary) {
            Ok(x) => x,
            Err(_) => NAN_BITS,
        }
    }

    /// Whether `p` reports the first sample of `samples` to fault.
    pub open spec fn reports_first_fault<U: Fn(UnaryOp, u64) -> u64, B: Fn(BinaryOp, u64, u64) -> u64>(
        self,
        p: RuntimeProblem,
        samples: Samples,
        unary: U,
        binary: B,
    ) -> bool {
        match p.sample {
            Some(c) => {
                &&& c < samples.columns
                &&& forall|d: int| 0 <= d < c ==> #[trigger] lane_result(self.tape, samples.column(d), unary, binary) is Ok
                &&& match lane_result(self.tape, samples.column(c as int), unary, binary) {
                    Err(lane) => self.reports(p, lane, Some(c), samples.column(c as int)),
                    Ok(_) => false,
                }
            },
            None => false,
        }
    }

    fn runtime_failure(&self, lane: LaneFault, sample: Option<usize>, row: &[u64]) -> (p: RuntimeProblem)
        requires
            lane.insn < self.tape.insns@.len(),
            self.tape.spans@.len() == self.tape.insns@.len(),
        ensures
            self.reports(p, lane, sample, row@),
    {
        let fault = self.tape.fault(lane);
        let problem = Problem::new(fault.kind, self.source.as_str(), fault.span);
        let names = self.schema.names();
        let mut parameters: Vec<(String, u64)> = Vec::new();
        let mut i: usize = 0;
        while i < names.len() && i < row.len()
            invariant
                i <= names@.len(),
                i <= row@.len(),
                names@ == self.schema.spec_names(),
                parameters@ =~= bindings(names@, row@).take(i as int),
            decreases names@.len() - i,
        {
            parameters.push((names[i].clone(), row[i]));
            i += 1;
        }
        proof {
            assert(parameters@ =~= bindings(names@, row@));
        }
        RuntimeProblem { problem, sample, locals: Vec::new(), parameters }
    }

    /// One residual for one row; see [`lane_result`]. A row of the wrong
    /// width is refused, and a fault is reported against the source.
    pub fn eval_row<U: Fn(UnaryOp, u64) -> u64, B: Fn(BinaryOp, u64, u64) -> u64>(
        &self,
        row: &[u64],
        unary: &U,
        binary: &B,
    ) -> (r: Result<u64, EvalError>)
        requires
            self.tape.runnable(self.schema.spec_names().len()),
            unary_is_function(*unary),
            binary_is_function(*binary),
        ensures
            row@.len() != self.schema.spec_names().len() ==> r == Err::<u64, EvalError>(
                EvalError::RowWidthMismatch { expected: self.schema.spec_names().len() as usize, actual: row@.len() as usize },
            ),
            row@.len() == self.schema.spec_names().len() ==> match lane_result(self.tape, row@, *unary, *binary) {
                Ok(v) => r == Ok::<u64, EvalError>(v),
                Err(lane) => r matches Err(EvalError::Runtime(p)) && self.reports(*p, lane, None, row@),
            },
    {
        if row.len() != self.schema.len() {
            return Err(EvalError::RowWidthMismatch { expected: self.schema.len(), actual: row.len() });
        }
        match run_lane(&self.tape, row, unary, binary) {
            Ok(v) => Ok(v),
            Err(lane) => {
                proof {
                    lemma_fault_in_tape(self.tape, row@, *unary, *binary);
                }
                Err(EvalError::Runtime(Box::new(self.runtime_failure(lane, None, row))))
            },
        }
    }

    /// One residual per sample; see [`lane_result`]. Samples of the wrong
    /// height are refused; the first sample to fault, in order, is reported
    /// against the source with its index.
    pub fn eval<U: Fn(UnaryOp, u64) -> u64, B: Fn(BinaryOp, u64, u64) -> u64>(
        &self,
        samples: &Samples,
        unary: &U,
        binary: &B,
    ) -> (r: Result<Vec<u64>, EvalError>)
        requires
            self.tape.runnable(self.schema.spec_names().len()),
            samples.laid_out(),
            unary_is_function(*unary),
            binary_is_function(*binary),
        ensures
            samples.rows != self.schema.spec_names().len() ==> r == Err::<Vec<u64>, EvalError>(
                EvalError::RowWidthMismatch { expected: self.schema.spec_names().len() as usize, actual: samples.rows },
            ),
            samples.rows == self.schema.spec_names().len() ==> match r {
                Ok(v) => v@.len() == samples.columns && forall|c: int|
                    0 <= c < samples.columns ==> lane_result(self.tape, samples.column(c), *unary, *binary)
                        == Ok::<u64, LaneFault>(#[trigger] v@[c]),
                Err(EvalError::Runtime(p)) => self.reports_first_fault(*p, *samples, *unary, *binary),
                _ => false,
            },
    {
        self.evaluate(samples, false, unary, binary)
    }

    /// As [`CompiledExpression::eval`], but a sample that faults gets a NaN
    /// in its slot instead of stopping the batch.
    pub fn eval_lenient<U: Fn(UnaryOp, u64) -> u64, B: Fn(BinaryOp, u64, u64) -> u64>(
        &self,
        samples: &Samples,
        unary: &U,
        binary: &B,
    ) -> (r: Result<Vec<u64>, EvalError>)
        requires
            self.tape.runnable(self.schema.spec_names().len()),
            samples.laid_out(),
            unary_is_function(*unary),
            binary_is_function(*binary),
        ensures
            samples.rows != self.schema.spec_names().len() ==> r == Err::<Vec<u64>, EvalError>(
                EvalError::RowWidthMismatch { expected: self.schema.spec_names().len() as usize, actual: samples.rows },
            ),
            samples.rows == self.schema.spec_names().len() ==> (r matches Ok(v) && v@.len() == samples.columns
                && forall|c: int|
                0 <= c < samples.columns ==> #[trigger] v@[c] == self.residual_of(*samples, c, *unary, *binary)),
    {
        self.evaluate(samples, true, unary, binary)
    }

    fn evaluate<U: Fn(UnaryOp, u64) -> u64, B: Fn(BinaryOp, u64, u64) -> u64>(
        &self,
        samples: &Samples,
        lenient: bool,
        unary: &U,
        binary: &B,
    ) -> (r: Result<Vec<u64>, EvalError>)
        requires
            self.tape.runnable(self.schema.spec_names().len()),
            samples.laid_out(),
            unary_is_function(*unary),
            binary_is_function(*binary),
        ensures
            samples.rows != self.schema.spec_names().len() ==> r == Err::<Vec<u64>, EvalError>(
                EvalError::RowWidthMismatch { expected: self.schema.spec_names().len() as usize, actual: samples.rows },
            ),
            samples.rows == self.schema.spec_names().len() ==> match r {
                Ok(v) => v@.len() == samples.columns && forall|c: int|
                    0 <= c < samples.columns ==> #[trigger] v@[c] == self.residual_of(*samples, c, *unary, *binary)
                        && (!lenient ==> lane_result(self.tape, samples.column(c), *unary, *binary) is Ok),
                Err(EvalError::Runtime(p)) => !lenient && self.reports_first_fault(*p, *samples, *unary, *binary),
                _ => false,
            },
    {
        let rows = samples.rows;
        if rows != self.schema.len() {
            return Err(EvalError::RowWidthMismatch { expected: self.schema.len(), actual: rows });
        }
        let mut residuals: Vec<u64> = Vec::new();
        let mut c: usize = 0;
        let mut start: usize = 0;
        while c < samples.columns
            invariant
                c <= samples.columns,
                start == c * rows,
                rows == samples.rows,
                rows == self.schema.spec_names().len(),
                samples.laid_out(),
                self.tape.runnable(self.schema.spec_names().len()),
                unary_is_function(*unary),
                binary_is_function(*binary),
                residuals@.len() == c,
                forall|d: int|
                    0 <= d < c ==> #[trigger] residuals@[d] == self.residual_of(*samples, d, *unary, *binary)
                        && (!lenient ==> lane_result(self.tape, samples.column(d), *unary, *binary) is Ok),
            decreases samples.columns - c,
        {
            proof {
                assert(c * rows + rows <= samples.values.len()) by (nonlinear_arith)
                    requires
                        c < samples.columns,
                        samples.values@.len() == rows * samples.columns,
                ;
                assert((c + 1) * rows == c * rows + rows) by (nonlinear_arith);
            }
            let end = start + rows;
            let mut row: Vec<u64> = Vec::new();
            let mut k: usize = start;
            while k < end
                invariant
                    start <= k <= end,
                    end <= samples.values@.len(),
                    row@ =~= samples.values@.subrange(start as int, k as int),
                decreases end - k,
            {
                row.push(samples.values[k]);
                k += 1;
            }
            proof {
                assert(row@ =~= samples.column(c as int));
            }
            match run_lane(&self.tape, row.as_slice(), unary, binary) {
                Ok(v) => residuals.push(v),
                Err(lane) => {
                    if lenient {
                        residuals.push(NAN_BITS);
                    } else {
                        proof {
                            lemma_fault_in_tape(self.tape, row@, *unary, *binary);
                            assert forall|d: int| 0 <= d < c implies #[trigger] lane_result(
                                self.tape,
                                samples.column(d),
                                *unary,
                                *binary,
                            ) is Ok by {
                                assert(residuals@[d] == self.residual_of(*samples, d, *unary, *binary));
                            }
                        }
                        let p = self.runtime_failure(lane, Some(c), row.as_slice());
                        return Err(EvalError::Runtime(Box::new(p)));
                    }
                },
            }
            c += 1;
            start = end;
        }
        Ok(residuals)
    }
}

/// A fault names an instruction of the tape.
proof fn lemma_fault_in_tape<U: Fn(UnaryOp, u64) -> u64, B: Fn(BinaryOp, u64, u64) -> u64>(
    tape: Tape,
    row: Seq<u64>,
    unary: U,
    binary: B,
)
    ensures
        lane_result(tape, row, unary, binary) matches Err(lane) ==> lane.insn < tape.insns@.len(),
{
    lemma_run_fault_in_tape(tape, row, tape.insns@.len(), unary, binary);
}

proof fn lemma_run_fault_in_tape<U: Fn(UnaryOp, u64) -> u64, B: Fn(BinaryOp, u64, u64) -> u64>(
    tape: Tape,
    row: Seq<u64>,
    n: nat,
    unary: U,
    binary: B,
)
    requires
        n <= tape.insns@.len(),
    ensures
        super::lane::run(tape, row, n, unary, binary) matches Err(lane) ==> lane.insn < n,
    decreases n,
{
    if n > 0 {
        lemma_run_fault_in_tape(tape, row, (n - 1) as nat, unary, binary);
    }
}

/// One expression at one point given by name: the names, in order, are the
/// schema, and their values the row. An expression that keeps an aggregate
/// over run-time bounds is refused, as is one that names something the
/// inputs do not; otherwise what compiling and running the row gives.
pub fn eval_one<U: Fn(UnaryOp, u64) -> u64, B: Fn(BinaryOp, u64, u64) -> u64>(
    ast: &Ast,
    inputs: &[(String, u64)],
    unary: &U,
    binary: &B,
) -> (r: Result<u64, EvalError>)
    requires
        ast.well_formed(),
        unary_is_function(*unary),
        binary_is_function(*binary),
    ensures
        !block_aggregate_free(ast.spec_program()@.body) ==> r == Err::<u64, EvalError>(EvalError::RuntimeAggregate),
        block_aggregate_free(ast.spec_program()@.body) && ast.spec_program().frame_size <= 0xffff && inputs@.len()
            <= 0xffff_ffff && missing_symbols(
            ast.spec_symbols(),
            inputs@.map_values(|b: (String, u64)| b.0),
        ).len() > 0 ==> (r matches Err(EvalError::Bind(e)) && e.missing@.map_values(|m: String| m@) == missing_symbols(
            ast.spec_symbols(),
            inputs@.map_values(|b: (String, u64)| b.0),
        )),
{
    if ast.has_runtime_aggregate() {
        return Err(EvalError::RuntimeAggregate);
    }
    if ast.program().frame_size > 0xffff || inputs.len() > 0xffff_ffff {
        return Err(EvalError::TooLarge);
    }
    let mut names: Vec<String> = Vec::new();
    let mut row: Vec<u64> = Vec::new();
    let mut i: usize = 0;
    while i < inputs.len()
        invariant
            i <= inputs@.len(),
            names@ =~= inputs@.map_values(|b: (String, u64)| b.0).take(i as int),
            row@ =~= inputs@.map_values(|b: (String, u64)| b.1).take(i as int),
        decreases inputs@.len() - i,
    {
        names.push(inputs[i].0.clone());
        row.push(inputs[i].1);
        i += 1;
    }
    proof {
        assert(names@ =~= inputs@.map_values(|b: (String, u64)| b.0));
    }
    let schema = Schema::new(names);
    match compile(ast, &schema) {
        Err(CompileError::Bind(e)) => Err(EvalError::Bind(e)),
        Err(CompileError::TooLarge) => Err(EvalError::TooLarge),
        Ok(compiled) => compiled.eval_row(row.as_slice(), unary, binary),
    }
}

} // verus!
