//! The problem in the form every strategy needs it: the box, the constraints
//! as written and compiled once, which coordinates are computed from the
//! others, and which constraints a move along one coordinate can change;
//! and the one question every strategy asks of it, whether a point is
//! feasible.
use vstd::prelude::*;

use super::classify::{plan, Plan};
use super::emit::SmtLogic;
use super::incidence::{all_bound, naming_of, ConstraintId, Incidence, Row};
use super::{first_misfit, names_of, ConstraintSystem, InputVariable};
use crate::ast::{BinaryOp, UnaryOp};
use crate::eval::evaluate::Samples;
use crate::eval::lane::lane_result;
use crate::eval::lower::{block_aggregate_free, fits_tape};
use crate::frontend::fold::{binary_is_function, unary_is_function};
use crate::frontend::invert::{at_most, is_at_most};
use crate::{compile, first_position, missing_symbols, Ast, CompileError, CompiledExpression, Schema};

verus! {

/// A problem that holds together: a compiled constraint for each constraint,
/// runnable over the box's rows; an incidence graph over the box whose
/// affected constraints are all among them; and a plan, if there is one,
/// naming coordinates of the box.
pub struct Problem {
    inputs: Vec<InputVariable>,
    constraints: Vec<Ast>,
    schema: Schema,
    logic: SmtLogic,
    bounds: Vec<CompiledExpression>,
    plan: Option<Plan>,
    incidence: Incidence,
}

/// Every constraint of `cs` can be lowered against `names`: no aggregate
/// over run-time bounds is left and its frame is numbered; and the schema's
/// positions are numbered.
pub open spec fn tapes_lower(cs: Seq<Ast>, names: Seq<String>) -> bool {
    &&& names.len() <= u32::MAX
    &&& forall|c: int|
        0 <= c < cs.len() ==> {
            let program = (#[trigger] cs[c]).spec_program();
            &&& block_aggregate_free(program@.body)
            &&& program.frame_size <= 0xffff
        }
}

/// [`tapes_lower`], and every constraint is small enough for the registers
/// of its tape to be numbered.
pub open spec fn tapes_fit(cs: Seq<Ast>, names: Seq<String>) -> bool {
    &&& tapes_lower(cs, names)
    &&& forall|c: int|
        0 <= c < cs.len() ==> {
            let program = (#[trigger] cs[c]).spec_program();
            fits_tape(program@.body, program.frame_size as nat)
        }
}

/// Whether `bound`'s residual at `point` is `<= 0`; a fault is not.
pub open spec fn holds<U: Fn(UnaryOp, u64) -> u64, B: Fn(BinaryOp, u64, u64) -> u64>(
    bound: CompiledExpression,
    point: Seq<u64>,
    unary: U,
    binary: B,
) -> bool {
    match lane_result(bound.tape, point, unary, binary) {
        Ok(r) => at_most(r, 0),
        Err(_) => false,
    }
}

/// Whether `point` has a value for each variable of `inputs`, each within
/// its bounds.
pub open spec fn in_box(inputs: Seq<InputVariable>, point: Seq<u64>) -> bool {
    &&& point.len() == inputs.len()
    &&& forall|i: int| 0 <= i < inputs.len() ==> #[trigger] inputs[i].spec_contains(point[i])
}

impl Problem {
    pub closed spec fn spec_inputs(&self) -> Seq<InputVariable> {
        self.inputs@
    }

    pub closed spec fn spec_constraints(&self) -> Seq<Ast> {
        self.constraints@
    }

    pub closed spec fn spec_bounds(&self) -> Seq<CompiledExpression> {
        self.bounds@
    }

    pub closed spec fn spec_logic(&self) -> SmtLogic {
        self.logic
    }

    pub closed spec fn spec_plan(&self) -> Option<Plan> {
        self.plan
    }

    pub closed spec fn spec_incidence(&self) -> Incidence {
        self.incidence
    }

    /// See [`Problem`].
    pub closed spec fn wf(&self) -> bool {
        &&& self.bounds@.len() == self.constraints@.len()
        &&& self.schema.spec_names() == names_of(self.inputs@)
        &&& forall|i: int|
            0 <= i < self.bounds@.len() ==> (#[trigger] self.bounds@[i]).tape.runnable(self.inputs@.len())
                && self.bounds@[i].schema.spec_names() == self.schema.spec_names()
        &&& self.incidence.well_formed()
        &&& self.incidence.row_count() == self.inputs@.len()
        &&& forall|r: int, k: int|
            0 <= r < self.inputs@.len() && 0 <= k < self.incidence.spec_affected(r).len() ==> (
            #[trigger] self.incidence.spec_affected(r)[k]).0 < self.bounds@.len()
        &&& self.plan matches Some(p) ==> forall|d: int|
            0 <= d < p.spec_driven().len() ==> (#[trigger] p.spec_driven()[d]).position < self.inputs@.len()
    }

    /// Whether `point` is in the box and every constraint holds at it.
    pub open spec fn feasible<U: Fn(UnaryOp, u64) -> u64, B: Fn(BinaryOp, u64, u64) -> u64>(
        &self,
        point: Seq<u64>,
        unary: U,
        binary: B,
    ) -> bool {
        &&& in_box(self.spec_inputs(), point)
        &&& forall|i: int| 0 <= i < self.spec_bounds().len() ==> holds(#[trigger] self.spec_bounds()[i], point, unary, binary)
    }
}

/// A system without a misfit has every symbol of every constraint bound.
proof fn lemma_no_misfit(cs: Seq<Ast>, names: Seq<String>)
    requires
        first_misfit(cs, names) is None,
    ensures
        forall|c: int| 0 <= c < cs.len() ==> missing_symbols(#[trigger] cs[c].spec_symbols(), names).len() == 0,
    decreases cs.len(),
{
    if cs.len() > 0 {
        lemma_no_misfit(cs.drop_last(), names);
        assert forall|c: int| 0 <= c < cs.len() implies missing_symbols(#[trigger] cs[c].spec_symbols(), names).len()
            == 0 by {
            if c < cs.len() - 1 {
                assert(cs[c] == cs.drop_last()[c]);
            }
        }
    }
}

/// Nothing missing means every symbol has a position.
proof fn lemma_nothing_missing(symbols: Seq<String>, names: Seq<String>)
    requires
        missing_symbols(symbols, names).len() == 0,
    ensures
        forall|g: int| 0 <= g < symbols.len() ==> first_position(names, (#[trigger] symbols[g])@) is Some,
    decreases symbols.len(),
{
    if symbols.len() > 0 {
        let rest = missing_symbols(symbols.drop_last(), names);
        if first_position(names, symbols.last()@) is None {
            assert(missing_symbols(symbols, names).len() == rest.len() + 1);
        }
        lemma_nothing_missing(symbols.drop_last(), names);
        assert forall|g: int| 0 <= g < symbols.len() implies first_position(names, (#[trigger] symbols[g])@) is Some by {
            if g < symbols.len() - 1 {
                assert(symbols[g] == symbols.drop_last()[g]);
            }
        }
    }
}

/// The constraints naming a row are among the constraints.
proof fn lemma_naming_in_range(cs: Seq<Ast>, names: Seq<String>, r: int)
    ensures
        forall|k: int| 0 <= k < naming_of(cs, names, r).len() ==> (#[trigger] naming_of(cs, names, r)[k]).0 < cs.len(),
    decreases cs.len(),
{
    if cs.len() > 0 {
        lemma_naming_in_range(cs.drop_last(), names, r);
        let before = naming_of(cs.drop_last(), names, r);
        let all = naming_of(cs, names, r);
        assert forall|k: int| 0 <= k < all.len() implies (#[trigger] all[k]).0 < cs.len() by {
            if k < before.len() {
                assert(all[k] == before[k]);
            }
        }
    }
}

impl Problem {
    /// A system as a problem under `logic`: each constraint compiled against
    /// the box, the plan worked out, and the incidence graph widened by what
    /// any move can change (a constraint with a computed subscript, which
    /// reads a column the point chooses, and whatever names a computed
    /// coordinate, which every move rewrites). `None` when a constraint keeps
    /// an aggregate over run-time bounds or needs more registers than a tape
    /// can number, neither of which the tape lowers.
    pub fn new(system: ConstraintSystem, logic: SmtLogic) -> (r: Option<Problem>)
        requires
            first_misfit(system.spec_constraints(), names_of(system.spec_variables())) is None,
            system.spec_schema().spec_names() == names_of(system.spec_variables()),
            forall|i: int|
                0 <= i < system.spec_constraints().len() ==> (#[trigger] system.spec_constraints()[i]).well_formed(),
        ensures
            tapes_fit(system.spec_constraints(), names_of(system.spec_variables())) ==> r is Some,
            r is Some ==> tapes_lower(system.spec_constraints(), names_of(system.spec_variables())),
            r matches Some(p) ==> {
                &&& p.wf()
                &&& p.spec_inputs() == system.spec_variables()
                &&& p.spec_constraints() == system.spec_constraints()
                &&& p.spec_logic() == logic
            },
    {
        let ghost wanted = tapes_fit(system.spec_constraints(), names_of(system.spec_variables()));
        let ghost lowers = tapes_lower(system.spec_constraints(), names_of(system.spec_variables()));
        let (inputs, constraints, schema) = system.into_parts();
        let ghost names = schema.spec_names();
        proof {
            lemma_no_misfit(constraints@, names);
        }
        if schema.len() > 0xffff_ffff {
            return None;
        }
        let mut bounds: Vec<CompiledExpression> = Vec::new();
        let mut i: usize = 0;
        while i < constraints.len()
            invariant
                i <= constraints@.len(),
                names == schema.spec_names(),
                names.len() <= 0xffff_ffff,
                names == names_of(inputs@),
                forall|c: int| 0 <= c < constraints@.len() ==> missing_symbols(#[trigger] constraints@[c].spec_symbols(), names).len() == 0,
                forall|c: int| 0 <= c < constraints@.len() ==> (#[trigger] constraints@[c]).well_formed(),
                bounds@.len() == i,
                forall|k: int|
                    0 <= k < i ==> (#[trigger] bounds@[k]).tape.runnable(names.len()) && bounds@[k].schema.spec_names()
                        == names,
                wanted == tapes_fit(constraints@, names),
                wanted == tapes_fit(system.spec_constraints(), names_of(system.spec_variables())),
                lowers == tapes_lower(constraints@, names),
                lowers == tapes_lower(system.spec_constraints(), names_of(system.spec_variables())),
                forall|k: int|
                    0 <= k < i ==> {
                        let program = (#[trigger] constraints@[k]).spec_program();
                        &&& block_aggregate_free(program@.body)
                        &&& program.frame_size <= 0xffff
                    },
            decreases constraints@.len() - i,
        {
            let constraint = &constraints[i];
            proof {
                assert(missing_symbols(constraints@[i as int].spec_symbols(), names).len() == 0);
            }
            if constraint.has_runtime_aggregate() || constraint.program().frame_size > 0xffff {
                return None;
            }
            match compile(constraint, &schema) {
                Ok(compiled) => bounds.push(compiled),
                Err(CompileError::TooLarge) => return None,
                Err(CompileError::Bind(_)) => {
                    proof {
                        assert(false);
                    }
                    return None;
                },
            }
            i += 1;
        }
        proof {
            assert forall|c: int, g: int|
                0 <= c < constraints@.len() && 0 <= g < constraints@[c].spec_symbols().len() implies #[trigger] first_position(
                names,
                constraints@[c].spec_symbols()[g]@,
            ) is Some by {
                lemma_nothing_missing(constraints@[c].spec_symbols(), names);
            }
            assert(all_bound(constraints@, names));
        }
        let planned = plan(constraints.as_slice(), &schema);
        let n = inputs.len();
        let plan = match planned {
            Some(p) => {
                let driven = p.driven();
                let mut inside = true;
                let mut d: usize = 0;
                while d < driven.len()
                    invariant
                        d <= driven@.len(),
                        inside ==> forall|e: int| 0 <= e < d ==> (#[trigger] driven@[e]).position < n,
                    decreases driven@.len() - d,
                {
                    if driven[d].position >= n {
                        inside = false;
                    }
                    d += 1;
                }
                if inside {
                    Some(p)
                } else {
                    None
                }
            },
            None => None,
        };
        let incidence = Incidence::of(constraints.as_slice(), &schema);
        let mut always: Vec<ConstraintId> = Vec::new();
        let mut c: usize = 0;
        while c < constraints.len()
            invariant
                c <= constraints@.len(),
                forall|k: int| 0 <= k < always@.len() ==> (#[trigger] always@[k]).0 < constraints@.len(),
            decreases constraints@.len() - c,
        {
            if constraints[c].contains_dynamic_lookup() {
                always.push(ConstraintId(c));
            }
            c += 1;
        }
        proof {
            assert forall|r: int, k: int| 0 <= r < names.len() && 0 <= k < incidence.spec_naming(r).len() implies (
            #[trigger] incidence.spec_naming(r)[k]).0 < constraints@.len() by {
                lemma_naming_in_range(constraints@, names, r);
            }
        }
        match &plan {
            Some(p) => {
                let driven = p.driven();
                let mut d: usize = 0;
                while d < driven.len()
                    invariant
                        d <= driven@.len(),
                        driven@ == p.spec_driven(),
                        forall|e: int| 0 <= e < driven@.len() ==> (#[trigger] driven@[e]).position < n,
                        n == names.len(),
                        incidence.row_count() == names.len(),
                        forall|r: int, k: int|
                            0 <= r < names.len() && 0 <= k < incidence.spec_naming(r).len() ==> (
                            #[trigger] incidence.spec_naming(r)[k]).0 < constraints@.len(),
                        forall|k: int| 0 <= k < always@.len() ==> (#[trigger] always@[k]).0 < constraints@.len(),
                    decreases driven@.len() - d,
                {
                    let named = incidence.naming(Row(driven[d].position));
                    let mut k: usize = 0;
                    while k < named.len()
                        invariant
                            k <= named@.len(),
                            forall|j: int| 0 <= j < named@.len() ==> (#[trigger] named@[j]).0 < constraints@.len(),
                            forall|j: int| 0 <= j < always@.len() ==> (#[trigger] always@[j]).0 < constraints@.len(),
                        decreases named@.len() - k,
                    {
                        always.push(named[k]);
                        k += 1;
                    }
                    d += 1;
                }
            },
            None => {},
        }
        let ghost before = incidence;
        let incidence = incidence.with_always(always.as_slice());
        proof {
            assert forall|r: int, k: int|
                0 <= r < inputs@.len() && 0 <= k < incidence.spec_affected(r).len() implies (
                #[trigger] incidence.spec_affected(r)[k]).0 < bounds@.len() by {
                let x = incidence.spec_affected(r)[k];
                assert(incidence.spec_affected(r).contains(x));
                if before.spec_affected(r).contains(x) {
                    let j = choose|j: int| 0 <= j < before.spec_affected(r).len() && before.spec_affected(r)[j] == x;
                    assert(before.spec_naming(r)[j] == x);
                } else {
                    let j = choose|j: int| 0 <= j < always@.len() && always@[j] == x;
                    assert(always@[j] == x);
                }
            }
        }
        Some(Problem { inputs, constraints, schema, logic, bounds, plan, incidence })
    }

    pub fn inputs(&self) -> (inputs: &[InputVariable])
        ensures
            inputs@ == self.spec_inputs(),
    {
        self.inputs.as_slice()
    }

    pub fn constraints(&self) -> (constraints: &[Ast])
        ensures
            constraints@ == self.spec_constraints(),
    {
        self.constraints.as_slice()
    }

    pub fn schema(&self) -> (schema: &Schema)
        requires
            self.wf(),
        ensures
            schema.spec_names() == names_of(self.spec_inputs()),
    {
        &self.schema
    }

    /// The logic a document for this problem is emitted under.
    pub fn logic(&self) -> (logic: &SmtLogic)
        ensures
            *logic == self.spec_logic(),
    {
        &self.logic
    }

    /// Every constraint, compiled against the box.
    pub fn compiled(&self) -> (bounds: &[CompiledExpression])
        ensures
            bounds@ == self.spec_bounds(),
    {
        self.bounds.as_slice()
    }

    /// The coordinates a walker moves, when some are computed from the
    /// others; `None` when nothing is.
    pub fn free_coordinates(&self) -> (free: Option<&[usize]>)
        ensures
            match (free, self.spec_plan()) {
                (Some(f), Some(p)) => f@ == p.spec_free(),
                (None, None) => true,
                _ => false,
            },
    {
        match &self.plan {
            Some(p) => Some(p.free()),
            None => None,
        }
    }

    /// The box, as each variable's bounds.
    pub fn box_bounds(&self) -> (bounds: Vec<(u64, u64)>)
        ensures
            bounds@.len() == self.spec_inputs().len(),
            forall|i: int|
                0 <= i < bounds@.len() ==> #[trigger] bounds@[i] == (
                    self.spec_inputs()[i].lower_bound,
                    self.spec_inputs()[i].upper_bound,
                ),
    {
        let mut bounds: Vec<(u64, u64)> = Vec::new();
        let mut i: usize = 0;
        while i < self.inputs.len()
            invariant
                i <= self.inputs@.len(),
                bounds@.len() == i,
                forall|k: int|
                    0 <= k < i ==> #[trigger] bounds@[k] == (self.inputs@[k].lower_bound, self.inputs@[k].upper_bound),
            decreases self.inputs@.len() - i,
        {
            bounds.push((self.inputs[i].lower_bound, self.inputs[i].upper_bound));
            i += 1;
        }
        bounds
    }

    fn in_box_of(&self, point: &[u64]) -> (inside: bool)
        ensures
            inside == in_box(self.spec_inputs(), point@),
    {
        if point.len() != self.inputs.len() {
            return false;
        }
        let mut i: usize = 0;
        while i < point.len()
            invariant
                i <= point@.len(),
                point@.len() == self.inputs@.len(),
                forall|k: int| 0 <= k < i ==> #[trigger] self.inputs@[k].spec_contains(point@[k]),
            decreases point@.len() - i,
        {
            if !self.inputs[i].contains(point[i]) {
                return false;
            }
            i += 1;
        }
        true
    }

    fn holds_at<U: Fn(UnaryOp, u64) -> u64, B: Fn(BinaryOp, u64, u64) -> u64>(
        &self,
        i: usize,
        point: &[u64],
        unary: &U,
        binary: &B,
    ) -> (r: bool)
        requires
            self.wf(),
            i < self.spec_bounds().len(),
            point@.len() == self.spec_inputs().len(),
            unary_is_function(*unary),
            binary_is_function(*binary),
        ensures
            r == holds(self.spec_bounds()[i as int], point@, *unary, *binary),
    {
        proof {
            assert(self.bounds@[i as int].tape.runnable(self.inputs@.len()));
        }
        match crate::eval::lane::run_lane(&self.bounds[i].tape, point, unary, binary) {
            Ok(residual) => is_at_most(residual, 0),
            Err(_) => false,
        }
    }

    /// Whether `point` is inside the box and satisfies every constraint; a
    /// constraint that faults at it does not hold.
    pub fn is_feasible<U: Fn(UnaryOp, u64) -> u64, B: Fn(BinaryOp, u64, u64) -> u64>(
        &self,
        point: &[u64],
        unary: &U,
        binary: &B,
    ) -> (feasible: bool)
        requires
            self.wf(),
            unary_is_function(*unary),
            binary_is_function(*binary),
        ensures
            feasible == self.feasible(point@, *unary, *binary),
    {
        if !self.in_box_of(point) {
            return false;
        }
        let mut i: usize = 0;
        while i < self.bounds.len()
            invariant
                self.wf(),
                i <= self.bounds@.len(),
                in_box(self.spec_inputs(), point@),
                unary_is_function(*unary),
                binary_is_function(*binary),
                forall|k: int| 0 <= k < i ==> holds(#[trigger] self.spec_bounds()[k], point@, *unary, *binary),
            decreases self.bounds@.len() - i,
        {
            if !self.holds_at(i, point, unary, binary) {
                return false;
            }
            i += 1;
        }
        true
    }

    /// [`Problem::is_feasible`] for a point that differs from a feasible one
    /// only at coordinate `moved` and at the computed coordinates: the box
    /// checked there, and only the constraints a move of `moved` can change.
    pub fn is_feasible_after<U: Fn(UnaryOp, u64) -> u64, B: Fn(BinaryOp, u64, u64) -> u64>(
        &self,
        point: &[u64],
        moved: usize,
        unary: &U,
        binary: &B,
    ) -> (feasible: bool)
        requires
            self.wf(),
            moved < self.spec_inputs().len(),
            unary_is_function(*unary),
            binary_is_function(*binary),
        ensures
            feasible == {
                &&& point@.len() == self.spec_inputs().len()
                &&& self.spec_inputs()[moved as int].spec_contains(point@[moved as int])
                &&& self.spec_plan() matches Some(p) ==> forall|d: int|
                    0 <= d < p.spec_driven().len() ==> self.spec_inputs()[(#[trigger] p.spec_driven()[d]).position as int].spec_contains(
                        point@[p.spec_driven()[d].position as int],
                    )
                &&& forall|k: int|
                    0 <= k < self.spec_incidence().spec_affected(moved as int).len() ==> holds(
                        self.spec_bounds()[(#[trigger] self.spec_incidence().spec_affected(moved as int)[k]).0 as int],
                        point@,
                        *unary,
                        *binary,
                    )
            },
    {
        if point.len() != self.inputs.len() {
            return false;
        }
        if !self.inputs[moved].contains(point[moved]) {
            return false;
        }
        match &self.plan {
            Some(p) => {
                let driven = p.driven();
                let mut d: usize = 0;
                while d < driven.len()
                    invariant
                        self.wf(),
                        self.plan == Some(*p),
                        driven@ == p.spec_driven(),
                        point@.len() == self.inputs@.len(),
                        d <= driven@.len(),
                        forall|e: int|
                            0 <= e < d ==> self.inputs@[(#[trigger] driven@[e]).position as int].spec_contains(
                                point@[driven@[e].position as int],
                            ),
                    decreases driven@.len() - d,
                {
                    let position = driven[d].position;
                    proof {
                        assert(p.spec_driven()[d as int].position < self.inputs@.len());
                    }
                    if !self.inputs[position].contains(point[position]) {
                        return false;
                    }
                    d += 1;
                }
            },
            None => {},
        }
        let affected = self.incidence.affected(Row(moved));
        let mut k: usize = 0;
        while k < affected.len()
            invariant
                self.wf(),
                affected@ == self.incidence.spec_affected(moved as int),
                moved < self.inputs@.len(),
                point@.len() == self.inputs@.len(),
                unary_is_function(*unary),
                binary_is_function(*binary),
                k <= affected@.len(),
                forall|j: int|
                    0 <= j < k ==> holds(self.spec_bounds()[(#[trigger] affected@[j]).0 as int], point@, *unary, *binary),
            decreases affected@.len() - k,
        {
            let id = affected[k].0;
            proof {
                assert(self.incidence.spec_affected(moved as int)[k as int].0 < self.bounds@.len());
            }
            if !self.holds_at(id, point, unary, binary) {
                proof {
                    assert(!holds(
                        self.spec_bounds()[self.spec_incidence().spec_affected(moved as int)[k as int].0 as int],
                        point@,
                        *unary,
                        *binary,
                    ));
                }
                return false;
            }
            k += 1;
        }
        true
    }

    /// The points of `points` that are feasible, in order.
    pub open spec fn feasible_ones<U: Fn(UnaryOp, u64) -> u64, B: Fn(BinaryOp, u64, u64) -> u64>(
        &self,
        points: Seq<Seq<u64>>,
        unary: U,
        binary: B,
    ) -> Seq<Seq<u64>>
        decreases points.len(),
    {
        if points.len() == 0 {
            Seq::empty()
        } else {
            let rest = self.feasible_ones(points.drop_last(), unary, binary);
            if self.feasible(points.last(), unary, binary) {
                rest.push(points.last())
            } else {
                rest
            }
        }
    }

    /// [`Problem::feasible_ones`]: what a caller's hints and a solver's
    /// witness go through before they count as points in hand.
    pub fn keep_feasible<U: Fn(UnaryOp, u64) -> u64, B: Fn(BinaryOp, u64, u64) -> u64>(
        &self,
        points: Vec<Vec<u64>>,
        unary: &U,
        binary: &B,
    ) -> (kept: Vec<Vec<u64>>)
        requires
            self.wf(),
            unary_is_function(*unary),
            binary_is_function(*binary),
        ensures
            kept@.map_values(|p: Vec<u64>| p@) == self.feasible_ones(
                points@.map_values(|p: Vec<u64>| p@),
                *unary,
                *binary,
            ),
    {
        let ghost all = points@.map_values(|p: Vec<u64>| p@);
        let mut kept: Vec<Vec<u64>> = Vec::new();
        for p in it: points
            invariant
                self.wf(),
                unary_is_function(*unary),
                binary_is_function(*binary),
                all == it.seq().map_values(|p: Vec<u64>| p@),
                kept@.map_values(|p: Vec<u64>| p@) == self.feasible_ones(all.take(it.index() as int), *unary, *binary),
        {
            let ghost k = it.index() as int;
            proof {
                assert(all.take(k + 1).drop_last() =~= all.take(k));
                assert(all.take(k + 1).last() == p@);
            }
            if self.is_feasible(p.as_slice(), unary, binary) {
                let ghost before = kept@;
                kept.push(p);
                proof {
                    assert(kept@.map_values(|p: Vec<u64>| p@) =~= before.map_values(|p: Vec<u64>| p@).push(
                        all.take(k + 1).last(),
                    ));
                }
            }
        }
        proof {
            assert(all.take(all.len() as int) =~= all);
        }
        kept
    }

    /// The samples that are feasible, in order, each as a point; nothing
    /// when the samples are not as tall as the box.
    pub fn feasible_columns<U: Fn(UnaryOp, u64) -> u64, B: Fn(BinaryOp, u64, u64) -> u64>(
        &self,
        candidates: &Samples,
        unary: &U,
        binary: &B,
    ) -> (found: Vec<Vec<u64>>)
        requires
            self.wf(),
            candidates.laid_out(),
            unary_is_function(*unary),
            binary_is_function(*binary),
        ensures
            candidates.rows != self.spec_inputs().len() ==> found@.len() == 0,
            candidates.rows == self.spec_inputs().len() ==> found@.map_values(|p: Vec<u64>| p@) == self.feasible_ones(
                Seq::new(candidates.columns as nat, |c: int| candidates.column(c)),
                *unary,
                *binary,
            ),
    {
        let rows = candidates.rows;
        let mut found: Vec<Vec<u64>> = Vec::new();
        if rows != self.inputs.len() {
            return found;
        }
        let ghost all = Seq::new(candidates.columns as nat, |c: int| candidates.column(c));
        let mut c: usize = 0;
        let mut start: usize = 0;
        while c < candidates.columns
            invariant
                self.wf(),
                unary_is_function(*unary),
                binary_is_function(*binary),
                candidates.laid_out(),
                rows == candidates.rows,
                c <= candidates.columns,
                start == c * rows,
                all == Seq::new(candidates.columns as nat, |c: int| candidates.column(c)),
                found@.map_values(|p: Vec<u64>| p@) == self.feasible_ones(all.take(c as int), *unary, *binary),
            decreases candidates.columns - c,
        {
            proof {
                assert(c * rows + rows <= candidates.values.len()) by (nonlinear_arith)
                    requires
                        c < candidates.columns,
                        candidates.values@.len() == rows * candidates.columns,
                ;
                assert((c + 1) * rows == c * rows + rows) by (nonlinear_arith);
            }
            let end = start + rows;
            let mut point: Vec<u64> = Vec::new();
            let mut k: usize = start;
            while k < end
                invariant
                    start <= k <= end,
                    end <= candidates.values@.len(),
                    point@ =~= candidates.values@.subrange(start as int, k as int),
                decreases end - k,
            {
                point.push(candidates.values[k]);
                k += 1;
            }
            proof {
                assert(point@ =~= candidates.column(c as int));
                assert(all.take(c + 1).drop_last() =~= all.take(c as int));
                assert(all.take(c + 1).last() == point@);
            }
            if self.is_feasible(point.as_slice(), unary, binary) {
                let ghost before = found@;
                found.push(point);
                proof {
                    assert(found@.map_values(|p: Vec<u64>| p@) =~= before.map_values(|p: Vec<u64>| p@).push(
                        all.take(c + 1).last(),
                    ));
                }
            }
            c += 1;
            start = end;
        }
        proof {
            assert(all.take(all.len() as int) =~= all);
        }
        found
    }
}

} // verus!
