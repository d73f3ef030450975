//! The constrained random vector generator's verified core: the SMT-LIB text
//! it writes, which constraints read which variables, and what an equality
//! lets a sampler compute rather than search.
use vstd::prelude::*;

use crate::{missing_symbols, unbound_symbols, Ast, Schema};
use crate::frontend::invert::{at_most, is_at_most};
use crate::text::{copy_strings, debug_quoted, join_strings, joined, quoted, views_of};

pub mod classify;
pub mod emit;
pub mod incidence;
pub mod ladder;
pub mod problem;
pub mod progress;
pub mod sexp;
pub mod sieve;
pub mod smt;

verus! {

/// One variable of the box a system is sampled in: its name and its bounds,
/// each as the bits of a binary64 value.
#[derive(Debug)]
pub struct InputVariable {
    pub name: String,
    pub lower_bound: u64,
    pub upper_bound: u64,
}

impl InputVariable {
    pub fn new(name: &str, lower_bound: u64, upper_bound: u64) -> (v: InputVariable)
        ensures
            v.name@ == name@,
            v.lower_bound == lower_bound,
            v.upper_bound == upper_bound,
    {
        InputVariable { name: name.to_string(), lower_bound, upper_bound }
    }

    /// Whether `value` lies in the closed interval of the bounds, as binary64
    /// values: never for a NaN.
    pub open spec fn spec_contains(&self, value: u64) -> bool {
        at_most(self.lower_bound, value) && at_most(value, self.upper_bound)
    }

    /// [`InputVariable::spec_contains`].
    pub fn contains(&self, value: u64) -> (inside: bool)
        ensures
            inside == self.spec_contains(value),
    {
        is_at_most(self.lower_bound, value) && is_at_most(value, self.upper_bound)
    }
}

/// One constraint as a caller reads it: its position in the list given to a
/// system, and the text it was written as.
#[derive(Debug, Clone, PartialEq, Eq)]
pub struct ConstraintRef {
    pub index: usize,
    pub source: String,
}

/// Why no sample was produced, and whether that is a proof or a shrug.
#[derive(Debug)]
pub enum Infeasibility {
    /// A solver proved no point exists; these are the constraints its proof
    /// used, from the unsat core.
    Proved { blamed: Vec<ConstraintRef> },
    /// Sampling found nothing and no solver could prove anything; this is not
    /// a claim that the region is empty. `unexpressed` names the constraints
    /// no solver could be asked about.
    NotFound { unexpressed: Vec<ConstraintRef> },
}

/// A system that does not hold together.
#[derive(Debug, Clone, PartialEq, Eq)]
pub enum SystemError {
    /// A constraint names variables the box does not declare.
    Unbound { constraint: ConstraintRef, missing: Vec<String> },
    /// A scalar expression where a constraint was wanted: it has no `<= 0`
    /// reading.
    NotAConstraint { constraint: ConstraintRef },
}

/// Which strategies a pool may use.
#[derive(Debug, Clone, Copy, PartialEq, Eq, Structural)]
pub enum Strategy {
    /// Rejection sampling over the declared box: the probe, the delivery
    /// where the probe succeeds, and the brute force where it does not.
    BruteSquad,
    /// Hit-and-run along chords of the region through the current point.
    HitAndRun,
    /// The SMT solver, for a first point or a proof that there is none.
    Solver,
}

/// What a pool is doing, when it is not simply handing over points.
#[derive(Debug, Clone, PartialEq, Eq)]
pub enum Status {
    /// Still producing, or at least still trying.
    Filling,
    /// The worker finished; there will be no more points.
    Exhausted,
    /// The worker failed, and this is what with.
    Failed(String),
}

/// A variable box and the constraints over it, proven to fit together: every
/// constraint is one, and each names only declared variables.
#[derive(Debug)]
pub struct ConstraintSystem {
    variables: Vec<InputVariable>,
    constraints: Vec<Ast>,
    schema: Schema,
}

/// The names of `variables`, in order: the schema of their box.
pub open spec fn names_of(variables: Seq<InputVariable>) -> Seq<String> {
    variables.map_values(|v: InputVariable| v.name)
}

/// The first constraint that does not fit the box named `names`, if any:
/// one that is not a constraint, or one naming something undeclared.
pub open spec fn first_misfit(constraints: Seq<Ast>, names: Seq<String>) -> Option<int>
    decreases constraints.len(),
{
    if constraints.len() == 0 {
        None
    } else {
        match first_misfit(constraints.drop_last(), names) {
            Some(k) => Some(k),
            None => {
                let c = constraints.last();
                if !c.spec_is_constraint() || missing_symbols(c.spec_symbols(), names).len() > 0 {
                    Some(constraints.len() - 1)
                } else {
                    None
                }
            },
        }
    }
}

impl ConstraintRef {
    /// The constraint's source in the quotes of its `Debug` form.
    pub fn render(&self) -> (text: String)
        ensures
            text@ == debug_quoted(self.source@),
    {
        quoted(self.source.as_str())
    }
}

impl SystemError {
    /// What went wrong, in words.
    pub open spec fn spec_rendered(self) -> Seq<char> {
        match self {
            SystemError::Unbound { constraint, missing } => "constraint "@ + debug_quoted(constraint.source@)
                + " references "@ + joined(views_of(missing@), ", "@) + " which is not an input variable"@,
            SystemError::NotAConstraint { constraint } => debug_quoted(constraint.source@)
                + " is a scalar expression, not a constraint: it has no truth value"@,
        }
    }

    /// [`SystemError::spec_rendered`].
    pub fn render(&self) -> (text: String)
        ensures
            text@ == self.spec_rendered(),
    {
        match self {
            SystemError::Unbound { constraint, missing } => {
                let mut text = "constraint ".to_string();
                text.append(constraint.render().as_str());
                text.append(" references ");
                text.append(join_strings(missing.as_slice(), ", ").as_str());
                text.append(" which is not an input variable");
                text
            },
            SystemError::NotAConstraint { constraint } => {
                let mut text = constraint.render();
                text.append(" is a scalar expression, not a constraint: it has no truth value");
                text
            },
        }
    }
}

impl ConstraintSystem {
    pub closed spec fn spec_variables(&self) -> Seq<InputVariable> {
        self.variables@
    }

    pub closed spec fn spec_constraints(&self) -> Seq<Ast> {
        self.constraints@
    }

    pub closed spec fn spec_schema(&self) -> Schema {
        self.schema
    }

    /// Checks that every constraint is one and binds to the box. The error is
    /// about the first constraint that does not fit: a scalar expression is
    /// `NotAConstraint`, a constraint naming undeclared variables is
    /// `Unbound` with those names in order.
    pub fn new(variables: Vec<InputVariable>, constraints: Vec<Ast>) -> (r: Result<ConstraintSystem, SystemError>)
        ensures
            match r {
                Ok(system) => {
                    &&& first_misfit(constraints@, names_of(variables@)) is None
                    &&& system.spec_variables() == variables@
                    &&& system.spec_constraints() == constraints@
                    &&& system.spec_schema().spec_names() == names_of(variables@)
                },
                Err(e) => first_misfit(constraints@, names_of(variables@)) matches Some(k) && match e {
                        SystemError::NotAConstraint { constraint } => !constraints@[k].spec_is_constraint()
                            && constraint.index == k && constraint.source@ == constraints@[k].spec_source(),
                        SystemError::Unbound { constraint, missing } => constraints@[k].spec_is_constraint()
                            && constraint.index == k && constraint.source@ == constraints@[k].spec_source()
                            && missing@.map_values(|m: String| m@) == missing_symbols(
                                constraints@[k].spec_symbols(),
                                names_of(variables@),
                            )
                            && missing@.len() > 0,
                    },
            },
    {
        let mut names: Vec<String> = Vec::new();
        let mut i: usize = 0;
        while i < variables.len()
            invariant
                i <= variables@.len(),
                names@ == names_of(variables@.take(i as int)),
            decreases variables@.len() - i,
        {
            names.push(variables[i].name.clone());
            proof {
                assert(names@ =~= names_of(variables@.take(i + 1)));
            }
            i += 1;
        }
        proof {
            assert(variables@.take(variables@.len() as int) =~= variables@);
        }
        let schema = Schema::new(names);
        let ghost all = schema.spec_names();
        let mut k: usize = 0;
        while k < constraints.len()
            invariant
                k <= constraints@.len(),
                all == schema.spec_names(),
                all == names_of(variables@),
                first_misfit(constraints@.take(k as int), all) is None,
            decreases constraints@.len() - k,
        {
            proof {
                assert(constraints@.take(k + 1).drop_last() =~= constraints@.take(k as int));
                assert(constraints@.take(k + 1).last() == constraints@[k as int]);
            }
            let constraint = &constraints[k];
            let named = ConstraintRef { index: k, source: constraint.source().to_string() };
            if !constraint.is_constraint() {
                proof {
                    lemma_first_misfit_prefix(constraints@, all, k + 1);
                }
                return Err(SystemError::NotAConstraint { constraint: named });
            }
            let missing = unbound_symbols(constraint, &schema);
            if missing.len() > 0 {
                proof {
                    lemma_first_misfit_prefix(constraints@, all, k + 1);
                }
                return Err(SystemError::Unbound { constraint: named, missing });
            }
            k += 1;
        }
        proof {
            assert(constraints@.take(constraints@.len() as int) =~= constraints@);
        }
        Ok(ConstraintSystem { variables, constraints, schema })
    }

    pub fn variables(&self) -> (variables: &[InputVariable])
        ensures
            variables@ == self.spec_variables(),
    {
        self.variables.as_slice()
    }

    pub fn constraints(&self) -> (constraints: &[Ast])
        ensures
            constraints@ == self.spec_constraints(),
    {
        self.constraints.as_slice()
    }

    pub fn schema(&self) -> (schema: &Schema)
        ensures
            *schema == self.spec_schema(),
    {
        &self.schema
    }

    /// The box, the constraints and the schema, taken apart.
    pub fn into_parts(self) -> (parts: (Vec<InputVariable>, Vec<Ast>, Schema))
        ensures
            parts.0@ == self.spec_variables(),
            parts.1@ == self.spec_constraints(),
            parts.2 == self.spec_schema(),
    {
        (self.variables, self.constraints, self.schema)
    }

    /// The constraint at `index`, as a caller reads it.
    pub fn named(&self, index: usize) -> (named: ConstraintRef)
        requires
            index < self.spec_constraints().len(),
        ensures
            named.index == index,
            named.source@ == self.spec_constraints()[index as int].spec_source(),
    {
        ConstraintRef { index, source: self.constraints[index].source().to_string() }
    }
}

/// A misfit found in a prefix is the first misfit of the whole.
proof fn lemma_first_misfit_prefix(constraints: Seq<Ast>, names: Seq<String>, k: int)
    requires
        0 <= k <= constraints.len(),
        first_misfit(constraints.take(k), names) is Some,
    ensures
        first_misfit(constraints, names) == first_misfit(constraints.take(k), names),
    decreases constraints.len() - k,
{
    if k < constraints.len() {
        assert(constraints.take(k + 1).drop_last() =~= constraints.take(k));
        lemma_first_misfit_prefix(constraints, names, k + 1);
    } else {
        assert(constraints.take(k) =~= constraints);
    }
}

} // verus!
