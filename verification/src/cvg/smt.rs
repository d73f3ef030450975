//! What a solver's answer means for a pool that sampling could not crack.
//!
//! Sending the document is the host's business; what comes back is read
//! here: the constraints an unsat core blames, and the verdict an answer
//! amounts to.
use vstd::prelude::*;

use super::emit::{core_index, core_index_of};
use super::InputVariable;
use crate::text::same_text;

verus! {

/// What a solver concluded about a document. Model values are the bits of
/// binary64 values.
#[derive(Debug, Clone, PartialEq)]
pub enum Outcome {
    /// Satisfiable, with a model: variable name to value.
    Sat(Vec<(String, u64)>),
    /// Provably no solution, and which constraints were involved.
    Unsat { blamed: Vec<usize> },
    /// The solver gave up.
    Unknown,
}

/// What a solver had to say about a pool.
#[derive(Debug, Clone, PartialEq)]
pub enum Verdict {
    /// A point worth walking out from. `unexpressed` names the constraints
    /// the document could not say, which the point need not satisfy.
    Seed { point: Vec<u64>, unexpressed: Vec<usize> },
    /// No point exists, and these constraints are why: only when the solver
    /// was shown the whole problem.
    Impossible { blamed: Vec<usize> },
    /// Nothing usable, with whatever the document could not express.
    Inconclusive { unexpressed: Vec<usize> },
}

/// The constraints an unsat core blames: each term that is a core name, as
/// its index, in order.
pub open spec fn blamed_by(terms: Seq<Seq<char>>) -> Seq<usize>
    decreases terms.len(),
{
    if terms.len() == 0 {
        Seq::empty()
    } else {
        blamed_by(terms.drop_last()) + match core_index_of(terms.last()) {
            Some(index) => seq![index],
            None => Seq::empty(),
        }
    }
}

/// [`blamed_by`]: the indices named by the terms of an unsat core, as the
/// solver wrote them; terms that are not core names are passed over.
pub fn blamed_of(terms: &[String]) -> (blamed: Vec<usize>)
    ensures
        blamed@ == blamed_by(terms@.map_values(|t: String| t@)),
{
    let mut blamed: Vec<usize> = Vec::new();
    let mut i: usize = 0;
    while i < terms.len()
        invariant
            i <= terms@.len(),
            blamed@ == blamed_by(terms@.take(i as int).map_values(|t: String| t@)),
        decreases terms@.len() - i,
    {
        let index = core_index(terms[i].as_str());
        proof {
            assert(terms@.take(i + 1).map_values(|t: String| t@).drop_last() =~= terms@.take(i as int).map_values(
                |t: String| t@,
            ));
        }
        match index {
            Some(k) => blamed.push(k),
            None => {},
        }
        i += 1;
    }
    proof {
        assert(terms@.take(terms@.len() as int) =~= terms@);
    }
    blamed
}

/// The value a model gives `name`: that of the first binding of it.
pub open spec fn model_value(values: Seq<(String, u64)>, name: Seq<char>) -> Option<u64>
    decreases values.len(),
{
    if values.len() == 0 {
        None
    } else if values[0].0@ == name {
        Some(values[0].1)
    } else {
        model_value(values.drop_first(), name)
    }
}

/// The point a model stands for: each input's value in it, or the input's
/// lower bound where the model does not name it.
pub open spec fn seed_point(values: Seq<(String, u64)>, inputs: Seq<InputVariable>) -> Seq<u64> {
    Seq::new(
        inputs.len(),
        |i: int|
            match model_value(values, inputs[i].name@) {
                Some(v) => v,
                None => inputs[i].lower_bound,
            },
    )
}

fn value_in(values: &Vec<(String, u64)>, input: &InputVariable) -> (v: u64)
    ensures
        v == match model_value(values@, input.name@) {
            Some(x) => x,
            None => input.lower_bound,
        },
{
    let mut k: usize = 0;
    proof {
        assert(values@.skip(0) =~= values@);
    }
    while k < values.len()
        invariant
            k <= values@.len(),
            model_value(values@, input.name@) == model_value(values@.skip(k as int), input.name@),
        decreases values@.len() - k,
    {
        proof {
            assert(values@.skip(k as int).drop_first() =~= values@.skip(k + 1));
        }
        if same_text(values[k].0.as_str(), input.name.as_str()) {
            return values[k].1;
        }
        k += 1;
    }
    input.lower_bound
}

/// What a solver's answer amounts to. `unexpressed` names the constraints
/// the document left out: with any of them missing, `unsat` proves nothing
/// about the whole problem, so it is inconclusive like `unknown`.
pub fn verdict_of(outcome: Outcome, inputs: &[InputVariable], unexpressed: Vec<usize>) -> (v: Verdict)
    ensures
        match outcome {
            Outcome::Unsat { blamed } => if unexpressed@.len() == 0 {
                v matches Verdict::Impossible { blamed: b } && b@ == blamed@
            } else {
                v matches Verdict::Inconclusive { unexpressed: u } && u@ == unexpressed@
            },
            Outcome::Unknown => v matches Verdict::Inconclusive { unexpressed: u } && u@ == unexpressed@,
            Outcome::Sat(values) => v matches Verdict::Seed { point, unexpressed: u } && point@ == seed_point(
                values@,
                inputs@,
            ) && u@ == unexpressed@,
        },
{
    match outcome {
        Outcome::Unsat { blamed } => {
            if unexpressed.len() == 0 {
                Verdict::Impossible { blamed }
            } else {
                Verdict::Inconclusive { unexpressed }
            }
        },
        Outcome::Unknown => Verdict::Inconclusive { unexpressed },
        Outcome::Sat(values) => {
            let mut point: Vec<u64> = Vec::new();
            let mut i: usize = 0;
            while i < inputs.len()
                invariant
                    i <= inputs@.len(),
                    point@ =~= seed_point(values@, inputs@).take(i as int),
                decreases inputs@.len() - i,
            {
                point.push(value_in(&values, &inputs[i]));
                i += 1;
            }
            Verdict::Seed { point, unexpressed }
        },
    }
}

} // verus!
