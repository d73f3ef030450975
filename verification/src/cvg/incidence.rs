//! Which constraints name which coordinates, both ways round.
//!
//! A constraint system is a bipartite graph: constraints on one side,
//! coordinates on the other, an edge wherever a constraint names a
//! coordinate. A walker traverses it both ways (given a coordinate, which
//! constraints have anything to say about it; given a constraint, which row
//! of a point each of its symbols reads), so both are stored. The two index
//! kinds are newtypes so that the transpose cannot be built the wrong way
//! round.
use vstd::prelude::*;

use crate::{find_position, first_position, Ast, Schema};

verus! {

/// A coordinate of a point: a position in the bound schema.
#[derive(Debug, Clone, Copy, PartialEq, Eq, Structural, PartialOrd, Ord)]
pub struct Row(pub usize);

impl Row {
    pub fn index(self) -> (index: usize)
        ensures
            index == self.0,
    {
        self.0
    }
}

/// A position in a problem's constraint list.
#[derive(Debug, Clone, Copy, PartialEq, Eq, Structural, PartialOrd, Ord)]
pub struct ConstraintId(pub usize);

impl ConstraintId {
    pub fn index(self) -> (index: usize)
        ensures
            index == self.0,
    {
        self.0
    }
}

/// The row a symbol resolves to: the first schema position of its name.
pub open spec fn row_of(names: Seq<String>, symbol: String) -> Row {
    Row(first_position(names, symbol@)->Some_0 as usize)
}

/// How many of `symbols` resolve to `row`.
pub open spec fn hits(symbols: Seq<String>, names: Seq<String>, row: int) -> nat
    decreases symbols.len(),
{
    if symbols.len() == 0 {
        0
    } else {
        hits(symbols.drop_last(), names, row) + if first_position(names, symbols.last()@) == Some(row) {
            1nat
        } else {
            0nat
        }
    }
}

/// The constraints naming `row`, once per symbol that names it, in
/// constraint order.
pub open spec fn naming_of(cs: Seq<Ast>, names: Seq<String>, row: int) -> Seq<ConstraintId>
    decreases cs.len(),
{
    if cs.len() == 0 {
        Seq::empty()
    } else {
        naming_of(cs.drop_last(), names, row) + Seq::new(
            hits(cs.last().spec_symbols(), names, row),
            |i: int| ConstraintId((cs.len() - 1) as usize),
        )
    }
}

/// Every symbol of every constraint is named by the schema.
pub open spec fn all_bound(cs: Seq<Ast>, names: Seq<String>) -> bool {
    forall|c: int, g: int|
        0 <= c < cs.len() && 0 <= g < cs[c].spec_symbols().len() ==> #[trigger] first_position(
            names,
            cs[c].spec_symbols()[g]@,
        ) is Some
}

/// Strictly increasing, so a set in order.
pub open spec fn ascending(s: Seq<ConstraintId>) -> bool {
    forall|i: int, j: int| 0 <= i < j < s.len() ==> s[i].0 < s[j].0
}

/// `result` is the ascending set of what `base` and `extra` hold.
pub open spec fn widens(result: Seq<ConstraintId>, base: Seq<ConstraintId>, extra: Seq<ConstraintId>) -> bool {
    &&& ascending(result)
    &&& forall|x: ConstraintId| #[trigger] result.contains(x) <==> base.contains(x) || extra.contains(x)
}

/// The bipartite graph of constraints and coordinates.
#[derive(Debug)]
pub struct Incidence {
    /// Per constraint, its own symbol order resolved to rows.
    rows_of: Vec<Vec<Row>>,
    /// Per row, the constraints naming it.
    naming: Vec<Vec<ConstraintId>>,
    /// Per row, the constraints whose residual can change when it moves:
    /// those naming it, and those in play whatever moved.
    affected: Vec<Vec<ConstraintId>>,
}

impl Incidence {
    pub closed spec fn constraint_count(&self) -> nat {
        self.rows_of@.len()
    }

    pub closed spec fn row_count(&self) -> nat {
        self.naming@.len()
    }

    pub closed spec fn spec_rows_of(&self, c: int) -> Seq<Row> {
        self.rows_of@[c]@
    }

    pub closed spec fn spec_naming(&self, row: int) -> Seq<ConstraintId> {
        self.naming@[row]@
    }

    pub closed spec fn spec_affected(&self, row: int) -> Seq<ConstraintId> {
        self.affected@[row]@
    }

    pub closed spec fn well_formed(&self) -> bool {
        self.affected@.len() == self.naming@.len()
    }

    /// The graph of `constraints` resolved against `schema`. Each constraint's
    /// rows are its symbols' rows in its own order; each row is named by the
    /// constraints whose symbols resolve to it; and every row starts out
    /// affected by exactly the constraints naming it.
    pub fn of(constraints: &[Ast], schema: &Schema) -> (graph: Incidence)
        requires
            all_bound(constraints@, schema.spec_names()),
        ensures
            graph.well_formed(),
            graph.constraint_count() == constraints@.len(),
            graph.row_count() == schema.spec_names().len(),
            forall|c: int|
                0 <= c < constraints@.len() ==> #[trigger] graph.spec_rows_of(c) == Seq::new(
                    constraints@[c].spec_symbols().len(),
                    |g: int| row_of(schema.spec_names(), constraints@[c].spec_symbols()[g]),
                ),
            forall|r: int|
                0 <= r < schema.spec_names().len() ==> #[trigger] graph.spec_naming(r) == naming_of(
                    constraints@,
                    schema.spec_names(),
                    r,
                ) && graph.spec_affected(r) == graph.spec_naming(r),
    {
        let names = schema.names();
        let count = names.len();
        let ghost cs = constraints@;
        let mut naming: Vec<Vec<ConstraintId>> = Vec::new();
        while naming.len() < names.len()
            invariant
                naming@.len() <= names@.len(),
                forall|r: int| 0 <= r < naming@.len() ==> (#[trigger] naming@[r])@ == Seq::<ConstraintId>::empty(),
            decreases names@.len() - naming@.len(),
        {
            naming.push(Vec::new());
        }
        proof {
            assert forall|r: int| 0 <= r < names@.len() implies (#[trigger] naming@[r])@ == naming_of(cs.take(0), names@, r) by {
                assert(cs.take(0).len() == 0);
            }
        }
        let mut rows_of: Vec<Vec<Row>> = Vec::new();
        let mut c: usize = 0;
        while c < constraints.len()
            invariant
                c <= cs.len(),
                count == names@.len(),
                cs == constraints@,
                names@ == schema.spec_names(),
                all_bound(cs, names@),
                naming@.len() == names@.len(),
                rows_of@.len() == c,
                forall|k: int|
                    0 <= k < c ==> (#[trigger] rows_of@[k])@ == Seq::new(
                        cs[k].spec_symbols().len(),
                        |g: int| row_of(names@, cs[k].spec_symbols()[g]),
                    ),
                forall|r: int| 0 <= r < names@.len() ==> (#[trigger] naming@[r])@ == naming_of(cs.take(c as int), names@, r),
            decreases cs.len() - c,
        {
            let symbols = constraints[c].symbols();
            let ghost start = naming@.map_values(|v: Vec<ConstraintId>| v@);
            let mut rows: Vec<Row> = Vec::new();
            let mut g: usize = 0;
            while g < symbols.len()
                invariant
                    c < cs.len(),
                    count == names@.len(),
                    symbols@ == cs[c as int].spec_symbols(),
                    names@ == schema.spec_names(),
                    all_bound(cs, names@),
                    g <= symbols@.len(),
                    naming@.len() == names@.len(),
                    start.len() == names@.len(),
                    rows@ == Seq::new(g as nat, |k: int| row_of(names@, symbols@[k])),
                    forall|r: int|
                        0 <= r < names@.len() ==> (#[trigger] naming@[r])@ == start[r] + Seq::new(
                            hits(symbols@.take(g as int), names@, r),
                            |i: int| ConstraintId(c),
                        ),
                decreases symbols@.len() - g,
            {
                proof {
                    assert(first_position(names@, cs[c as int].spec_symbols()[g as int]@) is Some);
                    crate::lemma_first_position_bound(names@, symbols@[g as int]@);
                    assert(symbols@.take(g + 1).drop_last() =~= symbols@.take(g as int));
                    assert(symbols@.take(g + 1).last() == symbols@[g as int]);
                }
                let p = match find_position(names, &symbols[g]) {
                    Some(p) => p,
                    None => {
                        assert(false);
                        0
                    },
                };
                rows.push(Row(p));
                let ghost before = naming@;
                naming[p].push(ConstraintId(c));
                proof {
                    assert(first_position(names@, symbols@[g as int]@) == Some(p as int));
                    assert forall|r: int| 0 <= r < names@.len() implies #[trigger] hits(symbols@.take(g + 1), names@, r) == hits(
                        symbols@.take(g as int),
                        names@,
                        r,
                    ) + if r == p {
                        1nat
                    } else {
                        0nat
                    } by {}
                    assert(rows@ =~= Seq::new((g + 1) as nat, |k: int| row_of(names@, symbols@[k])));
                    assert forall|r: int|
                        0 <= r < names@.len() implies (#[trigger] naming@[r])@ == start[r] + Seq::new(
                            hits(symbols@.take(g + 1), names@, r),
                            |i: int| ConstraintId(c),
                        ) by {
                        if r == p {
                            assert((naming@[r])@ =~= start[r] + Seq::new(
                                hits(symbols@.take(g + 1), names@, r),
                                |i: int| ConstraintId(c),
                            ));
                        } else {
                            assert(naming@[r] == before[r]);
                            assert(Seq::new(hits(symbols@.take(g + 1), names@, r), |i: int| ConstraintId(c)) =~= Seq::new(
                                hits(symbols@.take(g as int), names@, r),
                                |i: int| ConstraintId(c),
                            ));
                        }
                    }
                }
                g += 1;
            }
            proof {
                assert(symbols@.take(symbols@.len() as int) =~= symbols@);
                assert(cs.take(c + 1).drop_last() =~= cs.take(c as int));
                assert(cs.take(c + 1).last() == cs[c as int]);
                assert forall|r: int| 0 <= r < names@.len() implies (#[trigger] naming@[r])@ == naming_of(
                    cs.take(c + 1),
                    names@,
                    r,
                ) by {
                    assert(start[r] == naming_of(cs.take(c as int), names@, r));
                }
            }
            rows_of.push(rows);
            c += 1;
        }
        proof {
            assert(cs.take(cs.len() as int) =~= cs);
        }
        let mut affected: Vec<Vec<ConstraintId>> = Vec::new();
        let mut r: usize = 0;
        while r < naming.len()
            invariant
                r <= naming@.len(),
                affected@.len() == r,
                forall|k: int| 0 <= k < r ==> (#[trigger] affected@[k])@ == naming@[k]@,
            decreases naming@.len() - r,
        {
            affected.push(copy_ids(&naming[r]));
            r += 1;
        }
        Incidence { rows_of, naming, affected }
    }

    /// Widens every row's affected constraints by `always`, the constraints
    /// in play whatever moved: each becomes the ascending set of what it held
    /// and `always`.
    pub fn with_always(self, always: &[ConstraintId]) -> (graph: Incidence)
        requires
            self.well_formed(),
        ensures
            graph.well_formed(),
            graph.constraint_count() == self.constraint_count(),
            graph.row_count() == self.row_count(),
            forall|c: int| 0 <= c < self.constraint_count() ==> #[trigger] graph.spec_rows_of(c) == self.spec_rows_of(c),
            forall|r: int| 0 <= r < self.row_count() ==> #[trigger] graph.spec_naming(r) == self.spec_naming(r),
            forall|r: int|
                0 <= r < self.row_count() ==> widens(#[trigger] graph.spec_affected(r), self.spec_affected(r), always@),
    {
        let Incidence { rows_of, naming, affected } = self;
        let mut widened: Vec<Vec<ConstraintId>> = Vec::new();
        let mut r: usize = 0;
        while r < affected.len()
            invariant
                r <= affected@.len(),
                widened@.len() == r,
                forall|k: int| 0 <= k < r ==> widens(#[trigger] widened@[k]@, affected@[k]@, always@),
            decreases affected@.len() - r,
        {
            let mut set: Vec<ConstraintId> = Vec::new();
            insert_all(&mut set, affected[r].as_slice());
            insert_all(&mut set, always);
            proof {
                assert forall|x: ConstraintId| #[trigger] set@.contains(x) <==> affected@[r as int]@.contains(x) || always@.contains(
                    x,
                ) by {}
            }
            let ghost before = widened@;
            widened.push(set);
            proof {
                assert forall|k: int| 0 <= k < r + 1 implies widens(#[trigger] widened@[k]@, affected@[k]@, always@) by {
                    if k < r {
                        assert(widened@[k] == before[k]);
                    }
                }
            }
            r += 1;
        }
        Incidence { rows_of, naming, affected: widened }
    }

    /// Where each of `constraint`'s symbols reads from, in its own symbol
    /// order.
    pub fn rows_of(&self, constraint: ConstraintId) -> (rows: &[Row])
        requires
            constraint.0 < self.constraint_count(),
        ensures
            rows@ == self.spec_rows_of(constraint.0 as int),
    {
        self.rows_of[constraint.0].as_slice()
    }

    /// The constraints that name `row`.
    pub fn naming(&self, row: Row) -> (constraints: &[ConstraintId])
        requires
            row.0 < self.row_count(),
        ensures
            constraints@ == self.spec_naming(row.0 as int),
    {
        self.naming[row.0].as_slice()
    }

    /// The constraints whose residual can change when `row` moves.
    pub fn affected(&self, row: Row) -> (constraints: &[ConstraintId])
        requires
            self.well_formed(),
            row.0 < self.row_count(),
        ensures
            constraints@ == self.spec_affected(row.0 as int),
    {
        self.affected[row.0].as_slice()
    }
}

fn copy_ids(ids: &Vec<ConstraintId>) -> (copy: Vec<ConstraintId>)
    ensures
        copy@ == ids@,
{
    let mut copy: Vec<ConstraintId> = Vec::new();
    let mut i: usize = 0;
    while i < ids.len()
        invariant
            i <= ids@.len(),
            copy@ == ids@.take(i as int),
        decreases ids@.len() - i,
    {
        copy.push(ids[i]);
        proof {
            assert(copy@ =~= ids@.take(i + 1));
        }
        i += 1;
    }
    proof {
        assert(ids@.take(ids@.len() as int) =~= ids@);
    }
    copy
}

/// Adds `x` to the ascending set `set`.
fn insert_one(set: &mut Vec<ConstraintId>, x: ConstraintId)
    requires
        ascending(old(set)@),
    ensures
        ascending(final(set)@),
        forall|y: ConstraintId| #[trigger] final(set)@.contains(y) <==> old(set)@.contains(y) || y == x,
{
    let mut p: usize = 0;
    while p < set.len() && set[p].0 < x.0
        invariant
            p <= set@.len(),
            ascending(set@),
            forall|i: int| 0 <= i < p ==> (#[trigger] set@[i]).0 < x.0,
        decreases set@.len() - p,
    {
        p += 1;
    }
    if p < set.len() && set[p].0 == x.0 {
        proof {
            assert(set@[p as int] == x);
        }
        return;
    }
    let ghost before = set@;
    set.insert(p, x);
    proof {
        assert forall|i: int, j: int| 0 <= i < j < set@.len() implies set@[i].0 < set@[j].0 by {
            if j < p {
                assert(set@[i] == before[i] && set@[j] == before[j]);
            } else if j == p {
                assert(set@[i] == before[i]);
            } else if i < p {
                assert(set@[i] == before[i] && set@[j] == before[j - 1]);
            } else if i == p {
                assert(set@[j] == before[j - 1]);
            } else {
                assert(set@[i] == before[i - 1] && set@[j] == before[j - 1]);
            }
        }
        assert forall|y: ConstraintId| #[trigger] set@.contains(y) <==> before.contains(y) || y == x by {
            if set@.contains(y) {
                let i = choose|i: int| 0 <= i < set@.len() && set@[i] == y;
                if i < p {
                    assert(before[i] == y);
                } else if i > p {
                    assert(before[i - 1] == y);
                }
            }
            if before.contains(y) {
                let i = choose|i: int| 0 <= i < before.len() && before[i] == y;
                if i < p {
                    assert(set@[i] == y);
                } else {
                    assert(set@[i + 1] == y);
                }
            }
            if y == x {
                assert(set@[p as int] == y);
            }
        }
    }
}

/// Adds every element of `xs` to the ascending set `set`.
fn insert_all(set: &mut Vec<ConstraintId>, xs: &[ConstraintId])
    requires
        ascending(old(set)@),
    ensures
        ascending(final(set)@),
        forall|y: ConstraintId| #[trigger] final(set)@.contains(y) <==> old(set)@.contains(y) || xs@.contains(y),
{
    let ghost start = set@;
    let mut i: usize = 0;
    while i < xs.len()
        invariant
            i <= xs@.len(),
            ascending(set@),
            forall|y: ConstraintId| #[trigger] set@.contains(y) <==> start.contains(y) || xs@.take(i as int).contains(y),
        decreases xs@.len() - i,
    {
        insert_one(set, xs[i]);
        proof {
            assert(xs@.take(i + 1) =~= xs@.take(i as int).push(xs@[i as int]));
            assert forall|y: ConstraintId| #[trigger] set@.contains(y) <==> start.contains(y) || xs@.take(i + 1).contains(y) by {
                vstd::seq_lib::lemma_seq_contains_after_push(xs@.take(i as int), xs@[i as int], y);
            }
        }
        i += 1;
    }
    proof {
        assert(xs@.take(xs@.len() as int) =~= xs@);
    }
}

} // verus!
