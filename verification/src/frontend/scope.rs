//! Name resolution while the tree is built.
//!
//! A name resolves to the innermost binding of it, and within a scope to the
//! newest: that order is the whole of shadowing. A name bound nowhere is a
//! global, numbered in order of first reference. Slots are handed out once
//! and never reused, so one flat frame serves the whole tree.
use vstd::prelude::*;

use crate::ast::{GlobalId, LocalSlot};

verus! {

/// The bindings introduced by one lexical scope, oldest first.
pub struct Scope {
    pub slot_by_name: Vec<(String, LocalSlot)>,
}

/// Everything the translation accumulates.
pub struct TranslationState {
    /// Distinct global names in first-reference order.
    pub globals: Vec<String>,
    /// The lexical scopes, innermost last.
    pub scope_stack: Vec<Scope>,
    /// The next slot to hand out.
    pub next_slot: u32,
    /// Whether any `var[i]` was translated.
    pub contains_dynamic_lookup: bool,
}

/// The newest binding of `name` among `bindings`.
pub open spec fn lookup_in(bindings: Seq<(String, LocalSlot)>, name: Seq<char>) -> Option<LocalSlot>
    decreases bindings.len(),
{
    if bindings.len() == 0 {
        None
    } else if bindings.last().0@ == name {
        Some(bindings.last().1)
    } else {
        lookup_in(bindings.drop_last(), name)
    }
}

/// The binding of `name` in the innermost scope that binds it.
pub open spec fn lookup(scopes: Seq<Scope>, name: Seq<char>) -> Option<LocalSlot>
    decreases scopes.len(),
{
    if scopes.len() == 0 {
        None
    } else {
        match lookup_in(scopes.last().slot_by_name@, name) {
            Some(slot) => Some(slot),
            None => lookup(scopes.drop_last(), name),
        }
    }
}

/// The global names, as text.
pub open spec fn global_names(globals: Seq<String>) -> Seq<Seq<char>> {
    globals.map_values(|s: String| s@)
}

/// No name occurs twice.
pub open spec fn distinct_names(globals: Seq<String>) -> bool {
    forall|i: int, j: int| 0 <= i < j < globals.len() ==> globals[i]@ != globals[j]@
}

/// Every slot bound in `scopes` is below `next`.
pub open spec fn slots_below(scopes: Seq<Scope>, next: u32) -> bool {
    forall|i: int, j: int|
        0 <= i < scopes.len() && 0 <= j < scopes[i].slot_by_name@.len() ==> (#[trigger] scopes[i].slot_by_name@[j]).1.0
            < next
}

proof fn lemma_lookup_in_below(bindings: Seq<(String, LocalSlot)>, name: Seq<char>, next: u32)
    requires
        forall|j: int| 0 <= j < bindings.len() ==> (#[trigger] bindings[j]).1.0 < next,
    ensures
        lookup_in(bindings, name) matches Some(s) ==> s.0 < next,
    decreases bindings.len(),
{
    if bindings.len() > 0 {
        lemma_lookup_in_below(bindings.drop_last(), name, next);
    }
}

/// A name resolves to a slot that was handed out.
pub proof fn lemma_lookup_below(scopes: Seq<Scope>, name: Seq<char>, next: u32)
    requires
        slots_below(scopes, next),
    ensures
        lookup(scopes, name) matches Some(s) ==> s.0 < next,
    decreases scopes.len(),
{
    if scopes.len() > 0 {
        let last = scopes.last().slot_by_name@;
        assert forall|j: int| 0 <= j < last.len() implies (#[trigger] last[j]).1.0 < next by {
            assert(scopes[scopes.len() - 1].slot_by_name@[j] == last[j]);
        }
        lemma_lookup_in_below(last, name, next);
        let rest = scopes.drop_last();
        assert forall|i: int, j: int| 0 <= i < rest.len() && 0 <= j < rest[i].slot_by_name@.len() implies (
        #[trigger] rest[i].slot_by_name@[j]).1.0 < next by {
            assert(rest[i] == scopes[i]);
        }
        lemma_lookup_below(rest, name, next);
    }
}

impl TranslationState {
    /// The state before anything is translated.
    pub fn new() -> (state: TranslationState)
        ensures
            state.globals@.len() == 0,
            state.scope_stack@.len() == 0,
            state.next_slot == 0,
            !state.contains_dynamic_lookup,
    {
        TranslationState {
            globals: Vec::new(),
            scope_stack: Vec::new(),
            next_slot: 0,
            contains_dynamic_lookup: false,
        }
    }

    /// Opens a scope.
    pub fn push_scope(&mut self)
        ensures
            final(self).scope_stack@.len() == old(self).scope_stack@.len() + 1,
            final(self).scope_stack@.drop_last() == old(self).scope_stack@,
            final(self).scope_stack@.last().slot_by_name@.len() == 0,
            slots_below(old(self).scope_stack@, old(self).next_slot) ==> slots_below(
                final(self).scope_stack@,
                final(self).next_slot,
            ),
            final(self).globals == old(self).globals,
            final(self).next_slot == old(self).next_slot,
            final(self).contains_dynamic_lookup == old(self).contains_dynamic_lookup,
    {
        let ghost before = self.scope_stack@;
        self.scope_stack.push(Scope { slot_by_name: Vec::new() });
        proof {
            assert(self.scope_stack@.drop_last() =~= before);
            if slots_below(before, self.next_slot) {
                assert forall|i: int, j: int|
                    0 <= i < self.scope_stack@.len() && 0 <= j < self.scope_stack@[i].slot_by_name@.len() implies (
                    #[trigger] self.scope_stack@[i].slot_by_name@[j]).1.0 < self.next_slot by {
                    assert(self.scope_stack@[i] == before[i]);
                }
            }
        }
    }

    /// Closes the innermost scope: its bindings are invisible from here on.
    pub fn pop_scope(&mut self)
        ensures
            final(self).scope_stack@ == (if old(self).scope_stack@.len() == 0 {
                old(self).scope_stack@
            } else {
                old(self).scope_stack@.drop_last()
            }),
            slots_below(old(self).scope_stack@, old(self).next_slot) ==> slots_below(
                final(self).scope_stack@,
                final(self).next_slot,
            ),
            final(self).globals == old(self).globals,
            final(self).next_slot == old(self).next_slot,
            final(self).contains_dynamic_lookup == old(self).contains_dynamic_lookup,
    {
        let ghost before = self.scope_stack@;
        let _ = self.scope_stack.pop();
        proof {
            if slots_below(before, self.next_slot) && before.len() > 0 {
                assert forall|i: int, j: int|
                    0 <= i < self.scope_stack@.len() && 0 <= j < self.scope_stack@[i].slot_by_name@.len() implies (
                    #[trigger] self.scope_stack@[i].slot_by_name@[j]).1.0 < self.next_slot by {
                    assert(self.scope_stack@[i] == before[i]);
                }
            }
        }
    }

    /// Binds `name` in the innermost scope to a fresh slot. Re-declaring a
    /// name shadows the earlier binding.
    pub fn declare(&mut self, name: &str) -> (slot: LocalSlot)
        requires
            old(self).scope_stack@.len() > 0,
            old(self).next_slot < u32::MAX,
        ensures
            slot.0 == old(self).next_slot,
            final(self).next_slot == old(self).next_slot + 1,
            final(self).scope_stack@.len() == old(self).scope_stack@.len(),
            final(self).scope_stack@.drop_last() == old(self).scope_stack@.drop_last(),
            final(self).scope_stack@.last().slot_by_name@ == old(self).scope_stack@.last().slot_by_name@.push(
                (final(self).scope_stack@.last().slot_by_name@.last().0, slot),
            ),
            final(self).scope_stack@.last().slot_by_name@.last().0@ == name@,
            lookup(final(self).scope_stack@, name@) == Some(slot),
            forall|other: Seq<char>| other != name@ ==> lookup(final(self).scope_stack@, other) == lookup(
                old(self).scope_stack@,
                other,
            ),
            slots_below(old(self).scope_stack@, old(self).next_slot) ==> slots_below(
                final(self).scope_stack@,
                final(self).next_slot,
            ),
            final(self).globals == old(self).globals,
            final(self).contains_dynamic_lookup == old(self).contains_dynamic_lookup,
    {
        let slot = LocalSlot::from_index(self.next_slot);
        self.next_slot = self.next_slot + 1;
        let ghost before = self.scope_stack@;
        let mut innermost = self.scope_stack.pop().unwrap();
        innermost.slot_by_name.push((name.to_string(), slot));
        self.scope_stack.push(innermost);
        proof {
            assert(self.scope_stack@.drop_last() =~= before.drop_last());
            let bindings = self.scope_stack@.last().slot_by_name@;
            assert(bindings.drop_last() =~= before.last().slot_by_name@);
            if slots_below(before, (self.next_slot - 1) as u32) {
                let n = self.scope_stack@.len() - 1;
                assert forall|i: int, j: int|
                    0 <= i < self.scope_stack@.len() && 0 <= j < self.scope_stack@[i].slot_by_name@.len() implies (
                    #[trigger] self.scope_stack@[i].slot_by_name@[j]).1.0 < self.next_slot by {
                    if i < n {
                        assert(self.scope_stack@[i] == self.scope_stack@.drop_last()[i]);
                        assert(self.scope_stack@[i] == before[i]);
                    } else {
                        if j < bindings.len() - 1 {
                            assert(bindings[j] == before.last().slot_by_name@[j]);
                            assert(before.last() == before[n]);
                        }
                    }
                }
            }
        }
        slot
    }

    /// The slot `name` resolves to: the innermost scope first, and within a
    /// scope the newest binding first.
    pub fn resolve_local(&self, name: &str) -> (slot: Option<LocalSlot>)
        ensures
            slot == lookup(self.scope_stack@, name@),
    {
        let mut i: usize = self.scope_stack.len();
        proof {
            assert(self.scope_stack@.take(i as int) =~= self.scope_stack@);
        }
        while i > 0
            invariant
                i <= self.scope_stack@.len(),
                lookup(self.scope_stack@, name@) == lookup(self.scope_stack@.take(i as int), name@),
            decreases i,
        {
            let scope = &self.scope_stack[i - 1];
            let mut j: usize = scope.slot_by_name.len();
            proof {
                assert(scope.slot_by_name@.take(j as int) =~= scope.slot_by_name@);
            }
            while j > 0
                invariant
                    0 < i <= self.scope_stack@.len(),
                    *scope == self.scope_stack@[i - 1],
                    lookup(self.scope_stack@, name@) == lookup(self.scope_stack@.take(i as int), name@),
                    j <= scope.slot_by_name@.len(),
                    lookup_in(scope.slot_by_name@, name@) == lookup_in(scope.slot_by_name@.take(j as int), name@),
                decreases j,
            {
                let ghost prefix = scope.slot_by_name@.take(j as int);
                if crate::text::same_text(scope.slot_by_name[j - 1].0.as_str(), name) {
                    proof {
                        assert(prefix.last() == scope.slot_by_name@[j - 1]);
                        assert(lookup_in(prefix, name@) == Some(scope.slot_by_name@[j - 1].1));
                        let taken = self.scope_stack@.take(i as int);
                        assert(taken.last() == self.scope_stack@[i - 1]);
                        assert(lookup(taken, name@) == Some(scope.slot_by_name@[j - 1].1));
                    }
                    return Some(scope.slot_by_name[j - 1].1);
                }
                proof {
                    assert(prefix.drop_last() =~= scope.slot_by_name@.take(j - 1));
                }
                j -= 1;
            }
            proof {
                assert(scope.slot_by_name@.take(0) =~= Seq::<(String, LocalSlot)>::empty());
                assert(self.scope_stack@.take(i as int).last() == self.scope_stack@[i - 1]);
                assert(self.scope_stack@.take(i as int).drop_last() =~= self.scope_stack@.take(i - 1));
            }
            i -= 1;
        }
        None
    }

    /// The id of global `name`, registering it on first reference so that
    /// ids follow first-reference order.
    pub fn get_or_make_id(&mut self, name: &str) -> (id: GlobalId)
        requires
            old(self).globals@.len() < u32::MAX,
        ensures
            global_names(old(self).globals@).contains(name@) ==> final(self).globals@ == old(self).globals@,
            !global_names(old(self).globals@).contains(name@) ==> global_names(final(self).globals@)
                == global_names(old(self).globals@).push(name@),
            id.spec_index() < final(self).globals@.len(),
            final(self).globals@[id.spec_index() as int]@ == name@,
            forall|k: int| 0 <= k < id.spec_index() ==> final(self).globals@[k]@ != name@,
            distinct_names(old(self).globals@) ==> distinct_names(final(self).globals@),
            final(self).globals@.len() >= old(self).globals@.len(),
            final(self).globals@.subrange(0, old(self).globals@.len() as int) == old(self).globals@,
            final(self).globals@.len() <= old(self).globals@.len() + 1,
            final(self).scope_stack == old(self).scope_stack,
            final(self).next_slot == old(self).next_slot,
            final(self).contains_dynamic_lookup == old(self).contains_dynamic_lookup,
    {
        let mut k: usize = 0;
        while k < self.globals.len()
            invariant
                k <= self.globals@.len(),
                self.globals@.len() < u32::MAX,
                forall|m: int| 0 <= m < k ==> self.globals@[m]@ != name@,
            decreases self.globals@.len() - k,
        {
            if crate::text::same_text(self.globals[k].as_str(), name) {
                proof {
                    assert(self.globals@.subrange(0, self.globals@.len() as int) =~= self.globals@);
                    assert(global_names(self.globals@)[k as int] == name@);
                }
                return GlobalId::from_index(k as u32);
            }
            k += 1;
        }
        proof {
            assert(!global_names(self.globals@).contains(name@)) by {
                if global_names(self.globals@).contains(name@) {
                    let m = choose|m: int| 0 <= m < global_names(self.globals@).len() && global_names(self.globals@)[m] == name@;
                    assert(self.globals@[m]@ == name@);
                }
            }
        }
        let ghost before = self.globals@;
        self.globals.push(name.to_string());
        proof {
            assert(self.globals@.subrange(0, before.len() as int) =~= before);
            assert(global_names(self.globals@) =~= global_names(before).push(name@));
            if distinct_names(before) {
                assert forall|i: int, j: int| 0 <= i < j < self.globals@.len() implies self.globals@[i]@
                    != self.globals@[j]@ by {
                    if j == before.len() {
                        assert(self.globals@[i] == before[i]);
                    } else {
                        assert(self.globals@[i] == before[i]);
                        assert(self.globals@[j] == before[j]);
                    }
                }
            }
        }
        GlobalId::from_index(k as u32)
    }
}

} // verus!
