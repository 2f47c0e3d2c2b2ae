//! Dependencies between form controls: one control's evaluation can hide or
//! show another.

use vstd::prelude::*;

verus! {

/// A unique identifier for one dependency.
#[derive(Debug, Eq, PartialEq, Structural, Hash, Clone, Copy)]
pub struct DependencyId(pub usize);

impl DependencyId {
    /// Create a dependency identifier carrying the given value.
    pub fn new(value: usize) -> (r: DependencyId)
        ensures
            r.0 == value,
    {
        DependencyId(value)
    }
}

/// Provisions dependency identifiers, one at a time, in increasing order.
/// Owned by the form-construction phase, rather than being global state, so
/// the core stays testable in isolation.
#[derive(Debug)]
pub struct DependencyIdSource {
    pub next: usize,
}

impl DependencyIdSource {
    /// Create a source whose first identifier is zero.
    pub fn new() -> (r: DependencyIdSource)
        ensures
            r.next == 0,
    {
        DependencyIdSource { next: 0 }
    }

    /// Provision the next identifier.
    pub fn next_id(&mut self) -> (r: DependencyId)
        requires
            old(self).next < usize::MAX,
        ensures
            r.0 == old(self).next,
            final(self).next == old(self).next + 1,
    {
        let id = DependencyId(self.next);
        self.next = self.next + 1;
        id
    }
}

/// An evaluation to apply to the source of a dependency.
#[derive(Debug, Clone)]
pub enum Evaluation {
    /// Evaluates true if the source is empty.
    IsEmpty,
    /// Evaluates true if the source's value matches the parameter.
    Equal(String),
    /// Evaluates true if the source's value differs from the parameter.
    NotEqual(String),
}

/// An action to apply to the target if the source evaluates true.
#[derive(Debug, Clone, Copy, Eq, PartialEq, Structural)]
pub enum Action {
    /// If the evaluation is true for the source, the target is hidden.
    Hide,
    /// If the evaluation is false for the source, the target is hidden.
    Show,
}

/// The latest value and source of each registered dependency evaluation.
#[derive(Debug)]
pub struct DependencyState {
    pub evaluation_states: Vec<(DependencyId, bool)>,
    pub evaluation_sources: Vec<(DependencyId, (usize, usize))>,
}

/// The value an association list holds for a key, if any.
pub open spec fn assoc_find<V>(entries: Seq<(DependencyId, V)>, id: DependencyId) -> Option<V>
    decreases entries.len(),
{
    if entries.len() == 0 {
        None
    } else if entries.last().0 == id {
        Some(entries.last().1)
    } else {
        assoc_find(entries.drop_last(), id)
    }
}

impl DependencyState {
    /// Create an empty dependency state.
    pub fn new() -> (r: DependencyState)
        ensures
            r.evaluation_states@.len() == 0,
            r.evaluation_sources@.len() == 0,
    {
        DependencyState { evaluation_states: Vec::new(), evaluation_sources: Vec::new() }
    }

    /// Record which (step, control) pair a dependency's evaluation comes
    /// from.
    pub fn register_evaluation(&mut self, id: &DependencyId, step: usize, control: usize)
        ensures
            final(self).evaluation_states == old(self).evaluation_states,
            final(self).evaluation_sources@ == old(self).evaluation_sources@.push(
                (*id, (step, control)),
            ),
            assoc_find(final(self).evaluation_sources@, *id) == Some((step, control)),
    {
        self.evaluation_sources.push((*id, (step, control)));
    }

    /// The (step, control) source of the given dependency.
    pub fn get_source(&self, id: &DependencyId) -> (r: (usize, usize))
        requires
            assoc_find(self.evaluation_sources@, *id) is Some,
        ensures
            Some(r) == assoc_find(self.evaluation_sources@, *id),
    {
        let ghost entries = self.evaluation_sources@;
        let mut k: usize = self.evaluation_sources.len();
        proof {
            assert(entries.take(k as int) =~= entries);
        }
        while k > 0
            invariant
                k <= entries.len(),
                entries == self.evaluation_sources@,
                assoc_find(entries, *id) is Some,
                assoc_find(entries.take(k as int), *id) == assoc_find(entries, *id),
            decreases k,
        {
            proof {
                assert(entries.take(k as int).drop_last() =~= entries.take(k as int - 1));
                assert(entries.take(k as int).last() == entries[k as int - 1]);
            }
            k = k - 1;
            if self.evaluation_sources[k].0.0 == id.0 {
                proof {
                    assert(entries[k as int].0 == *id);
                    assert(assoc_find(entries.take(k as int + 1), *id) == Some(
                        entries[k as int].1,
                    ));
                }
                return self.evaluation_sources[k].1;
            }
            proof {
                assert(entries[k as int].0 != *id);
            }
        }
        proof {
            assert(entries.take(0) =~= Seq::<(DependencyId, (usize, usize))>::empty());
            assert(assoc_find(entries, *id) is None);
            assert(false);
        }
        unreached()
    }

    /// Record the latest value of a dependency's evaluation.
    pub fn update_evaluation(&mut self, id: &DependencyId, value: bool)
        ensures
            final(self).evaluation_sources == old(self).evaluation_sources,
            final(self).evaluation_states@ == old(self).evaluation_states@.push((*id, value)),
            assoc_find(final(self).evaluation_states@, *id) == Some(value),
    {
        self.evaluation_states.push((*id, value));
    }

    /// The latest value of a dependency's evaluation; false if it was never
    /// recorded.
    pub fn get_evaluation(&self, id: &DependencyId) -> (r: bool)
        ensures
            r == (match assoc_find(self.evaluation_states@, *id) {
                Some(v) => v,
                None => false,
            }),
    {
        let ghost entries = self.evaluation_states@;
        let mut k: usize = self.evaluation_states.len();
        proof {
            assert(entries.take(k as int) =~= entries);
        }
        while k > 0
            invariant
                k <= entries.len(),
                entries == self.evaluation_states@,
                assoc_find(entries.take(k as int), *id) == assoc_find(entries, *id),
            decreases k,
        {
            proof {
                assert(entries.take(k as int).drop_last() =~= entries.take(k as int - 1));
                assert(entries.take(k as int).last() == entries[k as int - 1]);
            }
            k = k - 1;
            if self.evaluation_states[k].0.0 == id.0 {
                proof {
                    assert(entries[k as int].0 == *id);
                    assert(assoc_find(entries.take(k as int + 1), *id) == Some(
                        entries[k as int].1,
                    ));
                }
                return self.evaluation_states[k].1;
            }
            proof {
                assert(entries[k as int].0 != *id);
            }
        }
        proof {
            assert(entries.take(0) =~= Seq::<(DependencyId, bool)>::empty());
        }
        false
    }
}

} // verus!
