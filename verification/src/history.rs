//! Undo/redo snapshot-based history stack.
//!
//! Stores snapshots of the entire [`Value`] tree before each mutation.
//! [`History::undo`] and [`History::redo`] restore previous or next states.

use vstd::prelude::*;

use crate::tree::value::{Val, Value};

verus! {

/// The most undo steps that a history keeps (it holds one more state than
/// that: the state the first step goes back to).
pub const MAX_UNDO: usize = 100;

/// The views of a sequence of snapshots.
pub open spec fn vals(s: Seq<Value>) -> Seq<Val> {
    s.map_values(|v: Value| v@)
}

/// The state of a history: past states (most recent last) and future
/// states (most recent last).
pub struct HistoryView {
    pub undo: Seq<Val>,
    pub redo: Seq<Val>,
}

/// A bounded, snapshot-based undo/redo history.
///
/// Before every mutation, call [`History::record`] with the current tree.
/// [`History::undo`] restores the previous state and pushes the current one
/// onto the redo stack; [`History::redo`] does the reverse. Recording a new
/// mutation after an undo clears the redo stack (the branch is lost).
#[derive(Debug)]
pub struct History {
    /// Past states (most recent at the end).
    undo_stack: Vec<Value>,
    /// Future states (most recent at the end).
    redo_stack: Vec<Value>,
    /// Maximum number of undo steps.
    max_undo: usize,
}

/// The history after `record(state)`: pushed, redo cleared, oldest dropped beyond the bound.
pub open spec fn record_spec(h: HistoryView, state: Val) -> HistoryView {
    let pushed = h.undo.push(state);
    HistoryView {
        undo: if pushed.len() > MAX_UNDO + 1 {
            pushed.subrange(pushed.len() - (MAX_UNDO + 1), pushed.len() as int)
        } else {
            pushed
        },
        redo: Seq::empty(),
    }
}

/// The history and result after `undo(current)`.
pub open spec fn undo_spec(h: HistoryView, current: Val) -> (HistoryView, Option<Val>) {
    if h.undo.len() <= 1 {
        (h, None)
    } else {
        (
            HistoryView { undo: h.undo.drop_last(), redo: h.redo.push(current) },
            Some(h.undo.last()),
        )
    }
}

/// The history and result after `redo(current)`.
pub open spec fn redo_spec(h: HistoryView, current: Val) -> (HistoryView, Option<Val>) {
    if h.redo.len() == 0 {
        (h, None)
    } else {
        (
            HistoryView { undo: h.undo.push(current), redo: h.redo.drop_last() },
            Some(h.redo.last()),
        )
    }
}

/// A history state that the operations can reach: at least one past state,
/// and at most the bound of past and future states together.
pub open spec fn valid_history(h: HistoryView) -> bool {
    1 <= h.undo.len() && h.undo.len() + h.redo.len() <= MAX_UNDO + 1
}

impl History {
    #[verifier::type_invariant]
    closed spec fn inv(self) -> bool {
        &&& self.max_undo == MAX_UNDO
        &&& 1 <= self.undo_stack@.len()
        &&& self.undo_stack@.len() + self.redo_stack@.len() <= self.max_undo + 1
    }

    /// The current undo and redo stacks.
    pub closed spec fn view(&self) -> HistoryView {
        HistoryView { undo: vals(self.undo_stack@), redo: vals(self.redo_stack@) }
    }

    /// Every history satisfies the bound.
    pub fn is_valid(&self)
        ensures
            valid_history(self.view()),
    {
        proof {
            use_type_invariant(self);
        }
    }

    /// Create a new history seeded with the initial tree state.
    pub fn new(initial: Value) -> (r: Self)
        ensures
            r.view() == (HistoryView { undo: seq![initial@], redo: Seq::empty() }),
    {
        let mut undo_stack: Vec<Value> = Vec::new();
        undo_stack.push(initial);
        let r = History { undo_stack, redo_stack: Vec::new(), max_undo: MAX_UNDO };
        proof {
            assert(vals(r.undo_stack@) =~= seq![initial@]);
            assert(vals(r.redo_stack@) =~= Seq::<Val>::empty());
        }
        r
    }

    fn take(&mut self) -> (r: Self)
        ensures
            r.view() == old(self).view(),
            final(self).view() == (HistoryView { undo: seq![Val::Null], redo: Seq::empty() }),
    {
        let mut tmp = History::new(Value::Null);
        proof {
            crate::tree::value::lemma_value_view(Value::Null);
        }
        std::mem::swap(self, &mut tmp);
        tmp
    }

    /// Record a snapshot **before** a mutation is applied.
    ///
    /// Clears the redo stack (a new history branch starts); keeps at most
    /// [`MAX_UNDO`] undo steps by dropping the oldest state.
    pub fn record(&mut self, state: Value)
        ensures
            final(self).view() == record_spec(old(self).view(), state@),
    {
        proof {
            use_type_invariant(&*self);
        }
        let old_h = self.take();
        proof {
            use_type_invariant(&old_h);
        }
        let History { mut undo_stack, redo_stack: _, max_undo } = old_h;
        let ghost pushed = undo_stack@.push(state);
        undo_stack.push(state);
        let mut kept: Vec<Value> = Vec::new();
        let ghost start: int = if pushed.len() > MAX_UNDO + 1 {
            pushed.len() - (MAX_UNDO + 1)
        } else {
            0
        };
        let mut undo_all = undo_stack;
        if undo_all.len() > max_undo + 1 {
            let drop = undo_all.len() - (max_undo + 1);
            kept = undo_all.split_off(drop);
        } else {
            kept = undo_all;
        }
        proof {
            assert(kept@ =~= pushed.subrange(start, pushed.len() as int));
            assert(vals(kept@) =~= if pushed.len() > MAX_UNDO + 1 {
                vals(pushed).subrange(start, pushed.len() as int)
            } else {
                vals(pushed)
            });
            assert(vals(pushed) =~= vals(old(self).undo_stack@).push(state@));
            assert(vals(Seq::<Value>::empty()) =~= Seq::<Val>::empty());
        }
        *self = History { undo_stack: kept, redo_stack: Vec::new(), max_undo };
    }

    /// Undo: restore the previous state.
    ///
    /// Pass the **current** tree state. Returns `Some(previous_state)`, or
    /// `None` if there is nothing to undo.
    pub fn undo(&mut self, current: Value) -> (r: Option<Value>)
        ensures
            (final(self).view(), match r {
                Some(v) => Some(v@),
                None => None::<Val>,
            }) == undo_spec(old(self).view(), current@),
    {
        proof {
            use_type_invariant(&*self);
        }
        if self.undo_stack.len() <= 1 {
            return None;
        }
        let old_h = self.take();
        proof {
            use_type_invariant(&old_h);
        }
        let History { mut undo_stack, mut redo_stack, max_undo } = old_h;
        let ghost u0 = undo_stack@;
        let ghost r0 = redo_stack@;
        redo_stack.push(current);
        let prev = undo_stack.pop();
        proof {
            assert(vals(undo_stack@) =~= vals(u0).drop_last());
            assert(vals(redo_stack@) =~= vals(r0).push(current@));
        }
        *self = History { undo_stack, redo_stack, max_undo };
        prev
    }

    /// Redo: restore the next state after an undo.
    ///
    /// Pass the **current** tree state. Returns `Some(next_state)`, or `None`
    /// if there is nothing to redo.
    pub fn redo(&mut self, current: Value) -> (r: Option<Value>)
        ensures
            (final(self).view(), match r {
                Some(v) => Some(v@),
                None => None::<Val>,
            }) == redo_spec(old(self).view(), current@),
    {
        proof {
            use_type_invariant(&*self);
        }
        if self.redo_stack.len() == 0 {
            return None;
        }
        let old_h = self.take();
        proof {
            use_type_invariant(&old_h);
        }
        let History { mut undo_stack, mut redo_stack, max_undo } = old_h;
        let ghost u0 = undo_stack@;
        let ghost r0 = redo_stack@;
        let next = redo_stack.pop();
        undo_stack.push(current);
        proof {
            assert(vals(undo_stack@) =~= vals(u0).push(current@));
            assert(vals(redo_stack@) =~= vals(r0).drop_last());
        }
        *self = History { undo_stack, redo_stack, max_undo };
        next
    }

    /// Returns `true` if undo is available (more than one state stored).
    pub fn can_undo(&self) -> (r: bool)
        ensures
            r == (self.view().undo.len() > 1),
    {
        self.undo_stack.len() > 1
    }

    /// Returns `true` if redo is available.
    pub fn can_redo(&self) -> (r: bool)
        ensures
            r == (self.view().redo.len() > 0),
    {
        self.redo_stack.len() > 0
    }

    /// The number of past states stored.
    pub fn undo_len(&self) -> (r: usize)
        ensures
            r == self.view().undo.len(),
    {
        self.undo_stack.len()
    }

    /// Clear the entire history and reset with a new initial state.
    pub fn reset(&mut self, initial: Value)
        ensures
            final(self).view() == (HistoryView { undo: seq![initial@], redo: Seq::empty() }),
    {
        *self = History::new(initial);
    }
}

// ── laws ────────────────────────────────────────────────────────────

/// Every operation keeps a history within its bound.
pub proof fn law_operations_keep_bound(h: HistoryView, v: Val)
    requires
        valid_history(h),
    ensures
        valid_history(record_spec(h, v)),
        valid_history(undo_spec(h, v).0),
        valid_history(redo_spec(h, v).0),
{
}

/// Undo right after recording a state gives that state back.
pub proof fn law_record_then_undo(h: HistoryView, state: Val, current: Val)
    requires
        valid_history(h),
    ensures
        undo_spec(record_spec(h, state), current).1 == Some(state),
{
}

/// Redo right after an undo gives back the state that was current, and
/// restores the history as it was before the undo.
pub proof fn law_undo_then_redo(h: HistoryView, current: Val)
    requires
        undo_spec(h, current).1 is Some,
    ensures
        redo_spec(undo_spec(h, current).0, undo_spec(h, current).1->0) == (h, Some(current)),
{
    assert(h.undo.drop_last().push(h.undo.last()) =~= h.undo);
    assert(h.redo.push(current).drop_last() =~= h.redo);
}

/// Undo right after a redo gives back the state that was current, and
/// restores the history as it was before the redo.
pub proof fn law_redo_then_undo(h: HistoryView, current: Val)
    requires
        valid_history(h),
        redo_spec(h, current).1 is Some,
    ensures
        undo_spec(redo_spec(h, current).0, redo_spec(h, current).1->0) == (h, Some(current)),
{
    assert(h.undo.push(current).drop_last() =~= h.undo);
    assert(h.redo.drop_last().push(h.redo.last()) =~= h.redo);
}

/// Recording a state clears the redo stack.
pub proof fn law_record_clears_redo(h: HistoryView, state: Val)
    ensures
        record_spec(h, state).redo.len() == 0,
{
}

/// The number of undo steps a history offers: each successful undo takes
/// one, and undo fails exactly when none is left.
pub open spec fn undo_steps(h: HistoryView) -> int {
    h.undo.len() - 1
}

/// The history after recording each of `states` in turn.
pub open spec fn record_all(h: HistoryView, states: Seq<Val>) -> HistoryView
    decreases states.len(),
{
    if states.len() == 0 {
        h
    } else {
        record_spec(record_all(h, states.drop_last()), states.last())
    }
}

/// An undo succeeds exactly when an undo step is left, and uses one up.
pub proof fn law_undo_uses_a_step(h: HistoryView, current: Val)
    requires
        valid_history(h),
    ensures
        undo_spec(h, current).1 is Some <==> undo_steps(h) > 0,
        undo_spec(h, current).1 is Some ==> undo_steps(undo_spec(h, current).0) == undo_steps(h) - 1,
{
}

/// After a fresh history and `k` recorded states, exactly `min(k, MAX_UNDO)`
/// undo steps are available, and nothing to redo.
pub proof fn law_undo_steps_after_records(initial: Val, states: Seq<Val>)
    ensures
        undo_steps(record_all(HistoryView { undo: seq![initial], redo: Seq::empty() }, states))
            == if states.len() < MAX_UNDO { states.len() as int } else { MAX_UNDO as int },
        record_all(HistoryView { undo: seq![initial], redo: Seq::empty() }, states).redo.len() == 0,
        valid_history(record_all(HistoryView { undo: seq![initial], redo: Seq::empty() }, states)),
    decreases states.len(),
{
    if states.len() > 0 {
        law_undo_steps_after_records(initial, states.drop_last());
    }
}

} // verus!
