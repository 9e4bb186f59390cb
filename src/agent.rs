//! Agents: each owns a table from category to transition definition, its
//! current category and its current state value.
use crate::state::{
    diff, events_view, lemma_diff_self_empty, names_unique, same_shape, EventView, FieldsView, State, StateValue,
    StateChangeEvent,
};
use rand::seq::SliceRandom;
use std::collections::HashMap;
use vstd::prelude::*;

verus! {

/// rand's `StdRng`, the seeded random source that successor draws consume;
/// opaque here.
#[verifier::external_type_specification]
#[verifier::external_body]
pub struct ExStdRng(rand::rngs::StdRng);

/// The sum of the weights of a successor list.
pub open spec fn weight_sum(s: Seq<(u64, u64)>) -> nat
    decreases s.len(),
{
    if s.len() == 0 {
        0
    } else {
        weight_sum(s.drop_last()) + s.last().1 as nat
    }
}

/// Some successor has a positive weight.
pub open spec fn has_positive_weight(s: Seq<(u64, u64)>) -> bool {
    exists|i: int| 0 <= i < s.len() && s[i].1 > 0
}

/// `c` is a successor in `s` with a positive weight.
pub open spec fn is_weighted_successor(s: Seq<(u64, u64)>, c: u64) -> bool {
    exists|i: int| 0 <= i < s.len() && s[i].0 == c && s[i].1 > 0
}

/// Relies on rand's `SliceRandom::choose_weighted`, used with integer
/// weights: it fails exactly when no weight is positive (an empty list, or
/// all weights zero), and otherwise returns an item whose weight is
/// positive. It sums the weights as `u64`, so the sum must fit.
#[verifier::external_body]
fn choose_weighted(successors: &Vec<(u64, u64)>, rng: &mut rand::rngs::StdRng) -> (r: Option<u64>)
    requires
        weight_sum(successors@) <= u64::MAX,
    ensures
        r.is_some() <==> has_positive_weight(successors@),
        r matches Some(c) ==> is_weighted_successor(successors@, c),
{
    successors.choose_weighted(rng, |item| item.1).ok().map(|item| item.0)
}

/// How an agent behaves in one category. Categories are labels chosen by
/// the caller; weights are relative and need not sum to anything in
/// particular; the dwell time is in milliseconds.
pub struct StateType {
    /// The successor categories, each with its weight. An empty list makes
    /// the category terminal.
    pub transitions: Vec<(u64, u64)>,
    /// The mean time spent in the category before the next transition.
    /// Zero means that the transition is instantaneous.
    pub mean_dwell_millis: u64,
}

/// One agent of the simulation.
pub struct Agent {
    pub transition_matrix: HashMap<u64, StateType>,
    pub current_state_type: u64,
    pub data: StateValue,
    pub id: String,
}

/// The events that `apply_transition` produces when agent `a` moves to
/// category `c` and `c`'s generator produced `generated`: the diff from the
/// current state, or nothing when `c` is absent from the table.
pub open spec fn transition_events(a: Agent, c: u64, generated: FieldsView, time: i64) -> Seq<
    EventView,
> {
    if a.transition_matrix@.contains_key(c) {
        diff(a.data@, generated, time, a.id@)
    } else {
        Seq::empty()
    }
}

/// A transition whose generated state is field for field the agent's
/// current state produces no event; `apply_transition` still moves the
/// agent to the new category.
pub proof fn lemma_identical_transition_silent(a: Agent, c: u64, generated: FieldsView, time: i64)
    requires
        names_unique(a.data@),
        generated == a.data@,
    ensures
        transition_events(a, c, generated, time).len() == 0,
{
    lemma_diff_self_empty(a.data@, time, a.id@);
}

impl Agent {
    /// The definition of the current category, if the table has one.
    pub open spec fn current_def(&self) -> Option<StateType> {
        if self.transition_matrix@.contains_key(self.current_state_type) {
            Some(self.transition_matrix@[self.current_state_type])
        } else {
            None
        }
    }

    /// A weighted draw of a successor can be made: the current category is
    /// in the table, some successor has a positive weight, and the weights'
    /// sum fits in 64 bits.
    pub open spec fn can_step(&self) -> bool {
        &&& self.current_def() is Some
        &&& has_positive_weight(self.current_def()->0.transitions@)
        &&& weight_sum(self.current_def()->0.transitions@) <= u64::MAX
    }

    /// The current category is absent from the table, or none of its
    /// successors can ever be drawn: the agent is done.
    pub open spec fn is_terminal(&self) -> bool {
        match self.current_def() {
            None => true,
            Some(d) => !has_positive_weight(d.transitions@),
        }
    }

    /// An agent named `id` in category `initial_state_type`, whose state is
    /// `initial_data`, what that category's generator produced.
    pub fn new(
        id: String,
        initial_state_type: u64,
        transition_matrix: HashMap<u64, StateType>,
        initial_data: StateValue,
    ) -> (r: Agent)
        requires
            transition_matrix@.contains_key(initial_state_type),
        ensures
            r.id@ == id@,
            r.current_state_type == initial_state_type,
            r.transition_matrix@ == transition_matrix@,
            r.data@ == initial_data@,
    {
        Agent {
            id,
            transition_matrix,
            current_state_type: initial_state_type,
            data: initial_data,
        }
    }

    /// Draws the next category among the current category's successors, in
    /// proportion to their weights. None when the current category is absent
    /// from the table, has no successor of positive weight, or has weights
    /// whose sum does not fit in 64 bits.
    pub fn step(&self, rng: &mut rand::rngs::StdRng) -> (r: Option<u64>)
        ensures
            r.is_some() <==> self.can_step(),
            r matches Some(c) ==> is_weighted_successor(self.current_def()->0.transitions@, c),
    {
        match self.transition_matrix.get(&self.current_state_type) {
            None => None,
            Some(def) => {
                if def.transitions.len() == 0 {
                    return None;
                }
                if !weights_fit(&def.transitions) {
                    return None;
                }
                choose_weighted(&def.transitions, rng)
            },
        }
    }

    /// The mean dwell time of the current category, if it is in the table.
    pub fn mean_dwell_millis(&self) -> (r: Option<u64>)
        ensures
            r == (match self.current_def() {
                Some(d) => Some(d.mean_dwell_millis),
                None => None::<u64>,
            }),
    {
        match self.transition_matrix.get(&self.current_state_type) {
            None => None,
            Some(def) => Some(def.mean_dwell_millis),
        }
    }

    /// The delay until the agent's next event, given `sample`, a draw in
    /// milliseconds from the exponential distribution whose mean is the
    /// current category's mean dwell time. None when the current category
    /// is absent from the table; zero, with the sample unused, when its mean
    /// dwell time is zero (the transition is instantaneous).
    pub fn peek_next_event_delay(&self, sample: u64) -> (r: Option<u64>)
        ensures
            r == (match self.current_def() {
                None => None::<u64>,
                Some(d) => if d.mean_dwell_millis == 0 {
                    Some(0u64)
                } else {
                    Some(sample)
                },
            }),
    {
        match self.mean_dwell_millis() {
            None => None,
            Some(m) => if m == 0 {
                Some(0)
            } else {
                Some(sample)
            },
        }
    }

    /// Moves the agent to category `new_type` at `time`. `generated` is what
    /// that category's generator produced: a state with the same fields as
    /// the current one, in the same order. The changes from the current
    /// state to it are returned, stamped with this agent's id, and it becomes
    /// the current state. Where `new_type` is absent from the table the
    /// category still changes, and nothing else does.
    pub fn apply_transition(&mut self, new_type: u64, generated: StateValue, time: i64) -> (r: Vec<
        StateChangeEvent,
    >)
        requires
            old(self).transition_matrix@.contains_key(new_type) ==> same_shape(
                generated@,
                old(self).data@,
            ),
        ensures
            final(self).current_state_type == new_type,
            final(self).id@ == old(self).id@,
            final(self).transition_matrix@ == old(self).transition_matrix@,
            final(self).data@ == (if old(self).transition_matrix@.contains_key(new_type) {
                generated@
            } else {
                old(self).data@
            }),
            events_view(r@) == transition_events(*old(self), new_type, generated@, time),
    {
        self.current_state_type = new_type;
        if !self.transition_matrix.contains_key(&new_type) {
            return Vec::new();
        }
        let r = self.data.diff(&generated, time, self.id.as_str());
        self.data = generated;
        r
    }
}

/// Whether the weights of `s` sum to at most `u64::MAX`.
fn weights_fit(s: &Vec<(u64, u64)>) -> (r: bool)
    ensures
        r == (weight_sum(s@) <= u64::MAX),
{
    let mut acc: u64 = 0;
    let mut i: usize = 0;
    while i < s.len()
        invariant
            i <= s@.len(),
            acc == weight_sum(s@.take(i as int)),
        decreases s@.len() - i,
    {
        assert(s@.take(i + 1).drop_last() =~= s@.take(i as int));
        match acc.checked_add(s[i].1) {
            Some(v) => {
                acc = v;
            },
            None => {
                proof {
                    lemma_weight_sum_prefix(s@, i + 1);
                }
                return false;
            },
        }
        i = i + 1;
    }
    assert(s@.take(i as int) =~= s@);
    true
}

/// The sum over a prefix is at most the sum over the whole.
proof fn lemma_weight_sum_prefix(s: Seq<(u64, u64)>, k: int)
    requires
        0 <= k <= s.len(),
    ensures
        weight_sum(s.take(k)) <= weight_sum(s),
    decreases s.len() - k,
{
    if k < s.len() {
        lemma_weight_sum_prefix(s, k + 1);
        assert(s.take(k + 1).drop_last() =~= s.take(k));
    } else {
        assert(s.take(k) =~= s);
    }
}

} // verus!
