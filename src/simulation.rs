//! The event scheduler. A run alternates between decisions, taken here, and
//! outside work that the caller performs: drawing an exponential dwell time
//! and running a category's state generator. Each call takes the result of
//! the last piece of outside work and advances the run to the next one.
use crate::agent::{is_weighted_successor, transition_events, Agent};
use crate::state::{
    events_view, lemma_diff_stamped, same_shape, EventView, FieldsView, StateChangeEvent, StateValue,
};
use crate::timeline::Timeline;
use vstd::prelude::*;

verus! {

/// An agent's next transition, waiting in the queue: agent `agent_index`
/// moves to category `next_state_type` at `time`.
pub struct ScheduledEvent {
    pub time: i64,
    pub agent_index: usize,
    pub next_state_type: u64,
}

/// The outside work that a run waits for.
#[derive(Clone, Copy, Debug, PartialEq, Eq)]
pub enum Request {
    /// Draw a delay from the exponential distribution with mean
    /// `mean_millis` (positive), round it to whole milliseconds, and reply
    /// with `Reply::Delay`.
    Delay { agent: usize, mean_millis: u64 },
    /// Run the generator of category `category` for agent `agent` and reply
    /// with `Reply::State`.
    Generate { agent: usize, category: u64 },
    /// The run is over.
    Finished,
}

/// The result of a piece of outside work.
pub enum Reply {
    /// A delay in milliseconds.
    Delay(u64),
    /// A generated state.
    State(StateValue),
}

/// What a call hands back: the next request, and the events that the call
/// produced (those of at most one transition).
pub struct Step {
    pub request: Request,
    pub events: Vec<StateChangeEvent>,
}

/// Where a run stands.
#[derive(Clone, Copy, Debug, PartialEq, Eq, Structural)]
pub enum Phase {
    /// No outside work is awaited: the run is over, or none has started.
    Idle,
    /// The delay of agent `agent`'s next event is awaited.
    AwaitingDelay { agent: usize },
    /// The generated state of `agent`'s transition to `category` is awaited.
    AwaitingState { agent: usize, category: u64 },
}

/// `a` does not come after `b` in the queue: an earlier time, or the same
/// time and an agent index not greater.
pub open spec fn not_after(a: ScheduledEvent, b: ScheduledEvent) -> bool {
    a.time < b.time || (a.time == b.time && a.agent_index <= b.agent_index)
}

/// The log is non-decreasing in time.
pub open spec fn log_sorted(s: Seq<StateChangeEvent>) -> bool {
    forall|i: int, j: int| 0 <= i < j < s.len() ==> s[i].time <= s[j].time
}

/// The queue holds an entry for agent `a`.
pub open spec fn has_entry(q: Seq<ScheduledEvent>, a: int) -> bool {
    exists|k: int| 0 <= k < q.len() && q[k].agent_index == a
}

/// The queue `q` that scheduling agent `a` (at index `agent`) `delay`
/// milliseconds after `now` makes of `q0`: one entry more, at `now + delay`
/// and to a successor of positive weight, when a successor can be drawn and
/// the time is in range; `q0` itself otherwise.
pub open spec fn schedule_outcome(
    q0: Seq<ScheduledEvent>,
    q: Seq<ScheduledEvent>,
    a: Agent,
    agent: usize,
    now: i64,
    delay: u64,
) -> bool {
    if a.can_step() && now + delay <= i64::MAX {
        exists|c: u64|
            #![trigger is_weighted_successor(a.current_def()->0.transitions@, c)]
            is_weighted_successor(a.current_def()->0.transitions@, c) && q == q0.push(
                ScheduledEvent { time: (now + delay) as i64, agent_index: agent, next_state_type: c },
            )
    } else {
        q == q0
    }
}

/// Agent `b` is agent `a`, except perhaps moved to a category that is absent
/// from its table, which silences it.
pub open spec fn same_or_silenced(a: Agent, b: Agent) -> bool {
    &&& b.id@ == a.id@
    &&& b.transition_matrix@ == a.transition_matrix@
    &&& b.data@ == a.data@
    &&& (b.current_state_type == a.current_state_type || !b.transition_matrix@.contains_key(
        b.current_state_type,
    ))
}

/// The current category of `a` is in its table and its dwell time must be
/// drawn.
pub open spec fn is_timed(a: Agent) -> bool {
    a.current_def() is Some && a.current_def()->0.mean_dwell_millis > 0
}

/// Agent `i` is the first agent from index `from` on whose dwell time must
/// be drawn.
pub open spec fn first_timed(agents: Seq<Agent>, from: int, i: int) -> bool {
    &&& from <= i < agents.len()
    &&& is_timed(agents[i])
    &&& forall|j: int| from <= j < i ==> !is_timed(#[trigger] agents[j])
}

/// Advancing a run from agents `agents`, queue `queue`, the agents below
/// `init_next` already scheduled and the clock at `now`, until outside work
/// is needed or the run is over, leads to simulation `fin` and request `r`:
/// - agents change only by firing a transition to a category absent from
///   their table, and only where a transition was pending or an agent was
///   still to be scheduled;
/// - of the agents still to be scheduled, the first whose dwell time must be
///   drawn is asked for, the ones before it being scheduled without a draw;
/// - the run is over only when every agent has been scheduled and every
///   remaining transition is due after the end time;
/// - a transition leaves the queue only by firing, no later than the clock:
///   to a category absent from its agent's table, where the agent now sits,
///   or as the transition whose generated state is asked for;
/// - the transition asked for was queued, or was put in the queue at once
///   by scheduling an agent of zero mean dwell time;
/// - the clock stands where it was, or at the time of a transition that
///   left the queue.
pub open spec fn advanced(
    agents: Seq<Agent>,
    queue: Seq<ScheduledEvent>,
    init_next: int,
    now: i64,
    fin: Simulation,
    r: Request,
) -> bool {
    &&& fin.wf()
    &&& fin.requests(r)
    &&& fin.agents@.len() == agents.len()
    &&& now <= fin.current_time
    &&& forall|j: int|
        0 <= j < agents.len() ==> same_or_silenced(agents[j], #[trigger] fin.agents@[j]) && (
        fin.agents@[j].current_state_type != agents[j].current_state_type ==> has_entry(queue, j)
            || j >= init_next)
    &&& forall|i: int|
        first_timed(agents, init_next, i) ==> r == (Request::Delay {
            agent: i as usize,
            mean_millis: agents[i].current_def()->0.mean_dwell_millis,
        })
    &&& (r is Finished ==> fin.init_next == agents.len() && forall|k: int|
        0 <= k < fin.queue@.len() ==> (#[trigger] fin.queue@[k]).time > fin.end_time)
    &&& forall|k: int|
        0 <= k < queue.len() ==> fin.queue@.contains(#[trigger] queue[k]) || (queue[k].time
            <= fin.current_time && (fired_silently(fin.agents@, queue[k]) || is_pending(
            fin,
            queue[k],
        )))
    &&& match fin.phase {
        Phase::AwaitingState { agent, category } => {
            let e = ScheduledEvent {
                time: fin.current_time,
                agent_index: agent,
                next_state_type: category,
            };
            queue.contains(e) || instant_entry(agents, init_next, now, e)
        },
        _ => true,
    }
    &&& (fin.current_time == now || exists|k: int|
        0 <= k < queue.len() && (#[trigger] queue[k]).time == fin.current_time
            && !fin.queue@.contains(queue[k]))
}

/// Transition `e` has fired to a category absent from its agent's table:
/// the agent now sits in that category.
pub open spec fn fired_silently(agents: Seq<Agent>, e: ScheduledEvent) -> bool {
    &&& agents[e.agent_index as int].current_state_type == e.next_state_type
    &&& !agents[e.agent_index as int].transition_matrix@.contains_key(e.next_state_type)
}

/// Transition `e` is the one whose generated state `fin` awaits.
pub open spec fn is_pending(fin: Simulation, e: ScheduledEvent) -> bool {
    &&& fin.phase == (Phase::AwaitingState {
        agent: e.agent_index,
        category: e.next_state_type,
    })
    &&& e.time == fin.current_time
}

/// Transition `e` is one that scheduling an agent still to be scheduled
/// (at or after `init_next`), whose mean dwell time is zero, puts in the
/// queue at once, at time `now`.
pub open spec fn instant_entry(agents: Seq<Agent>, init_next: int, now: i64, e: ScheduledEvent) -> bool {
    &&& init_next <= e.agent_index < agents.len()
    &&& e.time == now
    &&& agents[e.agent_index as int].current_def() is Some
    &&& agents[e.agent_index as int].current_def()->0.mean_dwell_millis == 0
    &&& is_weighted_successor(
        agents[e.agent_index as int].current_def()->0.transitions@,
        e.next_state_type,
    )
}

/// A delay reply `d` for agent `agent` turns `old` into `fin`, which asks
/// for `r`: the agent is scheduled `d` milliseconds from now, giving queue
/// `q`, and the run advances from there.
pub open spec fn scheduled_then(
    old: Simulation,
    agent: usize,
    d: u64,
    q: Seq<ScheduledEvent>,
    fin: Simulation,
    r: Request,
) -> bool {
    &&& schedule_outcome(old.queue@, q, old.agents@[agent as int], agent, old.current_time, d)
    &&& advanced(
        old.agents@,
        q,
        (if old.init_next == agent {
            agent + 1
        } else {
            old.init_next as int
        }),
        old.current_time,
        fin,
        r,
    )
}

/// A generated state `g` for agent `agent`'s pending transition to
/// `category` turns `old` into `fin`, which asks for `r`, and hands out
/// the events `evs`: the transition is applied, giving agents `fired`; then
/// the agent's next transition is scheduled, after a draw when its new
/// category needs one (the request), at once otherwise, giving queue `q`,
/// after which the run advances.
pub open spec fn applied_then(
    old: Simulation,
    agent: usize,
    category: u64,
    g: FieldsView,
    evs: Seq<EventView>,
    fired: Seq<Agent>,
    q: Seq<ScheduledEvent>,
    fin: Simulation,
    r: Request,
) -> bool {
    let a = fired[agent as int];
    &&& evs == transition_events(old.agents@[agent as int], category, g, old.current_time)
    &&& fired.len() == old.agents@.len()
    &&& forall|j: int| 0 <= j < fired.len() && j != agent ==> #[trigger] fired[j] == old.agents@[j]
    &&& a.id@ == old.agents@[agent as int].id@
    &&& a.transition_matrix@ == old.agents@[agent as int].transition_matrix@
    &&& a.current_state_type == category
    &&& a.data@ == g
    &&& if is_timed(a) {
        &&& r == (Request::Delay { agent, mean_millis: a.current_def()->0.mean_dwell_millis })
        &&& fin.agents@ == fired
        &&& fin.queue@ == old.queue@
        &&& fin.current_time == old.current_time
    } else {
        &&& schedule_outcome(old.queue@, q, a, agent, old.current_time, 0)
        &&& advanced(fired, q, old.init_next as int, old.current_time, fin, r)
    }
}

/// A simulation: agents, the simulated clock, the event log, and the
/// queue of scheduled transitions of the current run.
pub struct Simulation {
    pub agents: Vec<Agent>,
    pub current_time: i64,
    pub event_log: Vec<StateChangeEvent>,
    pub queue: Vec<ScheduledEvent>,
    /// The start of the current run.
    pub run_start: i64,
    /// The last instant at which an event of the current run may fire.
    pub end_time: i64,
    /// The agents below this index have had their first event scheduled.
    pub init_next: usize,
    pub phase: Phase,
    /// Whether events are kept in the log (batch mode) or only handed out
    /// (streaming mode).
    pub retain_log: bool,
    /// Whether the current run has scheduled an event with a zero delay.
    pub zero_delay: Ghost<bool>,
}

impl Simulation {
    /// The invariant of a simulation.
    pub open spec fn wf(&self) -> bool {
        let q = self.queue@;
        let n = self.agents@.len();
        &&& log_sorted(self.event_log@)
        &&& forall|i: int| 0 <= i < self.event_log@.len() ==> self.event_log@[i].time <= self.current_time
        &&& self.run_start <= self.current_time
        &&& (self.current_time == self.run_start || self.current_time <= self.end_time)
        &&& self.init_next <= n
        &&& forall|k: int| 0 <= k < q.len() ==> {
            &&& (#[trigger] q[k]).agent_index < n
            &&& q[k].agent_index < self.init_next
            &&& q[k].time >= self.current_time
            &&& (!self.zero_delay@ ==> q[k].time > self.run_start)
            // a queued transition belongs to an agent that can still move,
            // and leads to one of its successors
            &&& !self.agents@[q[k].agent_index as int].is_terminal()
            &&& is_weighted_successor(
                self.agents@[q[k].agent_index as int].current_def()->0.transitions@,
                q[k].next_state_type,
            )
        }
        &&& forall|k1: int, k2: int|
            0 <= k1 < k2 < q.len() ==> (#[trigger] q[k1]).agent_index != (#[trigger] q[k2]).agent_index
        &&& match self.phase {
            Phase::Idle => true,
            Phase::AwaitingDelay { agent } => {
                &&& agent < n
                &&& !has_entry(q, agent as int)
                &&& (agent == self.init_next || self.init_next == n)
                &&& self.agents@[agent as int].current_def() is Some
                &&& self.agents@[agent as int].current_def()->0.mean_dwell_millis > 0
            },
            Phase::AwaitingState { agent, category } => {
                &&& agent < n
                &&& !has_entry(q, agent as int)
                &&& self.init_next == n
                &&& self.current_time <= self.end_time
                &&& (!self.zero_delay@ ==> self.current_time > self.run_start)
                &&& self.agents@[agent as int].transition_matrix@.contains_key(category)
                // the transition that fired was the earliest in the queue
                &&& forall|k: int|
                    0 <= k < q.len() ==> not_after(
                        ScheduledEvent {
                            time: self.current_time,
                            agent_index: agent,
                            next_state_type: category,
                        },
                        #[trigger] q[k],
                    )
            },
        }
    }

    /// A simulation of `agents`, with the clock at `start_time` and an empty
    /// log.
    pub fn new(agents: Vec<Agent>, start_time: i64) -> (r: Simulation)
        ensures
            r.wf(),
            r.agents@ == agents@,
            r.current_time == start_time,
            r.event_log@.len() == 0,
            r.queue@.len() == 0,
            r.phase is Idle,
    {
        Simulation {
            agents,
            current_time: start_time,
            event_log: Vec::new(),
            queue: Vec::new(),
            run_start: start_time,
            end_time: start_time,
            init_next: 0,
            phase: Phase::Idle,
            retain_log: true,
            zero_delay: Ghost(false),
        }
    }

    /// Schedules agent `agent`'s next transition `delay` milliseconds from
    /// now, to a successor drawn by weight. Nothing is scheduled when no
    /// successor can be drawn (see `Agent::step`), or when the time is out of
    /// the range of `i64`.
    fn schedule(&mut self, agent: usize, delay: u64, rng: &mut rand::rngs::StdRng)
        requires
            old(self).wf(),
            old(self).phase is Idle,
            agent < old(self).init_next,
            !has_entry(old(self).queue@, agent as int),
        ensures
            final(self).wf(),
            final(self).agents == old(self).agents,
            final(self).current_time == old(self).current_time,
            final(self).event_log == old(self).event_log,
            final(self).run_start == old(self).run_start,
            final(self).end_time == old(self).end_time,
            final(self).init_next == old(self).init_next,
            final(self).phase == old(self).phase,
            final(self).retain_log == old(self).retain_log,
            schedule_outcome(
                old(self).queue@,
                final(self).queue@,
                old(self).agents@[agent as int],
                agent,
                old(self).current_time,
                delay,
            ),
            old(self).agents@[agent as int].is_terminal() ==> final(self).queue@ == old(
                self,
            ).queue@,
            final(self).zero_delay@ == (old(self).zero_delay@ || (delay == 0 && final(self).queue@
                != old(self).queue@)),
    {
        let next = self.agents[agent].step(rng);
        let c = match next {
            Some(c) => c,
            None => {
                return;
            },
        };
        let sum: i128 = self.current_time as i128 + delay as i128;
        if sum > 9223372036854775807i128 {
            return;
        }
        let time = sum as i64;
        let ghost q0 = self.queue@;
        let e = ScheduledEvent { time, agent_index: agent, next_state_type: c };
        self.queue.push(e);
        if delay == 0 {
            self.zero_delay = Ghost(true);
        }
        assert(self.queue@ != q0) by {
            assert(self.queue@.len() != q0.len());
        }
        assert forall|k1: int, k2: int|
            0 <= k1 < k2 < self.queue@.len() implies (#[trigger] self.queue@[k1]).agent_index
            != (#[trigger] self.queue@[k2]).agent_index by {
            if k2 == q0.len() {
                assert(q0[k1] == self.queue@[k1]);
            }
        }
    }

    /// The request that the current phase stands for.
    pub open spec fn requests(&self, r: Request) -> bool {
        match self.phase {
            Phase::Idle => r is Finished,
            Phase::AwaitingDelay { agent } => r == (Request::Delay {
                agent,
                mean_millis: self.agents@[agent as int].current_def()->0.mean_dwell_millis,
            }),
            Phase::AwaitingState { agent, category } => r == (Request::Generate {
                agent,
                category,
            }),
        }
    }

    /// The position of the earliest entry of the queue: the least time, and
    /// among equal times the least agent index.
    fn earliest(&self) -> (r: Option<usize>)
        ensures
            r is None <==> self.queue@.len() == 0,
            r matches Some(k) ==> k < self.queue@.len() && forall|j: int|
                0 <= j < self.queue@.len() ==> not_after(self.queue@[k as int], #[trigger] self.queue@[j]),
    {
        if self.queue.len() == 0 {
            return None;
        }
        let mut best: usize = 0;
        let mut j: usize = 1;
        while j < self.queue.len()
            invariant
                1 <= j <= self.queue@.len(),
                best < j,
                forall|k: int| 0 <= k < j ==> not_after(self.queue@[best as int], #[trigger] self.queue@[k]),
            decreases self.queue@.len() - j,
        {
            let b = &self.queue[best];
            let c = &self.queue[j];
            if c.time < b.time || (c.time == b.time && c.agent_index < b.agent_index) {
                best = j;
            }
            j = j + 1;
        }
        Some(best)
    }

    /// Advances the run until outside work is needed or the run is over:
    /// first schedules the first event of each agent not yet scheduled,
    /// then fires the earliest transitions in turn. The run is over when the
    /// earliest transition is due after the end time; it and the later ones
    /// never fire. A transition to a category absent from the agent's table
    /// switches the category and nothing more; the agent then falls silent.
    #[verifier::rlimit(100)]
    fn drive(&mut self, rng: &mut rand::rngs::StdRng) -> (r: Request)
        requires
            old(self).wf(),
            old(self).phase is Idle,
        ensures
            advanced(
                old(self).agents@,
                old(self).queue@,
                old(self).init_next as int,
                old(self).current_time,
                *final(self),
                r,
            ),
            final(self).event_log == old(self).event_log,
            final(self).run_start == old(self).run_start,
            final(self).end_time == old(self).end_time,
            final(self).retain_log == old(self).retain_log,
            old(self).zero_delay@ ==> final(self).zero_delay@,
    {
        let ghost n = self.agents@.len();
        let ghost a0 = self.agents@;
        let ghost q0 = self.queue@;
        let ghost i0 = self.init_next as int;
        let ghost t0 = self.current_time;
        let ghost z0 = self.zero_delay@;
        loop
            invariant
                self.wf(),
                self.phase is Idle,
                self.agents@.len() == n,
                n == a0.len(),
                a0 == old(self).agents@,
                q0 == old(self).queue@,
                i0 == old(self).init_next,
                t0 == old(self).current_time,
                z0 == old(self).zero_delay@,
                self.event_log == old(self).event_log,
                self.run_start == old(self).run_start,
                self.end_time == old(self).end_time,
                self.retain_log == old(self).retain_log,
                t0 <= self.current_time,
                z0 ==> self.zero_delay@,
                i0 <= self.init_next,
                forall|k: int| 0 <= k < q0.len() ==> (#[trigger] q0[k]).agent_index < n,
                self.init_next < n ==> self.agents@ == a0 && self.current_time == t0,
                forall|j: int| i0 <= j < self.init_next ==> !is_timed(#[trigger] a0[j]),
                forall|j: int|
                    0 <= j < n ==> same_or_silenced(a0[j], #[trigger] self.agents@[j]) && (
                    self.agents@[j].current_state_type != a0[j].current_state_type ==> has_entry(q0, j)
                        || j >= i0),
                forall|k: int|
                    0 <= k < self.queue@.len() ==> has_entry(q0, (#[trigger] self.queue@[k]).agent_index as int)
                        || self.queue@[k].agent_index >= i0,
                forall|k: int|
                    0 <= k < q0.len() ==> self.queue@.contains(#[trigger] q0[k]) || (q0[k].time
                        <= self.current_time && fired_silently(self.agents@, q0[k])),
                forall|k: int|
                    0 <= k < self.queue@.len() ==> q0.contains(#[trigger] self.queue@[k]) || instant_entry(
                        a0,
                        i0,
                        t0,
                        self.queue@[k],
                    ),
                self.current_time == t0 || exists|k: int|
                    0 <= k < q0.len() && (#[trigger] q0[k]).time == self.current_time
                        && !self.queue@.contains(q0[k]),
            decreases self.agents@.len() - self.init_next, self.queue@.len(),
        {
            if self.init_next < self.agents.len() {
                let i = self.init_next;
                assert(!has_entry(self.queue@, i as int));
                match self.agents[i].mean_dwell_millis() {
                    None => {
                        self.init_next = i + 1;
                    },
                    Some(m) => {
                        if m == 0 {
                            assert(self.current_time == t0);
                            self.init_next = i + 1;
                            let ghost qb = self.queue@;
                            self.schedule(i, 0, rng);
                            assert forall|k: int| 0 <= k < q0.len() implies self.queue@.contains(
                                #[trigger] q0[k],
                            ) || (q0[k].time <= self.current_time && fired_silently(self.agents@, q0[k])) by {
                                if qb.contains(q0[k]) {
                                    let x = choose|x: int| 0 <= x < qb.len() && qb[x] == q0[k];
                                    assert(self.queue@[x] == qb[x]);
                                }
                            }
                            assert forall|k: int| 0 <= k < self.queue@.len() implies has_entry(
                                q0,
                                (#[trigger] self.queue@[k]).agent_index as int,
                            ) || self.queue@[k].agent_index >= i0 by {
                                if k < qb.len() {
                                    assert(self.queue@[k] == qb[k]);
                                }
                            }
                            assert forall|k: int| 0 <= k < self.queue@.len() implies q0.contains(
                                #[trigger] self.queue@[k],
                            ) || instant_entry(a0, i0, t0, self.queue@[k]) by {
                                if k < qb.len() {
                                    assert(self.queue@[k] == qb[k]);
                                }
                            }
                            assert(self.current_time == t0 || exists|k: int|
                                0 <= k < q0.len() && (#[trigger] q0[k]).time == self.current_time
                                    && !self.queue@.contains(q0[k]));
                        } else {
                            self.phase = Phase::AwaitingDelay { agent: i };
                            let r = Request::Delay { agent: i, mean_millis: m };
                            assert forall|x: int| first_timed(a0, i0, x) implies r == (Request::Delay {
                                agent: x as usize,
                                mean_millis: a0[x].current_def()->0.mean_dwell_millis,
                            }) by {
                                if x < i {
                                    assert(!is_timed(a0[x]));
                                } else if x > i {
                                    assert(is_timed(a0[i as int]));
                                }
                            }
                            return r;
                        }
                    },
                }
            } else {
                match self.earliest() {
                    None => {
                        return Request::Finished;
                    },
                    Some(k) => {
                        if self.queue[k].time > self.end_time {
                            assert forall|j: int| 0 <= j < self.queue@.len() implies (#[trigger] self.queue@[j]).time
                                > self.end_time by {
                                assert(not_after(self.queue@[k as int], self.queue@[j]));
                            }
                            return Request::Finished;
                        }
                        let ghost qb = self.queue@;
                        let ghost ab = self.agents@;
                        let ev = self.queue.remove(k);
                        assert(qb[k as int] == ev);
                        assert forall|j: int| 0 <= j < self.queue@.len() implies (#[trigger] self.queue@[j]).agent_index != ev.agent_index
                            && not_after(ev, self.queue@[j]) by {
                            if j < k {
                                assert(self.queue@[j] == qb[j]);
                                assert(not_after(qb[k as int], qb[j]));
                            } else {
                                assert(self.queue@[j] == qb[j + 1]);
                                assert(not_after(qb[k as int], qb[j + 1]));
                            }
                        }
                        assert(!self.queue@.contains(ev)) by {
                            if self.queue@.contains(ev) {
                                let j = choose|j: int| 0 <= j < self.queue@.len() && self.queue@[j] == ev;
                                assert(self.queue@[j].agent_index != ev.agent_index);
                            }
                        }
                        assert forall|j: int| 0 <= j < self.queue@.len() implies has_entry(
                            q0,
                            (#[trigger] self.queue@[j]).agent_index as int,
                        ) || self.queue@[j].agent_index >= i0 by {
                            if j < k {
                                assert(self.queue@[j] == qb[j]);
                            } else {
                                assert(self.queue@[j] == qb[j + 1]);
                            }
                        }
                        assert forall|j: int| 0 <= j < self.queue@.len() implies q0.contains(
                            #[trigger] self.queue@[j],
                        ) || instant_entry(a0, i0, t0, self.queue@[j]) by {
                            if j < k {
                                assert(self.queue@[j] == qb[j]);
                            } else {
                                assert(self.queue@[j] == qb[j + 1]);
                            }
                        }
                        assert(q0.contains(ev) || instant_entry(a0, i0, t0, ev));
                        assert(has_entry(q0, ev.agent_index as int) || ev.agent_index >= i0);
                        // entries of the starting queue other than `ev` keep their status
                        assert forall|x: int| 0 <= x < q0.len() && q0[x] != ev implies self.queue@.contains(
                            #[trigger] q0[x],
                        ) || (q0[x].time <= ev.time && fired_silently(ab, q0[x])) by {
                            if qb.contains(q0[x]) {
                                let y = choose|y: int| 0 <= y < qb.len() && qb[y] == q0[x];
                                if y < k {
                                    assert(self.queue@[y] == qb[y]);
                                } else {
                                    assert(y != k);
                                    assert(self.queue@[y - 1] == qb[y]);
                                }
                            }
                        }
                        self.current_time = ev.time;
                        let a = ev.agent_index;
                        let c = ev.next_state_type;
                        if self.agents[a].transition_matrix.contains_key(&c) {
                            self.phase = Phase::AwaitingState { agent: a, category: c };
                            let r = Request::Generate { agent: a, category: c };
                            assert(ev == (ScheduledEvent {
                                time: self.current_time,
                                agent_index: a,
                                next_state_type: c,
                            }));
                            assert forall|x: int| 0 <= x < q0.len() implies self.queue@.contains(
                                #[trigger] q0[x],
                            ) || (q0[x].time <= self.current_time && (fired_silently(self.agents@, q0[x])
                                || is_pending(*self, q0[x]))) by {
                                if q0[x] == ev {
                                    assert(is_pending(*self, q0[x]));
                                }
                            }
                            proof {
                                if q0.contains(ev) {
                                    let x = choose|x: int| 0 <= x < q0.len() && q0[x] == ev;
                                    assert(q0[x].time == self.current_time && !self.queue@.contains(q0[x]));
                                }
                            }
                            return r;
                        }
                        let t = self.current_time;
                        let _ = self.agents[a].apply_transition(c, StateValue::new(), t);
                        assert(self.agents@ == ab.update(a as int, self.agents@[a as int]));
                        assert forall|j: int| 0 <= j < n implies same_or_silenced(a0[j], #[trigger] self.agents@[j])
                            && (self.agents@[j].current_state_type != a0[j].current_state_type ==> has_entry(q0, j)
                            || j >= i0) by {
                            if j != a {
                                assert(self.agents@[j] == ab[j]);
                            }
                        }
                        assert forall|x: int| 0 <= x < q0.len() implies self.queue@.contains(
                            #[trigger] q0[x],
                        ) || (q0[x].time <= self.current_time && fired_silently(self.agents@, q0[x])) by {
                            if q0[x] != ev {
                                if !self.queue@.contains(q0[x]) {
                                    if q0[x].agent_index == a {
                                        // a silenced agent holds no queue entry, yet `a` held `ev`
                                        assert(ab[a as int].is_terminal());
                                        assert(qb[k as int].agent_index == a);
                                    } else {
                                        assert(q0[x].agent_index < n);
                                        assert(self.agents@[q0[x].agent_index as int] == ab[q0[x].agent_index as int]);
                                    }
                                }
                            }
                        }
                        proof {
                            if q0.contains(ev) {
                                let x = choose|x: int| 0 <= x < q0.len() && q0[x] == ev;
                                assert(q0[x].time == self.current_time && !self.queue@.contains(q0[x]));
                            }
                        }
                    },
                }
            }
        }
    }

    /// The request that the run currently waits for.
    pub fn pending_request(&self) -> (r: Request)
        requires
            self.wf(),
        ensures
            self.requests(r),
    {
        match self.phase {
            Phase::Idle => Request::Finished,
            Phase::AwaitingDelay { agent } => {
                let m = match self.agents[agent].mean_dwell_millis() {
                    Some(m) => m,
                    None => 0,
                };
                Request::Delay { agent, mean_millis: m }
            },
            Phase::AwaitingState { agent, category } => Request::Generate { agent, category },
        }
    }

    /// Starts a run of `duration` milliseconds from the current time and
    /// advances it to its first request. Any run in progress is abandoned.
    fn start(&mut self, duration: i64, retain_log: bool, rng: &mut rand::rngs::StdRng) -> (r:
        Request)
        requires
            old(self).wf(),
        ensures
            final(self).wf(),
            final(self).requests(r),
            final(self).agents@.len() == old(self).agents@.len(),
            final(self).event_log == old(self).event_log,
            final(self).run_start == old(self).current_time,
            final(self).end_time == (if old(self).current_time + duration > i64::MAX {
                i64::MAX as int
            } else if old(self).current_time + duration < i64::MIN {
                i64::MIN as int
            } else {
                old(self).current_time + duration
            }),
            final(self).retain_log == retain_log,
            advanced(
                old(self).agents@,
                Seq::empty(),
                0,
                old(self).current_time,
                *final(self),
                r,
            ),
    {
        self.run_start = self.current_time;
        self.end_time = match self.current_time.checked_add(duration) {
            Some(t) => t,
            None => if duration > 0 {
                i64::MAX
            } else {
                i64::MIN
            },
        };
        self.queue = Vec::new();
        self.init_next = 0;
        self.phase = Phase::Idle;
        self.retain_log = retain_log;
        self.zero_delay = Ghost(false);
        assert(self.queue@ =~= Seq::<ScheduledEvent>::empty());
        self.drive(rng)
    }

    /// Starts a run in batch mode, of `duration` milliseconds from the
    /// current time: every event is kept in `event_log`, in the order in
    /// which it happens. The end time is the current time plus `duration`,
    /// held within the range of `i64`; transitions due after it never fire,
    /// and a later run starts from an empty queue. Returns the first request
    /// of the run.
    pub fn run(&mut self, duration: i64, rng: &mut rand::rngs::StdRng) -> (r: Step)
        requires
            old(self).wf(),
        ensures
            advanced(
                old(self).agents@,
                Seq::empty(),
                0,
                old(self).current_time,
                *final(self),
                r.request,
            ),
            r.events@.len() == 0,
            final(self).event_log == old(self).event_log,
            final(self).run_start == old(self).current_time,
            final(self).retain_log,
            final(self).end_time == (if old(self).current_time + duration > i64::MAX {
                i64::MAX as int
            } else if old(self).current_time + duration < i64::MIN {
                i64::MIN as int
            } else {
                old(self).current_time + duration
            }),
    {
        let request = self.start(duration, true, rng);
        Step { request, events: Vec::new() }
    }

    /// Starts a run in streaming mode: as `run`, but events are only handed
    /// out by the steps of the run, never kept in `event_log`.
    pub fn run_streaming(&mut self, duration: i64, rng: &mut rand::rngs::StdRng) -> (r: Step)
        requires
            old(self).wf(),
        ensures
            advanced(
                old(self).agents@,
                Seq::empty(),
                0,
                old(self).current_time,
                *final(self),
                r.request,
            ),
            r.events@.len() == 0,
            final(self).event_log == old(self).event_log,
            final(self).run_start == old(self).current_time,
            !final(self).retain_log,
            final(self).end_time == (if old(self).current_time + duration > i64::MAX {
                i64::MAX as int
            } else if old(self).current_time + duration < i64::MIN {
                i64::MIN as int
            } else {
                old(self).current_time + duration
            }),
    {
        let request = self.start(duration, false, rng);
        Step { request, events: Vec::new() }
    }

    /// Hands the run the result of the outside work it asked for, and
    /// advances it to its next request. A generated state completes the
    /// pending transition: its changes are returned (and, in batch mode,
    /// appended to the log), then the agent's next transition is scheduled.
    /// A delay schedules the pending agent's next transition that many
    /// milliseconds from now. A reply of the other kind changes nothing.
    pub fn resume(&mut self, reply: Reply, rng: &mut rand::rngs::StdRng) -> (r: Step)
        requires
            old(self).wf(),
            match (old(self).phase, reply) {
                (Phase::AwaitingState { agent, category }, Reply::State(g)) => same_shape(
                    g@,
                    old(self).agents@[agent as int].data@,
                ),
                _ => true,
            },
        ensures
            final(self).wf(),
            final(self).requests(r.request),
            final(self).agents@.len() == old(self).agents@.len(),
            final(self).run_start == old(self).run_start,
            final(self).end_time == old(self).end_time,
            final(self).retain_log == old(self).retain_log,
            old(self).current_time <= final(self).current_time,
            events_view(final(self).event_log@) == (if old(self).retain_log {
                events_view(old(self).event_log@) + events_view(r.events@)
            } else {
                events_view(old(self).event_log@)
            }),
            forall|k: int| 0 <= k < r.events@.len() ==> (#[trigger] r.events@[k]).time == old(self).current_time,
            r.events@.len() > 0 ==> old(self).run_start <= old(self).current_time <= old(self).end_time,
            old(self).end_time == old(self).run_start && !final(self).zero_delay@ ==> r.events@.len()
                == 0,
            match (old(self).phase, reply) {
                (Phase::AwaitingDelay { agent }, Reply::Delay(d)) => exists|q: Seq<ScheduledEvent>|
                    #[trigger] scheduled_then(*old(self), agent, d, q, *final(self), r.request),
                (Phase::AwaitingState { agent, category }, Reply::State(g)) => exists|
                    fired: Seq<Agent>,
                    q: Seq<ScheduledEvent>,
                |
                    #[trigger] applied_then(
                        *old(self),
                        agent,
                        category,
                        g@,
                        events_view(r.events@),
                        fired,
                        q,
                        *final(self),
                        r.request,
                    ),
                _ => r.events@.len() == 0 && final(self).agents@ == old(self).agents@
                    && final(self).queue@ == old(self).queue@ && final(self).phase == old(
                    self,
                ).phase,
            },
    {
        let phase = self.phase;
        match (phase, reply) {
            (Phase::AwaitingDelay { agent }, Reply::Delay(d)) => {
                self.phase = Phase::Idle;
                if self.init_next == agent && agent < self.agents.len() {
                    self.init_next = agent + 1;
                }
                self.schedule(agent, d, rng);
                let ghost q = self.queue@;
                let request = self.drive(rng);
                assert(scheduled_then(*old(self), agent, d, q, *self, request));
                Step { request, events: Vec::new() }
            },
            (Phase::AwaitingState { agent, category }, Reply::State(generated)) => {
                self.phase = Phase::Idle;
                let t = self.current_time;
                let ghost a0 = self.agents@[agent as int];
                let ghost gv = generated@;
                let events = self.agents[agent].apply_transition(category, generated, t);
                let ghost fired = self.agents@;
                proof {
                    lemma_diff_stamped(a0.data@, gv, t, a0.id@);
                    assert forall|k: int| 0 <= k < events@.len() implies (#[trigger] events@[k]).time
                        == t by {
                        assert(events_view(events@)[k].time == events@[k].time);
                    }
                }
                if self.retain_log {
                    self.append_events(&events);
                }
                let ghost q0 = self.queue@;
                match self.agents[agent].mean_dwell_millis() {
                    None => {
                        let request = self.drive(rng);
                        Step { request, events }
                    },
                    Some(m) => {
                        if m == 0 {
                            self.schedule(agent, 0, rng);
                            let ghost q = self.queue@;
                            let request = self.drive(rng);
                            let ghost ev = events_view(events@);
                            let st = Step { request, events };
                            assert(events_view(st.events@) == ev);
                            assert(applied_then(
                                *old(self),
                                agent,
                                category,
                                gv,
                                events_view(st.events@),
                                fired,
                                q,
                                *self,
                                st.request,
                            ));
                            st
                        } else {
                            self.phase = Phase::AwaitingDelay { agent };
                            let request = Request::Delay { agent, mean_millis: m };
                            let ghost ev = events_view(events@);
                            let st = Step { request, events };
                            assert(events_view(st.events@) == ev);
                            assert(applied_then(
                                *old(self),
                                agent,
                                category,
                                gv,
                                events_view(st.events@),
                                fired,
                                q0,
                                *self,
                                st.request,
                            ));
                            st
                        }
                    },
                }
            },
            _ => Step { request: self.pending_request(), events: Vec::new() },
        }
    }

    /// Appends copies of `events`, all stamped with the current time, to the
    /// log.
    fn append_events(&mut self, events: &Vec<StateChangeEvent>)
        requires
            old(self).wf(),
            old(self).phase is Idle,
            forall|k: int| 0 <= k < events@.len() ==> (#[trigger] events@[k]).time == old(self).current_time,
        ensures
            final(self).wf(),
            events_view(final(self).event_log@) == events_view(old(self).event_log@) + events_view(events@),
            final(self).agents == old(self).agents,
            final(self).queue == old(self).queue,
            final(self).current_time == old(self).current_time,
            final(self).run_start == old(self).run_start,
            final(self).end_time == old(self).end_time,
            final(self).init_next == old(self).init_next,
            final(self).phase == old(self).phase,
            final(self).retain_log == old(self).retain_log,
            final(self).zero_delay == old(self).zero_delay,
    {
        let ghost l0 = events_view(self.event_log@);
        let mut i: usize = 0;
        while i < events.len()
            invariant
                i <= events@.len(),
                self.wf(),
                self.phase is Idle,
                forall|k: int| 0 <= k < events@.len() ==> (#[trigger] events@[k]).time == self.current_time,
                events_view(self.event_log@) == l0 + events_view(events@).take(i as int),
                self.agents == old(self).agents,
                self.queue == old(self).queue,
                self.current_time == old(self).current_time,
                self.run_start == old(self).run_start,
                self.end_time == old(self).end_time,
                self.init_next == old(self).init_next,
                self.retain_log == old(self).retain_log,
                self.zero_delay == old(self).zero_delay,
            decreases events@.len() - i,
        {
            let e = events[i].duplicate();
            let ghost before = self.event_log@;
            self.event_log.push(e);
            assert(events_view(before.push(e)) =~= events_view(before).push(e@));
            assert(events_view(events@).take(i + 1) =~= events_view(events@).take(i as int).push(
                events@[i as int]@,
            ));
            assert(events_view(self.event_log@) =~= l0 + events_view(events@).take(i + 1));
            i = i + 1;
        }
        assert(events_view(events@).take(i as int) =~= events_view(events@));
    }

    /// The combined timeline of every event in the log.
    pub fn generate_master_timeline(&self) -> (r: Option<Timeline>)
        ensures
            r is None <==> self.event_log@.len() == 0,
            r matches Some(t) ==> t@ == crate::timeline::reconstruct(events_view(self.event_log@)),
    {
        Timeline::generate(&self.event_log)
    }
}

/// Scheduling an agent whose category is terminal (absent from its table,
/// or without a successor of positive weight) leaves the queue as it was.
pub proof fn lemma_terminal_not_scheduled(
    q0: Seq<ScheduledEvent>,
    q: Seq<ScheduledEvent>,
    a: Agent,
    agent: usize,
    now: i64,
    delay: u64,
)
    requires
        a.is_terminal(),
        schedule_outcome(q0, q, a, agent, now, delay),
    ensures
        q == q0,
{
}

/// No queued transition belongs to an agent whose category is terminal.
pub proof fn lemma_no_terminal_agent_queued(sim: Simulation)
    requires
        sim.wf(),
    ensures
        forall|k: int|
            0 <= k < sim.queue@.len() ==> !sim.agents@[(#[trigger] sim.queue@[k]).agent_index as int].is_terminal(),
{
}

/// While a run advances, an agent that is already scheduled and has no
/// pending transition (as every terminal agent) keeps its category and
/// data, and is not asked for a generated state.
pub proof fn lemma_unqueued_agent_stays(
    agents: Seq<Agent>,
    queue: Seq<ScheduledEvent>,
    init_next: int,
    now: i64,
    fin: Simulation,
    r: Request,
    j: int,
)
    requires
        advanced(agents, queue, init_next, now, fin, r),
        0 <= j < init_next,
        j < agents.len(),
        !has_entry(queue, j),
    ensures
        fin.agents@[j].current_state_type == agents[j].current_state_type,
        fin.agents@[j].data@ == agents[j].data@,
        fin.agents@[j].id@ == agents[j].id@,
        !(r matches Request::Generate { agent, .. } && agent == j),
{
    assert(same_or_silenced(agents[j], fin.agents@[j]));
    if let Request::Generate { agent, category } = r {
        if agent == j {
            let e = ScheduledEvent { time: fin.current_time, agent_index: agent, next_state_type: category };
            if queue.contains(e) {
                let k = choose|k: int| 0 <= k < queue.len() && queue[k] == e;
                assert(queue[k].agent_index == j);
            }
        }
    }
}

} // verus!
