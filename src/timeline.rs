//! Reconstruction of point-in-time state snapshots from a change log.
use crate::state::{
    State,
    events_view, has_field, set_value, EventView, FieldsView, StateValue, StateChangeEvent,
};
use vstd::prelude::*;

verus! {

/// The offset, in milliseconds, of the synthetic initial entry before the
/// first event.
pub const INITIAL_OFFSET_MILLIS: i64 = 1000;

/// `s`, sorted by time, with `e` inserted after every event whose time is
/// not later than `e`'s.
pub open spec fn insert_by_time(s: Seq<EventView>, e: EventView) -> Seq<EventView>
    decreases s.len(),
{
    if s.len() == 0 {
        seq![e]
    } else if s.last().time > e.time {
        insert_by_time(s.drop_last(), e).push(s.last())
    } else {
        s.push(e)
    }
}

/// `s` sorted by time, events of equal time kept in their order in `s`.
pub open spec fn sort_by_time(s: Seq<EventView>) -> Seq<EventView>
    decreases s.len(),
{
    if s.len() == 0 {
        s
    } else {
        insert_by_time(sort_by_time(s.drop_last()), s.last())
    }
}

/// The state before the events of `s`: each field that `s` mentions, in the
/// order of first mention, holding the old value of its first mention.
pub open spec fn prehistory(s: Seq<EventView>) -> FieldsView
    decreases s.len(),
{
    if s.len() == 0 {
        Seq::empty()
    } else {
        let p = prehistory(s.drop_last());
        if has_field(p, s.last().field) {
            p
        } else {
            p.push((s.last().field, s.last().old_value))
        }
    }
}

/// The model of a timeline entry: a time, the full state then, and the
/// fields that changed at that time.
pub struct EntryView {
    pub timestamp: i64,
    pub state: FieldsView,
    pub events: Seq<Seq<char>>,
}

/// The entries that the time-sorted events `s` produce from state `initial`:
/// events of one time are coalesced into one entry, which holds the state
/// after applying their new values and the fields they touched, in order.
pub open spec fn coalesce(s: Seq<EventView>, initial: FieldsView) -> Seq<EntryView>
    decreases s.len(),
{
    if s.len() == 0 {
        Seq::empty()
    } else {
        let prev = coalesce(s.drop_last(), initial);
        let e = s.last();
        if prev.len() > 0 && prev.last().timestamp == e.time {
            prev.update(
                prev.len() - 1,
                EntryView {
                    timestamp: e.time,
                    state: set_value(prev.last().state, e.field, e.new_value),
                    events: prev.last().events.push(e.field),
                },
            )
        } else {
            let base = if prev.len() == 0 {
                initial
            } else {
                prev.last().state
            };
            prev.push(
                EntryView {
                    timestamp: e.time,
                    state: set_value(base, e.field, e.new_value),
                    events: seq![e.field],
                },
            )
        }
    }
}

/// One second before `t`, or the earliest representable time where that
/// is out of range.
pub open spec fn initial_time(t: i64) -> i64 {
    if t >= i64::MIN + INITIAL_OFFSET_MILLIS {
        (t - INITIAL_OFFSET_MILLIS) as i64
    } else {
        i64::MIN
    }
}

/// The timeline of a non-empty event log: a synthetic initial entry one
/// second before the first event, holding the pre-history state and no
/// changed field, then one entry per distinct event time, ascending.
pub open spec fn reconstruct(events: Seq<EventView>) -> Seq<EntryView> {
    let s = sort_by_time(events);
    let initial = prehistory(s);
    seq![EntryView { timestamp: initial_time(s[0].time), state: initial, events: Seq::empty() }]
        + coalesce(s, initial)
}

/// The distinct agent ids of `s`, in the order of their first appearance.
pub open spec fn agent_ids(s: Seq<EventView>) -> Seq<Seq<char>>
    decreases s.len(),
{
    if s.len() == 0 {
        Seq::empty()
    } else {
        let p = agent_ids(s.drop_last());
        if p.contains(s.last().agent_id) {
            p
        } else {
            p.push(s.last().agent_id)
        }
    }
}

/// The events of `s` that belong to agent `id`, in their order in `s`.
pub open spec fn events_of(s: Seq<EventView>, id: Seq<char>) -> Seq<EventView> {
    s.filter(|e: EventView| e.agent_id == id)
}

/// One agent's timeline.
#[derive(Debug, PartialEq, Eq)]
pub struct AgentTimeline {
    pub agent_id: String,
    pub timeline: Timeline,
}

/// One snapshot of a timeline.
#[derive(Debug, PartialEq, Eq)]
pub struct TimelineEntry {
    pub timestamp: i64,
    pub state: StateValue,
    /// The fields that changed to produce this snapshot; empty for the
    /// initial entry.
    pub events: Vec<String>,
}

impl View for TimelineEntry {
    type V = EntryView;

    open spec fn view(&self) -> EntryView {
        EntryView {
            timestamp: self.timestamp,
            state: self.state@,
            events: self.events@.map_values(|f: String| f@),
        }
    }
}

/// A sequence of snapshots, ascending in time.
#[derive(Debug, PartialEq, Eq)]
pub struct Timeline {
    pub entries: Vec<TimelineEntry>,
}

impl View for Timeline {
    type V = Seq<EntryView>;

    open spec fn view(&self) -> Seq<EntryView> {
        self.entries@.map_values(|e: TimelineEntry| e@)
    }
}

/// Inserting into a sorted log at the position after the last event not
/// later than `e`.
proof fn lemma_insert_split(s: Seq<EventView>, e: EventView, j: int)
    requires
        0 <= j <= s.len(),
        forall|k: int| j <= k < s.len() ==> s[k].time > e.time,
        j == 0 || s[j - 1].time <= e.time,
    ensures
        insert_by_time(s, e) == s.take(j).push(e) + s.skip(j),
    decreases s.len() - j,
{
    if j < s.len() {
        lemma_insert_split(s.drop_last(), e, j);
        assert(s.drop_last().take(j) =~= s.take(j));
        assert(s.take(j).push(e) + s.skip(j) =~= (s.drop_last().take(j).push(e) + s.drop_last().skip(
            j,
        )).push(s.last()));
    } else {
        if s.len() == 0 {
            assert(s.take(j).push(e) + s.skip(j) =~= seq![e]);
        } else {
            assert(s.take(j) =~= s);
            assert(s.take(j).push(e) + s.skip(j) =~= s.push(e));
        }
    }
}

/// Sorting by time keeps the events and so the length.
pub proof fn lemma_sort_len(s: Seq<EventView>)
    ensures
        sort_by_time(s).len() == s.len(),
    decreases s.len(),
{
    if s.len() > 0 {
        lemma_sort_len(s.drop_last());
        lemma_insert_len(sort_by_time(s.drop_last()), s.last());
    }
}

proof fn lemma_insert_len(s: Seq<EventView>, e: EventView)
    ensures
        insert_by_time(s, e).len() == s.len() + 1,
    decreases s.len(),
{
    if s.len() > 0 && s.last().time > e.time {
        lemma_insert_len(s.drop_last(), e);
    }
}

/// `s` stably sorted by time.
fn sort_events(events: &Vec<StateChangeEvent>) -> (r: Vec<StateChangeEvent>)
    ensures
        events_view(r@) == sort_by_time(events_view(events@)),
{
    let ghost ev = events_view(events@);
    let mut sorted: Vec<StateChangeEvent> = Vec::new();
    let mut i: usize = 0;
    assert(ev.take(0) =~= Seq::<EventView>::empty());
    while i < events.len()
        invariant
            i <= events@.len(),
            ev == events_view(events@),
            events_view(sorted@) == sort_by_time(ev.take(i as int)),
        decreases events@.len() - i,
    {
        let e = events[i].duplicate();
        let mut j: usize = sorted.len();
        while j > 0 && sorted[j - 1].time > e.time
            invariant
                j <= sorted@.len(),
                forall|k: int| j <= k < sorted@.len() ==> sorted@[k].time > e.time,
            decreases j,
        {
            j = j - 1;
        }
        let ghost before = events_view(sorted@);
        proof {
            lemma_insert_split(before, e@, j as int);
            assert(ev.take(i + 1).drop_last() =~= ev.take(i as int));
        }
        sorted.insert(j, e);
        assert(events_view(sorted@) =~= before.take(j as int).push(e@) + before.skip(j as int));
        i = i + 1;
    }
    assert(ev.take(i as int) =~= ev);
    sorted
}

/// The pre-history state of the time-sorted events `sorted`.
fn prehistory_of(sorted: &Vec<StateChangeEvent>) -> (r: StateValue)
    ensures
        r@ == prehistory(events_view(sorted@)),
{
    let ghost sv = events_view(sorted@);
    let mut p = StateValue::new();
    let mut i: usize = 0;
    assert(sv.take(0) =~= Seq::<EventView>::empty());
    while i < sorted.len()
        invariant
            i <= sorted@.len(),
            sv == events_view(sorted@),
            p@ == prehistory(sv.take(i as int)),
        decreases sorted@.len() - i,
    {
        proof {
            assert(sv.take(i + 1).drop_last() =~= sv.take(i as int));
        }
        let e = &sorted[i];
        match p.get_field(e.field.as_str()) {
            Some(_) => {},
            None => {
                p.update_field(e.field.as_str(), e.old_value.as_str());
            },
        }
        i = i + 1;
    }
    assert(sv.take(i as int) =~= sv);
    p
}

impl Timeline {
    /// The timeline of `events`, or None when there are none. The events are
    /// sorted by time (stably: events of one time keep their order), and the
    /// timeline holds a synthetic initial entry one second before the first
    /// event with the pre-history state, then one entry per distinct event
    /// time with the full state after that time's changes and the fields
    /// they touched.
    pub fn generate(events: &Vec<StateChangeEvent>) -> (r: Option<Timeline>)
        ensures
            r is None <==> events@.len() == 0,
            r matches Some(t) ==> t@ == reconstruct(events_view(events@)),
    {
        if events.len() == 0 {
            return None;
        }
        let sorted = sort_events(events);
        let ghost sv = events_view(sorted@);
        proof {
            lemma_sort_len(events_view(events@));
        }
        let initial = prehistory_of(&sorted);
        let first = sorted[0].time;
        let start = if first >= i64::MIN + INITIAL_OFFSET_MILLIS {
            first - INITIAL_OFFSET_MILLIS
        } else {
            i64::MIN
        };
        let mut entries: Vec<TimelineEntry> = Vec::new();
        entries.push(TimelineEntry { timestamp: start, state: initial.duplicate(), events: Vec::new() });
        let ghost init = entries@[0]@;
        assert(init.events =~= Seq::<Seq<char>>::empty());

        let mut cur_state = initial.duplicate();
        let mut cur_events: Vec<String> = Vec::new();
        let mut cur_time: i64 = 0;
        let mut have_group = false;
        let mut i: usize = 0;
        assert(sv.take(0) =~= Seq::<EventView>::empty());
        while i < sorted.len()
            invariant
                i <= sorted@.len(),
                sv == events_view(sorted@),
                entries@.len() >= 1,
                entries@[0]@ == init,
                have_group <==> i > 0,
                ({
                    let c = coalesce(sv.take(i as int), initial@);
                    &&& have_group ==> c.len() >= 1 && c.last() == (EntryView {
                        timestamp: cur_time,
                        state: cur_state@,
                        events: cur_events@.map_values(|f: String| f@),
                    })
                    &&& (have_group ==> entries@.map_values(|e: TimelineEntry| e@).drop_first()
                        == c.drop_last())
                    &&& (!have_group ==> c.len() == 0 && entries@.len() == 1)
                }),
            decreases sorted@.len() - i,
        {
            let ghost c_old = coalesce(sv.take(i as int), initial@);
            let ghost old_entries = entries@.map_values(|e: TimelineEntry| e@);
            proof {
                assert(sv.take(i + 1).drop_last() =~= sv.take(i as int));
            }
            let e = &sorted[i];
            if have_group && cur_time == e.time {
                cur_state.update_field(e.field.as_str(), e.new_value.as_str());
                cur_events.push(e.field.clone());
                proof {
                    let c = coalesce(sv.take(i + 1), initial@);
                    assert(c.drop_last() =~= c_old.drop_last());
                    assert(c.last().events =~= cur_events@.map_values(|f: String| f@));
                }
            } else {
                let base = if have_group {
                    let finished = TimelineEntry {
                        timestamp: cur_time,
                        state: cur_state.duplicate(),
                        events: cur_events,
                    };
                    entries.push(finished);
                    proof {
                        assert(entries@.map_values(|e: TimelineEntry| e@).drop_first()
                            =~= old_entries.drop_first().push(c_old.last()));
                        assert(c_old.drop_last().push(c_old.last()) =~= c_old);
                    }
                    cur_state
                } else {
                    initial.duplicate()
                };
                let mut next = base;
                next.update_field(e.field.as_str(), e.new_value.as_str());
                cur_state = next;
                cur_events = Vec::new();
                cur_events.push(e.field.clone());
                cur_time = e.time;
                proof {
                    let c = coalesce(sv.take(i + 1), initial@);
                    assert(c.drop_last() =~= c_old);
                    assert(c.last().events =~= cur_events@.map_values(|f: String| f@));
                }
                have_group = true;
            }
            i = i + 1;
        }
        let finished = TimelineEntry { timestamp: cur_time, state: cur_state, events: cur_events };
        let ghost before = entries@.map_values(|e: TimelineEntry| e@);
        entries.push(finished);
        let t = Timeline { entries };
        proof {
            assert(sv.take(i as int) =~= sv);
            let c = coalesce(sv, initial@);
            assert(c.drop_last().push(c.last()) =~= c);
            assert(t@ =~= reconstruct(events_view(events@)));
        }
        Some(t)
    }

    /// The timelines of the agents of `events`: one per distinct agent id,
    /// in the order of first appearance, each built from that agent's
    /// events alone as `generate` builds it.
    pub fn generate_by_agent(events: &Vec<StateChangeEvent>) -> (r: Vec<AgentTimeline>)
        ensures
            r@.len() == agent_ids(events_view(events@)).len(),
            forall|k: int|
                0 <= k < r@.len() ==> (#[trigger] r@[k]).agent_id@ == agent_ids(
                    events_view(events@),
                )[k] && r@[k].timeline@ == reconstruct(
                    events_of(events_view(events@), agent_ids(events_view(events@))[k]),
                ),
    {
        let ghost ev = events_view(events@);
        let ids = distinct_agent_ids(events);
        let mut r: Vec<AgentTimeline> = Vec::new();
        let mut k: usize = 0;
        while k < ids.len()
            invariant
                k <= ids@.len(),
                ev == events_view(events@),
                ids@.len() == agent_ids(ev).len(),
                forall|j: int| 0 <= j < ids@.len() ==> (#[trigger] ids@[j])@ == agent_ids(ev)[j],
                r@.len() == k,
                forall|j: int|
                    0 <= j < k ==> (#[trigger] r@[j]).agent_id@ == agent_ids(ev)[j]
                        && r@[j].timeline@ == reconstruct(events_of(ev, agent_ids(ev)[j])),
            decreases ids@.len() - k,
        {
            let own = events_for(events, &ids[k]);
            proof {
                lemma_agent_ids_occur(ev, k as int);
                let id = agent_ids(ev)[k as int];
                let i = choose|i: int| 0 <= i < ev.len() && ev[i].agent_id == id;
                ev.lemma_filter_contains(|e: EventView| e.agent_id == id, i);
                assert(events_of(ev, id).contains(ev[i]));
            }
            match Timeline::generate(&own) {
                Some(timeline) => {
                    r.push(AgentTimeline { agent_id: ids[k].clone(), timeline });
                },
                None => {
                    assert(false);
                },
            }
            k = k + 1;
        }
        r
    }
}

/// Every listed agent id occurs in the log.
proof fn lemma_agent_ids_occur(s: Seq<EventView>, k: int)
    requires
        0 <= k < agent_ids(s).len(),
    ensures
        exists|i: int| 0 <= i < s.len() && s[i].agent_id == agent_ids(s)[k],
    decreases s.len(),
{
    let p = agent_ids(s.drop_last());
    if k < p.len() {
        lemma_agent_ids_occur(s.drop_last(), k);
        let i = choose|i: int| 0 <= i < s.drop_last().len() && s.drop_last()[i].agent_id == p[k];
        assert(s[i] == s.drop_last()[i]);
    } else {
        assert(s[s.len() - 1].agent_id == agent_ids(s)[k]);
    }
}

/// The distinct agent ids of `events`, in the order of first appearance.
fn distinct_agent_ids(events: &Vec<StateChangeEvent>) -> (r: Vec<String>)
    ensures
        r@.len() == agent_ids(events_view(events@)).len(),
        forall|j: int| 0 <= j < r@.len() ==> (#[trigger] r@[j])@ == agent_ids(events_view(events@))[j],
{
    let ghost ev = events_view(events@);
    let mut r: Vec<String> = Vec::new();
    let mut i: usize = 0;
    assert(ev.take(0) =~= Seq::<EventView>::empty());
    while i < events.len()
        invariant
            i <= events@.len(),
            ev == events_view(events@),
            r@.map_values(|x: String| x@) == agent_ids(ev.take(i as int)),
        decreases events@.len() - i,
    {
        let ghost ids = r@.map_values(|x: String| x@);
        assert(ev.take(i + 1).drop_last() =~= ev.take(i as int));
        let id = &events[i].agent_id;
        let mut found = false;
        let mut j: usize = 0;
        while j < r.len()
            invariant
                j <= r@.len(),
                ids == r@.map_values(|x: String| x@),
                found <==> exists|m: int| 0 <= m < j && ids[m] == id@,
            decreases r@.len() - j,
        {
            assert(ids[j as int] == r@[j as int]@);
            if r[j] == *id {
                found = true;
            }
            j = j + 1;
        }
        if !found {
            r.push(id.clone());
            assert(r@.map_values(|x: String| x@) =~= ids.push(id@));
        } else {
            assert(ids.contains(id@));
        }
        i = i + 1;
    }
    assert(ev.take(i as int) =~= ev);
    r
}

/// The events of agent `id`, in their order in `events`.
fn events_for(events: &Vec<StateChangeEvent>, id: &String) -> (r: Vec<StateChangeEvent>)
    ensures
        events_view(r@) == events_of(events_view(events@), id@),
{
    let ghost ev = events_view(events@);
    let ghost pred = |e: EventView| e.agent_id == id@;
    let mut r: Vec<StateChangeEvent> = Vec::new();
    let mut i: usize = 0;
    assert(ev.take(0) =~= Seq::<EventView>::empty());
    while i < events.len()
        invariant
            i <= events@.len(),
            ev == events_view(events@),
            pred == (|e: EventView| e.agent_id == id@),
            events_view(r@) == ev.take(i as int).filter(pred),
        decreases events@.len() - i,
    {
        proof {
            assert(ev.take(i + 1) =~= ev.take(i as int).push(ev[i as int]));
            ev.take(i as int).lemma_filter_push(ev[i as int], pred);
        }
        if events[i].agent_id == *id {
            let ghost before = r@;
            let e = events[i].duplicate();
            r.push(e);
            assert(events_view(before.push(e)) =~= events_view(before).push(e@));
        }
        i = i + 1;
    }
    assert(ev.take(i as int) =~= ev);
    r
}

} // verus!
