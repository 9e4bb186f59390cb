//! The changes that a timeline implies, and replaying them.
use crate::state::{
    diff, has_field, index_of, lemma_index_of, lemma_set_value_unique, names_unique, same_shape, set_value,
    value_or_empty, EventView, FieldsView,
};
use crate::timeline::{
    coalesce, initial_time, insert_by_time, lemma_sort_len, prehistory, reconstruct, sort_by_time,
    EntryView,
};
use vstd::prelude::*;

verus! {

/// The changes that entry `cur` of a timeline implies after entry `prev`:
/// for each field that `cur` lists, in order, a change at `cur`'s time from
/// its value in `prev` to its value in `cur`.
pub open spec fn entry_changes(prev: EntryView, cur: EntryView, agent_id: Seq<char>) -> Seq<
    EventView,
> {
    cur.events.map_values(
        |f: Seq<char>|
            EventView {
                time: cur.timestamp,
                agent_id,
                field: f,
                old_value: value_or_empty(prev.state, f),
                new_value: value_or_empty(cur.state, f),
            },
    )
}

/// The changes that timeline `t` implies, entry after entry, stamped with
/// `agent_id`.
pub open spec fn implied_events(t: Seq<EntryView>, agent_id: Seq<char>) -> Seq<EventView>
    decreases t.len(),
{
    if t.len() < 2 {
        Seq::empty()
    } else {
        implied_events(t.drop_last(), agent_id) + entry_changes(t[t.len() - 2], t.last(), agent_id)
    }
}

/// The events are in non-decreasing time order.
pub open spec fn time_ordered(s: Seq<EventView>) -> bool {
    forall|i: int, j: int| 0 <= i < j < s.len() ==> s[i].time <= s[j].time
}

/// `a` and `b` hold the same value in every field not listed in `fs`.
pub open spec fn agree_except(a: FieldsView, b: FieldsView, fs: Seq<Seq<char>>) -> bool {
    forall|i: int| 0 <= i < a.len() && !fs.contains(a[i].0) ==> #[trigger] a[i].1 == b[i].1
}

/// The state of the entry before entry `k` of `c`, the first one coming
/// after `initial`.
pub open spec fn state_before(c: Seq<EntryView>, initial: FieldsView, k: int) -> FieldsView {
    if k == 0 {
        initial
    } else {
        c[k - 1].state
    }
}

/// What the coalesced entries `c` of a time-ordered log, replayed from `initial`,
/// satisfy: each lists some field, times strictly increase, every state has
/// `initial`'s shape, and each entry differs from the one before only in the
/// fields it lists, all of which `initial` has.
pub open spec fn coalesced_wf(c: Seq<EntryView>, initial: FieldsView) -> bool {
    &&& forall|k: int| 0 <= k < c.len() ==> (#[trigger] c[k]).events.len() > 0
    &&& forall|k: int, j: int| 0 <= k < j < c.len() ==> (#[trigger] c[k]).timestamp < (#[trigger] c[j]).timestamp
    &&& forall|k: int| 0 <= k < c.len() ==> same_shape(#[trigger] c[k].state, initial)
    &&& forall|k: int| 0 <= k < c.len() ==> agree_except(state_before(c, initial, k), #[trigger] c[k].state, c[k].events)
    &&& forall|k: int, m: int| 0 <= k < c.len() && 0 <= m < c[k].events.len() ==> has_field(initial, #[trigger] c[k].events[m])
}

proof fn lemma_insert_ordered(s: Seq<EventView>, e: EventView)
    requires
        time_ordered(s),
    ensures
        time_ordered(insert_by_time(s, e)),
        insert_by_time(s, e).len() == s.len() + 1,
        forall|i: int| 0 <= i < insert_by_time(s, e).len() ==> (#[trigger] insert_by_time(s, e)[i] == e || s.contains(insert_by_time(s, e)[i])),
    decreases s.len(),
{
    if s.len() > 0 && s.last().time > e.time {
        lemma_insert_ordered(s.drop_last(), e);
        let r = insert_by_time(s.drop_last(), e);
        assert forall|i: int| 0 <= i < r.len() implies r[i].time <= s.last().time by {
            if r[i] != e {
                let j = choose|j: int| 0 <= j < s.drop_last().len() && s.drop_last()[j] == r[i];
                assert(s[j] == r[i]);
            }
        }
        assert forall|i: int| 0 <= i < insert_by_time(s, e).len() implies (#[trigger] insert_by_time(s, e)[i] == e || s.contains(insert_by_time(s, e)[i])) by {
            if i < r.len() && r[i] != e {
                let j = choose|j: int| 0 <= j < s.drop_last().len() && s.drop_last()[j] == r[i];
                assert(s[j] == r[i]);
            } else if i == r.len() {
                assert(s[s.len() - 1] == s.last());
            }
        }
    } else {
        assert forall|i: int| 0 <= i < insert_by_time(s, e).len() implies (#[trigger] insert_by_time(s, e)[i] == e || s.contains(insert_by_time(s, e)[i])) by {
            if i < s.len() {
                assert(s[i] == insert_by_time(s, e)[i]);
            }
        }
    }
}

/// Sorting by time yields a time-ordered log.
pub proof fn lemma_sort_ordered(s: Seq<EventView>)
    ensures
        time_ordered(sort_by_time(s)),
    decreases s.len(),
{
    if s.len() > 0 {
        lemma_sort_ordered(s.drop_last());
        lemma_insert_ordered(sort_by_time(s.drop_last()), s.last());
    }
}

/// A time-ordered log is its own sort.
pub proof fn lemma_sort_of_ordered(s: Seq<EventView>)
    requires
        time_ordered(s),
    ensures
        sort_by_time(s) == s,
    decreases s.len(),
{
    if s.len() > 0 {
        lemma_sort_of_ordered(s.drop_last());
        assert(s.drop_last().push(s.last()) =~= s);
    }
}

/// The pre-history of a log has a field exactly for each field the log
/// mentions, and no two fields of one name.
pub proof fn lemma_prehistory_fields(s: Seq<EventView>)
    ensures
        names_unique(prehistory(s)),
        forall|i: int| 0 <= i < s.len() ==> has_field(prehistory(s), #[trigger] s[i].field),
    decreases s.len(),
{
    if s.len() > 0 {
        let s0 = s.drop_last();
        lemma_prehistory_fields(s0);
        let p = prehistory(s0);
        let e = s.last();
        if !has_field(p, e.field) {
            lemma_set_value_unique(p, e.field, e.old_value);
            assert(set_value(p, e.field, e.old_value) == p.push((e.field, e.old_value)));
        }
        let q = prehistory(s);
        assert forall|i: int| 0 <= i < s.len() implies has_field(q, #[trigger] s[i].field) by {
            if i < s0.len() {
                assert(s0[i] == s[i]);
                let j = choose|j: int| 0 <= j < p.len() && p[j].0 == s0[i].field;
                assert(q[j] == p[j]);
            } else {
                if has_field(p, e.field) {
                } else {
                    assert(q[p.len() as int].0 == e.field);
                }
            }
        }
    }
}

/// Setting a field that `initial` has keeps a state of `initial`'s shape in that
/// shape, and changes that field's value alone.
proof fn lemma_set_in_shape(a: FieldsView, initial: FieldsView, f: Seq<char>, v: Seq<char>)
    requires
        names_unique(initial),
        same_shape(a, initial),
        has_field(initial, f),
    ensures
        names_unique(a),
        has_field(a, f),
        same_shape(set_value(a, f, v), initial),
        a[index_of(a, f)].0 == f,
        set_value(a, f, v) == a.update(index_of(a, f), (f, v)),
        forall|i: int| 0 <= i < a.len() && a[i].0 != f ==> #[trigger] set_value(a, f, v)[i] == a[i],
        value_or_empty(set_value(a, f, v), f) == v,
{
    assert(names_unique(a)) by {
        assert forall|i: int, j: int| 0 <= i < j < a.len() implies a[i].0 != a[j].0 by {
            assert(a[i].0 == initial[i].0 && a[j].0 == initial[j].0);
        }
    }
    let j = choose|j: int| 0 <= j < initial.len() && initial[j].0 == f;
    assert(a[j].0 == initial[j].0);
    assert(has_field(a, f));
    lemma_index_of(a, j);
    let r = set_value(a, f, v);
    lemma_index_of(r, j);
    assert(names_unique(r)) by {
        lemma_set_value_unique(a, f, v);
    }
    assert(same_shape(r, initial)) by {
        assert forall|i: int| 0 <= i < r.len() implies #[trigger] r[i].0 == initial[i].0 by {
            assert(a[i].0 == initial[i].0);
        }
    }
}

/// The coalesced entries of a time-ordered log whose fields `initial` all has.
#[verifier::rlimit(60)]
pub proof fn lemma_coalesce_wf(s: Seq<EventView>, initial: FieldsView)
    requires
        time_ordered(s),
        names_unique(initial),
        forall|i: int| 0 <= i < s.len() ==> has_field(initial, #[trigger] s[i].field),
    ensures
        coalesced_wf(coalesce(s, initial), initial),
        s.len() == 0 <==> coalesce(s, initial).len() == 0,
        s.len() > 0 ==> coalesce(s, initial).last().timestamp == s.last().time,
    decreases s.len(),
{
    if s.len() > 0 {
        let s0 = s.drop_last();
        assert forall|i: int| 0 <= i < s0.len() implies has_field(initial, #[trigger] s0[i].field) by {
            assert(s0[i] == s[i]);
        }
        lemma_coalesce_wf(s0, initial);
        let prev = coalesce(s0, initial);
        let e = s.last();
        assert(has_field(initial, s[s.len() - 1].field));
        let c = coalesce(s, initial);
        if prev.len() > 0 && prev.last().timestamp == e.time {
            let last = prev.last();
            let n = prev.len() - 1;
            assert(same_shape(prev[n].state, initial));
            lemma_set_in_shape(last.state, initial, e.field, e.new_value);
            let ns = set_value(last.state, e.field, e.new_value);
            assert(c[n].state == ns);
            assert forall|k: int| 0 <= k < c.len() implies agree_except(state_before(c, initial, k), #[trigger] c[k].state, c[k].events) by {
                if k < n {
                    assert(c[k] == prev[k]);
                    assert(state_before(c, initial, k) == state_before(prev, initial, k));
                    assert(agree_except(state_before(prev, initial, k), prev[k].state, prev[k].events));
                } else {
                    assert(state_before(c, initial, k) == state_before(prev, initial, k));
                    let b = state_before(prev, initial, k);
                    assert(agree_except(b, prev[k].state, prev[k].events));
                    assert forall|i: int| 0 <= i < b.len() && !c[k].events.contains(b[i].0) implies #[trigger] b[i].1 == c[k].state[i].1 by {
                        assert(!prev[k].events.contains(b[i].0)) by {
                            if prev[k].events.contains(b[i].0) {
                                let m = choose|m: int| 0 <= m < prev[k].events.len() && prev[k].events[m] == b[i].0;
                                assert(c[k].events[m] == b[i].0);
                            }
                        }
                        assert(c[k].events[c[k].events.len() - 1] == e.field);
                        if k == 0 {
                            assert(b[i].0 == initial[i].0);
                        } else {
                            assert(same_shape(prev[k - 1].state, initial));
                        }
                        assert(last.state[i].0 == initial[i].0);
                        assert(b[i].0 == initial[i].0) by {
                            if k > 0 {
                                assert(prev[k - 1].state[i].0 == initial[i].0);
                            }
                        }
                    }
                }
            }
            assert forall|k: int, m: int| 0 <= k < c.len() && 0 <= m < c[k].events.len() implies has_field(initial, #[trigger] c[k].events[m]) by {
                if k < n {
                    assert(c[k] == prev[k]);
                } else if m < prev[n].events.len() {
                    assert(c[k].events[m] == prev[n].events[m]);
                }
            }
            assert forall|k: int| 0 <= k < c.len() implies same_shape(#[trigger] c[k].state, initial) by {
                if k < n {
                    assert(c[k] == prev[k]);
                }
            }
            assert forall|k: int, j: int| 0 <= k < j < c.len() implies (#[trigger] c[k]).timestamp < (#[trigger] c[j]).timestamp by {
                assert(prev[k].timestamp < prev[j].timestamp);
            }
        } else {
            let base = if prev.len() == 0 {
                initial
            } else {
                prev.last().state
            };
            let n = prev.len() as int;
            assert(base == state_before(c, initial, n));
            assert(same_shape(base, initial)) by {
                if prev.len() > 0 {
                    assert(same_shape(prev[n - 1].state, initial));
                } else {
                    assert forall|i: int| 0 <= i < initial.len() implies #[trigger] initial[i].0 == initial[i].0 by {}
                }
            }
            lemma_set_in_shape(base, initial, e.field, e.new_value);
            assert forall|k: int| 0 <= k < c.len() implies agree_except(state_before(c, initial, k), #[trigger] c[k].state, c[k].events) by {
                if k < n {
                    assert(c[k] == prev[k]);
                    assert(state_before(c, initial, k) == state_before(prev, initial, k));
                    assert(agree_except(state_before(prev, initial, k), prev[k].state, prev[k].events));
                } else {
                    assert forall|i: int| 0 <= i < base.len() && !c[k].events.contains(base[i].0) implies #[trigger] base[i].1 == c[k].state[i].1 by {
                        assert(c[k].events[0] == e.field);
                    }
                }
            }
            assert forall|k: int, m: int| 0 <= k < c.len() && 0 <= m < c[k].events.len() implies has_field(initial, #[trigger] c[k].events[m]) by {
                if k < n {
                    assert(c[k] == prev[k]);
                }
            }
            assert forall|k: int| 0 <= k < c.len() implies same_shape(#[trigger] c[k].state, initial) by {
                if k < n {
                    assert(c[k] == prev[k]);
                }
            }
            assert forall|k: int, j: int| 0 <= k < j < c.len() implies (#[trigger] c[k]).timestamp < (#[trigger] c[j]).timestamp by {
                if j < n {
                    assert(prev[k].timestamp < prev[j].timestamp);
                } else {
                    assert(s[s.len() - 2].time <= s[s.len() - 1].time);
                    if k < n - 1 {
                        assert(prev[k].timestamp < prev[n - 1].timestamp);
                    }
                }
            }
        }
    }
}

/// `st` with the new value of each event of `g` applied in order.
pub open spec fn apply_new_values(st: FieldsView, g: Seq<EventView>) -> FieldsView
    decreases g.len(),
{
    if g.len() == 0 {
        st
    } else {
        set_value(apply_new_values(st, g.drop_last()), g.last().field, g.last().new_value)
    }
}

/// The state that coalescing `x` from `initial` ends in.
pub open spec fn end_state(x: Seq<EventView>, initial: FieldsView) -> FieldsView {
    if coalesce(x, initial).len() == 0 {
        initial
    } else {
        coalesce(x, initial).last().state
    }
}

proof fn lemma_coalesce_last(x: Seq<EventView>, initial: FieldsView)
    requires
        x.len() > 0,
    ensures
        coalesce(x, initial).len() > 0,
        coalesce(x, initial).last().timestamp == x.last().time,
{
}

/// Coalescing a log followed by a group of events of one time, later than
/// the log's last, adds exactly one entry for that group.
proof fn lemma_coalesce_group(x: Seq<EventView>, g: Seq<EventView>, initial: FieldsView, t: i64)
    requires
        g.len() > 0,
        forall|i: int| 0 <= i < g.len() ==> (#[trigger] g[i]).time == t,
        x.len() == 0 || x.last().time != t,
    ensures
        coalesce(x + g, initial) == coalesce(x, initial).push(
            EntryView {
                timestamp: t,
                state: apply_new_values(end_state(x, initial), g),
                events: g.map_values(|e: EventView| e.field),
            },
        ),
    decreases g.len(),
{
    let g0 = g.drop_last();
    assert((x + g).drop_last() =~= x + g0);
    assert((x + g).last() == g.last());
    if g0.len() == 0 {
        assert(x + g0 =~= x);
        if x.len() > 0 {
            lemma_coalesce_last(x, initial);
        }
        assert(g.map_values(|e: EventView| e.field) =~= seq![g.last().field]);
        assert(apply_new_values(end_state(x, initial), g0) == end_state(x, initial));
    } else {
        assert forall|i: int| 0 <= i < g0.len() implies (#[trigger] g0[i]).time == t by {
            assert(g0[i] == g[i]);
        }
        lemma_coalesce_group(x, g0, initial, t);
        assert(g.map_values(|e: EventView| e.field) =~= g0.map_values(|e: EventView| e.field).push(
            g.last().field,
        ));
        let prev = coalesce(x + g0, initial);
        assert(prev.last().timestamp == t);
        assert(coalesce(x + g, initial) =~= coalesce(x, initial).push(
            EntryView {
                timestamp: t,
                state: apply_new_values(end_state(x, initial), g),
                events: g.map_values(|e: EventView| e.field),
            },
        ));
    }
}

/// Setting, in turn, each field listed in `fs` to its value in `b` turns
/// `a` into `b`, where `a` and `b` have `initial`'s shape and agree elsewhere.
proof fn lemma_apply_final_values(
    a: FieldsView,
    b: FieldsView,
    initial: FieldsView,
    g: Seq<EventView>,
    fs: Seq<Seq<char>>,
)
    requires
        names_unique(initial),
        same_shape(a, initial),
        same_shape(b, initial),
        agree_except(a, b, fs),
        g.len() == fs.len(),
        forall|m: int| 0 <= m < g.len() ==> (#[trigger] g[m]).field == fs[m] && g[m].new_value
            == value_or_empty(b, fs[m]) && has_field(initial, fs[m]),
    ensures
        apply_new_values(a, g) == b,
{
    lemma_apply_prefix(a, b, initial, g, fs, g.len() as int);
    let r = apply_new_values(a, g);
    assert(g.take(g.len() as int) =~= g);
    assert(fs.take(fs.len() as int) =~= fs);
    assert forall|i: int| 0 <= i < r.len() implies #[trigger] r[i] == b[i] by {
        assert(r[i].0 == b[i].0);
        if !fs.contains(a[i].0) {
            assert(a[i].1 == b[i].1);
        }
    }
    assert(r =~= b);
}

#[verifier::rlimit(60)]
proof fn lemma_apply_prefix(
    a: FieldsView,
    b: FieldsView,
    initial: FieldsView,
    g: Seq<EventView>,
    fs: Seq<Seq<char>>,
    n: int,
)
    requires
        names_unique(initial),
        same_shape(a, initial),
        same_shape(b, initial),
        g.len() == fs.len(),
        0 <= n <= g.len(),
        forall|m: int| 0 <= m < g.len() ==> (#[trigger] g[m]).field == fs[m] && g[m].new_value
            == value_or_empty(b, fs[m]) && has_field(initial, fs[m]),
    ensures
        same_shape(apply_new_values(a, g.take(n)), initial),
        forall|i: int|
            0 <= i < a.len() ==> (#[trigger] apply_new_values(a, g.take(n))[i]).1 == (if fs.take(
                n,
            ).contains(a[i].0) {
                b[i].1
            } else {
                a[i].1
            }),
    decreases n,
{
    let r = apply_new_values(a, g.take(n));
    if n == 0 {
        assert(g.take(0) =~= Seq::<EventView>::empty());
        assert(fs.take(0) =~= Seq::<Seq<char>>::empty());
    } else {
        lemma_apply_prefix(a, b, initial, g, fs, n - 1);
        assert(g.take(n).drop_last() =~= g.take(n - 1));
        let r0 = apply_new_values(a, g.take(n - 1));
        let f = fs[n - 1];
        assert(g.take(n).last() == g[n - 1]);
        lemma_set_in_shape(r0, initial, f, g[n - 1].new_value);
        assert(fs.take(n) =~= fs.take(n - 1).push(f));
        assert(names_unique(b)) by {
            assert forall|i: int, j: int| 0 <= i < j < b.len() implies b[i].0 != b[j].0 by {
                assert(b[i].0 == initial[i].0 && b[j].0 == initial[j].0);
            }
        }
        assert forall|i: int| 0 <= i < a.len() implies (#[trigger] r[i]).1 == (if fs.take(
            n,
        ).contains(a[i].0) {
            b[i].1
        } else {
            a[i].1
        }) by {
            assert(a[i].0 == initial[i].0 && r0[i].0 == initial[i].0 && b[i].0 == initial[i].0);
            if r0[i].0 == f {
                lemma_index_of(b, i);
                assert(index_of(r0, f) == i) by {
                    lemma_index_of(r0, i);
                }
                assert(fs.take(n).contains(a[i].0)) by {
                    assert(fs.take(n)[n - 1] == f);
                }
            } else {
                assert(r[i] == r0[i]);
                if fs.take(n).contains(a[i].0) {
                    let m = choose|m: int| 0 <= m < fs.take(n).len() && #[trigger] fs.take(n)[m] == a[i].0;
                    assert(m != n - 1);
                    assert(fs.take(n - 1)[m] == a[i].0);
                } else {
                    assert(!fs.take(n - 1).contains(a[i].0)) by {
                        if fs.take(n - 1).contains(a[i].0) {
                            let m = choose|m: int| 0 <= m < fs.take(n - 1).len() && #[trigger] fs.take(n - 1)[m] == a[i].0;
                            assert(fs.take(n)[m] == a[i].0);
                        }
                    }
                }
            }
        }
    }
}

/// Coalescing the changes implied by the first `k + 1` entries of timeline
/// `t`, whose later entries `c` are well formed, gives back `c`'s first `k`
/// entries; those changes are time-ordered and end at entry `k - 1`'s time.
#[verifier::rlimit(60)]
proof fn lemma_replay_prefix(t: Seq<EntryView>, c: Seq<EntryView>, initial: FieldsView, id: Seq<char>, k: int)
    requires
        names_unique(initial),
        coalesced_wf(c, initial),
        t.len() == c.len() + 1,
        t[0].state == initial,
        forall|j: int| 0 <= j < c.len() ==> t[j + 1] == c[j],
        0 <= k <= c.len(),
    ensures
        coalesce(implied_events(t.take(k + 1), id), initial) == c.take(k),
        time_ordered(implied_events(t.take(k + 1), id)),
        k == 0 ==> implied_events(t.take(k + 1), id).len() == 0,
        k > 0 ==> implied_events(t.take(k + 1), id).len() > 0 && implied_events(t.take(k + 1), id).last().time
            == c[k - 1].timestamp,
        k > 0 ==> forall|i: int|
            0 <= i < implied_events(t.take(k + 1), id).len() ==> (#[trigger] implied_events(t.take(k + 1), id)[i]).time
                <= c[k - 1].timestamp,
    decreases k,
{
    if k == 0 {
        assert(t.take(1).len() == 1);
        assert(c.take(0) =~= Seq::<EntryView>::empty());
    } else {
        let j = k - 1;
        lemma_replay_prefix(t, c, initial, id, j);
        let x = implied_events(t.take(j + 1), id);
        let tk = t.take(k + 1);
        assert(tk.drop_last() =~= t.take(j + 1));
        assert(tk[tk.len() - 2] == t[j]);
        assert(tk.last() == c[j]);
        let g = entry_changes(t[j], c[j], id);
        assert(implied_events(tk, id) == x + g);
        let sb = state_before(c, initial, j);
        assert(t[j].state == sb) by {
            if j > 0 {
                assert(t[j] == c[j - 1]);
            }
        }
        assert(c[j].events.len() > 0);
        assert forall|i: int| 0 <= i < g.len() implies (#[trigger] g[i]).time == c[j].timestamp by {}
        if j > 0 {
            assert(c[j - 1].timestamp < c[j].timestamp);
        }
        lemma_coalesce_group(x, g, initial, c[j].timestamp);
        assert(end_state(x, initial) == sb) by {
            if j > 0 {
                assert(c.take(j).last() == c[j - 1]);
            }
        }
        assert(g.map_values(|e: EventView| e.field) =~= c[j].events);
        assert(same_shape(sb, initial)) by {
            if j > 0 {
                assert(same_shape(c[j - 1].state, initial));
            }
        }
        assert(same_shape(c[j].state, initial));
        assert(agree_except(sb, c[j].state, c[j].events));
        assert forall|m: int| 0 <= m < g.len() implies (#[trigger] g[m]).field == c[j].events[m]
            && g[m].new_value == value_or_empty(c[j].state, c[j].events[m]) && has_field(initial, c[j].events[m]) by {
            assert(has_field(initial, c[j].events[m]));
        }
        lemma_apply_final_values(sb, c[j].state, initial, g, c[j].events);
        assert(c.take(k) =~= c.take(j).push(c[j]));
        let y = x + g;
        assert forall|a: int, b: int| 0 <= a < b < y.len() implies y[a].time <= y[b].time by {
            if b < x.len() {
            } else if a < x.len() {
                assert(y[a] == x[a]);
                assert(y[b] == g[b - x.len()]);
            } else {
                assert(y[a] == g[a - x.len()]);
                assert(y[b] == g[b - x.len()]);
            }
        }
        assert forall|i: int| 0 <= i < y.len() implies (#[trigger] y[i]).time <= c[j].timestamp by {
            if i < x.len() {
                assert(y[i] == x[i]);
            } else {
                assert(y[i] == g[i - x.len()]);
            }
        }
        assert(y.last() == g[g.len() - 1]);
    }
}

proof fn lemma_coalesce_first(s: Seq<EventView>, initial: FieldsView)
    requires
        s.len() > 0,
    ensures
        coalesce(s, initial).len() > 0,
        coalesce(s, initial)[0].timestamp == s[0].time,
    decreases s.len(),
{
    let s0 = s.drop_last();
    let prev = coalesce(s0, initial);
    if s.len() > 1 {
        lemma_coalesce_first(s0, initial);
        assert(s0[0] == s[0]);
        let c = coalesce(s, initial);
        if prev.last().timestamp == s.last().time {
            assert(c[0].timestamp == prev[0].timestamp);
        } else {
            assert(c[0] == prev[0]);
        }
    } else {
        assert(prev.len() == 0);
        assert(s.last() == s[0]);
    }
}

/// Replaying the changes that a reconstructed timeline implies, from the
/// timeline's initial state, reproduces it: the changes come sorted by time
/// already, the first of them sits one second after the initial entry (as
/// far as the range of `i64` allows), and coalescing them gives back every
/// later entry, with its time, full state and changed fields.
proof fn lemma_replay_timeline(events: Seq<EventView>, agent_id: Seq<char>)
    requires
        events.len() > 0,
    ensures
        ({
            let t = reconstruct(events);
            let i = implied_events(t, agent_id);
            &&& i.len() > 0
            &&& sort_by_time(i) == i
            &&& t[0].timestamp == initial_time(i[0].time)
            &&& seq![t[0]] + coalesce(sort_by_time(i), t[0].state) == t
        }),
{
    let s = sort_by_time(events);
    lemma_sort_len(events);
    lemma_sort_ordered(events);
    let initial = prehistory(s);
    lemma_prehistory_fields(s);
    let c = coalesce(s, initial);
    lemma_coalesce_wf(s, initial);
    lemma_coalesce_first(s, initial);
    let t = reconstruct(events);
    assert(t.len() == c.len() + 1);
    assert forall|j: int| 0 <= j < c.len() implies t[j + 1] == c[j] by {}
    lemma_replay_prefix(t, c, initial, agent_id, c.len() as int);
    assert(t.take(c.len() + 1 as int) =~= t);
    assert(c.take(c.len() as int) =~= c);
    let i = implied_events(t, agent_id);
    lemma_sort_of_ordered(i);
    lemma_replay_first(t, agent_id, c.len() as int);
    assert(seq![t[0]] + c =~= t);
}

/// The first implied change belongs to the first entry after the initial one.
proof fn lemma_replay_first(t: Seq<EntryView>, id: Seq<char>, n: int)
    requires
        n >= 1,
        t.len() == n + 1,
        t[1].events.len() > 0,
    ensures
        implied_events(t, id).len() > 0,
        implied_events(t, id)[0].time == t[1].timestamp,
    decreases n,
{
    let t0 = t.drop_last();
    if n > 1 {
        assert(t0[1] == t[1]);
        lemma_replay_first(t0, id, n - 1);
        assert(implied_events(t, id)[0] == implied_events(t0, id)[0]);
    } else {
        assert(implied_events(t0, id).len() == 0);
        assert(t.last() == t[1]);
        assert(implied_events(t, id) =~= entry_changes(t[0], t[1], id));
    }
}

/// The fields that the events of `s` touch, in order.
pub open spec fn fields_of(s: Seq<EventView>) -> Seq<Seq<char>> {
    s.map_values(|e: EventView| e.field)
}

/// The fields that the entries of `c` list, entry after entry.
pub open spec fn flatten(c: Seq<EntryView>) -> Seq<Seq<char>>
    decreases c.len(),
{
    if c.len() == 0 {
        Seq::empty()
    } else {
        flatten(c.drop_last()) + c.last().events
    }
}

/// Event `n` of `s` is the first to touch its field.
pub open spec fn first_mention(s: Seq<EventView>, n: int) -> bool {
    forall|m: int| 0 <= m < n ==> #[trigger] s[m].field != s[n].field
}

/// The pre-history has a field only where the log touches it.
proof fn lemma_prehistory_only_mentioned(s: Seq<EventView>, f: Seq<char>)
    requires
        has_field(prehistory(s), f),
    ensures
        exists|m: int| 0 <= m < s.len() && #[trigger] s[m].field == f,
    decreases s.len(),
{
    let s0 = s.drop_last();
    let p = prehistory(s0);
    if s.len() > 0 {
        if has_field(p, f) {
            lemma_prehistory_only_mentioned(s0, f);
            let m = choose|m: int| 0 <= m < s0.len() && #[trigger] s0[m].field == f;
            assert(s[m] == s0[m]);
        } else {
            let q = prehistory(s);
            let j = choose|j: int| 0 <= j < q.len() && q[j].0 == f;
            if j < p.len() {
                assert(q[j] == p[j]);
            }
            assert(s[s.len() - 1].field == f);
        }
    }
}

/// The pre-history holds, for each field, the old value of its first
/// mention.
proof fn lemma_prehistory_first_value(s: Seq<EventView>, n: int)
    requires
        0 <= n < s.len(),
        first_mention(s, n),
    ensures
        value_or_empty(prehistory(s), s[n].field) == s[n].old_value,
    decreases s.len(),
{
    let s0 = s.drop_last();
    let p = prehistory(s0);
    let q = prehistory(s);
    let f = s[n].field;
    lemma_prehistory_fields(s0);
    lemma_prehistory_fields(s);
    if n < s.len() - 1 {
        assert(s0[n] == s[n]);
        assert(first_mention(s0, n)) by {
            assert forall|m: int| 0 <= m < n implies #[trigger] s0[m].field != s0[n].field by {
                assert(s0[m] == s[m]);
            }
        }
        lemma_prehistory_first_value(s0, n);
        assert(has_field(p, f));
        let j = index_of(p, f);
        lemma_index_of(p, j);
        if q != p {
            assert(q == p.push((s.last().field, s.last().old_value)));
            assert(q[j] == p[j]);
            lemma_index_of(q, j);
        }
    } else {
        if has_field(p, f) {
            lemma_prehistory_only_mentioned(s0, f);
            let m = choose|m: int| 0 <= m < s0.len() && #[trigger] s0[m].field == f;
            assert(s[m] == s0[m]);
        }
        lemma_index_of(q, p.len() as int);
    }
}

/// Two logs that touch the same fields at the same positions, and agree on
/// the old value at each first mention, have the same pre-history.
proof fn lemma_prehistory_agree(x: Seq<EventView>, y: Seq<EventView>)
    requires
        x.len() == y.len(),
        forall|n: int| 0 <= n < x.len() ==> #[trigger] x[n].field == y[n].field,
        forall|n: int| 0 <= n < x.len() && first_mention(x, n) ==> #[trigger] x[n].old_value == y[n].old_value,
    ensures
        prehistory(x) == prehistory(y),
    decreases x.len(),
{
    if x.len() > 0 {
        let x0 = x.drop_last();
        let y0 = y.drop_last();
        assert forall|n: int| 0 <= n < x0.len() implies #[trigger] x0[n].field == y0[n].field by {
            assert(x[n].field == y[n].field);
        }
        assert forall|n: int| 0 <= n < x0.len() && first_mention(x0, n) implies #[trigger] x0[n].old_value == y0[n].old_value by {
            assert(first_mention(x, n)) by {
                assert forall|m: int| 0 <= m < n implies #[trigger] x[m].field != x[n].field by {
                    assert(x0[m] == x[m]);
                }
            }
            assert(x[n].old_value == y[n].old_value);
        }
        lemma_prehistory_agree(x0, y0);
        let p = prehistory(x0);
        let f = x.last().field;
        assert(y.last().field == f) by {
            assert(x[x.len() - 1].field == y[y.len() - 1].field);
        }
        if !has_field(p, f) {
            assert(first_mention(x, x.len() - 1)) by {
                assert forall|m: int| 0 <= m < x.len() - 1 implies #[trigger] x[m].field != x[x.len() - 1].field by {
                    if x[m].field == f {
                        lemma_prehistory_fields(x0);
                        assert(x0[m] == x[m]);
                        assert(has_field(p, x0[m].field));
                    }
                }
            }
            assert(x[x.len() - 1].old_value == y[y.len() - 1].old_value);
        }
    }
}

/// Coalescing keeps every field of the log, in order.
proof fn lemma_flatten_coalesce(s: Seq<EventView>, initial: FieldsView)
    ensures
        flatten(coalesce(s, initial)) == fields_of(s),
    decreases s.len(),
{
    if s.len() > 0 {
        let s0 = s.drop_last();
        lemma_flatten_coalesce(s0, initial);
        let prev = coalesce(s0, initial);
        let c = coalesce(s, initial);
        assert(fields_of(s) =~= fields_of(s0).push(s.last().field));
        if prev.len() > 0 && prev.last().timestamp == s.last().time {
            assert(c.drop_last() =~= prev.drop_last());
            assert(flatten(prev) == flatten(prev.drop_last()) + prev.last().events);
            assert(flatten(c) =~= flatten(prev).push(s.last().field));
        } else {
            assert(c.drop_last() =~= prev);
            assert(flatten(c) =~= flatten(prev).push(s.last().field));
        }
    }
}

/// In a state of `initial`'s shape, a field's value sits at that field's
/// position in `initial`.
proof fn lemma_value_in_shape(a: FieldsView, initial: FieldsView, idx: int)
    requires
        names_unique(initial),
        same_shape(a, initial),
        0 <= idx < initial.len(),
    ensures
        value_or_empty(a, initial[idx].0) == a[idx].1,
{
    assert(names_unique(a)) by {
        assert forall|i: int, j: int| 0 <= i < j < a.len() implies a[i].0 != a[j].0 by {
            assert(a[i].0 == initial[i].0 && a[j].0 == initial[j].0);
        }
    }
    assert(a[idx].0 == initial[idx].0);
    lemma_index_of(a, idx);
}

/// Before entry `k`, every field that no earlier entry lists still holds
/// its value in `initial`.
#[verifier::rlimit(50)]
proof fn lemma_untouched_fields(c: Seq<EntryView>, initial: FieldsView, k: int)
    requires
        names_unique(initial),
        coalesced_wf(c, initial),
        0 <= k <= c.len(),
    ensures
        same_shape(state_before(c, initial, k), initial),
        forall|idx: int|
            0 <= idx < initial.len() && !flatten(c.take(k)).contains(initial[idx].0) ==> #[trigger] state_before(
                c,
                initial,
                k,
            )[idx].1 == initial[idx].1,
    decreases k,
{
    if k == 0 {
        assert forall|i: int| 0 <= i < initial.len() implies #[trigger] initial[i].0 == initial[i].0 by {}
    } else {
        lemma_untouched_fields(c, initial, k - 1);
        let j = k - 1;
        assert(c.take(k).drop_last() =~= c.take(j));
        assert(c.take(k).last() == c[j]);
        let fl0 = flatten(c.take(j));
        let evs = c[j].events;
        let fl = flatten(c.take(k));
        assert(fl == fl0 + evs);
        let b = state_before(c, initial, j);
        let a = c[j].state;
        assert(state_before(c, initial, k) == a);
        assert(same_shape(a, initial));
        assert(agree_except(b, a, evs));
        assert forall|idx: int| 0 <= idx < initial.len() && !fl.contains(initial[idx].0) implies #[trigger] a[idx].1
            == initial[idx].1 by {
            let name = initial[idx].0;
            assert(b[idx].0 == name);
            assert(!fl0.contains(name)) by {
                if fl0.contains(name) {
                    let m = choose|m: int| 0 <= m < fl0.len() && fl0[m] == name;
                    assert(fl[m] == name);
                }
            }
            assert(!evs.contains(name)) by {
                if evs.contains(name) {
                    let m = choose|m: int| 0 <= m < evs.len() && evs[m] == name;
                    assert(fl[fl0.len() + m] == name);
                }
            }
            assert(b[idx].1 == a[idx].1);
        }
    }
}

/// The changes implied by the first `k + 1` entries of `t` touch the fields
/// that `c`'s first `k` entries list, and each first mention among them
/// carries the field's value in `initial` as its old value.
#[verifier::rlimit(60)]
proof fn lemma_implied_first_old(t: Seq<EntryView>, c: Seq<EntryView>, initial: FieldsView, id: Seq<char>, k: int)
    requires
        names_unique(initial),
        coalesced_wf(c, initial),
        t.len() == c.len() + 1,
        t[0].state == initial,
        forall|j: int| 0 <= j < c.len() ==> t[j + 1] == c[j],
        0 <= k <= c.len(),
    ensures
        fields_of(implied_events(t.take(k + 1), id)) == flatten(c.take(k)),
        forall|n: int|
            0 <= n < implied_events(t.take(k + 1), id).len() && first_mention(implied_events(t.take(k + 1), id), n)
                ==> #[trigger] implied_events(t.take(k + 1), id)[n].old_value == value_or_empty(
                initial,
                implied_events(t.take(k + 1), id)[n].field,
            ),
    decreases k,
{
    if k == 0 {
        assert(t.take(1).len() == 1);
        assert(c.take(0) =~= Seq::<EntryView>::empty());
        assert(fields_of(implied_events(t.take(1), id)) =~= Seq::<Seq<char>>::empty());
    } else {
        let j = k - 1;
        lemma_implied_first_old(t, c, initial, id, j);
        let x = implied_events(t.take(j + 1), id);
        let tk = t.take(k + 1);
        assert(tk.drop_last() =~= t.take(j + 1));
        assert(tk[tk.len() - 2] == t[j]);
        assert(tk.last() == c[j]);
        let g = entry_changes(t[j], c[j], id);
        let y = x + g;
        assert(implied_events(tk, id) == y);
        assert(c.take(k).drop_last() =~= c.take(j));
        assert(c.take(k).last() == c[j]);
        assert(flatten(c.take(k)) == flatten(c.take(j)) + c[j].events);
        assert(fields_of(y) =~= fields_of(x) + c[j].events);
        let sb = state_before(c, initial, j);
        assert(t[j].state == sb) by {
            if j > 0 {
                assert(t[j] == c[j - 1]);
            }
        }
        lemma_untouched_fields(c, initial, j);
        assert forall|n: int| 0 <= n < y.len() && first_mention(y, n) implies #[trigger] y[n].old_value
            == value_or_empty(initial, y[n].field) by {
            if n < x.len() {
                assert(y[n] == x[n]);
                assert(first_mention(x, n)) by {
                    assert forall|m: int| 0 <= m < n implies #[trigger] x[m].field != x[n].field by {
                        assert(y[m] == x[m]);
                    }
                }
            } else {
                let m = n - x.len();
                assert(y[n] == g[m]);
                let f = c[j].events[m];
                assert(has_field(initial, f));
                let idx = index_of(initial, f);
                lemma_index_of(initial, idx);
                assert(!flatten(c.take(j)).contains(f)) by {
                    if flatten(c.take(j)).contains(f) {
                        let q = choose|q: int| 0 <= q < flatten(c.take(j)).len() && flatten(c.take(j))[q] == f;
                        assert(fields_of(x)[q] == f);
                        assert(x[q].field == f);
                        assert(y[q] == x[q]);
                    }
                }
                lemma_value_in_shape(sb, initial, idx);
                assert(same_shape(initial, initial));
                lemma_value_in_shape(initial, initial, idx);
            }
        }
    }
}

/// Reconstruction is idempotent: rebuilding a timeline from the changes it
/// implies (for each entry after the first and each field it lists, a
/// change at its time from the previous entry's value to its own) gives
/// back the same timeline.
#[verifier::rlimit(60)]
pub proof fn lemma_reconstruct_idempotent(events: Seq<EventView>, agent_id: Seq<char>)
    requires
        events.len() > 0,
    ensures
        reconstruct(implied_events(reconstruct(events), agent_id)) == reconstruct(events),
{
    let s = sort_by_time(events);
    lemma_sort_len(events);
    lemma_sort_ordered(events);
    let initial = prehistory(s);
    lemma_prehistory_fields(s);
    let c = coalesce(s, initial);
    lemma_coalesce_wf(s, initial);
    let t = reconstruct(events);
    assert(t.len() == c.len() + 1);
    assert forall|j: int| 0 <= j < c.len() implies t[j + 1] == c[j] by {}
    lemma_replay_timeline(events, agent_id);
    let i = implied_events(t, agent_id);
    lemma_implied_first_old(t, c, initial, agent_id, c.len() as int);
    assert(t.take(c.len() + 1 as int) =~= t);
    assert(c.take(c.len() as int) =~= c);
    lemma_flatten_coalesce(s, initial);
    assert(fields_of(i) == fields_of(s));
    assert(i.len() == s.len()) by {
        assert(fields_of(i).len() == fields_of(s).len());
    }
    assert forall|n: int| 0 <= n < i.len() implies #[trigger] i[n].field == s[n].field by {
        assert(fields_of(i)[n] == fields_of(s)[n]);
    }
    assert forall|n: int| 0 <= n < i.len() && first_mention(i, n) implies #[trigger] i[n].old_value
        == s[n].old_value by {
        assert(first_mention(s, n)) by {
            assert forall|m: int| 0 <= m < n implies #[trigger] s[m].field != s[n].field by {
                assert(i[m].field == s[m].field);
            }
        }
        lemma_prehistory_first_value(s, n);
    }
    lemma_prehistory_agree(i, s);
    assert(sort_by_time(i) == i);
    assert(prehistory(sort_by_time(i)) == initial);
    assert(reconstruct(i) =~= t);
}

/// Each change of a diff comes from a field of the new state, and each field
/// of the new state whose value differs from the old one has a change.
proof fn lemma_diff_entries(old: FieldsView, new: FieldsView, time: i64, id: Seq<char>)
    ensures
        forall|m: int|
            0 <= m < diff(old, new, time, id).len() ==> exists|i: int|
                0 <= i < new.len() && (#[trigger] diff(old, new, time, id)[m]).field == new[i].0
                    && diff(old, new, time, id)[m].new_value == new[i].1,
        forall|i: int|
            0 <= i < new.len() && value_or_empty(old, (#[trigger] new[i]).0) != new[i].1 ==> fields_of(
                diff(old, new, time, id),
            ).contains(new[i].0),
    decreases new.len(),
{
    if new.len() > 0 {
        let n0 = new.drop_last();
        lemma_diff_entries(old, n0, time, id);
        let d0 = diff(old, n0, time, id);
        let d = diff(old, new, time, id);
        assert forall|m: int| 0 <= m < d.len() implies exists|i: int|
            0 <= i < new.len() && (#[trigger] d[m]).field == new[i].0 && d[m].new_value == new[i].1 by {
            if m < d0.len() {
                assert(d[m] == d0[m]);
                let i = choose|i: int| 0 <= i < n0.len() && d0[m].field == n0[i].0 && d0[m].new_value == n0[i].1;
                assert(new[i] == n0[i]);
            } else {
                assert(new[new.len() - 1] == new.last());
            }
        }
        assert forall|i: int| 0 <= i < new.len() && value_or_empty(old, (#[trigger] new[i]).0) != new[i].1 implies fields_of(
            d,
        ).contains(new[i].0) by {
            if i < n0.len() {
                assert(new[i] == n0[i]);
                let m = choose|m: int| 0 <= m < fields_of(d0).len() && fields_of(d0)[m] == n0[i].0;
                assert(d[m] == d0[m]);
                assert(fields_of(d)[m] == new[i].0);
            } else {
                assert(new.last() == new[i]);
                assert(fields_of(d)[d.len() - 1] == new[i].0);
            }
        }
    }
}

/// A diff loses nothing: applying the new values of the changes from `old`
/// to `new`, a state with the same fields, gives back `new`.
pub proof fn lemma_diff_replays(old: FieldsView, new: FieldsView, time: i64, id: Seq<char>)
    requires
        names_unique(old),
        same_shape(new, old),
    ensures
        apply_new_values(old, diff(old, new, time, id)) == new,
{
    let d = diff(old, new, time, id);
    let fs = fields_of(d);
    lemma_diff_entries(old, new, time, id);
    assert(same_shape(old, old));
    assert(names_unique(new)) by {
        assert forall|i: int, j: int| 0 <= i < j < new.len() implies new[i].0 != new[j].0 by {
            assert(new[i].0 == old[i].0 && new[j].0 == old[j].0);
        }
    }
    assert forall|i: int| 0 <= i < old.len() && !fs.contains(old[i].0) implies #[trigger] old[i].1
        == new[i].1 by {
        assert(new[i].0 == old[i].0);
        lemma_index_of(old, i);
        if value_or_empty(old, new[i].0) != new[i].1 {
            assert(fs.contains(new[i].0));
        }
    }
    assert(agree_except(old, new, fs));
    assert forall|m: int| 0 <= m < d.len() implies (#[trigger] d[m]).field == fs[m] && d[m].new_value
        == value_or_empty(new, fs[m]) && has_field(old, fs[m]) by {
        let i = choose|i: int| 0 <= i < new.len() && d[m].field == new[i].0 && d[m].new_value == new[i].1;
        lemma_index_of(new, i);
        assert(old[i].0 == new[i].0);
        lemma_index_of(old, i);
    }
    lemma_apply_final_values(old, new, old, d, fs);
}

} // verus!
