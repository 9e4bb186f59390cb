use agsim::state::{State, StateChangeEvent, StateValue};
use agsim::timeline::Timeline;

fn event(time: i64, agent: &str, field: &str, old: &str, new: &str) -> StateChangeEvent {
    StateChangeEvent {
        time,
        agent_id: agent.to_string(),
        field: field.to_string(),
        old_value: old.to_string(),
        new_value: new.to_string(),
    }
}

fn state_of(pairs: &[(&str, &str)]) -> StateValue {
    let mut s = StateValue::new();
    for (f, v) in pairs {
        s.update_field(f, v);
    }
    s
}

/// The events that a timeline implies: for each entry after the first and
/// each field it lists, a change from the previous entry's value to its own.
fn implied_events(t: &Timeline, agent: &str) -> Vec<StateChangeEvent> {
    let mut out = Vec::new();
    for k in 1..t.entries.len() {
        let prev = &t.entries[k - 1];
        let cur = &t.entries[k];
        for f in &cur.events {
            out.push(event(
                cur.timestamp,
                agent,
                f,
                &prev.state.get_field(f).unwrap_or_default(),
                &cur.state.get_field(f).unwrap_or_default(),
            ));
        }
    }
    out
}

#[test]
fn test_timeline() {
    let now = chrono::Utc::now().timestamp_millis();
    let entries: Vec<StateChangeEvent> = vec![
        event(now, "a", "property1", "0", "1"),
        event(now + 1000, "a", "property1", "1", "0"),
        event(now, "a", "property2", "0", "1"),
    ];

    let timeline = Timeline::generate(&entries).unwrap();
    assert_eq!(timeline.entries.len(), 3);
    assert_eq!(timeline.entries[0].timestamp, now - 1000);
    assert_eq!(timeline.entries[0].state, state_of(&[("property1", "0"), ("property2", "0")]));
    assert_eq!(timeline.entries[1].state, state_of(&[("property1", "1"), ("property2", "1")]));
    assert_eq!(timeline.entries[1].events, vec!["property1".to_string(), "property2".to_string()]);
    assert_eq!(timeline.entries[2].timestamp, now + 1000);
    assert_eq!(timeline.entries[2].state, state_of(&[("property1", "0"), ("property2", "1")]));
    assert_eq!(timeline.entries[2].events, vec!["property1".to_string()]);
}

#[test]
fn two_fields_at_one_time_make_two_entries() {
    let t0: i64 = 1_700_000_000_000;
    let events = vec![
        event(t0, "dev", "status", "idle", "busy"),
        event(t0, "dev", "load", "0", "5"),
    ];
    let timeline = Timeline::generate(&events).unwrap();
    assert_eq!(timeline.entries.len(), 2);
    let first = &timeline.entries[0];
    assert_eq!(first.timestamp, t0 - 1000);
    assert_eq!(first.state.get_field("status"), Some("idle".to_string()));
    assert_eq!(first.state.get_field("load"), Some("0".to_string()));
    assert!(first.events.is_empty());
    let second = &timeline.entries[1];
    assert_eq!(second.timestamp, t0);
    assert_eq!(second.state.get_field("status"), Some("busy".to_string()));
    assert_eq!(second.state.get_field("load"), Some("5".to_string()));
    assert_eq!(second.events.len(), 2);
    assert!(second.events.contains(&"status".to_string()));
    assert!(second.events.contains(&"load".to_string()));
}

#[test]
fn empty_log_has_no_timeline() {
    assert!(Timeline::generate(&Vec::new()).is_none());
    assert!(Timeline::generate_by_agent(&Vec::new()).is_empty());
}

#[test]
fn unsorted_log_is_sorted_stably() {
    let events = vec![
        event(30, "a", "x", "2", "3"),
        event(10, "a", "x", "0", "1"),
        event(20, "a", "y", "a", "b"),
        event(10, "a", "x", "1", "2"),
    ];
    let t = Timeline::generate(&events).unwrap();
    assert_eq!(t.entries.len(), 4);
    assert_eq!(t.entries[0].timestamp, 10 - 1000);
    assert_eq!(t.entries[0].state, state_of(&[("x", "0"), ("y", "a")]));
    assert_eq!(t.entries[1].state, state_of(&[("x", "2"), ("y", "a")]));
    assert_eq!(t.entries[1].events, vec!["x".to_string(), "x".to_string()]);
    assert_eq!(t.entries[2].timestamp, 20);
    assert_eq!(t.entries[2].state, state_of(&[("x", "2"), ("y", "b")]));
    assert_eq!(t.entries[3].timestamp, 30);
    assert_eq!(t.entries[3].state, state_of(&[("x", "3"), ("y", "b")]));
}

#[test]
fn reconstruction_of_implied_events_is_identity() {
    let events = vec![
        event(30, "a", "x", "2", "3"),
        event(10, "a", "x", "0", "1"),
        event(20, "a", "y", "a", "b"),
        event(10, "a", "x", "1", "2"),
        event(20, "a", "z", "p", "q"),
    ];
    let t = Timeline::generate(&events).unwrap();
    let again = Timeline::generate(&implied_events(&t, "a")).unwrap();
    assert_eq!(again, t);
}

#[test]
fn initial_entry_saturates_at_earliest_time() {
    let events = vec![event(i64::MIN + 5, "a", "x", "0", "1")];
    let t = Timeline::generate(&events).unwrap();
    assert_eq!(t.entries[0].timestamp, i64::MIN);
    assert_eq!(t.entries[1].timestamp, i64::MIN + 5);
}

#[test]
fn timelines_are_split_by_agent() {
    let events = vec![
        event(5, "b", "x", "0", "1"),
        event(3, "a", "x", "7", "8"),
        event(9, "b", "x", "1", "2"),
    ];
    let per_agent = Timeline::generate_by_agent(&events);
    assert_eq!(per_agent.len(), 2);
    assert_eq!(per_agent[0].agent_id, "b");
    assert_eq!(per_agent[1].agent_id, "a");
    let b = &per_agent[0].timeline;
    assert_eq!(b.entries.len(), 3);
    assert_eq!(b.entries[0].timestamp, 5 - 1000);
    assert_eq!(b.entries[0].state, state_of(&[("x", "0")]));
    assert_eq!(b.entries[2].state, state_of(&[("x", "2")]));
    let a = &per_agent[1].timeline;
    assert_eq!(a.entries.len(), 2);
    assert_eq!(a.entries[0].state, state_of(&[("x", "7")]));
    assert_eq!(a.entries[1].state, state_of(&[("x", "8")]));
}

#[test]
fn state_value_fields_keep_order_and_overwrite() {
    let mut s = StateValue::default();
    s.update_field("b", "1");
    s.update_field("a", "2");
    s.update_field("b", "3");
    assert_eq!(s.get_field_names(), vec!["b".to_string(), "a".to_string()]);
    assert_eq!(s.get_field("b"), Some("3".to_string()));
    assert_eq!(s.get_field("c"), None);
    let t = state_of(&[("b", "3"), ("a", "9"), ("c", "x")]);
    let d = s.diff(&t, 4, "ag");
    assert_eq!(d, vec![event(4, "ag", "a", "2", "9"), event(4, "ag", "c", "", "x")]);
}
