use agsim::agent::{Agent, StateType};
use agsim::state::{State, StateValue};
use rand::rngs::StdRng;
use rand::SeedableRng;
use rand_distr::{Distribution, Exp};
use std::collections::HashMap;

const IDLE: u64 = 0;
const ACTIVE: u64 = 1;

fn mock_state(status: &str, counter: &str) -> StateValue {
    let mut s = StateValue::new();
    s.update_field("status", status);
    s.update_field("counter", counter);
    s
}

fn idle_factory() -> StateValue {
    mock_state("idle", "0")
}

fn active_factory() -> StateValue {
    mock_state("active", "1")
}

fn setup_agent() -> Agent {
    let mut transition_matrix = HashMap::new();
    transition_matrix.insert(
        IDLE,
        StateType {
            transitions: vec![(ACTIVE, 1)],
            mean_dwell_millis: 1000,
        },
    );
    transition_matrix.insert(
        ACTIVE,
        StateType {
            transitions: vec![(IDLE, 1)],
            mean_dwell_millis: 2000,
        },
    );
    Agent::new("test_agent".to_string(), IDLE, transition_matrix, idle_factory())
}

fn draw_millis(rng: &mut StdRng, mean_millis: u64) -> u64 {
    let exp = Exp::new(1000.0 / mean_millis as f64).unwrap();
    let seconds: f64 = exp.sample(rng);
    (seconds * 1000.0).round() as u64
}

#[test]
fn test_initialization() {
    let agent = setup_agent();
    assert_eq!(agent.id, "test_agent");
    assert_eq!(agent.current_state_type, IDLE);
    assert_eq!(agent.data.get_field("status"), Some("idle".to_string()));
}

#[test]
fn test_step_deterministic_transition() {
    let agent = setup_agent();
    let mut rng = StdRng::seed_from_u64(42);

    let next_state = agent.step(&mut rng);
    assert_eq!(next_state, Some(ACTIVE));
}

#[test]
fn test_peek_next_event_delay() {
    let agent = setup_agent();
    let mut rng = StdRng::seed_from_u64(42);

    let mean = agent.mean_dwell_millis().unwrap();
    let delay = agent.peek_next_event_delay(draw_millis(&mut rng, mean));
    assert!(delay.is_some());
    assert!(delay.unwrap() > 0);
}

#[test]
fn test_apply_transition_updates_state_and_logs_changes() {
    let mut agent = setup_agent();
    let time = chrono::Utc::now().timestamp_millis();

    let changes = agent.apply_transition(ACTIVE, active_factory(), time);

    assert_eq!(agent.current_state_type, ACTIVE);
    assert_eq!(agent.data.get_field("status"), Some("active".to_string()));
    assert_eq!(agent.data.get_field("counter"), Some("1".to_string()));

    assert_eq!(changes.len(), 2);

    let status_change = changes.iter().find(|c| c.field == "status").unwrap();
    assert_eq!(status_change.old_value, "idle");
    assert_eq!(status_change.new_value, "active");
    assert_eq!(status_change.time, time);
}

#[test]
fn test_apply_transition_no_redundant_logs() {
    let mut agent = setup_agent();
    let time = chrono::Utc::now().timestamp_millis();

    agent.apply_transition(ACTIVE, active_factory(), time);

    let changes = agent.apply_transition(ACTIVE, active_factory(), time);

    assert!(
        changes.is_empty(),
        "Should not generate events if values didn't change"
    );
}

#[test]
fn apply_transition_stamps_agent_and_order() {
    let mut agent = setup_agent();
    let changes = agent.apply_transition(ACTIVE, active_factory(), 5000);
    assert_eq!(changes[0].field, "status");
    assert_eq!(changes[1].field, "counter");
    assert_eq!(changes[1].old_value, "0");
    assert_eq!(changes[1].new_value, "1");
    assert!(changes.iter().all(|c| c.agent_id == "test_agent" && c.time == 5000));
}

#[test]
fn identical_state_changes_category_only() {
    let mut agent = setup_agent();
    let changes = agent.apply_transition(ACTIVE, idle_factory(), 7);
    assert!(changes.is_empty());
    assert_eq!(agent.current_state_type, ACTIVE);
    assert_eq!(agent.data, idle_factory());
}

#[test]
fn transition_to_absent_category_is_silent() {
    let mut agent = setup_agent();
    let changes = agent.apply_transition(99, active_factory(), 7);
    assert!(changes.is_empty());
    assert_eq!(agent.current_state_type, 99);
    assert_eq!(agent.data, idle_factory());
    let mut rng = StdRng::seed_from_u64(1);
    assert_eq!(agent.step(&mut rng), None);
    assert_eq!(agent.mean_dwell_millis(), None);
    assert_eq!(agent.peek_next_event_delay(10), None);
}

#[test]
fn terminal_category_does_not_step() {
    let mut table = HashMap::new();
    table.insert(IDLE, StateType { transitions: vec![], mean_dwell_millis: 10 });
    let agent = Agent::new("t".to_string(), IDLE, table, idle_factory());
    let mut rng = StdRng::seed_from_u64(3);
    assert_eq!(agent.step(&mut rng), None);
}

#[test]
fn zero_weights_do_not_step() {
    let mut table = HashMap::new();
    table.insert(IDLE, StateType { transitions: vec![(ACTIVE, 0), (IDLE, 0)], mean_dwell_millis: 10 });
    let agent = Agent::new("t".to_string(), IDLE, table, idle_factory());
    let mut rng = StdRng::seed_from_u64(3);
    assert_eq!(agent.step(&mut rng), None);
}

#[test]
fn overflowing_weights_do_not_step() {
    let mut table = HashMap::new();
    table.insert(IDLE, StateType { transitions: vec![(ACTIVE, u64::MAX), (IDLE, 1)], mean_dwell_millis: 10 });
    let agent = Agent::new("t".to_string(), IDLE, table, idle_factory());
    let mut rng = StdRng::seed_from_u64(3);
    assert_eq!(agent.step(&mut rng), None);
}

#[test]
fn step_never_picks_zero_weight() {
    let mut table = HashMap::new();
    table.insert(IDLE, StateType { transitions: vec![(7, 0), (8, 3), (9, 0)], mean_dwell_millis: 10 });
    let agent = Agent::new("t".to_string(), IDLE, table, idle_factory());
    let mut rng = StdRng::seed_from_u64(11);
    for _ in 0..200 {
        assert_eq!(agent.step(&mut rng), Some(8));
    }
}

#[test]
fn zero_mean_dwell_is_instant() {
    let mut table = HashMap::new();
    table.insert(IDLE, StateType { transitions: vec![(IDLE, 1)], mean_dwell_millis: 0 });
    let agent = Agent::new("t".to_string(), IDLE, table, idle_factory());
    assert_eq!(agent.peek_next_event_delay(1234), Some(0));
    let agent = setup_agent();
    assert_eq!(agent.peek_next_event_delay(1234), Some(1234));
}
