use agsim::agent::{Agent, StateType};
use agsim::simulation::{Reply, Request, Simulation, Step};
use agsim::state::{State, StateChangeEvent, StateValue};
use rand::rngs::StdRng;
use rand::SeedableRng;
use rand_distr::{Distribution, Exp};
use std::collections::HashMap;

const MODE_A: u64 = 0;
const MODE_B: u64 = 1;

fn val_state(v: &str) -> StateValue {
    let mut s = StateValue::new();
    s.update_field("val", v);
    s
}

fn factory(category: u64) -> StateValue {
    if category == MODE_A {
        val_state("A")
    } else {
        val_state("B")
    }
}

fn create_test_agent(id: &str) -> Agent {
    let mut transitions = HashMap::new();
    transitions.insert(MODE_A, StateType { transitions: vec![(MODE_B, 1)], mean_dwell_millis: 100_000 });
    transitions.insert(MODE_B, StateType { transitions: vec![(MODE_A, 1)], mean_dwell_millis: 100_000 });
    Agent::new(id.to_string(), MODE_A, transitions, factory(MODE_A))
}

fn fast_agent(id: &str) -> Agent {
    let mut transitions = HashMap::new();
    transitions.insert(MODE_A, StateType { transitions: vec![(MODE_B, 1)], mean_dwell_millis: 10 });
    transitions.insert(MODE_B, StateType { transitions: vec![(MODE_A, 1)], mean_dwell_millis: 10 });
    Agent::new(id.to_string(), MODE_A, transitions, factory(MODE_A))
}

fn draw_millis(rng: &mut StdRng, mean_millis: u64) -> u64 {
    let exp = Exp::new(1000.0 / mean_millis as f64).unwrap();
    let seconds: f64 = exp.sample(rng);
    (seconds * 1000.0).round() as u64
}

/// Answers the run's requests until it is over; returns the events handed out.
fn finish(sim: &mut Simulation, first: Step, rng: &mut StdRng) -> Vec<StateChangeEvent> {
    let mut out = Vec::new();
    let mut step = first;
    loop {
        out.extend(step.events);
        step = match step.request {
            Request::Delay { mean_millis, .. } => {
                let d = draw_millis(rng, mean_millis);
                sim.resume(Reply::Delay(d), rng)
            }
            Request::Generate { category, .. } => sim.resume(Reply::State(factory(category)), rng),
            Request::Finished => break,
        };
    }
    out
}

fn run_batch(sim: &mut Simulation, duration: i64, rng: &mut StdRng) -> Vec<StateChangeEvent> {
    let first = sim.run(duration, rng);
    finish(sim, first, rng)
}

#[test]
fn test_simulation_initialization() {
    let agent = create_test_agent("ag1");
    let start_time = chrono::Utc::now().timestamp_millis();
    let sim = Simulation::new(vec![agent], start_time);

    assert_eq!(sim.current_time, start_time);
    assert!(sim.event_log.is_empty());
}

#[test]
fn test_simulation_run_advances_time() {
    let agent = create_test_agent("ag1");
    let start_time = chrono::Utc::now().timestamp_millis();
    let mut sim = Simulation::new(vec![agent], start_time);
    // a seed whose first dwell draw falls inside the one-second run
    let mut rng = StdRng::seed_from_u64(86);

    let duration = 1000;
    let events = run_batch(&mut sim, duration, &mut rng);

    assert!(!events.is_empty());
    assert!(!sim.event_log.is_empty());

    assert!(sim.current_time > start_time);
    assert!(sim.current_time <= start_time + duration);
}

#[test]
fn test_simulation_log_integrity() {
    let agent = create_test_agent("ag1");
    let start_time = chrono::Utc::now().timestamp_millis();
    let mut sim = Simulation::new(vec![agent], start_time);
    let mut rng = StdRng::seed_from_u64(100);

    run_batch(&mut sim, 100, &mut rng);

    let mut prev_time = start_time;
    for event in &sim.event_log {
        assert!(event.time >= prev_time, "Events must be strictly ordered by time");
        prev_time = event.time;
    }
}

#[test]
fn test_master_timeline_generation() {
    let agent = create_test_agent("ag1");
    let mut sim = Simulation::new(vec![agent], chrono::Utc::now().timestamp_millis());
    // a seed whose first dwell draw falls inside the 50 ms run
    let mut rng = StdRng::seed_from_u64(2077);

    run_batch(&mut sim, 50, &mut rng);

    let timeline = sim.generate_master_timeline();
    assert!(timeline.is_some());

    let tl = timeline.unwrap();
    assert!(!tl.entries.is_empty());
}

#[test]
fn batch_log_is_time_ordered_across_agents() {
    let agents = vec![fast_agent("a"), fast_agent("b"), fast_agent("c")];
    let mut sim = Simulation::new(agents, 0);
    let mut rng = StdRng::seed_from_u64(9);
    let events = run_batch(&mut sim, 5_000, &mut rng);
    assert!(events.len() > 100);
    assert!(sim.event_log.windows(2).all(|w| w[0].time <= w[1].time));
    assert!(sim.event_log.iter().all(|e| e.time >= 0 && e.time <= 5_000));
    assert_eq!(events, sim.event_log);
}

#[test]
fn batch_and_streaming_agree() {
    let mut batch = Simulation::new(vec![fast_agent("a"), fast_agent("b")], 0);
    let mut rng = StdRng::seed_from_u64(77);
    let logged = run_batch(&mut batch, 2_000, &mut rng);

    let mut streaming = Simulation::new(vec![fast_agent("a"), fast_agent("b")], 0);
    let mut rng = StdRng::seed_from_u64(77);
    let first = streaming.run_streaming(2_000, &mut rng);
    let streamed = finish(&mut streaming, first, &mut rng);

    assert!(!logged.is_empty());
    assert_eq!(batch.event_log, streamed);
    assert!(streaming.event_log.is_empty());
}

#[test]
fn terminal_agent_falls_silent() {
    let mut table = HashMap::new();
    table.insert(MODE_A, StateType { transitions: vec![(MODE_B, 1)], mean_dwell_millis: 10 });
    table.insert(MODE_B, StateType { transitions: vec![], mean_dwell_millis: 10 });
    let agent = Agent::new("t".to_string(), MODE_A, table, factory(MODE_A));
    let mut sim = Simulation::new(vec![agent, fast_agent("other")], 0);
    let mut rng = StdRng::seed_from_u64(5);
    let events = run_batch(&mut sim, 10_000, &mut rng);
    let own: Vec<_> = events.iter().filter(|e| e.agent_id == "t").collect();
    assert_eq!(own.len(), 1);
    assert_eq!(own[0].new_value, "B");
    assert_eq!(sim.agents[0].current_state_type, MODE_B);
    assert!(events.iter().filter(|e| e.agent_id == "other").count() > 10);
    assert!(sim.queue.iter().all(|e| e.time > 10_000 && e.agent_index != 0));
}

#[test]
fn absent_target_is_skipped() {
    let mut table = HashMap::new();
    table.insert(MODE_A, StateType { transitions: vec![(42, 1)], mean_dwell_millis: 10 });
    let agent = Agent::new("t".to_string(), MODE_A, table, factory(MODE_A));
    let mut sim = Simulation::new(vec![agent], 0);
    let mut rng = StdRng::seed_from_u64(5);
    let events = run_batch(&mut sim, 10_000, &mut rng);
    assert!(events.is_empty());
    assert_eq!(sim.agents[0].current_state_type, 42);
}

#[test]
fn end_equal_to_start_logs_nothing() {
    let agents = vec![create_test_agent("a"), create_test_agent("b")];
    let mut sim = Simulation::new(agents, 1_000);
    let mut rng = StdRng::seed_from_u64(8);
    let events = run_batch(&mut sim, 0, &mut rng);
    assert!(events.is_empty());
    assert!(sim.event_log.is_empty());
    assert_eq!(sim.current_time, 1_000);
}

#[test]
fn zero_mean_dwell_fires_at_start() {
    let mut table = HashMap::new();
    table.insert(MODE_A, StateType { transitions: vec![(MODE_B, 1)], mean_dwell_millis: 0 });
    table.insert(MODE_B, StateType { transitions: vec![], mean_dwell_millis: 0 });
    let agent = Agent::new("z".to_string(), MODE_A, table, factory(MODE_A));
    let mut sim = Simulation::new(vec![agent], 1_000);
    let mut rng = StdRng::seed_from_u64(8);
    let events = run_batch(&mut sim, 0, &mut rng);
    assert_eq!(events.len(), 1);
    assert_eq!(events[0].time, 1_000);
}

#[test]
fn mean_gap_matches_mean_dwell() {
    let mut table = HashMap::new();
    table.insert(MODE_A, StateType { transitions: vec![(MODE_B, 1)], mean_dwell_millis: 3_600_000 });
    table.insert(MODE_B, StateType { transitions: vec![(MODE_A, 1)], mean_dwell_millis: 3_600_000 });
    let agent = Agent::new("h".to_string(), MODE_A, table, factory(MODE_A));
    let mut sim = Simulation::new(vec![agent], 0);
    let mut rng = StdRng::seed_from_u64(2024);
    let hours: i64 = 1000;
    let events = run_batch(&mut sim, hours * 3_600_000, &mut rng);
    assert!(events.len() > 800);
    let first = events[0].time as f64;
    let last = events[events.len() - 1].time as f64;
    let mean_gap_seconds = (last - first) / 1000.0 / (events.len() - 1) as f64;
    assert!((mean_gap_seconds - 3600.0).abs() < 360.0, "mean gap {}", mean_gap_seconds);
}

#[test]
fn mismatched_reply_changes_nothing() {
    let mut sim = Simulation::new(vec![create_test_agent("a")], 0);
    let mut rng = StdRng::seed_from_u64(1);
    let first = sim.run(10_000_000, &mut rng);
    assert_eq!(first.request, Request::Delay { agent: 0, mean_millis: 100_000 });
    let again = sim.resume(Reply::State(val_state("x")), &mut rng);
    assert_eq!(again.request, first.request);
    assert!(again.events.is_empty());
}
