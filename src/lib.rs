//! A discrete-event simulation engine for populations of agents that move
//! between named categories as continuous-time Markov chains, and the
//! reconstruction of per-agent timelines from the change log it produces.
//!
//! Conventions: times are milliseconds since the Unix epoch; categories are
//! integer labels chosen by the caller; successor weights are integers; a
//! mean dwell time of zero makes a transition instantaneous; transitions due
//! at the same instant fire in order of agent index, so a seeded run is
//! reproducible.
pub mod agent;
pub mod replay;
pub mod simulation;
pub mod state;
pub mod timeline;
