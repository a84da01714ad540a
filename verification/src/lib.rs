//! Continuous-batching inference runtime: the shared protocol types, a mock
//! engine with its model, and the scheduler's request-lifecycle state machine.

pub mod types;
pub mod model;
pub mod engine;
pub mod scheduler;
pub mod lifecycle;
pub mod behaviour;
