//! Discrete-event simulator of task placement for stateful serverless
//! platforms: random job DAGs, an event queue and four placement policies.

pub mod job;
pub mod rv_histo;
pub mod factory;
pub mod event;
pub mod placement;
pub mod simulation;
