//! A message broker for language-model agents: priority queues per model, a
//! token-aware rate limiter, checkpoints with pause and resume, and fallback
//! routing, each with its behaviour stated as a contract and proved.

pub mod text;
pub mod clock;
pub mod ids;
pub mod usd;
pub mod envelope;
pub mod error;
pub mod limiter;
pub mod queue;
pub mod schedule;
pub mod model;
pub mod broker;
pub mod api;
pub mod limiter_laws;
pub mod broker_laws;
pub mod history;
pub mod task_laws;
