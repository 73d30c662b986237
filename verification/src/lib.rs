//! A linear, bounded, multi-stage processing pipeline.
//!
//! Items travel from stage to stage wrapped in a [`message::Message`], which
//! also carries item-level failures and the shutdown sentinel. Every stage is
//! a worker that reads one mailbox and writes the next one. The workers take
//! turns on the caller's thread, so a run is deterministic; a threaded
//! runtime can use the same per-message decisions through [`worker::route`]
//! and [`worker::outcome`].

pub mod chain;
pub mod channel;
pub mod guarantees;
pub mod lifecycle;
pub mod message;
pub mod orchestrator;
pub mod payload;
pub mod worker;

pub use chain::{Chain, Inlet, Stage};
pub use channel::{try_receive, try_send, Channel, DEFAULT_CAPACITY};
pub use lifecycle::Lifecycle;
pub use message::{Message, TError, TResult};
pub use orchestrator::{NotRunning, Pipeline, SubmitError};
pub use payload::{Type1, Type3};
pub use worker::{dispatch, outcome, route, worker, Route, WorkerStatus};
