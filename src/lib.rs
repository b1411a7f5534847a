//! A discrete-event, single-bottleneck network simulator for data-center congestion control.
//!
//! Given a bottleneck link configuration, DCTCP parameters, a list of sources and a list of
//! flows, [`run`] produces one flow-completion-time [`Record`] per flow, holding both the
//! measured completion time and the ideal completion time on an empty network.
//!
//! The event loop ([`simulation`]) dispatches timestamped commands ([`event`]) to the
//! workload ([`workload`]), the sources ([`source`]), which multiplex their flows' DCTCP
//! senders ([`flow`]) round robin under window and rate limits, and the bottleneck
//! ([`bottleneck`]), whose port ([`port`]) serves its sub-queues in deficit round-robin
//! order and marks packets past a queue threshold.

pub mod bottleneck;
pub mod count;
pub mod determinism;
pub mod driver;
pub mod event;
pub mod flow;
pub mod ident;
pub mod packet;
pub mod port;
pub mod queue;
pub mod record;
pub mod schedule;
pub mod simulation;
pub mod source;
pub mod time;
pub mod units;
pub mod workload;

pub use driver::{run, validate, Config, Error};
pub use flow::FlowDesc;
pub use ident::{FlowId, SourceId};
pub use packet::Packet;
pub use port::QIndex;
pub use record::Record;
pub use source::SourceDesc;
pub use time::{Delta, Time};
