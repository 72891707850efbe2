//! Stream processing: operators that records flow through, bounded pipes between them, event-time
//! windows, checkpoints and metrics, and a monitor of web requests built from these.
//!
//! What an operator, a window or a checkpoint store decides stands here, with a contract. Threads,
//! files, sleeping and floating-point arithmetic stand in the program around the library: it asks
//! for the next step, performs it and hands back what came of it.
pub mod channel;
pub mod checkpoint;
pub mod ieee;
pub mod metrics;
pub mod monitor;
pub mod operator;
pub mod pipeline;
pub mod sinks;
pub mod sources;
pub mod time;
pub mod window;
