//! Execution bridge of a ledger node: the decisions that turn a consensus-ordered
//! stream of transactions into a strictly sequential execution trace.
//!
//! Every component is a deterministic machine over plain values. The caller performs
//! the outside work (sockets, timers, the consensus engine, the processor) and reports
//! what happened; the machine answers with the next thing to do.

pub mod events;
pub mod poller;
pub mod executor;
pub mod dvm;
pub mod server;
pub mod connection;
pub mod config;
