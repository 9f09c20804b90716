//! An in-process, deterministic simulation substrate for message-passing
//! distributed protocols.
//!
//! Protocol participants ("nodes") are registered with a [`network::Network`],
//! which assigns each one a sequential identity, starts its run loop, and
//! conveys messages between nodes on a virtual clock with configurable
//! propagation delay.  No real sockets, real time, or persistent storage are
//! involved: conveyance is driven by a priority-ordered event queue keyed by
//! scheduled delivery time, with ties broken by insertion sequence, so a run
//! is reproducible and as fast as the host allows.

pub mod bc;
pub mod bft;
pub mod demo;
pub mod logging;
pub mod message;
pub mod network;
pub mod node;
pub mod numerals;
pub mod utils;
