//! Core of a single-threaded relay reactor: a bounded registry of live
//! connections, the symmetric table of client/upstream links, the set of
//! connections that outlive their partner, and the decisions that drive one
//! readiness event from its delivery to the end of the cycle.
//!
//! The crate performs no socket work. A driver polls the operating system,
//! carries out each [`reactor::Action`] and reports what happened.

pub mod registry;
pub mod secret;
pub mod tokens;
pub mod links;
pub mod reactor;
