//! Core engine of a live inspector for a running discrete-event simulation.
//!
//! The crate models the mutable state of simulation entities as a
//! dynamically-typed value tree ([`value::Value`]), resolves dotted paths
//! against that tree ([`path::resolve`]), folds flat attribute listings into
//! nested trees ([`unify::unify`], [`unify::remove_empty`]), watches
//! addressed fields for transitions ([`breakpoint::Breakpoint`]), and
//! correlates structured log events with the entity that emitted them
//! ([`logs::LogRegistry`]). Rendering, the simulation engine itself, and all
//! process-level plumbing live outside this crate and talk to it through
//! plain values.

pub mod assoc;
pub mod breakpoint;
pub mod logs;
pub mod path;
pub mod snapshot;
pub mod stepping;
pub mod text;
pub mod unify;
pub mod value;
