//! A verified engine for building and executing CSP (Communicating
//! Sequential Processes) algebra terms: primitive processes, composition
//! operators, and an operational-semantics interpreter that enumerates the
//! events a process can perform, advances its state, and computes
//! trace-based behavioural summaries.

pub mod csp;
pub mod event;
pub mod event_sets;
pub mod external_choice;
pub mod internal_choice;
pub mod iterators;
pub mod laws;
pub mod models;
pub mod normalization;
pub mod prefix;
pub mod numbered_events;
pub mod primitive_events;
pub mod primitives;
pub mod process;
pub mod semantics;
pub mod sequential_composition;
