//! Relation mining over object-centric event logs.
//!
//! An object-centric event log names, for each event, the set of objects the
//! event involves. From such a log this crate derives a directed,
//! multi-relational graph over the objects: nodes are the objects that occur
//! in at least one event, and each directed edge carries, per relation kind,
//! the set of event identifiers that justify the relation.
#![verifier::loop_isolation(false)]

pub mod generation;
pub mod laws;
pub mod log;
pub mod ocdg;
pub mod relations;
