//! License compatibility evaluation.
//!
//! Two independent models decide whether a host license may depend on
//! subordinate licenses:
//!
//! * a pillar model, which buckets each license into a coarse category
//!   and compares categories through a fixed or caller-supplied matrix
//!   (see [`classification`]);
//! * a data-driven model, which records an explicit relation per license
//!   pair and aggregates a batch of lookups into one verdict
//!   (see [`compatibility`]).
//!
//! Both models sit on a persistent key-value store ([`dict::Dict`]) whose
//! contents round-trip through a binary encoding ([`codec`]).

pub mod classification;
pub mod codec;
pub mod compatibility;
pub mod dict;
pub mod ingest;
pub mod store;
pub mod text;
