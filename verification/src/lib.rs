//! Threat-intelligence query and correlation engine.
//!
//! The crate implements the tag-filter expression engine and the
//! correlation pipeline of a threat-intelligence service: filter strings
//! are compiled into disjunctive-normal-form predicates over tag sets,
//! evaluated in memory or translated into store queries, and an
//! infrastructure description is correlated against snapshots of the
//! entity store to produce a ranked report of relevant threat actors,
//! techniques, tactics, and vulnerabilities.

pub mod analyze;
pub mod cli;
pub mod filter;
pub mod ingest;
pub mod labels;
pub mod models;
pub mod parser;
pub mod query;
pub mod score;
pub mod text;
pub mod utils;
