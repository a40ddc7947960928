//! kitcat: a rule engine that matches sample-file paths against a configurable
//! pattern, rewrites captured fields, renders destination paths from templates,
//! and groups the results into kits.

pub mod catalog;
pub mod dict;
pub mod ruleset;
pub mod runtimeconfig;
pub mod rx;
pub mod text;
