//! Tachyon: the verified core of a log and trace explorer.
//!
//! The library holds the domain types, the newline index over a byte buffer,
//! the viewport model, the visible-first search engine, trace spans and
//! their time-window filter, the synthetic log generator used by the
//! benchmarks, and the decisions of the interactive workbench.

pub mod types;
pub mod viewport;
pub mod synth;
pub mod ingest;
pub mod matching;
pub mod flags;
pub mod search;
pub mod span_scan;
pub mod trace;
pub mod workbench;
