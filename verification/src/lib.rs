//! Core of a multi-source log analysis engine.
//!
//! Log files are parsed into per-source streams of timestamped entries,
//! merged into one chronological stream, run through compiled extraction
//! rules that maintain per-source state, and matched against ordered
//! state-predicate patterns.  A separate entry point clusters lines by
//! structural template.

pub mod assoc;
pub mod cluster;
pub mod convert;
pub mod driver;
pub mod export;
pub mod jsonx;
pub mod lines;
pub mod merge;
pub mod model;
pub mod numeric;
pub mod pattern;
pub mod regexes;
pub mod rules;
pub mod state;
pub mod suggest;
pub mod text;
pub mod timeparse;
pub mod times;
