//! A content-centric map of a project: files and markdown sections as
//! nodes, typed relations between them as edges, and what can be
//! concluded from them.

pub mod digest;
pub mod error;
pub mod extract;
pub mod findings;
pub mod git;
pub mod globs;
pub mod impact;
pub mod impact_report;
pub mod index;
pub mod layer_check;
pub mod layers;
pub mod mentions;
pub mod model;
pub mod reach;
pub mod resolve;
pub mod rows;
pub mod scc;
pub mod walk;
pub mod watch;
