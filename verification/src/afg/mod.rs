//! Declarative agent workflows: the spec shape, its validation, the
//! vocabulary runs are recorded in, and the decisions a run makes.

pub mod error;
pub mod gates;
pub mod live;
pub mod model;
pub mod parse;
pub mod runtime;
pub mod spec;
pub mod tool_scope;
