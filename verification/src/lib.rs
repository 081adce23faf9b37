//! Atlas: a project map, a workflow runner and local accounts, with
//! the logic of each stated and proved.

pub mod afg;
pub mod auth;
pub mod graph;
pub mod text;
pub mod sort;
