//! Answers "why does my project depend on crate X?" over an already resolved
//! dependency graph: every acyclic chain of dependency edges from a root
//! package to an edge that asks for X, rendered one chain per line.
//!
//! - [`graph`] and [`metadata`] hold the resolver's report as plain data, with
//!   the mathematical model of each type.
//! - [`routes`] defines what a search finds, [`render`] how it is written out.
//! - [`search`] is the recursive search that collects all lines, [`walk`] the
//!   same search handing out one line at a time, [`report`] the answer for a
//!   whole workspace.
//! - [`laws`] proves what holds of every search.
//! - [`cli`] reads the command line, [`text`] compares strings.

pub mod cli;
pub mod graph;
pub mod laws;
pub mod metadata;
pub mod render;
pub mod report;
pub mod routes;
pub mod search;
pub mod text;
pub mod walk;
