//! Counts lines of code by file extension: a line classifier, an aggregator
//! keyed by category, a tree walker over an in-memory directory tree, and a
//! lenient command-line argument parser.

pub mod loc;
pub mod report;
pub mod walk;
pub mod args;
pub mod lang;
