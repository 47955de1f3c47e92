//! Cookie behaviour discovery, explicit policy evaluation and reviewed topology locks.
pub mod text;
pub mod keyed;
pub mod digest;
pub mod json;
pub mod model;
pub mod lexer;
pub mod cookie;
pub mod discovery;
pub mod graph;
pub mod policy;
pub mod enforce;
pub mod report;
pub mod cli;
