//! The configuration file: its grammar and the model built from it.

pub mod config;
pub mod lines;
pub mod parser;
