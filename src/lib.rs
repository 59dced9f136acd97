//! A harness that runs a candidate program against many inputs and
//! classifies each run, with a small language that expands compact input
//! descriptions into concrete test cases.

pub mod bracket;
pub mod cli;
pub mod job;
pub mod pal;
pub mod parser;
pub mod paths;
pub mod pool;
pub mod text;
