use vstd::prelude::*;

pub mod exit_code;
pub mod command;
pub mod config;
pub mod deps;
pub mod engine;
pub mod flow;
pub mod gate;
pub mod levels;
pub mod mcp;
pub mod order;
pub mod report;
pub mod specdoc;
pub mod workspace;
pub mod worktree;

verus! {

/// Output format for rendered results.
#[derive(Debug, Clone, Copy, PartialEq, Eq, Structural)]
pub enum OutputFormat {
    Human,
    Json,
}

} // verus!
