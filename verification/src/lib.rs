//! Orchestration core of a monorepo command runner: the dependency graph of
//! the workspace's packages, the scheduler that decides which package may run
//! next, and the search for the workspace root.

pub mod commands;
pub mod workspace;
