//! Rule-admission schedulers for an equality-saturation engine.
//!
//! At every saturation iteration the driver asks the scheduler whether it may
//! stop, and for every rule hands it the matches that the matcher found; the
//! scheduler answers with the matches that are admitted for application.

pub mod matches;
pub mod scheduler;
pub mod run_bfs_default;
pub mod run_dfs;
pub mod run_beam;
pub mod rule_stats;
pub mod run_backoff;
pub mod run_dfs_backoff;
