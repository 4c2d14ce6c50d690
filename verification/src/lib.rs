//! Time reconciliation for sprint planning: parses day-planner text into
//! time blocks, aggregates them over a date range into per-task totals,
//! filters task metadata by sprint tag, and merges both into a balanced,
//! sortable report of remaining versus allocated time per task.
#![verifier::loop_isolation(false)]
pub mod balance;
pub mod commons;
pub mod date;
pub mod planner;
pub mod task_file;
pub mod config;
pub mod duration;
pub mod jira;
pub mod text;
pub mod week;
