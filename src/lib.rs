//! Checks the outcome of automated package update runs from their logs.
pub mod log_analysis;
pub mod text;
pub mod package_checker;
