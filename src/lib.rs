//! Extracts the events of an iCalendar export, moves their times to a fixed
//! offset, keeps those at or after a cutoff and renders them as a sorted,
//! tab-separated report.

pub mod instant;
pub mod text;
pub mod scanner;
pub mod report;
pub mod problem;
