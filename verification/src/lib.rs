//! The decisions of an agent benchmark: which numbers an answer holds, how
//! requests are timed, and how the timings become a report.

pub mod agent;
pub mod answer;
pub mod arith;
pub mod config;
pub mod costs;
pub mod document;
pub mod double;
pub mod exact;
pub mod extract;
pub mod finding;
pub mod json;
pub mod judging;
pub mod literal;
pub mod metrics;
pub mod monitor;
pub mod order;
pub mod prompt;
pub mod reading;
pub mod report;
pub mod stats;
pub mod text;
pub mod timing;
pub mod wording;
