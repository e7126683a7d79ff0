//! The extraction pipeline: its settings, the distribution of jobs over
//! workers, and the decisions of each of its actors.

pub mod config;
pub mod distribute;
pub mod report;
pub mod extraction;
pub mod indexing;
pub mod run;
