//! Deduplication of path lists and the decisions of a recursive file walk.

pub mod log;
pub mod partition;
pub mod roots;
pub mod route;
pub mod step;
pub mod tally;
pub mod tour;
pub mod walk;
