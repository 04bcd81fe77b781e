//! Mutual exclusion.
pub mod mutex;
