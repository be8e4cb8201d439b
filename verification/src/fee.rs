//! Fees: what pending work pays, and how it ranks.
pub mod args;
pub mod layout;
pub mod order;
pub mod queue;
pub mod types;
