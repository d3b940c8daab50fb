//! Builds command lines from a parameterised command and batches of input
//! records, and holds the rules by which such command lines are scheduled.

pub mod text;
pub mod invoker;
pub mod collector;
pub mod cli;
pub mod proc;
