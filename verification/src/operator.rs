//! The operators and the code that runs them.
pub mod ctx;
pub mod executor;
pub mod hasher;
pub mod joiner;
pub mod sorter;
