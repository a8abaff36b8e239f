//! Oblivious-operator library: the data registry, the operator executor,
//! the merge join and their helpers.
pub mod context;
pub mod fbs_vec;
pub mod getter;
pub mod logger;
pub mod manager;
pub mod operator;
pub mod strmap;
pub mod util;
