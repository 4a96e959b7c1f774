//! An in-memory open-addressing hash table, configurable along four axes
//! (hash function, collision-resolution scheme, growth policy, load-factor
//! threshold), together with a hash equi-join operator built on top of it.

pub mod aggregation;
pub mod common;
pub mod hash;
pub mod join;
