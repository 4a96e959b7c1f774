//! The aggregation-side face of the equi-join operator: the same predicate
//! and hash equi-join types the join module defines.

pub use crate::join::HashEqJoin;
pub use crate::join::JoinPredicate;
