//! Election algorithms for nominated proof-of-stake: a balanced-heuristic
//! sequential election over a bipartite voter/candidate graph, followed by
//! star balancing, with assignment emission in ratio and staked form.

pub mod apply;
pub mod arith;
pub mod assignments;
pub mod balancing;
pub mod graph;
pub mod heuristic;
pub mod laws;
pub mod normalizing;
pub mod rational;
pub mod score;
pub mod support;
pub mod types;

use vstd::prelude::*;

verus! {

/// A numeric weight of a vote, most often the stake of the voter.
pub type VoteWeight = u64;

/// A type in which performing operations on vote weights is safe.
pub type ExtendedBalance = u128;

/// A winner, with the stake backing it.
pub type WithApprovalOf = (u64, ExtendedBalance);

/// The errors that might occur in this crate and in the compact-solution
/// companion that shares this error type.
#[derive(Debug, PartialEq, Eq)]
pub enum Error {
    /// While going from compact to staked, the stake of the edges went above
    /// the total and the last stake cannot be assigned.
    CompactStakeOverflow,
    /// The compact type has a voter whose number of targets is out of bound.
    CompactTargetOverflow,
    /// One of the index functions returned nothing.
    CompactInvalidIndex,
    /// An error occurred in some arithmetic operation.
    ArithmeticError(&'static str),
}

} // verus!
