//! Majority vote detection: finds the vote, if any, that occurs in strictly
//! more than half of the positions of a ballot, in linear time and constant
//! extra space.

pub mod majority;
pub mod boyer_moore;

pub use crate::boyer_moore::boyer_moore;
