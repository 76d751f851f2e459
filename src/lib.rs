//! Counting the occurrences of a byte pattern in a file split into
//! contiguous ranges that are scanned independently and summed.

pub mod aggregate;
pub mod error;
pub mod matching;
pub mod pipeline;
pub mod planner;
