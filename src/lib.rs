//! Printing the tail of byte streams: offset selection by bytes, by the last
//! records or from a given record on, a bounded streamer, and the state machine
//! that follows a growing file through truncation and rotation.
use vstd::prelude::*;

pub mod args;
pub mod follow;
pub mod records;
pub mod select;

verus! {

} // verus!
