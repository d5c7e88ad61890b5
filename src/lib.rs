//! Selection engine for sparse working trees: which catalog projects and which
//! target coordinates are selected, how a batch of add/remove requests changes
//! that selection all at once or not at all, and the stored form it is saved in.

use vstd::prelude::*;

pub mod order;
pub mod target;
pub mod project;
pub mod operation;
pub mod selection;
pub mod selections;

verus! {

} // verus!
