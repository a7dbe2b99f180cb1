//! The core of the zmaxion pipeline framework: topics, the slot-indexed list,
//! the scheduling decisions of the parallel executor, plugin ordering, pipe
//! parameters, and what the pipe attribute decides about injected topics.
use vstd::prelude::*;

pub mod access;
pub mod components;
pub mod ecs;
pub mod ergnomics;
pub mod flow;
pub mod injection;
pub mod param;
pub mod pipes;
pub mod plugin;
pub mod scheduler;
pub mod text;
pub mod topic;
pub mod vec_list;
pub mod worker;

verus! {
} // verus!
