//! A dataflow engine: blocks wired into a dependency graph, all of which
//! compute and commit once per step, each after the blocks that feed it.
//!
//! - `dag`: the graph, the search for cycles, and the pass that visits the
//!   nodes in the order of their dependencies;
//! - `block`: what a block is, and how its inputs are bound;
//! - `model`: blocks in a graph, and the steps that run them;
//! - `task`: the states of the tasks of a step;
//! - `settle`, `step`: what a step makes of a model, and why it does not
//!   depend on the turns that the tasks take;
//! - `stdlib`: a constant source and a pass-through.

pub mod block;
pub mod dag;
pub mod model;
pub mod settle;
pub mod stdlib;
pub mod step;
pub mod task;
