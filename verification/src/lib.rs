//! Scene graph, exposure timelines, undoable edits and the editing session
//! of a 2D frame-by-frame animation engine.
use vstd::prelude::*;

pub mod graph;
pub mod timeline;
pub mod operations;
pub mod command;
pub mod engine;
pub mod geometry;
pub mod tools;

verus! {

} // verus!
