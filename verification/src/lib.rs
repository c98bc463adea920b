//! Components for building and executing simple flow-based programming
//! graphs: nodes with input and output ports are wired into a directed
//! acyclic graph, and repeated execution ticks propagate demand backward
//! and data values forward along the connections.

use vstd::prelude::*;

pub mod flow;

pub mod node;

pub mod port;

mod order;

verus! {

// Restricts the visibility of trait methods
#[derive(Debug)]
struct SealedTag;

} // verus!
