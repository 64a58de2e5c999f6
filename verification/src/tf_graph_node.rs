//! The key of a directed edge in the transform graph.

use vstd::prelude::*;

verus! {

/// A directed parent->child edge key.
#[derive(Clone, Debug)]
pub struct TfGraphNode {
    pub parent: String,
    pub child: String,
}

} // verus!
