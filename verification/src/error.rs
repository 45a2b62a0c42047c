use vstd::prelude::*;

verus! {

/// Every way an operation on the graph can fail.
#[derive(Debug)]
pub enum AtlasError {
    /// No edge from the source to the given destination.
    EdgeNotFound,
    /// No node with the given id in the searched layer or graph.
    NodeNotFound,
    /// The node carries no feature under the given key.
    FeatureNotFound(String),
    /// The layer index (first) is not below the number of layers (second).
    LayerOutOfBounds(usize, usize),
    /// The nester's layer (second) is not directly above the nestee's (first).
    InvalidLayersForNesting(usize, usize),
}

} // verus!
