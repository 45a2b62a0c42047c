//! Questions to the whole graph. The answers borrow from the graph and
//! cannot change it; where they are grouped, it is by layer, bottom first.

use crate::graph::{lemma_node_found, SceneGraph};
use crate::layer::{described, edge_ref_views, edges_where, leading_to, node_ref_views};
use crate::node::{
    feature_ref_views, key_texts, with_features, with_keys, Edge, EdgeView, Feature, Node,
    NodeView,
};
use vstd::prelude::*;

verus! {

/// Of one layer, the edges that lead to `dst`.
pub open spec fn edges_into(dst: usize) -> spec_fn(Seq<NodeView>) -> Seq<EdgeView> {
    |l: Seq<NodeView>| edges_where(l, leading_to(dst))
}

impl SceneGraph {
    /// For each layer, the nodes that have a feature under every one of
    /// `keys`.
    pub fn nodes_having(&self, keys: &[&str]) -> (r: Vec<Vec<&Node>>)
        ensures
            r@.len() == self@.layers.len(),
            forall|i: int|
                0 <= i < r@.len() ==> node_ref_views((#[trigger] r@[i])@) == self@.layers[i].filter(
                    with_keys(key_texts(keys@)),
                ),
    {
        let mut out: Vec<Vec<&Node>> = Vec::new();
        let mut i: usize = 0;
        while i < self.layers.len()
            invariant
                i <= self.layers.len(),
                self@.layers.len() == self.layers.len(),
                out@.len() == i,
                forall|j: int|
                    0 <= j < i ==> node_ref_views((#[trigger] out@[j])@) == self@.layers[j].filter(
                        with_keys(key_texts(keys@)),
                    ),
            decreases self.layers.len() - i,
        {
            out.push(self.layers[i].nodes_having(keys));
            i += 1;
        }
        out
    }

    /// For each layer, the nodes that carry every one of the key-value pairs
    /// `features`.
    pub fn nodes_matching(&self, features: &[&Feature]) -> (r: Vec<Vec<&Node>>)
        ensures
            r@.len() == self@.layers.len(),
            forall|i: int|
                0 <= i < r@.len() ==> node_ref_views((#[trigger] r@[i])@) == self@.layers[i].filter(
                    with_features(feature_ref_views(features@)),
                ),
    {
        let mut out: Vec<Vec<&Node>> = Vec::new();
        let mut i: usize = 0;
        while i < self.layers.len()
            invariant
                i <= self.layers.len(),
                self@.layers.len() == self.layers.len(),
                out@.len() == i,
                forall|j: int|
                    0 <= j < i ==> node_ref_views((#[trigger] out@[j])@) == self@.layers[j].filter(
                        with_features(feature_ref_views(features@)),
                    ),
            decreases self.layers.len() - i,
        {
            out.push(self.layers[i].nodes_matching(features));
            i += 1;
        }
        out
    }

    /// For each layer, the edges with this description.
    pub fn edges_matching(&self, desc: &str) -> (r: Vec<Vec<&Edge>>)
        ensures
            r@.len() == self@.layers.len(),
            forall|i: int|
                0 <= i < r@.len() ==> edge_ref_views((#[trigger] r@[i])@) == edges_where(
                    self@.layers[i],
                    described(desc@),
                ),
    {
        let mut out: Vec<Vec<&Edge>> = Vec::new();
        let mut i: usize = 0;
        while i < self.layers.len()
            invariant
                i <= self.layers.len(),
                self@.layers.len() == self.layers.len(),
                out@.len() == i,
                forall|j: int|
                    0 <= j < i ==> edge_ref_views((#[trigger] out@[j])@) == edges_where(
                        self@.layers[j],
                        described(desc@),
                    ),
            decreases self.layers.len() - i,
        {
            out.push(self.layers[i].edges_matching(desc));
            i += 1;
        }
        out
    }

    /// All edges of the node `src`; none where the graph has no such node.
    pub fn edges_from(&self, src: usize) -> (r: Vec<&Edge>)
        ensures
            edge_ref_views(r@) == if self@.has_node(src) {
                self@.node(src).edges
            } else {
                Seq::empty()
            },
    {
        match self.locate(src) {
            Some((at, _)) => {
                proof {
                    lemma_node_found(self@.layers, src);
                }
                self.layers[at].edges_from(src)
            },
            None => {
                let out: Vec<&Edge> = Vec::new();
                out
            },
        }
    }

    /// The edges that lead to `dst`, of all layers, bottom layer first.
    pub fn edges_to(&self, dst: usize) -> (r: Vec<&Edge>)
        ensures
            edge_ref_views(r@) == self@.layers.flat_map(edges_into(dst)),
    {
        let mut out: Vec<&Edge> = Vec::new();
        let mut i: usize = 0;
        while i < self.layers.len()
            invariant
                i <= self.layers.len(),
                self@.layers.len() == self.layers.len(),
                edge_ref_views(out@).len() == out@.len(),
                edge_ref_views(out@) == self@.layers.take(i as int).flat_map(edges_into(dst)),
            decreases self.layers.len() - i,
        {
            proof {
                self@.layers.lemma_flat_map_take_append(edges_into(dst), i as int);
            }
            let mut more = self.layers[i].edges_to(dst);
            out.append(&mut more);
            i += 1;
        }
        assert(self@.layers.take(self@.layers.len() as int) =~= self@.layers);
        out
    }
}

} // verus!
