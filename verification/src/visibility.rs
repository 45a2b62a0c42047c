//! The part of a graph below one node, and what an observer sees of it.
//!
//! The observer itself is no part of the graph: it is any function from a
//! position to yes or no. The graph asks it about the positions of the base
//! layer; a node of a layer above is kept where a kept node of the layer
//! below names it as its parent.

use crate::error::AtlasError;
use crate::graph::{has_node, layer_of, lemma_node_found, GraphView, SceneGraph};
use crate::laws::{law_base_layer_was_seen, law_visible_through_child};
use crate::layer::{
    found, ids, lookup, offspring, parents, picked, pruned, retained, seen, sighted, Layer,
};
use crate::node::{within, Coordinate, NodeView};
use vstd::prelude::*;

verus! {

/// The nodes that the subgraph below `root`, a node of the layer `top`, has
/// in the layer `at`, with all their edges: the root itself in its own layer,
/// and in each layer below the children of the nodes drawn from the layer
/// above, as far as that layer has them.
pub open spec fn drawn(layers: Seq<Seq<NodeView>>, top: int, root: usize, at: int) -> Seq<
    NodeView,
>
    decreases top - at,
{
    if at >= top {
        picked(layers[top], seq![root])
    } else {
        picked(layers[at], offspring(drawn(layers, top, root, at + 1)))
    }
}

/// The root as it stands in its subgraph: without a parent, and with no edge
/// but to itself.
pub open spec fn uprooted(layers: Seq<Seq<NodeView>>, root: usize) -> NodeView {
    lookup(layers[layer_of(layers, root)], root).with_edges(within(seq![root])).with_parent(None)
}

/// The layers of the subgraph below `root`: as many as the graph has, so
/// that every node keeps its layer index. The layers above the root are
/// empty, the root's layer holds the root alone, and each layer below holds
/// what was drawn from it, without the edges that lead out of the subgraph.
pub open spec fn subgraph_of(layers: Seq<Seq<NodeView>>, root: usize) -> Seq<Seq<NodeView>> {
    let top = layer_of(layers, root);
    Seq::new(
        layers.len(),
        |at: int|
            if at > top {
                Seq::empty()
            } else if at == top {
                seq![uprooted(layers, root)]
            } else {
                pruned(drawn(layers, top, root, at))
            },
    )
}

/// The layer `at` of what is visible of the layers, where `mask` marks the
/// visible nodes of the base layer: of the base layer the marked nodes, of a
/// layer above the nodes that a visible node of the layer below names as its
/// parent; in both without the edges to nodes that are not visible.
pub open spec fn visible(layers: Seq<Seq<NodeView>>, mask: Seq<bool>, at: int) -> Seq<NodeView>
    decreases at,
{
    if at <= 0 {
        seen(layers[0], mask)
    } else {
        retained(layers[at], parents(visible(layers, mask, at - 1)))
    }
}

/// Some node among `nodes` names `parent` as its parent.
pub open spec fn names_parent(nodes: Seq<NodeView>, parent: usize) -> bool {
    exists|j: int| 0 <= j < nodes.len() && (#[trigger] nodes[j]).pid == Some(parent)
}

/// What is visible of the layers, layer by layer.
pub open spec fn visible_layers(layers: Seq<Seq<NodeView>>, mask: Seq<bool>) -> Seq<
    Seq<NodeView>,
> {
    Seq::new(layers.len(), |at: int| visible(layers, mask, at))
}

impl SceneGraph {
    /// A new graph of the node `root_node_id` and all that descends from it:
    /// see [`subgraph_of`]. The root has no parent in it.
    pub fn subgraph(&self, root_node_id: usize) -> (r: Result<SceneGraph, AtlasError>)
        ensures
            match r {
                Ok(g) => self@.has_node(root_node_id) && g@ == (GraphView {
                    layers: subgraph_of(self@.layers, root_node_id),
                    node_counter: self.node_counter,
                }),
                Err(e) => e == AtlasError::NodeNotFound && !self@.has_node(root_node_id),
            },
    {
        let top = match self.layer_of(root_node_id) {
            Ok(i) => i,
            Err(e) => {
                return Err(e);
            },
        };
        let ghost layers = self@.layers;
        let n = self.layers.len();
        let mut out: Vec<Layer> = Vec::new();
        let mut i: usize = 0;
        while i < n
            invariant
                i <= n,
                out@.len() == i,
                forall|j: int| 0 <= j < i ==> (#[trigger] out@[j])@ == Seq::<NodeView>::empty(),
            decreases n - i,
        {
            out.push(Layer::new());
            i += 1;
        }
        let mut wanted: Vec<usize> = Vec::new();
        wanted.push(root_node_id);
        let mut left: usize = top + 1;
        while left > 0
            invariant
                left <= top + 1,
                top < n,
                n == self.layers.len(),
                layers == self@.layers,
                layers.len() == n,
                top == layer_of(layers, root_node_id),
                has_node(layers, root_node_id),
                ids(layers[top as int]).contains(root_node_id),
                out@.len() == n,
                wanted@ == if left == top + 1 {
                    seq![root_node_id]
                } else {
                    offspring(drawn(layers, top as int, root_node_id, left as int))
                },
                forall|j: int|
                    0 <= j < n ==> (#[trigger] out@[j])@ == if left <= j {
                        subgraph_of(layers, root_node_id)[j]
                    } else {
                        Seq::<NodeView>::empty()
                    },
            decreases left,
        {
            let at = left - 1;
            let (mut layer, next) = self.layers[at].pick(&wanted);
            let ghost raw = layer@;
            layer.prune();
            if at == top {
                let ghost root = lookup(layers[top as int], root_node_id);
                proof {
                    Seq::lemma_filter_map_singleton(root_node_id, found(layers[top as int]));
                    lemma_node_found(layers, root_node_id);
                    assert(ids(raw) =~= seq![root_node_id]);
                    assert(layer@ =~= seq![root.with_edges(within(seq![root_node_id]))]);
                }
                let ghost confined = layer@;
                layer.nodes[0].pid = None;
                proof {
                    assert(layer@[0] == confined[0].with_parent(None));
                }
            }
            out[at] = layer;
            wanted = next;
            left = at;
        }
        let g = SceneGraph { layers: out, node_counter: self.node_counter };
        assert(g@.layers =~= subgraph_of(layers, root_node_id));
        Ok(g)
    }

    /// A new graph of what is visible of this one, where `mask` marks the
    /// visible nodes of the base layer, position by position: see
    /// [`visible_layers`].
    pub fn visible_part(&self, mask: &[bool]) -> (r: SceneGraph)
        ensures
            r@ == (GraphView {
                layers: visible_layers(self@.layers, mask@),
                node_counter: self.node_counter,
            }),
    {
        let ghost layers = self@.layers;
        let n = self.layers.len();
        let mut out: Vec<Layer> = Vec::new();
        if n == 0 {
            let g = SceneGraph { layers: out, node_counter: self.node_counter };
            assert(g@.layers =~= visible_layers(layers, mask@));
            return g;
        }
        let base = self.layers[0].seen_nodes(mask);
        let mut keep = base.parents();
        out.push(base);
        let mut i: usize = 1;
        while i < n
            invariant
                1 <= i <= n,
                n == self.layers.len(),
                layers == self@.layers,
                layers.len() == n,
                out@.len() == i,
                forall|j: int| 0 <= j < i ==> (#[trigger] out@[j])@ == visible(layers, mask@, j),
                keep@ == parents(visible(layers, mask@, i as int - 1)),
            decreases n - i,
        {
            let mut layer = self.layers[i].clone();
            layer.retain_nodes(&keep);
            keep = layer.parents();
            out.push(layer);
            i += 1;
        }
        let g = SceneGraph { layers: out, node_counter: self.node_counter };
        assert(g@.layers =~= visible_layers(layers, mask@));
        g
    }

    /// A new graph of what the observer sees of the node `root_node_id` and
    /// its descendants: of the base layer the nodes with a position of which
    /// the observer says yes, and of each layer above the nodes that have a
    /// visible child.
    pub fn visible_subgraph<F: Fn(&Coordinate) -> bool>(
        &self,
        observer: F,
        root_node_id: usize,
    ) -> (r: Result<SceneGraph, AtlasError>)
        requires
            forall|c: &Coordinate| call_requires(observer, (c,)),
        ensures
            r is Ok <==> self@.has_node(root_node_id),
            match r {
                Ok(g) => {
                    &&& exists|mask: Seq<bool>|
                        sighted(observer, subgraph_of(self@.layers, root_node_id)[0], mask) && g@
                            == (GraphView {
                            layers: visible_layers(subgraph_of(self@.layers, root_node_id), mask),
                            node_counter: self.node_counter,
                        })
                    &&& g@.layers.len() == self@.layers.len()
                    &&& forall|i: int|
                        0 <= i < g@.layers[0].len() ==> (#[trigger] g@.layers[0][i]).coordinates
                            is Some && call_ensures(
                            observer,
                            (&g@.layers[0][i].coordinates->0,),
                            true,
                        )
                    &&& forall|at: int, i: int|
                        0 < at < g@.layers.len() && 0 <= i < g@.layers[at].len() ==> names_parent(
                            g@.layers[at - 1],
                            (#[trigger] g@.layers[at][i]).id,
                        )
                },
                Err(e) => e == AtlasError::NodeNotFound,
            },
    {
        let sub = match self.subgraph(root_node_id) {
            Ok(g) => g,
            Err(e) => {
                return Err(e);
            },
        };
        proof {
            assert(sub@.layers.len() == sub.layers@.len());
        }
        let mask = sub.layers[0].sightings(observer);
        let seen = sub.visible_part(&mask);
        proof {
            let base = subgraph_of(self@.layers, root_node_id);
            assert forall|i: int| 0 <= i < seen@.layers[0].len() implies (
            #[trigger] seen@.layers[0][i]).coordinates is Some && call_ensures(
                observer,
                (&seen@.layers[0][i].coordinates->0,),
                true,
            ) by {
                law_base_layer_was_seen(observer, base, mask@, i);
            }
            assert forall|at: int, i: int|
                0 < at < seen@.layers.len() && 0 <= i < seen@.layers[at].len() implies names_parent(
                seen@.layers[at - 1],
                (#[trigger] seen@.layers[at][i]).id,
            ) by {
                let j = law_visible_through_child(base, mask@, at, i);
            }
        }
        Ok(seen)
    }
}

} // verus!
