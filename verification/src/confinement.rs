//! Edges stay within their layer: an edge leads from the node that holds it
//! to a node of the same layer. Adding an edge keeps it so, and so does
//! deleting nodes.

use crate::graph::{
    cascade, deleted, detached, has_node, layer_of, lemma_node_found, nested,
};
use crate::keeping::lemma_nested_same;
use crate::layer::{ids, lookup, pruned, without_node};
use crate::lookup::{first, lemma_first_exists};
use crate::node::{dsts, not_to, within, EdgeView, NodeView};
use crate::visibility::{subgraph_of, visible, visible_layers};
use vstd::prelude::*;

verus! {

/// Every edge of the layer leads to a node of the layer.
pub open spec fn edges_within(nodes: Seq<NodeView>) -> bool {
    forall|i: int, j: int|
        0 <= i < nodes.len() && 0 <= j < nodes[i].edges.len() ==> ids(nodes).contains(
            (#[trigger] nodes[i].edges[j]).dst,
        )
}

/// Every edge of the layer leads from the node that holds it to a node of
/// the layer.
pub open spec fn edges_confined(nodes: Seq<NodeView>) -> bool {
    &&& edges_within(nodes)
    &&& forall|i: int, j: int|
        0 <= i < nodes.len() && 0 <= j < nodes[i].edges.len() ==> (#[trigger] nodes[i].edges[j]).src
            == nodes[i].id
}

/// In every layer, every edge leads from the node that holds it to a node of
/// that layer: no edge crosses from one layer into another.
pub open spec fn all_edges_confined(layers: Seq<Seq<NodeView>>) -> bool {
    forall|l: int| 0 <= l < layers.len() ==> edges_confined(#[trigger] layers[l])
}

/// An edge that was added between two nodes of a layer is confined to the
/// layer like the edges that were there.
pub proof fn law_added_edge_is_confined(
    nodes: Seq<NodeView>,
    src: usize,
    dst: usize,
    desc: Seq<char>,
)
    requires
        edges_confined(nodes),
        ids(nodes).contains(src),
        ids(nodes).contains(dst),
    ensures
        edges_confined(
            nodes.update(
                first(ids(nodes), src),
                lookup(nodes, src).with_edge(EdgeView { src, dst, desc }),
            ),
        ),
{
    lemma_first_exists(ids(nodes), src);
    let at = first(ids(nodes), src);
    let after = nodes.update(at, lookup(nodes, src).with_edge(EdgeView { src, dst, desc }));
    assert(ids(after) =~= ids(nodes));
    assert forall|i: int, j: int| 0 <= i < after.len() && 0 <= j < after[i].edges.len() implies ids(
        after,
    ).contains((#[trigger] after[i].edges[j]).dst) && after[i].edges[j].src == after[i].id by {
    }
}

/// Taking a node out of a layer leaves no edge behind that leads to it: the
/// edges of the rest are confined as before.
pub proof fn lemma_without_node_confined(nodes: Seq<NodeView>, id: usize)
    requires
        ids(nodes).contains(id),
    ensures
        edges_within(nodes) ==> edges_within(without_node(nodes, id)),
        edges_confined(nodes) ==> edges_confined(without_node(nodes, id)),
{
    lemma_first_exists(ids(nodes), id);
    let at = first(ids(nodes), id);
    let after = without_node(nodes, id);
    assert forall|i: int, j: int| 0 <= i < after.len() && 0 <= j < after[i].edges.len() implies (
    edges_within(nodes) ==> ids(after).contains((#[trigger] after[i].edges[j]).dst)) && (
    edges_confined(nodes) ==> after[i].edges[j].src == after[i].id) by {
        let a = if i < at { i } else { i + 1 };
        let kept = nodes[a].edges.filter(not_to(id));
        let e = kept[j];
        nodes[a].edges.lemma_filter_contains_rev(not_to(id), e);
        if edges_within(nodes) {
            let t = choose|t: int| 0 <= t < ids(nodes).len() && ids(nodes)[t] == e.dst;
            let u = if t < at { t } else { t - 1 };
            assert(ids(after)[u] == e.dst);
        }
    }
}

/// Deleting nodes, layer by layer downwards, leaves the edges of every
/// layer confined.
pub proof fn lemma_cascade_confined(layers: Seq<Seq<NodeView>>, at: int, targets: Seq<usize>)
    requires
        forall|l: int| 0 <= l < layers.len() ==> edges_confined(#[trigger] layers[l]),
    ensures
        cascade(layers, at, targets).0.len() == layers.len(),
        forall|l: int|
            0 <= l < layers.len() ==> edges_confined(#[trigger] cascade(layers, at, targets).0[l]),
    decreases at + 1, targets.len(),
{
    if targets.len() > 0 && 0 <= at < layers.len() && ids(layers[at]).contains(targets[0]) {
        let gone = lookup(layers[at], targets[0]);
        let next = layers.update(at, without_node(layers[at], targets[0]));
        lemma_without_node_confined(layers[at], targets[0]);
        lemma_cascade_confined(next, at - 1, gone.children);
        let (below, failed) = cascade(next, at - 1, gone.children);
        if failed is None {
            lemma_cascade_confined(below, at, targets.drop_first());
        }
    }
}

/// Deleting a node leaves the edges of every layer confined, whether the
/// deletion succeeds or ends early.
pub proof fn law_delete_keeps_edges_confined(layers: Seq<Seq<NodeView>>, n: usize)
    requires
        all_edges_confined(layers),
    ensures
        deleted(layers, n).0.len() == layers.len(),
        all_edges_confined(deleted(layers, n).0),
{
    if has_node(layers, n) {
        lemma_node_found(layers, n);
        let at = layer_of(layers, n);
        let (loose, failed) = detached(layers, at, n);
        assert forall|l: int| 0 <= l < loose.len() implies edges_confined(#[trigger] loose[l]) by {
            if l == at + 1 && loose[l] != layers[l] {
                let p = lookup(layers[at], n).pid->0;
                lemma_first_exists(ids(layers[l]), p);
                assert(ids(loose[l]) =~= ids(layers[l]));
            }
        }
        if failed is None {
            lemma_cascade_confined(loose, at, seq![n]);
        }
    }
}

/// What is left of a layer after its edges were pruned has no edge that
/// leads out of it.
pub proof fn lemma_pruned_within(nodes: Seq<NodeView>)
    ensures
        edges_within(pruned(nodes)),
{
    let after = pruned(nodes);
    assert(ids(after) =~= ids(nodes));
}

/// In what is visible of a graph, every edge leads to a visible node of the
/// same layer.
pub proof fn law_visible_edges_lead_to_visible(
    layers: Seq<Seq<NodeView>>,
    mask: Seq<bool>,
    at: int,
)
    requires
        0 <= at < layers.len(),
    ensures
        edges_within(visible_layers(layers, mask)[at]),
{
    if at <= 0 {
        lemma_pruned_within(crate::lookup::masked(layers[0], mask));
    } else {
        lemma_pruned_within(
            layers[at].filter(
                crate::layer::listed(crate::layer::parents(visible(layers, mask, at - 1))),
            ),
        );
    }
}

/// In the subgraph below a node, every edge leads to a node of the subgraph,
/// in the same layer.
pub proof fn law_subgraph_edges_lead_into_subgraph(
    layers: Seq<Seq<NodeView>>,
    root: usize,
    at: int,
)
    requires
        has_node(layers, root),
        0 <= at < layers.len(),
    ensures
        edges_within(subgraph_of(layers, root)[at]),
{
    lemma_node_found(layers, root);
    let top = layer_of(layers, root);
    let sub = subgraph_of(layers, root)[at];
    if at < top {
        lemma_pruned_within(crate::visibility::drawn(layers, top, root, at));
    } else if at == top {
        assert(ids(sub) =~= seq![root]);
    }
}

/// Taking an edge out of a node leaves the edges of the layer confined.
pub proof fn law_deleted_edge_leaves_confined(nodes: Seq<NodeView>, src: usize, dst: usize)
    requires
        edges_confined(nodes),
        ids(nodes).contains(src),
        dsts(lookup(nodes, src).edges).contains(dst),
    ensures
        edges_confined(
            nodes.update(
                first(ids(nodes), src),
                lookup(nodes, src).without_edge(
                    first(dsts(lookup(nodes, src).edges), dst),
                ),
            ),
        ),
{
    lemma_first_exists(ids(nodes), src);
    let at = first(ids(nodes), src);
    let was = nodes[at].edges;
    lemma_first_exists(dsts(was), dst);
    let k = first(dsts(was), dst);
    let after = nodes.update(at, lookup(nodes, src).without_edge(k));
    assert(ids(after) =~= ids(nodes));
}

/// Nesting leaves every edge where it is: the edges of every layer stay
/// confined.
pub proof fn law_nesting_keeps_edges_confined(
    layers: Seq<Seq<NodeView>>,
    nestee: usize,
    nester: usize,
)
    requires
        all_edges_confined(layers),
    ensures
        all_edges_confined(nested(layers, nestee, nester).0),
{
    let after = nested(layers, nestee, nester).0;
    lemma_nested_same(layers, nestee, nester);
    assert forall|l: int| 0 <= l < after.len() implies edges_confined(#[trigger] after[l]) by {
        assert(ids(after[l]) =~= ids(layers[l])) by {
        }
    }
}

} // verus!
