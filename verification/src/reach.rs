//! The part of a well-nested graph below a node holds the node and all that
//! descends from it, each in its layer, and nothing else.

use crate::descent::{lemma_lookup_in, reached, well_nested};
use crate::graph::{has_node, layer_of, lemma_node_found, node_of};
use crate::hierarchy::lemma_found_in_its_layer;
use crate::layer::{children_of, found, ids, lookup, offspring, picked, pruned};
use crate::lookup::lemma_filter_map_has;
use crate::node::NodeView;
use crate::visibility::{drawn, subgraph_of};
use vstd::prelude::*;

verus! {

/// The children of some nodes are the children of each of them.
pub proof fn lemma_offspring_members(nodes: Seq<NodeView>, c: usize)
    ensures
        offspring(nodes).contains(c) <==> exists|i: int|
            0 <= i < nodes.len() && (#[trigger] nodes[i]).children.contains(c),
    decreases nodes.len(),
{
    if nodes.len() > 0 {
        let rest = nodes.drop_last();
        let last = nodes.last();
        lemma_offspring_members(rest, c);
        rest.lemma_flat_map_push(children_of(), last);
        assert(rest.push(last) =~= nodes);
        let all = offspring(nodes);
        if exists|i: int| 0 <= i < nodes.len() && (#[trigger] nodes[i]).children.contains(c) {
            let i = choose|i: int| 0 <= i < nodes.len() && (#[trigger] nodes[i]).children.contains(
                c,
            );
            if i < rest.len() {
                let w = choose|w: int| 0 <= w < offspring(rest).len() && offspring(rest)[w] == c;
                assert(all[w] == c);
            } else {
                let w = choose|w: int| 0 <= w < last.children.len() && last.children[w] == c;
                assert(all[offspring(rest).len() + w] == c);
            }
        }
    }
}

/// What is picked from a layer for some ids are the nodes of the layer with
/// those ids.
pub proof fn lemma_picked_members(nodes: Seq<NodeView>, wanted: Seq<usize>, x: usize)
    ensures
        ids(picked(nodes, wanted)).contains(x) <==> wanted.contains(x) && ids(nodes).contains(x),
        forall|i: int|
            0 <= i < picked(nodes, wanted).len() ==> ids(nodes).contains(
                (#[trigger] picked(nodes, wanted)[i]).id,
            ) && picked(nodes, wanted)[i] == lookup(nodes, picked(nodes, wanted)[i].id),
{
    let got = picked(nodes, wanted);
    assert forall|i: int| 0 <= i < got.len() implies ids(nodes).contains((#[trigger] got[i]).id)
        && got[i] == lookup(nodes, got[i].id) && wanted.contains(got[i].id) by {
        wanted.lemma_filter_map_contains(found(nodes), got[i]);
        let t = choose|t: usize| #[trigger] wanted.contains(t) && found(nodes)(t) == Some(got[i]);
        lemma_lookup_in(nodes, t);
    }
    if wanted.contains(x) && ids(nodes).contains(x) {
        let w = choose|w: int| 0 <= w < wanted.len() && wanted[w] == x;
        lemma_filter_map_has(wanted, found(nodes), w);
        lemma_lookup_in(nodes, x);
        let i = choose|i: int| 0 <= i < got.len() && got[i] == lookup(nodes, x);
        assert(ids(got)[i] == x);
    }
}

/// In a well-nested graph, what is drawn from a layer for the subgraph
/// below `root` are the nodes that are reached from `root` in as many steps
/// as the layer lies below the root's.
pub proof fn lemma_drawn_is_reached(layers: Seq<Seq<NodeView>>, root: usize, at: int, x: usize)
    requires
        well_nested(layers),
        has_node(layers, root),
        0 <= at <= layer_of(layers, root),
    ensures
        ids(drawn(layers, layer_of(layers, root), root, at)).contains(x) <==> reached(
            layers,
            root,
            (layer_of(layers, root) - at) as nat,
        ).contains(x),
    decreases layer_of(layers, root) - at,
{
    lemma_node_found(layers, root);
    let top = layer_of(layers, root);
    if at == top {
        let one = seq![root];
        lemma_picked_members(layers[top], one, x);
    } else {
        let above = drawn(layers, top, root, at + 1);
        let wanted = offspring(above);
        let depth = (top - at) as nat;
        lemma_picked_members(layers[at], wanted, x);
        lemma_offspring_members(above, x);
        assert forall|i: int| 0 <= i < above.len() implies ids(layers[at + 1]).contains(
            (#[trigger] above[i]).id,
        ) && above[i] == lookup(layers[at + 1], above[i].id) by {
            if at + 1 == top {
                lemma_picked_members(layers[top], seq![root], root);
            } else {
                lemma_picked_members(
                    layers[at + 1],
                    offspring(drawn(layers, top, root, at + 2)),
                    root,
                );
            }
        }
        if ids(drawn(layers, top, root, at)).contains(x) {
            let i = choose|i: int| 0 <= i < above.len() && (#[trigger] above[i]).children.contains(
                x,
            );
            let p = above[i].id;
            assert(ids(above)[i] == p);
            lemma_drawn_is_reached(layers, root, at + 1, p);
            lemma_found_in_its_layer(layers, at + 1, p);
        }
        if reached(layers, root, depth).contains(x) {
            let p = choose|p: usize| #[trigger]
                reached(layers, root, (depth - 1) as nat).contains(p) && has_node(layers, p)
                    && node_of(layers, p).children.contains(x);
            lemma_drawn_is_reached(layers, root, at + 1, p);
            lemma_found_in_its_layer(layers, at + 1, p);
        }
    }
}

/// The subgraph below a node of a well-nested graph holds the node and all
/// that descends from it, and nothing else: a layer of it has a node exactly
/// if the node is reached from the root, step by step from a node to one of
/// its children, in as many steps as the layer lies below the root's. The
/// layers above the root's are empty.
pub proof fn law_subgraph_holds_descendants(
    layers: Seq<Seq<NodeView>>,
    root: usize,
    at: int,
    x: usize,
)
    requires
        well_nested(layers),
        has_node(layers, root),
        0 <= at < layers.len(),
    ensures
        at <= layer_of(layers, root) ==> (ids(subgraph_of(layers, root)[at]).contains(x)
            <==> reached(layers, root, (layer_of(layers, root) - at) as nat).contains(x)),
        at > layer_of(layers, root) ==> subgraph_of(layers, root)[at].len() == 0,
{
    lemma_node_found(layers, root);
    let top = layer_of(layers, root);
    if at < top {
        lemma_drawn_is_reached(layers, root, at, x);
        assert(ids(pruned(drawn(layers, top, root, at))) =~= ids(drawn(layers, top, root, at)));
    } else if at == top {
        let sub = subgraph_of(layers, root)[at];
        assert(ids(sub)[0] == root);
    }
}

} // verus!
