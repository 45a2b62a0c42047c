//! What holds of the graph whatever is done with it, stated over the same
//! models as the contracts of the operations and proved from them.

use crate::error::AtlasError;
use crate::graph::{
    has_node, holds, layer_of, lemma_node_found, lemma_with_node_keeps_ids, nested, node_of,
    parent_listed, with_node, GraphView,
};
use crate::layer::{ids, listed, parent_of, parents, pruned, seen, sighted};
use crate::lookup::{lemma_filter_map_has, lemma_masked_from, lemma_masked_has, masked};
use crate::node::{Coordinate, NodeView};
use crate::node::within;
use crate::visibility::{visible, visible_layers};
use vstd::prelude::*;

verus! {

/// Ids are fresh: of two nodes created one after the other, however many
/// were created in between, the later has the greater id. (The id of a new
/// node is the counter of the graph it is created in; see
/// [`crate::SceneGraph::new_node`].)
pub proof fn law_ids_increase(g: GraphView, earlier: nat, later: nat)
    requires
        earlier < later,
        g.node_counter + later <= usize::MAX,
    ensures
        g.after_creating(earlier).node_counter < g.after_creating(later).node_counter,
        g.after_creating(earlier).after_creating(1) == g.after_creating(earlier + 1),
{
}

/// Nesting goes by adjacency: nesting one node under another succeeds
/// exactly if both exist, the nester's layer is the one directly above the
/// nestee's, and the nestee's present parent, if it has one, exists and lists
/// it. Where both exist and the layers are not adjacent it fails with the two
/// layer indices. A nesting that fails leaves the graph as it was; one that
/// succeeds leaves the nestee with the nester as its parent and among the
/// nester's children.
pub proof fn law_nesting_adjacency(layers: Seq<Seq<NodeView>>, nestee: usize, nester: usize)
    ensures
        nested(layers, nestee, nester).1 is None <==> has_node(layers, nestee) && has_node(
            layers,
            nester,
        ) && layer_of(layers, nester) == layer_of(layers, nestee) + 1 && parent_listed(
            layers,
            nestee,
        ),
        has_node(layers, nestee) && has_node(layers, nester) && layer_of(layers, nester)
            != layer_of(layers, nestee) + 1 ==> nested(layers, nestee, nester).1 == Some(
            AtlasError::InvalidLayersForNesting(
                layer_of(layers, nestee) as usize,
                layer_of(layers, nester) as usize,
            ),
        ),
        nested(layers, nestee, nester).1 is Some ==> nested(layers, nestee, nester).0 == layers,
        nested(layers, nestee, nester).1 is None ==> {
            let after = nested(layers, nestee, nester).0;
            &&& node_of(after, nestee).pid == Some(nester)
            &&& node_of(after, nester).children.contains(nestee)
        },
{
    if nested(layers, nestee, nester).1 is None {
        lemma_node_found(layers, nestee);
        lemma_node_found(layers, nester);
        let released = match node_of(layers, nestee).pid {
            Some(parent) => {
                lemma_node_found(layers, parent);
                let gave = node_of(layers, parent).without_child(nestee);
                lemma_with_node_keeps_ids(layers, parent, gave);
                with_node(layers, parent, gave)
            },
            None => layers,
        };
        let claimed_child = node_of(released, nestee).with_parent(Some(nester));
        lemma_with_node_keeps_ids(released, nestee, claimed_child);
        let claimed = with_node(released, nestee, claimed_child);
        let took = node_of(claimed, nester).with_child(nestee);
        lemma_with_node_keeps_ids(claimed, nester, took);
        assert(took.children.contains(nestee)) by {
            let before = node_of(claimed, nester).children;
            if !before.contains(nestee) {
                assert(before.push(nestee)[before.len() as int] == nestee);
            }
        }
    }
}

/// What is visible of the base layer was seen: every node there has a
/// position, and of that position the observer said yes. (`mask` is the
/// observer's answers for the base layer; see [`sighted`].)
pub proof fn law_base_layer_was_seen<F: Fn(&Coordinate) -> bool>(
    observer: F,
    layers: Seq<Seq<NodeView>>,
    mask: Seq<bool>,
    i: int,
)
    requires
        layers.len() > 0,
        sighted(observer, layers[0], mask),
        0 <= i < visible_layers(layers, mask)[0].len(),
    ensures
        visible_layers(layers, mask)[0][i].coordinates is Some,
        call_ensures(observer, (&visible_layers(layers, mask)[0][i].coordinates->0,), true),
{
    let k = lemma_masked_from(layers[0], mask, i);
}

/// And all that was seen is visible: a node of the base layer with a
/// position of which the observer said yes is in the visible part, with its
/// id, its parent and its position.
pub proof fn law_seen_is_visible(layers: Seq<Seq<NodeView>>, mask: Seq<bool>, k: int) -> (i: int)
    requires
        layers.len() > 0,
        0 <= k < layers[0].len(),
        k < mask.len(),
        mask[k],
    ensures
        0 <= i < visible_layers(layers, mask)[0].len(),
        visible_layers(layers, mask)[0][i].id == layers[0][k].id,
        visible_layers(layers, mask)[0][i].pid == layers[0][k].pid,
        visible_layers(layers, mask)[0][i].coordinates == layers[0][k].coordinates,
{
    lemma_masked_has(layers[0], mask, k);
    let kept = masked(layers[0], mask);
    let i = choose|i: int| 0 <= i < kept.len() && kept[i] == layers[0][k];
    i
}

/// A node of a layer above the base is visible only through a child: some
/// visible node of the layer below names it as its parent.
pub proof fn law_visible_through_child(
    layers: Seq<Seq<NodeView>>,
    mask: Seq<bool>,
    at: int,
    i: int,
) -> (j: int)
    requires
        0 < at < layers.len(),
        0 <= i < visible_layers(layers, mask)[at].len(),
    ensures
        0 <= j < visible_layers(layers, mask)[at - 1].len(),
        visible_layers(layers, mask)[at - 1][j].pid == Some(visible_layers(layers, mask)[at][i].id),
{
    let below = visible(layers, mask, at - 1);
    let keep = parents(below);
    let chosen = layers[at].filter(listed(keep));
    let id = chosen[i].id;
    below.lemma_filter_map_contains(parent_of(), id);
    let t = choose|t: NodeView| #[trigger] below.contains(t) && parent_of()(t) == Some(id);
    let j = choose|j: int| 0 <= j < below.len() && below[j] == t;
    j
}

/// And every node with a visible child is visible: a node of a layer above
/// the base that a visible node of the layer below names as its parent is in
/// the visible part.
pub proof fn law_parent_of_visible_is_visible(
    layers: Seq<Seq<NodeView>>,
    mask: Seq<bool>,
    at: int,
    k: int,
    j: int,
) -> (i: int)
    requires
        0 < at < layers.len(),
        0 <= k < layers[at].len(),
        0 <= j < visible_layers(layers, mask)[at - 1].len(),
        visible_layers(layers, mask)[at - 1][j].pid == Some(layers[at][k].id),
    ensures
        0 <= i < visible_layers(layers, mask)[at].len(),
        visible_layers(layers, mask)[at][i].id == layers[at][k].id,
{
    let below = visible(layers, mask, at - 1);
    let keep = parents(below);
    lemma_filter_map_has(below, parent_of(), j);
    layers[at].lemma_filter_contains(listed(keep), k);
    let chosen = layers[at].filter(listed(keep));
    let i = choose|i: int| 0 <= i < chosen.len() && chosen[i] == layers[at][k];
    i
}

/// What is visible is part of the graph: a visible node of a layer is a
/// node of that layer as it stands in the graph, but for the edges that lead
/// to nodes that are not visible.
pub proof fn law_visible_is_part(
    layers: Seq<Seq<NodeView>>,
    mask: Seq<bool>,
    at: int,
    i: int,
) -> (k: int)
    requires
        0 <= at < layers.len(),
        0 <= i < visible_layers(layers, mask)[at].len(),
    ensures
        0 <= k < layers[at].len(),
        visible_layers(layers, mask)[at][i] == layers[at][k].with_edges(
            within(ids(visible_layers(layers, mask)[at])),
        ),
{
    if at <= 0 {
        let kept = masked(layers[0], mask);
        assert(ids(pruned(kept)) =~= ids(kept));
        lemma_masked_from(layers[0], mask, i)
    } else {
        let keep = parents(visible(layers, mask, at - 1));
        let chosen = layers[at].filter(listed(keep));
        assert(ids(pruned(chosen)) =~= ids(chosen));
        layers[at].lemma_filter_contains_rev(listed(keep), chosen[i]);
        choose|k: int| 0 <= k < layers[at].len() && layers[at][k] == chosen[i]
    }
}

} // verus!
