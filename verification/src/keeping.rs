//! Merging destroys nothing: no layer loses a node, and what a node had
//! before a merge it has afterwards, in the same place, unless the update
//! names it.

use crate::graph::{lemma_node_found, lemma_with_node_keeps_ids, nested, node_of, with_node};
use crate::layer::{ids, merge_node, merged};
use crate::lookup::{first, lemma_first_exists};
use crate::merge::{all_bonds, merged_graph, nest_all};
use crate::node::{dsts, keys, upsert_edge, upsert_feature, EdgeView, FeatureView, NodeView};
use vstd::prelude::*;

verus! {

/// Every feature of `before` is in `after` at the same place and under the
/// same key, and with the same value unless its key is one of `named`.
pub open spec fn features_kept(
    before: Seq<FeatureView>,
    after: Seq<FeatureView>,
    named: Set<Seq<char>>,
) -> bool {
    &&& before.len() <= after.len()
    &&& forall|i: int|
        0 <= i < before.len() ==> (#[trigger] after[i]).key == before[i].key && (!named.contains(
            before[i].key,
        ) ==> after[i] == before[i])
}

/// Every edge of `before` is in `after` at the same place and between the
/// same nodes, and with the same description unless its destination is one
/// of `named`.
pub open spec fn edges_kept(
    before: Seq<EdgeView>,
    after: Seq<EdgeView>,
    named: Set<usize>,
) -> bool {
    &&& before.len() <= after.len()
    &&& forall|i: int|
        0 <= i < before.len() ==> (#[trigger] after[i]).src == before[i].src && after[i].dst
            == before[i].dst && (!named.contains(before[i].dst) ==> after[i] == before[i])
}

/// The keys under which the update has a feature for the node `id`.
pub open spec fn named_keys(update: Seq<NodeView>, id: usize) -> Set<Seq<char>> {
    Set::new(
        |key: Seq<char>|
            exists|k: int|
                0 <= k < update.len() && (#[trigger] update[k]).id == id && keys(
                    update[k].features,
                ).contains(key),
    )
}

/// The destinations to which the update has an edge for the node `id`.
pub open spec fn named_dsts(update: Seq<NodeView>, id: usize) -> Set<usize> {
    Set::new(
        |dst: usize|
            exists|k: int|
                0 <= k < update.len() && (#[trigger] update[k]).id == id && dsts(
                    update[k].edges,
                ).contains(dst),
    )
}

/// The node `after` is the node `before` with all it had, but for what the
/// update names for it.
pub open spec fn node_kept(before: NodeView, after: NodeView, update: Seq<NodeView>) -> bool {
    &&& after.id == before.id
    &&& after.coordinates == before.coordinates
    &&& features_kept(before.features, after.features, named_keys(update, before.id))
    &&& edges_kept(before.edges, after.edges, named_dsts(update, before.id))
}

/// Every node of `before` is in `after` at the same place, with all it had
/// but for what the update names for it.
pub open spec fn nodes_kept(
    before: Seq<NodeView>,
    after: Seq<NodeView>,
    update: Seq<NodeView>,
) -> bool {
    &&& before.len() <= after.len()
    &&& forall|i: int| 0 <= i < before.len() ==> node_kept(before[i], #[trigger] after[i], update)
}

/// Putting one feature keeps all features but the one under its key.
pub proof fn lemma_upsert_feature_keeps(fs: Seq<FeatureView>, f: FeatureView)
    ensures
        features_kept(fs, upsert_feature(fs, f), set![f.key]),
{
    if keys(fs).contains(f.key) {
        lemma_first_exists(keys(fs), f.key);
    }
}

/// Putting one edge keeps all edges but the one to its destination.
pub proof fn lemma_upsert_edge_keeps(es: Seq<EdgeView>, e: EdgeView)
    ensures
        edges_kept(es, upsert_edge(es, e), set![e.dst]),
{
    if dsts(es).contains(e.dst) {
        lemma_first_exists(dsts(es), e.dst);
    }
}

/// Putting features one after the other keeps all but those under their
/// keys.
pub proof fn lemma_features_folded(base: Seq<FeatureView>, incoming: Seq<FeatureView>)
    ensures
        features_kept(
            base,
            incoming.fold_left(base, |acc: Seq<FeatureView>, f: FeatureView| upsert_feature(acc, f)),
            keys(incoming).to_set(),
        ),
    decreases incoming.len(),
{
    let put = |acc: Seq<FeatureView>, f: FeatureView| upsert_feature(acc, f);
    if incoming.len() > 0 {
        let rest = incoming.drop_last();
        let mid = rest.fold_left(base, put);
        lemma_features_folded(base, rest);
        lemma_upsert_feature_keeps(mid, incoming.last());
        let after = incoming.fold_left(base, put);
        assert forall|i: int| 0 <= i < base.len() implies (#[trigger] after[i]).key == base[i].key
            && (!keys(incoming).to_set().contains(base[i].key) ==> after[i] == base[i]) by {
            if !keys(incoming).to_set().contains(base[i].key) {
                assert(!keys(rest).to_set().contains(base[i].key)) by {
                    if keys(rest).contains(base[i].key) {
                        let w = choose|w: int|
                            0 <= w < keys(rest).len() && keys(rest)[w] == base[i].key;
                        assert(keys(incoming)[w] == base[i].key);
                    }
                }
                assert(incoming.last().key != base[i].key) by {
                    assert(keys(incoming)[incoming.len() - 1] == incoming.last().key);
                }
            }
        }
    }
}

/// Putting edges one after the other keeps all but those to their
/// destinations.
pub proof fn lemma_edges_folded(base: Seq<EdgeView>, incoming: Seq<EdgeView>)
    ensures
        edges_kept(
            base,
            incoming.fold_left(base, |acc: Seq<EdgeView>, e: EdgeView| upsert_edge(acc, e)),
            dsts(incoming).to_set(),
        ),
    decreases incoming.len(),
{
    let put = |acc: Seq<EdgeView>, e: EdgeView| upsert_edge(acc, e);
    if incoming.len() > 0 {
        let rest = incoming.drop_last();
        let mid = rest.fold_left(base, put);
        lemma_edges_folded(base, rest);
        lemma_upsert_edge_keeps(mid, incoming.last());
        let after = incoming.fold_left(base, put);
        assert forall|i: int| 0 <= i < base.len() implies (#[trigger] after[i]).src == base[i].src
            && after[i].dst == base[i].dst && (!dsts(incoming).to_set().contains(base[i].dst)
            ==> after[i] == base[i]) by {
            if !dsts(incoming).to_set().contains(base[i].dst) {
                assert(!dsts(rest).to_set().contains(base[i].dst)) by {
                    if dsts(rest).contains(base[i].dst) {
                        let w = choose|w: int|
                            0 <= w < dsts(rest).len() && dsts(rest)[w] == base[i].dst;
                        assert(dsts(incoming)[w] == base[i].dst);
                    }
                }
                assert(incoming.last().dst != base[i].dst) by {
                    assert(dsts(incoming)[incoming.len() - 1] == incoming.last().dst);
                }
            }
        }
    }
}

/// Merging a layer's update into its nodes keeps every node: see
/// [`nodes_kept`].
pub proof fn lemma_merged_keeps(nodes: Seq<NodeView>, update: Seq<NodeView>)
    ensures
        nodes_kept(nodes, merged(nodes, update), update),
    decreases update.len(),
{
    let step = |acc: Seq<NodeView>, n: NodeView| merge_node(acc, n);
    if update.len() > 0 {
        let rest = update.drop_last();
        let inc = update.last();
        let mid = rest.fold_left(nodes, step);
        lemma_merged_keeps(nodes, rest);
        let after = merged(nodes, update);
        if ids(mid).contains(inc.id) {
            lemma_first_exists(ids(mid), inc.id);
        }
        assert forall|i: int| 0 <= i < nodes.len() implies node_kept(
            nodes[i],
            #[trigger] after[i],
            update,
        ) by {
            if ids(mid).contains(inc.id) && first(ids(mid), inc.id) == i {
                lemma_features_folded(mid[i].features, inc.features);
                lemma_edges_folded(mid[i].edges, inc.edges);
            }
        }
    }
}

/// The layers `after` have every node of `before` at the same place, with
/// the same id, position, features and edges: they differ at most in who is
/// nested under whom.
pub open spec fn same_but_nesting(before: Seq<Seq<NodeView>>, after: Seq<Seq<NodeView>>) -> bool {
    &&& after.len() == before.len()
    &&& forall|at: int|
        0 <= at < before.len() ==> (#[trigger] after[at]).len() == before[at].len()
    &&& forall|at: int, i: int|
        0 <= at < before.len() && 0 <= i < before[at].len() ==> {
            &&& (#[trigger] after[at][i]).id == before[at][i].id
            &&& after[at][i].coordinates == before[at][i].coordinates
            &&& after[at][i].features == before[at][i].features
            &&& after[at][i].edges == before[at][i].edges
        }
}

/// Nesting changes nesting alone, whether it succeeds or fails.
pub proof fn lemma_nested_same(layers: Seq<Seq<NodeView>>, nestee: usize, nester: usize)
    ensures
        same_but_nesting(layers, nested(layers, nestee, nester).0),
{
    if nested(layers, nestee, nester).1 is None {
        lemma_node_found(layers, nestee);
        let released = match node_of(layers, nestee).pid {
            Some(parent) => {
                lemma_node_found(layers, parent);
                let gave = node_of(layers, parent).without_child(nestee);
                lemma_with_node_keeps_ids(layers, parent, gave);
                with_node(layers, parent, gave)
            },
            None => layers,
        };
        let claimed_child = node_of(released, nestee).with_parent(Some(nester));
        lemma_with_node_keeps_ids(released, nestee, claimed_child);
        let claimed = with_node(released, nestee, claimed_child);
        lemma_node_found(claimed, nester);
    }
}

/// Nesting one pair after the other changes nesting alone.
pub proof fn lemma_nest_all_same(layers: Seq<Seq<NodeView>>, pairs: Seq<(usize, usize)>)
    ensures
        same_but_nesting(layers, nest_all(layers, pairs).0),
    decreases pairs.len(),
{
    if pairs.len() > 0 {
        let (next, failed) = nested(layers, pairs[0].0, pairs[0].1);
        lemma_nested_same(layers, pairs[0].0, pairs[0].1);
        if failed is None {
            lemma_nest_all_same(next, pairs.drop_first());
        }
    }
}

/// Merging is not destructive. Whether the merge of `update` into `live`
/// succeeds or fails, every layer has afterwards at least the nodes it had,
/// each at its place and under its id; and each of those nodes has at least
/// the features and edges it had, each at its place, a feature under its key
/// and an edge between its nodes. A feature keeps its value unless the
/// update's layer of the same index has a node with the same id and a
/// feature under the same key; an edge keeps its description unless that
/// layer has a node with the same id and an edge to the same destination.
pub proof fn law_merge_keeps(
    live: Seq<Seq<NodeView>>,
    update: Seq<Seq<NodeView>>,
    at: int,
    i: int,
)
    requires
        0 <= at < live.len(),
        0 <= i < live[at].len(),
    ensures
        merged_graph(live, update).0.len() == live.len(),
        live[at].len() <= merged_graph(live, update).0[at].len(),
        node_kept(
            live[at][i],
            merged_graph(live, update).0[at][i],
            if at < update.len() {
                update[at]
            } else {
                Seq::empty()
            },
        ),
{
    let (arranged, failed) = nest_all(live, all_bonds(update));
    lemma_nest_all_same(live, all_bonds(update));
    if failed is None && at < update.len() {
        lemma_merged_keeps(arranged[at], update[at]);
    }
}

} // verus!
