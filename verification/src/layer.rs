//! One abstraction level of the scene: an ordered collection of nodes and the
//! edges among them. A layer knows nothing of the layers around it.

use crate::confinement::{
    edges_confined, law_added_edge_is_confined, law_deleted_edge_leaves_confined,
    lemma_without_node_confined,
};
use crate::error::AtlasError;
use crate::lookup::{
    first, is_first, lemma_filter_step, lemma_fold_step, lemma_masked_from, lemma_masked_step,
    masked, position, swap_removed,
};
use crate::node::{
    dsts, feature_ref_views, key_texts, not_to, with_features, with_keys, within, Coordinate, Edge,
    EdgeView, Feature, Node, NodeView,
};
use vstd::prelude::*;

verus! {

/// The views of a vector of nodes.
pub open spec fn node_views(v: Seq<Node>) -> Seq<NodeView> {
    v.map_values(|n: Node| n@)
}

/// The views of the nodes that a query handed out.
pub open spec fn node_ref_views(v: Seq<&Node>) -> Seq<NodeView> {
    v.map_values(|n: &Node| n@)
}

/// The views of the edges that a query handed out.
pub open spec fn edge_ref_views(v: Seq<&Edge>) -> Seq<EdgeView> {
    v.map_values(|e: &Edge| e@)
}

/// The ids of a node list, in order.
pub open spec fn ids(nodes: Seq<NodeView>) -> Seq<usize> {
    nodes.map_values(|n: NodeView| n.id)
}

/// The first node with this id; meaningful only where there is one.
pub open spec fn lookup(nodes: Seq<NodeView>, id: usize) -> NodeView {
    nodes[first(ids(nodes), id)]
}

/// Each node with only those of its edges that `keep` holds of.
pub open spec fn with_edges(nodes: Seq<NodeView>, keep: spec_fn(EdgeView) -> bool) -> Seq<
    NodeView,
> {
    nodes.map_values(|n: NodeView| n.with_edges(keep))
}

/// The nodes without the edges that lead to no node among them.
pub open spec fn pruned(nodes: Seq<NodeView>) -> Seq<NodeView> {
    with_edges(nodes, within(ids(nodes)))
}

/// The nodes whose id is one of `keep`.
pub open spec fn listed(keep: Seq<usize>) -> spec_fn(NodeView) -> bool {
    |n: NodeView| keep.contains(n.id)
}

/// The edges with this description.
pub open spec fn described(desc: Seq<char>) -> spec_fn(EdgeView) -> bool {
    |e: EdgeView| e.desc == desc
}

/// The edges that lead to `dst`.
pub open spec fn leading_to(dst: usize) -> spec_fn(EdgeView) -> bool {
    |e: EdgeView| e.dst == dst
}

/// Of one node, the edges that `keep` holds of.
pub open spec fn kept_edges(keep: spec_fn(EdgeView) -> bool) -> spec_fn(NodeView) -> Seq<
    EdgeView,
> {
    |n: NodeView| n.edges.filter(keep)
}

/// The edges of all nodes that `keep` holds of: node by node, and within a
/// node in the order in which it stores them.
pub open spec fn edges_where(nodes: Seq<NodeView>, keep: spec_fn(EdgeView) -> bool) -> Seq<
    EdgeView,
> {
    nodes.flat_map(kept_edges(keep))
}

/// One incoming node merged into the nodes: folded into the first node with
/// its id, or appended where no node has that id.
pub open spec fn merge_node(nodes: Seq<NodeView>, n: NodeView) -> Seq<NodeView> {
    if ids(nodes).contains(n.id) {
        let i = first(ids(nodes), n.id);
        nodes.update(i, nodes[i].absorb(n))
    } else {
        nodes.push(n)
    }
}

/// The incoming nodes merged into the nodes, one by one and in order.
pub open spec fn merged(nodes: Seq<NodeView>, incoming: Seq<NodeView>) -> Seq<NodeView> {
    incoming.fold_left(nodes, |acc: Seq<NodeView>, n: NodeView| merge_node(acc, n))
}

/// The nodes without the first node with this id and without the edges that
/// led to it.
pub open spec fn without_node(nodes: Seq<NodeView>, id: usize) -> Seq<NodeView> {
    with_edges(nodes.remove(first(ids(nodes), id)), not_to(id))
}

/// The nodes whose id is one of `keep`, without the edges that lead to none
/// of them.
pub open spec fn retained(nodes: Seq<NodeView>, keep: Seq<usize>) -> Seq<NodeView> {
    pruned(nodes.filter(listed(keep)))
}

/// The nodes that `mask` marks, without the edges that lead to none of them.
pub open spec fn seen(nodes: Seq<NodeView>, mask: Seq<bool>) -> Seq<NodeView> {
    pruned(masked(nodes, mask))
}

/// The node with a given id, if the nodes have one.
pub open spec fn found(nodes: Seq<NodeView>) -> spec_fn(usize) -> Option<NodeView> {
    |id: usize|
        if ids(nodes).contains(id) {
            Some(lookup(nodes, id))
        } else {
            None
        }
}

/// The nodes with the ids `wanted`, in the order of `wanted`. An id without a
/// node is passed over; an id that occurs twice yields its node twice.
pub open spec fn picked(nodes: Seq<NodeView>, wanted: Seq<usize>) -> Seq<NodeView> {
    wanted.filter_map(found(nodes))
}

/// The children of a node.
pub open spec fn children_of() -> spec_fn(NodeView) -> Seq<usize> {
    |n: NodeView| n.children
}

/// The children of all nodes: node by node, and of each node in its order.
pub open spec fn offspring(nodes: Seq<NodeView>) -> Seq<usize> {
    nodes.flat_map(children_of())
}

/// The parent of a node.
pub open spec fn parent_of() -> spec_fn(NodeView) -> Option<usize> {
    |n: NodeView| n.pid
}

/// The parents that the nodes name, node by node.
pub open spec fn parents(nodes: Seq<NodeView>) -> Seq<usize> {
    nodes.filter_map(parent_of())
}

/// A node and the parent it names, if it names one.
pub open spec fn bond() -> spec_fn(NodeView) -> Option<(usize, usize)> {
    |n: NodeView|
        match n.pid {
            Some(p) => Some((n.id, p)),
            None => None,
        }
}

/// Each node that names a parent, with that parent: node by node.
pub open spec fn bonds(nodes: Seq<NodeView>) -> Seq<(usize, usize)> {
    nodes.filter_map(bond())
}

/// `mask` is what an observer answered of each node: of a node without a
/// position nothing was asked and the answer counts as no; of a node with
/// one, `mask` holds an answer that the observer can give for that position.
pub open spec fn sighted<F: Fn(&Coordinate) -> bool>(
    observer: F,
    nodes: Seq<NodeView>,
    mask: Seq<bool>,
) -> bool {
    &&& mask.len() == nodes.len()
    &&& forall|i: int|
        0 <= i < nodes.len() ==> match (#[trigger] nodes[i]).coordinates {
            Some(c) => call_ensures(observer, (&c,), mask[i]),
            None => !mask[i],
        }
}

/// A layer: its nodes, in the order in which they were placed.
#[derive(Debug)]
pub struct Layer {
    pub nodes: Vec<Node>,
}

impl View for Layer {
    type V = Seq<NodeView>;

    open spec fn view(&self) -> Seq<NodeView> {
        node_views(self.nodes@)
    }
}

impl Clone for Layer {
    fn clone(&self) -> (r: Self)
        ensures
            r@ == self@,
    {
        let r = Layer { nodes: self.nodes.clone() };
        r
    }
}

impl Layer {
    /// An empty layer.
    pub fn new() -> (r: Self)
        ensures
            r@ == Seq::<NodeView>::empty(),
    {
        let r = Layer { nodes: Vec::new() };
        r
    }

    /// Position of the first node with this id.
    pub fn position(&self, id: usize) -> (r: Option<usize>)
        ensures
            r is Some <==> ids(self@).contains(id),
            r is Some ==> is_first(ids(self@), id, r->0 as int) && r->0 == first(ids(self@), id),
    {
        let ghost all = ids(self@);
        let mut i: usize = 0;
        while i < self.nodes.len()
            invariant
                i <= self.nodes.len(),
                all == ids(self@),
                all.len() == self.nodes.len(),
                forall|j: int| 0 <= j < i ==> all[j] != id,
            decreases self.nodes.len() - i,
        {
            if self.nodes[i].id == id {
                proof {
                    assert(all[i as int] == id);
                }
                return Some(i);
            }
            i += 1;
        }
        None
    }

    /// The first node with this id.
    pub fn node(&self, id: usize) -> (r: Result<&Node, AtlasError>)
        ensures
            match r {
                Ok(n) => ids(self@).contains(id) && n@ == lookup(self@, id) && *n
                    == self.nodes@[first(ids(self@), id)],
                Err(e) => e == AtlasError::NodeNotFound && !ids(self@).contains(id),
            },
    {
        match self.position(id) {
            Some(i) => Ok(&self.nodes[i]),
            None => Err(AtlasError::NodeNotFound),
        }
    }

    /// The first node with this id, to be changed in place. What the caller
    /// leaves in it takes the node's place in the layer.
    pub fn node_mut(&mut self, id: usize) -> (r: Result<&mut Node, AtlasError>)
        ensures
            match r {
                Ok(n) => ids(old(self)@).contains(id) && *n == old(self).nodes@[first(
                    ids(old(self)@),
                    id,
                )] && final(self).nodes@ == old(self).nodes@.update(
                    first(ids(old(self)@), id),
                    *final(n),
                ),
                Err(e) => e == AtlasError::NodeNotFound && !ids(old(self)@).contains(id)
                    && *final(self) == *old(self),
            },
    {
        match self.position(id) {
            Some(i) => Ok(&mut self.nodes[i]),
            None => Err(AtlasError::NodeNotFound),
        }
    }

    /// Appends a node. That no node of the graph has its id yet is up to the
    /// caller.
    pub fn push_node(&mut self, node: Node)
        ensures
            final(self)@ == old(self)@.push(node@),
            final(self).nodes@ == old(self).nodes@.push(node),
    {
        self.nodes.push(node);
    }

    /// Adds an edge from `src` to `dst`; both must be nodes of this layer.
    pub fn add_edge(&mut self, src: usize, dst: usize, desc: &str) -> (r: Result<(), AtlasError>)
        ensures
            r is Ok <==> ids(old(self)@).contains(src) && ids(old(self)@).contains(dst),
            r is Ok ==> final(self)@ == old(self)@.update(
                first(ids(old(self)@), src),
                lookup(old(self)@, src).with_edge(EdgeView { src, dst, desc: desc@ }),
            ),
            r is Err ==> r->Err_0 == AtlasError::NodeNotFound && final(self)@ == old(self)@,
            edges_confined(old(self)@) ==> edges_confined(final(self)@),
    {
        proof {
            if edges_confined(self@) && ids(self@).contains(src) && ids(self@).contains(dst) {
                law_added_edge_is_confined(self@, src, dst, desc@);
            }
        }
        if self.position(dst).is_none() {
            return Err(AtlasError::NodeNotFound);
        }
        match self.position(src) {
            Some(i) => {
                self.nodes[i].edges.push(Edge::new(src, dst, desc));
                proof {
                    let was = old(self)@[i as int];
                    let e = EdgeView { src, dst, desc: desc@ };
                    assert(self@[i as int].edges =~= was.edges.push(e));
                    assert(self@ =~= old(self)@.update(i as int, was.with_edge(e)));
                }
                Ok(())
            },
            None => Err(AtlasError::NodeNotFound),
        }
    }

    /// Deletes the first edge from `src` to `dst`; the last edge of `src`
    /// moves into its place.
    pub fn del_edge(&mut self, src: usize, dst: usize) -> (r: Result<(), AtlasError>)
        ensures
            r is Ok <==> ids(old(self)@).contains(src) && dsts(
                lookup(old(self)@, src).edges,
            ).contains(dst),
            r is Ok ==> final(self)@ == old(self)@.update(
                first(ids(old(self)@), src),
                lookup(old(self)@, src).without_edge(
                    first(dsts(lookup(old(self)@, src).edges), dst),
                ),
            ),
            r is Err ==> final(self)@ == old(self)@ && r->Err_0 == if ids(old(self)@).contains(
                src,
            ) {
                AtlasError::EdgeNotFound
            } else {
                AtlasError::NodeNotFound
            },
            edges_confined(old(self)@) ==> edges_confined(final(self)@),
    {
        proof {
            if edges_confined(self@) && ids(self@).contains(src) && dsts(
                lookup(self@, src).edges,
            ).contains(dst) {
                law_deleted_edge_leaves_confined(self@, src, dst);
            }
        }
        match self.position(src) {
            Some(i) => {
                match self.nodes[i].edge_position(dst) {
                    Some(j) => {
                        self.nodes[i].edges.swap_remove(j);
                        proof {
                            let was = old(self)@[i as int];
                            assert(self@[i as int].edges =~= swap_removed(was.edges, j as int));
                            assert(self@ =~= old(self)@.update(
                                i as int,
                                was.without_edge(j as int),
                            ));
                        }
                        Ok(())
                    },
                    None => Err(AtlasError::EdgeNotFound),
                }
            },
            None => Err(AtlasError::NodeNotFound),
        }
    }
}

/// Queries. What they hand out borrows from the layer and cannot change it.
impl Layer {
    /// The nodes that have a feature under every one of `keys`.
    pub fn nodes_having(&self, keys: &[&str]) -> (r: Vec<&Node>)
        ensures
            node_ref_views(r@) == self@.filter(with_keys(key_texts(keys@))),
    {
        let ghost p = with_keys(key_texts(keys@));
        let mut out: Vec<&Node> = Vec::new();
        let mut i: usize = 0;
        while i < self.nodes.len()
            invariant
                i <= self.nodes.len(),
                self@.len() == self.nodes.len(),
                p == with_keys(key_texts(keys@)),
                node_ref_views(out@).len() == out@.len(),
                node_ref_views(out@) == self@.take(i as int).filter(p),
            decreases self.nodes.len() - i,
        {
            proof {
                lemma_filter_step(self@, p, i as int);
            }
            if self.nodes[i].has_features(keys) {
                out.push(&self.nodes[i]);
            }
            i += 1;
        }
        assert(self@.take(self@.len() as int) =~= self@);
        out
    }

    /// The nodes that carry every one of the key-value pairs `features`.
    pub fn nodes_matching(&self, features: &[&Feature]) -> (r: Vec<&Node>)
        ensures
            node_ref_views(r@) == self@.filter(with_features(feature_ref_views(features@))),
    {
        let ghost p = with_features(feature_ref_views(features@));
        let mut out: Vec<&Node> = Vec::new();
        let mut i: usize = 0;
        while i < self.nodes.len()
            invariant
                i <= self.nodes.len(),
                self@.len() == self.nodes.len(),
                p == with_features(feature_ref_views(features@)),
                node_ref_views(out@).len() == out@.len(),
                node_ref_views(out@) == self@.take(i as int).filter(p),
            decreases self.nodes.len() - i,
        {
            proof {
                lemma_filter_step(self@, p, i as int);
            }
            if self.nodes[i].match_features(features) {
                out.push(&self.nodes[i]);
            }
            i += 1;
        }
        assert(self@.take(self@.len() as int) =~= self@);
        out
    }

    /// The edges with this description, of all nodes.
    pub fn edges_matching(&self, desc: &str) -> (r: Vec<&Edge>)
        ensures
            edge_ref_views(r@) == edges_where(self@, described(desc@)),
    {
        let ghost p = described(desc@);
        let sought = desc.to_owned();
        let mut out: Vec<&Edge> = Vec::new();
        let mut i: usize = 0;
        while i < self.nodes.len()
            invariant
                i <= self.nodes.len(),
                self@.len() == self.nodes.len(),
                p == described(desc@),
                sought@ == desc@,
                edge_ref_views(out@) == edges_where(self@.take(i as int), p),
            decreases self.nodes.len() - i,
        {
            let node = &self.nodes[i];
            let ghost before = edge_ref_views(out@);
            let mut j: usize = 0;
            while j < node.edges.len()
                invariant
                    j <= node.edges.len(),
                    node@.edges.len() == node.edges.len(),
                    edge_ref_views(out@).len() == out@.len(),
                    p == described(desc@),
                    sought@ == desc@,
                    edge_ref_views(out@) == before + node@.edges.take(j as int).filter(p),
                decreases node.edges.len() - j,
            {
                proof {
                    lemma_filter_step(node@.edges, p, j as int);
                }
                if node.edges[j].desc == sought {
                    out.push(&node.edges[j]);
                    proof {
                        let f = node@.edges.take(j as int).filter(p);
                        let e = node@.edges[j as int];
                        assert(edge_ref_views(out@) =~= (before + f).push(e));
                    }
                }
                j += 1;
            }
            proof {
                assert(node@.edges.take(node@.edges.len() as int) =~= node@.edges);
                self@.lemma_flat_map_take_append(kept_edges(p), i as int);
            }
            i += 1;
        }
        assert(self@.take(self@.len() as int) =~= self@);
        out
    }

    /// All edges of the node `src`; none where the layer has no such node.
    pub fn edges_from(&self, src: usize) -> (r: Vec<&Edge>)
        ensures
            edge_ref_views(r@) == if ids(self@).contains(src) {
                lookup(self@, src).edges
            } else {
                Seq::empty()
            },
    {
        let mut out: Vec<&Edge> = Vec::new();
        match self.position(src) {
            Some(i) => {
                let node = &self.nodes[i];
                let mut j: usize = 0;
                while j < node.edges.len()
                    invariant
                        j <= node.edges.len(),
                        node@.edges.len() == node.edges.len(),
                        edge_ref_views(out@).len() == out@.len(),
                    edge_ref_views(out@).len() == out@.len(),
                        edge_ref_views(out@) == node@.edges.take(j as int),
                    decreases node.edges.len() - j,
                {
                    out.push(&node.edges[j]);
                    j += 1;
                }
            },
            None => {},
        }
        out
    }

    /// The edges that lead to `dst`, of all nodes.
    pub fn edges_to(&self, dst: usize) -> (r: Vec<&Edge>)
        ensures
            edge_ref_views(r@) == edges_where(self@, leading_to(dst)),
    {
        let ghost p = leading_to(dst);
        let mut out: Vec<&Edge> = Vec::new();
        let mut i: usize = 0;
        while i < self.nodes.len()
            invariant
                i <= self.nodes.len(),
                self@.len() == self.nodes.len(),
                p == leading_to(dst),
                edge_ref_views(out@) == edges_where(self@.take(i as int), p),
            decreases self.nodes.len() - i,
        {
            let node = &self.nodes[i];
            let ghost before = edge_ref_views(out@);
            let mut j: usize = 0;
            while j < node.edges.len()
                invariant
                    j <= node.edges.len(),
                    node@.edges.len() == node.edges.len(),
                    edge_ref_views(out@).len() == out@.len(),
                    p == leading_to(dst),
                    edge_ref_views(out@) == before + node@.edges.take(j as int).filter(p),
                decreases node.edges.len() - j,
            {
                proof {
                    lemma_filter_step(node@.edges, p, j as int);
                }
                if node.edges[j].dst == dst {
                    out.push(&node.edges[j]);
                    proof {
                        let f = node@.edges.take(j as int).filter(p);
                        let e = node@.edges[j as int];
                        assert(edge_ref_views(out@) =~= (before + f).push(e));
                    }
                }
                j += 1;
            }
            proof {
                assert(node@.edges.take(node@.edges.len() as int) =~= node@.edges);
                self@.lemma_flat_map_take_append(kept_edges(p), i as int);
            }
            i += 1;
        }
        assert(self@.take(self@.len() as int) =~= self@);
        out
    }
}

/// Changes to the set of nodes.
impl Layer {
    /// The ids of the nodes, in order.
    pub fn ids(&self) -> (r: Vec<usize>)
        ensures
            r@ == ids(self@),
    {
        let mut out: Vec<usize> = Vec::new();
        let mut i: usize = 0;
        while i < self.nodes.len()
            invariant
                i <= self.nodes.len(),
                self@.len() == self.nodes.len(),
                out@ == ids(self@).take(i as int),
            decreases self.nodes.len() - i,
        {
            out.push(self.nodes[i].id);
            i += 1;
        }
        out
    }

    /// Drops every edge that leads to no node of this layer.
    pub fn prune(&mut self)
        ensures
            final(self)@ == pruned(old(self)@),
    {
        let present = self.ids();
        let mut i: usize = 0;
        while i < self.nodes.len()
            invariant
                i <= self.nodes.len(),
                self.nodes.len() == old(self).nodes.len(),
                self@.len() == self.nodes.len(),
                old(self)@.len() == self.nodes.len(),
                present@ == ids(old(self)@),
                forall|k: int|
                    0 <= k < i ==> #[trigger] self@[k] == old(self)@[k].with_edges(
                        within(present@),
                    ),
                forall|k: int| i <= k < self.nodes.len() ==> #[trigger] self@[k] == old(self)@[k],
            decreases self.nodes.len() - i,
        {
            let ghost before = self@;
            self.nodes[i].keep_edges_within(&present);
            assert forall|k: int| 0 <= k < self.nodes.len() && k != i implies #[trigger] self@[k]
                == before[k] by {}
            assert(self@[i as int] == before[i as int].with_edges(within(present@)));
            i += 1;
        }
    }

    /// Takes the first node with this id out of the layer and hands it back;
    /// the nodes that stay lose their edges to it. Parents and children in
    /// other layers are not this layer's concern.
    pub fn del_node(&mut self, id: usize) -> (r: Result<Node, AtlasError>)
        ensures
            r is Ok <==> ids(old(self)@).contains(id),
            r is Ok ==> r->Ok_0@ == lookup(old(self)@, id),
            r is Ok ==> final(self)@ == without_node(old(self)@, id),
            r is Err ==> r->Err_0 == AtlasError::NodeNotFound && *final(self) == *old(self),
            edges_confined(old(self)@) ==> edges_confined(final(self)@),
    {
        proof {
            if ids(self@).contains(id) {
                lemma_without_node_confined(self@, id);
            }
        }
        match self.position(id) {
            Some(at) => {
                let node = self.nodes.remove(at);
                let ghost rest = self@;
                let mut i: usize = 0;
                while i < self.nodes.len()
                    invariant
                        i <= self.nodes.len(),
                        self@.len() == self.nodes.len(),
                        rest.len() == self.nodes.len(),
                        forall|k: int|
                            0 <= k < i ==> #[trigger] self@[k] == rest[k].with_edges(not_to(id)),
                        forall|k: int| i <= k < self.nodes.len() ==> #[trigger] self@[k] == rest[k],
                    decreases self.nodes.len() - i,
                {
                    let ghost before = self@;
                    self.nodes[i].drop_edges_to(id);
                    assert forall|k: int|
                        0 <= k < self.nodes.len() && k != i implies #[trigger] self@[k]
                        == before[k] by {}
                    assert(self@[i as int] == before[i as int].with_edges(not_to(id)));
                    i += 1;
                }
                Ok(node)
            },
            None => Err(AtlasError::NodeNotFound),
        }
    }

    /// Keeps the nodes whose id is one of `keep`, drops the others, and then
    /// every edge that leads to a node that is gone.
    pub fn retain_nodes(&mut self, keep: &[usize])
        ensures
            final(self)@ == retained(old(self)@, keep@),
    {
        let ghost was = self@;
        let ghost p = listed(keep@);
        let n = self.nodes.len();
        let mut done: usize = 0;
        let mut at: usize = 0;
        while done < n
            invariant
                done <= n,
                n == was.len(),
                p == listed(keep@),
                at <= done,
                at + (n - done) == self.nodes.len(),
                self@.len() == self.nodes.len(),
                self@ == was.take(done as int).filter(p) + was.skip(done as int),
                was.take(done as int).filter(p).len() == at,
            decreases n - done,
        {
            proof {
                lemma_filter_step(was, p, done as int);
                assert(self@[at as int] == was.skip(done as int)[0]);
            }
            if position(keep, self.nodes[at].id).is_some() {
                at += 1;
            } else {
                let ghost before = self@;
                self.nodes.remove(at);
                assert(self@ =~= before.remove(at as int));
            }
            done += 1;
        }
        assert(was.take(n as int) =~= was);
        self.prune();
    }

    /// Merges the nodes of `l2` into this layer, one by one and in order: a
    /// node whose id the layer has is folded into that node, any other node is
    /// appended. Nothing is deleted.
    pub fn merge(&mut self, l2: Layer) -> (r: Result<(), AtlasError>)
        ensures
            r is Ok,
            final(self)@ == merged(old(self)@, l2@),
    {
        self.merge_from(&l2);
        Ok(())
    }

    /// Merges the nodes of `l2` into this layer and leaves `l2` as it is.
    pub fn merge_from(&mut self, l2: &Layer)
        ensures
            final(self)@ == merged(old(self)@, l2@),
    {
        let ghost inc = l2@;
        let ghost step = |acc: Seq<NodeView>, n: NodeView| merge_node(acc, n);
        let mut k: usize = 0;
        while k < l2.nodes.len()
            invariant
                k <= l2.nodes.len(),
                inc == l2@,
                inc.len() == l2.nodes.len(),
                step == |acc: Seq<NodeView>, n: NodeView| merge_node(acc, n),
                self@ == inc.take(k as int).fold_left(old(self)@, step),
            decreases l2.nodes.len() - k,
        {
            proof {
                lemma_fold_step(inc, old(self)@, step, k as int);
            }
            match self.position(l2.nodes[k].id) {
                Some(i) => {
                    self.nodes[i].merge(&l2.nodes[k]);
                },
                None => {
                    self.nodes.push(l2.nodes[k].clone());
                },
            }
            k += 1;
        }
    }
}

/// What an observer sees of a layer.
impl Layer {
    /// Asks the observer about the position of every node that has one. The
    /// answer for a node without a position is no.
    pub fn sightings<F: Fn(&Coordinate) -> bool>(&self, observer: F) -> (mask: Vec<bool>)
        requires
            forall|c: &Coordinate| call_requires(observer, (c,)),
        ensures
            sighted(observer, self@, mask@),
    {
        let mut mask: Vec<bool> = Vec::new();
        let mut i: usize = 0;
        while i < self.nodes.len()
            invariant
                i <= self.nodes.len(),
                self@.len() == self.nodes.len(),
                mask@.len() == i,
                forall|c: &Coordinate| call_requires(observer, (c,)),
                forall|k: int|
                    0 <= k < i ==> match (#[trigger] self@[k]).coordinates {
                        Some(c) => call_ensures(observer, (&c,), mask@[k]),
                        None => !mask@[k],
                    },
            decreases self.nodes.len() - i,
        {
            let answer = match &self.nodes[i].coordinates {
                Some(c) => observer(c),
                None => false,
            };
            mask.push(answer);
            i += 1;
        }
        mask
    }

    /// A new layer of the nodes that `mask` marks, position by position,
    /// without the edges that lead to a node outside it.
    pub fn seen_nodes(&self, mask: &[bool]) -> (r: Layer)
        ensures
            r@ == seen(self@, mask@),
    {
        let mut out = Layer::new();
        let mut i: usize = 0;
        while i < self.nodes.len()
            invariant
                i <= self.nodes.len(),
                self@.len() == self.nodes.len(),
                out@ == masked(self@.take(i as int), mask@),
            decreases self.nodes.len() - i,
        {
            proof {
                lemma_masked_step(self@, mask@, i as int);
            }
            if i < mask.len() && mask[i] {
                out.push_node(self.nodes[i].clone());
            }
            i += 1;
        }
        assert(self@.take(self@.len() as int) =~= self@);
        out.prune();
        out
    }

    /// A new layer of the nodes that have a position of which the observer
    /// says yes, without the edges that lead to a node outside it.
    pub fn observable_nodes<F: Fn(&Coordinate) -> bool>(&self, observer: F) -> (r: Layer)
        requires
            forall|c: &Coordinate| call_requires(observer, (c,)),
        ensures
            exists|mask: Seq<bool>| sighted(observer, self@, mask) && r@ == seen(self@, mask),
            forall|i: int|
                0 <= i < r@.len() ==> (#[trigger] r@[i]).coordinates is Some && call_ensures(
                    observer,
                    (&r@[i].coordinates->0,),
                    true,
                ),
    {
        let mask = self.sightings(observer);
        let r = self.seen_nodes(&mask);
        proof {
            assert forall|i: int| 0 <= i < r@.len() implies (#[trigger] r@[i]).coordinates is Some
                && call_ensures(observer, (&r@[i].coordinates->0,), true) by {
                let k = lemma_masked_from(self@, mask@, i);
            }
        }
        r
    }
}

/// Walking the hierarchy, as far as one layer can.
impl Layer {
    /// A new layer of the nodes with the ids `wanted`, in that order, and the
    /// children of those nodes, in the same order.
    pub fn pick(&self, wanted: &[usize]) -> (r: (Layer, Vec<usize>))
        ensures
            r.0@ == picked(self@, wanted@),
            r.1@ == offspring(r.0@),
    {
        let mut out = Layer::new();
        let mut next: Vec<usize> = Vec::new();
        let mut k: usize = 0;
        while k < wanted.len()
            invariant
                k <= wanted.len(),
                out@ == picked(self@, wanted@.take(k as int)),
                next@ == offspring(out@),
            decreases wanted.len() - k,
        {
            proof {
                wanted@.lemma_filter_map_take_succ(found(self@), k as int);
            }
            match self.position(wanted[k]) {
                Some(i) => {
                    let node = self.nodes[i].clone();
                    let ghost before = out@;
                    let ghost had = next@;
                    let mut j: usize = 0;
                    while j < node.children.len()
                        invariant
                            j <= node.children.len(),
                            next@ == had + node@.children.take(j as int),
                        decreases node.children.len() - j,
                    {
                        next.push(node.children[j]);
                        j += 1;
                    }
                    out.push_node(node);
                    proof {
                        before.lemma_flat_map_push(children_of(), node@);
                    }
                },
                None => {},
            }
            k += 1;
        }
        assert(wanted@.take(wanted@.len() as int) =~= wanted@);
        (out, next)
    }

    /// Each node that names a parent, with that parent: node by node.
    pub fn bonds(&self) -> (r: Vec<(usize, usize)>)
        ensures
            r@ == bonds(self@),
    {
        let mut out: Vec<(usize, usize)> = Vec::new();
        let mut i: usize = 0;
        while i < self.nodes.len()
            invariant
                i <= self.nodes.len(),
                self@.len() == self.nodes.len(),
                out@ == bonds(self@.take(i as int)),
            decreases self.nodes.len() - i,
        {
            proof {
                self@.lemma_filter_map_take_succ(bond(), i as int);
            }
            match self.nodes[i].pid {
                Some(p) => {
                    let ghost before = out@;
                    out.push((self.nodes[i].id, p));
                },
                None => {},
            }
            i += 1;
        }
        assert(self@.take(self@.len() as int) =~= self@);
        out
    }

    /// The parents that the nodes name, node by node.
    pub fn parents(&self) -> (r: Vec<usize>)
        ensures
            r@ == parents(self@),
    {
        let mut out: Vec<usize> = Vec::new();
        let mut i: usize = 0;
        while i < self.nodes.len()
            invariant
                i <= self.nodes.len(),
                self@.len() == self.nodes.len(),
                out@ == parents(self@.take(i as int)),
            decreases self.nodes.len() - i,
        {
            proof {
                self@.lemma_filter_map_take_succ(parent_of(), i as int);
            }
            match self.nodes[i].pid {
                Some(p) => {
                    out.push(p);
                },
                None => {},
            }
            i += 1;
        }
        assert(self@.take(self@.len() as int) =~= self@);
        out
    }
}

} // verus!
