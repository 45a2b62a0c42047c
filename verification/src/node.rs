//! Nodes and what hangs on them: features, edges and an optional position.

use crate::error::AtlasError;
use crate::lookup::{
    first, is_first, lemma_filter_step, lemma_first_is, lemma_fold_step, position, swap_removed,
};
use vstd::prelude::*;

verus! {

/// The three-component vector of `glam`. The graph stores such positions and
/// hands them out again; it never looks inside one.
#[verifier::external_type_specification]
#[verifier::external_body]
pub struct ExVec3(glam::Vec3);

/// A position in space; right-handed, Y up.
pub type Coordinate = glam::Vec3;

/// What a [`Feature`] is: a key and a value, as text.
pub struct FeatureView {
    pub key: Seq<char>,
    pub value: Seq<char>,
}

/// What an [`Edge`] is: its endpoints and its description.
pub struct EdgeView {
    pub src: usize,
    pub dst: usize,
    pub desc: Seq<char>,
}

/// What a [`Node`] is.
pub struct NodeView {
    pub id: usize,
    pub pid: Option<usize>,
    pub children: Seq<usize>,
    pub edges: Seq<EdgeView>,
    pub features: Seq<FeatureView>,
    pub coordinates: Option<Coordinate>,
}

/// The keys of a feature list, in order.
pub open spec fn keys(features: Seq<FeatureView>) -> Seq<Seq<char>> {
    features.map_values(|f: FeatureView| f.key)
}

/// The destinations of an edge list, in order.
pub open spec fn dsts(edges: Seq<EdgeView>) -> Seq<usize> {
    edges.map_values(|e: EdgeView| e.dst)
}

/// Sets the value under the feature's key, at the first feature that has that
/// key; appends the feature where no feature has it.
pub open spec fn upsert_feature(features: Seq<FeatureView>, f: FeatureView) -> Seq<FeatureView> {
    if keys(features).contains(f.key) {
        features.update(first(keys(features), f.key), f)
    } else {
        features.push(f)
    }
}

/// Sets the description of the first edge to the same destination; appends
/// the edge where there is none.
pub open spec fn upsert_edge(edges: Seq<EdgeView>, e: EdgeView) -> Seq<EdgeView> {
    if dsts(edges).contains(e.dst) {
        let i = first(dsts(edges), e.dst);
        edges.update(i, EdgeView { desc: e.desc, ..edges[i] })
    } else {
        edges.push(e)
    }
}

/// The edges that do not lead to `id`.
pub open spec fn not_to(id: usize) -> spec_fn(EdgeView) -> bool {
    |e: EdgeView| e.dst != id
}

/// The edges that lead to one of `present`.
pub open spec fn within(present: Seq<usize>) -> spec_fn(EdgeView) -> bool {
    |e: EdgeView| present.contains(e.dst)
}

impl NodeView {
    /// This node with only those of its edges that `keep` holds of.
    pub open spec fn with_edges(self, keep: spec_fn(EdgeView) -> bool) -> NodeView {
        NodeView { edges: self.edges.filter(keep), ..self }
    }

    /// This node with one more edge, at the end.
    pub open spec fn with_edge(self, e: EdgeView) -> NodeView {
        NodeView { edges: self.edges.push(e), ..self }
    }

    /// This node without its edge at `i`; its last edge moves into the place.
    pub open spec fn without_edge(self, i: int) -> NodeView {
        NodeView { edges: swap_removed(self.edges, i), ..self }
    }

    /// This node nested under `parent`, or under no node.
    pub open spec fn with_parent(self, parent: Option<usize>) -> NodeView {
        NodeView { pid: parent, ..self }
    }

    /// This node without the child `id`; its last child moves into the place.
    pub open spec fn without_child(self, id: usize) -> NodeView {
        NodeView { children: swap_removed(self.children, first(self.children, id)), ..self }
    }

    /// This node with the child `id`, appended unless it is a child already.
    pub open spec fn with_child(self, id: usize) -> NodeView {
        NodeView {
            children: if self.children.contains(id) {
                self.children
            } else {
                self.children.push(id)
            },
            ..self
        }
    }

    /// Some feature has this key.
    pub open spec fn has_feature(self, key: Seq<char>) -> bool {
        keys(self.features).contains(key)
    }

    /// This node after the features and edges of `incoming` were folded into
    /// it, one by one and in order. Id, parent, children and position stay.
    pub open spec fn absorb(self, incoming: NodeView) -> NodeView {
        NodeView {
            features: incoming.features.fold_left(
                self.features,
                |acc: Seq<FeatureView>, f: FeatureView| upsert_feature(acc, f),
            ),
            edges: incoming.edges.fold_left(
                self.edges,
                |acc: Seq<EdgeView>, e: EdgeView| upsert_edge(acc, e),
            ),
            ..self
        }
    }
}

/// A key-value pair attached to a node.
#[derive(Debug, PartialEq, Eq)]
pub struct Feature {
    pub key: String,
    pub value: String,
}

impl View for Feature {
    type V = FeatureView;

    open spec fn view(&self) -> FeatureView {
        FeatureView { key: self.key@, value: self.value@ }
    }
}

impl Clone for Feature {
    fn clone(&self) -> (r: Self)
        ensures
            r@ == self@,
    {
        Feature { key: self.key.clone(), value: self.value.clone() }
    }
}

impl Feature {
    /// The feature with this key and this value.
    pub fn new(key: &str, value: &str) -> (r: Self)
        ensures
            r@ == (FeatureView { key: key@, value: value@ }),
    {
        Feature { key: key.to_owned(), value: value.to_owned() }
    }

    /// Same key and same value.
    pub fn same(&self, other: &Feature) -> (r: bool)
        ensures
            r == (self@ == other@),
    {
        self.key == other.key && self.value == other.value
    }
}

/// A directed relation between two nodes of one layer.
#[derive(Debug)]
pub struct Edge {
    pub src: usize,
    pub dst: usize,
    pub desc: String,
}

impl View for Edge {
    type V = EdgeView;

    open spec fn view(&self) -> EdgeView {
        EdgeView { src: self.src, dst: self.dst, desc: self.desc@ }
    }
}

impl Clone for Edge {
    fn clone(&self) -> (r: Self)
        ensures
            r@ == self@,
    {
        Edge { src: self.src, dst: self.dst, desc: self.desc.clone() }
    }
}

impl Edge {
    /// The edge from `src` to `dst` with this description.
    pub fn new(src: usize, dst: usize, desc: &str) -> (r: Self)
        ensures
            r@ == (EdgeView { src, dst, desc: desc@ }),
    {
        Edge { src, dst, desc: desc.to_owned() }
    }
}

/// The views of a vector of features.
pub open spec fn feature_views(v: Seq<Feature>) -> Seq<FeatureView> {
    v.map_values(|f: Feature| f@)
}

/// The views of a vector of edges.
pub open spec fn edge_views(v: Seq<Edge>) -> Seq<EdgeView> {
    v.map_values(|e: Edge| e@)
}

/// The texts of a list of keys.
pub open spec fn key_texts(ks: Seq<&str>) -> Seq<Seq<char>> {
    ks.map_values(|k: &str| k@)
}

/// The views of a list of sought features.
pub open spec fn feature_ref_views(fs: Seq<&Feature>) -> Seq<FeatureView> {
    fs.map_values(|f: &Feature| f@)
}

/// The nodes that have a feature under every one of `ks`.
pub open spec fn with_keys(ks: Seq<Seq<char>>) -> spec_fn(NodeView) -> bool {
    |n: NodeView| forall|i: int| 0 <= i < ks.len() ==> n.has_feature(#[trigger] ks[i])
}

/// The nodes that carry every one of the key-value pairs `fs`.
pub open spec fn with_features(fs: Seq<FeatureView>) -> spec_fn(NodeView) -> bool {
    |n: NodeView| forall|i: int| 0 <= i < fs.len() ==> n.features.contains(#[trigger] fs[i])
}

/// An entity of the scene. It lives in one layer, may be nested under a node
/// of the layer above and may have nodes of the layer below nested under it.
#[derive(Debug)]
pub struct Node {
    /// Unique across the graph.
    pub id: usize,
    /// The node this one is nested under, if any.
    pub pid: Option<usize>,
    /// The nodes nested under this one; no id twice.
    pub children: Vec<usize>,
    /// Edges to other nodes of the same layer.
    pub edges: Vec<Edge>,
    pub features: Vec<Feature>,
    pub coordinates: Option<Coordinate>,
}

impl View for Node {
    type V = NodeView;

    open spec fn view(&self) -> NodeView {
        NodeView {
            id: self.id,
            pid: self.pid,
            children: self.children@,
            edges: edge_views(self.edges@),
            features: feature_views(self.features@),
            coordinates: self.coordinates,
        }
    }
}

impl Clone for Node {
    fn clone(&self) -> (r: Self)
        ensures
            r@ == self@,
    {
        let r = Node {
            id: self.id,
            pid: self.pid,
            children: self.children.clone(),
            edges: self.edges.clone(),
            features: self.features.clone(),
            coordinates: self.coordinates,
        };
        assert(edge_views(r.edges@) =~= edge_views(self.edges@));
        assert(feature_views(r.features@) =~= feature_views(self.features@));
        r
    }
}

impl Node {
    /// A detached node: no parent, no children, no edges.
    pub fn new(id: usize, features: Vec<Feature>, coordinates: Option<Coordinate>) -> (r: Self)
        ensures
            r@ == (NodeView {
                id,
                pid: None,
                children: Seq::empty(),
                edges: Seq::empty(),
                features: feature_views(features@),
                coordinates,
            }),
            r.features == features,
    {
        let r = Node {
            id,
            pid: None,
            children: Vec::new(),
            edges: Vec::new(),
            features,
            coordinates,
        };
        assert(edge_views(r.edges@) =~= Seq::empty());
        r
    }

    /// Position of the first feature with this key.
    fn key_position(&self, key: &String) -> (r: Option<usize>)
        ensures
            r is Some <==> self@.has_feature(key@),
            r is Some ==> is_first(keys(self@.features), key@, r->0 as int) && r->0 == first(
                keys(self@.features),
                key@,
            ),
    {
        let ghost ks = keys(self@.features);
        let mut i: usize = 0;
        while i < self.features.len()
            invariant
                i <= self.features.len(),
                ks == keys(self@.features),
                ks.len() == self.features.len(),
                forall|j: int| 0 <= j < i ==> ks[j] != key@,
            decreases self.features.len() - i,
        {
            if self.features[i].key == *key {
                proof {
                    lemma_first_is(ks, key@, i as int);
                }
                return Some(i);
            }
            i += 1;
        }
        None
    }

    /// Position of the first edge to this destination.
    pub(crate) fn edge_position(&self, dst: usize) -> (r: Option<usize>)
        ensures
            r is Some <==> dsts(self@.edges).contains(dst),
            r is Some ==> is_first(dsts(self@.edges), dst, r->0 as int) && r->0 == first(
                dsts(self@.edges),
                dst,
            ),
    {
        let ghost ds = dsts(self@.edges);
        let mut i: usize = 0;
        while i < self.edges.len()
            invariant
                i <= self.edges.len(),
                ds == dsts(self@.edges),
                ds.len() == self.edges.len(),
                forall|j: int| 0 <= j < i ==> ds[j] != dst,
            decreases self.edges.len() - i,
        {
            if self.edges[i].dst == dst {
                proof {
                    assert(ds[i as int] == dst);
                }
                return Some(i);
            }
            i += 1;
        }
        None
    }

    /// Whether some feature has this key.
    pub fn has_feature(&self, key: &str) -> (r: bool)
        ensures
            r == self@.has_feature(key@),
    {
        let k = key.to_owned();
        self.key_position(&k).is_some()
    }

    /// Whether the node has a feature under every one of these keys.
    pub fn has_features(&self, keys: &[&str]) -> (r: bool)
        ensures
            r == with_keys(key_texts(keys@))(self@),
    {
        let ghost ks = key_texts(keys@);
        let mut i: usize = 0;
        while i < keys.len()
            invariant
                i <= keys.len(),
                ks == key_texts(keys@),
                ks.len() == keys@.len(),
                forall|j: int| 0 <= j < i ==> self@.has_feature(#[trigger] ks[j]),
            decreases keys.len() - i,
        {
            assert(ks[i as int] == keys@[i as int]@);
            if !self.has_feature(keys[i]) {
                return false;
            }
            i += 1;
        }
        true
    }

    /// Whether the node carries every one of these key-value pairs.
    pub fn match_features(&self, features: &[&Feature]) -> (r: bool)
        ensures
            r == with_features(feature_ref_views(features@))(self@),
    {
        let ghost fs = feature_ref_views(features@);
        let mut i: usize = 0;
        while i < features.len()
            invariant
                i <= features.len(),
                fs == feature_ref_views(features@),
                fs.len() == features@.len(),
                forall|j: int| 0 <= j < i ==> self@.features.contains(#[trigger] fs[j]),
            decreases features.len() - i,
        {
            assert(fs[i as int] == features@[i as int]@);
            if !self.match_feature(features[i]) {
                return false;
            }
            i += 1;
        }
        true
    }

    /// Whether the node carries exactly this key-value pair.
    pub fn match_feature(&self, f: &Feature) -> (r: bool)
        ensures
            r == self@.features.contains(f@),
    {
        let mut i: usize = 0;
        while i < self.features.len()
            invariant
                i <= self.features.len(),
                forall|j: int| 0 <= j < i ==> self@.features[j] != f@,
            decreases self.features.len() - i,
        {
            if self.features[i].same(f) {
                assert(self@.features[i as int] == f@);
                return true;
            }
            i += 1;
        }
        false
    }

    /// The value of the first feature with this key.
    pub fn feature(&self, key: &str) -> (r: Result<&str, AtlasError>)
        ensures
            match r {
                Ok(v) => self@.has_feature(key@) && v@ == self@.features[first(
                    keys(self@.features),
                    key@,
                )].value,
                Err(AtlasError::FeatureNotFound(k)) => !self@.has_feature(key@) && k@ == key@,
                Err(_) => false,
            },
    {
        let k = key.to_owned();
        match self.key_position(&k) {
            Some(i) => Ok(self.features[i].value.as_str()),
            None => Err(AtlasError::FeatureNotFound(k)),
        }
    }

    /// Sets the value under the feature's key, or adds the feature where the
    /// node has none with that key.
    pub fn set_feature(&mut self, feature: Feature)
        ensures
            final(self)@ == (NodeView {
                features: upsert_feature(old(self)@.features, feature@),
                ..old(self)@
            }),
    {
        match self.key_position(&feature.key) {
            Some(i) => {
                self.features[i] = feature;
                assert(feature_views(self.features@) =~= upsert_feature(
                    old(self)@.features,
                    feature@,
                ));
            },
            None => {
                self.features.push(feature);
                assert(feature_views(self.features@) =~= upsert_feature(
                    old(self)@.features,
                    feature@,
                ));
            },
        }
    }

    /// Sets the description of the edge to the same destination, or adds the
    /// edge where the node has none to that destination.
    pub fn set_edge(&mut self, edge: Edge)
        ensures
            final(self)@ == (NodeView {
                edges: upsert_edge(old(self)@.edges, edge@),
                ..old(self)@
            }),
    {
        match self.edge_position(edge.dst) {
            Some(i) => {
                self.edges[i].desc = edge.desc;
                assert(edge_views(self.edges@) =~= upsert_edge(old(self)@.edges, edge@));
            },
            None => {
                self.edges.push(edge);
                assert(edge_views(self.edges@) =~= upsert_edge(old(self)@.edges, edge@));
            },
        }
    }

    /// Folds the features and edges of `other` into this node: a feature
    /// replaces the value under its key, an edge the description of the edge
    /// to its destination, and what is new is appended. Nothing is removed.
    pub fn merge(&mut self, other: &Node)
        ensures
            final(self)@ == old(self)@.absorb(other@),
    {
        let ghost start = self@;
        let ghost fs = other@.features;
        let ghost es = other@.edges;
        let ghost upf = |acc: Seq<FeatureView>, f: FeatureView| upsert_feature(acc, f);
        let ghost upe = |acc: Seq<EdgeView>, e: EdgeView| upsert_edge(acc, e);
        let mut i: usize = 0;
        while i < other.features.len()
            invariant
                i <= other.features.len(),
                fs == other@.features,
                fs.len() == other.features.len(),
                upf == |acc: Seq<FeatureView>, f: FeatureView| upsert_feature(acc, f),
                self@ == (NodeView {
                    features: fs.take(i as int).fold_left(start.features, upf),
                    ..start
                }),
            decreases other.features.len() - i,
        {
            proof {
                lemma_fold_step(fs, start.features, upf, i as int);
            }
            self.set_feature(other.features[i].clone());
            i += 1;
        }
        let ghost mid = self@;
        let mut j: usize = 0;
        while j < other.edges.len()
            invariant
                j <= other.edges.len(),
                es == other@.edges,
                es.len() == other.edges.len(),
                upe == |acc: Seq<EdgeView>, e: EdgeView| upsert_edge(acc, e),
                self@ == (NodeView { edges: es.take(j as int).fold_left(mid.edges, upe), ..mid }),
            decreases other.edges.len() - j,
        {
            proof {
                lemma_fold_step(es, mid.edges, upe, j as int);
            }
            self.set_edge(other.edges[j].clone());
            j += 1;
        }
    }

    /// Drops every edge that leads to `id`.
    pub fn drop_edges_to(&mut self, id: usize)
        ensures
            final(self)@ == old(self)@.with_edges(not_to(id)),
    {
        let ghost es = self@.edges;
        let mut kept: Vec<Edge> = Vec::new();
        let mut i: usize = 0;
        while i < self.edges.len()
            invariant
                i <= self.edges.len(),
                es == edge_views(self.edges@),
                edge_views(kept@) == es.take(i as int).filter(not_to(id)),
            decreases self.edges.len() - i,
        {
            proof {
                lemma_filter_step(es, not_to(id), i as int);
            }
            if self.edges[i].dst != id {
                kept.push(self.edges[i].clone());
            }
            i += 1;
        }
        assert(es.take(es.len() as int) =~= es);
        self.edges = kept;
    }

    /// Keeps the edges that lead to one of `present` and drops the others.
    pub fn keep_edges_within(&mut self, present: &[usize])
        ensures
            final(self)@ == old(self)@.with_edges(within(present@)),
    {
        let ghost es = self@.edges;
        let mut kept: Vec<Edge> = Vec::new();
        let mut i: usize = 0;
        while i < self.edges.len()
            invariant
                i <= self.edges.len(),
                es == edge_views(self.edges@),
                edge_views(kept@) == es.take(i as int).filter(within(present@)),
            decreases self.edges.len() - i,
        {
            proof {
                lemma_filter_step(es, within(present@), i as int);
            }
            if position(present, self.edges[i].dst).is_some() {
                kept.push(self.edges[i].clone());
            }
            i += 1;
        }
        assert(es.take(es.len() as int) =~= es);
        self.edges = kept;
    }

    /// Takes `nid` out of the children; the last child moves into its place.
    pub fn remove_child(&mut self, nid: usize) -> (r: Result<(), AtlasError>)
        ensures
            match r {
                Ok(_) => old(self)@.children.contains(nid) && final(self)@ == old(
                    self,
                )@.without_child(nid),
                Err(e) => e == AtlasError::NodeNotFound && !old(self)@.children.contains(nid)
                    && *final(self) == *old(self),
            },
    {
        match position(&self.children, nid) {
            Some(i) => {
                self.children.swap_remove(i);
                Ok(())
            },
            None => Err(AtlasError::NodeNotFound),
        }
    }

    /// Adds `nid` to the children unless it is one already.
    pub fn add_child(&mut self, nid: usize)
        ensures
            final(self)@ == old(self)@.with_child(nid),
    {
        if position(&self.children, nid).is_none() {
            self.children.push(nid);
        }
    }
}

} // verus!
