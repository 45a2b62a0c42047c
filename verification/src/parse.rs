//! Building a scene graph from a concept graph: a list of labelled objects,
//! each with a cloud of coloured points, and a list of relations among the
//! objects.
//!
//! An object becomes a node of the upper layer, with its labels and
//! affordances as features; each of its points becomes a node of the lower
//! layer, nested under the object's node. The relations become edges of the
//! upper layer. The graph gives the nodes ids of its own, in the order in
//! which it creates them.

use crate::confinement::{all_edges_confined, edges_confined};
use crate::descent::well_nested;
use crate::error::AtlasError;
use crate::graph::{holds, nested, GraphView, SceneGraph};
use crate::hierarchy::{
    law_empty_is_well_nested, law_placing_keeps_well_nested, law_well_nested_by_nesting_alone,
};
use crate::layer::{ids, lookup, Layer};
use crate::lookup::{first, lemma_first_exists, lemma_first_is};
use crate::node::{
    feature_views, Coordinate, EdgeView, Feature, FeatureView, NodeView,
};
use vstd::prelude::*;

verus! {

/// What is said of a relation.
pub struct ConceptGraphEdgeMeta {
    pub desc: String,
}

/// A relation: from the object with the first id to the object with the
/// second.
pub struct ConceptGraphEdge(pub usize, pub usize, pub ConceptGraphEdgeMeta);

/// An object. Where it has more points than colours, or more colours than
/// points, the surplus is ignored.
pub struct ConceptGraphNode {
    pub node_id: usize,
    pub label: Vec<String>,
    pub label_affordance: Vec<String>,
    pub pcd_points: Vec<Coordinate>,
    /// The colour of each point, as text.
    pub pcd_colors: Vec<String>,
}

/// Objects and the relations among them.
pub struct ConceptGraph {
    pub nodes: Vec<ConceptGraphNode>,
    pub edges: Vec<ConceptGraphEdge>,
}

/// The texts of a vector of strings.
pub open spec fn texts(v: Seq<String>) -> Seq<Seq<char>> {
    v.map_values(|s: String| s@)
}

/// What a [`ConceptGraphNode`] is.
pub struct ConceptNodeView {
    pub node_id: usize,
    pub label: Seq<Seq<char>>,
    pub label_affordance: Seq<Seq<char>>,
    pub pcd_points: Seq<Coordinate>,
    pub pcd_colors: Seq<Seq<char>>,
}

/// What a [`ConceptGraphEdge`] is.
pub struct ConceptEdgeView {
    pub src: usize,
    pub dst: usize,
    pub desc: Seq<char>,
}

/// What a [`ConceptGraph`] is.
pub struct ConceptGraphView {
    pub nodes: Seq<ConceptNodeView>,
    pub edges: Seq<ConceptEdgeView>,
}

impl View for ConceptGraphNode {
    type V = ConceptNodeView;

    open spec fn view(&self) -> ConceptNodeView {
        ConceptNodeView {
            node_id: self.node_id,
            label: texts(self.label@),
            label_affordance: texts(self.label_affordance@),
            pcd_points: self.pcd_points@,
            pcd_colors: texts(self.pcd_colors@),
        }
    }
}

impl View for ConceptGraphEdge {
    type V = ConceptEdgeView;

    open spec fn view(&self) -> ConceptEdgeView {
        ConceptEdgeView { src: self.0, dst: self.1, desc: self.2.desc@ }
    }
}

impl View for ConceptGraph {
    type V = ConceptGraphView;

    open spec fn view(&self) -> ConceptGraphView {
        ConceptGraphView {
            nodes: self.nodes@.map_values(|n: ConceptGraphNode| n@),
            edges: self.edges@.map_values(|e: ConceptGraphEdge| e@),
        }
    }
}

/// The feature that a label becomes.
pub open spec fn label_feature() -> spec_fn(Seq<char>) -> FeatureView {
    |l: Seq<char>| FeatureView { key: l, value: "label"@ }
}

/// The feature that an affordance becomes.
pub open spec fn affordance_feature() -> spec_fn(Seq<char>) -> FeatureView {
    |l: Seq<char>| FeatureView { key: l, value: "affordance"@ }
}

impl ConceptNodeView {
    /// The number of points that have a colour.
    pub open spec fn samples(self) -> nat {
        if self.pcd_points.len() <= self.pcd_colors.len() {
            self.pcd_points.len()
        } else {
            self.pcd_colors.len()
        }
    }

    /// The features of the object's node: a feature for each label, then
    /// one for each affordance.
    pub open spec fn features(self) -> Seq<FeatureView> {
        self.label.map_values(label_feature()) + self.label_affordance.map_values(
            affordance_feature(),
        )
    }

    /// The object's node, once its first `k` points are nested under it. It
    /// has the id `id`; its points have the ids that follow.
    pub open spec fn semantic(self, id: usize, k: nat) -> NodeView {
        NodeView {
            id,
            pid: None,
            children: Seq::new(k, |j: int| (id + 1 + j) as usize),
            edges: Seq::empty(),
            features: self.features(),
            coordinates: None,
        }
    }

    /// The node of the object's point `j`, nested under the object's node
    /// `id`.
    pub open spec fn sample(self, id: usize, j: int) -> NodeView {
        NodeView {
            id: (id + 1 + j) as usize,
            pid: Some(id),
            children: Seq::empty(),
            edges: Seq::empty(),
            features: seq![FeatureView { key: "color"@, value: self.pcd_colors[j] }],
            coordinates: Some(self.pcd_points[j]),
        }
    }

    /// The nodes of the object's first `k` points.
    pub open spec fn cloud(self, id: usize, k: nat) -> Seq<NodeView> {
        Seq::new(k, |j: int| self.sample(id, j))
    }
}

/// The number of nodes that the objects become: one for each object and one
/// for each of its points.
pub open spec fn node_total(nodes: Seq<ConceptNodeView>) -> nat
    decreases nodes.len(),
{
    if nodes.len() == 0 {
        0
    } else {
        node_total(nodes.drop_last()) + 1 + nodes.last().samples()
    }
}

/// The lower layer: the points of the first object, then those of the
/// second, and so on.
pub open spec fn point_layer(nodes: Seq<ConceptNodeView>) -> Seq<NodeView>
    decreases nodes.len(),
{
    if nodes.len() == 0 {
        Seq::empty()
    } else {
        point_layer(nodes.drop_last()) + nodes.last().cloud(
            node_total(nodes.drop_last()) as usize,
            nodes.last().samples(),
        )
    }
}

/// The upper layer before the relations are entered: the objects in order.
pub open spec fn semantic_layer(nodes: Seq<ConceptNodeView>) -> Seq<NodeView>
    decreases nodes.len(),
{
    if nodes.len() == 0 {
        Seq::empty()
    } else {
        semantic_layer(nodes.drop_last()).push(
            nodes.last().semantic(node_total(nodes.drop_last()) as usize, nodes.last().samples()),
        )
    }
}

/// Each object's own id with the id of its node, in order.
pub open spec fn id_pairs(nodes: Seq<ConceptNodeView>) -> Seq<(usize, usize)>
    decreases nodes.len(),
{
    if nodes.len() == 0 {
        Seq::empty()
    } else {
        id_pairs(nodes.drop_last()).push(
            (nodes.last().node_id, node_total(nodes.drop_last()) as usize),
        )
    }
}

/// The second of the last pair whose first is `key`.
pub open spec fn last_of(pairs: Seq<(usize, usize)>, key: usize) -> Option<usize>
    decreases pairs.len(),
{
    if pairs.len() == 0 {
        None
    } else if pairs.last().0 == key {
        Some(pairs.last().1)
    } else {
        last_of(pairs.drop_last(), key)
    }
}

/// The upper layer with the relations entered as edges, in order: each on
/// the node of its source. None where a relation names an object that is
/// not among the objects. Of two objects with the same id, the later one is
/// meant.
pub open spec fn linked(
    semantic: Seq<NodeView>,
    pairs: Seq<(usize, usize)>,
    edges: Seq<ConceptEdgeView>,
) -> Option<Seq<NodeView>>
    decreases edges.len(),
{
    if edges.len() == 0 {
        Some(semantic)
    } else {
        match (
            linked(semantic, pairs, edges.drop_last()),
            last_of(pairs, edges.last().src),
            last_of(pairs, edges.last().dst),
        ) {
            (Some(upper), Some(s), Some(d)) => Some(
                upper.update(
                    first(ids(upper), s),
                    lookup(upper, s).with_edge(EdgeView { src: s, dst: d, desc: edges.last().desc }),
                ),
            ),
            _ => None,
        }
    }
}

/// The scene graph that the concept graph becomes; none where a relation
/// names an object that is not among the objects.
pub open spec fn imported(cg: ConceptGraphView) -> Option<GraphView> {
    match linked(semantic_layer(cg.nodes), id_pairs(cg.nodes), cg.edges) {
        Some(upper) => Some(
            GraphView {
                layers: seq![point_layer(cg.nodes), upper],
                node_counter: node_total(cg.nodes) as usize,
            },
        ),
        None => None,
    }
}

/// One of the objects has this id.
pub open spec fn names(nodes: Seq<ConceptNodeView>, id: usize) -> bool {
    exists|i: int| 0 <= i < nodes.len() && (#[trigger] nodes[i]).node_id == id
}

/// Every relation is between objects of the graph.
pub open spec fn related(cg: ConceptGraphView) -> bool {
    forall|k: int|
        0 <= k < cg.edges.len() ==> names(cg.nodes, (#[trigger] cg.edges[k]).src) && names(
            cg.nodes,
            cg.edges[k].dst,
        )
}

/// An id is found among the pairs exactly if one of the objects has it.
pub proof fn lemma_found_when_named(nodes: Seq<ConceptNodeView>, id: usize)
    ensures
        last_of(id_pairs(nodes), id) is Some <==> names(nodes, id),
    decreases nodes.len(),
{
    if nodes.len() > 0 {
        let rest = nodes.drop_last();
        lemma_found_when_named(rest, id);
        assert(id_pairs(nodes).drop_last() =~= id_pairs(rest));
        if nodes.last().node_id != id && names(nodes, id) {
            let i = choose|i: int| 0 <= i < nodes.len() && (#[trigger] nodes[i]).node_id == id;
            assert(rest[i].node_id == id);
        }
    }
}

/// The relations can all be entered exactly if each is between ids that are
/// found.
pub proof fn lemma_linked_when(
    semantic: Seq<NodeView>,
    pairs: Seq<(usize, usize)>,
    edges: Seq<ConceptEdgeView>,
)
    ensures
        linked(semantic, pairs, edges) is Some <==> forall|k: int|
            0 <= k < edges.len() ==> last_of(pairs, (#[trigger] edges[k]).src) is Some && last_of(
                pairs,
                edges[k].dst,
            ) is Some,
    decreases edges.len(),
{
    if edges.len() > 0 {
        let rest = edges.drop_last();
        lemma_linked_when(semantic, pairs, rest);
        if linked(semantic, pairs, edges) is Some {
            assert forall|k: int| 0 <= k < edges.len() implies last_of(
                pairs,
                (#[trigger] edges[k]).src,
            ) is Some && last_of(pairs, edges[k].dst) is Some by {
                if k < rest.len() {
                    assert(rest[k] == edges[k]);
                }
            }
        }
    }
}

/// A concept graph becomes a scene graph exactly if every relation is
/// between objects of the graph.
pub proof fn lemma_imported_when(cg: ConceptGraphView)
    ensures
        imported(cg) is Some <==> related(cg),
{
    lemma_linked_when(semantic_layer(cg.nodes), id_pairs(cg.nodes), cg.edges);
    assert forall|k: int| 0 <= k < cg.edges.len() implies (last_of(
        id_pairs(cg.nodes),
        (#[trigger] cg.edges[k]).src,
    ) is Some && last_of(id_pairs(cg.nodes), cg.edges[k].dst) is Some) == (names(
        cg.nodes,
        cg.edges[k].src,
    ) && names(cg.nodes, cg.edges[k].dst)) by {
        lemma_found_when_named(cg.nodes, cg.edges[k].src);
        lemma_found_when_named(cg.nodes, cg.edges[k].dst);
    }
}

/// The nodes of fewer objects are fewer.
pub proof fn lemma_total_grows(nodes: Seq<ConceptNodeView>, i: int)
    requires
        0 <= i <= nodes.len(),
    ensures
        node_total(nodes.take(i)) <= node_total(nodes),
    decreases nodes.len(),
{
    if i < nodes.len() {
        assert(nodes.drop_last().take(i) =~= nodes.take(i));
        lemma_total_grows(nodes.drop_last(), i);
    } else {
        assert(nodes.take(i) =~= nodes);
    }
}

/// Every id of the two layers is below the number of nodes that the objects
/// become.
pub proof fn lemma_ids_below(nodes: Seq<ConceptNodeView>)
    requires
        node_total(nodes) <= usize::MAX,
    ensures
        forall|k: int|
            0 <= k < point_layer(nodes).len() ==> (#[trigger] point_layer(nodes)[k]).id
                < node_total(nodes),
        forall|k: int|
            0 <= k < semantic_layer(nodes).len() ==> (#[trigger] semantic_layer(nodes)[k]).id
                < node_total(nodes),
        semantic_layer(nodes).len() == nodes.len(),
        id_pairs(nodes).len() == nodes.len(),
        forall|k: int|
            0 <= k < nodes.len() ==> (#[trigger] id_pairs(nodes)[k]).1 == semantic_layer(nodes)[k].id,
        forall|k: int|
            0 <= k < point_layer(nodes).len() ==> (#[trigger] point_layer(nodes)[k]).edges.len()
                == 0,
        forall|k: int|
            0 <= k < semantic_layer(nodes).len() ==> (#[trigger] semantic_layer(
                nodes,
            )[k]).edges.len() == 0,
    decreases nodes.len(),
{
    if nodes.len() > 0 {
        let rest = nodes.drop_last();
        lemma_ids_below(rest);
        let id = node_total(rest) as usize;
        let upper = semantic_layer(nodes);
        assert forall|k: int| 0 <= k < nodes.len() implies (#[trigger] id_pairs(nodes)[k]).1
            == semantic_layer(nodes)[k].id by {
            if k < rest.len() {
                assert(id_pairs(nodes)[k] == id_pairs(rest)[k]);
                assert(upper[k] == semantic_layer(rest)[k]);
            }
        }
    }
}

/// Nesting a node that was just placed under a node that was just placed
/// succeeds where neither id was in use: the point names the object's node
/// as its parent, and that node lists the point.
pub proof fn lemma_nest_placed(
    lower: Seq<NodeView>,
    upper: Seq<NodeView>,
    point: NodeView,
    object: NodeView,
)
    requires
        point.pid is None,
        point.id != object.id,
        !ids(lower).contains(point.id),
        !ids(lower).contains(object.id),
        !ids(upper).contains(object.id),
        !object.children.contains(point.id),
    ensures
        nested(seq![lower.push(point), upper.push(object)], point.id, object.id) == (
            seq![
                lower.push(point.with_parent(Some(object.id))),
                upper.push(object.with_child(point.id)),
            ],
            None::<AtlasError>,
        ),
{
    let a = lower.push(point);
    let b = upper.push(object);
    let layers = seq![a, b];
    assert(ids(a) =~= ids(lower).push(point.id));
    assert(ids(b) =~= ids(upper).push(object.id));
    assert(ids(a)[lower.len() as int] == point.id);
    assert(ids(b)[upper.len() as int] == object.id);
    let ho = holds(layers, object.id);
    lemma_first_is(ho, true, 1);
    let hp = holds(layers, point.id);
    assert(hp[0] == true);
    lemma_first_is(hp, true, 0);
    lemma_first_is(ids(a), point.id, lower.len() as int);
    let claimed_point = point.with_parent(Some(object.id));
    let a2 = lower.push(claimed_point);
    assert(a.update(lower.len() as int, claimed_point) =~= a2);
    let claimed = seq![a2, b];
    assert(layers.update(0, a2) =~= claimed);
    assert(ids(a2) =~= ids(a));
    let hc = holds(claimed, object.id);
    lemma_first_is(hc, true, 1);
    lemma_first_is(ids(b), object.id, upper.len() as int);
    let b2 = upper.push(object.with_child(point.id));
    assert(b.update(upper.len() as int, object.with_child(point.id)) =~= b2);
}

/// Where the first relations cannot all be entered, neither can all.
pub proof fn lemma_linked_fails(
    semantic: Seq<NodeView>,
    pairs: Seq<(usize, usize)>,
    edges: Seq<ConceptEdgeView>,
    k: int,
)
    requires
        0 <= k <= edges.len(),
        linked(semantic, pairs, edges.take(k)) is None,
    ensures
        linked(semantic, pairs, edges) is None,
    decreases edges.len(),
{
    if k < edges.len() {
        assert(edges.drop_last().take(k) =~= edges.take(k));
        lemma_linked_fails(semantic, pairs, edges.drop_last(), k);
    } else {
        assert(edges.take(k) =~= edges);
    }
}

/// What is found for a key is the second of one of the pairs.
pub proof fn lemma_last_of_in(pairs: Seq<(usize, usize)>, key: usize) -> (at: int)
    requires
        last_of(pairs, key) is Some,
    ensures
        0 <= at < pairs.len(),
        pairs[at].1 == last_of(pairs, key)->0,
    decreases pairs.len(),
{
    if pairs.last().0 == key {
        pairs.len() - 1
    } else {
        lemma_last_of_in(pairs.drop_last(), key)
    }
}

/// The second of the last pair whose first is `key`.
fn last_id(pairs: &Vec<(usize, usize)>, key: usize) -> (r: Option<usize>)
    ensures
        r == last_of(pairs@, key),
{
    let mut n = pairs.len();
    assert(pairs@.take(n as int) =~= pairs@);
    while n > 0
        invariant
            n <= pairs.len(),
            last_of(pairs@, key) == last_of(pairs@.take(n as int), key),
        decreases n,
    {
        assert(pairs@.take(n as int).drop_last() =~= pairs@.take(n as int - 1));
        if pairs[n - 1].0 == key {
            return Some(pairs[n - 1].1);
        }
        n -= 1;
    }
    None
}

impl ConceptGraphNode {
    /// The features of the object's node: a feature for each label, then
    /// one for each affordance.
    pub fn features(&self) -> (r: Vec<Feature>)
        ensures
            feature_views(r@) == self@.features(),
    {
        let ghost labels = self@.label;
        let ghost affordances = self@.label_affordance;
        let mut out: Vec<Feature> = Vec::new();
        let mut i: usize = 0;
        while i < self.label.len()
            invariant
                i <= self.label.len(),
                labels == texts(self.label@),
                labels.len() == self.label.len(),
                feature_views(out@).len() == out@.len(),
                feature_views(out@) == labels.take(i as int).map_values(label_feature()),
            decreases self.label.len() - i,
        {
            let f = Feature::new(self.label[i].as_str(), "label");
            let ghost before = feature_views(out@);
            out.push(f);
            proof {
                assert(feature_views(out@) =~= before.push(f@));
            }
            i += 1;
        }
        let ghost first_part = feature_views(out@);
        let mut j: usize = 0;
        while j < self.label_affordance.len()
            invariant
                j <= self.label_affordance.len(),
                affordances == texts(self.label_affordance@),
                affordances.len() == self.label_affordance.len(),
                feature_views(out@).len() == out@.len(),
                feature_views(out@) == first_part + affordances.take(j as int).map_values(
                    affordance_feature(),
                ),
            decreases self.label_affordance.len() - j,
        {
            let f = Feature::new(self.label_affordance[j].as_str(), "affordance");
            let ghost before = feature_views(out@);
            out.push(f);
            proof {
                assert(feature_views(out@) =~= before.push(f@));
            }
            j += 1;
        }
        out
    }

    /// The number of points that have a colour.
    pub fn samples(&self) -> (r: usize)
        ensures
            r == self@.samples(),
    {
        if self.pcd_points.len() <= self.pcd_colors.len() {
            self.pcd_points.len()
        } else {
            self.pcd_colors.len()
        }
    }
}

impl ConceptGraph {
    /// Whether the graph can number the nodes that the objects become.
    pub fn fits(&self) -> (r: bool)
        ensures
            r == (node_total(self@.nodes) <= usize::MAX),
    {
        let ghost ns = self@.nodes;
        let mut total: usize = 0;
        let mut i: usize = 0;
        while i < self.nodes.len()
            invariant
                i <= self.nodes.len(),
                ns == self@.nodes,
                ns.len() == self.nodes.len(),
                total == node_total(ns.take(i as int)),
            decreases self.nodes.len() - i,
        {
            proof {
                assert(ns.take(i as int + 1).drop_last() =~= ns.take(i as int));
                lemma_total_grows(ns, i as int + 1);
            }
            let k = self.nodes[i].samples();
            if k == usize::MAX || total > usize::MAX - 1 - k {
                return false;
            }
            total = total + 1 + k;
            i += 1;
        }
        assert(ns.take(ns.len() as int) =~= ns);
        true
    }
}

impl SceneGraph {
    /// The scene graph that the concept graph becomes: see [`imported`]. It
    /// fails where a relation names an object that is not among the objects.
    pub fn from_concept_graph(cg: ConceptGraph) -> (r: Result<SceneGraph, AtlasError>)
        requires
            node_total(cg@.nodes) <= usize::MAX,
        ensures
            r is Ok <==> related(cg@),
            match r {
                Ok(g) => imported(cg@) == Some(g@) && well_nested(g@.layers)
                    && all_edges_confined(g@.layers),
                Err(e) => e == AtlasError::NodeNotFound && imported(cg@) is None,
            },
    {
        proof {
            lemma_imported_when(cg@);
        }
        let ghost ns = cg@.nodes;
        let mut sg = SceneGraph::default();
        sg.layers.push(Layer::new());
        sg.layers.push(Layer::new());
        let mut pairs: Vec<(usize, usize)> = Vec::new();
        proof {
            law_empty_is_well_nested();
        }
        let mut i: usize = 0;
        while i < cg.nodes.len()
            invariant
                i <= cg.nodes.len(),
                ns == cg@.nodes,
                ns.len() == cg.nodes.len(),
                node_total(ns) <= usize::MAX,
                sg.layers@.len() == 2,
                sg@.layers == seq![
                    point_layer(ns.take(i as int)),
                    semantic_layer(ns.take(i as int)),
                ],
                sg.node_counter == node_total(ns.take(i as int)),
                pairs@ == id_pairs(ns.take(i as int)),
                well_nested(sg@.layers),
            decreases cg.nodes.len() - i,
        {
            let node = &cg.nodes[i];
            let ghost nv = ns[i as int];
            let ghost done = ns.take(i as int);
            let ghost lower = point_layer(done);
            let ghost upper = semantic_layer(done);
            proof {
                assert(ns.take(i as int + 1).drop_last() =~= done);
                lemma_total_grows(ns, i as int + 1);
                lemma_ids_below(done);
            }
            let features = node.features();
            let object = sg.new_node(features);
            let id = object.id;
            pairs.push((node.node_id, id));
            sg.layers[1].push_node(object);
            let count = node.samples();
            proof {
                assert(nv.semantic(id, 0).children =~= Seq::<usize>::empty());
                let before = seq![lower, upper];
                law_placing_keeps_well_nested(before, 1, nv.semantic(id, 0));
                assert(sg@.layers =~= before.update(1, before[1].push(nv.semantic(id, 0))));
            }
            let mut j: usize = 0;
            while j < count
                invariant
                    j <= count,
                    count == nv.samples(),
                    nv == node@,
                    id == node_total(done),
                    id + 1 + count <= usize::MAX,
                    lower == point_layer(done),
                    upper == semantic_layer(done),
                    forall|k: int| 0 <= k < lower.len() ==> (#[trigger] lower[k]).id < id,
                    forall|k: int| 0 <= k < upper.len() ==> (#[trigger] upper[k]).id < id,
                    sg.layers@.len() == 2,
                    sg@.layers == seq![
                        lower + nv.cloud(id, j as nat),
                        upper.push(nv.semantic(id, j as nat)),
                    ],
                    sg.node_counter == id + 1 + j,
                    well_nested(sg@.layers),
                decreases count - j,
            {
                let ghost had = lower + nv.cloud(id, j as nat);
                let ghost object_now = nv.semantic(id, j as nat);
                let mut fs: Vec<Feature> = Vec::new();
                fs.push(Feature::new("color", node.pcd_colors[j].as_str()));
                let point = sg.new_coordinates(node.pcd_points[j], fs);
                let point_id = point.id;
                let ghost placed = point@;
                sg.layers[0].push_node(point);
                proof {
                    assert(placed.features =~= nv.sample(id, j as int).features);
                    assert(sg@.layers =~= seq![had.push(placed), upper.push(object_now)]);
                    lemma_nest_placed(had, upper, placed, object_now);
                    let prev = seq![had, upper.push(object_now)];
                    law_placing_keeps_well_nested(prev, 0, placed);
                    assert(sg@.layers =~= prev.update(0, prev[0].push(placed)));
                }
                match sg.nest_under(point_id, id) {
                    Ok(_) => {},
                    Err(e) => {
                        return Err(e);
                    },
                }
                proof {
                    assert(object_now.with_child(point_id).children =~= nv.semantic(
                        id,
                        (j + 1) as nat,
                    ).children);
                    assert(had.push(nv.sample(id, j as int)) =~= lower + nv.cloud(
                        id,
                        (j + 1) as nat,
                    ));
                }
                j += 1;
            }
            i += 1;
        }
        let ghost es = cg@.edges;
        let ghost semantic = semantic_layer(ns);
        proof {
            assert(ns.take(ns.len() as int) =~= ns);
            lemma_ids_below(ns);
        }
        let mut k: usize = 0;
        while k < cg.edges.len()
            invariant
                k <= cg.edges.len(),
                imported(cg@) is Some <==> related(cg@),
                ns == cg@.nodes,
                es == cg@.edges,
                es.len() == cg.edges.len(),
                semantic == semantic_layer(ns),
                semantic.len() == ns.len(),
                pairs@ == id_pairs(ns),
                pairs@.len() == ns.len(),
                forall|w: int|
                    0 <= w < ns.len() ==> (#[trigger] id_pairs(ns)[w]).1 == semantic[w].id,
                sg.layers@.len() == 2,
                sg.node_counter == node_total(ns),
                sg@.layers[0] == point_layer(ns),
                ids(sg@.layers[1]) == ids(semantic),
                linked(semantic, pairs@, es.take(k as int)) == Some(sg@.layers[1]),
                sg@.layers.len() == 2,
                well_nested(sg@.layers),
                edges_confined(sg@.layers[0]),
                edges_confined(sg@.layers[1]),
            decreases cg.edges.len() - k,
        {
            let edge = &cg.edges[k];
            proof {
                assert(es.take(k as int + 1).drop_last() =~= es.take(k as int));
            }
            let s = match last_id(&pairs, edge.0) {
                Some(s) => s,
                None => {
                    proof {
                        lemma_linked_fails(semantic, pairs@, es, k as int + 1);
                    }
                    return Err(AtlasError::NodeNotFound);
                },
            };
            let d = match last_id(&pairs, edge.1) {
                Some(d) => d,
                None => {
                    proof {
                        lemma_linked_fails(semantic, pairs@, es, k as int + 1);
                    }
                    return Err(AtlasError::NodeNotFound);
                },
            };
            let ghost upper = sg@.layers[1];
            proof {
                let ws = lemma_last_of_in(pairs@, edge.0);
                assert(ids(semantic)[ws] == s);
                let wd = lemma_last_of_in(pairs@, edge.1);
                assert(ids(semantic)[wd] == d);
                lemma_first_exists(ids(upper), s);
            }
            let ghost before = sg@.layers;
            match sg.layers[1].add_edge(s, d, edge.2.desc.as_str()) {
                Ok(_) => {},
                Err(e) => {
                    return Err(e);
                },
            }
            proof {
                law_well_nested_by_nesting_alone(before, sg@.layers);
            }
            k += 1;
        }
        proof {
            assert(es.take(es.len() as int) =~= es);
            assert(sg@.layers =~= seq![point_layer(ns), sg@.layers[1]]);
        }
        Ok(sg)
    }
}

} // verus!
