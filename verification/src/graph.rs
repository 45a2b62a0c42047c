//! The scene graph: a stack of layers, from the most concrete at index 0 to
//! the most abstract at the top. A node may be nested under a node of the
//! layer directly above its own.

use crate::confinement::{
    all_edges_confined, law_delete_keeps_edges_confined, law_nesting_keeps_edges_confined,
};
use crate::descent::{hangs_below, law_delete_takes_no_other, law_delete_takes_node, well_nested};
use crate::error::AtlasError;
use crate::hierarchy::{law_delete_keeps_well_nested, law_nesting_keeps_well_nested};
use crate::layer::{ids, lookup, without_node, Layer};
use crate::lookup::{first, is_first, lemma_first_exists, lemma_first_is, position};
use crate::node::{feature_views, Coordinate, Feature, Node, NodeView};
use vstd::prelude::*;

verus! {

/// What a [`SceneGraph`] is: its layers, bottom first, and the id that the
/// next new node gets.
pub struct GraphView {
    pub layers: Seq<Seq<NodeView>>,
    pub node_counter: usize,
}

/// The views of a vector of layers.
pub open spec fn layer_views(v: Seq<Layer>) -> Seq<Seq<NodeView>> {
    v.map_values(|l: Layer| l@)
}

/// For each layer, whether it has a node with this id.
pub open spec fn holds(layers: Seq<Seq<NodeView>>, id: usize) -> Seq<bool> {
    layers.map_values(|l: Seq<NodeView>| ids(l).contains(id))
}

/// Some layer has a node with this id.
pub open spec fn has_node(layers: Seq<Seq<NodeView>>, id: usize) -> bool {
    holds(layers, id).contains(true)
}

/// The lowest layer that has a node with this id; meaningful only where
/// there is one.
pub open spec fn layer_of(layers: Seq<Seq<NodeView>>, id: usize) -> int {
    first(holds(layers, id), true)
}

/// The node with this id: the first one in the lowest layer that has one.
pub open spec fn node_of(layers: Seq<Seq<NodeView>>, id: usize) -> NodeView {
    lookup(layers[layer_of(layers, id)], id)
}

/// The layers with `node` in the place of the node with this id.
pub open spec fn with_node(layers: Seq<Seq<NodeView>>, id: usize, node: NodeView) -> Seq<
    Seq<NodeView>,
> {
    let at = layer_of(layers, id);
    layers.update(at, layers[at].update(first(ids(layers[at]), id), node))
}

impl GraphView {
    /// Some layer has a node with this id.
    pub open spec fn has_node(self, id: usize) -> bool {
        has_node(self.layers, id)
    }

    /// The lowest layer that has a node with this id.
    pub open spec fn layer_of(self, id: usize) -> int {
        layer_of(self.layers, id)
    }

    /// The node with this id.
    pub open spec fn node(self, id: usize) -> NodeView {
        node_of(self.layers, id)
    }

    /// This graph after `k` more nodes were created. Creating a node moves
    /// no layer: it only uses up an id.
    pub open spec fn after_creating(self, k: nat) -> GraphView {
        GraphView { node_counter: (self.node_counter + k) as usize, ..self }
    }
}

/// What nesting `nestee` under `nester` makes of the layers, and the failure
/// if there is one. Both nodes must exist, the nester's layer must be the one
/// directly above the nestee's, and the nestee's present parent, if it has
/// one, must exist and list it: otherwise nothing changes. Then the present
/// parent gives the nestee up, the nestee records its new parent, and the
/// nester takes it in, unless it lists it already.
pub open spec fn nested(layers: Seq<Seq<NodeView>>, nestee: usize, nester: usize) -> (
    Seq<Seq<NodeView>>,
    Option<AtlasError>,
) {
    if !has_node(layers, nester) || !has_node(layers, nestee) {
        (layers, Some(AtlasError::NodeNotFound))
    } else if layer_of(layers, nester) != layer_of(layers, nestee) + 1 {
        (
            layers,
            Some(
                AtlasError::InvalidLayersForNesting(
                    layer_of(layers, nestee) as usize,
                    layer_of(layers, nester) as usize,
                ),
            ),
        )
    } else if !parent_listed(layers, nestee) {
        (layers, Some(AtlasError::NodeNotFound))
    } else {
        let released = match node_of(layers, nestee).pid {
            Some(parent) => with_node(
                layers,
                parent,
                node_of(layers, parent).without_child(nestee),
            ),
            None => layers,
        };
        let claimed = with_node(
            released,
            nestee,
            node_of(released, nestee).with_parent(Some(nester)),
        );
        (with_node(claimed, nester, node_of(claimed, nester).with_child(nestee)), None)
    }
}

/// The parent that a node names exists and lists the node among its
/// children.
pub open spec fn parent_listed(layers: Seq<Seq<NodeView>>, id: usize) -> bool {
    match node_of(layers, id).pid {
        Some(p) => has_node(layers, p) && node_of(layers, p).children.contains(id),
        None => true,
    }
}

/// What deleting the nodes `targets` of the layer `at`, one after the other,
/// makes of the layers: each target leaves its layer together with the edges
/// that led to it, then its children leave the layer below in the same way,
/// and so on downwards. The first node that cannot be found ends the
/// deletion with what was deleted so far; so does a child of a node of the
/// bottom layer, for which there is no layer to look in.
pub open spec fn cascade(layers: Seq<Seq<NodeView>>, at: int, targets: Seq<usize>) -> (
    Seq<Seq<NodeView>>,
    Option<AtlasError>,
)
    decreases at + 1, targets.len(),
{
    if targets.len() == 0 {
        (layers, None)
    } else if at < 0 || at >= layers.len() {
        (
            layers,
            Some(
                AtlasError::LayerOutOfBounds(
                    if at < 0 {
                        usize::MAX
                    } else {
                        at as usize
                    },
                    layers.len() as usize,
                ),
            ),
        )
    } else if !ids(layers[at]).contains(targets[0]) {
        (layers, Some(AtlasError::NodeNotFound))
    } else {
        let gone = lookup(layers[at], targets[0]);
        let (below, failed) = cascade(
            layers.update(at, without_node(layers[at], targets[0])),
            at - 1,
            gone.children,
        );
        if failed is Some {
            (below, failed)
        } else {
            cascade(below, at, targets.drop_first())
        }
    }
}

/// What taking the node `nid` of the layer `at` out of its parent's children
/// makes of the layers. The parent is looked for in the layer above.
pub open spec fn detached(layers: Seq<Seq<NodeView>>, at: int, nid: usize) -> (
    Seq<Seq<NodeView>>,
    Option<AtlasError>,
) {
    match lookup(layers[at], nid).pid {
        None => (layers, None),
        Some(parent) => if at + 1 >= layers.len() {
            (layers, Some(AtlasError::LayerOutOfBounds((at + 1) as usize, layers.len() as usize)))
        } else if !ids(layers[at + 1]).contains(parent) || !lookup(
            layers[at + 1],
            parent,
        ).children.contains(nid) {
            (layers, Some(AtlasError::NodeNotFound))
        } else {
            (
                layers.update(
                    at + 1,
                    layers[at + 1].update(
                        first(ids(layers[at + 1]), parent),
                        lookup(layers[at + 1], parent).without_child(nid),
                    ),
                ),
                None,
            )
        },
    }
}

/// What deleting the node `nid` makes of the layers: its parent gives it up,
/// then it leaves with all that descends from it. See [`detached`] and
/// [`cascade`].
pub open spec fn deleted(layers: Seq<Seq<NodeView>>, nid: usize) -> (
    Seq<Seq<NodeView>>,
    Option<AtlasError>,
) {
    if !has_node(layers, nid) {
        (layers, Some(AtlasError::NodeNotFound))
    } else {
        let at = layer_of(layers, nid);
        let (loose, failed) = detached(layers, at, nid);
        if failed is Some {
            (loose, failed)
        } else {
            cascade(loose, at, seq![nid])
        }
    }
}

/// Deleting a list of nodes is deleting the first and then the rest.
pub proof fn lemma_cascade_head(layers: Seq<Seq<NodeView>>, at: int, targets: Seq<usize>)
    requires
        targets.len() > 0,
    ensures
        cascade(layers, at, targets) == ({
            let (after, failed) = cascade(layers, at, seq![targets[0]]);
            if failed is Some {
                (after, failed)
            } else {
                cascade(after, at, targets.drop_first())
            }
        }),
{
    let one = seq![targets[0]];
    if 0 <= at < layers.len() && ids(layers[at]).contains(targets[0]) {
        let gone = lookup(layers[at], targets[0]);
        let (below, failed) = cascade(
            layers.update(at, without_node(layers[at], targets[0])),
            at - 1,
            gone.children,
        );
        if failed is None {
            assert(cascade(below, at, one.drop_first()) == (below, None::<AtlasError>));
        }
    }
}

/// The failure of an outcome, if it is one.
pub open spec fn failure<T>(r: Result<T, AtlasError>) -> Option<AtlasError> {
    match r {
        Ok(_) => None,
        Err(e) => Some(e),
    }
}

/// A node that exists is found: in its layer, at its place, under its id.
pub proof fn lemma_node_found(layers: Seq<Seq<NodeView>>, id: usize)
    requires
        has_node(layers, id),
    ensures
        is_first(holds(layers, id), true, layer_of(layers, id)),
        0 <= layer_of(layers, id) < layers.len(),
        is_first(ids(layers[layer_of(layers, id)]), id, first(ids(layers[layer_of(layers, id)]), id)),
        0 <= first(ids(layers[layer_of(layers, id)]), id) < layers[layer_of(layers, id)].len(),
        node_of(layers, id).id == id,
{
    lemma_first_exists(holds(layers, id), true);
    let at = layer_of(layers, id);
    lemma_first_exists(ids(layers[at]), id);
    let k = first(ids(layers[at]), id);
}

/// Replacing a node by one with the same id moves no id: every lookup by id
/// finds the same place as before.
pub proof fn lemma_with_node_keeps_ids(layers: Seq<Seq<NodeView>>, id: usize, node: NodeView)
    requires
        has_node(layers, id),
        node.id == id,
    ensures
        with_node(layers, id, node).len() == layers.len(),
        forall|i: int|
            0 <= i < layers.len() ==> ids(#[trigger] with_node(layers, id, node)[i]) == ids(
                layers[i],
            ),
        forall|x: usize| holds(with_node(layers, id, node), x) == holds(layers, x),
        0 <= layer_of(layers, id) < layers.len(),
        0 <= first(ids(layers[layer_of(layers, id)]), id) < layers[layer_of(layers, id)].len(),
        node_of(with_node(layers, id, node), id) == node,
{
    let after = with_node(layers, id, node);
    lemma_first_exists(holds(layers, id), true);
    let at = layer_of(layers, id);
    lemma_first_exists(ids(layers[at]), id);
    assert forall|i: int| 0 <= i < layers.len() implies ids(#[trigger] after[i]) == ids(
        layers[i],
    ) by {}
    assert forall|x: usize| holds(after, x) == holds(layers, x) by {
    }
}

/// Where one node of one layer was replaced, the layers' views differ in
/// that node's place alone.
pub proof fn lemma_node_replaced(a: Seq<Layer>, b: Seq<Layer>, li: int, ni: int, n: Node)
    requires
        0 <= li < a.len(),
        0 <= ni < a[li].nodes@.len(),
        b == a.update(li, b[li]),
        b[li].nodes@ == a[li].nodes@.update(ni, n),
    ensures
        layer_views(b) == layer_views(a).update(li, a[li]@.update(ni, n@)),
{
    assert(b[li]@ =~= a[li]@.update(ni, n@));
}

/// A stack of layers and the source of fresh node ids.
#[derive(Debug)]
pub struct SceneGraph {
    /// The layers, the most concrete first.
    pub layers: Vec<Layer>,
    /// The id of the next new node. It only grows, so no id is given twice.
    pub node_counter: usize,
}

impl View for SceneGraph {
    type V = GraphView;

    open spec fn view(&self) -> GraphView {
        GraphView { layers: layer_views(self.layers@), node_counter: self.node_counter }
    }
}

impl Clone for SceneGraph {
    fn clone(&self) -> (r: Self)
        ensures
            r@ == self@,
    {
        let r = SceneGraph { layers: self.layers.clone(), node_counter: self.node_counter };
        assert(r@.layers =~= self@.layers);
        r
    }
}

impl Default for SceneGraph {
    /// A graph without layers, whose first node will get the id 0.
    fn default() -> (r: Self)
        ensures
            r@ == (GraphView { layers: Seq::empty(), node_counter: 0 }),
    {
        let r = SceneGraph { layers: Vec::new(), node_counter: 0 };
        assert(r@.layers =~= Seq::<Seq<NodeView>>::empty());
        r
    }
}

/// Layers.
impl SceneGraph {
    /// Puts an empty layer on top of the stack and hands it out to be filled.
    pub fn new_layer(&mut self) -> (r: &mut Layer)
        ensures
            r@ == Seq::<NodeView>::empty(),
            final(self).layers@ == old(self).layers@.push(*final(r)),
            final(self).node_counter == old(self).node_counter,
    {
        self.layers.push(Layer::new());
        let top = self.layers.len() - 1;
        &mut self.layers[top]
    }

    /// The top layer, to be changed in place.
    pub fn top_layer_mut(&mut self) -> (r: Result<&mut Layer, AtlasError>)
        ensures
            match r {
                Ok(l) => old(self).layers@.len() > 0 && *l == old(self).layers@.last()
                    && final(self).layers@ == old(self).layers@.update(
                    old(self).layers@.len() - 1,
                    *final(l),
                ) && final(self).node_counter == old(self).node_counter,
                Err(e) => e == AtlasError::LayerOutOfBounds(0, 0) && old(self).layers@.len() == 0
                    && *final(self) == *old(self),
            },
    {
        let n = self.layers.len();
        if n == 0 {
            Err(AtlasError::LayerOutOfBounds(0, 0))
        } else {
            Ok(&mut self.layers[n - 1])
        }
    }

    /// The top layer.
    pub fn top_layer(&self) -> (r: Result<&Layer, AtlasError>)
        ensures
            match r {
                Ok(l) => self.layers@.len() > 0 && *l == self.layers@.last(),
                Err(e) => e == AtlasError::LayerOutOfBounds(0, 0) && self.layers@.len() == 0,
            },
    {
        let n = self.layers.len();
        if n == 0 {
            Err(AtlasError::LayerOutOfBounds(0, 0))
        } else {
            Ok(&self.layers[n - 1])
        }
    }

    /// The layer at `index`.
    pub fn layer(&self, index: usize) -> (r: Result<&Layer, AtlasError>)
        ensures
            match r {
                Ok(l) => index < self.layers@.len() && *l == self.layers@[index as int],
                Err(e) => e == AtlasError::LayerOutOfBounds(index, self.layers@.len() as usize)
                    && index >= self.layers@.len(),
            },
    {
        if index < self.layers.len() {
            Ok(&self.layers[index])
        } else {
            Err(AtlasError::LayerOutOfBounds(index, self.layers.len()))
        }
    }

    /// The layer at `index`, to be changed in place.
    pub fn layer_mut(&mut self, index: usize) -> (r: Result<&mut Layer, AtlasError>)
        ensures
            match r {
                Ok(l) => index < old(self).layers@.len() && *l == old(self).layers@[index as int]
                    && final(self).layers@ == old(self).layers@.update(index as int, *final(l))
                    && final(self).node_counter == old(self).node_counter,
                Err(e) => e == AtlasError::LayerOutOfBounds(
                    index,
                    old(self).layers@.len() as usize,
                ) && index >= old(self).layers@.len() && *final(self) == *old(self),
            },
    {
        let n = self.layers.len();
        if index < n {
            Ok(&mut self.layers[index])
        } else {
            Err(AtlasError::LayerOutOfBounds(index, n))
        }
    }

    /// The index of the lowest layer that has a node with this id.
    pub fn layer_of(&self, nid: usize) -> (r: Result<usize, AtlasError>)
        ensures
            match r {
                Ok(i) => self@.has_node(nid) && i == self@.layer_of(nid) && i < self.layers@.len()
                    && ids(self@.layers[i as int]).contains(nid),
                Err(e) => e == AtlasError::NodeNotFound && !self@.has_node(nid),
            },
    {
        let ghost hs = holds(self@.layers, nid);
        let mut i: usize = 0;
        while i < self.layers.len()
            invariant
                i <= self.layers.len(),
                hs == holds(self@.layers, nid),
                hs.len() == self.layers.len(),
                self@.layers.len() == self.layers.len(),
                forall|j: int| 0 <= j < i ==> !hs[j],
            decreases self.layers.len() - i,
        {
            assert(hs[i as int] == ids(self@.layers[i as int]).contains(nid));
            if self.layers[i].position(nid).is_some() {
                proof {
                    lemma_first_is(hs, true, i as int);
                }
                return Ok(i);
            }
            i += 1;
        }
        Err(AtlasError::NodeNotFound)
    }
}

/// Nodes.
impl SceneGraph {
    /// The node with this id.
    pub fn node(&self, nid: usize) -> (r: Result<&Node, AtlasError>)
        ensures
            match r {
                Ok(n) => self@.has_node(nid) && n@ == self@.node(nid),
                Err(e) => e == AtlasError::NodeNotFound && !self@.has_node(nid),
            },
    {
        match self.layer_of(nid) {
            Ok(i) => self.layers[i].node(nid),
            Err(e) => Err(e),
        }
    }

    /// The node with this id, to be changed in place. What the caller leaves
    /// in it takes the node's place in its layer.
    pub fn node_mut(&mut self, nid: usize) -> (r: Result<&mut Node, AtlasError>)
        ensures
            match r {
                Ok(n) => {
                    let at = old(self)@.layer_of(nid);
                    &&& old(self)@.has_node(nid)
                    &&& n@ == old(self)@.node(nid)
                    &&& final(self)@ == (GraphView {
                        layers: with_node(old(self)@.layers, nid, final(n)@),
                        ..old(self)@
                    })
                },
                Err(e) => e == AtlasError::NodeNotFound && !old(self)@.has_node(nid)
                    && *final(self) == *old(self),
            },
    {
        match self.layer_of(nid) {
            Ok(i) => {
                let ghost at = first(ids(self@.layers[i as int]), nid);
                proof {
                    lemma_first_exists(ids(self@.layers[i as int]), nid);
                }
                match self.layers[i].node_mut(nid) {
                    Ok(n) => {
                        proof {
                            lemma_node_replaced(
                                old(self).layers@,
                                after_borrow(*self).layers@,
                                i as int,
                                at,
                                *final(n),
                            );
                        }
                        Ok(n)
                    },
                    Err(e) => Err(e),
                }
            },
            Err(e) => Err(e),
        }
    }

    /// A new node with a position. It has a fresh id and belongs to no layer
    /// yet: placing it is the caller's next step.
    pub fn new_coordinates(&mut self, position: Coordinate, features: Vec<Feature>) -> (r: Node)
        requires
            old(self).node_counter < usize::MAX,
        ensures
            r@ == (NodeView {
                id: old(self).node_counter,
                pid: None,
                children: Seq::empty(),
                edges: Seq::empty(),
                features: feature_views(features@),
                coordinates: Some(position),
            }),
            final(self)@ == old(self)@.after_creating(1),
            final(self).layers == old(self).layers,
    {
        let node = Node::new(self.node_counter, features, Some(position));
        self.node_counter += 1;
        node
    }

    /// A new node without a position. It has a fresh id and belongs to no
    /// layer yet: placing it is the caller's next step.
    pub fn new_node(&mut self, features: Vec<Feature>) -> (r: Node)
        requires
            old(self).node_counter < usize::MAX,
        ensures
            r@ == (NodeView {
                id: old(self).node_counter,
                pid: None,
                children: Seq::empty(),
                edges: Seq::empty(),
                features: feature_views(features@),
                coordinates: None,
            }),
            final(self)@ == old(self)@.after_creating(1),
            final(self).layers == old(self).layers,
    {
        let node = Node::new(self.node_counter, features, None);
        self.node_counter += 1;
        node
    }
}

/// A nesting that was begun and waits for the node to nest under.
pub struct NestUnder<'a> {
    pub sg: &'a mut SceneGraph,
    pub nestee: usize,
}

/// Hierarchy.
impl SceneGraph {
    /// Where the node with this id is: its layer and its place in the layer.
    pub fn locate(&self, nid: usize) -> (r: Option<(usize, usize)>)
        ensures
            r is Some <==> self@.has_node(nid),
            r is Some ==> {
                let (at, k) = r->0;
                &&& at == self@.layer_of(nid)
                &&& at < self.layers@.len()
                &&& k == first(ids(self@.layers[at as int]), nid)
                &&& k < self.layers@[at as int].nodes@.len()
                &&& self.layers@[at as int].nodes@[k as int]@ == self@.node(nid)
            },
    {
        match self.layer_of(nid) {
            Ok(at) => match self.layers[at].position(nid) {
                Some(k) => {
                    Some((at, k))
                },
                None => None,
            },
            Err(_) => None,
        }
    }

    /// Nests `nestee` under `nester`: see [`nested`]. It succeeds exactly if
    /// both nodes exist, the nester's layer is the one directly above the
    /// nestee's, and the nestee's present parent, if it has one, exists and
    /// lists it. A nesting that fails changes nothing.
    pub fn nest_under(&mut self, nestee: usize, nester: usize) -> (r: Result<(), AtlasError>)
        ensures
            (final(self)@.layers, failure(r)) == nested(old(self)@.layers, nestee, nester),
            final(self).node_counter == old(self).node_counter,
            r is Ok <==> old(self)@.has_node(nestee) && old(self)@.has_node(nester) && old(
                self,
            )@.layer_of(nester) == old(self)@.layer_of(nestee) + 1 && parent_listed(
                old(self)@.layers,
                nestee,
            ),
            r is Err ==> final(self)@ == old(self)@,
            well_nested(old(self)@.layers) ==> well_nested(final(self)@.layers),
            all_edges_confined(old(self)@.layers) ==> all_edges_confined(final(self)@.layers),
    {
        proof {
            if well_nested(self@.layers) {
                law_nesting_keeps_well_nested(self@.layers, nestee, nester);
            }
            if all_edges_confined(self@.layers) {
                law_nesting_keeps_edges_confined(self@.layers, nestee, nester);
            }
        }
        let upper = match self.layer_of(nester) {
            Ok(i) => i,
            Err(e) => {
                return Err(e);
            },
        };
        let (lower, k) = match self.locate(nestee) {
            Some(place) => place,
            None => {
                return Err(AtlasError::NodeNotFound);
            },
        };
        assert(lower < self.layers.len());
        if upper != lower + 1 {
            return Err(AtlasError::InvalidLayersForNesting(lower, upper));
        }
        let ghost start = self@.layers;
        match self.layers[lower].nodes[k].pid {
            Some(parent) => {
                match self.locate(parent) {
                    Some((pl, pk)) => {
                        if position(&self.layers[pl].nodes[pk].children, nestee).is_none() {
                            return Err(AtlasError::NodeNotFound);
                        }
                        let ghost before = self.layers@;
                        match self.layers[pl].nodes[pk].remove_child(nestee) {
                            Ok(_) => {},
                            Err(e) => {
                                return Err(e);
                            },
                        }
                        proof {
                            let n = self.layers@[pl as int].nodes@[pk as int];
                            lemma_node_replaced(before, self.layers@, pl as int, pk as int, n);
                            lemma_node_found(start, parent);
                            lemma_with_node_keeps_ids(
                                start,
                                parent,
                                node_of(start, parent).without_child(nestee),
                            );
                        }
                    },
                    None => {
                        return Err(AtlasError::NodeNotFound);
                    },
                }
            },
            None => {},
        }
        let ghost released = self@.layers;
        proof {
            lemma_node_found(start, nestee);
        }
        let ghost before = self.layers@;
        self.layers[lower].nodes[k].pid = Some(nester);
        proof {
            let n = self.layers@[lower as int].nodes@[k as int];
            lemma_node_replaced(before, self.layers@, lower as int, k as int, n);
            lemma_with_node_keeps_ids(
                released,
                nestee,
                node_of(released, nestee).with_parent(Some(nester)),
            );
        }
        match self.locate(nester) {
            Some((ul, uk)) => {
                let ghost before = self.layers@;
                self.layers[ul].nodes[uk].add_child(nestee);
                proof {
                    let n = self.layers@[ul as int].nodes@[uk as int];
                    lemma_node_replaced(before, self.layers@, ul as int, uk as int, n);
                }
                Ok(())
            },
            None => Err(AtlasError::NodeNotFound),
        }
    }

    /// Begins nesting the node `nid`: name the node to nest it under with
    /// [`NestUnder::under`].
    pub fn nest(&mut self, nid: usize) -> (r: NestUnder<'_>)
        ensures
            r.nestee == nid,
            *r.sg == *old(self),
            *final(self) == *final(r.sg),
    {
        NestUnder { sg: self, nestee: nid }
    }
}

impl<'a> NestUnder<'a> {
    /// Nests the node under `nester` and hands the graph back: see
    /// [`SceneGraph::nest_under`].
    pub fn under(&mut self, nester: usize) -> (r: Result<&mut SceneGraph, AtlasError>)
        ensures
            final(self).nestee == old(self).nestee,
            *final(final(self).sg) == *final(old(self).sg),
            r is Ok <==> old(self).sg@.has_node(old(self).nestee) && old(self).sg@.has_node(nester)
                && old(self).sg@.layer_of(nester) == old(self).sg@.layer_of(old(self).nestee) + 1
                && parent_listed(old(self).sg@.layers, old(self).nestee),
            match r {
                Ok(g) => (g@.layers, None::<AtlasError>) == nested(
                    old(self).sg@.layers,
                    old(self).nestee,
                    nester,
                ) && g.node_counter == old(self).sg.node_counter && *final(self).sg == *final(g),
                Err(e) => Some(e) == nested(old(self).sg@.layers, old(self).nestee, nester).1
                    && final(self).sg@ == old(self).sg@,
            },
    {
        match self.sg.nest_under(self.nestee, nester) {
            Ok(_) => Ok(self.sg),
            Err(e) => Err(e),
        }
    }
}

/// Deletion.
impl SceneGraph {
    /// Deletes the node `nid` of the layer `at` and all that descends from
    /// it: see [`cascade`].
    fn del_subtree(&mut self, at: usize, nid: usize) -> (r: Result<(), AtlasError>)
        requires
            at < old(self).layers@.len(),
        ensures
            (final(self)@.layers, failure(r)) == cascade(old(self)@.layers, at as int, seq![nid]),
            final(self).layers@.len() == old(self).layers@.len(),
            final(self).node_counter == old(self).node_counter,
        decreases at,
    {
        let ghost start = self@.layers;
        let ghost one = seq![nid];
        let node = match self.layers[at].del_node(nid) {
            Ok(n) => n,
            Err(e) => {
                return Err(e);
            },
        };
        let ghost bare = self@.layers;
        assert(node.children@.skip(0) =~= node.children@);
        let mut k: usize = 0;
        while k < node.children.len()
            invariant
                k <= node.children.len(),
                at < self.layers@.len(),
                start == old(self)@.layers,
                one == seq![nid],
                one[0] == nid,
                one.drop_first() == Seq::<usize>::empty(),
                0 <= at < start.len(),
                ids(start[at as int]).contains(nid),
                bare == start.update(at as int, without_node(start[at as int], nid)),
                node.children@ == lookup(start[at as int], nid).children,
                self.layers@.len() == old(self).layers@.len(),
                self.node_counter == old(self).node_counter,
                cascade(bare, at as int - 1, node.children@) == cascade(
                    self@.layers,
                    at as int - 1,
                    node.children@.skip(k as int),
                ),
            decreases node.children.len() - k,
        {
            let ghost rest = node.children@.skip(k as int);
            proof {
                assert(rest.drop_first() =~= node.children@.skip(k as int + 1));
                lemma_cascade_head(self@.layers, at as int - 1, rest);
            }
            if at == 0 {
                return Err(AtlasError::LayerOutOfBounds(usize::MAX, self.layers.len()));
            }
            match self.del_subtree(at - 1, node.children[k]) {
                Ok(_) => {},
                Err(e) => {
                    return Err(e);
                },
            }
            k += 1;
        }
        proof {
            let none = Seq::<usize>::empty();
            assert(cascade(self@.layers, at as int, none) == (self@.layers, None::<AtlasError>));
        }
        Ok(())
    }

    /// Deletes the node with this id and every node that descends from it,
    /// layer by layer downwards, after its parent has given it up. A node that
    /// cannot be found ends the deletion where it stands: what was deleted by
    /// then stays deleted. See [`deleted`]. In a well-nested graph the deletion
    /// of a node that exists succeeds, and takes this node and what hangs below
    /// it and nothing else.
    pub fn del_node(&mut self, nid: usize) -> (r: Result<(), AtlasError>)
        ensures
            (final(self)@.layers, failure(r)) == deleted(old(self)@.layers, nid),
            final(self).layers@.len() == old(self).layers@.len(),
            final(self).node_counter == old(self).node_counter,
            !old(self)@.has_node(nid) ==> r == Err::<(), AtlasError>(AtlasError::NodeNotFound)
                && final(self)@ == old(self)@,
            well_nested(old(self)@.layers) ==> (r is Ok <==> old(self)@.has_node(nid))
                && !final(self)@.has_node(nid) && well_nested(final(self)@.layers),
            well_nested(old(self)@.layers) ==> forall|x: usize|
                #[trigger] final(self)@.has_node(x) <==> old(self)@.has_node(x) && !hangs_below(
                    old(self)@.layers,
                    x,
                    nid,
                ),
            all_edges_confined(old(self)@.layers) ==> all_edges_confined(final(self)@.layers),
    {
        proof {
            if all_edges_confined(self@.layers) {
                law_delete_keeps_edges_confined(self@.layers, nid);
            }
            if well_nested(self@.layers) && has_node(self@.layers, nid) {
                assert forall|x: usize| #[trigger]
                    has_node(deleted(self@.layers, nid).0, x) <==> has_node(self@.layers, x)
                        && !hangs_below(self@.layers, x, nid) by {
                    law_delete_takes_no_other(self@.layers, nid, x);
                }
            }
            if well_nested(self@.layers) {
                law_delete_keeps_well_nested(self@.layers, nid);
                if has_node(self@.layers, nid) {
                    law_delete_takes_node(self@.layers, nid);
                }
            }
        }
        let (at, k) = match self.locate(nid) {
            Some(place) => place,
            None => {
                return Err(AtlasError::NodeNotFound);
            },
        };
        match self.layers[at].nodes[k].pid {
            Some(parent) => {
                assert(at < self.layers.len());
                if at + 1 >= self.layers.len() {
                    return Err(AtlasError::LayerOutOfBounds(at + 1, self.layers.len()));
                }
                let pk = match self.layers[at + 1].position(parent) {
                    Some(pk) => pk,
                    None => {
                        return Err(AtlasError::NodeNotFound);
                    },
                };
                if position(&self.layers[at + 1].nodes[pk].children, nid).is_none() {
                    return Err(AtlasError::NodeNotFound);
                }
                let ghost before = self.layers@;
                match self.layers[at + 1].nodes[pk].remove_child(nid) {
                    Ok(_) => {},
                    Err(e) => {
                        return Err(e);
                    },
                }
                proof {
                    let n = self.layers@[at + 1].nodes@[pk as int];
                    lemma_node_replaced(before, self.layers@, at + 1, pk as int, n);
                }
            },
            None => {},
        }
        self.del_subtree(at, nid)
    }
}

} // verus!
