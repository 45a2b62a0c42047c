//! Folding an update into the live graph. An update is itself a graph, built
//! elsewhere; merging it adds and overwrites, and deletes nothing.

use crate::error::AtlasError;
use crate::graph::{failure, nested, SceneGraph};
use crate::layer::{bonds, merged};
use crate::node::NodeView;
use vstd::prelude::*;

verus! {

/// The bonds of one layer.
pub open spec fn bonds_of() -> spec_fn(Seq<NodeView>) -> Seq<(usize, usize)> {
    |l: Seq<NodeView>| bonds(l)
}

/// Each node of the layers that names a parent, with that parent: layer by
/// layer from the bottom, and within a layer node by node.
pub open spec fn all_bonds(layers: Seq<Seq<NodeView>>) -> Seq<(usize, usize)> {
    layers.flat_map(bonds_of())
}

/// What nesting each first of `pairs` under its second, in order, makes of
/// the layers. The first nesting that fails ends it.
pub open spec fn nest_all(layers: Seq<Seq<NodeView>>, pairs: Seq<(usize, usize)>) -> (
    Seq<Seq<NodeView>>,
    Option<AtlasError>,
)
    decreases pairs.len(),
{
    if pairs.len() == 0 {
        (layers, None)
    } else {
        let (next, failed) = nested(layers, pairs[0].0, pairs[0].1);
        if failed is Some {
            (next, failed)
        } else {
            nest_all(next, pairs.drop_first())
        }
    }
}

/// The layers of `live`, each with the layer of `update` at the same index
/// merged into it. A layer without a counterpart stays as it is, and the
/// layers that `update` has beyond those of `live` are left out.
pub open spec fn merged_layers(live: Seq<Seq<NodeView>>, update: Seq<Seq<NodeView>>) -> Seq<
    Seq<NodeView>,
> {
    Seq::new(
        live.len(),
        |i: int|
            if i < update.len() {
                merged(live[i], update[i])
            } else {
                live[i]
            },
    )
}

/// What merging `update` makes of the layers `live`: first every node of the
/// update that names a parent is nested under that parent in `live`; then the
/// layers are merged index by index. A nesting that fails ends the merge
/// before any layer was merged.
pub open spec fn merged_graph(live: Seq<Seq<NodeView>>, update: Seq<Seq<NodeView>>) -> (
    Seq<Seq<NodeView>>,
    Option<AtlasError>,
) {
    let (nested, failed) = nest_all(live, all_bonds(update));
    if failed is Some {
        (nested, failed)
    } else {
        (merged_layers(nested, update), None)
    }
}

impl SceneGraph {
    /// Each node that names a parent, with that parent: layer by layer.
    pub fn bonds(&self) -> (r: Vec<(usize, usize)>)
        ensures
            r@ == all_bonds(self@.layers),
    {
        let mut out: Vec<(usize, usize)> = Vec::new();
        let mut i: usize = 0;
        while i < self.layers.len()
            invariant
                i <= self.layers.len(),
                self@.layers.len() == self.layers.len(),
                out@ == all_bonds(self@.layers.take(i as int)),
            decreases self.layers.len() - i,
        {
            proof {
                self@.layers.lemma_flat_map_take_append(bonds_of(), i as int);
            }
            let mut more = self.layers[i].bonds();
            out.append(&mut more);
            i += 1;
        }
        assert(self@.layers.take(self@.layers.len() as int) =~= self@.layers);
        out
    }

    /// Merges the update `m` into this graph: see [`merged_graph`]. No node
    /// and no edge is deleted; features and edges of nodes that both graphs
    /// have are overwritten or added.
    pub fn merge(&mut self, m: SceneGraph) -> (r: Result<(), AtlasError>)
        ensures
            (final(self)@.layers, failure(r)) == merged_graph(old(self)@.layers, m@.layers),
            final(self).node_counter == old(self).node_counter,
    {
        self.merge_from(&m)
    }

    /// Merges the update `m` into this graph and leaves `m` as it is.
    pub fn merge_from(&mut self, m: &SceneGraph) -> (r: Result<(), AtlasError>)
        ensures
            (final(self)@.layers, failure(r)) == merged_graph(old(self)@.layers, m@.layers),
            final(self).node_counter == old(self).node_counter,
    {
        let pairs = m.bonds();
        let ghost start = self@.layers;
        assert(pairs@.skip(0) =~= pairs@);
        let mut k: usize = 0;
        while k < pairs.len()
            invariant
                k <= pairs.len(),
                start == old(self)@.layers,
                pairs@ == all_bonds(m@.layers),
                self.node_counter == old(self).node_counter,
                nest_all(start, pairs@) == nest_all(self@.layers, pairs@.skip(k as int)),
            decreases pairs.len() - k,
        {
            proof {
                let rest = pairs@.skip(k as int);
                assert(rest.drop_first() =~= pairs@.skip(k as int + 1));
            }
            let (child, parent) = pairs[k];
            match self.nest_under(child, parent) {
                Ok(_) => {},
                Err(e) => {
                    return Err(e);
                },
            }
            k += 1;
        }
        let ghost nested = self@.layers;
        let n = if self.layers.len() < m.layers.len() {
            self.layers.len()
        } else {
            m.layers.len()
        };
        let mut i: usize = 0;
        while i < n
            invariant
                i <= n,
                n <= self.layers.len(),
                n <= m.layers.len(),
                self.node_counter == old(self).node_counter,
                self@.layers.len() == nested.len(),
                self.layers@.len() == nested.len(),
                m@.layers.len() == m.layers@.len(),
                forall|j: int|
                    0 <= j < nested.len() ==> #[trigger] self@.layers[j] == if j < i {
                        merged(nested[j], m@.layers[j])
                    } else {
                        nested[j]
                    },
            decreases n - i,
        {
            let ghost before = self@.layers;
            assert(before[i as int] == self.layers@[i as int]@);
            self.layers[i].merge_from(&m.layers[i]);
            assert forall|j: int| 0 <= j < nested.len() implies #[trigger] self@.layers[j] == if j
                < i + 1 {
                merged(nested[j], m@.layers[j])
            } else {
                nested[j]
            } by {
                if j != i {
                    assert(self@.layers[j] == before[j]);
                }
            }
            i += 1;
        }
        Ok(())
    }
}

} // verus!
