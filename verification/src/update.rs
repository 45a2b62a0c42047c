//! The queue of updates that wait to be merged into the live graph.

use crate::error::AtlasError;
use crate::graph::{failure, GraphView, SceneGraph};
use crate::merge::merged_graph;
use crate::node::NodeView;
use vstd::prelude::*;

verus! {

/// The views of a vector of graphs.
pub open spec fn graph_views(v: Seq<SceneGraph>) -> Seq<GraphView> {
    v.map_values(|g: SceneGraph| g@)
}

/// What merging the updates, first to last, makes of the layers `live`. The
/// first merge that fails ends it.
pub open spec fn merged_all(live: Seq<Seq<NodeView>>, updates: Seq<GraphView>) -> (
    Seq<Seq<NodeView>>,
    Option<AtlasError>,
)
    decreases updates.len(),
{
    if updates.len() == 0 {
        (live, None)
    } else {
        let (next, failed) = merged_graph(live, updates[0].layers);
        if failed is Some {
            (next, failed)
        } else {
            merged_all(next, updates.drop_first())
        }
    }
}

/// Updates in the order in which they came in.
pub struct UpdatePipeline {
    pub update_queue: Vec<SceneGraph>,
}

impl View for UpdatePipeline {
    type V = Seq<GraphView>;

    open spec fn view(&self) -> Seq<GraphView> {
        graph_views(self.update_queue@)
    }
}

impl Default for UpdatePipeline {
    fn default() -> (r: Self)
        ensures
            r@ == Seq::<GraphView>::empty(),
    {
        UpdatePipeline::new()
    }
}

impl UpdatePipeline {
    /// An empty queue.
    pub fn new() -> (r: Self)
        ensures
            r@ == Seq::<GraphView>::empty(),
    {
        let r = UpdatePipeline { update_queue: Vec::new() };
        r
    }

    /// Puts an update at the end of the queue.
    pub fn push(&mut self, scene_graph: SceneGraph)
        ensures
            final(self)@ == old(self)@.push(scene_graph@),
    {
        self.update_queue.push(scene_graph);
    }

    /// Merges the waiting updates into `sg`, first come first merged, and
    /// empties the queue. Where a merge fails the later updates are dropped
    /// unmerged.
    pub fn apply(&mut self, sg: &mut SceneGraph) -> (r: Result<(), AtlasError>)
        ensures
            final(self)@ == Seq::<GraphView>::empty(),
            (final(sg)@.layers, failure(r)) == merged_all(old(sg)@.layers, old(self)@),
            final(sg).node_counter == old(sg).node_counter,
    {
        let mut updates: Vec<SceneGraph> = Vec::new();
        core::mem::swap(&mut self.update_queue, &mut updates);
        let ghost all = graph_views(updates@);
        assert(all.skip(0) =~= all);
        let mut k: usize = 0;
        while k < updates.len()
            invariant
                k <= updates.len(),
                self@ == Seq::<GraphView>::empty(),
                all == old(self)@,
                all == graph_views(updates@),
                all.len() == updates.len(),
                sg.node_counter == old(sg).node_counter,
                merged_all(old(sg)@.layers, all) == merged_all(sg@.layers, all.skip(k as int)),
            decreases updates.len() - k,
        {
            proof {
                let rest = all.skip(k as int);
                assert(rest.drop_first() =~= all.skip(k as int + 1));
            }
            match sg.merge_from(&updates[k]) {
                Ok(_) => {},
                Err(e) => {
                    return Err(e);
                },
            }
            k += 1;
        }
        Ok(())
    }

    /// Merges the waiting updates into `sg` and hands `sg` back: see
    /// [`UpdatePipeline::apply`].
    pub fn flush<'a>(&mut self, sg: &'a mut SceneGraph) -> (r: Result<
        &'a mut SceneGraph,
        AtlasError,
    >)
        ensures
            final(self)@ == Seq::<GraphView>::empty(),
            match r {
                Ok(g) => (g@.layers, None::<AtlasError>) == merged_all(old(sg)@.layers, old(self)@)
                    && g.node_counter == old(sg).node_counter && *final(sg) == *final(g),
                Err(e) => (final(sg)@.layers, Some(e)) == merged_all(old(sg)@.layers, old(self)@)
                    && final(sg).node_counter == old(sg).node_counter,
            },
    {
        match self.apply(sg) {
            Ok(_) => Ok(sg),
            Err(e) => Err(e),
        }
    }
}

} // verus!
