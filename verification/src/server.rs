//! The live graph together with the updates that wait for it.

use crate::error::AtlasError;
use crate::graph::{GraphView, SceneGraph};
use crate::update::{merged_all, UpdatePipeline};
use vstd::prelude::*;

verus! {

/// Owns the live graph. Updates are queued and merged when the graph is
/// next asked for.
pub struct Server {
    pub update_pipeline: UpdatePipeline,
    pub scene_graph: SceneGraph,
}

impl Default for Server {
    fn default() -> (r: Self)
        ensures
            r.update_pipeline@ == Seq::<GraphView>::empty(),
            r.scene_graph@ == (GraphView { layers: Seq::empty(), node_counter: 0 }),
    {
        Server::new()
    }
}

impl Server {
    /// A server with an empty graph and no update waiting.
    pub fn new() -> (r: Self)
        ensures
            r.update_pipeline@ == Seq::<GraphView>::empty(),
            r.scene_graph@ == (GraphView { layers: Seq::empty(), node_counter: 0 }),
    {
        Server { update_pipeline: UpdatePipeline::new(), scene_graph: SceneGraph::default() }
    }

    /// The live graph, after the waiting updates were merged into it in the
    /// order in which they came.
    pub fn scene_graph(&mut self) -> (r: Result<&mut SceneGraph, AtlasError>)
        ensures
            final(self).update_pipeline@ == Seq::<GraphView>::empty(),
            match r {
                Ok(g) => (g@.layers, None::<AtlasError>) == merged_all(
                    old(self).scene_graph@.layers,
                    old(self).update_pipeline@,
                ) && g.node_counter == old(self).scene_graph.node_counter
                    && final(self).scene_graph == *final(g),
                Err(e) => (final(self).scene_graph@.layers, Some(e)) == merged_all(
                    old(self).scene_graph@.layers,
                    old(self).update_pipeline@,
                ) && final(self).scene_graph.node_counter == old(self).scene_graph.node_counter,
            },
    {
        self.update_pipeline.flush(&mut self.scene_graph)
    }

    /// Queues an update.
    pub fn update(&mut self, update: SceneGraph)
        ensures
            final(self).update_pipeline@ == old(self).update_pipeline@.push(update@),
            final(self).scene_graph == old(self).scene_graph,
    {
        self.update_pipeline.push(update);
    }
}

} // verus!
