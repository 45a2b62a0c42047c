//! A layered scene graph: a stack of abstraction levels whose nodes nest under
//! nodes of the level above, with same-level edges, feature queries,
//! field-of-view culling and non-destructive merging of updates.

pub mod confinement;
pub mod descent;
pub mod error;
pub mod graph;
pub mod hierarchy;
pub mod keeping;
pub mod laws;
pub mod layer;
pub mod lookup;
pub mod merge;
pub mod node;
pub mod parse;
pub mod query;
pub mod reach;
pub mod server;
pub mod update;
pub mod visibility;

pub use error::AtlasError;
pub use graph::{NestUnder, SceneGraph};
pub use layer::Layer;
pub use node::{Coordinate, Edge, Feature, Node};
pub use server::Server;
pub use update::UpdatePipeline;
