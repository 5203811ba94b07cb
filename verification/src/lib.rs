//! Editor core: the integer and symbolic logic of the in-engine editor
//! (selection, shortcuts, undo histories, node graphs, mesh topology,
//! compact model encoding, network and particle settings).

pub mod editor;
pub mod groups;
pub mod history;
pub mod layers;
pub mod mesh;
pub mod model_codec;
pub mod model_text;
pub mod modeling;
pub mod nav;
pub mod network;
pub mod node_graph;
pub mod particles;
pub mod replication;
pub mod selection;
pub mod session;
pub mod shortcuts;
pub mod spatial;
