pub mod arena;
pub mod assoc;
pub mod geometry;
pub mod ktree;
pub mod ktree_ops;
pub mod laws;
pub mod navigation;
pub mod order;
pub mod protocol;
pub mod state;
pub mod state_spec;
pub mod tree;
pub mod tree_laws;

pub use geometry::{Orientation, Rect};
pub use protocol::{
    Command, Config, ContextKey, Direction, Placement, Response, Snapshot, WindowId,
    WindowSnapshot, WorkAreaSnapshot,
};
pub use state::{EngineError, EngineState};
pub use tree::{LayoutTree, Shape, TreeError};
