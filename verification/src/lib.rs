//! An in-memory, immutable, path-addressable tree store: one root value
//! (scalar, list or keyed map) read and edited through cursors, where every
//! edit produces a new version of the tree while unmodified subtrees keep
//! their identity.
pub mod access_key;
pub mod domain;
pub mod error;
pub mod log;
pub mod focus;
pub mod node;
pub mod path;
pub mod persist;
pub mod reconcile;
pub mod spot;
pub mod text;

pub use access_key::{AccessKey, CircularZeroIndex, KeyModel};
pub use domain::Domain;
pub use error::Error;
pub use log::{ChangeLogger, NodeEvent, PendingUpdate};
pub use focus::{Focus, FocusTree};
pub use node::{ListValue, MapValue, NodeValue};
pub use spot::Spot;
pub use path::{access_segments, AccessPathError, OverFocusError, PathParsingError};
