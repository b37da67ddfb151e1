//! A loader core for hierarchical JSON documents of nested folders and items.
//!
//! A document is decoded into a tree of folder and item nodes, the tree is
//! flattened into `(path, item)` pairs keyed by dotted paths, and each pair is
//! registered in a registry that hands out a stable identity per path and
//! reports lifecycle events.

pub mod decode;
pub mod flatten;
pub mod load;
pub mod model;
pub mod paths;
pub mod registry;

pub use decode::DecodeError;
pub use decode::decode;
pub use flatten::flatten_document;
pub use flatten::flatten_node;
pub use load::load_document;
pub use model::FolderAsset;
pub use model::ItemAsset;
pub use model::JsonObject;
pub use model::RootAsset;
pub use registry::Identity;
pub use registry::LifecycleEvent;
pub use registry::Registry;
