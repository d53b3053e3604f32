//! The canonical-identity substrate of an equality-saturation engine:
//! dense identifiers and a union-find over them.

pub mod forest;
pub mod history;
pub mod id;
pub mod unionfind;

pub use id::Id;
pub use unionfind::UnionFind;
