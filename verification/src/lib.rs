//! Reconciliation core for labeled ordered trees: a positional diff engine
//! that turns two tree snapshots into an ordered script of edit operations,
//! and an apply engine that replays such a script against a tree.

pub mod dom;
pub mod diff;
pub mod laws;
pub mod patch;

pub use diff::diff;
pub use dom::Attribute;
pub use dom::Id;
pub use dom::Node;
pub use patch::ApplyError;
pub use patch::apply;
pub use patch::Patch;
