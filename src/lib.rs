//! Reconciliation of declarative document-head tags against the set that is
//! currently applied to an output medium.

pub mod guard;
pub mod laws;
pub mod order;
pub mod reconcile;
pub mod tag;

pub use guard::{BridgeGuard, GuardError};
pub use reconcile::{DesiredSet, Reconciler, RenderedMap, Step};
pub use tag::{Tag, TagKind, TagView};
