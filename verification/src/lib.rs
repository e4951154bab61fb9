//! A type-erased, dynamically growable container for heterogeneous bundles of
//! component values.
//!
//! Values are stored by their byte representation in a single growable arena,
//! addressed through a directory of slots (type descriptor, byte offset,
//! per-slot metadata). A builder accepts inserts and overwrites keyed by a
//! runtime type identifier, and freezes into a bundle whose slot directory is
//! sorted by identifier, ready for a receiving store to take the values out
//! (plain bundles) or to duplicate them repeatedly (reusable bundles).

pub mod layout;
pub mod type_info;
pub mod store;
pub mod index;
pub mod builder;
pub mod built;

pub use builder::{Cloneable, EntityBuilder};
pub use built::{BuiltEntity, ReusableBuiltEntity};
pub use type_info::TypeInfo;
