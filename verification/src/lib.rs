//! A weak intrusive registry.
//!
//! A registry ([`WeakSet`]) holds non-owning handles to externally-owned
//! entries ([`Entry`]); each registered entry holds a back-reference to the
//! registry it belongs to. Both objects live pinned inside an [`Arena`], so
//! a handle stays valid for as long as its occupant is alive. Destroying
//! either side of the relationship tears the cross-reference down on the
//! other side before the storage is released, so no dangling handle survives
//! a destruction, in whichever order the two sides go away.

mod arena;
mod entry;
mod weakset;

pub use arena::Arena;
pub use arena::Fault;
pub use entry::Entry;
pub use weakset::Iter;
pub use weakset::WeakSet;
