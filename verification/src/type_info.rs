//! Runtime type descriptors.

use vstd::prelude::*;
use crate::layout::is_pow2;

verus! {

/// A runtime type descriptor: a type identifier, the byte size of a value of
/// the type, and its alignment requirement.
///
/// Descriptors are plain data, immutable once obtained, and comparable by
/// identifier. The provider that maps concrete types to descriptors is an
/// external collaborator; it must hand out identical descriptors for the same
/// type on every call, so a single identifier always carries a single size and
/// alignment. Destruction of a buffered value is an event the builder accounts
/// for (see `EntityBuilder::clear` and the overwrite path of `add`); a byte
/// image carries no code of its own.
#[derive(Clone, Copy, PartialEq, Eq, Structural, Debug)]
pub struct TypeInfo {
    /// The runtime type identifier; the key under which slots are stored.
    pub id: u64,
    /// Size in bytes of a value of the type.
    pub size: usize,
    /// Alignment requirement of the type; always a power of two.
    pub align: usize,
}

impl TypeInfo {
    /// A descriptor is well formed when its alignment is a power of two.
    pub open spec fn wf(&self) -> bool {
        is_pow2(self.align as int)
    }
}

} // verus!
