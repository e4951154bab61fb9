//! The associative index from runtime type identifier to slot directory
//! position. The index is an opaque associative map with amortized O(1)
//! lookup and insert; it is kept behind trusted wrappers around
//! `hashbrown::HashMap`, whose contents are named by `index_entries`.

use vstd::prelude::*;

verus! {

/// Index from type identifier to position in the slot directory.
#[verifier::external_body]
pub struct TypeIndex {
    map: hashbrown::HashMap<u64, usize>,
}

/// The entries a `TypeIndex` holds, as a map from identifier to position.
pub uninterp spec fn index_entries(m: TypeIndex) -> Map<u64, usize>;

impl TypeIndex {
    /// Relies on `hashbrown::HashMap::new`: creates an empty map.
    #[verifier::external_body]
    pub fn new() -> (r: TypeIndex)
        ensures
            index_entries(r).dom() == Set::<u64>::empty(),
    {
        TypeIndex { map: hashbrown::HashMap::new() }
    }

    /// Relies on `hashbrown::HashMap::get`: returns the value the key maps
    /// to, or `None` when the key is absent.
    #[verifier::external_body]
    pub fn get(&self, id: u64) -> (r: Option<usize>)
        ensures
            r == (if index_entries(*self).contains_key(id) {
                Some(index_entries(*self)[id])
            } else {
                None::<usize>
            }),
    {
        self.map.get(&id).copied()
    }

    /// Relies on `hashbrown::HashMap::insert`: maps the key to the value,
    /// replacing the old entry if one was there.
    #[verifier::external_body]
    pub fn insert(&mut self, id: u64, pos: usize)
        ensures
            index_entries(*final(self)) == index_entries(*old(self)).insert(id, pos),
    {
        self.map.insert(id, pos);
    }

    /// Relies on `hashbrown::HashMap::clear`: removes every entry.
    #[verifier::external_body]
    pub fn clear(&mut self)
        ensures
            index_entries(*final(self)).dom() == Set::<u64>::empty(),
    {
        self.map.clear();
    }

    /// Relies on `hashbrown::HashMap::clone`: the copy holds the same
    /// entries as the original.
    #[verifier::external_body]
    pub fn duplicate(&self) -> (r: TypeIndex)
        ensures
            index_entries(r) == index_entries(*self),
    {
        TypeIndex { map: self.map.clone() }
    }
}

} // verus!
