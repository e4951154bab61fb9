//! The raw growable store: one contiguous byte arena, grown geometrically,
//! holding the packed, aligned byte representations of the buffered values.
//!
//! All addressing goes through byte offsets resolved against the arena, never
//! cached addresses, so growth-triggered relocation is safe by construction.

use vstd::prelude::*;
use crate::layout::{grow_capacity, is_pow2};

verus! {

/// A byte arena of some capacity and alignment provisioning.
///
/// The capacity is zero at first; once grown it is always a power of two of at
/// least 64 bytes. The alignment provisioning starts at 8 and only ever equals
/// the maximum alignment that has been demanded of the arena, so a slot offset
/// that is a multiple of its type's alignment denotes a suitably aligned
/// address relative to the arena's base.
pub struct Store {
    data: Vec<u8>,
    align: usize,
}

impl Store {
    /// The bytes the arena holds; its length is the capacity.
    pub closed spec fn bytes(&self) -> Seq<u8> {
        self.data@
    }

    /// The arena's capacity in bytes.
    pub open spec fn capacity(&self) -> int {
        self.bytes().len() as int
    }

    /// The alignment the arena is provisioned for.
    pub closed spec fn alignment(&self) -> int {
        self.align as int
    }

    pub open spec fn wf(&self) -> bool {
        &&& is_pow2(self.alignment())
        &&& (self.capacity() == 0 || (is_pow2(self.capacity()) && self.capacity() >= 64))
    }

    /// A fresh arena: no capacity, provisioned for alignment 8.
    pub fn new() -> (s: Store)
        ensures
            s.wf(),
            s.capacity() == 0,
            s.alignment() == 8,
    {
        proof {
            reveal_with_fuel(is_pow2, 4);
        }
        Store { data: Vec::new(), align: 8 }
    }

    pub fn capacity_exec(&self) -> (c: usize)
        ensures
            c as int == self.capacity(),
    {
        self.data.len()
    }

    pub fn alignment_exec(&self) -> (a: usize)
        ensures
            a as int == self.alignment(),
    {
        self.align
    }

    /// Make room: after the call at least `min_size` bytes fit and alignment
    /// `min_align` is provisioned. The region is reallocated only if the
    /// request exceeds what is already there; the new capacity is then the
    /// smallest power of two at or above `min_size`, with a floor of 64 bytes.
    /// The first `live` bytes (the occupied prefix) are preserved; the rest of
    /// a fresh region is zeroed.
    pub fn ensure_capacity(&mut self, live: usize, min_size: usize, min_align: usize)
        requires
            old(self).wf(),
            live as int <= old(self).capacity(),
            live <= min_size,
            min_size <= usize::MAX / 2,
            is_pow2(min_align as int),
        ensures
            final(self).wf(),
            min_size as int <= final(self).capacity(),
            final(self).alignment() == (if min_align as int > old(self).alignment() {
                min_align as int
            } else {
                old(self).alignment()
            }),
            forall|p: int| 0 <= p < live ==> final(self).bytes()[p] == old(self).bytes()[p],
            (if min_size as int <= old(self).capacity() && min_align as int <= old(self).alignment() {
                final(self).capacity() == old(self).capacity() && final(self).bytes()
                    == old(self).bytes()
            } else {
                &&& is_pow2(final(self).capacity())
                &&& final(self).capacity() >= 64
                &&& (final(self).capacity() == 64 || final(self).capacity() < 2 * min_size)
            }),
    {
        if min_size > self.data.len() || min_align > self.align {
            let new_cap = grow_capacity(min_size);
            let mut new_data: Vec<u8> = Vec::new();
            let mut i: usize = 0;
            while i < live
                invariant
                    i <= live,
                    live as int <= self.bytes().len(),
                    new_data@.len() == i as int,
                    forall|p: int| 0 <= p < i ==> new_data@[p] == self.bytes()[p],
                decreases live - i,
            {
                let b = self.data[i];
                new_data.push(b);
                i += 1;
            }
            while new_data.len() < new_cap
                invariant
                    live as int <= new_data@.len() <= new_cap as int,
                    forall|p: int| 0 <= p < live ==> new_data@[p] == self.bytes()[p],
                decreases new_cap - new_data@.len(),
            {
                new_data.push(0u8);
            }
            self.data = new_data;
            if min_align > self.align {
                self.align = min_align;
            }
        }
    }

    /// Copy `bytes` into the region that starts at `offset`, leaving every
    /// byte outside that region as it was.
    pub fn write_bytes(&mut self, offset: usize, bytes: &Vec<u8>)
        requires
            offset + bytes@.len() <= old(self).capacity(),
        ensures
            final(self).capacity() == old(self).capacity(),
            final(self).alignment() == old(self).alignment(),
            forall|p: int|
                0 <= p < final(self).capacity() ==> final(self).bytes()[p] == (if offset <= p
                    < offset + bytes@.len() {
                    bytes@[p - offset]
                } else {
                    old(self).bytes()[p]
                }),
    {
        let cap = self.data.len();
        let mut j: usize = 0;
        while j < bytes.len()
            invariant
                j <= bytes@.len(),
                self.bytes().len() == cap as int,
                offset + bytes@.len() <= self.bytes().len(),
                self.bytes().len() == old(self).bytes().len(),
                self.align == old(self).align,
                forall|p: int|
                    0 <= p < self.bytes().len() ==> self.bytes()[p] == (if offset <= p < offset
                        + j {
                        bytes@[p - offset]
                    } else {
                        old(self).bytes()[p]
                    }),
            decreases bytes@.len() - j,
        {
            let b = bytes[j];
            self.data[offset + j] = b;
            j += 1;
        }
    }

    /// A fresh arena with the same capacity, alignment and bytes.
    pub fn duplicate(&self) -> (s: Store)
        ensures
            s.bytes() == self.bytes(),
            s.alignment() == self.alignment(),
    {
        let n = self.data.len();
        let data = self.read_bytes(0, n);
        proof {
            assert(self.bytes().subrange(0, n as int) =~= self.bytes());
        }
        Store { data, align: self.align }
    }

    /// Copy the `len` bytes that start at `offset` out of the arena.
    pub fn read_bytes(&self, offset: usize, len: usize) -> (r: Vec<u8>)
        requires
            offset + len <= self.capacity(),
        ensures
            r@ == self.bytes().subrange(offset as int, offset as int + len as int),
    {
        let cap = self.data.len();
        let mut r: Vec<u8> = Vec::new();
        let mut j: usize = 0;
        while j < len
            invariant
                j <= len,
                self.bytes().len() == cap as int,
                offset + len <= self.bytes().len(),
                r@.len() == j as int,
                forall|p: int| 0 <= p < j ==> r@[p] == self.bytes()[offset + p],
            decreases len - j,
        {
            let b = self.data[offset + j];
            r.push(b);
            j += 1;
        }
        proof {
            assert(r@ =~= self.bytes().subrange(offset as int, offset as int + len as int));
        }
        r
    }
}

} // verus!
