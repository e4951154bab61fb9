//! The builder: a slot directory over the growable arena, with typed insert,
//! overwrite, inspection and clearing.

use vstd::prelude::*;
use crate::index::{index_entries, TypeIndex};
use crate::layout::{is_pow2, lemma_round_up, round_up, round_up_usize};
use crate::store::Store;
use crate::type_info::TypeInfo;

verus! {

/// Metadata carried by every slot of a cloneable builder.
///
/// In this container a component is its byte image, so producing an
/// independent duplicate of a component is copying its bytes out of the
/// arena; the marker records that a slot's value may be duplicated that way.
#[derive(Clone, Copy)]
pub struct Cloneable;

/// One directory entry: a type descriptor, the byte offset of the value in
/// the arena, and per-slot metadata.
#[derive(Clone, Copy)]
pub(crate) struct Slot<M> {
    pub(crate) ty: TypeInfo,
    pub(crate) offset: usize,
    pub(crate) meta: M,
}

/// The mathematical image of one slot: its descriptor, offset, the bytes of
/// its value, and its metadata.
pub ghost struct SlotModel<M> {
    pub ty: TypeInfo,
    pub offset: int,
    pub bytes: Seq<u8>,
    pub meta: M,
}

/// The identifiers of a slot sequence, in directory order.
pub open spec fn ids_of<M>(s: Seq<SlotModel<M>>) -> Seq<u64> {
    s.map_values(|sl: SlotModel<M>| sl.ty.id)
}

/// Whether some slot carries the identifier `id`.
pub open spec fn has_id<M>(s: Seq<SlotModel<M>>, id: u64) -> bool {
    exists|i: int| 0 <= i < s.len() && (#[trigger] s[i]).ty.id == id
}

/// The position of the slot that carries `id` (unique when identifiers are
/// pairwise distinct and `has_id` holds).
pub open spec fn slot_index_of<M>(s: Seq<SlotModel<M>>, id: u64) -> int {
    choose|i: int| 0 <= i < s.len() && (#[trigger] s[i]).ty.id == id
}

/// Slot identifiers are pairwise distinct.
pub open spec fn distinct_ids<M>(s: Seq<SlotModel<M>>) -> bool {
    forall|i: int, j: int|
        0 <= i < s.len() && 0 <= j < s.len() && i != j ==> (#[trigger] s[i]).ty.id != (
        #[trigger] s[j]).ty.id
}

/// Slots appear in nondecreasing identifier order.
pub open spec fn sorted_by_id<M>(s: Seq<SlotModel<M>>) -> bool {
    forall|i: int, j: int|
        0 <= i < j < s.len() ==> (#[trigger] s[i]).ty.id <= (#[trigger] s[j]).ty.id
}

/// The byte regions of two slots do not overlap.
pub open spec fn disjoint_slots<M>(a: SlotModel<M>, b: SlotModel<M>) -> bool {
    a.offset + a.ty.size <= b.offset || b.offset + b.ty.size <= a.offset
}

/// One slot's geometry is sound: well-formed descriptor, aligned offset, the
/// region inside the occupied prefix, alignment provisioned by the arena, and
/// the value's bytes of the descriptor's size.
pub open spec fn slot_geom_ok<M>(sl: SlotModel<M>, cursor: int, store_align: int) -> bool {
    &&& sl.ty.wf()
    &&& 0 <= sl.offset
    &&& sl.offset % (sl.ty.align as int) == 0
    &&& sl.offset + sl.ty.size <= cursor
    &&& sl.ty.align as int <= store_align
    &&& sl.bytes.len() == sl.ty.size
}

/// What an insert-or-overwrite requires of the builder's state and of the
/// component handed in: a well-formed builder and descriptor, bytes of the
/// descriptor's size, room for the aligned region within the machine's
/// limits, and, when the identifier is already present, the same descriptor
/// as the stored one (the provider hands out one descriptor per type).
pub open spec fn add_pre<M>(pre: EntityBuilder<M>, ty: TypeInfo, bytes: Seq<u8>) -> bool {
    &&& pre.wf()
    &&& ty.wf()
    &&& bytes.len() == ty.size
    &&& round_up(pre.cursor_val(), ty.align as int) + ty.size <= usize::MAX / 2
    &&& (has_id(pre.slots(), ty.id) ==> pre.slots()[slot_index_of(pre.slots(), ty.id)].ty == ty)
}

/// The directory and cursor after one insert-or-overwrite: an overwrite
/// replaces only the stored bytes and moves nothing; an insert appends a
/// slot at the cursor rounded up to the type's alignment and advances the
/// cursor past it.
pub open spec fn step_dir<M>(
    slots: Seq<SlotModel<M>>,
    cursor: int,
    ty: TypeInfo,
    bytes: Seq<u8>,
    meta: M,
) -> (Seq<SlotModel<M>>, int) {
    if has_id(slots, ty.id) {
        let k = slot_index_of(slots, ty.id);
        (slots.update(k, (SlotModel { bytes: bytes, ..slots[k] })), cursor)
    } else {
        let off = round_up(cursor, ty.align as int);
        (slots.push((SlotModel { ty, offset: off, bytes: bytes, meta })), off + ty.size)
    }
}

/// Everything an insert-or-overwrite guarantees of the builder afterwards:
/// the directory and cursor step as `step_dir` says; an overwrite leaves the
/// arena as it was; an insert provisions the maximum alignment demanded so
/// far and, when the region no longer fits, regrows the arena to the
/// smallest power of two (floor 64) that holds it.
pub open spec fn add_effect<M>(
    pre: EntityBuilder<M>,
    post: EntityBuilder<M>,
    ty: TypeInfo,
    bytes: Seq<u8>,
    meta: M,
) -> bool {
    let stepped = step_dir(pre.slots(), pre.cursor_val(), ty, bytes, meta);
    &&& post.slots() == stepped.0
    &&& post.cursor_val() == stepped.1
    &&& (if has_id(pre.slots(), ty.id) {
        post.capacity() == pre.capacity() && post.alignment() == pre.alignment()
    } else {
        let off = round_up(pre.cursor_val(), ty.align as int);
        &&& post.alignment() == (if ty.align as int > pre.alignment() {
            ty.align as int
        } else {
            pre.alignment()
        })
        &&& post.cursor_val() <= post.capacity()
        &&& (if off + ty.size <= pre.capacity() && ty.align as int <= pre.alignment() {
            post.capacity() == pre.capacity()
        } else {
            &&& is_pow2(post.capacity())
            &&& post.capacity() >= 64
            &&& (post.capacity() == 64 || post.capacity() < 2 * (off + ty.size))
        })
    })
}

/// Helper for incrementally building a bundle of components whose concrete
/// types are only known at run time.
///
/// Values are byte images, inserted together with their type descriptor and
/// packed, aligned, into one growable arena. Inserting a type that is already
/// present destructs the old value (the overwrite reports it) and replaces
/// its bytes in place. `M` is the per-slot metadata: `()` for the plain
/// builder, [`Cloneable`] for the cloneable one.
pub struct EntityBuilder<M> {
    store: Store,
    cursor: usize,
    info: Vec<Slot<M>>,
    indices: TypeIndex,
}

impl<M> EntityBuilder<M> {
    /// The slot directory, with each slot's value bytes read off the arena.
    pub closed spec fn slots(&self) -> Seq<SlotModel<M>> {
        Seq::new(
            self.info@.len(),
            |i: int|
                SlotModel {
                    ty: self.info@[i].ty,
                    offset: self.info@[i].offset as int,
                    bytes: self.store.bytes().subrange(
                        self.info@[i].offset as int,
                        self.info@[i].offset + self.info@[i].ty.size,
                    ),
                    meta: self.info@[i].meta,
                },
        )
    }

    /// End of the occupied, tightly packed prefix of the arena.
    pub closed spec fn cursor_val(&self) -> int {
        self.cursor as int
    }

    /// Capacity of the arena in bytes.
    pub closed spec fn capacity(&self) -> int {
        self.store.capacity()
    }

    /// Alignment the arena is provisioned for.
    pub closed spec fn alignment(&self) -> int {
        self.store.alignment()
    }

    /// Geometry: every slot aligned and inside the occupied prefix, regions
    /// pairwise disjoint, identifiers pairwise distinct.
    pub closed spec fn geom_ok(&self) -> bool {
        &&& self.store.wf()
        &&& 0 <= self.cursor_val() <= self.capacity()
        &&& forall|i: int|
            0 <= i < self.slots().len() ==> slot_geom_ok(
                #[trigger] self.slots()[i],
                self.cursor_val(),
                self.alignment(),
            )
        &&& forall|i: int, j: int|
            0 <= i < self.slots().len() && 0 <= j < self.slots().len() && i != j
                ==> disjoint_slots(#[trigger] self.slots()[i], #[trigger] self.slots()[j])
        &&& distinct_ids(self.slots())
    }

    /// The index maps exactly the stored identifiers, each to its position.
    pub closed spec fn index_ok(&self) -> bool {
        let m = index_entries(self.indices);
        &&& forall|i: int|
            0 <= i < self.info@.len() ==> m.contains_key((#[trigger] self.info@[i]).ty.id)
                && m[self.info@[i].ty.id] as int == i
        &&& forall|id: u64|
            #[trigger] m.contains_key(id) ==> (m[id] as int) < self.info@.len()
                && self.info@[m[id] as int].ty.id == id
    }

    /// The builder's invariant: constructors establish it, every method
    /// preserves it.
    pub open spec fn wf(&self) -> bool {
        self.geom_ok() && self.index_ok()
    }

    /// From the invariant: every slot's offset is a multiple of its type's
    /// alignment, and every slot's region lies inside the arena's capacity.
    pub proof fn lemma_alignment_invariant(&self)
        requires
            self.wf(),
        ensures
            forall|i: int|
                0 <= i < self.slots().len() ==> ((#[trigger] self.slots()[i]).offset % (
                self.slots()[i].ty.align as int) == 0 && self.slots()[i].offset
                    + self.slots()[i].ty.size <= self.capacity()),
    {
    }

    /// From the invariant: slot identifiers are pairwise distinct, so a type
    /// occupies at most one slot.
    pub proof fn lemma_distinct_ids(&self)
        requires
            self.wf(),
        ensures
            distinct_ids(self.slots()),
    {
    }

    /// From the invariant: slot byte regions are pairwise disjoint.
    pub proof fn lemma_disjoint_regions(&self)
        requires
            self.wf(),
        ensures
            forall|i: int, j: int|
                0 <= i < self.slots().len() && 0 <= j < self.slots().len() && i != j
                    ==> disjoint_slots(#[trigger] self.slots()[i], #[trigger] self.slots()[j]),
    {
    }

    pub(crate) fn new_inner() -> (b: EntityBuilder<M>)
        ensures
            b.wf(),
            b.slots().len() == 0,
            b.cursor_val() == 0,
            b.capacity() == 0,
            b.alignment() == 8,
    {
        let b = EntityBuilder { store: Store::new(), cursor: 0, info: Vec::new(), indices: TypeIndex::new() };
        proof {
            assert(b.slots().len() == 0);
        }
        b
    }

    /// Checks whether a component with identifier `id` exists.
    pub fn has(&self, id: u64) -> (r: bool)
        requires
            self.wf(),
        ensures
            r == has_id(self.slots(), id),
    {
        let found = self.indices.get(id);
        proof {
            let m = index_entries(self.indices);
            if m.contains_key(id) {
                let k = m[id] as int;
                assert(self.slots()[k].ty.id == id);
            }
            if has_id(self.slots(), id) {
                let i = slot_index_of(self.slots(), id);
                assert(self.info@[i].ty.id == id);
                assert(m.contains_key(id));
            }
        }
        match found {
            Some(_) => true,
            None => false,
        }
    }

    /// Borrow the bytes of the component with identifier `id`, if it exists,
    /// as an owned copy.
    pub fn get(&self, id: u64) -> (r: Option<Vec<u8>>)
        requires
            self.wf(),
        ensures
            r is Some <==> has_id(self.slots(), id),
            (r matches Some(b) ==> b@ == self.slots()[slot_index_of(self.slots(), id)].bytes),
    {
        let found = self.indices.get(id);
        proof {
            let m = index_entries(self.indices);
            if m.contains_key(id) {
                let k = m[id] as int;
                assert(self.slots()[k].ty.id == id);
            }
            if has_id(self.slots(), id) {
                let i = slot_index_of(self.slots(), id);
                assert(self.info@[i].ty.id == id);
                assert(m.contains_key(id));
            }
        }
        match found {
            Some(k) => {
                let offset = self.info[k].offset;
                let size = self.info[k].ty.size;
                proof {
                    assert(slot_geom_ok(
                        self.slots()[k as int],
                        self.cursor_val(),
                        self.alignment(),
                    ));
                    let i = slot_index_of(self.slots(), id);
                    assert(self.slots()[i].ty.id == id);
                    assert(i == k as int);
                }
                let b = self.store.read_bytes(offset, size);
                Some(b)
            },
            None => None,
        }
    }

    /// Enumerate the identifiers of the builder's components, in directory
    /// order.
    pub fn component_types(&self) -> (r: Vec<u64>)
        requires
            self.wf(),
        ensures
            r@ == ids_of(self.slots()),
    {
        let mut r: Vec<u64> = Vec::new();
        let mut i: usize = 0;
        while i < self.info.len()
            invariant
                i <= self.info@.len(),
                r@.len() == i as int,
                forall|j: int| 0 <= j < i ==> r@[j] == (#[trigger] self.info@[j]).ty.id,
            decreases self.info@.len() - i,
        {
            let id = self.info[i].ty.id;
            r.push(id);
            i += 1;
        }
        proof {
            assert(r@ =~= ids_of(self.slots()));
        }
        r
    }

    /// The number of slots in the directory.
    pub fn len(&self) -> (n: usize)
        ensures
            n == self.slots().len(),
    {
        self.info.len()
    }

    /// The arena's capacity in bytes.
    pub fn capacity_bytes(&self) -> (c: usize)
        ensures
            c as int == self.capacity(),
    {
        self.store.capacity_exec()
    }

    /// The descriptor and value bytes of the slot at position `i`.
    pub fn slot_entry(&self, i: usize) -> (r: (TypeInfo, Vec<u8>))
        requires
            self.wf(),
            i < self.slots().len(),
        ensures
            r.0 == self.slots()[i as int].ty,
            r.1@ == self.slots()[i as int].bytes,
    {
        let offset = self.info[i].offset;
        let ty = self.info[i].ty;
        proof {
            assert(slot_geom_ok(self.slots()[i as int], self.cursor_val(), self.alignment()));
        }
        let b = self.store.read_bytes(offset, ty.size);
        (ty, b)
    }

    /// Destruct every buffered value and empty the directory.
    ///
    /// Every slot's value is destructed exactly once; the returned count says
    /// how many. The arena's capacity is retained for reuse. Clearing an
    /// already empty builder destructs nothing.
    pub fn clear(&mut self) -> (dropped: usize)
        requires
            old(self).wf(),
        ensures
            final(self).wf(),
            dropped == old(self).slots().len(),
            final(self).slots().len() == 0,
            final(self).cursor_val() == 0,
            final(self).capacity() == old(self).capacity(),
            final(self).alignment() == old(self).alignment(),
    {
        let n = self.info.len();
        self.info.clear();
        self.indices.clear();
        self.cursor = 0;
        n
    }

    /// Insert the value `bytes` described by `ty`, or overwrite the value
    /// already stored under `ty.id`.
    ///
    /// On overwrite the old value is destructed (the result reports it), the
    /// new bytes take its place, and the directory keeps its order, offsets
    /// and metadata. On insert the value is placed at the cursor rounded up
    /// to the type's alignment, growing the arena as needed, and a new slot
    /// is appended.
    pub(crate) fn add_inner(&mut self, ty: TypeInfo, bytes: Vec<u8>, meta: M) -> (replaced: bool)
        requires
            add_pre(*old(self), ty, bytes@),
        ensures
            final(self).wf(),
            replaced == has_id(old(self).slots(), ty.id),
            add_effect(*old(self), *final(self), ty, bytes@, meta),
    {
        proof {
            let m = index_entries(self.indices);
            if m.contains_key(ty.id) {
                let k = m[ty.id] as int;
                assert(self.slots()[k].ty.id == ty.id);
            }
            if has_id(self.slots(), ty.id) {
                let i = slot_index_of(self.slots(), ty.id);
                assert(self.info@[i].ty.id == ty.id);
                assert(m.contains_key(ty.id));
            }
        }
        let found = self.indices.get(ty.id);
        match found {
            Some(k) => {
                let ghost old_self = *self;
                let ghost kk = slot_index_of(old(self).slots(), ty.id);
                proof {
                    assert(self.slots()[k as int].ty.id == ty.id);
                    assert(kk == k as int);
                    assert(slot_geom_ok(
                        self.slots()[k as int],
                        self.cursor_val(),
                        self.alignment(),
                    ));
                }
                let offset = self.info[k].offset;
                self.store.write_bytes(offset, &bytes);
                proof {
                    lemma_overwrite_view(old_self, *self, k as int, bytes@);
                }
                true
            },
            None => {
                let ghost old_self = *self;
                proof {
                    lemma_round_up(self.cursor_val(), ty.align as int);
                }
                let off = round_up_usize(self.cursor, ty.align);
                let end = off + ty.size;
                self.store.ensure_capacity(self.cursor, end, ty.align);
                self.store.write_bytes(off, &bytes);
                let pos = self.info.len();
                self.indices.insert(ty.id, pos);
                self.info.push(Slot { ty, offset: off, meta });
                self.cursor = end;
                let len_now = self.info.len();
                proof {
                    assert(len_now as int == old_self.info@.len() + 1);
                    assert(old_self.info@.len() < usize::MAX);
                    lemma_insert_view(old_self, *self, ty, off as int, bytes@, meta);
                }
                false
            },
        }
    }
}

/// After an in-place overwrite of slot `k`'s region, the directory reads as
/// the old one with only slot `k`'s bytes replaced, and the invariant holds.
proof fn lemma_overwrite_view<M>(pre: EntityBuilder<M>, post: EntityBuilder<M>, k: int, bytes: Seq<u8>)
    requires
        pre.wf(),
        0 <= k < pre.slots().len(),
        bytes.len() == pre.slots()[k].ty.size,
        post.info@ == pre.info@,
        post.indices == pre.indices,
        post.cursor == pre.cursor,
        post.store.capacity() == pre.store.capacity(),
        post.store.alignment() == pre.store.alignment(),
        forall|p: int|
            0 <= p < post.store.capacity() ==> post.store.bytes()[p] == (if pre.slots()[k].offset
                <= p < pre.slots()[k].offset + bytes.len() {
                bytes[p - pre.slots()[k].offset]
            } else {
                pre.store.bytes()[p]
            }),
    ensures
        post.wf(),
        post.slots() == pre.slots().update(k, (SlotModel { bytes: bytes, ..pre.slots()[k] })),
        post.cursor_val() == pre.cursor_val(),
        post.capacity() == pre.capacity(),
        post.alignment() == pre.alignment(),
{
    let off = pre.slots()[k].offset;
    let sz = pre.slots()[k].ty.size as int;
    assert(slot_geom_ok(pre.slots()[k], pre.cursor_val(), pre.alignment()));
    assert forall|i: int| 0 <= i < post.slots().len() implies #[trigger] post.slots()[i]
        == pre.slots().update(k, (SlotModel { bytes: bytes, ..pre.slots()[k] }))[i] by {
        assert(slot_geom_ok(pre.slots()[i], pre.cursor_val(), pre.alignment()));
        let oi = pre.slots()[i].offset;
        let si = pre.slots()[i].ty.size as int;
        if i == k {
            assert(post.slots()[i].bytes =~= bytes);
        } else {
            assert(disjoint_slots(pre.slots()[i], pre.slots()[k]));
            assert forall|p: int| 0 <= p < si implies (#[trigger] post.store.bytes()[oi + p])
                == pre.store.bytes()[oi + p] by {
                assert(oi + p < pre.cursor_val() + 1);
            }
            assert(post.slots()[i].bytes =~= pre.slots()[i].bytes);
        }
    }
    assert(post.slots() =~= pre.slots().update(k, (SlotModel { bytes: bytes, ..pre.slots()[k] })));
    assert forall|i: int|
        0 <= i < post.slots().len() implies slot_geom_ok(
        #[trigger] post.slots()[i],
        post.cursor_val(),
        post.alignment(),
    ) by {
        assert(slot_geom_ok(pre.slots()[i], pre.cursor_val(), pre.alignment()));
    }
}

/// After growing, writing at the aligned cursor, and appending a slot, the
/// directory reads as the old one with the new slot pushed, and the invariant
/// holds.
proof fn lemma_insert_view<M>(
    pre: EntityBuilder<M>,
    post: EntityBuilder<M>,
    ty: TypeInfo,
    off: int,
    bytes: Seq<u8>,
    meta: M,
)
    requires
        pre.wf(),
        ty.wf(),
        !has_id(pre.slots(), ty.id),
        bytes.len() == ty.size,
        off == round_up(pre.cursor_val(), ty.align as int),
        off % (ty.align as int) == 0,
        pre.cursor_val() <= off,
        pre.info@.len() < usize::MAX,
        post.info@ == pre.info@.push(Slot { ty, offset: off as usize, meta }),
        off + ty.size <= usize::MAX / 2,
        post.cursor as int == off + ty.size,
        index_entries(post.indices) == index_entries(pre.indices).insert(
            ty.id,
            pre.info@.len() as usize,
        ),
        post.store.wf(),
        post.store.capacity() >= off + ty.size,
        post.store.alignment() == (if ty.align as int > pre.store.alignment() {
            ty.align as int
        } else {
            pre.store.alignment()
        }),
        forall|p: int|
            0 <= p < post.store.capacity() ==> post.store.bytes()[p] == (if off <= p < off
                + bytes.len() {
                bytes[p - off]
            } else if p < pre.cursor_val() {
                pre.store.bytes()[p]
            } else {
                post.store.bytes()[p]
            }),
    ensures
        post.wf(),
        post.slots() == pre.slots().push((SlotModel { ty, offset: off, bytes: bytes, meta })),
        post.cursor_val() == off + ty.size,
{
    let n = pre.slots().len() as int;
    assert(post.slots().len() == n + 1);
    assert forall|i: int| 0 <= i < n implies #[trigger] post.slots()[i] == pre.slots()[i] by {
        assert(slot_geom_ok(pre.slots()[i], pre.cursor_val(), pre.alignment()));
        let oi = pre.slots()[i].offset;
        let si = pre.slots()[i].ty.size as int;
        assert forall|p: int| 0 <= p < si implies (#[trigger] post.store.bytes()[oi + p])
            == pre.store.bytes()[oi + p] by {
            assert(oi + p < pre.cursor_val());
        }
        assert(post.slots()[i].bytes =~= pre.slots()[i].bytes);
    }
    assert(post.slots()[n].bytes =~= bytes);
    assert(post.slots()[n] == (SlotModel { ty, offset: off, bytes: bytes, meta }));
    assert(post.slots() =~= pre.slots().push((SlotModel { ty, offset: off, bytes: bytes, meta })));

    // geometry
    assert forall|i: int|
        0 <= i < post.slots().len() implies slot_geom_ok(
        #[trigger] post.slots()[i],
        post.cursor_val(),
        post.alignment(),
    ) by {
        if i < n {
            assert(slot_geom_ok(pre.slots()[i], pre.cursor_val(), pre.alignment()));
        }
    }
    assert forall|i: int, j: int|
        0 <= i < post.slots().len() && 0 <= j < post.slots().len() && i != j implies disjoint_slots(
        #[trigger] post.slots()[i],
        #[trigger] post.slots()[j],
    ) by {
        if i < n && j < n {
            assert(disjoint_slots(pre.slots()[i], pre.slots()[j]));
        } else if i < n {
            assert(slot_geom_ok(pre.slots()[i], pre.cursor_val(), pre.alignment()));
        } else {
            assert(slot_geom_ok(pre.slots()[j], pre.cursor_val(), pre.alignment()));
        }
    }
    // distinct identifiers
    assert forall|i: int, j: int|
        0 <= i < post.slots().len() && 0 <= j < post.slots().len() && i != j implies (
    #[trigger] post.slots()[i]).ty.id != (#[trigger] post.slots()[j]).ty.id by {
        if i < n && j < n {
            assert(pre.slots()[i].ty.id != pre.slots()[j].ty.id);
        } else if i < n {
            assert(!(pre.slots()[i].ty.id == ty.id));
        } else if j < n {
            assert(!(pre.slots()[j].ty.id == ty.id));
        }
    }
    // index
    let m0 = index_entries(pre.indices);
    let m1 = index_entries(post.indices);
    assert forall|i: int|
        0 <= i < post.info@.len() implies m1.contains_key((#[trigger] post.info@[i]).ty.id)
        && m1[post.info@[i].ty.id] as int == i by {
        if i < n {
            assert(m0.contains_key(pre.info@[i].ty.id));
            assert(pre.slots()[i].ty.id == pre.info@[i].ty.id);
            assert(!(pre.slots()[i].ty.id == ty.id));
        } else {
            assert(post.info@[i].ty.id == ty.id);
            assert(m1[ty.id] == pre.info@.len() as usize);
        }
    }
    assert forall|id: u64| #[trigger] m1.contains_key(id) implies (m1[id] as int)
        < post.info@.len() && post.info@[m1[id] as int].ty.id == id by {
        if id != ty.id {
            assert(m0.contains_key(id));
        }
    }
}

/// Identifiers are nondecreasing among the first `k` slots.
pub open spec fn sorted_prefix<M>(s: Seq<SlotModel<M>>, k: int) -> bool {
    forall|a: int, b: int|
        0 <= a < b < k && b < s.len() ==> (#[trigger] s[a]).ty.id <= (#[trigger] s[b]).ty.id
}

/// Exchanging the directory entries at `p` and `q` exchanges exactly those
/// two slots of the directory image and preserves the geometry invariant.
proof fn lemma_swap_view<M>(pre: EntityBuilder<M>, post: EntityBuilder<M>, p: int, q: int)
    requires
        pre.geom_ok(),
        post.store == pre.store,
        post.cursor == pre.cursor,
        0 <= p < pre.info@.len(),
        0 <= q < pre.info@.len(),
        p != q,
        post.info@ == pre.info@.update(p, pre.info@[q]).update(q, pre.info@[p]),
    ensures
        post.slots().len() == pre.slots().len(),
        post.slots()[p] == pre.slots()[q],
        post.slots()[q] == pre.slots()[p],
        forall|k: int|
            0 <= k < pre.slots().len() && k != p && k != q ==> #[trigger] post.slots()[k]
                == pre.slots()[k],
        post.geom_ok(),
        post.cursor_val() == pre.cursor_val(),
        post.capacity() == pre.capacity(),
        post.alignment() == pre.alignment(),
{
    let n = pre.slots().len() as int;
    assert forall|k: int| 0 <= k < n implies #[trigger] post.slots()[k] == pre.slots()[
        (if k == p {
            q
        } else if k == q {
            p
        } else {
            k
        })
    ] by {
        let src = if k == p {
            q
        } else if k == q {
            p
        } else {
            k
        };
        assert(post.info@[k] == pre.info@[src]);
        assert(post.slots()[k].bytes =~= pre.slots()[src].bytes);
    }
    assert forall|i: int|
        0 <= i < post.slots().len() implies slot_geom_ok(
        #[trigger] post.slots()[i],
        post.cursor_val(),
        post.alignment(),
    ) by {
        let src = if i == p {
            q
        } else if i == q {
            p
        } else {
            i
        };
        assert(slot_geom_ok(pre.slots()[src], pre.cursor_val(), pre.alignment()));
    }
    assert forall|i: int, j: int|
        0 <= i < post.slots().len() && 0 <= j < post.slots().len() && i != j implies disjoint_slots(
        #[trigger] post.slots()[i],
        #[trigger] post.slots()[j],
    ) by {
        let si = if i == p {
            q
        } else if i == q {
            p
        } else {
            i
        };
        let sj = if j == p {
            q
        } else if j == q {
            p
        } else {
            j
        };
        assert(disjoint_slots(pre.slots()[si], pre.slots()[sj]));
    }
    assert forall|i: int, j: int|
        0 <= i < post.slots().len() && 0 <= j < post.slots().len() && i != j implies (
    #[trigger] post.slots()[i]).ty.id != (#[trigger] post.slots()[j]).ty.id by {
        let si = if i == p {
            q
        } else if i == q {
            p
        } else {
            i
        };
        let sj = if j == p {
            q
        } else if j == q {
            p
        } else {
            j
        };
        assert(pre.slots()[si].ty.id != pre.slots()[sj].ty.id);
    }
}

impl<M: Copy> EntityBuilder<M> {
    /// Sort the slot directory by type identifier and rebuild the index to
    /// the sorted positions. Every slot (descriptor, offset, bytes and
    /// metadata) is kept; only the directory order changes.
    #[verifier::rlimit(60)]
    pub(crate) fn freeze(&mut self)
        requires
            old(self).wf(),
        ensures
            final(self).wf(),
            sorted_by_id(final(self).slots()),
            final(self).slots().len() == old(self).slots().len(),
            final(self).cursor_val() == old(self).cursor_val(),
            final(self).capacity() == old(self).capacity(),
            final(self).alignment() == old(self).alignment(),
            forall|a: int|
                0 <= a < final(self).slots().len() ==> old(self).slots().contains(
                    #[trigger] final(self).slots()[a],
                ),
            forall|b: int|
                0 <= b < old(self).slots().len() ==> final(self).slots().contains(
                    #[trigger] old(self).slots()[b],
                ),
            forall|id: u64| has_id(final(self).slots(), id) <==> has_id(old(self).slots(), id),
    {
        let n = self.info.len();
        let mut i: usize = 1;
        while i < n
            invariant
                old(self).wf(),
                self.store == old(self).store,
                self.indices == old(self).indices,
                self.cursor == old(self).cursor,
                self.info@.len() == n as int,
                n as int == old(self).slots().len(),
                1 <= i,
                self.geom_ok(),
                sorted_prefix(self.slots(), i as int),
                forall|a: int|
                    0 <= a < n ==> old(self).slots().contains(#[trigger] self.slots()[a]),
                forall|b: int|
                    0 <= b < n ==> self.slots().contains(#[trigger] old(self).slots()[b]),
            decreases n - i,
        {
            let mut j: usize = i;
            while j > 0 && self.info[j - 1].ty.id > self.info[j].ty.id
                invariant
                    old(self).wf(),
                    self.store == old(self).store,
                    self.indices == old(self).indices,
                    self.cursor == old(self).cursor,
                    self.info@.len() == n as int,
                    n as int == old(self).slots().len(),
                    0 <= j <= i < n,
                    self.geom_ok(),
                    forall|a: int, b: int|
                        0 <= a < b <= i as int && b != j as int ==> (
                        #[trigger] self.slots()[a]).ty.id <= (#[trigger] self.slots()[b]).ty.id,
                    forall|a: int|
                        (j as int) < a <= i as int ==> (self.slots()[j as int]).ty.id <= (
                        #[trigger] self.slots()[a]).ty.id,
                    forall|a: int|
                        0 <= a < n ==> old(self).slots().contains(#[trigger] self.slots()[a]),
                    forall|b: int|
                        0 <= b < n ==> self.slots().contains(#[trigger] old(self).slots()[b]),
                decreases j,
            {
                let x = self.info[j - 1];
                let y = self.info[j];
                let ghost pre = *self;
                self.info[j - 1] = y;
                self.info[j] = x;
                proof {
                    assert(self.info@ == pre.info@.update(j - 1, pre.info@[j as int]).update(
                        j as int,
                        pre.info@[j - 1],
                    ));
                    lemma_swap_view(pre, *self, j - 1, j as int);
                    assert forall|a: int|
                        0 <= a < n implies old(self).slots().contains(
                        #[trigger] self.slots()[a],
                    ) by {
                        let src = if a == j - 1 {
                            j as int
                        } else if a == j {
                            j - 1
                        } else {
                            a
                        };
                        assert(self.slots()[a] == pre.slots()[src]);
                        assert(old(self).slots().contains(pre.slots()[src]));
                    }
                    assert forall|b: int|
                        0 <= b < n implies self.slots().contains(
                        #[trigger] old(self).slots()[b],
                    ) by {
                        assert(pre.slots().contains(old(self).slots()[b]));
                        let a0 = choose|a: int|
                            0 <= a < pre.slots().len() && pre.slots()[a] == old(self).slots()[b];
                        let dst = if a0 == j - 1 {
                            j as int
                        } else if a0 == j {
                            j - 1
                        } else {
                            a0
                        };
                        assert(self.slots()[dst] == old(self).slots()[b]);
                    }
                }
                j -= 1;
            }
            proof {
                assert forall|a: int, b: int| 0 <= a < b <= i as int implies (
                #[trigger] self.slots()[a]).ty.id <= (#[trigger] self.slots()[b]).ty.id by {
                    if b == j as int {
                        if j > 0 {
                            if a < j - 1 {
                                assert(self.slots()[a].ty.id <= self.slots()[j - 1].ty.id);
                            }
                            assert(self.slots()[j - 1].ty.id <= self.slots()[j as int].ty.id);
                        }
                    }
                }
                assert(sorted_prefix(self.slots(), i as int + 1));
            }
            i += 1;
        }
        let ghost mid = *self;
        self.indices.clear();
        let mut k: usize = 0;
        while k < n
            invariant
                0 <= k <= n,
                mid.geom_ok(),
                self.store == mid.store,
                self.cursor == mid.cursor,
                self.info == mid.info,
                self.info@.len() == n as int,
                forall|l: int|
                    0 <= l < k as int ==> index_entries(self.indices).contains_key(
                        (#[trigger] self.info@[l]).ty.id,
                    ) && index_entries(self.indices)[self.info@[l].ty.id] as int == l,
                forall|id: u64|
                    #[trigger] index_entries(self.indices).contains_key(id) ==> exists|l: int|
                        0 <= l < k as int && (#[trigger] self.info@[l]).ty.id == id,
            decreases n - k,
        {
            let id = self.info[k].ty.id;
            let ghost pre_map = index_entries(self.indices);
            self.indices.insert(id, k);
            proof {
                assert forall|idq: u64|
                    #[trigger] index_entries(self.indices).contains_key(idq) implies exists|l: int|
                        0 <= l < k as int + 1 && (#[trigger] self.info@[l]).ty.id == idq by {
                    if idq == id {
                        assert(0 <= k as int && (k as int) < k as int + 1 && self.info@[k as int].ty.id == idq);
                    } else {
                        assert(pre_map.contains_key(idq));
                        let l0 = choose|l: int|
                            0 <= l < k as int && (#[trigger] self.info@[l]).ty.id == idq;
                        assert(0 <= l0 < k as int + 1 && self.info@[l0].ty.id == idq);
                    }
                }
                assert forall|l: int|
                    0 <= l < k as int + 1 implies index_entries(self.indices).contains_key(
                    (#[trigger] self.info@[l]).ty.id,
                ) && index_entries(self.indices)[self.info@[l].ty.id] as int == l by {
                    if l < k as int {
                        assert(mid.slots()[l].ty.id == self.info@[l].ty.id);
                        assert(mid.slots()[k as int].ty.id == self.info@[k as int].ty.id);
                        assert(mid.slots()[l].ty.id != mid.slots()[k as int].ty.id);
                    }
                }
            }
            k += 1;
        }
        proof {
            assert forall|id: u64| #[trigger] index_entries(self.indices).contains_key(
                id,
            ) implies (index_entries(self.indices)[id] as int) < self.info@.len()
                && self.info@[index_entries(self.indices)[id] as int].ty.id == id by {
                let l = choose|l: int| 0 <= l < n && (#[trigger] self.info@[l]).ty.id == id;
                assert(index_entries(self.indices)[self.info@[l].ty.id] as int == l);
            }
            assert(self.slots() =~= mid.slots());
            assert forall|id: u64| has_id(self.slots(), id) <==> has_id(
                old(self).slots(),
                id,
            ) by {
                if has_id(self.slots(), id) {
                    let a = slot_index_of(self.slots(), id);
                    assert(self.slots()[a].ty.id == id);
                    assert(old(self).slots().contains(self.slots()[a]));
                    let b0 = choose|b: int|
                        0 <= b < old(self).slots().len() && old(self).slots()[b] == self.slots()[a];
                    assert(old(self).slots()[b0].ty.id == id);
                }
                if has_id(old(self).slots(), id) {
                    let b = slot_index_of(old(self).slots(), id);
                    assert(old(self).slots()[b].ty.id == id);
                    assert(self.slots().contains(old(self).slots()[b]));
                    let a0 = choose|a: int|
                        0 <= a < self.slots().len() && self.slots()[a] == old(self).slots()[b];
                    assert(self.slots()[a0].ty.id == id);
                }
            }
        }
    }
}


impl EntityBuilder<()> {
    /// Create a builder representing a bundle with no components.
    pub fn new() -> (b: EntityBuilder<()>)
        ensures
            b.wf(),
            b.slots().len() == 0,
            b.cursor_val() == 0,
            b.capacity() == 0,
            b.alignment() == 8,
    {
        Self::new_inner()
    }

    /// Add the component `bytes` described by `ty`.
    ///
    /// If the bundle already contains a component of type `ty.id`, its old
    /// value is destructed — the result reports exactly that — and the new
    /// bytes replace it in place; otherwise a slot is appended.
    pub fn add(&mut self, ty: TypeInfo, bytes: Vec<u8>) -> (replaced: bool)
        requires
            add_pre(*old(self), ty, bytes@),
        ensures
            final(self).wf(),
            replaced == has_id(old(self).slots(), ty.id),
            add_effect(*old(self), *final(self), ty, bytes@, ()),
    {
        self.add_inner(ty, bytes, ())
    }

    /// Add every component of `parts`, in order, with the same
    /// insert-or-overwrite semantics as `add` for each one.
    pub fn add_bundle(&mut self, parts: Vec<(TypeInfo, Vec<u8>)>)
        requires
            old(self).wf(),
            steps_ok(old(self).slots(), old(self).cursor_val(), parts@),
        ensures
            final(self).wf(),
            final(self).slots() == steps_dir(
                old(self).slots(),
                old(self).cursor_val(),
                parts@,
            ).0,
            final(self).cursor_val() == steps_dir(
                old(self).slots(),
                old(self).cursor_val(),
                parts@,
            ).1,
    {
        let mut rest = parts;
        while rest.len() > 0
            invariant
                self.wf(),
                steps_ok(self.slots(), self.cursor_val(), rest@),
                steps_dir(self.slots(), self.cursor_val(), rest@) == steps_dir(
                    old(self).slots(),
                    old(self).cursor_val(),
                    parts@,
                ),
            decreases rest@.len(),
        {
            let ghost rest0 = rest@;
            let (ty, bytes) = rest.remove(0);
            proof {
                assert(rest@ =~= rest0.drop_first());
                assert(ty == rest0[0].0 && bytes == rest0[0].1);
            }
            let _ = self.add(ty, bytes);
            proof {
                assert(steps_dir(self.slots(), self.cursor_val(), rest@) == steps_dir(
                    old(self).slots(),
                    old(self).cursor_val(),
                    parts@,
                ));
            }
        }
        proof {
            assert(rest@.len() == 0);
        }
    }
}

/// Guard for `add_bundle`: each component in turn meets `add`'s demands
/// against the directory as it stands when that component is reached.
pub open spec fn steps_ok(
    slots: Seq<SlotModel<()>>,
    cursor: int,
    parts: Seq<(TypeInfo, Vec<u8>)>,
) -> bool
    decreases parts.len(),
{
    parts.len() == 0 || {
        let ty = parts[0].0;
        let bs = parts[0].1@;
        &&& ty.wf()
        &&& bs.len() == ty.size
        &&& round_up(cursor, ty.align as int) + ty.size <= usize::MAX / 2
        &&& (has_id(slots, ty.id) ==> slots[slot_index_of(slots, ty.id)].ty == ty)
        &&& ({
            let stepped = step_dir(slots, cursor, ty, bs, ());
            steps_ok(stepped.0, stepped.1, parts.drop_first())
        })
    }
}

/// The directory and cursor after adding every component of `parts` in
/// order.
pub open spec fn steps_dir(
    slots: Seq<SlotModel<()>>,
    cursor: int,
    parts: Seq<(TypeInfo, Vec<u8>)>,
) -> (Seq<SlotModel<()>>, int)
    decreases parts.len(),
{
    if parts.len() == 0 {
        (slots, cursor)
    } else {
        let stepped = step_dir(slots, cursor, parts[0].0, parts[0].1@, ());
        steps_dir(stepped.0, stepped.1, parts.drop_first())
    }
}

impl EntityBuilder<Cloneable> {
    /// Create a builder for components that may be duplicated.
    pub fn new_cloneable() -> (b: EntityBuilder<Cloneable>)
        ensures
            b.wf(),
            b.slots().len() == 0,
            b.cursor_val() == 0,
            b.capacity() == 0,
            b.alignment() == 8,
    {
        Self::new_inner()
    }

    /// Add the component `bytes` described by `ty`, marking its slot as
    /// duplicable.
    ///
    /// If the bundle already contains a component of type `ty.id`, its old
    /// value is destructed — the result reports exactly that — and the new
    /// bytes replace it in place; otherwise a slot is appended.
    pub fn add(&mut self, ty: TypeInfo, bytes: Vec<u8>) -> (replaced: bool)
        requires
            add_pre(*old(self), ty, bytes@),
        ensures
            final(self).wf(),
            replaced == has_id(old(self).slots(), ty.id),
            add_effect(*old(self), *final(self), ty, bytes@, Cloneable),
    {
        self.add_inner(ty, bytes, Cloneable)
    }
}

impl<M> Default for EntityBuilder<M> {
    /// Create a builder representing a bundle with no components.
    fn default() -> (b: Self)
        ensures
            b.wf(),
            b.slots().len() == 0,
            b.cursor_val() == 0,
            b.capacity() == 0,
            b.alignment() == 8,
    {
        Self::new_inner()
    }
}

impl Clone for EntityBuilder<Cloneable> {
    /// Deep duplication: a fresh arena with the same capacity, alignment and
    /// live bytes, and for every slot an independent duplicate of its value
    /// at the same offset in the new arena.
    fn clone(&self) -> (r: Self)
        ensures
            r.slots() == self.slots(),
            r.cursor_val() == self.cursor_val(),
            r.capacity() == self.capacity(),
            r.alignment() == self.alignment(),
            self.wf() ==> r.wf(),
    {
        let store2 = self.store.duplicate();
        let mut info2: Vec<Slot<Cloneable>> = Vec::new();
        let mut i: usize = 0;
        while i < self.info.len()
            invariant
                i <= self.info@.len(),
                info2@.len() == i as int,
                forall|j: int| 0 <= j < i ==> info2@[j] == self.info@[j],
            decreases self.info@.len() - i,
        {
            let sl = self.info[i];
            info2.push(sl);
            i += 1;
        }
        proof {
            assert(info2@ =~= self.info@);
        }
        let r = EntityBuilder {
            store: store2,
            cursor: self.cursor,
            info: info2,
            indices: self.indices.duplicate(),
        };
        proof {
            assert forall|k: int| 0 <= k < r.slots().len() implies #[trigger] r.slots()[k]
                == self.slots()[k] by {
                assert(r.slots()[k].bytes =~= self.slots()[k].bytes);
            }
            assert(r.slots() =~= self.slots());
            if self.wf() {
                assert forall|k: int|
                    0 <= k < r.slots().len() implies slot_geom_ok(
                    #[trigger] r.slots()[k],
                    r.cursor_val(),
                    r.alignment(),
                ) by {
                    assert(slot_geom_ok(self.slots()[k], self.cursor_val(), self.alignment()));
                }
                assert forall|a: int, b: int|
                    0 <= a < r.slots().len() && 0 <= b < r.slots().len() && a != b
                        implies disjoint_slots(#[trigger] r.slots()[a], #[trigger] r.slots()[b]) by {
                    assert(disjoint_slots(self.slots()[a], self.slots()[b]));
                }
                assert forall|a: int, b: int|
                    0 <= a < r.slots().len() && 0 <= b < r.slots().len() && a != b implies (
                #[trigger] r.slots()[a]).ty.id != (#[trigger] r.slots()[b]).ty.id by {
                    assert(self.slots()[a].ty.id != self.slots()[b].ty.id);
                }
                assert(r.geom_ok());
                assert(r.index_ok());
            }
        }
        r
    }
}

} // verus!
