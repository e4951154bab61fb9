//! Built bundles: the frozen views through which a receiving store takes the
//! buffered components out (plain bundles) or duplicates them repeatedly
//! (reusable bundles).

use vstd::prelude::*;
use crate::builder::{
    distinct_ids, has_id, ids_of, sorted_by_id, Cloneable, EntityBuilder, SlotModel,
};
use crate::type_info::TypeInfo;

verus! {

/// The output of a plain builder's `build`: the builder with its directory
/// sorted by type identifier, plus the snapshot of the sorted identifiers.
///
/// Take the components out with `put`, or give them up with `discard`, which
/// destructs them so none leaks; either way the emptied builder comes back,
/// ready for reuse with its arena retained.
pub struct BuiltEntity {
    builder: EntityBuilder<()>,
    ids: Vec<u64>,
}

/// A bundle of components that may be duplicated: built from, and
/// convertible back into, a cloneable builder.
///
/// `put` hands out an independent duplicate of every component and leaves
/// the originals untouched, so the same bundle can be consumed any number of
/// times.
pub struct ReusableBuiltEntity {
    builder: EntityBuilder<Cloneable>,
    ids: Vec<u64>,
}

impl BuiltEntity {
    /// The sorted slot directory.
    pub closed spec fn slots(&self) -> Seq<SlotModel<()>> {
        self.builder.slots()
    }

    /// The snapshot of the sorted type identifiers.
    pub closed spec fn ids(&self) -> Seq<u64> {
        self.ids@
    }

    /// The arena capacity the bundle's builder holds.
    pub closed spec fn capacity(&self) -> int {
        self.builder.capacity()
    }

    pub closed spec fn wf(&self) -> bool {
        &&& self.builder.wf()
        &&& sorted_by_id(self.slots())
        &&& self.ids() == ids_of(self.slots())
    }

    /// From the invariant: the slots are sorted with pairwise distinct
    /// identifiers and the snapshot lists exactly those identifiers in order.
    pub proof fn lemma_built_shape(&self)
        requires
            self.wf(),
        ensures
            sorted_by_id(self.slots()),
            distinct_ids(self.slots()),
            self.ids() == ids_of(self.slots()),
    {
        self.builder.lemma_distinct_ids();
    }

    /// The sorted type-identifier sequence, for signature queries.
    pub fn with_ids(&self) -> (r: Vec<u64>)
        ensures
            r@ == self.ids(),
    {
        let mut r: Vec<u64> = Vec::new();
        let mut i: usize = 0;
        while i < self.ids.len()
            invariant
                i <= self.ids@.len(),
                r@.len() == i as int,
                forall|j: int| 0 <= j < i ==> r@[j] == self.ids@[j],
            decreases self.ids@.len() - i,
        {
            let id = self.ids[i];
            r.push(id);
            i += 1;
        }
        proof {
            assert(r@ =~= self.ids@);
        }
        r
    }

    /// Every type descriptor, in sorted order.
    pub fn type_info(&self) -> (r: Vec<TypeInfo>)
        requires
            self.wf(),
        ensures
            r@.len() == self.slots().len(),
            forall|i: int| 0 <= i < r@.len() ==> r@[i] == (#[trigger] self.slots()[i]).ty,
    {
        let n = self.builder.len();
        let mut r: Vec<TypeInfo> = Vec::new();
        let mut i: usize = 0;
        while i < n
            invariant
                self.wf(),
                n == self.slots().len(),
                i <= n,
                r@.len() == i as int,
                forall|j: int| 0 <= j < i ==> r@[j] == (#[trigger] self.slots()[j]).ty,
            decreases n - i,
        {
            let (ty, _bytes) = self.builder.slot_entry(i);
            r.push(ty);
            i += 1;
        }
        r
    }

    /// Hand every component out, in sorted order: ownership of the values
    /// moves to the caller, so no destructor runs; the directory is drained
    /// and the emptied builder is returned for reuse, arena retained.
    pub fn put(self) -> (r: (Vec<(TypeInfo, Vec<u8>)>, EntityBuilder<()>))
        requires
            self.wf(),
        ensures
            r.0@.len() == self.slots().len(),
            forall|i: int|
                0 <= i < r.0@.len() ==> (#[trigger] r.0@[i]).0 == self.slots()[i].ty && r.0@[i].1@
                    == self.slots()[i].bytes,
            r.1.wf(),
            r.1.slots().len() == 0,
            r.1.cursor_val() == 0,
            r.1.capacity() == self.capacity(),
    {
        let n = self.builder.len();
        let mut out: Vec<(TypeInfo, Vec<u8>)> = Vec::new();
        let mut i: usize = 0;
        while i < n
            invariant
                self.wf(),
                n == self.slots().len(),
                i <= n,
                out@.len() == i as int,
                forall|j: int|
                    0 <= j < i ==> (#[trigger] out@[j]).0 == self.slots()[j].ty && out@[j].1@
                        == self.slots()[j].bytes,
            decreases n - i,
        {
            let entry = self.builder.slot_entry(i);
            out.push(entry);
            i += 1;
        }
        let mut b = self.builder;
        let _ = b.clear();
        (out, b)
    }

    /// Give the bundle up without taking its values: every buffered value is
    /// destructed, exactly once each — the count is returned together with
    /// the emptied builder — so nothing leaks when a bundle goes unconsumed.
    pub fn discard(self) -> (r: (EntityBuilder<()>, usize))
        requires
            self.wf(),
        ensures
            r.1 == self.slots().len(),
            r.0.wf(),
            r.0.slots().len() == 0,
            r.0.cursor_val() == 0,
            r.0.capacity() == self.capacity(),
    {
        let mut b = self.builder;
        let n = b.clear();
        (b, n)
    }
}

impl EntityBuilder<()> {
    /// Freeze the builder into a bundle suitable for a receiving store: the
    /// directory is sorted by type identifier and the sorted identifiers are
    /// snapshotted for signature queries. Every buffered component is kept.
    pub fn build(self) -> (r: BuiltEntity)
        requires
            self.wf(),
        ensures
            r.wf(),
            r.slots().len() == self.slots().len(),
            sorted_by_id(r.slots()),
            r.ids() == ids_of(r.slots()),
            r.capacity() == self.capacity(),
            forall|a: int|
                0 <= a < r.slots().len() ==> self.slots().contains(#[trigger] r.slots()[a]),
            forall|b: int|
                0 <= b < self.slots().len() ==> r.slots().contains(#[trigger] self.slots()[b]),
            forall|id: u64| has_id(r.slots(), id) <==> has_id(self.slots(), id),
    {
        let mut b = self;
        b.freeze();
        let ids = b.component_types();
        BuiltEntity { builder: b, ids }
    }
}

impl ReusableBuiltEntity {
    /// The sorted slot directory.
    pub closed spec fn slots(&self) -> Seq<SlotModel<Cloneable>> {
        self.builder.slots()
    }

    /// The snapshot of the sorted type identifiers (empty on a duplicate
    /// that has not been rebuilt).
    pub closed spec fn ids(&self) -> Seq<u64> {
        self.ids@
    }

    pub closed spec fn wf(&self) -> bool {
        &&& self.builder.wf()
        &&& sorted_by_id(self.slots())
        &&& (self.ids() == ids_of(self.slots()) || self.ids() == Seq::<u64>::empty())
    }

    /// The sorted type-identifier sequence, for signature queries.
    pub fn with_ids(&self) -> (r: Vec<u64>)
        ensures
            r@ == self.ids(),
    {
        let mut r: Vec<u64> = Vec::new();
        let mut i: usize = 0;
        while i < self.ids.len()
            invariant
                i <= self.ids@.len(),
                r@.len() == i as int,
                forall|j: int| 0 <= j < i ==> r@[j] == self.ids@[j],
            decreases self.ids@.len() - i,
        {
            let id = self.ids[i];
            r.push(id);
            i += 1;
        }
        proof {
            assert(r@ =~= self.ids@);
        }
        r
    }

    /// Every type descriptor, in sorted order.
    pub fn type_info(&self) -> (r: Vec<TypeInfo>)
        requires
            self.wf(),
        ensures
            r@.len() == self.slots().len(),
            forall|i: int| 0 <= i < r@.len() ==> r@[i] == (#[trigger] self.slots()[i]).ty,
    {
        let n = self.builder.len();
        let mut r: Vec<TypeInfo> = Vec::new();
        let mut i: usize = 0;
        while i < n
            invariant
                self.wf(),
                n == self.slots().len(),
                i <= n,
                r@.len() == i as int,
                forall|j: int| 0 <= j < i ==> r@[j] == (#[trigger] self.slots()[j]).ty,
            decreases n - i,
        {
            let (ty, _bytes) = self.builder.slot_entry(i);
            r.push(ty);
            i += 1;
        }
        r
    }

    /// Duplicate every component, in sorted order: each slot's value is
    /// duplicated from its source bytes and handed out with its descriptor;
    /// the originals are left untouched, so the bundle can be consumed an
    /// unbounded number of times, always with the same contents.
    pub fn put(&self) -> (r: Vec<(TypeInfo, Vec<u8>)>)
        requires
            self.wf(),
        ensures
            r@.len() == self.slots().len(),
            forall|i: int|
                0 <= i < r@.len() ==> (#[trigger] r@[i]).0 == self.slots()[i].ty && r@[i].1@
                    == self.slots()[i].bytes,
    {
        let n = self.builder.len();
        let mut out: Vec<(TypeInfo, Vec<u8>)> = Vec::new();
        let mut i: usize = 0;
        while i < n
            invariant
                self.wf(),
                n == self.slots().len(),
                i <= n,
                out@.len() == i as int,
                forall|j: int|
                    0 <= j < i ==> (#[trigger] out@[j]).0 == self.slots()[j].ty && out@[j].1@
                        == self.slots()[j].bytes,
            decreases n - i,
        {
            let entry = self.builder.slot_entry(i);
            out.push(entry);
            i += 1;
        }
        out
    }

    /// Convert back into a builder; the identifier snapshot is discarded and
    /// recomputed by the next `build`.
    pub fn into_builder(self) -> (b: EntityBuilder<Cloneable>)
        requires
            self.wf(),
        ensures
            b.wf(),
            b.slots() == self.slots(),
    {
        self.builder
    }
}

impl EntityBuilder<Cloneable> {
    /// Freeze the builder into a reusable bundle: the directory is sorted by
    /// type identifier and the sorted identifiers are snapshotted. Every
    /// buffered component is kept.
    pub fn build(self) -> (r: ReusableBuiltEntity)
        requires
            self.wf(),
        ensures
            r.wf(),
            r.slots().len() == self.slots().len(),
            sorted_by_id(r.slots()),
            r.ids() == ids_of(r.slots()),
            forall|a: int|
                0 <= a < r.slots().len() ==> self.slots().contains(#[trigger] r.slots()[a]),
            forall|b: int|
                0 <= b < self.slots().len() ==> r.slots().contains(#[trigger] self.slots()[b]),
            forall|id: u64| has_id(r.slots(), id) <==> has_id(self.slots(), id),
    {
        let mut b = self;
        b.freeze();
        let ids = b.component_types();
        ReusableBuiltEntity { builder: b, ids }
    }
}

impl Clone for ReusableBuiltEntity {
    /// Deep duplication through each slot's duplication capability: the copy
    /// owns an independent arena with independent duplicates of every value.
    /// As when duplicating a cloneable builder, the copy starts with an
    /// empty identifier snapshot; converting it back to a builder and
    /// building again recomputes one.
    fn clone(&self) -> (r: Self)
        ensures
            r.slots() == self.slots(),
            r.ids() == Seq::<u64>::empty(),
            self.wf() ==> r.wf(),
    {
        let r = ReusableBuiltEntity { builder: self.builder.clone(), ids: Vec::new() };
        proof {
            assert(r.ids@ =~= Seq::<u64>::empty());
        }
        r
    }
}

/// Two strictly increasing sequences with the same members are equal.
proof fn lemma_strictly_sorted_same_members(s: Seq<u64>, t: Seq<u64>)
    requires
        forall|i: int, j: int| 0 <= i < j < s.len() ==> s[i] < s[j],
        forall|i: int, j: int| 0 <= i < j < t.len() ==> t[i] < t[j],
        forall|x: u64| s.contains(x) <==> t.contains(x),
    ensures
        s == t,
    decreases s.len(),
{
    if s.len() == 0 {
        if t.len() > 0 {
            assert(t.contains(t[0]));
            assert(s.contains(t[0]));
        }
        assert(s =~= t);
    } else {
        assert(s.contains(s[0]));
        assert(t.contains(s[0]));
        let it = choose|i: int| 0 <= i < t.len() && t[i] == s[0];
        assert(t.contains(t[0]));
        assert(s.contains(t[0]));
        let is0 = choose|i: int| 0 <= i < s.len() && s[i] == t[0];
        if is0 > 0 {
            assert(s[0] < s[is0]);
        }
        if it > 0 {
            assert(t[0] < t[it]);
        }
        assert(s[0] == t[0]);
        let s1 = s.drop_first();
        let t1 = t.drop_first();
        assert forall|x: u64| s1.contains(x) implies t1.contains(x) by {
            let i = choose|i: int| 0 <= i < s1.len() && s1[i] == x;
            assert(s[i + 1] == x);
            assert(s[0] < x);
            assert(s.contains(x));
            assert(t.contains(x));
            let j = choose|j: int| 0 <= j < t.len() && t[j] == x;
            assert(j > 0);
            assert(t1[j - 1] == x);
        }
        assert forall|x: u64| t1.contains(x) implies s1.contains(x) by {
            let i = choose|i: int| 0 <= i < t1.len() && t1[i] == x;
            assert(t[i + 1] == x);
            assert(t[0] < x);
            assert(t.contains(x));
            assert(s.contains(x));
            let j = choose|j: int| 0 <= j < s.len() && s[j] == x;
            assert(j > 0);
            assert(s1[j - 1] == x);
        }
        assert forall|i: int, j: int| 0 <= i < j < s1.len() implies s1[i] < s1[j] by {
            assert(s[i + 1] < s[j + 1]);
        }
        assert forall|i: int, j: int| 0 <= i < j < t1.len() implies t1[i] < t1[j] by {
            assert(t[i + 1] < t[j + 1]);
        }
        lemma_strictly_sorted_same_members(s1, t1);
        assert forall|i: int| 0 <= i < s.len() implies s[i] == t[i] by {
            if i > 0 {
                assert(s1[i - 1] == t1[i - 1]);
            }
        }
        assert(s =~= t);
    }
}

/// The identifier sequence of a directory contains an identifier exactly
/// when some slot carries it.
proof fn lemma_ids_membership<M>(s: Seq<SlotModel<M>>)
    ensures
        forall|id: u64| #[trigger] ids_of(s).contains(id) <==> has_id(s, id),
{
    assert forall|id: u64| #[trigger] ids_of(s).contains(id) <==> has_id(s, id) by {
        if ids_of(s).contains(id) {
            let i = choose|i: int| 0 <= i < ids_of(s).len() && ids_of(s)[i] == id;
            assert(s[i].ty.id == id);
        }
        if has_id(s, id) {
            let i = choose|i: int| 0 <= i < s.len() && (#[trigger] s[i]).ty.id == id;
            assert(ids_of(s)[i] == id);
        }
    }
}

/// Signature order-independence: two bundles holding the same set of type
/// identifiers — however their components were inserted — carry identical
/// sorted identifier snapshots.
pub proof fn lemma_signature_order_independence(a: &BuiltEntity, b: &BuiltEntity)
    requires
        a.wf(),
        b.wf(),
        forall|id: u64| has_id(a.slots(), id) <==> has_id(b.slots(), id),
    ensures
        a.ids() == b.ids(),
{
    a.lemma_built_shape();
    b.lemma_built_shape();
    let sa = ids_of(a.slots());
    let sb = ids_of(b.slots());
    lemma_ids_membership(a.slots());
    lemma_ids_membership(b.slots());
    assert forall|i: int, j: int| 0 <= i < j < sa.len() implies sa[i] < sa[j] by {
        assert(a.slots()[i].ty.id <= a.slots()[j].ty.id);
        assert(a.slots()[i].ty.id != a.slots()[j].ty.id);
    }
    assert forall|i: int, j: int| 0 <= i < j < sb.len() implies sb[i] < sb[j] by {
        assert(b.slots()[i].ty.id <= b.slots()[j].ty.id);
        assert(b.slots()[i].ty.id != b.slots()[j].ty.id);
    }
    lemma_strictly_sorted_same_members(sa, sb);
}

} // verus!
