use entity_builder::{Cloneable, EntityBuilder, TypeInfo};

fn ty(id: u64, size: usize, align: usize) -> TypeInfo {
    TypeInfo { id, size, align }
}

#[test]
fn end_to_end_build_transfer_and_reuse() {
    // A mock receiving store: the pairs handed out by `put`.
    let mut b: EntityBuilder<()> = EntityBuilder::new();
    let ty_a = ty(1, 4, 4);
    let ty_b = ty(2, 3, 1);
    b.add(ty_a, 123i32.to_le_bytes().to_vec());
    b.add(ty_b, b"abc".to_vec());
    let built = b.build();
    assert_eq!(built.with_ids(), vec![1, 2]);
    let (store, mut b) = built.put();
    assert_eq!(store.len(), 2);
    assert_eq!(store[0].0, ty_a);
    assert_eq!(i32::from_le_bytes(store[0].1.clone().try_into().unwrap()), 123);
    assert_eq!(store[1].0, ty_b);
    assert_eq!(store[1].1, b"abc".to_vec());
    // The builder came back empty and ready for reuse.
    assert_eq!(b.len(), 0);
    assert!(!b.has(1) && !b.has(2));
    // A fresh cycle works identically.
    b.add(ty_a, 123i32.to_le_bytes().to_vec());
    b.add(ty_b, b"abc".to_vec());
    let built = b.build();
    assert_eq!(built.with_ids(), vec![1, 2]);
    let (store2, b) = built.put();
    assert_eq!(store2, store);
    assert_eq!(b.len(), 0);
}

#[test]
fn signature_is_order_independent() {
    let mut b1: EntityBuilder<()> = EntityBuilder::new();
    b1.add(ty(5, 1, 1), vec![1]);
    b1.add(ty(3, 2, 2), vec![2, 2]);
    b1.add(ty(9, 4, 4), vec![3; 4]);

    let mut b2: EntityBuilder<()> = EntityBuilder::new();
    b2.add(ty(9, 4, 4), vec![9; 4]);
    b2.add(ty(5, 1, 1), vec![8]);
    b2.add(ty(3, 2, 2), vec![7, 7]);

    let built1 = b1.build();
    let built2 = b2.build();
    assert_eq!(built1.with_ids(), built2.with_ids());
    assert_eq!(built1.with_ids(), vec![3, 5, 9]);
    let infos1: Vec<u64> = built1.type_info().iter().map(|t| t.id).collect();
    assert_eq!(infos1, vec![3, 5, 9]);
}

#[test]
fn discard_destructs_all_values() {
    let mut b: EntityBuilder<()> = EntityBuilder::new();
    for i in 0..4u64 {
        b.add(ty(i, 2, 2), vec![i as u8; 2]);
    }
    let built = b.build();
    // The bundle was never consumed: giving it up destructs all four values.
    let (b, dropped) = built.discard();
    assert_eq!(dropped, 4);
    assert_eq!(b.len(), 0);
}

#[test]
fn empty_build_cycle() {
    let b: EntityBuilder<()> = EntityBuilder::new();
    let built = b.build();
    assert_eq!(built.with_ids(), Vec::<u64>::new());
    assert_eq!(built.type_info().len(), 0);
    let (store, b) = built.put();
    assert!(store.is_empty());
    assert_eq!(b.len(), 0);
}

#[test]
fn reusable_bundle_is_consumable_repeatedly() {
    let mut b: EntityBuilder<Cloneable> = EntityBuilder::new_cloneable();
    b.add(ty(2, 3, 1), b"xyz".to_vec());
    b.add(ty(1, 4, 4), 7i32.to_le_bytes().to_vec());
    let bundle = b.build();
    assert_eq!(bundle.with_ids(), vec![1, 2]);

    let first = bundle.put();
    let mut second = bundle.put();
    assert_eq!(first, second);
    // The two consumptions produced independent values: mutating one copy
    // must not affect the other.
    second[0].1[0] = 0xFF;
    second[1].1[2] = 0xFF;
    assert_ne!(first, second);
    // And the bundle itself still holds the unchanged originals.
    let third = bundle.put();
    assert_eq!(first, third);
    assert_eq!(i32::from_le_bytes(third[0].1.clone().try_into().unwrap()), 7);
    assert_eq!(third[1].1, b"xyz".to_vec());
}

#[test]
fn reusable_bundle_duplicates_deeply() {
    let mut b: EntityBuilder<Cloneable> = EntityBuilder::new_cloneable();
    b.add(ty(4, 2, 2), vec![5, 6]);
    let bundle = b.build();
    let copy = bundle.clone();
    // The copy holds independent duplicates of the same values; its
    // identifier snapshot starts empty and is recomputed by building again.
    assert_eq!(copy.put(), bundle.put());
    assert_eq!(copy.with_ids(), Vec::<u64>::new());
    let rebuilt = copy.into_builder().build();
    assert_eq!(rebuilt.with_ids(), vec![4]);
    assert_eq!(rebuilt.put(), bundle.put());
}

#[test]
fn cloneable_builder_clone_is_independent() {
    let mut b: EntityBuilder<Cloneable> = EntityBuilder::new_cloneable();
    b.add(ty(1, 2, 1), vec![1, 2]);
    let mut c = b.clone();
    c.add(ty(1, 2, 1), vec![9, 9]);
    c.add(ty(2, 1, 1), vec![3]);
    // Mutating the duplicate leaves the original untouched.
    assert_eq!(b.get(1), Some(vec![1, 2]));
    assert!(!b.has(2));
    assert_eq!(c.get(1), Some(vec![9, 9]));
    assert_eq!(c.len(), 2);
}

#[test]
fn rebuilding_after_reuse_keeps_overwrite_semantics() {
    let mut b: EntityBuilder<Cloneable> = EntityBuilder::new_cloneable();
    b.add(ty(8, 1, 1), vec![1]);
    b.add(ty(3, 1, 1), vec![2]);
    let bundle = b.build();
    let mut b = bundle.into_builder();
    // The directory was sorted by the build; overwriting through the index
    // still finds the right slot.
    assert!(b.add(ty(8, 1, 1), vec![7]));
    assert_eq!(b.get(8), Some(vec![7]));
    assert_eq!(b.get(3), Some(vec![2]));
    assert_eq!(b.len(), 2);
}
