use entity_builder::{EntityBuilder, TypeInfo};

fn ty(id: u64, size: usize, align: usize) -> TypeInfo {
    TypeInfo { id, size, align }
}

#[test]
fn empty_builder_has_nothing() {
    let b: EntityBuilder<()> = EntityBuilder::new();
    assert!(!b.has(1));
    assert_eq!(b.get(1), None);
    assert_eq!(b.component_types(), Vec::<u64>::new());
    assert_eq!(b.len(), 0);
    assert_eq!(b.capacity_bytes(), 0);
}

#[test]
fn insert_then_query() {
    let mut b: EntityBuilder<()> = EntityBuilder::new();
    let replaced = b.add(ty(7, 4, 4), vec![1, 2, 3, 4]);
    assert!(!replaced);
    assert!(b.has(7));
    assert!(!b.has(8));
    assert_eq!(b.get(7), Some(vec![1, 2, 3, 4]));
    assert_eq!(b.get(8), None);
    assert_eq!(b.component_types(), vec![7]);
    assert_eq!(b.len(), 1);
}

#[test]
fn overwrite_replaces_not_appends() {
    let mut b: EntityBuilder<()> = EntityBuilder::new();
    assert!(!b.add(ty(7, 4, 4), vec![1, 2, 3, 4]));
    // Second insert of the same type: exactly one slot remains, holding the
    // second value, and exactly one destruction of the first value is
    // reported by the overwrite.
    assert!(b.add(ty(7, 4, 4), vec![9, 9, 9, 9]));
    assert_eq!(b.len(), 1);
    assert_eq!(b.get(7), Some(vec![9, 9, 9, 9]));
    assert_eq!(b.component_types(), vec![7]);
    // Clearing afterwards destructs the single remaining value.
    assert_eq!(b.clear(), 1);
}

#[test]
fn clear_empties_and_counts_every_destruction() {
    let mut b: EntityBuilder<()> = EntityBuilder::new();
    b.add(ty(1, 4, 4), vec![1, 1, 1, 1]);
    b.add(ty(2, 3, 1), vec![2, 2, 2]);
    b.add(ty(3, 8, 8), vec![3; 8]);
    b.add(ty(2, 3, 1), vec![4, 4, 4]); // overwrite: destructs the old value
    assert_eq!(b.len(), 3);
    let cap_before = b.capacity_bytes();
    // Three values are live; clear destructs each exactly once.
    assert_eq!(b.clear(), 3);
    assert_eq!(b.len(), 0);
    assert!(!b.has(1) && !b.has(2) && !b.has(3));
    assert_eq!(b.component_types(), Vec::<u64>::new());
    // Capacity is retained for reuse.
    assert_eq!(b.capacity_bytes(), cap_before);
    // Clearing is idempotent: nothing is destructed twice.
    assert_eq!(b.clear(), 0);
    assert_eq!(b.len(), 0);
}

#[test]
fn drop_without_build_destructs_everything_once() {
    // The clearing fallback destructs all N buffered values exactly once.
    let mut b: EntityBuilder<()> = EntityBuilder::new();
    let n = 5;
    for i in 0..n {
        b.add(ty(100 + i as u64, 4, 4), vec![i as u8; 4]);
    }
    assert_eq!(b.clear(), n);
    assert_eq!(b.clear(), 0);
}

#[test]
fn growth_follows_power_of_two_with_floor_64() {
    let mut b: EntityBuilder<()> = EntityBuilder::new();
    assert_eq!(b.capacity_bytes(), 0);
    b.add(ty(1, 1, 1), vec![5]);
    // First growth: smallest power of two at or above 1, floored at 64.
    assert_eq!(b.capacity_bytes(), 64);
    b.add(ty(2, 100, 4), vec![6; 100]);
    // Region ends at offset 104; the next power of two is 128.
    assert_eq!(b.capacity_bytes(), 128);
    // An overwrite does not grow.
    b.add(ty(2, 100, 4), vec![7; 100]);
    assert_eq!(b.capacity_bytes(), 128);
    assert_eq!(b.clear(), 2);
    assert_eq!(b.capacity_bytes(), 128);
    // A greater alignment demand reprovisions the arena, re-sized to the
    // request: 8 bytes fit in the 64-byte floor.
    b.add(ty(3, 8, 64), vec![8; 8]);
    assert_eq!(b.capacity_bytes(), 64);
    assert_eq!(b.get(3), Some(vec![8; 8]));
}

#[test]
fn values_survive_growth_intact() {
    let mut b: EntityBuilder<()> = EntityBuilder::new();
    let mut expected: Vec<(u64, Vec<u8>)> = Vec::new();
    for i in 0..20u64 {
        let size = 1 + (i as usize * 7) % 23;
        let align = 1usize << (i % 4);
        let bytes: Vec<u8> = (0..size).map(|k| (i as u8).wrapping_mul(31).wrapping_add(k as u8)).collect();
        b.add(ty(i, size, align), bytes.clone());
        expected.push((i, bytes));
    }
    // Growth relocated the arena several times; every value must read back
    // byte for byte.
    for (id, bytes) in &expected {
        assert_eq!(b.get(*id), Some(bytes.clone()), "value of type {id} corrupted");
    }
}

#[test]
fn add_bundle_inserts_in_order_with_overwrites() {
    let mut b: EntityBuilder<()> = EntityBuilder::new();
    b.add_bundle(vec![
        (ty(1, 2, 2), vec![1, 1]),
        (ty(2, 1, 1), vec![2]),
        (ty(1, 2, 2), vec![3, 3]),
    ]);
    assert_eq!(b.len(), 2);
    assert_eq!(b.get(1), Some(vec![3, 3]));
    assert_eq!(b.get(2), Some(vec![2]));
    assert_eq!(b.component_types(), vec![1, 2]);
}

#[test]
fn zero_sized_component() {
    let mut b: EntityBuilder<()> = EntityBuilder::new();
    b.add(ty(9, 0, 1), vec![]);
    assert!(b.has(9));
    assert_eq!(b.get(9), Some(vec![]));
    assert_eq!(b.clear(), 1);
}

#[test]
fn component_types_in_insertion_order() {
    let mut b: EntityBuilder<()> = EntityBuilder::new();
    b.add(ty(30, 1, 1), vec![1]);
    b.add(ty(10, 1, 1), vec![2]);
    b.add(ty(20, 1, 1), vec![3]);
    assert_eq!(b.component_types(), vec![30, 10, 20]);
}

#[test]
fn every_value_destructed_exactly_once() {
    // Count destructor runs across a whole session: each overwrite reports
    // one, and clear reports one per remaining slot. Six values were
    // created, so six destructions must be accounted for in total.
    let mut b: EntityBuilder<()> = EntityBuilder::new();
    let mut destructions = 0usize;
    for (id, val) in [(1u64, 10u8), (2, 20), (1, 11), (3, 30), (2, 21), (4, 40)] {
        if b.add(ty(id, 1, 1), vec![val]) {
            destructions += 1;
        }
    }
    assert_eq!(destructions, 2);
    destructions += b.clear();
    assert_eq!(destructions, 6);
}
