use ssd_rs::mapping::{MappingTable, PhysicalAddress};

#[test]
fn new_table_is_unmapped() {
    let t = MappingTable::new(8);
    assert_eq!(t.entries().len(), 8);
    for lba in 0..8 {
        assert!(t.get(lba).is_none());
    }
}

#[test]
fn update_returns_superseded_address() {
    let mut t = MappingTable::new(4);
    let a = PhysicalAddress { block_id: 0, page_offset: 3 };
    let b = PhysicalAddress { block_id: 1, page_offset: 5 };
    assert_eq!(t.update(2, a), None);
    assert_eq!(t.get(2), Some(a));
    // Overwriting hands the old occupant back for invalidation.
    assert_eq!(t.update(2, b), Some(a));
    assert_eq!(t.get(2), Some(b));
    assert!(t.get(0).is_none());
}

#[test]
fn unmap_clears_and_returns_old() {
    let mut t = MappingTable::new(4);
    let a = PhysicalAddress { block_id: 2, page_offset: 0 };
    t.update(1, a);
    assert_eq!(t.unmap(1), Some(a));
    assert!(t.get(1).is_none());
    assert_eq!(t.unmap(1), None);
}

#[test]
fn entries_exposes_all_slots() {
    let mut t = MappingTable::new(3);
    let a = PhysicalAddress { block_id: 0, page_offset: 0 };
    t.update(2, a);
    let e = t.entries();
    assert_eq!(e.len(), 3);
    assert!(e[0].is_none());
    assert!(e[1].is_none());
    assert_eq!(e[2], Some(a));
}
