use smol_db::error::DbError;
use smol_db::storage::leaf::link_split;
use smol_db::storage::page::{
    BTreeNode, IndexEntry, InternalNode, LeafNode, PageId, Record, MAX_VALUE_SIZE,
};

fn empty_leaf(page_id: u64) -> LeafNode {
    match BTreeNode::new_empty(PageId(page_id), true) {
        BTreeNode::Leaf(l) => l,
        _ => panic!("expected a leaf"),
    }
}

fn keys_in_slot_order(leaf: &LeafNode) -> Vec<u32> {
    leaf.slot_array
        .iter()
        .map(|s| leaf.records[*s as usize].key)
        .collect()
}

#[test]
fn insert_keeps_slots_in_key_order() {
    let mut leaf = empty_leaf(4096);
    leaf.insert_record(30, vec![3]).unwrap();
    leaf.insert_record(10, vec![1]).unwrap();
    leaf.insert_record(20, vec![2]).unwrap();
    assert_eq!(keys_in_slot_order(&leaf), vec![10, 20, 30]);
    // records are appended, the slot array orders them
    assert_eq!(leaf.records[0].key, 30);
    assert_eq!(leaf.slot_array, vec![1, 2, 0]);
    // header 41 bytes, three slots, three cells of 9 + 1 bytes
    assert_eq!(leaf.free_size as usize, 4096 - (41 + 3 * 2 + 3 * 10));
    assert!(leaf.is_well_formed());
    assert_eq!(leaf.get_record(20), Some(vec![2]));
    assert_eq!(leaf.get_record(25), None);
}

#[test]
fn insert_rejects_duplicate_key() {
    let mut leaf = empty_leaf(4096);
    leaf.insert_record(100, vec![1, 2, 3]).unwrap();
    assert!(matches!(
        leaf.insert_record(100, vec![10, 11, 13]),
        Err(DbError::DuplicateKey(100))
    ));
    assert_eq!(leaf.records.len(), 1);
    assert_eq!(leaf.get_record(100), Some(vec![1, 2, 3]));
}

#[test]
fn insert_rejects_too_large_value() {
    let mut leaf = empty_leaf(4096);
    assert!(matches!(
        leaf.insert_record(1, vec![0u8; MAX_VALUE_SIZE + 1]),
        Err(DbError::TupleTooLarge(401))
    ));
    assert!(leaf.records.is_empty());
    leaf.insert_record(1, vec![0u8; MAX_VALUE_SIZE]).unwrap();
}

#[test]
fn insert_reports_full_leaf() {
    let mut leaf = empty_leaf(4096);
    for key in 1..=9u32 {
        leaf.insert_record(key, vec![0u8; 400]).unwrap();
    }
    assert!(matches!(
        leaf.insert_record(10, vec![0u8; 400]),
        Err(DbError::PageFull)
    ));
    assert_eq!(leaf.records.len(), 9);
}

#[test]
fn get_record_skips_deleted() {
    let mut leaf = empty_leaf(4096);
    leaf.records.push(Record {
        key: 5,
        data: vec![7],
        is_deleted: true,
    });
    leaf.slot_array.push(0);
    assert_eq!(leaf.get_record(5), None);
    // a deleted record still holds its key
    assert!(matches!(
        leaf.insert_record(5, vec![8]),
        Err(DbError::DuplicateKey(5))
    ));
}

#[test]
fn split_moves_upper_half_right() {
    let mut left = empty_leaf(4096);
    for key in 1..=9u32 {
        left.insert_record(key, vec![0u8; 400]).unwrap();
    }
    let mut right = empty_leaf(8192);
    let promoted = left.split(&mut right);
    assert_eq!(promoted, 5);
    assert_eq!(keys_in_slot_order(&left), vec![1, 2, 3, 4]);
    assert_eq!(keys_in_slot_order(&right), vec![5, 6, 7, 8, 9]);
    assert_eq!(left.free_size as usize, 4096 - (41 + 4 * 2 + 4 * 409));
    assert!(left.free_size > 1500);
    assert_eq!(right.free_size as usize, 4096 - (41 + 5 * 2 + 5 * 409));
    assert!(left.is_well_formed());
    assert!(right.is_well_formed());
}

#[test]
fn link_split_wires_four_pointers() {
    let mut left = empty_leaf(4096);
    left.has_next = true;
    left.next_page_id = 12288;
    let mut right = empty_leaf(8192);
    let old_next = link_split(&mut left, &mut right, PageId(4096), PageId(8192));
    assert_eq!(old_next, Some(PageId(12288)));
    assert!(left.has_next);
    assert_eq!(left.next_page_id, 8192);
    assert!(right.has_prev);
    assert_eq!(right.prev_page_id, 4096);
    assert!(right.has_next);
    assert_eq!(right.next_page_id, 12288);

    let mut last = empty_leaf(16384);
    let mut newer = empty_leaf(20480);
    assert_eq!(
        link_split(&mut last, &mut newer, PageId(16384), PageId(20480)),
        None
    );
    assert!(!newer.has_next);
}

#[test]
fn route_key_picks_first_larger_key() {
    let node = InternalNode {
        page_id: 4096,
        last_lsn: 0,
        rightmost_child: 99,
        slot_array: vec![1, 0],
        entries: vec![
            IndexEntry {
                key: 20,
                child_page_id: 2,
            },
            IndexEntry {
                key: 10,
                child_page_id: 1,
            },
        ],
        free_size: 0,
        is_dirty: false,
    };
    assert_eq!(node.route_key(5), PageId(1));
    assert_eq!(node.route_key(10), PageId(2));
    assert_eq!(node.route_key(19), PageId(2));
    assert_eq!(node.route_key(20), PageId(99));
}

#[test]
fn malformed_leaf_is_detected() {
    let mut leaf = empty_leaf(4096);
    leaf.insert_record(1, vec![1]).unwrap();
    leaf.insert_record(2, vec![2]).unwrap();
    leaf.slot_array = vec![1, 0];
    assert!(!leaf.is_well_formed());
    leaf.slot_array = vec![0, 0];
    assert!(!leaf.is_well_formed());
}

#[test]
fn slots_in_range_check() {
    let mut leaf = empty_leaf(4096);
    leaf.insert_record(1, vec![1]).unwrap();
    assert!(BTreeNode::Leaf(leaf.clone()).has_slots_in_range());
    leaf.slot_array = vec![1];
    assert!(!BTreeNode::Leaf(leaf).has_slots_in_range());
}
