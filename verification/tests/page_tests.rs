use smol_db::error::DbError;
use smol_db::storage::cursor::ByteCursor;
use smol_db::storage::page::{
    BTreeNode, FileHeader, IndexEntry, InternalNode, LeafNode, Page, PageId, Record,
    INTERNAL_NODE_HEADER_SIZE, LEAF_NODE_HEADER_SIZE, MAX_VALUE_SIZE, PAGE_SIZE,
};

/// A record with the given key, value bytes and tombstone flag.
fn make_record(key: u32, data: &[u8], is_deleted: bool) -> Record {
    Record {
        key,
        data: data.to_vec(),
        is_deleted,
    }
}

fn empty_leaf(page_id: u64) -> LeafNode {
    LeafNode {
        page_id,
        last_lsn: 0,
        has_prev: false,
        has_next: false,
        prev_page_id: 0,
        next_page_id: 0,
        slot_array: vec![],
        records: vec![],
        free_size: 0,
        is_dirty: false,
    }
}

#[test]
fn test_byte_cursor_primitives() {
    let mut write_cursor = ByteCursor::new(vec![0u8; 64]);

    write_cursor.write_u8(42);
    write_cursor.write_u16(u16::MAX);
    write_cursor.write_u32(123456789);
    write_cursor.write_u64(u64::MAX);
    write_cursor.write_bytes(b"smol-db");

    let buffer = write_cursor.into_buffer();
    let mut read_cursor = ByteCursor::new(buffer);
    assert_eq!(read_cursor.read_u8(), 42);
    assert_eq!(read_cursor.read_u16(), u16::MAX);
    assert_eq!(read_cursor.read_u32(), 123456789);
    assert_eq!(read_cursor.read_u64(), u64::MAX);
    assert_eq!(read_cursor.read_bytes(7), b"smol-db");
}

#[test]
fn test_empty_leaf_node_round_trip() {
    let leaf = LeafNode {
        page_id: 1,
        last_lsn: 100,
        has_prev: false,
        has_next: false,
        prev_page_id: 0,
        next_page_id: 0,
        slot_array: vec![],
        records: vec![],
        free_size: 0,
        is_dirty: false,
    };

    let mut page = Page::new();
    BTreeNode::Leaf(leaf.clone()).encode(&mut page).unwrap();

    let decoded = BTreeNode::decode(&page).unwrap();
    if let BTreeNode::Leaf(dec_leaf) = decoded {
        assert_eq!(dec_leaf.page_id, leaf.page_id);
        assert_eq!(dec_leaf.last_lsn, leaf.last_lsn);
        assert!(!dec_leaf.has_prev);
        assert!(!dec_leaf.has_next);
        assert!(dec_leaf.slot_array.is_empty());
        assert!(dec_leaf.records.is_empty());
        assert_eq!(
            dec_leaf.free_size as usize,
            PAGE_SIZE - LEAF_NODE_HEADER_SIZE
        );
    } else {
        panic!("Expected BTreeNode::Leaf, got Internal");
    }
}

#[test]
fn test_populated_leaf_node_round_trip() {
    let records = vec![
        make_record(10, b"alice", false),
        make_record(20, b"bob-was-deleted", true),
        make_record(30, b"charlie", false),
    ];

    let leaf = LeafNode {
        page_id: 42,
        last_lsn: 999,
        has_prev: true,
        has_next: true,
        prev_page_id: 41,
        next_page_id: 43,
        slot_array: vec![0, 1, 2],
        records: records.clone(),
        free_size: 0,
        is_dirty: false,
    };

    let mut page = Page::new();
    BTreeNode::Leaf(leaf).encode(&mut page).unwrap();

    let decoded = BTreeNode::decode(&page).unwrap();
    if let BTreeNode::Leaf(dec_leaf) = decoded {
        assert_eq!(dec_leaf.page_id, 42);
        assert_eq!(dec_leaf.prev_page_id, 41);
        assert_eq!(dec_leaf.next_page_id, 43);
        assert_eq!(dec_leaf.slot_array, vec![0, 1, 2]);
        assert_eq!(dec_leaf.records.len(), 3);

        assert_eq!(dec_leaf.records[0].key, 10);
        assert_eq!(dec_leaf.records[0].data, b"alice");
        assert!(!dec_leaf.records[0].is_deleted);

        assert_eq!(dec_leaf.records[1].key, 20);
        assert_eq!(dec_leaf.records[1].data, b"bob-was-deleted");
        assert!(dec_leaf.records[1].is_deleted);
    } else {
        panic!("Expected BTreeNode::Leaf");
    }
}

#[test]
fn test_leaf_node_overflow_returns_page_full() {
    let mut records = Vec::new();
    let mut slot_array = Vec::new();
    for i in 0..11 {
        records.push(make_record(i, &[0u8; MAX_VALUE_SIZE], false));
        slot_array.push(i as u16);
    }

    let leaf = LeafNode {
        page_id: 1,
        last_lsn: 0,
        has_prev: false,
        has_next: false,
        prev_page_id: 0,
        next_page_id: 0,
        slot_array,
        records,
        free_size: 0,
        is_dirty: false,
    };

    let mut page = Page::new();
    let result = BTreeNode::Leaf(leaf).encode(&mut page);

    assert!(matches!(result, Err(DbError::PageFull)));
}

#[test]
fn test_internal_node_round_trip() {
    let entries = vec![
        IndexEntry {
            key: 100,
            child_page_id: 2,
        },
        IndexEntry {
            key: 200,
            child_page_id: 3,
        },
        IndexEntry {
            key: 300,
            child_page_id: 4,
        },
    ];

    let internal = InternalNode {
        page_id: 1,
        last_lsn: 555,
        rightmost_child: 5,
        slot_array: vec![0, 1, 2],
        entries: entries.clone(),
        free_size: 0,
        is_dirty: false,
    };

    let mut page = Page::new();
    BTreeNode::Internal(internal).encode(&mut page).unwrap();

    let decoded = BTreeNode::decode(&page).unwrap();
    if let BTreeNode::Internal(dec_internal) = decoded {
        assert_eq!(dec_internal.page_id, 1);
        assert_eq!(dec_internal.last_lsn, 555);
        assert_eq!(dec_internal.rightmost_child, 5);
        assert_eq!(dec_internal.slot_array.len(), 3);
        assert_eq!(dec_internal.entries[1].key, 200);
        assert_eq!(dec_internal.entries[1].child_page_id, 3);
    } else {
        panic!("Expected BTreeNode::Internal");
    }
}

#[test]
fn test_decode_corrupt_node_type_fails() {
    let mut page = Page::new();
    page.as_bytes_mut()[0] = 99;

    let result = BTreeNode::decode(&page);
    assert!(matches!(result, Err(DbError::CorruptPage(_))));
}

#[test]
fn leaf_layout_is_byte_exact() {
    let leaf = LeafNode {
        page_id: 0x0102030405060708,
        last_lsn: 7,
        has_prev: true,
        has_next: false,
        prev_page_id: 9,
        next_page_id: 0,
        slot_array: vec![1, 0],
        records: vec![make_record(5, b"ab", false), make_record(3, b"xyz", true)],
        free_size: 0,
        is_dirty: true,
    };
    let mut page = Page::new();
    BTreeNode::Leaf(leaf).encode(&mut page).unwrap();
    let b = page.as_bytes();
    assert_eq!(b[0], 1);
    assert_eq!(&b[1..9], &[8, 7, 6, 5, 4, 3, 2, 1]);
    assert_eq!(b[9], 7);
    assert_eq!(b[17], 1);
    assert_eq!(b[18], 0);
    assert_eq!(b[19], 9);
    assert_eq!(&b[35..39], &[2, 0, 0, 0]);
    assert_eq!(&b[39..43], &[1, 0, 0, 0]);
    // header 41 + 2 * 2 slots, cells 9 + 3 and 9 + 2
    let free = PAGE_SIZE - 45 - 12 - 11;
    assert_eq!(u16::from_le_bytes([b[43], b[44]]) as usize, free);
    // cells in slot order: record 1 first, then record 0, ending the page
    let c = 45 + free;
    assert_eq!(&b[c..c + 4], &[3, 0, 0, 0]);
    assert_eq!(b[c + 4], 1);
    assert_eq!(&b[c + 5..c + 9], &[3, 0, 0, 0]);
    assert_eq!(&b[c + 9..c + 12], b"xyz");
    assert_eq!(&b[c + 12..c + 16], &[5, 0, 0, 0]);
    assert_eq!(b[c + 16], 0);
    assert_eq!(&b[c + 21..c + 23], b"ab");
    assert_eq!(c + 23, PAGE_SIZE);
}

#[test]
fn encode_keeps_the_free_gap_and_round_trips_a_permuted_leaf() {
    let mut page = Page::new();
    for i in 0..PAGE_SIZE {
        page.as_bytes_mut()[i] = 0xAB;
    }
    let leaf = LeafNode {
        page_id: 3,
        last_lsn: 4,
        has_prev: false,
        has_next: true,
        prev_page_id: 0,
        next_page_id: 8,
        slot_array: vec![2, 0, 1],
        records: vec![
            make_record(20, b"b", false),
            make_record(30, b"cc", false),
            make_record(10, b"", true),
        ],
        free_size: 0,
        is_dirty: true,
    };
    BTreeNode::Leaf(leaf).encode(&mut page).unwrap();
    // the free gap right after the header keeps its old bytes
    assert_eq!(page.as_bytes()[47], 0xAB);
    let decoded = BTreeNode::decode(&page).unwrap();
    match decoded {
        BTreeNode::Leaf(l) => {
            assert_eq!(l.slot_array, vec![2, 0, 1]);
            assert_eq!(l.records[0].key, 20);
            assert_eq!(l.records[1].data, b"cc");
            assert_eq!(l.records[2].key, 10);
            assert!(l.records[2].is_deleted);
            assert!(!l.is_dirty);
            assert!(l.has_next);
            assert_eq!(l.next_page_id, 8);
            assert_eq!(l.free_size as usize, PAGE_SIZE - 47 - 9 - 10 - 11);
        }
        _ => panic!("expected a leaf"),
    }
}

#[test]
fn empty_internal_node_free_size() {
    let node = InternalNode {
        page_id: 2,
        last_lsn: 0,
        rightmost_child: 9,
        slot_array: vec![],
        entries: vec![],
        free_size: 0,
        is_dirty: false,
    };
    let mut page = Page::new();
    BTreeNode::Internal(node).encode(&mut page).unwrap();
    match BTreeNode::decode(&page).unwrap() {
        BTreeNode::Internal(n) => {
            assert_eq!(n.free_size as usize, PAGE_SIZE - INTERNAL_NODE_HEADER_SIZE);
            assert_eq!(n.rightmost_child, 9);
        }
        _ => panic!("expected an internal node"),
    }
}

#[test]
fn internal_node_overflow_returns_page_full() {
    let n = (PAGE_SIZE - INTERNAL_NODE_HEADER_SIZE) / 14 + 1;
    let node = InternalNode {
        page_id: 2,
        last_lsn: 0,
        rightmost_child: 0,
        slot_array: (0..n as u16).collect(),
        entries: vec![IndexEntry { key: 1, child_page_id: 1 }; n],
        free_size: 0,
        is_dirty: false,
    };
    let mut page = Page::new();
    let result = BTreeNode::Internal(node).encode(&mut page);
    assert!(matches!(result, Err(DbError::PageFull)));
    assert!(page.as_bytes().iter().all(|&b| b == 0));
}

#[test]
fn decode_rejects_slot_naming_no_cell() {
    let leaf = LeafNode {
        slot_array: vec![0],
        records: vec![make_record(1, b"x", false)],
        ..empty_leaf(5)
    };
    let mut page = Page::new();
    BTreeNode::Leaf(leaf).encode(&mut page).unwrap();
    // the slot array starts at 39: make the only slot point past the cells
    page.as_bytes_mut()[39] = 1;
    assert!(matches!(BTreeNode::decode(&page), Err(DbError::CorruptPage(_))));
}

#[test]
fn decode_rejects_cell_past_the_page() {
    let leaf = LeafNode {
        slot_array: vec![0],
        records: vec![make_record(1, b"x", false)],
        ..empty_leaf(5)
    };
    let mut page = Page::new();
    BTreeNode::Leaf(leaf).encode(&mut page).unwrap();
    // the value size of the only cell sits 5 bytes after the cell start
    let size_at = PAGE_SIZE - 10 + 5;
    page.as_bytes_mut()[size_at] = 200;
    assert!(matches!(BTreeNode::decode(&page), Err(DbError::CorruptPage(_))));
}

#[test]
fn decode_rejects_oversized_slot_count() {
    let mut page = Page::new();
    page.as_bytes_mut()[0] = 0;
    page.as_bytes_mut()[25] = 0xFF;
    page.as_bytes_mut()[26] = 0xFF;
    assert!(matches!(BTreeNode::decode(&page), Err(DbError::CorruptPage(_))));
}

#[test]
fn dirty_flag_and_lsn() {
    let mut node = BTreeNode::new_empty(PageId(4096), true);
    assert!(!node.is_dirty());
    assert_eq!(node.get_last_lsn(), 0);
    node.mark_dirty(17);
    assert!(node.is_dirty());
    assert_eq!(node.get_last_lsn(), 17);
    node.clear_dirty();
    assert!(!node.is_dirty());
    assert_eq!(node.get_last_lsn(), 17);
    match BTreeNode::new_empty(PageId(8192), false) {
        BTreeNode::Internal(n) => assert_eq!(n.page_id, 8192),
        _ => panic!("expected an internal node"),
    }
}

#[test]
fn file_header_round_trip_and_allocation() {
    let mut h = FileHeader::default();
    assert_eq!(h.next_free_offset, PAGE_SIZE as u64);
    let a = h.allocate_page();
    let b = h.allocate_page();
    assert_eq!(a, PageId(4096));
    assert_eq!(b, PageId(8192));
    assert_eq!(h.next_free_offset, 12288);
    h.last_row_id = 42;
    h.page_root_offset = 8192;
    h.next_lsn = 1000;
    let bytes = h.to_bytes();
    assert_eq!(bytes.len(), 28);
    assert_eq!(&bytes[0..4], &[42, 0, 0, 0]);
    let back = FileHeader::from_bytes(&bytes);
    assert_eq!(back.last_row_id, 42);
    assert_eq!(back.page_root_offset, 8192);
    assert_eq!(back.next_lsn, 1000);
    assert_eq!(back.next_free_offset, 12288);
}

#[test]
fn cursor_skip_leaves_bytes() {
    let mut c = ByteCursor::new(vec![7u8; 8]);
    c.skip(3);
    assert_eq!(c.position(), 3);
    c.write_u16(0x0102);
    assert_eq!(c.position(), 5);
    assert_eq!(c.into_buffer(), vec![7, 7, 7, 2, 1, 7, 7, 7]);
}

#[test]
fn reencoding_a_decoded_page_reproduces_it() {
    let mut page = Page::new();
    for i in 0..PAGE_SIZE {
        page.as_bytes_mut()[i] = (i % 251) as u8;
    }
    let leaf = LeafNode {
        slot_array: vec![1, 0],
        records: vec![make_record(9, b"nine", false), make_record(4, b"four", true)],
        ..empty_leaf(12)
    };
    BTreeNode::Leaf(leaf).encode(&mut page).unwrap();
    let before = page.as_bytes().to_vec();
    let node = BTreeNode::decode(&page).unwrap();
    node.encode(&mut page).unwrap();
    assert_eq!(page.as_bytes().to_vec(), before);
}

#[test]
fn decode_ignores_stored_free_size_dirty_flag_and_old_bytes() {
    let leaf = |free_size: u16, is_dirty: bool| LeafNode {
        page_id: 4096,
        last_lsn: 7,
        has_prev: true,
        has_next: false,
        prev_page_id: 8192,
        next_page_id: 0,
        slot_array: vec![1, 0],
        records: vec![make_record(9, &[1, 2], false), make_record(3, &[5], true)],
        free_size,
        is_dirty,
    };
    let mut first = Page::new();
    let mut second = Page::new();
    second.as_bytes_mut().fill(0xAB);
    BTreeNode::Leaf(leaf(0, true)).encode(&mut first).unwrap();
    BTreeNode::Leaf(leaf(1234, false)).encode(&mut second).unwrap();
    match (
        BTreeNode::decode(&first).unwrap(),
        BTreeNode::decode(&second).unwrap(),
    ) {
        (BTreeNode::Leaf(a), BTreeNode::Leaf(b)) => {
            assert_eq!(a.free_size, b.free_size);
            assert_eq!(a.is_dirty, b.is_dirty);
            assert_eq!(a.slot_array, b.slot_array);
            assert_eq!(a.prev_page_id, b.prev_page_id);
            assert_eq!(a.records.len(), b.records.len());
            for (x, y) in a.records.iter().zip(b.records.iter()) {
                assert_eq!(x.key, y.key);
                assert_eq!(x.data, y.data);
                assert_eq!(x.is_deleted, y.is_deleted);
            }
        }
        _ => panic!("expected two leaves"),
    }
}

#[test]
fn oversized_internal_node_with_stale_slots_is_page_full() {
    let node = InternalNode {
        page_id: 4096,
        last_lsn: 0,
        rightmost_child: 0,
        slot_array: vec![7; 400],
        entries: vec![],
        free_size: 0,
        is_dirty: false,
    };
    let mut page = Page::new();
    assert!(matches!(
        BTreeNode::Internal(node).encode(&mut page),
        Err(DbError::PageFull)
    ));
    assert!(page.as_bytes().iter().all(|b| *b == 0));
}

#[test]
fn decode_ignores_free_size_and_old_bytes_with_repeated_slots() {
    let leaf = |free_size: u16, is_dirty: bool| LeafNode {
        page_id: 4096,
        last_lsn: 2,
        has_prev: false,
        has_next: true,
        prev_page_id: 0,
        next_page_id: 12288,
        slot_array: vec![0, 0],
        records: vec![make_record(4, &[9, 9], false), make_record(8, &[1], false)],
        free_size,
        is_dirty,
    };
    let mut first = Page::new();
    let mut second = Page::new();
    second.as_bytes_mut().fill(0x5A);
    BTreeNode::Leaf(leaf(7, false)).encode(&mut first).unwrap();
    BTreeNode::Leaf(leaf(0, true)).encode(&mut second).unwrap();
    match (BTreeNode::decode(&first), BTreeNode::decode(&second)) {
        (Ok(BTreeNode::Leaf(a)), Ok(BTreeNode::Leaf(b))) => {
            assert_eq!(a.free_size, b.free_size);
            assert_eq!(a.slot_array, b.slot_array);
            assert_eq!(a.next_page_id, b.next_page_id);
            assert_eq!(a.records.len(), b.records.len());
            for (x, y) in a.records.iter().zip(b.records.iter()) {
                assert_eq!(x.key, y.key);
                assert_eq!(x.data, y.data);
                assert_eq!(x.is_deleted, y.is_deleted);
            }
        }
        (Err(_), Err(_)) => {}
        _ => panic!("the two pages must decode alike"),
    }
}
