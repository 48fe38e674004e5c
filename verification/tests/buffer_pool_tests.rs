use smol_db::error::DbError;
use smol_db::storage::buffer_pool::BufferPool;
use smol_db::storage::page::{BTreeNode, LeafNode, Page, PageId, Record};

fn leaf_page(page_id: u64, key: u32) -> Page {
    let leaf = LeafNode {
        page_id,
        last_lsn: 1,
        has_prev: false,
        has_next: false,
        prev_page_id: 0,
        next_page_id: 0,
        slot_array: vec![0],
        records: vec![Record {
            key,
            data: vec![1, 2],
            is_deleted: false,
        }],
        free_size: 0,
        is_dirty: false,
    };
    let mut page = Page::new();
    BTreeNode::Leaf(leaf).encode(&mut page).unwrap();
    page
}

#[test]
fn miss_install_then_hit() {
    let mut pool = BufferPool::new(2);
    assert!(!pool.fetch_page(PageId(4096)));
    pool.install_page(PageId(4096), &leaf_page(4096, 7)).unwrap();
    assert!(pool.fetch_page(PageId(4096)));
    match pool.node(PageId(4096)) {
        Some(BTreeNode::Leaf(l)) => assert_eq!(l.records[0].key, 7),
        _ => panic!("expected the cached leaf"),
    }
    assert!(pool.node(PageId(8192)).is_none());
}

#[test]
fn install_rejects_corrupt_page() {
    let mut pool = BufferPool::new(2);
    let mut page = Page::new();
    page.as_bytes_mut()[0] = 5;
    assert!(matches!(
        pool.install_page(PageId(4096), &page),
        Err(DbError::CorruptPage(_))
    ));
    assert!(!pool.fetch_page(PageId(4096)));
}

#[test]
fn eviction_picks_least_recent_and_writes_back_dirty() {
    let mut pool = BufferPool::new(2);
    pool.new_page(PageId(4096), true);
    pool.new_page(PageId(8192), false);
    assert!(pool.needs_eviction());
    pool.mark_dirty(PageId(4096), 9);
    assert!(pool.fetch_page(PageId(8192)));
    let (victim, image) = pool.evict_page(&vec![]).unwrap();
    assert_eq!(victim, PageId(4096));
    let image = image.expect("dirty page must be written back");
    match BTreeNode::decode(&image).unwrap() {
        BTreeNode::Leaf(l) => {
            assert_eq!(l.page_id, 4096);
            assert_eq!(l.last_lsn, 9);
        }
        _ => panic!("expected a leaf"),
    }
    // the victim stays cached until it is discarded
    assert!(pool.node(PageId(4096)).is_some());
    assert!(pool.needs_eviction());
    pool.discard_page(victim);
    assert!(pool.node(PageId(4096)).is_none());
    assert!(!pool.needs_eviction());
    let (victim, image) = pool.evict_page(&vec![]).unwrap();
    assert_eq!(victim, PageId(8192));
    assert!(image.is_none());
    assert!(matches!(pool.evict_page(&vec![]), Err(DbError::LruEviction)));
}

#[test]
fn flush_and_clear_dirty() {
    let mut pool = BufferPool::new(1);
    pool.new_page(PageId(4096), true);
    assert!(pool.flush_page(PageId(4096)).unwrap().is_none());
    pool.mark_dirty(PageId(4096), 3);
    assert!(pool.flush_page(PageId(4096)).unwrap().is_some());
    pool.clear_dirty(PageId(4096));
    assert!(pool.flush_page(PageId(4096)).unwrap().is_none());
    assert!(pool.flush_page(PageId(1)).unwrap().is_none());
    assert_eq!(pool.page_ids(), vec![PageId(4096)]);
}

#[test]
fn eviction_skips_held_pages() {
    let mut pool = BufferPool::new(3);
    pool.new_page(PageId(4096), true);
    pool.new_page(PageId(8192), true);
    pool.new_page(PageId(12288), true);
    // 4096 is the least recently used, but a caller holds it
    let (victim, _) = pool.evict_page(&vec![4096]).unwrap();
    assert_eq!(victim, PageId(8192));
    pool.discard_page(victim);
    // every tracked page is held: nothing is evicted
    assert!(matches!(
        pool.evict_page(&vec![12288, 4096]),
        Err(DbError::LruEviction)
    ));
    assert!(pool.node(PageId(4096)).is_some());
    assert!(pool.node(PageId(12288)).is_some());
    let (victim, _) = pool.evict_page(&vec![12288]).unwrap();
    assert_eq!(victim, PageId(4096));
}

#[test]
fn replace_node_swaps_the_cached_node() {
    let mut pool = BufferPool::new(2);
    pool.new_page(PageId(4096), true);
    let mut node = BTreeNode::new_empty(PageId(4096), true);
    if let BTreeNode::Leaf(l) = &mut node {
        l.records.push(Record {
            key: 3,
            data: vec![9],
            is_deleted: false,
        });
        l.slot_array.push(0);
    }
    let prev = pool.replace_node(PageId(4096), node).unwrap();
    match prev {
        BTreeNode::Leaf(l) => assert!(l.records.is_empty()),
        _ => panic!("expected the empty leaf"),
    }
    match pool.node(PageId(4096)) {
        Some(BTreeNode::Leaf(l)) => assert_eq!(l.records[0].key, 3),
        _ => panic!("expected the new leaf"),
    }
    assert!(pool
        .replace_node(PageId(8192), BTreeNode::new_empty(PageId(8192), true))
        .is_none());
    assert!(pool.node(PageId(8192)).is_none());
}

#[test]
fn new_page_replaces_a_cached_node() {
    let mut pool = BufferPool::new(2);
    pool.new_page(PageId(4096), true);
    pool.new_page(PageId(8192), true);
    pool.mark_dirty(PageId(4096), 5);
    // the pool is full, but 4096 is cached: its node is replaced in place
    pool.new_page(PageId(4096), false);
    match pool.node(PageId(4096)) {
        Some(BTreeNode::Internal(n)) => {
            assert_eq!(n.page_id, 4096);
            assert!(!n.is_dirty);
        }
        _ => panic!("expected the fresh internal node"),
    }
    // and it became the most recently used page
    let (victim, _) = pool.evict_page(&vec![]).unwrap();
    assert_eq!(victim, PageId(8192));
}
