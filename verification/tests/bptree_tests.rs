use smol_db::error::DbError;
use smol_db::storage::bptree::{BpTree, SearchStep, SplitResult};
use smol_db::storage::buffer_pool::BufferPool;
use smol_db::storage::page::{BTreeNode, IndexEntry, InternalNode, PageId};

/// Inserts through the tree's steps as a caller does: into the leaf, and
/// where it is full into a new sibling page, linking the old right sibling.
fn insert_leaf(
    pool: &mut BufferPool,
    next_free: &mut u64,
    leaf_page_id: PageId,
    row_id: u32,
    payload: Vec<u8>,
    lsn: u64,
) -> Result<Option<SplitResult>, DbError> {
    if BpTree::insert_into_leaf(pool, leaf_page_id, row_id, payload.clone(), lsn)? {
        return Ok(None);
    }
    let new_page_id = PageId(*next_free);
    *next_free += 4096;
    pool.new_page(new_page_id, true);
    let (split, old_next) = BpTree::split_leaf(pool, leaf_page_id, new_page_id, row_id, payload, lsn)?;
    if let Some(next) = old_next {
        BpTree::link_prev(pool, next, new_page_id, lsn)?;
    }
    Ok(Some(split))
}

fn find_record(pool: &BufferPool, tree: &BpTree, row_id: u32) -> Result<Option<Vec<u8>>, DbError> {
    let mut page_id = tree.get_root_id();
    loop {
        match BpTree::search_page(pool, page_id, row_id)? {
            SearchStep::Descend(child) => page_id = child,
            SearchStep::Found(value) => return Ok(value),
        }
    }
}

#[test]
fn test_insert_leaf_duplicate_rejection() {
    let mut pool = BufferPool::new(20);
    let mut next_free = 8192;
    let root_id = PageId(4096);
    pool.new_page(root_id, true);
    let btree = BpTree::new(root_id);

    let result = insert_leaf(&mut pool, &mut next_free, root_id, 100, vec![1, 2, 3], 10).unwrap();
    assert!(result.is_none());

    let result = insert_leaf(&mut pool, &mut next_free, root_id, 101, vec![4, 5, 6], 11).unwrap();
    assert!(result.is_none());

    assert_eq!(find_record(&pool, &btree, 100).unwrap(), Some(vec![1, 2, 3]));
    assert_eq!(find_record(&pool, &btree, 101).unwrap(), Some(vec![4, 5, 6]));

    let dup_result = insert_leaf(&mut pool, &mut next_free, root_id, 100, vec![10, 11, 13], 12);
    assert!(matches!(dup_result, Err(DbError::DuplicateKey(100))));
}

#[test]
fn test_insert_leaf_split_and_sibling_chain() {
    let mut pool = BufferPool::new(20);
    let mut next_free = 8192;
    let root_id = PageId(4096);
    pool.new_page(root_id, true);

    let large_payload = vec![0u8; 400];
    let mut split_res = None;

    for key in 1..=15u32 {
        if let Some(result) =
            insert_leaf(&mut pool, &mut next_free, root_id, key, large_payload.clone(), key as u64).unwrap()
        {
            split_res = Some(result);
            break;
        }
    }
    let split = split_res.expect("leaf failed to split exceeding 4KB capacity!");
    assert!(
        split.promoted_row_id >= 5,
        "row_id smaller than expected {}",
        split.promoted_row_id
    );
    assert_ne!(split.new_page_id, root_id);

    match (pool.node(root_id), pool.node(split.new_page_id)) {
        (Some(BTreeNode::Leaf(left)), Some(BTreeNode::Leaf(right))) => {
            assert!(left.has_next);
            assert_eq!(left.next_page_id, split.new_page_id.0);

            assert!(right.has_prev);
            assert_eq!(right.prev_page_id, root_id.0);

            assert_eq!(
                right.records[right.slot_array[0] as usize].key as u64,
                split.promoted_row_id
            );
            assert!(left.free_size > 1500, "compaction failed to reclaim")
        }
        _ => panic!("expected btree leaf nodes"),
    }
}

#[test]
fn split_places_row_and_marks_both_dirty() {
    let mut pool = BufferPool::new(4);
    let mut next_free = 8192;
    let root_id = PageId(4096);
    pool.new_page(root_id, true);
    for key in 1..=9u32 {
        assert!(insert_leaf(&mut pool, &mut next_free, root_id, key * 10, vec![0u8; 400], 1)
            .unwrap()
            .is_none());
    }
    // 15 falls below the promoted key 50 and goes left
    let split = insert_leaf(&mut pool, &mut next_free, root_id, 15, vec![7u8; 400], 2)
        .unwrap()
        .unwrap();
    assert_eq!(split.promoted_row_id, 50);
    assert_eq!(split.new_page_id, PageId(8192));
    match (pool.node(root_id), pool.node(split.new_page_id)) {
        (Some(BTreeNode::Leaf(left)), Some(BTreeNode::Leaf(right))) => {
            assert_eq!(left.get_record(15), Some(vec![7u8; 400]));
            assert_eq!(right.get_record(15), None);
            assert_eq!(left.records.len(), 5);
            assert_eq!(right.records.len(), 5);
            assert!(left.is_dirty && right.is_dirty);
            assert_eq!(left.last_lsn, 2);
            assert_eq!(right.last_lsn, 2);
            assert!(!right.has_next);
        }
        _ => panic!("expected btree leaf nodes"),
    }
}

#[test]
fn split_links_old_right_sibling_back() {
    let mut pool = BufferPool::new(4);
    let mut next_free = 8192;
    let root_id = PageId(4096);
    pool.new_page(root_id, true);
    for key in 1..=10u32 {
        insert_leaf(&mut pool, &mut next_free, root_id, key, vec![0u8; 400], 1).unwrap();
    }
    // the split at key 10 made page 8192 the right sibling of the root leaf
    assert_eq!(next_free, 12288);
    let split = BpTree::split_leaf(&mut pool, root_id, PageId(next_free), 0, vec![1], 3);
    assert!(matches!(split, Err(DbError::PageNotFound(12288))));
    pool.new_page(PageId(next_free), true);
    let (split, old_next) = BpTree::split_leaf(&mut pool, root_id, PageId(next_free), 0, vec![1], 3).unwrap();
    assert_eq!(old_next, Some(PageId(8192)));
    BpTree::link_prev(&mut pool, PageId(8192), split.new_page_id, 3).unwrap();
    match pool.node(PageId(8192)) {
        Some(BTreeNode::Leaf(old_right)) => {
            assert!(old_right.has_prev);
            assert_eq!(old_right.prev_page_id, split.new_page_id.0);
            assert_eq!(old_right.last_lsn, 3);
        }
        _ => panic!("expected the old right sibling"),
    }
    match pool.node(split.new_page_id) {
        Some(BTreeNode::Leaf(mid)) => {
            assert_eq!(mid.prev_page_id, root_id.0);
            assert_eq!(mid.next_page_id, 8192);
        }
        _ => panic!("expected the new leaf"),
    }
}

#[test]
fn insert_into_internal_node_is_refused() {
    let mut pool = BufferPool::new(2);
    pool.new_page(PageId(4096), false);
    assert!(matches!(
        BpTree::insert_into_leaf(&mut pool, PageId(4096), 1, vec![1], 1),
        Err(DbError::CorruptPage(_))
    ));
    assert!(matches!(
        BpTree::insert_into_leaf(&mut pool, PageId(8192), 1, vec![1], 1),
        Err(DbError::PageNotFound(8192))
    ));
    assert!(matches!(
        BpTree::link_prev(&mut pool, PageId(8192), PageId(4096), 1),
        Err(DbError::PageNotFound(8192))
    ));
}

#[test]
fn split_preconditions_are_checked() {
    let mut pool = BufferPool::new(3);
    pool.new_page(PageId(4096), true);
    pool.new_page(PageId(8192), true);
    pool.new_page(PageId(12288), false);
    // a single record cannot be split
    BpTree::insert_into_leaf(&mut pool, PageId(4096), 1, vec![1], 1).unwrap();
    assert!(matches!(
        BpTree::split_leaf(&mut pool, PageId(4096), PageId(8192), 2, vec![2], 2),
        Err(DbError::PageFull)
    ));
    assert!(matches!(
        BpTree::split_leaf(&mut pool, PageId(4096), PageId(4096), 2, vec![2], 2),
        Err(DbError::CorruptPage(_))
    ));
    assert!(matches!(
        BpTree::split_leaf(&mut pool, PageId(4096), PageId(12288), 2, vec![2], 2),
        Err(DbError::CorruptPage(_))
    ));
    BpTree::insert_into_leaf(&mut pool, PageId(4096), 3, vec![3], 1).unwrap();
    // a duplicate key is refused with both pages unchanged
    assert!(matches!(
        BpTree::split_leaf(&mut pool, PageId(4096), PageId(8192), 3, vec![9], 2),
        Err(DbError::DuplicateKey(3))
    ));
    match (pool.node(PageId(4096)), pool.node(PageId(8192))) {
        (Some(BTreeNode::Leaf(left)), Some(BTreeNode::Leaf(right))) => {
            assert_eq!(left.records.len(), 2);
            assert!(right.records.is_empty());
        }
        _ => panic!("expected two leaves"),
    }
}

#[test]
fn search_descends_through_internal_node() {
    let mut pool = BufferPool::new(3);
    pool.new_page(PageId(8192), true);
    pool.new_page(PageId(12288), true);
    BpTree::insert_into_leaf(&mut pool, PageId(8192), 5, vec![5], 1).unwrap();
    BpTree::insert_into_leaf(&mut pool, PageId(12288), 50, vec![50], 1).unwrap();
    let root = InternalNode {
        page_id: 4096,
        last_lsn: 0,
        rightmost_child: 12288,
        slot_array: vec![0],
        entries: vec![IndexEntry {
            key: 50,
            child_page_id: 8192,
        }],
        free_size: 0,
        is_dirty: false,
    };
    pool.new_page(PageId(4096), false);
    pool.replace_node(PageId(4096), BTreeNode::Internal(root));
    let tree = BpTree::new(PageId(4096));
    assert!(matches!(
        BpTree::search_page(&pool, PageId(4096), 5),
        Ok(SearchStep::Descend(PageId(8192)))
    ));
    assert_eq!(find_record(&pool, &tree, 5).unwrap(), Some(vec![5]));
    assert_eq!(find_record(&pool, &tree, 50).unwrap(), Some(vec![50]));
    assert_eq!(find_record(&pool, &tree, 7).unwrap(), None);
    assert!(matches!(
        BpTree::search_page(&pool, PageId(1), 5),
        Err(DbError::PageNotFound(1))
    ));
}
