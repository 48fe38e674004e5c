use smol_db::storage::lru::{holds_page, LruReplacer};
use smol_db::storage::page::PageId;

#[test]
fn evicts_in_access_order() {
    let mut r = LruReplacer::new(3);
    r.record_access(PageId(10));
    r.record_access(PageId(20));
    r.record_access(PageId(30));
    assert_eq!(r.evict(), Some(PageId(10)));
    assert_eq!(r.evict(), Some(PageId(20)));
    assert_eq!(r.evict(), Some(PageId(30)));
    assert_eq!(r.evict(), None);
}

#[test]
fn access_moves_page_to_front() {
    let mut r = LruReplacer::new(3);
    r.record_access(PageId(10));
    r.record_access(PageId(20));
    r.record_access(PageId(30));
    r.record_access(PageId(10));
    assert_eq!(r.evict(), Some(PageId(20)));
    r.record_access(PageId(30));
    assert_eq!(r.evict(), Some(PageId(10)));
    assert_eq!(r.evict(), Some(PageId(30)));
}

#[test]
fn access_of_the_middle_page_keeps_links() {
    let mut r = LruReplacer::new(4);
    for p in [1, 2, 3, 4] {
        r.record_access(PageId(p));
    }
    r.record_access(PageId(2));
    r.record_access(PageId(3));
    assert_eq!(r.evict(), Some(PageId(1)));
    assert_eq!(r.evict(), Some(PageId(4)));
    assert_eq!(r.evict(), Some(PageId(2)));
    assert_eq!(r.evict(), Some(PageId(3)));
}

#[test]
fn remove_and_slot_reuse() {
    let mut r = LruReplacer::new(2);
    r.record_access(PageId(1));
    r.record_access(PageId(2));
    r.remove(PageId(1));
    r.remove(PageId(99));
    r.record_access(PageId(3));
    assert_eq!(r.evict(), Some(PageId(2)));
    assert_eq!(r.evict(), Some(PageId(3)));
    assert_eq!(r.evict(), None);
}

#[test]
fn empty_replacer_evicts_nothing() {
    let mut r = LruReplacer::new(0);
    assert_eq!(r.evict(), None);
}

#[test]
fn remove_undoes_a_new_access() {
    let mut r = LruReplacer::new(3);
    r.record_access(PageId(1));
    r.record_access(PageId(2));
    r.record_access(PageId(3));
    r.remove(PageId(3));
    assert_eq!(r.evict(), Some(PageId(1)));
    assert_eq!(r.evict(), Some(PageId(2)));
    assert_eq!(r.evict(), None);
}

#[test]
fn evict_unheld_skips_held_pages() {
    let mut lru = LruReplacer::new(3);
    lru.record_access(PageId(1));
    lru.record_access(PageId(2));
    lru.record_access(PageId(3));
    assert_eq!(lru.evict_unheld(&vec![1]), Some(PageId(2)));
    assert_eq!(lru.evict_unheld(&vec![1, 3]), None);
    assert_eq!(lru.evict_unheld(&vec![]), Some(PageId(1)));
    assert_eq!(lru.evict(), Some(PageId(3)));
    assert_eq!(lru.evict_unheld(&vec![]), None);
}

#[test]
fn holds_page_finds_listed_ids() {
    assert!(holds_page(&vec![4, 8], 8));
    assert!(!holds_page(&vec![4, 8], 5));
    assert!(!holds_page(&vec![], 0));
}
