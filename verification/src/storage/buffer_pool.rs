//! The bookkeeping of the buffer pool: which pages are cached, in what
//! order they were used, which one to evict and what bytes to write back.
//! Reading and writing the disk is left to the caller, which hands the
//! bytes in and takes the page images out.
use crate::error::DbError;
use crate::storage::layout::{
    decode_spec, lemma_decoded_slots_in_range, node_page_bytes, node_slots_in_range,
    node_used_len,
};
use crate::storage::lru::{lemma_victim_index, touch, victim_index, LruReplacer};
use crate::storage::page::{BTreeNode, NodeView, Page, PageId, PAGE_SIZE};
use std::collections::HashMap;
use vstd::prelude::*;
use vstd::std_specs::iter::IteratorSpec;

verus! {

broadcast use vstd::std_specs::hash::group_hash_axioms;

/// Forces the write-ahead log to disk; implemented by the log manager so
/// that the memory manager does not depend on it.
pub trait WalFlusher: Send + Sync {
    /// Writes and syncs every log record up to and including `lsn`.
    fn flush_upto(&self, lsn: u64) -> Result<(), DbError>;
}

/// A page of zero bytes, as `Page::new` makes it.
pub open spec fn zero_page() -> Seq<u8> {
    Seq::new(PAGE_SIZE as nat, |i: int| 0u8)
}

/// The cached nodes, keyed by page id, and their use order.
pub struct BufferPool {
    replacer: LruReplacer,
    page_table: HashMap<u64, BTreeNode>,
    capacity: usize,
}

/// A sequence without duplicates inside a finite set is no longer than the set.
proof fn lemma_seq_in_set_len(s: Seq<u64>, d: Set<u64>)
    requires
        s.no_duplicates(),
        d.finite(),
        forall|i: int| 0 <= i < s.len() ==> d.contains(#[trigger] s[i]),
    ensures
        s.len() <= d.len(),
{
    s.unique_seq_to_set();
    assert(s.to_set().subset_of(d));
    vstd::set_lib::lemma_len_subset(s.to_set(), d);
}

impl BufferPool {
    /// The cached nodes by page id.
    pub closed spec fn cached(&self) -> Map<u64, NodeView> {
        self.page_table@.map_values(|n: BTreeNode| n@)
    }

    /// The pages the replacer tracks, most recently used first.
    pub closed spec fn lru_order(&self) -> Seq<u64> {
        self.replacer@
    }

    /// Most pages the pool caches.
    pub closed spec fn spec_capacity(&self) -> nat {
        self.capacity as nat
    }

    /// The replacer tracks only cached pages, each once, and the pool holds
    /// no more pages than its capacity, each of them encodable.
    pub closed spec fn wf(&self) -> bool {
        &&& self.replacer.wf()
        &&& self.replacer.spec_capacity() == self.capacity
        &&& forall|i: int|
            0 <= i < self.replacer@.len() ==> self.page_table@.contains_key(#[trigger] self.replacer@[i])
        &&& self.page_table@.dom().finite()
        &&& self.page_table@.len() <= self.capacity
        &&& forall|p: u64| #[trigger] self.page_table@.contains_key(p) ==> node_slots_in_range(
            self.page_table@[p]@,
        )
    }

    /// Every page the replacer tracks is cached, and no page is tracked twice.
    pub proof fn lemma_wf_order(&self)
        requires
            self.wf(),
        ensures
            self.lru_order().no_duplicates(),
            forall|i: int|
                0 <= i < self.lru_order().len() ==> self.cached().contains_key(
                    #[trigger] self.lru_order()[i],
                ),
            self.cached().len() <= self.spec_capacity(),
            self.cached().dom().finite(),
    {
        self.replacer.lemma_wf_bounds();
        assert(self.cached().dom() =~= self.page_table@.dom());
    }

    /// An empty pool that caches at most `capacity` pages.
    pub fn new(capacity: usize) -> (pool: Self)
        ensures
            pool.wf(),
            pool.cached() == Map::<u64, NodeView>::empty(),
            pool.lru_order() == Seq::<u64>::empty(),
            pool.spec_capacity() == capacity,
    {
        let pool = Self {
            replacer: LruReplacer::new(capacity),
            page_table: HashMap::with_capacity(capacity),
            capacity,
        };
        assert(pool.cached() =~= Map::<u64, NodeView>::empty());
        pool
    }

    /// Room for one more page must first be made by eviction.
    pub fn needs_eviction(&self) -> (full: bool)
        requires
            self.wf(),
        ensures
            full == (self.cached().len() >= self.spec_capacity()),
    {
        proof {
            assert(self.cached().dom() =~= self.page_table@.dom());
        }
        self.page_table.len() >= self.capacity
    }

    /// Looks `page_id` up in the cache. On a hit the page becomes the most
    /// recently used one; on a miss nothing changes and the caller must read
    /// the page from disk and install it.
    pub fn fetch_page(&mut self, page_id: PageId) -> (hit: bool)
        requires
            old(self).wf(),
        ensures
            final(self).wf(),
            hit == old(self).cached().contains_key(page_id.0),
            final(self).cached() == old(self).cached(),
            final(self).spec_capacity() == old(self).spec_capacity(),
            hit ==> final(self).lru_order() == touch(old(self).lru_order(), page_id.0),
            !hit ==> final(self).lru_order() == old(self).lru_order(),
    {
        let p = page_id.0;
        if self.page_table.contains_key(&p) {
            proof {
                self.lemma_room_for_cached(p);
            }
            self.replacer.record_access(page_id);
            true
        } else {
            false
        }
    }

    /// A cached page is tracked already, or the replacer has room for it.
    proof fn lemma_room_for_cached(&self, p: u64)
        requires
            self.wf(),
            self.page_table@.contains_key(p),
        ensures
            self.replacer@.contains(p) || self.replacer@.len() < self.replacer.spec_capacity(),
    {
        self.replacer.lemma_wf_bounds();
        if !self.replacer@.contains(p) {
            let d = self.page_table@.dom().remove(p);
            assert forall|i: int| 0 <= i < self.replacer@.len() implies d.contains(
                #[trigger] self.replacer@[i],
            ) by {
                assert(self.replacer@[i] != p);
            }
            lemma_seq_in_set_len(self.replacer@, d);
        }
    }

    /// A page that is not cached has room in the replacer while the pool has room.
    proof fn lemma_room_for_new(&self, p: u64)
        requires
            self.wf(),
            !self.page_table@.contains_key(p),
            self.page_table@.len() < self.capacity,
        ensures
            !self.replacer@.contains(p),
            self.replacer@.len() < self.replacer.spec_capacity(),
    {
        self.replacer.lemma_wf_bounds();
        lemma_seq_in_set_len(self.replacer@, self.page_table@.dom());
    }

    /// The cached node of `page_id`, if any.
    pub fn node(&self, page_id: PageId) -> (node: Option<&BTreeNode>)
        requires
            self.wf(),
        ensures
            match node {
                Some(n) => self.cached().contains_key(page_id.0) && n@ == self.cached()[page_id.0]
                    && node_slots_in_range(n@),
                None => !self.cached().contains_key(page_id.0),
            },
    {
        self.page_table.get(&page_id.0)
    }

    /// Caches the node that `raw`, read from disk for `page_id`, holds, as
    /// the most recently used page. A page that does not decode is reported
    /// as `CorruptPage` and nothing changes.
    pub fn install_page(&mut self, page_id: PageId, raw: &Page) -> (result: Result<(), DbError>)
        requires
            old(self).wf(),
            !old(self).cached().contains_key(page_id.0),
            old(self).cached().len() < old(self).spec_capacity(),
        ensures
            final(self).wf(),
            final(self).spec_capacity() == old(self).spec_capacity(),
            match result {
                Ok(()) => decode_spec(raw@) is Some && final(self).cached() == old(self).cached().insert(
                    page_id.0,
                    decode_spec(raw@).unwrap(),
                ) && final(self).lru_order() == touch(old(self).lru_order(), page_id.0),
                Err(e) => decode_spec(raw@) is None && e is CorruptPage && final(self).cached() == old(
                    self,
                ).cached() && final(self).lru_order() == old(self).lru_order(),
            },
    {
        let node = match BTreeNode::decode(raw) {
            Ok(n) => n,
            Err(e) => return Err(e),
        };
        proof {
            lemma_decoded_slots_in_range(raw@);
            assert(old(self).cached().dom() =~= old(self).page_table@.dom());
        }
        self.insert_node(page_id, node);
        Ok(())
    }

    /// Caches `node` for `page_id` as the most recently used page.
    fn insert_node(&mut self, page_id: PageId, node: BTreeNode)
        requires
            old(self).wf(),
            !old(self).page_table@.contains_key(page_id.0),
            old(self).page_table@.len() < old(self).capacity,
            node_slots_in_range(node@),
        ensures
            final(self).wf(),
            final(self).capacity == old(self).capacity,
            final(self).cached() == old(self).cached().insert(page_id.0, node@),
            final(self).lru_order() == touch(old(self).lru_order(), page_id.0),
    {
        let p = page_id.0;
        let ghost n = node@;
        proof {
            self.lemma_room_for_new(p);
        }
        self.page_table.insert(p, node);
        self.replacer.record_access(page_id);
        proof {
            assert(self.cached() =~= old(self).cached().insert(p, n));
            assert forall|i: int| 0 <= i < self.replacer@.len() implies self.page_table@.contains_key(
                #[trigger] self.replacer@[i],
            ) by {
                if i > 0 {
                    let r = crate::storage::lru::remove_page(old(self).replacer@, p);
                    assert(self.replacer@[i] == r[i - 1]);
                    assert(r == old(self).replacer@);
                }
            }
        }
    }

    /// Caches a fresh empty leaf (`is_leaf`) or internal node for the newly
    /// allocated `page_id`, as the most recently used page. A node already
    /// cached for `page_id` is replaced.
    pub fn new_page(&mut self, page_id: PageId, is_leaf: bool)
        requires
            old(self).wf(),
            !old(self).cached().contains_key(page_id.0) ==> old(self).cached().len() < old(
                self,
            ).spec_capacity(),
        ensures
            final(self).wf(),
            final(self).spec_capacity() == old(self).spec_capacity(),
            final(self).cached() == old(self).cached().insert(
                page_id.0,
                BTreeNode::new_empty_spec(page_id, is_leaf),
            ),
            final(self).lru_order() == touch(old(self).lru_order(), page_id.0),
    {
        proof {
            assert(old(self).cached().dom() =~= old(self).page_table@.dom());
        }
        let node = BTreeNode::new_empty(page_id, is_leaf);
        if self.page_table.contains_key(&page_id.0) {
            let _ = self.replace_node(page_id, node);
            let hit = self.fetch_page(page_id);
            assert(hit);
        } else {
            self.insert_node(page_id, node);
        }
    }
}

/// The page image to write back for a node: `Some` of the node encoded over
/// a zeroed page where the node is dirty, `None` where it is clean.
fn dirty_image(node: &BTreeNode) -> (result: Result<Option<Page>, DbError>)
    requires
        node_slots_in_range(node@),
    ensures
        match result {
            Ok(Some(page)) => node@.is_dirty() && page@ == node_page_bytes(node@, zero_page()),
            Ok(None) => !node@.is_dirty(),
            Err(e) => e is PageFull && node@.is_dirty() && node_used_len(node@) > PAGE_SIZE,
        },
{
    if node.is_dirty() {
        let mut page = Page::new();
        match node.encode(&mut page) {
            Ok(()) => Ok(Some(page)),
            Err(e) => Err(e),
        }
    } else {
        Ok(None)
    }
}

impl BufferPool {
    /// Picks for eviction the least recently used page that `held` does not
    /// list (the pages a caller still uses): the last page of the use order
    /// behind which every page is held: it leaves the replacer, and its
    /// id is returned with the page image to write back where it is dirty.
    /// The node stays cached until `discard_page`, so that a failed write
    /// loses nothing. `LruEviction`, with nothing changed, where every
    /// tracked page is held or none is tracked. A dirty victim that does not
    /// fit its page is reported as `PageFull`; it has left the replacer all
    /// the same.
    pub fn evict_page(&mut self, held: &Vec<u64>) -> (result: Result<(PageId, Option<Page>), DbError>)
        requires
            old(self).wf(),
        ensures
            final(self).wf(),
            final(self).spec_capacity() == old(self).spec_capacity(),
            final(self).cached() == old(self).cached(),
            ({
                let k = victim_index(old(self).lru_order(), held@, old(self).lru_order().len() as int);
                match result {
                    Ok((victim, image)) => {
                        let node = old(self).cached()[victim.0];
                        &&& 0 <= k < old(self).lru_order().len()
                        &&& victim.0 == old(self).lru_order()[k]
                        &&& !held@.contains(victim.0)
                        &&& forall|j: int| k < j < old(self).lru_order().len() ==> held@.contains(
                            #[trigger] old(self).lru_order()[j],
                        )
                        &&& old(self).cached().contains_key(victim.0)
                        &&& final(self).lru_order() == old(self).lru_order().remove(k)
                        &&& match image {
                            Some(page) => node.is_dirty() && page@ == node_page_bytes(node, zero_page()),
                            None => !node.is_dirty(),
                        }
                    },
                    Err(DbError::LruEviction) => {
                        &&& k == -1
                        &&& forall|j: int| 0 <= j < old(self).lru_order().len() ==> held@.contains(
                            #[trigger] old(self).lru_order()[j],
                        )
                        &&& final(self).lru_order() == old(self).lru_order()
                    },
                    Err(DbError::PageFull) => {
                        let node = old(self).cached()[old(self).lru_order()[k]];
                        &&& 0 <= k < old(self).lru_order().len()
                        &&& node.is_dirty()
                        &&& node_used_len(node) > PAGE_SIZE
                        &&& final(self).lru_order() == old(self).lru_order().remove(k)
                    },
                    Err(_) => false,
                }
            }),
    {
        proof {
            self.replacer.lemma_wf_bounds();
            lemma_victim_index(self.replacer@, held@, self.replacer@.len() as int);
        }
        let victim = match self.replacer.evict_unheld(held) {
            Some(v) => v,
            None => return Err(DbError::LruEviction),
        };
        let p = victim.0;
        proof {
            let ov = old(self).replacer@;
            let k = victim_index(ov, held@, ov.len() as int);
            assert(ov[k] == p);
            assert forall|i: int| 0 <= i < self.replacer@.len() implies self.page_table@.contains_key(
                #[trigger] self.replacer@[i],
            ) by {
                if i < k {
                    assert(self.replacer@[i] == ov[i]);
                } else {
                    assert(self.replacer@[i] == ov[i + 1]);
                }
            }
        }
        let image = match self.page_table.get(&p) {
            Some(node) => match dirty_image(node) {
                Ok(img) => img,
                Err(e) => return Err(e),
            },
            None => {
                assert(false);
                None
            },
        };
        Ok((victim, image))
    }

    /// Drops `page_id` from the cache and from the replacer; a page that is
    /// not cached is ignored.
    pub fn discard_page(&mut self, page_id: PageId)
        requires
            old(self).wf(),
        ensures
            final(self).wf(),
            final(self).spec_capacity() == old(self).spec_capacity(),
            final(self).cached() == old(self).cached().remove(page_id.0),
            final(self).lru_order() == crate::storage::lru::remove_page(old(self).lru_order(), page_id.0),
    {
        let p = page_id.0;
        self.replacer.remove(page_id);
        self.page_table.remove(&p);
        proof {
            old(self).replacer.lemma_wf_bounds();
            assert(self.cached() =~= old(self).cached().remove(p));
            let ov = old(self).replacer@;
            assert forall|i: int| 0 <= i < self.replacer@.len() implies self.page_table@.contains_key(
                #[trigger] self.replacer@[i],
            ) by {
                if ov.contains(p) {
                    let k = ov.index_of(p);
                    assert(ov[k] == p);
                    if i < k {
                        assert(self.replacer@[i] == ov[i]);
                        assert(ov[i] != ov[k]);
                    } else {
                        assert(self.replacer@[i] == ov[i + 1]);
                        assert(ov[i + 1] != ov[k]);
                    }
                } else {
                    assert(self.replacer@[i] == ov[i]);
                }
            }
        }
    }

    /// The page image to write back for `page_id`: `Some` of the node encoded
    /// over a zeroed page where the page is cached and dirty, `None` where it
    /// is not cached or clean. `PageFull` where the dirty node does not fit
    /// its page. Once the image is on disk, call `clear_dirty`.
    pub fn flush_page(&self, page_id: PageId) -> (result: Result<Option<Page>, DbError>)
        requires
            self.wf(),
        ensures
            match result {
                Ok(Some(page)) => self.cached().contains_key(page_id.0) && self.cached()[page_id.0].is_dirty()
                    && page@ == node_page_bytes(self.cached()[page_id.0], zero_page()),
                Ok(None) => !self.cached().contains_key(page_id.0) || !self.cached()[page_id.0].is_dirty(),
                Err(e) => e is PageFull && self.cached().contains_key(page_id.0) && self.cached()[page_id.0].is_dirty()
                    && node_used_len(self.cached()[page_id.0]) > PAGE_SIZE,
            },
    {
        match self.page_table.get(&page_id.0) {
            Some(node) => dirty_image(node),
            None => Ok(None),
        }
    }

    /// Marks the cached page `page_id` clean, once its image is on disk; a
    /// page that is not cached is ignored.
    pub fn clear_dirty(&mut self, page_id: PageId)
        requires
            old(self).wf(),
        ensures
            final(self).wf(),
            final(self).spec_capacity() == old(self).spec_capacity(),
            final(self).lru_order() == old(self).lru_order(),
            final(self).cached() == if old(self).cached().contains_key(page_id.0) {
                old(self).cached().insert(page_id.0, old(self).cached()[page_id.0].with_dirty(false))
            } else {
                old(self).cached()
            },
            old(self).cached().contains_key(page_id.0) ==> !final(self).cached()[page_id.0].is_dirty(),
    {
        let p = page_id.0;
        match self.page_table.remove(&p) {
            Some(mut node) => {
                node.clear_dirty();
                self.page_table.insert(p, node);
                proof {
                    assert(self.page_table@.dom() =~= old(self).page_table@.dom());
                    assert(self.cached() =~= old(self).cached().insert(p, old(self).cached()[p].with_dirty(false)));
                }
            },
            None => {},
        }
    }

    /// Marks the cached page `page_id` dirty with `lsn` as its last update; a
    /// page that is not cached is ignored.
    pub fn mark_dirty(&mut self, page_id: PageId, lsn: u64)
        requires
            old(self).wf(),
        ensures
            final(self).wf(),
            final(self).spec_capacity() == old(self).spec_capacity(),
            final(self).lru_order() == old(self).lru_order(),
            final(self).cached() == if old(self).cached().contains_key(page_id.0) {
                old(self).cached().insert(page_id.0, old(self).cached()[page_id.0].with_dirty_lsn(true, lsn))
            } else {
                old(self).cached()
            },
            old(self).cached().contains_key(page_id.0) ==> final(self).cached()[page_id.0].is_dirty()
                && final(self).cached()[page_id.0].last_lsn() == lsn,
    {
        let p = page_id.0;
        match self.page_table.remove(&p) {
            Some(mut node) => {
                node.mark_dirty(lsn);
                self.page_table.insert(p, node);
                proof {
                    assert(self.page_table@.dom() =~= old(self).page_table@.dom());
                    assert(self.cached() =~= old(self).cached().insert(p, old(self).cached()[p].with_dirty_lsn(true, lsn)));
                }
            },
            None => {},
        }
    }

    /// The ids of the cached pages, each once, in no particular order.
    pub fn page_ids(&self) -> (ids: Vec<PageId>)
        requires
            self.wf(),
        ensures
            ids@.len() == self.cached().dom().len(),
            forall|i: int| 0 <= i < ids@.len() ==> self.cached().contains_key(#[trigger] ids@[i].0),
            forall|p: u64| #[trigger] self.cached().contains_key(p) ==> exists|i: int|
                0 <= i < ids@.len() && ids@[i].0 == p,
            forall|i: int, j: int| 0 <= i < j < ids@.len() ==> ids@[i] != ids@[j],
    {
        let mut ids: Vec<PageId> = Vec::new();
        let ghost ks = vstd::std_specs::hash::spec_keys_iter(&self.page_table).remaining().unref();
        for k in iter: self.page_table.keys()
            invariant
                ids@.len() == iter.index(),
                iter.seq().unref() == ks,
                forall|i: int| 0 <= i < iter.index() ==> #[trigger] ids@[i].0 == ks[i],
                ks.to_set() == self.page_table@.dom(),
                ks.no_duplicates(),
        {
            ids.push(PageId(*k));
        }
        proof {
            assert(self.cached().dom() =~= self.page_table@.dom());
            assert(ks.len() == ids@.len());
            assert forall|i: int| 0 <= i < ids@.len() implies self.cached().contains_key(#[trigger] ids@[i].0) by {
                assert(ks[i] == ids@[i].0);
                assert(ks.to_set().contains(ks[i]));
            }
            assert forall|p: u64| #[trigger] self.cached().contains_key(p) implies exists|i: int|
                0 <= i < ids@.len() && ids@[i].0 == p by {
                assert(ks.to_set().contains(p));
                let i = choose|i: int| 0 <= i < ks.len() && ks[i] == p;
                assert(ids@[i].0 == p);
            }
            assert forall|i: int, j: int| 0 <= i < j < ids@.len() implies ids@[i] != ids@[j] by {
                assert(ks[i] == ids@[i].0);
                assert(ks[j] == ids@[j].0);
            }
            ks.unique_seq_to_set();
        }
        ids
    }
}

impl BufferPool {
    /// Replaces the cached node of `page_id` with `node` and returns the node
    /// it held; a page that is not cached is left alone and `None` returned.
    /// The use order does not change.
    pub fn replace_node(&mut self, page_id: PageId, node: BTreeNode) -> (prev: Option<BTreeNode>)
        requires
            old(self).wf(),
            node_slots_in_range(node@),
        ensures
            final(self).wf(),
            final(self).spec_capacity() == old(self).spec_capacity(),
            final(self).lru_order() == old(self).lru_order(),
            match prev {
                Some(n) => old(self).cached().contains_key(page_id.0) && n@ == old(self).cached()[page_id.0]
                    && node_slots_in_range(n@)
                    && final(self).cached() == old(self).cached().insert(page_id.0, node@),
                None => !old(self).cached().contains_key(page_id.0) && final(self).cached() == old(self).cached(),
            },
    {
        let p = page_id.0;
        if self.page_table.contains_key(&p) {
            let ghost n = node@;
            let prev = self.page_table.insert(p, node);
            proof {
                assert(self.page_table@.dom() =~= old(self).page_table@.dom());
                assert(self.cached() =~= old(self).cached().insert(p, n));
            }
            prev
        } else {
            None
        }
    }
}

} // verus!
