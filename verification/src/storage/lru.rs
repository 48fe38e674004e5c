//! Least-recently-used replacement policy over an arena-backed doubly linked list.
use crate::storage::page::PageId;
use std::collections::HashMap;
use vstd::prelude::*;

verus! {

broadcast use vstd::std_specs::hash::group_hash_axioms;

/// `s` with the page `p` taken out, where it occurs.
pub open spec fn remove_page(s: Seq<u64>, p: u64) -> Seq<u64> {
    if s.contains(p) {
        s.remove(s.index_of(p))
    } else {
        s
    }
}

/// The order after an access of `p`: `p` first, every other page as before.
pub open spec fn touch(s: Seq<u64>, p: u64) -> Seq<u64> {
    seq![p] + remove_page(s, p)
}

/// One entry of the arena-backed list.
#[derive(Debug, Clone, Copy)]
struct LruNode {
    prev: Option<usize>,
    page_id: PageId,
    next: Option<usize>,
}

/// Tracks page usage to pick eviction candidates.
///
/// ```text
/// [MRU / HEAD]                              [LRU / TAIL]
///      <- prev                next ->
/// [30] <----------> [20] <----------> [10]
/// ```
pub struct LruReplacer {
    /// Maps a page id to its node's index in `arena`.
    pages: HashMap<u64, usize>,
    /// The nodes of the list.
    arena: Vec<LruNode>,
    /// Index of the most recently used node.
    head: Option<usize>,
    /// Index of the least recently used node, the eviction candidate.
    tail: Option<usize>,
    /// Most pages the replacer tracks.
    capacity: usize,
    /// Arena slots of removed nodes, for reuse.
    free_list: Vec<usize>,
    /// Arena indices of the list's nodes, from head to tail.
    order: Ghost<Seq<usize>>,
}

impl View for LruReplacer {
    type V = Seq<u64>;

    /// The tracked pages, most recently used first.
    closed spec fn view(&self) -> Seq<u64> {
        self.order@.map_values(|i: usize| self.arena@[i as int].page_id.0)
    }
}

impl LruReplacer {
    /// The links of the arena nodes form the list `order`.
    pub closed spec fn list_wf(&self) -> bool {
        let ord = self.order@;
        &&& forall|k: int| 0 <= k < ord.len() ==> #[trigger] ord[k] < self.arena@.len()
        &&& forall|k1: int, k2: int|
            0 <= k1 < k2 < ord.len() ==> #[trigger] ord[k1] != #[trigger] ord[k2]
        &&& ord.len() == 0 ==> self.head is None && self.tail is None
        &&& ord.len() > 0 ==> self.head == Some(ord[0]) && self.tail == Some(ord.last())
        &&& forall|k: int|
            0 <= k < ord.len() ==> (#[trigger] self.arena@[ord[k] as int]).prev == (if k == 0 {
                None
            } else {
                Some(ord[k - 1])
            })
        &&& forall|k: int|
            0 <= k < ord.len() ==> (#[trigger] self.arena@[ord[k] as int]).next == (if k == ord.len()
                - 1 {
                None
            } else {
                Some(ord[k + 1])
            })
    }

    /// The page map finds each listed node by its page id, and free slots
    /// are outside the list.
    closed spec fn map_wf(&self) -> bool {
        let ord = self.order@;
        &&& forall|k: int|
            0 <= k < ord.len() ==> {
                let p = #[trigger] self.arena@[ord[k] as int].page_id.0;
                self.pages@.contains_key(p) && self.pages@[p] == ord[k]
            }
        &&& forall|p: u64|
            #[trigger] self.pages@.contains_key(p) ==> exists|k: int|
                0 <= k < ord.len() && #[trigger] ord[k] == self.pages@[p]
        &&& forall|p: u64|
            #[trigger] self.pages@.contains_key(p) ==> self.arena@[self.pages@[p] as int].page_id.0 == p
        &&& self.pages@.dom().finite()
        &&& self.pages@.len() == ord.len()
        &&& forall|j: int|
            0 <= j < self.free_list@.len() ==> #[trigger] self.free_list@[j] < self.arena@.len()
        &&& forall|j: int, k: int|
            0 <= j < self.free_list@.len() && 0 <= k < ord.len() ==> #[trigger] self.free_list@[j]
                != #[trigger] ord[k]
        &&& self.free_list@.no_duplicates()
        &&& ord.len() <= self.capacity
    }

    /// The replacer's internal links are consistent.
    pub closed spec fn wf(&self) -> bool {
        &&& self.list_wf()
        &&& self.map_wf()
    }

    /// Most pages the replacer tracks.
    pub closed spec fn spec_capacity(&self) -> nat {
        self.capacity as nat
    }

    /// Every well-formed replacer tracks each page at most once and no more
    /// pages than its capacity.
    pub proof fn lemma_wf_bounds(&self)
        requires
            self.wf(),
        ensures
            self@.no_duplicates(),
            self@.len() <= self.spec_capacity(),
    {
        let ord = self.order@;
        assert forall|a: int, b: int| 0 <= a < b < self@.len() implies self@[a] != self@[b] by {
            let pa = self.arena@[ord[a] as int].page_id.0;
            let pb = self.arena@[ord[b] as int].page_id.0;
            assert(self.pages@[pa] == ord[a]);
            assert(self.pages@[pb] == ord[b]);
        }
    }

    /// An empty replacer that tracks at most `capacity` pages.
    pub fn new(capacity: usize) -> (r: Self)
        ensures
            r.wf(),
            r@ == Seq::<u64>::empty(),
            r.spec_capacity() == capacity,
    {
        let r = Self {
            pages: HashMap::with_capacity(capacity),
            arena: Vec::with_capacity(capacity),
            head: None,
            tail: None,
            capacity,
            free_list: Vec::with_capacity(capacity),
            order: Ghost(Seq::empty()),
        };
        assert(r@ =~= Seq::<u64>::empty());
        r
    }
}

/// The two arenas hold nodes with the same page ids.
spec fn same_page_ids(a: Seq<LruNode>, b: Seq<LruNode>) -> bool {
    &&& a.len() == b.len()
    &&& forall|i: int| 0 <= i < a.len() ==> #[trigger] a[i].page_id == b[i].page_id
}

impl LruReplacer {
    /// A well-formed replacer's list is well formed.
    pub proof fn lemma_wf_list(&self)
        requires
            self.wf(),
        ensures
            self.list_wf(),
    {
    }

    /// The arena slots of the listed nodes, from head to tail.
    pub closed spec fn node_order(&self) -> Seq<usize> {
        self.order@
    }

    /// The back link of arena slot `i`.
    pub closed spec fn prev_link(&self, i: int) -> Option<usize> {
        self.arena@[i].prev
    }

    /// The forward link of arena slot `i`.
    pub closed spec fn next_link(&self, i: int) -> Option<usize> {
        self.arena@[i].next
    }

    /// The arena slot of the most recently used node.
    pub closed spec fn head_slot(&self) -> Option<usize> {
        self.head
    }

    /// The arena slot of the least recently used node.
    pub closed spec fn tail_slot(&self) -> Option<usize> {
        self.tail
    }

    /// Both replacers hold the same pages in the same arena slots, with the
    /// same page map, free slots and capacity.
    pub closed spec fn same_bookkeeping(&self, other: Self) -> bool {
        &&& same_page_ids(self.arena@, other.arena@)
        &&& self.pages@ == other.pages@
        &&& self.free_list@ == other.free_list@
        &&& self.capacity == other.capacity
    }
}

impl LruReplacer {
    /// Inserts the node at `idx`, which is not in the list, at the head.
    fn insert_head(&mut self, idx: usize)
        requires
            old(self).list_wf(),
            idx < old(self).arena@.len(),
            forall|k: int| 0 <= k < old(self).order@.len() ==> #[trigger] old(self).order@[k] != idx,
        ensures
            final(self).list_wf(),
            final(self).order@ == seq![idx] + old(self).order@,
            same_page_ids(final(self).arena@, old(self).arena@),
            final(self).pages@ == old(self).pages@,
            final(self).free_list@ == old(self).free_list@,
            final(self).capacity == old(self).capacity,
    {
        let ghost ord = self.order@;
        let mut node = self.arena[idx];
        node.prev = None;
        node.next = self.head;
        self.arena.set(idx, node);
        match self.head {
            Some(h_idx) => {
                let mut head_node = self.arena[h_idx];
                head_node.prev = Some(idx);
                self.arena.set(h_idx, head_node);
            },
            None => {
                self.tail = Some(idx);
            },
        }
        self.head = Some(idx);
        self.order = Ghost(seq![idx] + ord);
        proof {
            let nord = self.order@;
            assert forall|k: int| 0 <= k < nord.len() implies #[trigger] nord[k] < self.arena@.len() by {
                if k > 0 {
                    assert(nord[k] == ord[k - 1]);
                }
            }
            assert forall|k1: int, k2: int| 0 <= k1 < k2 < nord.len() implies #[trigger] nord[k1]
                != #[trigger] nord[k2] by {
                if k1 > 0 {
                    assert(nord[k1] == ord[k1 - 1]);
                }
                assert(nord[k2] == ord[k2 - 1]);
            }
            assert forall|k: int| 0 <= k < nord.len() implies (#[trigger] self.arena@[nord[k] as int]).prev
                == (if k == 0 { None } else { Some(nord[k - 1]) }) by {
                if k > 0 {
                    assert(nord[k] == ord[k - 1]);
                    if k > 1 {
                        assert(old(self).arena@[ord[k - 1] as int].prev == Some(ord[k - 2]));
                    }
                }
            }
            assert forall|k: int| 0 <= k < nord.len() implies (#[trigger] self.arena@[nord[k] as int]).next
                == (if k == nord.len() - 1 { None } else { Some(nord[k + 1]) }) by {
                if k > 0 {
                    assert(nord[k] == ord[k - 1]);
                    assert(old(self).arena@[ord[k - 1] as int].next == (if k - 1 == ord.len() - 1 {
                        None
                    } else {
                        Some(ord[k])
                    }));
                }
            }
        }
    }

    /// Takes the node at position `k` of the list out of the list: the list
    /// stays well formed (linked both ways, head and tail at its ends) and
    /// lists the other nodes in the same order. The node before it now links
    /// on to the node after it and back; where it was the head or the tail,
    /// its neighbour takes that place. The node itself keeps its stale
    /// links, and the page map, the free slots and the capacity stay.
    pub fn unlink(&mut self, idx: usize, Ghost(k): Ghost<int>)
        requires
            old(self).list_wf(),
            0 <= k < old(self).node_order().len(),
            old(self).node_order()[k] == idx,
        ensures
            final(self).list_wf(),
            final(self).node_order() == old(self).node_order().remove(k),
            k > 0 ==> final(self).next_link(old(self).node_order()[k - 1] as int) == old(self).next_link(
                idx as int,
            ),
            k + 1 < old(self).node_order().len() ==> final(self).prev_link(
                old(self).node_order()[k + 1] as int,
            ) == old(self).prev_link(idx as int),
            final(self).head_slot() == (if k == 0 {
                old(self).next_link(idx as int)
            } else {
                old(self).head_slot()
            }),
            final(self).tail_slot() == (if k + 1 == old(self).node_order().len() {
                old(self).prev_link(idx as int)
            } else {
                old(self).tail_slot()
            }),
            final(self).same_bookkeeping(*old(self)),
    {
        let ghost ord = self.order@;
        let prev_idx = self.arena[idx].prev;
        let next_idx = self.arena[idx].next;
        match prev_idx {
            Some(p_idx) => {
                let mut node = self.arena[p_idx];
                node.next = next_idx;
                self.arena.set(p_idx, node);
            },
            None => {
                self.head = next_idx;
            },
        }
        match next_idx {
            Some(n_idx) => {
                let mut node = self.arena[n_idx];
                node.prev = prev_idx;
                self.arena.set(n_idx, node);
            },
            None => {
                self.tail = prev_idx;
            },
        }
        self.order = Ghost(ord.remove(k));
        proof {
            let nord = self.order@;
            assert forall|j: int| 0 <= j < nord.len() implies nord[j] == (if j < k {
                ord[j]
            } else {
                ord[j + 1]
            }) by {}
            assert forall|j: int| 0 <= j < nord.len() implies #[trigger] nord[j] < self.arena@.len() by {
                if j >= k {
                    assert(nord[j] == ord[j + 1]);
                }
            }
            assert forall|k1: int, k2: int| 0 <= k1 < k2 < nord.len() implies #[trigger] nord[k1]
                != #[trigger] nord[k2] by {
                if k1 < k {
                    assert(nord[k1] == ord[k1]);
                } else {
                    assert(nord[k1] == ord[k1 + 1]);
                }
                if k2 < k {
                    assert(nord[k2] == ord[k2]);
                } else {
                    assert(nord[k2] == ord[k2 + 1]);
                }
            }
            assert forall|j: int| 0 <= j < nord.len() implies (#[trigger] self.arena@[nord[j] as int]).prev
                == (if j == 0 { None } else { Some(nord[j - 1]) }) by {
                if j < k {
                    assert(nord[j] == ord[j]);
                    assert(old(self).arena@[ord[j] as int].prev == (if j == 0 { None } else { Some(ord[j - 1]) }));
                    if j > 0 {
                        assert(ord[j] != ord[j - 1]);
                    }
                } else {
                    assert(nord[j] == ord[j + 1]);
                    assert(old(self).arena@[ord[j + 1] as int].prev == Some(ord[j]));
                    if j > k {
                        assert(ord[j + 1] != ord[k - 1] || k == 0);
                    }
                }
            }
            assert forall|j: int| 0 <= j < nord.len() implies (#[trigger] self.arena@[nord[j] as int]).next
                == (if j == nord.len() - 1 { None } else { Some(nord[j + 1]) }) by {
                if j < k {
                    assert(nord[j] == ord[j]);
                    assert(old(self).arena@[ord[j] as int].next == Some(ord[j + 1]));
                    if j < k - 1 {
                        assert(ord[j] != ord[k + 1] || k + 1 >= ord.len());
                    }
                } else {
                    assert(nord[j] == ord[j + 1]);
                    assert(old(self).arena@[ord[j + 1] as int].next == (if j + 1 == ord.len() - 1 {
                        None
                    } else {
                        Some(ord[j + 2])
                    }));
                }
            }
        }
    }
}

impl LruReplacer {
    /// Where a page is tracked, its position in the order and its node.
    proof fn lemma_find(&self, p: u64) -> (k: int)
        requires
            self.wf(),
            self.pages@.contains_key(p),
        ensures
            0 <= k < self.order@.len(),
            self.order@[k] == self.pages@[p],
            self@[k] == p,
            self@.contains(p),
            self@.index_of(p) == k,
            remove_page(self@, p) == self@.remove(k),
    {
        self.lemma_wf_bounds();
        let k = choose|k: int| 0 <= k < self.order@.len() && #[trigger] self.order@[k] == self.pages@[p];
        assert(self@[k] == p);
        let i = self@.index_of(p);
        assert(self@[i] == p);
        k
    }

    /// A page that the map does not hold is not tracked.
    proof fn lemma_absent(&self, p: u64)
        requires
            self.wf(),
            !self.pages@.contains_key(p),
        ensures
            !self@.contains(p),
            remove_page(self@, p) == self@,
    {
        if self@.contains(p) {
            let k = choose|k: int| 0 <= k < self@.len() && self@[k] == p;
            assert(self.pages@.contains_key(self.arena@[self.order@[k] as int].page_id.0));
        }
    }

    /// Records an access to `page_id`, which becomes the most recently used
    /// page. A page not tracked yet is added, which needs room under the
    /// capacity.
    pub fn record_access(&mut self, page_id: PageId)
        requires
            old(self).wf(),
            old(self)@.contains(page_id.0) || old(self)@.len() < old(self).spec_capacity(),
        ensures
            final(self).wf(),
            final(self)@ == touch(old(self)@, page_id.0),
            final(self).spec_capacity() == old(self).spec_capacity(),
    {
        let p = page_id.0;
        let ghost old_view = self@;
        let ghost ord = self.order@;
        match self.pages.get(&p) {
            Some(idx_ref) => {
                let idx = *idx_ref;
                let ghost k = self.lemma_find(p);
                self.unlink(idx, Ghost(k));
                self.insert_head(idx);
                proof {
                    let nord = self.order@;
                    assert(nord =~= seq![idx] + ord.remove(k));
                    assert(self@ =~= touch(old_view, p)) by {
                        assert(self@[0] == p);
                        assert forall|j: int| 1 <= j < self@.len() implies self@[j] == old_view.remove(k)[j - 1] by {
                            assert(nord[j] == ord.remove(k)[j - 1]);
                        }
                    }
                    self.lemma_map_wf_after_move(*old(self), k);
                }
            },
            None => {
                proof {
                    self.lemma_absent(p);
                }
                let node = LruNode { prev: None, page_id, next: None };
                let new_idx = match self.free_list.pop() {
                    Some(free_idx) => {
                        self.arena.set(free_idx, node);
                        free_idx
                    },
                    None => {
                        let n = self.arena.len();
                        self.arena.push(node);
                        n
                    },
                };
                let ghost mid = *self;
                proof {
                    assert forall|k: int| 0 <= k < ord.len() implies #[trigger] ord[k] != new_idx by {
                        if new_idx < old(self).arena@.len() {
                            assert(old(self).free_list@.last() == new_idx);
                            assert(old(self).free_list@[old(self).free_list@.len() - 1] == new_idx);
                        }
                    }
                    assert forall|k: int| 0 <= k < ord.len() implies #[trigger] self.arena@[ord[k] as int]
                        == old(self).arena@[ord[k] as int] by {}
                    assert(self.list_wf());
                }
                self.pages.insert(p, new_idx);
                self.insert_head(new_idx);
                proof {
                    let nord = self.order@;
                    assert(self@ =~= touch(old_view, p)) by {
                        assert forall|j: int| 1 <= j < self@.len() implies self@[j] == old_view[j - 1] by {
                            assert(nord[j] == ord[j - 1]);
                            assert(mid.arena@[ord[j - 1] as int] == old(self).arena@[ord[j - 1] as int]);
                        }
                    }
                    self.lemma_map_wf_after_add(*old(self), new_idx, p);
                }
            },
        }
    }

    /// After moving the node at position `k` to the head, the page map and
    /// free list still fit the list.
    #[verifier::rlimit(40)]
    proof fn lemma_map_wf_after_move(&self, pre: LruReplacer, k: int)
        requires
            pre.wf(),
            self.list_wf(),
            0 <= k < pre.order@.len(),
            self.order@ == seq![pre.order@[k]] + pre.order@.remove(k),
            same_page_ids(self.arena@, pre.arena@),
            self.pages@ == pre.pages@,
            self.free_list@ == pre.free_list@,
            self.capacity == pre.capacity,
        ensures
            self.map_wf(),
    {
        let ord = pre.order@;
        let nord = self.order@;
        assert forall|j: int| 0 <= j < nord.len() implies #[trigger] nord[j] == ord[
            if j == 0 { k } else if j - 1 < k { j - 1 } else { j }
        ] by {}
        assert forall|j: int| 0 <= j < nord.len() implies {
            let p = #[trigger] self.arena@[nord[j] as int].page_id.0;
            self.pages@.contains_key(p) && self.pages@[p] == nord[j]
        } by {
            let i = if j == 0 { k } else if j - 1 < k { j - 1 } else { j };
            assert(nord[j] == ord[i]);
            assert(pre.arena@[ord[i] as int].page_id == self.arena@[ord[i] as int].page_id);
        }
        assert forall|p: u64| #[trigger] self.pages@.contains_key(p) implies exists|j: int|
            0 <= j < nord.len() && #[trigger] nord[j] == self.pages@[p] by {
            let i = choose|i: int| 0 <= i < ord.len() && #[trigger] ord[i] == pre.pages@[p];
            let j = if i == k { 0 } else if i < k { i + 1 } else { i };
            assert(nord[j] == ord[i]);
        }
        assert forall|p: u64| #[trigger] self.pages@.contains_key(p) implies self.arena@[self.pages@[p] as int].page_id.0 == p by {
            let i = choose|i: int| 0 <= i < ord.len() && #[trigger] ord[i] == pre.pages@[p];
            assert(pre.pages@[p] < pre.arena@.len());
            assert(pre.arena@[pre.pages@[p] as int].page_id == self.arena@[pre.pages@[p] as int].page_id);
        }
        assert forall|j: int, i: int| 0 <= j < self.free_list@.len() && 0 <= i < nord.len() implies #[trigger] self.free_list@[j] != #[trigger] nord[i] by {
            let i2 = if i == 0 { k } else if i - 1 < k { i - 1 } else { i };
            assert(nord[i] == ord[i2]);
            assert(pre.free_list@[j] != ord[i2]);
        }
    }

    /// After adding a new node at `idx` for page `p` at the head, the page map
    /// and free list fit the list.
    proof fn lemma_map_wf_after_add(&self, pre: LruReplacer, idx: usize, p: u64)
        requires
            pre.wf(),
            self.list_wf(),
            !pre.pages@.contains_key(p),
            pre.order@.len() < pre.capacity,
            self.order@ == seq![idx] + pre.order@,
            self.arena@[idx as int].page_id.0 == p,
            forall|k: int| 0 <= k < pre.order@.len() ==> #[trigger] pre.order@[k] != idx,
            forall|k: int| 0 <= k < pre.order@.len() ==> #[trigger] self.arena@[pre.order@[k] as int].page_id == pre.arena@[pre.order@[k] as int].page_id,
            forall|q: u64| #[trigger] pre.pages@.contains_key(q) ==> self.arena@[pre.pages@[q] as int].page_id == pre.arena@[pre.pages@[q] as int].page_id,
            pre.arena@.len() <= self.arena@.len(),
            self.pages@ == pre.pages@.insert(p, idx),
            (self.free_list@ == pre.free_list@.drop_last() && pre.free_list@.len() > 0 && pre.free_list@.last() == idx)
                || (self.free_list@ == pre.free_list@ && idx == pre.arena@.len()),
            self.capacity == pre.capacity,
        ensures
            self.map_wf(),
    {
        let ord = pre.order@;
        let nord = self.order@;
        assert forall|j: int| 0 <= j < nord.len() implies {
            let q = #[trigger] self.arena@[nord[j] as int].page_id.0;
            self.pages@.contains_key(q) && self.pages@[q] == nord[j]
        } by {
            if j > 0 {
                assert(nord[j] == ord[j - 1]);
                let q = pre.arena@[ord[j - 1] as int].page_id.0;
                assert(pre.pages@.contains_key(q));
            }
        }
        assert forall|q: u64| #[trigger] self.pages@.contains_key(q) implies exists|k: int|
            0 <= k < nord.len() && #[trigger] nord[k] == self.pages@[q] by {
            if q == p {
                assert(nord[0] == self.pages@[q]);
            } else {
                let k = choose|k: int| 0 <= k < ord.len() && #[trigger] ord[k] == pre.pages@[q];
                assert(nord[k + 1] == self.pages@[q]);
            }
        }
        assert forall|j: int| 0 <= j < self.free_list@.len() implies #[trigger] self.free_list@[j] < self.arena@.len() by {
            assert(self.free_list@[j] == pre.free_list@[j]);
        }
        assert forall|j: int, i: int| 0 <= j < self.free_list@.len() && 0 <= i < nord.len() implies #[trigger] self.free_list@[j] != #[trigger] nord[i] by {
            assert(self.free_list@[j] == pre.free_list@[j]);
            if i == 0 {
                if pre.free_list@.len() > 0 && self.free_list@.len() < pre.free_list@.len() {
                    assert(pre.free_list@[j] != pre.free_list@[pre.free_list@.len() - 1]);
                }
            } else {
                assert(nord[i] == ord[i - 1]);
            }
        }
        assert(self.free_list@.no_duplicates());
    }

    /// Stops tracking `page_id`; a page not tracked is ignored.
    pub fn remove(&mut self, page_id: PageId)
        requires
            old(self).wf(),
        ensures
            final(self).wf(),
            final(self)@ == remove_page(old(self)@, page_id.0),
            final(self).spec_capacity() == old(self).spec_capacity(),
    {
        let p = page_id.0;
        let ghost pre = *self;
        if self.pages.contains_key(&p) {
            let ghost k = self.lemma_find(p);
            let idx = match self.pages.remove(&p) {
                Some(idx) => idx,
                None => {
                    assert(false);
                    0
                },
            };
            self.unlink(idx, Ghost(k));
            self.free_list.push(idx);
            proof {
                self.lemma_after_drop(pre, k, p);
            }
        } else {
            proof {
                self.lemma_absent(p);
            }
        }
    }

    /// After dropping the node at position `k`, for page `p`, the replacer is
    /// well formed and its order lost exactly that page.
    proof fn lemma_after_drop(&self, pre: LruReplacer, k: int, p: u64)
        requires
            pre.wf(),
            self.list_wf(),
            0 <= k < pre.order@.len(),
            pre@[k] == p,
            pre.pages@[p] == pre.order@[k],
            self.order@ == pre.order@.remove(k),
            same_page_ids(self.arena@, pre.arena@),
            self.pages@ == pre.pages@.remove(p),
            self.free_list@ == pre.free_list@.push(pre.order@[k]),
            self.capacity == pre.capacity,
        ensures
            self.wf(),
            self@ == pre@.remove(k),
    {
        pre.lemma_wf_bounds();
        let ord = pre.order@;
        let nord = self.order@;
        let idx = ord[k];
        assert forall|j: int| 0 <= j < nord.len() implies nord[j] == (if j < k { ord[j] } else { ord[j + 1] }) by {}
        assert(self@ =~= pre@.remove(k)) by {
            assert forall|j: int| 0 <= j < self@.len() implies self@[j] == pre@.remove(k)[j] by {
                if j < k {
                    assert(nord[j] == ord[j]);
                } else {
                    assert(nord[j] == ord[j + 1]);
                }
            }
        }
        assert forall|j: int| 0 <= j < nord.len() implies {
            let q = #[trigger] self.arena@[nord[j] as int].page_id.0;
            self.pages@.contains_key(q) && self.pages@[q] == nord[j]
        } by {
            let i = if j < k { j } else { j + 1 };
            assert(nord[j] == ord[i]);
            assert(pre@[i] != pre@[k]);
            assert(pre@[i] == pre.arena@[ord[i] as int].page_id.0);
        }
        assert forall|q: u64| #[trigger] self.pages@.contains_key(q) implies exists|j: int|
            0 <= j < nord.len() && #[trigger] nord[j] == self.pages@[q] by {
            let i = choose|i: int| 0 <= i < ord.len() && #[trigger] ord[i] == pre.pages@[q];
            if i == k {
                assert(pre.arena@[pre.pages@[q] as int].page_id.0 == q);
                assert(pre@[k] == q);
            } else if i < k {
                assert(nord[i] == self.pages@[q]);
            } else {
                assert(nord[i - 1] == self.pages@[q]);
            }
        }
        assert forall|q: u64| #[trigger] self.pages@.contains_key(q) implies self.arena@[self.pages@[q] as int].page_id.0 == q by {
            assert(pre.pages@.contains_key(q));
            let i = choose|i: int| 0 <= i < ord.len() && #[trigger] ord[i] == pre.pages@[q];
            assert(pre.pages@[q] < pre.arena@.len());
        }
        assert forall|j: int, i: int| 0 <= j < self.free_list@.len() && 0 <= i < nord.len() implies #[trigger] self.free_list@[j] != #[trigger] nord[i] by {
            let i2 = if i < k { i } else { i + 1 };
            assert(nord[i] == ord[i2]);
            if j < pre.free_list@.len() {
                assert(self.free_list@[j] == pre.free_list@[j]);
            } else {
                assert(self.free_list@[j] == ord[k]);
            }
        }
        assert forall|j: int| 0 <= j < self.free_list@.len() implies #[trigger] self.free_list@[j] < self.arena@.len() by {
            if j < pre.free_list@.len() {
                assert(self.free_list@[j] == pre.free_list@[j]);
            }
        }
        assert(self.free_list@.no_duplicates()) by {
            assert forall|a: int, b: int| 0 <= a < b < self.free_list@.len() implies self.free_list@[a] != self.free_list@[b] by {
                if b == pre.free_list@.len() {
                    assert(pre.free_list@[a] != ord[k]);
                }
            }
        }
    }

    /// Takes the least recently used page out of the replacer and returns it;
    /// `None` where no page is tracked.
    pub fn evict(&mut self) -> (victim: Option<PageId>)
        requires
            old(self).wf(),
        ensures
            final(self).wf(),
            final(self).spec_capacity() == old(self).spec_capacity(),
            match victim {
                None => old(self)@.len() == 0 && final(self)@ == old(self)@,
                Some(p) => old(self)@.len() > 0 && p.0 == old(self)@.last() && final(self)@
                    == old(self)@.drop_last(),
            },
    {
        let ghost pre = *self;
        let t_idx = match self.tail {
            Some(t) => t,
            None => return None,
        };
        let page_id = self.arena[t_idx].page_id;
        let ghost k = self.order@.len() - 1;
        let p = page_id.0;
        proof {
            assert(self.pages@[p] == t_idx);
        }
        self.unlink(t_idx, Ghost(k));
        self.pages.remove(&p);
        self.free_list.push(t_idx);
        proof {
            self.lemma_after_drop(pre, k, p);
            assert(pre@.remove(k) =~= pre@.drop_last());
        }
        Some(page_id)
    }
}

/// The position, among the first `n` pages of `s`, of the last page that
/// `held` does not hold; -1 where every one of them is held.
pub open spec fn victim_index(s: Seq<u64>, held: Seq<u64>, n: int) -> int
    decreases n,
{
    if n <= 0 {
        -1
    } else if !held.contains(s[n - 1]) {
        n - 1
    } else {
        victim_index(s, held, n - 1)
    }
}

/// The victim index is a real position of an unheld page, behind which
/// every page is held.
pub proof fn lemma_victim_index(s: Seq<u64>, held: Seq<u64>, n: int)
    requires
        0 <= n <= s.len(),
    ensures
        -1 <= victim_index(s, held, n) < n,
        victim_index(s, held, n) >= 0 ==> !held.contains(s[victim_index(s, held, n)]),
        forall|j: int| victim_index(s, held, n) < j < n ==> held.contains(#[trigger] s[j]),
    decreases n,
{
    if n > 0 && held.contains(s[n - 1]) {
        lemma_victim_index(s, held, n - 1);
    }
}

/// Whether `held` lists the page `p`.
pub fn holds_page(held: &Vec<u64>, p: u64) -> (r: bool)
    ensures
        r == held@.contains(p),
{
    let mut i: usize = 0;
    while i < held.len()
        invariant
            0 <= i <= held@.len(),
            forall|j: int| 0 <= j < i ==> held@[j] != p,
        decreases held@.len() - i,
    {
        if held[i] == p {
            assert(held@[i as int] == p);
            return true;
        }
        i = i + 1;
    }
    false
}

impl LruReplacer {
    /// Takes the least recently used page that `held` does not list out of
    /// the replacer and returns it; `None`, with nothing changed, where every
    /// tracked page is held.
    pub fn evict_unheld(&mut self, held: &Vec<u64>) -> (victim: Option<PageId>)
        requires
            old(self).wf(),
        ensures
            final(self).wf(),
            final(self).spec_capacity() == old(self).spec_capacity(),
            match victim {
                None => victim_index(old(self)@, held@, old(self)@.len() as int) == -1
                    && final(self)@ == old(self)@,
                Some(p) => {
                    let k = victim_index(old(self)@, held@, old(self)@.len() as int);
                    &&& 0 <= k < old(self)@.len()
                    &&& p.0 == old(self)@[k]
                    &&& final(self)@ == old(self)@.remove(k)
                },
            },
    {
        let ghost pre = *self;
        let ghost len = self@.len() as int;
        let mut cur = self.tail;
        let ghost mut k: int = len - 1;
        while cur.is_some()
            invariant
                *self == pre,
                *old(self) == pre,
                pre.wf(),
                len == pre@.len(),
                -1 <= k < len,
                cur == (if k >= 0 { Some(pre.order@[k]) } else { None::<usize> }),
                victim_index(pre@, held@, len) == victim_index(pre@, held@, k + 1),
            decreases k + 1,
        {
            let idx = match cur {
                Some(i) => i,
                None => 0,
            };
            let page_id = self.arena[idx].page_id;
            let p = page_id.0;
            if !holds_page(held, p) {
                proof {
                    assert(pre@[k] == p);
                    assert(self.pages@[p] == idx);
                }
                self.unlink(idx, Ghost(k));
                self.pages.remove(&p);
                self.free_list.push(idx);
                proof {
                    self.lemma_after_drop(pre, k, p);
                }
                return Some(page_id);
            }
            proof {
                assert(pre@[k] == p);
                assert(pre.arena@[pre.order@[k] as int].prev == (if k == 0 { None } else { Some(pre.order@[k - 1]) }));
            }
            cur = self.arena[idx].prev;
            proof {
                k = k - 1;
            }
        }
        None
    }
}

/// The order after accessing the pages of `ps` in turn, starting from `s`.
pub open spec fn touch_all(s: Seq<u64>, ps: Seq<u64>) -> Seq<u64>
    decreases ps.len(),
{
    if ps.len() == 0 {
        s
    } else {
        touch(touch_all(s, ps.drop_last()), ps.last())
    }
}

/// Where `s` holds `p` once, taking it out keeps the others in order.
proof fn lemma_remove_page_at(s: Seq<u64>, p: u64, k: int)
    requires
        s.no_duplicates(),
        0 <= k < s.len(),
        s[k] == p,
    ensures
        remove_page(s, p) == s.remove(k),
{
    let i = s.index_of(p);
    assert(s[i] == p);
}

/// Accessing pages one after another, each once, on an empty replacer
/// orders them most recent first, so eviction returns them in the order in
/// which they were accessed.
pub proof fn lemma_access_order(ps: Seq<u64>)
    requires
        ps.no_duplicates(),
    ensures
        touch_all(Seq::empty(), ps).len() == ps.len(),
        forall|i: int|
            0 <= i < ps.len() ==> #[trigger] touch_all(Seq::empty(), ps)[i] == ps[ps.len() - 1 - i],
    decreases ps.len(),
{
    if ps.len() > 0 {
        let prev = ps.drop_last();
        assert(prev.no_duplicates());
        lemma_access_order(prev);
        let t = touch_all(Seq::<u64>::empty(), prev);
        if t.contains(ps.last()) {
            let k = choose|k: int| 0 <= k < t.len() && t[k] == ps.last();
            assert(t[k] == prev[prev.len() - 1 - k]);
        }
        assert(remove_page(t, ps.last()) == t);
    }
}

/// An access to any page but the least recently used one leaves the
/// eviction candidate unchanged.
pub proof fn lemma_access_spares_victim(s: Seq<u64>, p: u64)
    requires
        s.no_duplicates(),
        s.len() > 0,
        p != s.last(),
    ensures
        touch(s, p).last() == s.last(),
{
    if s.contains(p) {
        let k = choose|k: int| 0 <= k < s.len() && s[k] == p;
        lemma_remove_page_at(s, p, k);
    }
}

/// An access to the least recently used page makes the next oldest page the
/// eviction candidate.
pub proof fn lemma_access_rescues_victim(s: Seq<u64>)
    requires
        s.no_duplicates(),
        s.len() >= 2,
    ensures
        touch(s, s.last()).last() == s[s.len() - 2],
        touch(s, s.last())[0] == s.last(),
{
    lemma_remove_page_at(s, s.last(), s.len() - 1);
}

/// Removing a page just added by an access restores the previous order.
pub proof fn lemma_remove_undoes_access(s: Seq<u64>, p: u64)
    requires
        !s.contains(p),
    ensures
        remove_page(touch(s, p), p) == s,
{
    let t = touch(s, p);
    assert(t[0] == p);
    let i = t.index_of(p);
    if i > 0 {
        assert(s[i - 1] == p);
    }
    assert(t.remove(0) =~= s);
}

} // verus!
