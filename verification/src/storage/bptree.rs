//! The B+ tree's steps over cached pages: one level of a search, inserting
//! into a leaf, splitting a full leaf into a new right sibling, and linking
//! the old right sibling back. Fetching pages is the caller's.
use crate::error::DbError;
use crate::storage::buffer_pool::BufferPool;
use crate::storage::layout::{leaf_used_len, record_cell_len};
use crate::storage::leaf::{
    count_less, lemma_count_less, lemma_count_less_splits, lemma_insert_slot, lemma_sorted_parts,
    lemma_with_records_used, has_key, has_live_key, leaf_insert_spec, leaf_ok, link_split, new_record, route_spec,
    slot_records, with_records,
};
use crate::storage::page::{
    BTreeNode, LeafView, NodeView, PageId, MAX_VALUE_SIZE, PAGE_SIZE, SLOT_ELEM_SIZE,
};
use vstd::prelude::*;

verus! {

/// Tells the parent routing nodes that a leaf split in two.
#[derive(Debug, Clone, PartialEq, Eq, Structural)]
pub struct SplitResult {
    /// The key that divides the left and the right leaf.
    pub promoted_row_id: u64,
    /// The page of the new right sibling leaf.
    pub new_page_id: PageId,
}

/// One level of a search.
#[derive(Debug)]
pub enum SearchStep {
    /// The search goes on in this child page.
    Descend(PageId),
    /// The search ended in a leaf, with the value found, if any.
    Found(Option<Vec<u8>>),
}

/// An insertion of `row_id` with value `data` into the leaf succeeds.
pub open spec fn insert_fits(v: LeafView, row_id: u32, data: Seq<u8>) -> bool {
    &&& data.len() <= MAX_VALUE_SIZE
    &&& !has_key(slot_records(v), row_id)
    &&& leaf_used_len(v) + SLOT_ELEM_SIZE + record_cell_len(new_record(row_id, data)) <= PAGE_SIZE
}

/// The leaf with its dirty flag set and `lsn` as its last update.
pub open spec fn dirtied(v: LeafView, lsn: u64) -> LeafView {
    LeafView { is_dirty: true, last_lsn: lsn, ..v }
}

/// The half of the records that stays in a split leaf.
pub open spec fn split_left(v: LeafView) -> LeafView {
    with_records(v, slot_records(v).take(slot_records(v).len() as int / 2))
}

/// The half of the records that moves into the empty leaf `r`.
pub open spec fn split_right(v: LeafView, r: LeafView) -> LeafView {
    with_records(r, slot_records(v).skip(slot_records(v).len() as int / 2))
}

/// The key that divides the halves of a split leaf.
pub open spec fn split_key(v: LeafView) -> u32 {
    slot_records(v)[slot_records(v).len() as int / 2].key
}

/// Both pages are cached and distinct: `leaf` a well-formed leaf that fits
/// its page, `new` an empty leaf.
pub open spec fn split_pages_ok(c: Map<u64, NodeView>, leaf: u64, new: u64) -> bool {
    &&& leaf != new
    &&& c.contains_key(leaf)
    &&& c.contains_key(new)
    &&& c[leaf] is Leaf
    &&& leaf_ok(c[leaf]->Leaf_0)
    &&& leaf_used_len(c[leaf]->Leaf_0) <= PAGE_SIZE
    &&& c[new] is Leaf
    &&& c[new]->Leaf_0.records.len() == 0
    &&& c[new]->Leaf_0.slot_array.len() == 0
}

/// The record goes into the left half of the split.
pub open spec fn goes_left(v: LeafView, row_id: u32) -> bool {
    row_id < split_key(v)
}

/// The half of the split leaf `v` (into the empty leaf `r`) that receives `row_id`.
pub open spec fn receiving_half(v: LeafView, r: LeafView, row_id: u32) -> LeafView {
    if goes_left(v, row_id) {
        split_left(v)
    } else {
        split_right(v, r)
    }
}

/// The left leaf after a split that made room for `row_id`, linked on to
/// the new page `new` and dirtied with `lsn`.
pub open spec fn left_after_split(v: LeafView, new: u64, row_id: u32, data: Seq<u8>, lsn: u64) -> LeafView {
    let l = if goes_left(v, row_id) {
        leaf_insert_spec(split_left(v), row_id, data)
    } else {
        split_left(v)
    };
    dirtied(LeafView { has_next: true, next_page_id: new, ..l }, lsn)
}

/// The new right leaf after a split of the leaf `v` on page `leaf`, linked
/// back to it and on to its old right sibling, and dirtied with `lsn`.
pub open spec fn right_after_split(
    v: LeafView,
    r: LeafView,
    leaf: u64,
    row_id: u32,
    data: Seq<u8>,
    lsn: u64,
) -> LeafView {
    let w = if goes_left(v, row_id) {
        split_right(v, r)
    } else {
        leaf_insert_spec(split_right(v, r), row_id, data)
    };
    dirtied(
        LeafView {
            has_prev: true,
            prev_page_id: leaf,
            has_next: v.has_next,
            next_page_id: v.next_page_id,
            ..w
        },
        lsn,
    )
}

/// A split that makes room keeps every record of the leaf and adds the new
/// one: the two leaves list, left then right, the old records in key order
/// with the new record at its key-order place. Both leaves are well formed,
/// every left key is below the promoted key and every right key at least it.
#[verifier::rlimit(40)]
pub proof fn lemma_split_keeps_records(
    v: LeafView,
    r: LeafView,
    leaf: u64,
    new: u64,
    row_id: u32,
    data: Seq<u8>,
    lsn: u64,
)
    requires
        leaf_ok(v),
        v.slot_array.len() >= 2,
        leaf_used_len(v) <= PAGE_SIZE,
        r.records.len() == 0,
        r.slot_array.len() == 0,
        insert_fits(receiving_half(v, r, row_id), row_id, data),
    ensures
        ({
            let rs = slot_records(v);
            let l = left_after_split(v, new, row_id, data, lsn);
            let w = right_after_split(v, r, leaf, row_id, data, lsn);
            &&& slot_records(l) + slot_records(w) == rs.insert(
                count_less(rs, row_id),
                new_record(row_id, data),
            )
            &&& leaf_ok(l)
            &&& leaf_ok(w)
            &&& forall|i: int| 0 <= i < slot_records(l).len() ==> #[trigger] slot_records(l)[i].key < split_key(v)
            &&& forall|i: int| 0 <= i < slot_records(w).len() ==> split_key(v) <= #[trigger] slot_records(w)[i].key
        }),
{
    let rs = slot_records(v);
    let n = rs.len() as int;
    let mid = n / 2;
    let big_l = rs.take(mid);
    let big_r = rs.skip(mid);
    let key = split_key(v);
    let rec = new_record(row_id, data);
    let sl = split_left(v);
    let sr = split_right(v, r);
    assert(key == rs[mid].key);
    lemma_sorted_parts(rs, mid);
    lemma_with_records_used(v, big_l);
    lemma_with_records_used(r, big_r);
    assert(slot_records(sl) == big_l);
    assert(slot_records(sr) == big_r);
    assert(leaf_ok(sl));
    assert(leaf_ok(sr));
    let l = left_after_split(v, new, row_id, data, lsn);
    let w = right_after_split(v, r, leaf, row_id, data, lsn);
    if goes_left(v, row_id) {
        let ins = leaf_insert_spec(sl, row_id, data);
        lemma_count_less_splits(big_l, row_id);
        let c = count_less(big_l, row_id);
        lemma_insert_slot(sl, ins, c, rec);
        assert(slot_records(l) == slot_records(ins));
        assert(slot_records(w) == slot_records(sr));
        assert forall|i: int| c <= i < n implies row_id <= #[trigger] rs[i].key by {
            if i < mid {
                assert(rs[i] == big_l[i]);
            } else {
                assert(rs[i] == big_r[i - mid]);
            }
        }
        assert forall|i: int| 0 <= i < c implies #[trigger] rs[i].key < row_id by {
            assert(rs[i] == big_l[i]);
        }
        lemma_count_less(rs, row_id, c);
        assert(big_l.insert(c, rec) + big_r =~= rs.insert(c, rec));
        assert forall|i: int| 0 <= i < slot_records(l).len() implies #[trigger] slot_records(l)[i].key < key by {
            if i < c {
                assert(slot_records(l)[i] == big_l[i]);
            } else if i > c {
                assert(slot_records(l)[i] == big_l[i - 1]);
            }
        }
        assert(leaf_ok(l));
        assert(leaf_ok(w));
    } else {
        let ins = leaf_insert_spec(sr, row_id, data);
        lemma_count_less_splits(big_r, row_id);
        let c = count_less(big_r, row_id);
        lemma_insert_slot(sr, ins, c, rec);
        assert(slot_records(w) == slot_records(ins));
        assert(slot_records(l) == slot_records(sl));
        assert forall|i: int| mid + c <= i < n implies row_id <= #[trigger] rs[i].key by {
            assert(rs[i] == big_r[i - mid]);
        }
        assert forall|i: int| 0 <= i < mid + c implies #[trigger] rs[i].key < row_id by {
            if i < mid {
                assert(rs[i] == big_l[i]);
            } else {
                assert(rs[i] == big_r[i - mid]);
            }
        }
        lemma_count_less(rs, row_id, mid + c);
        assert(big_l + big_r.insert(c, rec) =~= rs.insert(mid + c, rec));
        assert forall|i: int| 0 <= i < slot_records(w).len() implies key <= #[trigger] slot_records(w)[i].key by {
            if i < c {
                assert(slot_records(w)[i] == big_r[i]);
            } else if i > c {
                assert(slot_records(w)[i] == big_r[i - 1]);
            }
        }
        assert(leaf_ok(l));
        assert(leaf_ok(w));
    }
}

/// A B+ tree over the pages of a buffer pool, known by its root page.
pub struct BpTree {
    root_page_id: PageId,
}

impl BpTree {
    /// The page id of the root.
    pub closed spec fn root(&self) -> u64 {
        self.root_page_id.0
    }

    /// A tree rooted at `root_page_id`.
    pub fn new(root_page_id: PageId) -> (tree: Self)
        ensures
            tree.root() == root_page_id.0,
    {
        BpTree { root_page_id }
    }

    /// The page id of the root.
    pub fn get_root_id(&self) -> (id: PageId)
        ensures
            id.0 == self.root(),
    {
        self.root_page_id
    }

    /// One level of a search for `row_id` on the cached page `page_id`: an
    /// internal node names the child to descend into, a leaf gives the value
    /// of the live record with that key, if any. `PageNotFound` where the page
    /// is not cached.
    pub fn search_page(pool: &BufferPool, page_id: PageId, row_id: u32) -> (r: Result<SearchStep, DbError>)
        requires
            pool.wf(),
        ensures
            !pool.cached().contains_key(page_id.0) ==> (r matches Err(DbError::PageNotFound(x)) && x == page_id.0),
            pool.cached().contains_key(page_id.0) ==> match pool.cached()[page_id.0] {
                NodeView::Internal(v) => r matches Ok(SearchStep::Descend(c)) && c.0 == route_spec(v, row_id),
                NodeView::Leaf(v) => r matches Ok(SearchStep::Found(res)) && (res is None <==> !has_live_key(
                    slot_records(v),
                    row_id,
                )) && (res matches Some(d) ==> exists|i: int|
                    0 <= i < slot_records(v).len() && #[trigger] slot_records(v)[i].key == row_id
                        && !slot_records(v)[i].is_deleted && slot_records(v)[i].data == d@),
            },
    {
        proof {
            pool.lemma_wf_order();
        }
        match pool.node(page_id) {
            None => Err(DbError::PageNotFound(page_id.0)),
            Some(BTreeNode::Internal(node)) => Ok(SearchStep::Descend(node.route_key(row_id))),
            Some(BTreeNode::Leaf(node)) => Ok(SearchStep::Found(node.get_record(row_id))),
        }
    }

    /// Inserts `row_id` with value `payload` into the cached leaf
    /// `leaf_page_id`, in key order, and marks it dirty with `lsn`. Returns
    /// `Ok(false)`, with nothing changed, where the leaf has no room for the
    /// record and must be split first. Fails, with nothing changed, with
    /// `PageNotFound` where the page is not cached, `CorruptPage` where it is
    /// an internal node or a leaf whose slot array does not list its records
    /// in key order, `TupleTooLarge` where the value is too long and
    /// `DuplicateKey` where the leaf holds a record with that key.
    pub fn insert_into_leaf(
        pool: &mut BufferPool,
        leaf_page_id: PageId,
        row_id: u32,
        payload: Vec<u8>,
        lsn: u64,
    ) -> (r: Result<bool, DbError>)
        requires
            old(pool).wf(),
        ensures
            final(pool).wf(),
            final(pool).spec_capacity() == old(pool).spec_capacity(),
            final(pool).lru_order() == old(pool).lru_order(),
            ({
                let c = old(pool).cached();
                let p = leaf_page_id.0;
                match r {
                    Ok(true) => c.contains_key(p) && (c[p] matches NodeView::Leaf(v) && leaf_ok(v)
                        && insert_fits(v, row_id, payload@) && final(pool).cached() == c.insert(
                        p,
                        NodeView::Leaf(dirtied(leaf_insert_spec(v, row_id, payload@), lsn)),
                    )),
                    Ok(false) => c.contains_key(p) && (c[p] matches NodeView::Leaf(v) && leaf_ok(v)
                        && payload@.len() <= MAX_VALUE_SIZE && !has_key(slot_records(v), row_id)
                        && leaf_used_len(v) + SLOT_ELEM_SIZE + record_cell_len(
                        new_record(row_id, payload@),
                    ) > PAGE_SIZE) && final(pool).cached() == c,
                    Err(DbError::PageNotFound(x)) => x == p && !c.contains_key(p) && final(pool).cached()
                        == c,
                    Err(DbError::CorruptPage(_)) => c.contains_key(p) && match c[p] {
                        NodeView::Internal(_) => true,
                        NodeView::Leaf(v) => !leaf_ok(v),
                    } && final(pool).cached() == c,
                    Err(DbError::TupleTooLarge(n)) => c.contains_key(p) && (c[p] matches NodeView::Leaf(v)
                        && leaf_ok(v)) && n == payload@.len() && n > MAX_VALUE_SIZE && final(pool).cached()
                        == c,
                    Err(DbError::DuplicateKey(k)) => c.contains_key(p) && (c[p] matches NodeView::Leaf(v)
                        && leaf_ok(v) && has_key(slot_records(v), row_id)) && k == row_id
                        && payload@.len() <= MAX_VALUE_SIZE && final(pool).cached() == c,
                    Err(_) => false,
                }
            }),
    {
        let ghost c = pool.cached();
        let ghost p = leaf_page_id.0;
        match pool.node(leaf_page_id) {
            None => return Err(DbError::PageNotFound(leaf_page_id.0)),
            Some(BTreeNode::Internal(_)) => {
                return Err(DbError::CorruptPage(
                    "attempted to insert data on a internal routing node".to_string(),
                ))
            },
            Some(BTreeNode::Leaf(leaf)) => {
                if !leaf.is_well_formed() {
                    return Err(DbError::CorruptPage(
                        "leaf slot array does not list its records in key order".to_string(),
                    ));
                }
            },
        }
        let placeholder = BTreeNode::new_empty(leaf_page_id, true);
        let mut leaf = match pool.replace_node(leaf_page_id, placeholder) {
            Some(BTreeNode::Leaf(l)) => l,
            _ => {
                assert(false);
                return Err(DbError::PageNotFound(leaf_page_id.0));
            },
        };
        let ghost v = leaf@;
        let res = leaf.insert_record(row_id, payload);
        let mut node = BTreeNode::Leaf(leaf);
        let ok = res.is_ok();
        if ok {
            node.mark_dirty(lsn);
        }
        let _ = pool.replace_node(leaf_page_id, node);
        proof {
            if !ok {
                assert(pool.cached() =~= c);
            } else {
                assert(pool.cached() =~= c.insert(
                    p,
                    NodeView::Leaf(dirtied(leaf_insert_spec(v, row_id, payload@), lsn)),
                ));
            }
        }
        match res {
            Ok(()) => Ok(true),
            Err(DbError::PageFull) => Ok(false),
            Err(e) => Err(e),
        }
    }

    /// Splits the full cached leaf `leaf_page_id` into the empty cached leaf
    /// `new_page_id`, inserts `row_id` with value `payload` into the half
    /// whose keys it falls among, links the new leaf between the old one and
    /// its old right sibling, and marks both dirty with `lsn`. Returns the
    /// key that divides the halves with the new page, and the old right
    /// sibling, whose back link the caller must update. Fails with nothing
    /// changed: `PageNotFound` where a page is not cached; `CorruptPage`
    /// where the pages are one, the first is not a well-formed leaf that fits
    /// its page or the second is not an empty leaf; `PageFull` where the leaf
    /// has fewer than two records or the receiving half has no room; and
    /// `TupleTooLarge` or `DuplicateKey` as the insertion reports them.
    #[verifier::rlimit(40)]
    pub fn split_leaf(
        pool: &mut BufferPool,
        leaf_page_id: PageId,
        new_page_id: PageId,
        row_id: u32,
        payload: Vec<u8>,
        lsn: u64,
    ) -> (r: Result<(SplitResult, Option<PageId>), DbError>)
        requires
            old(pool).wf(),
        ensures
            final(pool).wf(),
            final(pool).spec_capacity() == old(pool).spec_capacity(),
            final(pool).lru_order() == old(pool).lru_order(),
            r is Err ==> final(pool).cached() == old(pool).cached(),
            ({
                let c = old(pool).cached();
                let p = leaf_page_id.0;
                let q = new_page_id.0;
                let v = c[p]->Leaf_0;
                let w = c[q]->Leaf_0;
                let half = receiving_half(v, w, row_id);
                let ready = split_pages_ok(c, p, q) && v.slot_array.len() >= 2;
                match r {
                    Ok((s, next)) => {
                        &&& ready
                        &&& insert_fits(half, row_id, payload@)
                        &&& s.promoted_row_id == split_key(v)
                        &&& s.new_page_id == new_page_id
                        &&& next == (if v.has_next {
                            Some(PageId(v.next_page_id))
                        } else {
                            None
                        })
                        &&& final(pool).cached() == c.insert(
                            p,
                            NodeView::Leaf(left_after_split(v, q, row_id, payload@, lsn)),
                        ).insert(q, NodeView::Leaf(right_after_split(v, w, p, row_id, payload@, lsn)))
                    },
                    Err(DbError::PageNotFound(x)) => (x == p && !c.contains_key(p)) || (x == q
                        && c.contains_key(p) && !c.contains_key(q)),
                    Err(DbError::CorruptPage(_)) => c.contains_key(p) && c.contains_key(q)
                        && !split_pages_ok(c, p, q),
                    Err(DbError::PageFull) => split_pages_ok(c, p, q) && (v.slot_array.len() < 2 || (
                    ready && payload@.len() <= MAX_VALUE_SIZE && !has_key(slot_records(half), row_id)
                        && leaf_used_len(half) + SLOT_ELEM_SIZE + record_cell_len(
                        new_record(row_id, payload@),
                    ) > PAGE_SIZE)),
                    Err(DbError::TupleTooLarge(n)) => ready && n == payload@.len() && n > MAX_VALUE_SIZE,
                    Err(DbError::DuplicateKey(k)) => ready && k == row_id && payload@.len()
                        <= MAX_VALUE_SIZE && has_key(slot_records(half), row_id),
                    Err(_) => false,
                }
            }),
    {
        let ghost c = pool.cached();
        let ghost p = leaf_page_id.0;
        let ghost q = new_page_id.0;
        if pool.node(leaf_page_id).is_none() {
            return Err(DbError::PageNotFound(leaf_page_id.0));
        }
        if pool.node(new_page_id).is_none() {
            return Err(DbError::PageNotFound(new_page_id.0));
        }
        if leaf_page_id.0 == new_page_id.0 {
            return Err(DbError::CorruptPage("a leaf cannot be split into itself".to_string()));
        }
        let enough = match pool.node(leaf_page_id) {
            Some(BTreeNode::Leaf(l)) => {
                if !l.is_well_formed() || l.footer_len().is_none() {
                    return Err(DbError::CorruptPage(
                        "leaf slot array does not list its records in key order".to_string(),
                    ));
                }
                l.slot_array.len() >= 2
            },
            _ => {
                return Err(DbError::CorruptPage(
                    "attempted to split an internal routing node".to_string(),
                ))
            },
        };
        match pool.node(new_page_id) {
            Some(BTreeNode::Leaf(n)) => {
                if n.records.len() != 0 || n.slot_array.len() != 0 {
                    return Err(DbError::CorruptPage("new sibling leaf is not empty".to_string()));
                }
            },
            _ => {
                return Err(DbError::CorruptPage("new sibling page is not a leaf".to_string()))
            },
        }
        if !enough {
            return Err(DbError::PageFull);
        }
        let mut left = match pool.replace_node(leaf_page_id, BTreeNode::new_empty(leaf_page_id, true)) {
            Some(BTreeNode::Leaf(l)) => l,
            _ => {
                assert(false);
                return Err(DbError::PageNotFound(leaf_page_id.0));
            },
        };
        let mut right = match pool.replace_node(new_page_id, BTreeNode::new_empty(new_page_id, true)) {
            Some(BTreeNode::Leaf(l)) => l,
            _ => {
                assert(false);
                return Err(DbError::PageNotFound(new_page_id.0));
            },
        };
        let ghost v = left@;
        let ghost w = right@;
        let left_backup = crate::storage::leaf::copy_leaf(&left);
        let right_backup = crate::storage::leaf::copy_leaf(&right);
        let promoted = left.split(&mut right);
        let res = if (row_id as u64) < promoted {
            left.insert_record(row_id, payload)
        } else {
            right.insert_record(row_id, payload)
        };
        match res {
            Ok(()) => {},
            Err(e) => {
                let _ = pool.replace_node(leaf_page_id, BTreeNode::Leaf(left_backup));
                let _ = pool.replace_node(new_page_id, BTreeNode::Leaf(right_backup));
                proof {
                    assert(pool.cached() =~= c);
                }
                return Err(e);
            },
        }
        let old_next = link_split(&mut left, &mut right, leaf_page_id, new_page_id);
        let mut left_node = BTreeNode::Leaf(left);
        left_node.mark_dirty(lsn);
        let mut right_node = BTreeNode::Leaf(right);
        right_node.mark_dirty(lsn);
        let _ = pool.replace_node(leaf_page_id, left_node);
        let _ = pool.replace_node(new_page_id, right_node);
        proof {
            assert(pool.cached() =~= c.insert(
                p,
                NodeView::Leaf(left_after_split(v, q, row_id, payload@, lsn)),
            ).insert(q, NodeView::Leaf(right_after_split(v, w, p, row_id, payload@, lsn))));
        }
        Ok((SplitResult { promoted_row_id: promoted, new_page_id }, old_next))
    }

    /// Points the cached leaf `page_id`, the old right sibling of a split
    /// leaf, back to the new leaf `new_leaf_id`, and marks it dirty with
    /// `lsn`; an internal node is left alone. `PageNotFound`, with nothing
    /// changed, where the page is not cached.
    pub fn link_prev(pool: &mut BufferPool, page_id: PageId, new_leaf_id: PageId, lsn: u64) -> (r: Result<
        (),
        DbError,
    >)
        requires
            old(pool).wf(),
        ensures
            final(pool).wf(),
            final(pool).spec_capacity() == old(pool).spec_capacity(),
            final(pool).lru_order() == old(pool).lru_order(),
            ({
                let c = old(pool).cached();
                let p = page_id.0;
                match r {
                    Ok(()) => c.contains_key(p) && match c[p] {
                        NodeView::Leaf(v) => final(pool).cached() == c.insert(
                            p,
                            NodeView::Leaf(
                                dirtied(LeafView { has_prev: true, prev_page_id: new_leaf_id.0, ..v }, lsn),
                            ),
                        ),
                        NodeView::Internal(_) => final(pool).cached() == c,
                    },
                    Err(DbError::PageNotFound(x)) => x == p && !c.contains_key(p) && final(pool).cached()
                        == c,
                    Err(_) => false,
                }
            }),
    {
        let ghost c = pool.cached();
        match pool.node(page_id) {
            None => return Err(DbError::PageNotFound(page_id.0)),
            Some(BTreeNode::Internal(_)) => return Ok(()),
            Some(BTreeNode::Leaf(_)) => {},
        }
        let mut leaf = match pool.replace_node(page_id, BTreeNode::new_empty(page_id, true)) {
            Some(BTreeNode::Leaf(l)) => l,
            _ => {
                assert(false);
                return Err(DbError::PageNotFound(page_id.0));
            },
        };
        let ghost v = leaf@;
        leaf.has_prev = true;
        leaf.prev_page_id = new_leaf_id.0;
        let mut node = BTreeNode::Leaf(leaf);
        node.mark_dirty(lsn);
        let _ = pool.replace_node(page_id, node);
        proof {
            assert(pool.cached() =~= c.insert(
                page_id.0,
                NodeView::Leaf(dirtied(LeafView { has_prev: true, prev_page_id: new_leaf_id.0, ..v }, lsn)),
            ));
        }
        Ok(())
    }
}

} // verus!
