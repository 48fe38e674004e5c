//! B+ tree operations on node values: key-ordered insertion into a leaf,
//! lookup, splitting a full leaf, linking the split halves, and routing
//! through an internal node.
use crate::error::DbError;
use crate::storage::layout::{
    leaf_cells_len, leaf_free_size, leaf_used_len, named_before, record_cell_len, slots_cover,
    slots_in_range,
};
use crate::storage::page::{
    InternalView, LeafNode, LeafView, PageId, Record, RecordView, LEAF_NODE_HEADER_SIZE,
    MAX_VALUE_SIZE, PAGE_SIZE, RECORD_META_SIZE, SLOT_ELEM_SIZE, InternalNode,
};
use vstd::prelude::*;

verus! {

/// The records of the leaf in slot order, which is key order.
pub open spec fn slot_records(v: LeafView) -> Seq<RecordView> {
    Seq::new(v.slot_array.len(), |i: int| v.records[v.slot_array[i] as int])
}

/// Keys strictly increase along the sequence.
pub open spec fn keys_sorted(rs: Seq<RecordView>) -> bool {
    forall|i: int, j: int| 0 <= i < j < rs.len() ==> #[trigger] rs[i].key < #[trigger] rs[j].key
}

/// A leaf whose slot array is a permutation of its records and lists them
/// in strictly increasing key order.
pub open spec fn leaf_ok(v: LeafView) -> bool {
    &&& slots_cover(v.slot_array, v.records.len())
    &&& keys_sorted(slot_records(v))
}

/// Some record of the sequence has the key.
pub open spec fn has_key(rs: Seq<RecordView>, key: u32) -> bool {
    exists|i: int| 0 <= i < rs.len() && #[trigger] rs[i].key == key
}

/// Some record of the sequence has the key and is not deleted.
pub open spec fn has_live_key(rs: Seq<RecordView>, key: u32) -> bool {
    exists|i: int| 0 <= i < rs.len() && #[trigger] rs[i].key == key && !rs[i].is_deleted
}

/// The total size of the cells of the records.
pub open spec fn cells_len_of(rs: Seq<RecordView>) -> nat
    decreases rs.len(),
{
    if rs.len() == 0 {
        0
    } else {
        cells_len_of(rs.drop_last()) + record_cell_len(rs.last())
    }
}

/// The leaf holding exactly the records `rs`, in that order, with a slot
/// array that lists them in place and the free size that goes with them.
pub open spec fn with_records(v: LeafView, rs: Seq<RecordView>) -> LeafView {
    LeafView {
        slot_array: Seq::new(rs.len(), |i: int| i as u16),
        records: rs,
        free_size: (PAGE_SIZE - (LEAF_NODE_HEADER_SIZE + SLOT_ELEM_SIZE * rs.len() + cells_len_of(
            rs,
        ))) as u16,
        ..v
    }
}

/// The new record that an insertion stores.
pub open spec fn new_record(key: u32, data: Seq<u8>) -> RecordView {
    RecordView { key, data, is_deleted: false }
}

/// How many records of the sequence have a key below `key`.
pub open spec fn count_less(rs: Seq<RecordView>, key: u32) -> int
    decreases rs.len(),
{
    if rs.len() == 0 {
        0
    } else {
        count_less(rs.drop_last(), key) + if rs.last().key < key {
            1int
        } else {
            0int
        }
    }
}

/// The leaf after a successful insertion of a live record with key `row_id`
/// and value `data`: the record appended to the records, its index listed at
/// its key-order position in the slot array, and the free size updated.
pub open spec fn leaf_insert_spec(v: LeafView, row_id: u32, data: Seq<u8>) -> LeafView {
    LeafView {
        records: v.records.push(new_record(row_id, data)),
        slot_array: v.slot_array.insert(
            count_less(slot_records(v), row_id),
            v.records.len() as u16,
        ),
        free_size: (PAGE_SIZE - (leaf_used_len(v) + SLOT_ELEM_SIZE + RECORD_META_SIZE
            + data.len())) as u16,
        ..v
    }
}

/// Where the keys below `key` are exactly the first `pos`, `pos` counts them.
pub proof fn lemma_count_less(rs: Seq<RecordView>, key: u32, pos: int)
    requires
        0 <= pos <= rs.len(),
        forall|i: int| 0 <= i < pos ==> #[trigger] rs[i].key < key,
        forall|i: int| pos <= i < rs.len() ==> key <= #[trigger] rs[i].key,
    ensures
        count_less(rs, key) == pos,
    decreases rs.len(),
{
    if rs.len() > 0 {
        if pos == rs.len() {
            lemma_count_less(rs.drop_last(), key, pos - 1);
        } else {
            lemma_count_less(rs.drop_last(), key, pos);
        }
    }
}

/// The cells of a slot array take the room of the records it lists.
pub proof fn lemma_cells_len_slot_records(records: Seq<RecordView>, slots: Seq<u16>)
    ensures
        leaf_cells_len(records, slots) == cells_len_of(
            Seq::new(slots.len(), |i: int| records[slots[i] as int]),
        ),
    decreases slots.len(),
{
    if slots.len() > 0 {
        lemma_cells_len_slot_records(records, slots.drop_last());
        assert(Seq::new(slots.len(), |i: int| records[slots[i] as int]).drop_last() =~= Seq::new(
            slots.drop_last().len(),
            |i: int| records[slots.drop_last()[i] as int],
        ));
    }
}

/// Inserting a record adds its cell.
pub proof fn lemma_cells_len_insert(rs: Seq<RecordView>, pos: int, r: RecordView)
    requires
        0 <= pos <= rs.len(),
    ensures
        cells_len_of(rs.insert(pos, r)) == cells_len_of(rs) + record_cell_len(r),
    decreases rs.len(),
{
    if pos == rs.len() {
        assert(rs.insert(pos, r).drop_last() =~= rs);
    } else {
        lemma_cells_len_insert(rs.drop_last(), pos, r);
        assert(rs.insert(pos, r).drop_last() =~= rs.drop_last().insert(pos, r));
    }
}

/// The cells of a prefix and of the rest add up to all cells.
pub proof fn lemma_cells_len_split(rs: Seq<RecordView>, m: int)
    requires
        0 <= m <= rs.len(),
    ensures
        cells_len_of(rs.take(m)) + cells_len_of(rs.skip(m)) == cells_len_of(rs),
    decreases rs.len(),
{
    if m == rs.len() {
        assert(rs.take(m) =~= rs);
        assert(rs.skip(m) =~= Seq::<RecordView>::empty());
    } else {
        lemma_cells_len_split(rs.drop_last(), m);
        assert(rs.drop_last().take(m) =~= rs.take(m));
        assert(rs.skip(m).drop_last() =~= rs.drop_last().skip(m));
    }
}

/// The used size of a leaf with its records listed in place.
pub proof fn lemma_with_records_used(v: LeafView, rs: Seq<RecordView>)
    requires
        rs.len() <= 0x10000,
    ensures
        slots_cover(with_records(v, rs).slot_array, rs.len()),
        slot_records(with_records(v, rs)) == rs,
        leaf_used_len(with_records(v, rs)) == LEAF_NODE_HEADER_SIZE + SLOT_ELEM_SIZE * rs.len()
            + cells_len_of(rs),
{
    let w = with_records(v, rs);
    assert forall|i: int| 0 <= i < rs.len() implies (w.slot_array[i] as int) == i by {
        assert((i as u16) as int == i);
    }
    assert(slot_records(w) =~= rs);
    assert forall|j: int| 0 <= j < rs.len() implies named_before(w.slot_array, rs.len() as int, j) by {
        assert(w.slot_array[j] as int == j);
    }
    lemma_cells_len_slot_records(w.records, w.slot_array);
}

/// The child that a search for `row_id` follows from position `i` of the
/// slot order on: the child of the first entry whose key exceeds `row_id`,
/// or the rightmost child where none does.
pub open spec fn route_from(v: InternalView, row_id: u32, i: int) -> u64
    decreases v.slot_array.len() - i,
{
    if i < 0 || i >= v.slot_array.len() {
        v.rightmost_child
    } else if row_id < v.entries[v.slot_array[i] as int].key {
        v.entries[v.slot_array[i] as int].child_page_id
    } else {
        route_from(v, row_id, i + 1)
    }
}

/// The child that a search for `row_id` descends into.
pub open spec fn route_spec(v: InternalView, row_id: u32) -> u64 {
    route_from(v, row_id, 0)
}

/// A copy of a record.
fn copy_record(r: &Record) -> (c: Record)
    ensures
        c@ == r@,
{
    Record { key: r.key, data: vstd::slice::slice_to_vec(r.data.as_slice()), is_deleted: r.is_deleted }
}

/// A copy of a leaf, so that a failed change can be undone.
pub(crate) fn copy_leaf(leaf: &LeafNode) -> (c: LeafNode)
    ensures
        c@ == leaf@,
{
    let mut records: Vec<Record> = Vec::new();
    let n = leaf.records.len();
    let mut i: usize = 0;
    while i < n
        invariant
            0 <= i <= n,
            n == leaf.records@.len(),
            records@.len() == i,
            forall|j: int| 0 <= j < i ==> (#[trigger] records@[j])@ == leaf.records@[j]@,
        decreases n - i,
    {
        records.push(copy_record(&leaf.records[i]));
        i = i + 1;
    }
    let c = LeafNode {
        page_id: leaf.page_id,
        last_lsn: leaf.last_lsn,
        has_prev: leaf.has_prev,
        has_next: leaf.has_next,
        prev_page_id: leaf.prev_page_id,
        next_page_id: leaf.next_page_id,
        slot_array: vstd::slice::slice_to_vec(leaf.slot_array.as_slice()),
        records,
        free_size: leaf.free_size,
        is_dirty: leaf.is_dirty,
    };
    assert(c@.records =~= leaf@.records);
    assert(c@ =~= leaf@);
    c
}

impl InternalNode {
    /// The child page a search for `row_id` descends into: the child of the
    /// first entry in slot order whose key exceeds `row_id`, or the rightmost
    /// child where none does.
    pub fn route_key(&self, row_id: u32) -> (c: PageId)
        requires
            slots_in_range(self@.slot_array, self@.entries.len()),
        ensures
            c.0 == route_spec(self@, row_id),
    {
        let n = self.slot_array.len();
        let mut i: usize = 0;
        while i < n
            invariant
                0 <= i <= n,
                n == self@.slot_array.len(),
                slots_in_range(self@.slot_array, self@.entries.len()),
                route_spec(self@, row_id) == route_from(self@, row_id, i as int),
            decreases n - i,
        {
            let e = self.entries[self.slot_array[i] as usize];
            if row_id < e.key {
                return PageId(e.child_page_id);
            }
            i = i + 1;
        }
        PageId(self.rightmost_child)
    }
}

impl LeafNode {
    /// The value stored under `row_id`, where a record that is not deleted
    /// has that key; `None` otherwise.
    pub fn get_record(&self, row_id: u32) -> (r: Option<Vec<u8>>)
        requires
            slots_in_range(self@.slot_array, self@.records.len()),
        ensures
            r is None <==> !has_live_key(slot_records(self@), row_id),
            r matches Some(d) ==> exists|i: int|
                0 <= i < slot_records(self@).len() && #[trigger] slot_records(self@)[i].key == row_id
                    && !slot_records(self@)[i].is_deleted && slot_records(self@)[i].data == d@,
    {
        let ghost rs = slot_records(self@);
        let n = self.slot_array.len();
        let mut i: usize = 0;
        while i < n
            invariant
                0 <= i <= n,
                n == self@.slot_array.len(),
                rs == slot_records(self@),
                slots_in_range(self@.slot_array, self@.records.len()),
                forall|j: int| 0 <= j < i ==> !(#[trigger] rs[j].key == row_id && !rs[j].is_deleted),
            decreases n - i,
        {
            let rec = &self.records[self.slot_array[i] as usize];
            proof {
                assert(rs[i as int] == rec@);
            }
            if rec.key == row_id && !rec.is_deleted {
                let d = vstd::slice::slice_to_vec(rec.data.as_slice());
                proof {
                    assert(rs[i as int].key == row_id);
                }
                return Some(d);
            }
            i = i + 1;
        }
        None
    }
}

/// Listing a new record at slot position `pos`, where its key falls between
/// its neighbours, keeps the leaf well formed and inserts it in key order.
pub(crate) proof fn lemma_insert_slot(v: LeafView, w: LeafView, pos: int, r: RecordView)
    requires
        leaf_ok(v),
        0 <= pos <= v.slot_array.len(),
        v.records.len() < 0x10000,
        forall|i: int| 0 <= i < pos ==> #[trigger] slot_records(v)[i].key < r.key,
        forall|i: int| pos <= i < v.slot_array.len() ==> r.key < #[trigger] slot_records(v)[i].key,
        w.records == v.records.push(r),
        w.slot_array == v.slot_array.insert(pos, v.records.len() as u16),
    ensures
        slot_records(w) == slot_records(v).insert(pos, r),
        leaf_ok(w),
{
    let n = v.records.len() as int;
    let rs = slot_records(v);
    let ws = slot_records(w);
    assert((n as u16) as int == n);
    assert forall|i: int| 0 <= i < ws.len() implies ws[i] == rs.insert(pos, r)[i] by {
        if i < pos {
            assert(w.slot_array[i] == v.slot_array[i]);
            assert(v.slot_array[i] < n);
        } else if i > pos {
            assert(w.slot_array[i] == v.slot_array[i - 1]);
            assert(v.slot_array[i - 1] < n);
        }
    }
    assert(ws =~= rs.insert(pos, r));
    assert forall|i: int| 0 <= i < w.slot_array.len() implies (#[trigger] w.slot_array[i]) < w.records.len() by {
        if i < pos {
            assert(w.slot_array[i] == v.slot_array[i]);
        } else if i > pos {
            assert(w.slot_array[i] == v.slot_array[i - 1]);
        }
    }
    assert forall|j: int| 0 <= j < w.records.len() implies named_before(w.slot_array, w.records.len() as int, j) by {
        if j == n {
            assert(w.slot_array[pos] == n);
        } else {
            assert(named_before(v.slot_array, n, j));
            let i = choose|i: int| 0 <= i < n && #[trigger] v.slot_array[i] == j;
            if i < pos {
                assert(w.slot_array[i] == j);
            } else {
                assert(w.slot_array[i + 1] == j);
            }
        }
    }
    assert forall|i: int, j: int| 0 <= i < j < ws.len() implies #[trigger] ws[i].key < #[trigger] ws[j].key by {
        if i < pos && j > pos {
            assert(rs[i].key < r.key);
            assert(r.key < rs[j - 1].key);
        } else if i < pos && j == pos {
            assert(rs[i].key < r.key);
        } else if i == pos {
            assert(r.key < rs[j - 1].key);
        } else if j < pos {
            assert(rs[i].key < rs[j].key);
        } else {
            assert(rs[i - 1].key < rs[j - 1].key);
        }
    }
}

/// In keys that strictly increase and miss `key`, the keys below `key` are
/// exactly the first `count_less` of them.
pub(crate) proof fn lemma_count_less_splits(rs: Seq<RecordView>, key: u32)
    requires
        keys_sorted(rs),
        !has_key(rs, key),
    ensures
        0 <= count_less(rs, key) <= rs.len(),
        forall|i: int| 0 <= i < count_less(rs, key) ==> #[trigger] rs[i].key < key,
        forall|i: int| count_less(rs, key) <= i < rs.len() ==> key < #[trigger] rs[i].key,
    decreases rs.len(),
{
    if rs.len() > 0 {
        let front = rs.drop_last();
        assert forall|i: int| 0 <= i < front.len() && #[trigger] front[i].key == key implies false by {
            assert(rs[i].key == key);
        }
        lemma_count_less_splits(front, key);
        let c = count_less(front, key);
        assert(rs.last() == rs[rs.len() - 1]);
        assert(rs.last().key != key);
        if rs.last().key < key && c < front.len() {
            assert(key < front[c].key);
            assert(rs[c].key < rs[rs.len() - 1].key);
            assert(rs[c] == front[c]);
        }
        assert forall|i: int| 0 <= i < count_less(rs, key) implies #[trigger] rs[i].key < key by {
            if i < front.len() {
                assert(rs[i] == front[i]);
            }
        }
        assert forall|i: int| count_less(rs, key) <= i < rs.len() implies key < #[trigger] rs[i].key by {
            if i < front.len() {
                assert(rs[i] == front[i]);
            }
        }
    }
}

/// A record inserted into a well-formed leaf is found again under its key,
/// live and with its value, and only there: every other key keeps its
/// records, and a live record under it stays live.
pub proof fn lemma_insert_then_get(v: LeafView, row_id: u32, data: Seq<u8>)
    requires
        leaf_ok(v),
        leaf_used_len(v) <= PAGE_SIZE,
        !has_key(slot_records(v), row_id),
    ensures
        leaf_ok(leaf_insert_spec(v, row_id, data)),
        has_live_key(slot_records(leaf_insert_spec(v, row_id, data)), row_id),
        forall|i: int|
            0 <= i < slot_records(leaf_insert_spec(v, row_id, data)).len() && (#[trigger] slot_records(
                leaf_insert_spec(v, row_id, data),
            )[i]).key == row_id ==> slot_records(leaf_insert_spec(v, row_id, data))[i] == new_record(
                row_id,
                data,
            ),
        forall|k: u32|
            k != row_id ==> (has_live_key(slot_records(leaf_insert_spec(v, row_id, data)), k)
                <==> has_live_key(slot_records(v), k)),
        forall|i: int|
            0 <= i < slot_records(leaf_insert_spec(v, row_id, data)).len() && (#[trigger] slot_records(
                leaf_insert_spec(v, row_id, data),
            )[i]).key != row_id ==> slot_records(v).contains(
                slot_records(leaf_insert_spec(v, row_id, data))[i],
            ),
{
    let rs = slot_records(v);
    let w = leaf_insert_spec(v, row_id, data);
    let r = new_record(row_id, data);
    lemma_count_less_splits(rs, row_id);
    let pos = count_less(rs, row_id);
    lemma_insert_slot(v, w, pos, r);
    let rs2 = slot_records(w);
    assert(rs2 == rs.insert(pos, r));
    assert(rs2[pos] == r);
    assert(0 <= pos < rs2.len() && rs2[pos].key == row_id && !rs2[pos].is_deleted);
    assert forall|i: int| 0 <= i < rs2.len() && (#[trigger] rs2[i]).key == row_id implies rs2[i] == r by {
        if i < pos {
            assert(rs2[i] == rs[i]);
        } else if i > pos {
            assert(rs2[i] == rs[i - 1]);
        }
    }
    assert forall|k: u32| k != row_id implies (has_live_key(rs2, k) <==> has_live_key(rs, k)) by {
        if has_live_key(rs2, k) {
            let i = choose|i: int| 0 <= i < rs2.len() && #[trigger] rs2[i].key == k && !rs2[i].is_deleted;
            if i < pos {
                assert(rs[i] == rs2[i]);
            } else {
                assert(i != pos);
                assert(rs[i - 1] == rs2[i]);
            }
        }
        if has_live_key(rs, k) {
            let i = choose|i: int| 0 <= i < rs.len() && #[trigger] rs[i].key == k && !rs[i].is_deleted;
            if i < pos {
                assert(rs2[i] == rs[i]);
            } else {
                assert(rs2[i + 1] == rs[i]);
            }
        }
    }
    assert forall|i: int| 0 <= i < rs2.len() && (#[trigger] rs2[i]).key != row_id implies rs.contains(rs2[i]) by {
        if i < pos {
            assert(rs[i] == rs2[i]);
        } else {
            assert(i != pos);
            assert(rs[i - 1] == rs2[i]);
        }
    }
}

impl LeafNode {
    /// Inserts a live record with key `row_id` and value `payload` in key
    /// order. Fails, leaving the leaf unchanged, with `TupleTooLarge` where the
    /// value is longer than `MAX_VALUE_SIZE`, with `DuplicateKey` where a
    /// record (deleted or not) has the key, and with `PageFull` where the
    /// grown leaf would not fit its page. The free size is kept up to date.
    pub fn insert_record(&mut self, row_id: u32, payload: Vec<u8>) -> (r: Result<(), DbError>)
        requires
            leaf_ok(old(self)@),
        ensures
            ({
                let rs = slot_records(old(self)@);
                let rec = new_record(row_id, payload@);
                match r {
                    Ok(()) => {
                        &&& payload@.len() <= MAX_VALUE_SIZE
                        &&& !has_key(rs, row_id)
                        &&& leaf_ok(final(self)@)
                        &&& leaf_used_len(final(self)@) == leaf_used_len(old(self)@) + SLOT_ELEM_SIZE
                            + record_cell_len(rec)
                        &&& leaf_used_len(final(self)@) <= PAGE_SIZE
                        &&& final(self)@.free_size == leaf_free_size(final(self)@)
                        &&& final(self)@ == leaf_insert_spec(old(self)@, row_id, payload@)
                        &&& slot_records(final(self)@) == rs.insert(count_less(rs, row_id), rec)
                        &&& forall|i: int| 0 <= i < count_less(rs, row_id) ==> #[trigger] rs[i].key < row_id
                        &&& forall|i: int| count_less(rs, row_id) <= i < rs.len() ==> row_id < #[trigger] rs[i].key
                    },
                    Err(DbError::TupleTooLarge(n)) => n == payload@.len() && n > MAX_VALUE_SIZE
                        && final(self)@ == old(self)@,
                    Err(DbError::DuplicateKey(k)) => k == row_id && payload@.len() <= MAX_VALUE_SIZE
                        && has_key(rs, row_id) && final(self)@ == old(self)@,
                    Err(DbError::PageFull) => payload@.len() <= MAX_VALUE_SIZE && !has_key(rs, row_id)
                        && leaf_used_len(old(self)@) + SLOT_ELEM_SIZE + record_cell_len(rec) > PAGE_SIZE
                        && final(self)@ == old(self)@,
                    Err(_) => false,
                }
            }),
    {
        let ghost v = self@;
        let ghost rs = slot_records(v);
        if payload.len() > MAX_VALUE_SIZE {
            return Err(DbError::TupleTooLarge(payload.len()));
        }
        let n = self.slot_array.len();
        let mut pos: usize = 0;
        while pos < n && self.records[self.slot_array[pos] as usize].key < row_id
            invariant
                0 <= pos <= n,
                n == v.slot_array.len(),
                v == self@,
                leaf_ok(v),
                rs == slot_records(v),
                forall|i: int| 0 <= i < pos ==> #[trigger] rs[i].key < row_id,
            decreases n - pos,
        {
            proof {
                assert(rs[pos as int] == v.records[v.slot_array[pos as int] as int]);
            }
            pos = pos + 1;
        }
        proof {
            assert forall|i: int| pos < i < n implies row_id <= #[trigger] rs[i].key by {
                assert(rs[pos as int].key < rs[i].key);
            }
        }
        if pos < n && self.records[self.slot_array[pos] as usize].key == row_id {
            proof {
                assert(rs[pos as int].key == row_id);
            }
            return Err(DbError::DuplicateKey(row_id as u64));
        }
        proof {
            assert forall|i: int| pos <= i < n implies row_id < #[trigger] rs[i].key by {
                if i > pos {
                    assert(rs[pos as int].key < rs[i].key);
                }
            }
            assert(!has_key(rs, row_id)) by {
                if has_key(rs, row_id) {
                    let i = choose|i: int| 0 <= i < rs.len() && #[trigger] rs[i].key == row_id;
                    if i < pos {
                        assert(rs[i].key < row_id);
                    } else {
                        assert(row_id < rs[i].key);
                    }
                }
            }
            crate::storage::layout::lemma_leaf_cells_len(v.records, v.slot_array);
            lemma_count_less(rs, row_id, pos as int);
        }
        let footer = match self.footer_len() {
            Some(f) => f,
            None => return Err(DbError::PageFull),
        };
        let used = LEAF_NODE_HEADER_SIZE + n * SLOT_ELEM_SIZE + footer;
        if used + SLOT_ELEM_SIZE + RECORD_META_SIZE + payload.len() > PAGE_SIZE {
            return Err(DbError::PageFull);
        }
        let ghost rec = new_record(row_id, payload@);
        let new_idx = self.records.len() as u16;
        let new_free = (PAGE_SIZE - used - SLOT_ELEM_SIZE - RECORD_META_SIZE - payload.len()) as u16;
        proof {
            assert(v.records.len() == n);
        }
        self.records.push(Record { key: row_id, data: payload, is_deleted: false });
        self.slot_array.insert(pos, new_idx);
        self.free_size = new_free;
        proof {
            let w = self@;
            assert(w.records =~= v.records.push(rec));
            lemma_insert_slot(v, w, pos as int, rec);
            lemma_cells_len_slot_records(v.records, v.slot_array);
            lemma_cells_len_slot_records(w.records, w.slot_array);
            lemma_cells_len_insert(rs, pos as int, rec);
            assert(Seq::new(v.slot_array.len(), |i: int| v.records[v.slot_array[i] as int]) == rs);
            assert(Seq::new(w.slot_array.len(), |i: int| w.records[w.slot_array[i] as int]) == slot_records(w));
            assert(w =~= leaf_insert_spec(v, row_id, payload@));
        }
        Ok(())
    }
}

/// The slot array `0, 1, ..., k - 1`.
fn identity_slots(k: usize) -> (slots: Vec<u16>)
    requires
        k <= 0x10000,
    ensures
        slots@ == Seq::new(k as nat, |i: int| i as u16),
{
    let mut slots: Vec<u16> = Vec::new();
    let mut i: usize = 0;
    while i < k
        invariant
            0 <= i <= k,
            k <= 0x10000,
            slots@ == Seq::new(i as nat, |j: int| j as u16),
        decreases k - i,
    {
        slots.push(i as u16);
        i = i + 1;
        assert(slots@ =~= Seq::new(i as nat, |j: int| j as u16));
    }
    slots
}

/// Copies of the records at slot positions `from..to`, in slot order.
fn copy_slot_range(leaf: &LeafNode, from: usize, to: usize) -> (out: Vec<Record>)
    requires
        from <= to <= leaf@.slot_array.len(),
        slots_in_range(leaf@.slot_array, leaf@.records.len()),
    ensures
        crate::storage::decode::records_view(out@) == slot_records(leaf@).subrange(from as int, to as int),
{
    let ghost rs = slot_records(leaf@);
    let mut out: Vec<Record> = Vec::new();
    let mut i: usize = from;
    while i < to
        invariant
            from <= i <= to,
            to <= leaf@.slot_array.len(),
            rs == slot_records(leaf@),
            slots_in_range(leaf@.slot_array, leaf@.records.len()),
            crate::storage::decode::records_view(out@) == rs.subrange(from as int, i as int),
            out@.len() == i - from,
            rs.len() == leaf@.slot_array.len(),
        decreases to - i,
    {
        let c = copy_record(&leaf.records[leaf.slot_array[i] as usize]);
        proof {
            assert(rs[i as int] == c@);
        }
        let ghost old_i = i as int;
        let ghost before = out@;
        out.push(c);
        i = i + 1;
        proof {
            assert(out@ == before.push(c));
            assert forall|q: int| 0 <= q < out@.len() implies #[trigger] crate::storage::decode::records_view(out@)[q]
                == rs[from + q] by {
                if q < before.len() {
                    assert(crate::storage::decode::records_view(before)[q] == rs.subrange(from as int, old_i)[q]);
                    assert(out@[q] == before[q]);
                } else {
                    assert(out@[q] == c);
                }
            }
            assert(crate::storage::decode::records_view(out@) =~= rs.subrange(from as int, i as int));
        }
    }
    out
}

/// A well-formed leaf's key-ordered records, with any two of them in order.
pub(crate) proof fn lemma_sorted_parts(rs: Seq<RecordView>, m: int)
    requires
        keys_sorted(rs),
        0 <= m < rs.len(),
    ensures
        keys_sorted(rs.take(m)),
        keys_sorted(rs.skip(m)),
        forall|i: int| 0 <= i < m ==> #[trigger] rs.take(m)[i].key < rs[m].key,
        forall|i: int| 0 <= i < rs.len() - m ==> rs[m].key <= #[trigger] rs.skip(m)[i].key,
{
    assert forall|i: int, j: int| 0 <= i < j < rs.take(m).len() implies #[trigger] rs.take(m)[i].key
        < #[trigger] rs.take(m)[j].key by {
        assert(rs.take(m)[i] == rs[i] && rs.take(m)[j] == rs[j]);
    }
    assert forall|i: int, j: int| 0 <= i < j < rs.skip(m).len() implies #[trigger] rs.skip(m)[i].key
        < #[trigger] rs.skip(m)[j].key by {
        assert(rs.skip(m)[i] == rs[i + m] && rs.skip(m)[j] == rs[j + m]);
    }
    assert forall|i: int| 0 <= i < m implies #[trigger] rs.take(m)[i].key < rs[m].key by {
        assert(rs.take(m)[i] == rs[i]);
    }
    assert forall|i: int| 0 <= i < rs.len() - m implies rs[m].key <= #[trigger] rs.skip(m)[i].key by {
        assert(rs.skip(m)[i] == rs[i + m]);
        if i > 0 {
            assert(rs[m].key < rs[i + m].key);
        }
    }
}

impl LeafNode {
    /// Splits a full leaf: the lower half of its records in key order stays,
    /// compacted and listed in place; the upper half moves to the empty leaf
    /// `right`. Returns the key that divides them, the first key of `right`.
    /// Both leaves get the free size of their new contents.
    pub fn split(&mut self, right: &mut LeafNode) -> (promoted: u64)
        requires
            leaf_ok(old(self)@),
            old(self)@.slot_array.len() >= 2,
            leaf_used_len(old(self)@) <= PAGE_SIZE,
            old(right)@.records.len() == 0,
            old(right)@.slot_array.len() == 0,
        ensures
            ({
                let rs = slot_records(old(self)@);
                let mid = rs.len() as int / 2;
                &&& final(self)@ == with_records(old(self)@, rs.take(mid))
                &&& final(right)@ == with_records(old(right)@, rs.skip(mid))
                &&& promoted == rs[mid].key
                &&& slot_records(final(self)@) + slot_records(final(right)@) == rs
                &&& leaf_ok(final(self)@)
                &&& leaf_ok(final(right)@)
                &&& leaf_used_len(final(self)@) <= PAGE_SIZE
                &&& leaf_used_len(final(right)@) <= PAGE_SIZE
                &&& forall|i: int| 0 <= i < mid ==> #[trigger] slot_records(final(self)@)[i].key < promoted
                &&& forall|i: int| 0 <= i < rs.len() - mid ==> promoted <= #[trigger] slot_records(final(right)@)[i].key
            }),
    {
        let ghost v = self@;
        let ghost rv = right@;
        let ghost rs = slot_records(v);
        let n = self.slot_array.len();
        let mid = n / 2;
        proof {
            crate::storage::layout::lemma_leaf_cells_len(v.records, v.slot_array);
            lemma_cells_len_slot_records(v.records, v.slot_array);
            assert(Seq::new(v.slot_array.len(), |i: int| v.records[v.slot_array[i] as int]) == rs);
            lemma_cells_len_split(rs, mid as int);
            lemma_sorted_parts(rs, mid as int);
            assert(rs.subrange(0, mid as int) =~= rs.take(mid as int));
            assert(rs.subrange(mid as int, n as int) =~= rs.skip(mid as int));
            lemma_with_records_used(v, rs.take(mid as int));
            lemma_with_records_used(rv, rs.skip(mid as int));
        }
        let left_recs = copy_slot_range(self, 0, mid);
        let right_recs = copy_slot_range(self, mid, n);
        let promoted = right_recs[0].key as u64;
        proof {
            assert(crate::storage::decode::records_view(right_recs@)[0] == right_recs@[0]@);
        }
        let left_slots = identity_slots(mid);
        let right_slots = identity_slots(n - mid);
        let left_len = left_recs.len();
        let right_len = right_recs.len();
        self.records = left_recs;
        self.slot_array = left_slots;
        right.records = right_recs;
        right.slot_array = right_slots;
        let left_footer = match self.footer_len() {
            Some(f) => f,
            None => {
                assert(false);
                0
            },
        };
        let right_footer = match right.footer_len() {
            Some(f) => f,
            None => {
                assert(false);
                0
            },
        };
        self.free_size = (PAGE_SIZE - (LEAF_NODE_HEADER_SIZE + SLOT_ELEM_SIZE * left_len + left_footer)) as u16;
        right.free_size = (PAGE_SIZE - (LEAF_NODE_HEADER_SIZE + SLOT_ELEM_SIZE * right_len + right_footer)) as u16;
        proof {
            assert(self@ =~= with_records(v, rs.take(mid as int)));
            assert(right@ =~= with_records(rv, rs.skip(mid as int)));
            assert(rs.take(mid as int) + rs.skip(mid as int) =~= rs);
        }
        promoted
    }
}

/// Wires the new right sibling between `left` and `left`'s old right
/// sibling: `right` points back to `left` and on to the old sibling, and
/// `left` points on to `right`. Returns the old sibling, where there was one.
pub fn link_split(
    left: &mut LeafNode,
    right: &mut LeafNode,
    left_id: PageId,
    right_id: PageId,
) -> (old_next: Option<PageId>)
    ensures
        old_next == (if old(left)@.has_next {
            Some(PageId(old(left)@.next_page_id))
        } else {
            None
        }),
        final(right)@ == (LeafView {
            has_prev: true,
            prev_page_id: left_id.0,
            has_next: old(left)@.has_next,
            next_page_id: old(left)@.next_page_id,
            ..old(right)@
        }),
        final(left)@ == (LeafView { has_next: true, next_page_id: right_id.0, ..old(left)@ }),
{
    let old_next_id = left.next_page_id;
    let old_has_next = left.has_next;

    right.has_prev = true;
    right.prev_page_id = left_id.0;

    right.has_next = old_has_next;
    right.next_page_id = old_next_id;

    left.has_next = true;
    left.next_page_id = right_id.0;

    if old_has_next {
        Some(PageId(old_next_id))
    } else {
        None
    }
}

impl LeafNode {
    /// Whether the slot array is a permutation of the records that lists
    /// them in strictly increasing key order.
    pub fn is_well_formed(&self) -> (ok: bool)
        ensures
            ok == leaf_ok(self@),
    {
        let ghost v = self@;
        let n = self.records.len();
        if self.slot_array.len() != n {
            return false;
        }
        let mut seen: Vec<bool> = Vec::new();
        let mut j: usize = 0;
        while j < n
            invariant
                0 <= j <= n,
                seen@.len() == j,
                forall|k: int| 0 <= k < j ==> !seen@[k],
            decreases n - j,
        {
            seen.push(false);
            j = j + 1;
        }
        let mut i: usize = 0;
        while i < n
            invariant
                0 <= i <= n,
                n == v.records.len(),
                n == v.slot_array.len(),
                v == self@,
                seen@.len() == n,
                forall|k: int| 0 <= k < i ==> (#[trigger] v.slot_array[k]) < n,
                forall|k: int| 0 <= k < n ==> (#[trigger] seen@[k] <==> named_before(v.slot_array, i as int, k)),
                forall|a: int, b: int| 0 <= a < b < i ==> #[trigger] slot_records(v)[a].key < #[trigger] slot_records(v)[b].key,
            decreases n - i,
        {
            let s = self.slot_array[i] as usize;
            if s >= n {
                proof {
                    assert(!slots_in_range(v.slot_array, v.records.len()));
                }
                return false;
            }
            if i > 0 {
                let prev_key = self.records[self.slot_array[i - 1] as usize].key;
                let key = self.records[s].key;
                if prev_key >= key {
                    proof {
                        assert(slot_records(v)[i - 1].key >= slot_records(v)[i as int].key);
                    }
                    return false;
                }
                proof {
                    assert forall|a: int| 0 <= a < i implies #[trigger] slot_records(v)[a].key < slot_records(v)[i as int].key by {
                        if a < i - 1 {
                            assert(slot_records(v)[a].key < slot_records(v)[i - 1].key);
                        }
                    }
                }
            }
            seen.set(s, true);
            proof {
                assert forall|k: int| 0 <= k < n implies (#[trigger] seen@[k] <==> named_before(v.slot_array, i + 1, k)) by {
                    if k == s {
                        assert(v.slot_array[i as int] == k);
                    } else if named_before(v.slot_array, i + 1, k) {
                        let w = choose|w: int| 0 <= w < i + 1 && #[trigger] v.slot_array[w] == k;
                        assert(w != i);
                        assert(named_before(v.slot_array, i as int, k));
                    } else if named_before(v.slot_array, i as int, k) {
                        let w = choose|w: int| 0 <= w < i && #[trigger] v.slot_array[w] == k;
                        assert(named_before(v.slot_array, i + 1, k));
                    }
                }
            }
            i = i + 1;
        }
        let mut k: usize = 0;
        while k < n
            invariant
                0 <= k <= n,
                seen@.len() == n,
                forall|q: int| 0 <= q < k ==> #[trigger] seen@[q],
                n == v.records.len(),
                n == v.slot_array.len(),
                v == self@,
                forall|q: int| 0 <= q < n ==> (#[trigger] v.slot_array[q]) < n,
                forall|q: int| 0 <= q < n ==> (#[trigger] seen@[q] <==> named_before(v.slot_array, n as int, q)),
                forall|a: int, b: int| 0 <= a < b < n ==> #[trigger] slot_records(v)[a].key < #[trigger] slot_records(v)[b].key,
            decreases n - k,
        {
            if !seen[k] {
                proof {
                    assert(!named_before(v.slot_array, n as int, k as int));
                }
                return false;
            }
            k = k + 1;
        }
        proof {
            assert forall|q: int| 0 <= q < n implies named_before(v.slot_array, n as int, q) by {
                assert(seen@[q]);
            }
            assert(slots_in_range(v.slot_array, v.records.len()));
            assert(slots_cover(v.slot_array, v.records.len()));
            assert(keys_sorted(slot_records(v)));
        }
        true
    }
}

} // verus!
