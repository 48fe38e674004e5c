//! The byte layout of node pages, stated as spec functions: what `encode`
//! writes and what `decode` reads back.
use crate::storage::page::{
    default_record_view, IndexEntry, InternalView, LeafView, NodeType, NodeView, RecordView,
    INDEX_ENTRY_SIZE, INTERNAL_NODE_HEADER_SIZE, LEAF_NODE_HEADER_SIZE, PAGE_SIZE, SLOT_ELEM_SIZE,
};
use vstd::bytes::*;
use vstd::prelude::*;

verus! {

/// The byte that stores a flag.
pub open spec fn bool_byte(b: bool) -> u8 {
    if b {
        1
    } else {
        0
    }
}

/// The little-endian `u16` at offset `p` of `b`.
pub open spec fn u16_at(b: Seq<u8>, p: int) -> u16 {
    spec_u16_from_le_bytes(b.subrange(p, p + 2))
}

/// The little-endian `u32` at offset `p` of `b`.
pub open spec fn u32_at(b: Seq<u8>, p: int) -> u32 {
    spec_u32_from_le_bytes(b.subrange(p, p + 4))
}

/// The little-endian `u64` at offset `p` of `b`.
pub open spec fn u64_at(b: Seq<u8>, p: int) -> u64 {
    spec_u64_from_le_bytes(b.subrange(p, p + 8))
}

// ---------------------------------------------------------------------------
// What encode writes
// ---------------------------------------------------------------------------

/// The slot array as consecutive little-endian `u16`s.
pub open spec fn slots_bytes(slots: Seq<u16>) -> Seq<u8>
    decreases slots.len(),
{
    if slots.len() == 0 {
        Seq::empty()
    } else {
        slots_bytes(slots.drop_last()) + spec_u16_to_le_bytes(slots.last())
    }
}

/// One leaf cell: key, deleted flag, value size, value bytes.
pub open spec fn record_cell_bytes(r: RecordView) -> Seq<u8> {
    spec_u32_to_le_bytes(r.key) + seq![bool_byte(r.is_deleted)] + spec_u32_to_le_bytes(
        r.data.len() as u32,
    ) + r.data
}

/// The size of one leaf cell.
pub open spec fn record_cell_len(r: RecordView) -> nat {
    9 + r.data.len()
}

/// The leaf cells in slot order.
pub open spec fn leaf_cells_bytes(records: Seq<RecordView>, slots: Seq<u16>) -> Seq<u8>
    decreases slots.len(),
{
    if slots.len() == 0 {
        Seq::empty()
    } else {
        leaf_cells_bytes(records, slots.drop_last()) + record_cell_bytes(
            records[slots.last() as int],
        )
    }
}

/// The size of the leaf cells in slot order.
pub open spec fn leaf_cells_len(records: Seq<RecordView>, slots: Seq<u16>) -> nat
    decreases slots.len(),
{
    if slots.len() == 0 {
        0
    } else {
        leaf_cells_len(records, slots.drop_last()) + record_cell_len(records[slots.last() as int])
    }
}

/// Every slot names a record.
pub open spec fn slots_in_range(slots: Seq<u16>, n: nat) -> bool {
    forall|i: int| 0 <= i < slots.len() ==> (#[trigger] slots[i]) < n
}

/// Size of the leaf header with its slot array.
pub open spec fn leaf_header_len(v: LeafView) -> nat {
    (LEAF_NODE_HEADER_SIZE + SLOT_ELEM_SIZE * v.slot_array.len()) as nat
}

/// Bytes the leaf occupies on its page, free space excluded.
pub open spec fn leaf_used_len(v: LeafView) -> nat {
    leaf_header_len(v) + leaf_cells_len(v.records, v.slot_array)
}

/// The free space that `encode` records for a leaf that fits its page.
pub open spec fn leaf_free_size(v: LeafView) -> u16 {
    (PAGE_SIZE - leaf_used_len(v)) as u16
}

/// The leaf header: every field, the slot array, then the free size.
pub open spec fn leaf_header_bytes(v: LeafView, free: u16) -> Seq<u8> {
    seq![NodeType::Leaf.spec_byte()] + spec_u64_to_le_bytes(v.page_id) + spec_u64_to_le_bytes(
        v.last_lsn,
    ) + seq![bool_byte(v.has_prev), bool_byte(v.has_next)] + spec_u64_to_le_bytes(v.prev_page_id)
        + spec_u64_to_le_bytes(v.next_page_id) + spec_u32_to_le_bytes(v.slot_array.len() as u32)
        + slots_bytes(v.slot_array) + spec_u16_to_le_bytes(free)
}

/// The page that `encode` makes of a leaf that fits, over a page that held
/// `old`: header, the old bytes of the free gap, cells up to the page's end.
pub open spec fn leaf_page_bytes(v: LeafView, old: Seq<u8>) -> Seq<u8> {
    let h = leaf_header_len(v);
    let f = leaf_free_size(v);
    leaf_header_bytes(v, f) + old.subrange(h as int, h + f) + leaf_cells_bytes(
        v.records,
        v.slot_array,
    )
}

/// One internal cell: key then child page id.
pub open spec fn entry_cell_bytes(e: IndexEntry) -> Seq<u8> {
    spec_u32_to_le_bytes(e.key) + spec_u64_to_le_bytes(e.child_page_id)
}

/// The internal cells in slot order.
pub open spec fn internal_cells_bytes(entries: Seq<IndexEntry>, slots: Seq<u16>) -> Seq<u8>
    decreases slots.len(),
{
    if slots.len() == 0 {
        Seq::empty()
    } else {
        internal_cells_bytes(entries, slots.drop_last()) + entry_cell_bytes(
            entries[slots.last() as int],
        )
    }
}

/// Size of the internal header with its slot array.
pub open spec fn internal_header_len(v: InternalView) -> nat {
    (INTERNAL_NODE_HEADER_SIZE + SLOT_ELEM_SIZE * v.slot_array.len()) as nat
}

/// Bytes the internal node occupies on its page, free space excluded.
pub open spec fn internal_used_len(v: InternalView) -> nat {
    (internal_header_len(v) + INDEX_ENTRY_SIZE * v.slot_array.len()) as nat
}

/// The free space that `encode` records for an internal node that fits.
pub open spec fn internal_free_size(v: InternalView) -> u16 {
    (PAGE_SIZE - internal_used_len(v)) as u16
}

/// The internal header: every field, the slot array, then the free size.
pub open spec fn internal_header_bytes(v: InternalView, free: u16) -> Seq<u8> {
    seq![NodeType::Internal.spec_byte()] + spec_u64_to_le_bytes(v.page_id) + spec_u64_to_le_bytes(
        v.last_lsn,
    ) + spec_u64_to_le_bytes(v.rightmost_child) + spec_u32_to_le_bytes(
        v.slot_array.len() as u32,
    ) + slots_bytes(v.slot_array) + spec_u16_to_le_bytes(free)
}

/// The page that `encode` makes of an internal node that fits, over a page
/// that held `old`.
pub open spec fn internal_page_bytes(v: InternalView, old: Seq<u8>) -> Seq<u8> {
    let h = internal_header_len(v);
    let f = internal_free_size(v);
    internal_header_bytes(v, f) + old.subrange(h as int, h + f) + internal_cells_bytes(
        v.entries,
        v.slot_array,
    )
}

/// Bytes the node occupies on its page, free space excluded.
pub open spec fn node_used_len(v: NodeView) -> nat {
    match v {
        NodeView::Internal(n) => internal_used_len(n),
        NodeView::Leaf(n) => leaf_used_len(n),
    }
}

/// Every slot of the node names one of its cells.
pub open spec fn node_slots_in_range(v: NodeView) -> bool {
    match v {
        NodeView::Internal(n) => slots_in_range(n.slot_array, n.entries.len()),
        NodeView::Leaf(n) => slots_in_range(n.slot_array, n.records.len()),
    }
}

/// The page that `encode` makes of a node that fits, over a page that held `old`.
pub open spec fn node_page_bytes(v: NodeView, old: Seq<u8>) -> Seq<u8> {
    match v {
        NodeView::Internal(n) => internal_page_bytes(n, old),
        NodeView::Leaf(n) => leaf_page_bytes(n, old),
    }
}

// ---------------------------------------------------------------------------
// What decode reads
// ---------------------------------------------------------------------------

/// `n` little-endian `u16`s from offset `p`.
pub open spec fn slots_at(b: Seq<u8>, p: int, n: nat) -> Seq<u16> {
    Seq::new(n, |i: int| u16_at(b, p + 2 * i))
}

/// The leaf cell at offset `p` and the offset after it, or `None` where it
/// does not fit in `b`.
pub open spec fn record_at(b: Seq<u8>, p: int) -> Option<(RecordView, int)> {
    if p + 9 <= b.len() {
        let size = u32_at(b, p + 5);
        if p + 9 + size <= b.len() {
            Some(
                (
                    RecordView {
                        key: u32_at(b, p),
                        data: b.subrange(p + 9, p + 9 + size),
                        is_deleted: b[p + 4] != 0,
                    },
                    p + 9 + size,
                ),
            )
        } else {
            None
        }
    } else {
        None
    }
}

/// `k` consecutive leaf cells from offset `p`, and the offset after them.
pub open spec fn records_at(b: Seq<u8>, p: int, k: nat) -> Option<(Seq<RecordView>, int)>
    decreases k,
{
    if k == 0 {
        Some((Seq::empty(), p))
    } else {
        match records_at(b, p, (k - 1) as nat) {
            Some((rs, q)) => match record_at(b, q) {
                Some((r, q2)) => Some((rs.push(r), q2)),
                None => None,
            },
            None => None,
        }
    }
}

/// The internal cell at offset `p` and the offset after it, or `None` where
/// it does not fit in `b`.
pub open spec fn entry_at(b: Seq<u8>, p: int) -> Option<(IndexEntry, int)> {
    if p + 12 <= b.len() {
        Some((IndexEntry { key: u32_at(b, p), child_page_id: u64_at(b, p + 4) }, p + 12))
    } else {
        None
    }
}

/// `k` consecutive internal cells from offset `p`, and the offset after them.
pub open spec fn entries_at(b: Seq<u8>, p: int, k: nat) -> Option<(Seq<IndexEntry>, int)>
    decreases k,
{
    if k == 0 {
        Some((Seq::empty(), p))
    } else {
        match entries_at(b, p, (k - 1) as nat) {
            Some((es, q)) => match entry_at(b, q) {
                Some((e, q2)) => Some((es.push(e), q2)),
                None => None,
            },
            None => None,
        }
    }
}

/// Stores the `i`-th cell at position `slots[i]` of `base`, in order, so that
/// a later cell overwrites an earlier one; `None` where a slot is out of range.
pub open spec fn place_cells<T>(cells: Seq<T>, slots: Seq<u16>, base: Seq<T>) -> Option<Seq<T>>
    decreases slots.len(),
{
    if slots.len() == 0 {
        Some(base)
    } else {
        match place_cells(cells, slots.drop_last(), base) {
            Some(s) => if slots.last() < s.len() {
                Some(s.update(slots.last() as int, cells[slots.len() - 1]))
            } else {
                None
            },
            None => None,
        }
    }
}

/// The leaf stored in page `b`, or `None` where the page is malformed.
pub open spec fn decode_leaf_spec(b: Seq<u8>) -> Option<LeafView> {
    let n = u32_at(b, 35) as nat;
    if LEAF_NODE_HEADER_SIZE + 2 * n > b.len() {
        None
    } else {
        let slots = slots_at(b, 39, n);
        let free = u16_at(b, (39 + 2 * n) as int);
        match records_at(b, 41 + 2 * n + free, n) {
            None => None,
            Some((cells, _)) => match place_cells(
                cells,
                slots,
                Seq::new(n, |i: int| default_record_view()),
            ) {
                None => None,
                Some(records) => Some(
                    LeafView {
                        page_id: u64_at(b, 1),
                        last_lsn: u64_at(b, 9),
                        has_prev: b[17] != 0,
                        has_next: b[18] != 0,
                        prev_page_id: u64_at(b, 19),
                        next_page_id: u64_at(b, 27),
                        slot_array: slots,
                        records,
                        free_size: free,
                        is_dirty: false,
                    },
                ),
            },
        }
    }
}

/// The internal node stored in page `b`, or `None` where the page is malformed.
pub open spec fn decode_internal_spec(b: Seq<u8>) -> Option<InternalView> {
    let n = u32_at(b, 25) as nat;
    if INTERNAL_NODE_HEADER_SIZE + 2 * n > b.len() {
        None
    } else {
        let slots = slots_at(b, 29, n);
        let free = u16_at(b, (29 + 2 * n) as int);
        match entries_at(b, 31 + 2 * n + free, n) {
            None => None,
            Some((cells, _)) => match place_cells(
                cells,
                slots,
                Seq::new(n, |i: int| IndexEntry { key: 0, child_page_id: 0 }),
            ) {
                None => None,
                Some(entries) => Some(
                    InternalView {
                        page_id: u64_at(b, 1),
                        last_lsn: u64_at(b, 9),
                        rightmost_child: u64_at(b, 17),
                        slot_array: slots,
                        entries,
                        free_size: free,
                        is_dirty: false,
                    },
                ),
            },
        }
    }
}

/// The node stored in page `b`: the first byte selects the kind; `None`
/// where that byte names no kind or the page is malformed.
pub open spec fn decode_spec(b: Seq<u8>) -> Option<NodeView> {
    if b[0] == NodeType::Leaf.spec_byte() {
        match decode_leaf_spec(b) {
            Some(v) => Some(NodeView::Leaf(v)),
            None => None,
        }
    } else if b[0] == NodeType::Internal.spec_byte() {
        match decode_internal_spec(b) {
            Some(v) => Some(NodeView::Internal(v)),
            None => None,
        }
    } else {
        None
    }
}

// ---------------------------------------------------------------------------
// Facts about the layout
// ---------------------------------------------------------------------------

/// The slot array takes two bytes per slot.
pub proof fn lemma_slots_bytes_len(slots: Seq<u16>)
    ensures
        slots_bytes(slots).len() == 2 * slots.len(),
    decreases slots.len(),
{
    lemma_auto_spec_u16_to_from_le_bytes();
    if slots.len() > 0 {
        lemma_slots_bytes_len(slots.drop_last());
    }
}

/// One more slot appends its two bytes.
pub proof fn lemma_slots_bytes_step(slots: Seq<u16>, i: int)
    requires
        0 <= i < slots.len(),
    ensures
        slots_bytes(slots.take(i + 1)) == slots_bytes(slots.take(i)) + spec_u16_to_le_bytes(
            slots[i],
        ),
{
    assert(slots.take(i + 1).drop_last() =~= slots.take(i));
}

/// One more slot appends the cell it names.
pub proof fn lemma_leaf_cells_step(records: Seq<RecordView>, slots: Seq<u16>, i: int)
    requires
        0 <= i < slots.len(),
    ensures
        leaf_cells_bytes(records, slots.take(i + 1)) == leaf_cells_bytes(records, slots.take(i))
            + record_cell_bytes(records[slots[i] as int]),
        leaf_cells_len(records, slots.take(i + 1)) == leaf_cells_len(records, slots.take(i))
            + record_cell_len(records[slots[i] as int]),
{
    assert(slots.take(i + 1).drop_last() =~= slots.take(i));
}

/// The leaf cells take `leaf_cells_len` bytes.
pub proof fn lemma_leaf_cells_len(records: Seq<RecordView>, slots: Seq<u16>)
    ensures
        leaf_cells_bytes(records, slots).len() == leaf_cells_len(records, slots),
    decreases slots.len(),
{
    lemma_auto_spec_u32_to_from_le_bytes();
    if slots.len() > 0 {
        lemma_leaf_cells_len(records, slots.drop_last());
    }
}

/// The cells of a prefix of the slots take no more room than all cells.
pub proof fn lemma_leaf_cells_len_mono(
    records: Seq<RecordView>,
    slots: Seq<u16>,
    i: int,
)
    requires
        0 <= i <= slots.len(),
    ensures
        leaf_cells_len(records, slots.take(i)) <= leaf_cells_len(records, slots),
    decreases slots.len() - i,
{
    if i < slots.len() {
        lemma_leaf_cells_step(records, slots, i);
        lemma_leaf_cells_len_mono(records, slots, i + 1);
    } else {
        assert(slots.take(i) =~= slots);
    }
}

/// One more slot appends the internal cell it names.
pub proof fn lemma_internal_cells_step(
    entries: Seq<IndexEntry>,
    slots: Seq<u16>,
    i: int,
)
    requires
        0 <= i < slots.len(),
    ensures
        internal_cells_bytes(entries, slots.take(i + 1)) == internal_cells_bytes(
            entries,
            slots.take(i),
        ) + entry_cell_bytes(entries[slots[i] as int]),
{
    assert(slots.take(i + 1).drop_last() =~= slots.take(i));
}

/// Internal cells take twelve bytes each.
pub proof fn lemma_internal_cells_len(entries: Seq<IndexEntry>, slots: Seq<u16>)
    ensures
        internal_cells_bytes(entries, slots).len() == 12 * slots.len(),
    decreases slots.len(),
{
    lemma_auto_spec_u32_to_from_le_bytes();
    lemma_auto_spec_u64_to_from_le_bytes();
    if slots.len() > 0 {
        lemma_internal_cells_len(entries, slots.drop_last());
    }
}


/// Each `u16` of the slot array sits at twice its index.
pub proof fn lemma_slots_bytes_index(slots: Seq<u16>, i: int)
    requires
        0 <= i < slots.len(),
    ensures
        slots_bytes(slots).subrange(2 * i, 2 * i + 2) == spec_u16_to_le_bytes(slots[i]),
    decreases slots.len(),
{
    lemma_auto_spec_u16_to_from_le_bytes();
    lemma_slots_bytes_len(slots);
    lemma_slots_bytes_len(slots.drop_last());
    if i == slots.len() - 1 {
        assert(slots_bytes(slots).subrange(2 * i, 2 * i + 2) =~= spec_u16_to_le_bytes(slots[i]));
    } else {
        lemma_slots_bytes_index(slots.drop_last(), i);
        assert(slots_bytes(slots).subrange(2 * i, 2 * i + 2) =~= slots_bytes(
            slots.drop_last(),
        ).subrange(2 * i, 2 * i + 2));
    }
}

/// Reading back a written slot array gives the slots.
pub proof fn lemma_slots_read(b: Seq<u8>, p: int, slots: Seq<u16>)
    requires
        0 <= p,
        p + 2 * slots.len() <= b.len(),
        b.subrange(p, p + 2 * slots.len()) == slots_bytes(slots),
    ensures
        slots_at(b, p, slots.len()) == slots,
{
    lemma_auto_spec_u16_to_from_le_bytes();
    assert forall|i: int| 0 <= i < slots.len() implies #[trigger] u16_at(b, p + 2 * i) == slots[i] by {
        lemma_slots_bytes_index(slots, i);
        assert(b.subrange(p + 2 * i, p + 2 * i + 2) =~= slots_bytes(slots).subrange(2 * i, 2 * i + 2));
    }
    assert(slots_at(b, p, slots.len()) =~= slots);
}

/// Reading back written leaf cells gives the records in slot order.
pub proof fn lemma_leaf_cells_read(
    b: Seq<u8>,
    p: int,
    records: Seq<RecordView>,
    slots: Seq<u16>,
    k: int,
)
    requires
        0 <= p,
        0 <= k <= slots.len(),
        slots_in_range(slots, records.len()),
        b.len() <= u32::MAX,
        p + leaf_cells_len(records, slots.take(k)) <= b.len(),
        b.subrange(p, p + leaf_cells_len(records, slots.take(k))) == leaf_cells_bytes(
            records,
            slots.take(k),
        ),
    ensures
        records_at(b, p, k as nat) == Some(
            (
                Seq::new(k as nat, |i: int| records[slots[i] as int]),
                p + leaf_cells_len(records, slots.take(k)),
            ),
        ),
    decreases k,
{
    if k == 0 {
        assert(Seq::new(0, |i: int| records[slots[i] as int]) =~= Seq::<RecordView>::empty());
    } else {
        lemma_auto_spec_u32_to_from_le_bytes();
        let prev = leaf_cells_len(records, slots.take(k - 1)) as int;
        let r = records[slots[k - 1] as int];
        lemma_leaf_cells_step(records, slots, k - 1);
        lemma_leaf_cells_len(records, slots.take(k - 1));
        let q = p + prev;
        assert(b.subrange(p, p + prev) =~= b.subrange(p, p + leaf_cells_len(records, slots.take(k))).subrange(0, prev));
        assert(leaf_cells_bytes(records, slots.take(k)).subrange(0, prev) =~= leaf_cells_bytes(records, slots.take(k - 1)));
        lemma_leaf_cells_read(b, p, records, slots, k - 1);
        let cell = b.subrange(q, q + record_cell_len(r));
        assert(cell =~= b.subrange(p, p + leaf_cells_len(records, slots.take(k))).subrange(prev, prev + record_cell_len(r)));
        assert(cell =~= record_cell_bytes(r));
        assert(b.subrange(q, q + 4) =~= cell.subrange(0, 4));
        assert(cell.subrange(0, 4) =~= spec_u32_to_le_bytes(r.key));
        assert(b.subrange(q + 5, q + 9) =~= cell.subrange(5, 9));
        assert(cell.subrange(5, 9) =~= spec_u32_to_le_bytes(r.data.len() as u32));
        assert(cell[4] == bool_byte(r.is_deleted));
        assert(b[q + 4] == cell[4]);
        assert(cell.subrange(9, 9 + r.data.len() as int) =~= r.data);
        assert(b.subrange(q + 9, q + 9 + r.data.len()) =~= cell.subrange(9, 9 + r.data.len() as int));
        assert(record_at(b, q) == Some((r, q + record_cell_len(r))));
        assert(Seq::new((k - 1) as nat, |i: int| records[slots[i] as int]).push(r) =~= Seq::new(
            k as nat,
            |i: int| records[slots[i] as int],
        ));
    }
}

/// Slot `j` is named by one of the first `k` slots.
pub open spec fn named_before(slots: Seq<u16>, k: int, j: int) -> bool {
    exists|i: int| 0 <= i < k && #[trigger] slots[i] == j
}

/// Placing the cells of a slot order puts each named record back at its index.
pub proof fn lemma_place_in_slot_order<T>(r: Seq<T>, slots: Seq<u16>, base: Seq<T>, k: int)
    requires
        0 <= k <= slots.len(),
        slots_in_range(slots, r.len()),
        base.len() == r.len(),
    ensures
        place_cells(Seq::new(slots.len(), |i: int| r[slots[i] as int]), slots.take(k), base) == Some(
            Seq::new(r.len(), |j: int| if named_before(slots, k, j) { r[j] } else { base[j] }),
        ),
    decreases k,
{
    let cells = Seq::new(slots.len(), |i: int| r[slots[i] as int]);
    if k == 0 {
        assert(slots.take(0) =~= Seq::<u16>::empty());
        assert(Seq::new(r.len(), |j: int| if named_before(slots, 0, j) { r[j] } else { base[j] })
            =~= base);
    } else {
        lemma_place_in_slot_order(r, slots, base, k - 1);
        assert(slots.take(k).drop_last() =~= slots.take(k - 1));
        let prev = Seq::new(r.len(), |j: int| if named_before(slots, k - 1, j) { r[j] } else { base[j] });
        let s = slots[k - 1] as int;
        let next = Seq::new(r.len(), |j: int| if named_before(slots, k, j) { r[j] } else { base[j] });
        assert forall|j: int| 0 <= j < r.len() implies #[trigger] prev.update(s, r[s])[j] == next[j] by {
            if j == s {
                assert(named_before(slots, k, j));
            } else if named_before(slots, k, j) {
                let i = choose|i: int| 0 <= i < k && #[trigger] slots[i] == j;
                assert(named_before(slots, k - 1, j));
            } else if named_before(slots, k - 1, j) {
                let i = choose|i: int| 0 <= i < k - 1 && #[trigger] slots[i] == j;
                assert(slots[i] == j);
            }
        }
        assert(prev.update(s, r[s]) =~= next);
    }
}


/// Reading back written internal cells gives the entries in slot order.
pub proof fn lemma_internal_cells_read(
    b: Seq<u8>,
    p: int,
    entries: Seq<IndexEntry>,
    slots: Seq<u16>,
    k: int,
)
    requires
        0 <= p,
        0 <= k <= slots.len(),
        slots_in_range(slots, entries.len()),
        p + 12 * k <= b.len(),
        b.subrange(p, p + 12 * k) == internal_cells_bytes(entries, slots.take(k)),
    ensures
        entries_at(b, p, k as nat) == Some(
            (Seq::new(k as nat, |i: int| entries[slots[i] as int]), p + 12 * k),
        ),
    decreases k,
{
    if k == 0 {
        assert(Seq::new(0, |i: int| entries[slots[i] as int]) =~= Seq::<IndexEntry>::empty());
    } else {
        lemma_auto_spec_u32_to_from_le_bytes();
        lemma_auto_spec_u64_to_from_le_bytes();
        let e = entries[slots[k - 1] as int];
        lemma_internal_cells_step(entries, slots, k - 1);
        lemma_internal_cells_len(entries, slots.take(k - 1));
        let q = p + 12 * (k - 1);
        let full = internal_cells_bytes(entries, slots.take(k));
        assert(b.subrange(p, q) =~= b.subrange(p, p + 12 * k).subrange(0, 12 * (k - 1)));
        assert(full.subrange(0, 12 * (k - 1)) =~= internal_cells_bytes(entries, slots.take(k - 1)));
        lemma_internal_cells_read(b, p, entries, slots, k - 1);
        let cell = b.subrange(q, q + 12);
        assert(cell =~= full.subrange(12 * (k - 1), 12 * k));
        assert(cell =~= entry_cell_bytes(e));
        assert(b.subrange(q, q + 4) =~= cell.subrange(0, 4));
        assert(cell.subrange(0, 4) =~= spec_u32_to_le_bytes(e.key));
        assert(b.subrange(q + 4, q + 12) =~= cell.subrange(4, 12));
        assert(cell.subrange(4, 12) =~= spec_u64_to_le_bytes(e.child_page_id));
        assert(entry_at(b, q) == Some((e, q + 12)));
        assert(Seq::new((k - 1) as nat, |i: int| entries[slots[i] as int]).push(e) =~= Seq::new(
            k as nat,
            |i: int| entries[slots[i] as int],
        ));
    }
}

/// Every slot names one of `n` cells and every cell is named by a slot:
/// the slot array is a permutation of the cell indices.
pub open spec fn slots_cover(slots: Seq<u16>, n: nat) -> bool {
    &&& slots.len() == n
    &&& slots_in_range(slots, n)
    &&& forall|j: int| 0 <= j < n ==> named_before(slots, n as int, j)
}

/// The slot array of the node is a permutation of its cell indices.
pub open spec fn node_slots_cover(v: NodeView) -> bool {
    match v {
        NodeView::Internal(n) => slots_cover(n.slot_array, n.entries.len()),
        NodeView::Leaf(n) => slots_cover(n.slot_array, n.records.len()),
    }
}

/// The node as a page stores it: the free size that `encode` records and a
/// clear dirty flag.
pub open spec fn node_as_stored(v: NodeView) -> NodeView {
    match v {
        NodeView::Internal(n) => NodeView::Internal(
            InternalView { free_size: internal_free_size(n), is_dirty: false, ..n },
        ),
        NodeView::Leaf(n) => NodeView::Leaf(
            LeafView { free_size: leaf_free_size(n), is_dirty: false, ..n },
        ),
    }
}

/// What `decode` makes of a page that `encode` wrote for the leaf `v`: the
/// slot-ordered cells placed back by slot, with the recorded free size and a
/// clear dirty flag.
spec fn leaf_as_decoded(v: LeafView) -> Option<NodeView> {
    let n = v.slot_array.len();
    match place_cells(
        Seq::new(n, |i: int| v.records[v.slot_array[i] as int]),
        v.slot_array,
        Seq::new(n, |i: int| default_record_view()),
    ) {
        Some(records) => Some(
            NodeView::Leaf(LeafView { records, free_size: leaf_free_size(v), is_dirty: false, ..v }),
        ),
        None => None,
    }
}

/// What `decode` makes of a page that `encode` wrote for the internal node `v`.
spec fn internal_as_decoded(v: InternalView) -> Option<NodeView> {
    let n = v.slot_array.len();
    match place_cells(
        Seq::new(n, |i: int| v.entries[v.slot_array[i] as int]),
        v.slot_array,
        Seq::new(n, |i: int| IndexEntry { key: 0, child_page_id: 0 }),
    ) {
        Some(entries) => Some(
            NodeView::Internal(
                InternalView { entries, free_size: internal_free_size(v), is_dirty: false, ..v },
            ),
        ),
        None => None,
    }
}

proof fn lemma_leaf_decode_encoded(v: LeafView, old: Seq<u8>)
    requires
        old.len() == PAGE_SIZE,
        slots_in_range(v.slot_array, v.records.len()),
        leaf_used_len(v) <= PAGE_SIZE,
    ensures
        decode_spec(leaf_page_bytes(v, old)) == leaf_as_decoded(v),
{
    lemma_auto_spec_u16_to_from_le_bytes();
    lemma_auto_spec_u32_to_from_le_bytes();
    lemma_auto_spec_u64_to_from_le_bytes();
    let n = v.slot_array.len() as int;
    let f = leaf_free_size(v);
    let h = leaf_header_len(v);
    let hdr = leaf_header_bytes(v, f);
    let cells = leaf_cells_bytes(v.records, v.slot_array);
    let b = leaf_page_bytes(v, old);
    lemma_slots_bytes_len(v.slot_array);
    lemma_leaf_cells_len(v.records, v.slot_array);
    assert(hdr.len() == h);
    assert(b.len() == PAGE_SIZE);
    assert(b[0] == 1);
    assert(b.subrange(1, 9) =~= spec_u64_to_le_bytes(v.page_id));
    assert(b.subrange(9, 17) =~= spec_u64_to_le_bytes(v.last_lsn));
    assert(b[17] == bool_byte(v.has_prev));
    assert(b[18] == bool_byte(v.has_next));
    assert(b.subrange(19, 27) =~= spec_u64_to_le_bytes(v.prev_page_id));
    assert(b.subrange(27, 35) =~= spec_u64_to_le_bytes(v.next_page_id));
    assert(b.subrange(35, 39) =~= spec_u32_to_le_bytes(n as u32));
    assert(u32_at(b, 35) == n);
    assert(b.subrange(39, 39 + 2 * n) =~= slots_bytes(v.slot_array));
    lemma_slots_read(b, 39, v.slot_array);
    assert(b.subrange(39 + 2 * n, 41 + 2 * n) =~= spec_u16_to_le_bytes(f));
    assert(u16_at(b, 39 + 2 * n) == f);
    let start = 41 + 2 * n + f;
    assert(v.slot_array.take(n as int) =~= v.slot_array);
    assert(b.subrange(start, start + leaf_cells_len(v.records, v.slot_array)) =~= cells);
    lemma_leaf_cells_read(b, start, v.records, v.slot_array, n as int);
}

proof fn lemma_internal_decode_encoded(v: InternalView, old: Seq<u8>)
    requires
        old.len() == PAGE_SIZE,
        slots_in_range(v.slot_array, v.entries.len()),
        internal_used_len(v) <= PAGE_SIZE,
    ensures
        decode_spec(internal_page_bytes(v, old)) == internal_as_decoded(v),
{
    lemma_auto_spec_u16_to_from_le_bytes();
    lemma_auto_spec_u32_to_from_le_bytes();
    lemma_auto_spec_u64_to_from_le_bytes();
    let n = v.slot_array.len() as int;
    let f = internal_free_size(v);
    let h = internal_header_len(v);
    let hdr = internal_header_bytes(v, f);
    let cells = internal_cells_bytes(v.entries, v.slot_array);
    let b = internal_page_bytes(v, old);
    lemma_slots_bytes_len(v.slot_array);
    lemma_internal_cells_len(v.entries, v.slot_array);
    assert(hdr.len() == h);
    assert(b.len() == PAGE_SIZE);
    assert(b[0] == 0);
    assert(b.subrange(1, 9) =~= spec_u64_to_le_bytes(v.page_id));
    assert(b.subrange(9, 17) =~= spec_u64_to_le_bytes(v.last_lsn));
    assert(b.subrange(17, 25) =~= spec_u64_to_le_bytes(v.rightmost_child));
    assert(b.subrange(25, 29) =~= spec_u32_to_le_bytes(n as u32));
    assert(u32_at(b, 25) == n);
    assert(b.subrange(29, 29 + 2 * n) =~= slots_bytes(v.slot_array));
    lemma_slots_read(b, 29, v.slot_array);
    assert(b.subrange(29 + 2 * n, 31 + 2 * n) =~= spec_u16_to_le_bytes(f));
    assert(u16_at(b, 29 + 2 * n) == f);
    let start = 31 + 2 * n + f;
    assert(v.slot_array.take(n as int) =~= v.slot_array);
    assert(b.subrange(start, start + 12 * n) =~= cells);
    lemma_internal_cells_read(b, start, v.entries, v.slot_array, n as int);
}

proof fn lemma_leaf_round_trip(v: LeafView, old: Seq<u8>)
    requires
        old.len() == PAGE_SIZE,
        slots_cover(v.slot_array, v.records.len()),
        leaf_used_len(v) <= PAGE_SIZE,
    ensures
        decode_spec(leaf_page_bytes(v, old)) == Some(
            node_as_stored(NodeView::Leaf(v)),
        ),
{
    let n = v.slot_array.len() as int;
    lemma_leaf_decode_encoded(v, old);
    let base = Seq::new(n as nat, |i: int| default_record_view());
    lemma_place_in_slot_order(v.records, v.slot_array, base, n as int);
    assert(v.slot_array.take(n as int) =~= v.slot_array);
    assert(Seq::new(v.records.len(), |j: int| if named_before(v.slot_array, n as int, j) {
        v.records[j]
    } else {
        base[j]
    }) =~= v.records);
}

proof fn lemma_internal_round_trip(v: InternalView, old: Seq<u8>)
    requires
        old.len() == PAGE_SIZE,
        slots_cover(v.slot_array, v.entries.len()),
        internal_used_len(v) <= PAGE_SIZE,
    ensures
        decode_spec(internal_page_bytes(v, old)) == Some(
            node_as_stored(NodeView::Internal(v)),
        ),
{
    let n = v.slot_array.len() as int;
    lemma_internal_decode_encoded(v, old);
    let base = Seq::new(n as nat, |i: int| IndexEntry { key: 0, child_page_id: 0 });
    lemma_place_in_slot_order(v.entries, v.slot_array, base, n as int);
    assert(v.slot_array.take(n as int) =~= v.slot_array);
    assert(Seq::new(v.entries.len(), |j: int| if named_before(v.slot_array, n as int, j) {
        v.entries[j]
    } else {
        base[j]
    }) =~= v.entries);
}

/// Decoding a page that `encode` wrote gives back the node that was
/// encoded, with the free size it recorded and a clear dirty flag, whatever
/// the page held before, provided the node fits its page and its slot array
/// is a permutation of its cell indices.
pub proof fn lemma_decode_inverts_encode(v: NodeView, old: Seq<u8>)
    requires
        old.len() == PAGE_SIZE,
        node_slots_cover(v),
        node_used_len(v) <= PAGE_SIZE,
    ensures
        decode_spec(node_page_bytes(v, old)) == Some(node_as_stored(v)),
{
    match v {
        NodeView::Internal(n) => lemma_internal_round_trip(n, old),
        NodeView::Leaf(n) => lemma_leaf_round_trip(n, old),
    }
}


/// The two nodes are alike in every field but the free size and the dirty flag.
pub open spec fn alike_but_free_and_dirty(v1: NodeView, v2: NodeView) -> bool {
    match (v1, v2) {
        (NodeView::Internal(a), NodeView::Internal(b)) => InternalView {
            free_size: 0,
            is_dirty: false,
            ..a
        } == InternalView { free_size: 0, is_dirty: false, ..b },
        (NodeView::Leaf(a), NodeView::Leaf(b)) => LeafView { free_size: 0, is_dirty: false, ..a }
            == LeafView { free_size: 0, is_dirty: false, ..b },
        _ => false,
    }
}

/// What a page decodes to after an encode depends neither on the free size
/// and dirty flag the node carried nor on what the page held before. It
/// holds of every node that `encode` writes: one that fits its page and
/// whose slots all name one of its cells. Where the slot array is moreover
/// a permutation of the cells, the page decodes.
pub proof fn lemma_decode_ignores_free_dirty_and_old(
    v1: NodeView,
    v2: NodeView,
    old1: Seq<u8>,
    old2: Seq<u8>,
)
    requires
        alike_but_free_and_dirty(v1, v2),
        old1.len() == PAGE_SIZE,
        old2.len() == PAGE_SIZE,
        node_slots_in_range(v1),
        node_used_len(v1) <= PAGE_SIZE,
    ensures
        decode_spec(node_page_bytes(v1, old1)) == decode_spec(node_page_bytes(v2, old2)),
        node_slots_cover(v1) ==> decode_spec(node_page_bytes(v1, old1)) is Some,
{
    match (v1, v2) {
        (NodeView::Internal(a), NodeView::Internal(b)) => {
            let a0 = InternalView { free_size: 0, is_dirty: false, ..a };
            assert(a0.slot_array == b.slot_array);
            assert(a0.entries == b.entries);
            assert(a0.page_id == b.page_id && a0.last_lsn == b.last_lsn && a0.rightmost_child
                == b.rightmost_child);
            lemma_internal_decode_encoded(a, old1);
            lemma_internal_decode_encoded(b, old2);
            assert(internal_as_decoded(a) == internal_as_decoded(b));
        },
        (NodeView::Leaf(a), NodeView::Leaf(b)) => {
            let a0 = LeafView { free_size: 0, is_dirty: false, ..a };
            assert(a0.slot_array == b.slot_array);
            assert(a0.records == b.records);
            assert(a0.page_id == b.page_id && a0.last_lsn == b.last_lsn && a0.has_prev == b.has_prev
                && a0.has_next == b.has_next && a0.prev_page_id == b.prev_page_id && a0.next_page_id
                == b.next_page_id);
            lemma_leaf_decode_encoded(a, old1);
            lemma_leaf_decode_encoded(b, old2);
            assert(leaf_as_decoded(a) == leaf_as_decoded(b));
        },
        _ => {},
    }
    if node_slots_cover(v1) {
        lemma_decode_inverts_encode(v1, old1);
    }
}

/// Placing succeeds only where every slot is in range, and keeps the length.
pub proof fn lemma_place_ok_in_range<T>(cells: Seq<T>, slots: Seq<u16>, base: Seq<T>)
    requires
        place_cells(cells, slots, base) is Some,
    ensures
        slots_in_range(slots, base.len()),
        place_cells(cells, slots, base).unwrap().len() == base.len(),
    decreases slots.len(),
{
    if slots.len() > 0 {
        lemma_place_ok_in_range(cells, slots.drop_last(), base);
        assert forall|i: int| 0 <= i < slots.len() implies (#[trigger] slots[i]) < base.len() by {
            if i < slots.len() - 1 {
                assert(slots.drop_last()[i] == slots[i]);
            }
        }
    }
}

/// Every node that `decode` accepts has its slots in range.
pub proof fn lemma_decoded_slots_in_range(b: Seq<u8>)
    requires
        decode_spec(b) is Some,
    ensures
        node_slots_in_range(decode_spec(b).unwrap()),
{
    if b[0] == NodeType::Leaf.spec_byte() {
        let n = u32_at(b, 35) as nat;
        let free = u16_at(b, (39 + 2 * n) as int);
        let cells = records_at(b, 41 + 2 * n + free, n).unwrap().0;
        lemma_place_ok_in_range(cells, slots_at(b, 39, n), Seq::new(n, |i: int| default_record_view()));
    } else {
        let n = u32_at(b, 25) as nat;
        let free = u16_at(b, (29 + 2 * n) as int);
        let cells = entries_at(b, 31 + 2 * n + free, n).unwrap().0;
        lemma_place_ok_in_range(cells, slots_at(b, 29, n), Seq::new(n, |i: int| IndexEntry { key: 0, child_page_id: 0 }));
    }
}


/// Encoding, over a page that `encode` wrote, the node that decoding gives
/// back reproduces the page byte for byte: writing back a page that was read
/// and left unchanged does not alter it.
pub proof fn lemma_reencode_reproduces_page(v: NodeView, old: Seq<u8>)
    requires
        old.len() == PAGE_SIZE,
        node_used_len(v) <= PAGE_SIZE,
    ensures
        node_used_len(node_as_stored(v)) == node_used_len(v),
        node_page_bytes(node_as_stored(v), node_page_bytes(v, old)) == node_page_bytes(v, old),
{
    match v {
        NodeView::Internal(n) => {
            let b = internal_page_bytes(n, old);
            let h = internal_header_len(n);
            let f = internal_free_size(n);
            lemma_slots_bytes_len(n.slot_array);
            lemma_internal_cells_len(n.entries, n.slot_array);
            lemma_auto_spec_u16_to_from_le_bytes();
            lemma_auto_spec_u32_to_from_le_bytes();
            lemma_auto_spec_u64_to_from_le_bytes();
            assert(internal_header_bytes(n, f).len() == h);
            assert(b.subrange(h as int, h + f) =~= old.subrange(h as int, h + f));
            assert(node_page_bytes(node_as_stored(v), b) =~= b);
        },
        NodeView::Leaf(n) => {
            let b = leaf_page_bytes(n, old);
            let h = leaf_header_len(n);
            let f = leaf_free_size(n);
            lemma_slots_bytes_len(n.slot_array);
            lemma_leaf_cells_len(n.records, n.slot_array);
            lemma_auto_spec_u16_to_from_le_bytes();
            lemma_auto_spec_u32_to_from_le_bytes();
            lemma_auto_spec_u64_to_from_le_bytes();
            assert(leaf_header_bytes(n, f).len() == h);
            assert(b.subrange(h as int, h + f) =~= old.subrange(h as int, h + f));
            assert(node_page_bytes(node_as_stored(v), b) =~= b);
        },
    }
}

} // verus!
