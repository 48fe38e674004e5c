//! Decoding of pages into nodes.
use crate::error::DbError;
use crate::storage::cursor::ByteCursor;
use crate::storage::layout::{
    decode_internal_spec, decode_leaf_spec, decode_spec, entries_at, entry_at, place_cells,
    record_at, records_at, slots_at, u16_at, u32_at, u64_at,
};
use crate::storage::page::{
    default_record_view, BTreeNode, IndexEntry, InternalNode, LeafNode, NodeType, Page, Record,
    RecordView, INTERNAL_NODE_HEADER_SIZE, LEAF_NODE_HEADER_SIZE, PAGE_SIZE,
};
use vstd::prelude::*;

verus! {

/// The message of a page whose first byte names no node kind, built by
/// std's `format!`; nothing is stated of the text.
#[verifier::external_body]
fn unknown_node_type_message(val: u8) -> String {
    format!("Unknown node type: {}", val)
}

/// A cell that fails to parse makes every longer run of cells fail.
proof fn lemma_records_fail(b: Seq<u8>, p: int, i: nat, k: nat)
    requires
        i < k,
        records_at(b, p, i) matches Some((rs, q)) && record_at(b, q) is None,
    ensures
        records_at(b, p, k) is None,
    decreases k,
{
    if k > i + 1 {
        lemma_records_fail(b, p, i, (k - 1) as nat);
    }
}

/// A shorter run of cells is a prefix of a longer one.
proof fn lemma_records_prefix(b: Seq<u8>, p: int, i: nat, k: nat)
    requires
        i <= k,
        records_at(b, p, k) is Some,
    ensures
        records_at(b, p, i) is Some,
        records_at(b, p, i).unwrap().0 == records_at(b, p, k).unwrap().0.take(i as int),
        records_at(b, p, k).unwrap().0.len() == k,
    decreases k,
{
    if k == 0 {
        assert(records_at(b, p, k).unwrap().0 =~= Seq::<RecordView>::empty());
    } else {
        lemma_records_prefix(b, p, (k - 1) as nat, (k - 1) as nat);
        if i < k {
            lemma_records_prefix(b, p, i, (k - 1) as nat);
            let prev = records_at(b, p, (k - 1) as nat).unwrap().0;
            let full = records_at(b, p, k).unwrap().0;
            assert(full.take(i as int) =~= prev.take(i as int));
        } else {
            assert(records_at(b, p, k).unwrap().0.take(i as int) =~= records_at(b, p, k).unwrap().0);
        }
    }
}

/// An internal cell that fails to parse makes every longer run of cells fail.
proof fn lemma_entries_fail(b: Seq<u8>, p: int, i: nat, k: nat)
    requires
        i < k,
        entries_at(b, p, i) matches Some((es, q)) && entry_at(b, q) is None,
    ensures
        entries_at(b, p, k) is None,
    decreases k,
{
    if k > i + 1 {
        lemma_entries_fail(b, p, i, (k - 1) as nat);
    }
}

/// A shorter run of internal cells is a prefix of a longer one.
proof fn lemma_entries_prefix(b: Seq<u8>, p: int, i: nat, k: nat)
    requires
        i <= k,
        entries_at(b, p, k) is Some,
    ensures
        entries_at(b, p, i) is Some,
        entries_at(b, p, i).unwrap().0 == entries_at(b, p, k).unwrap().0.take(i as int),
        entries_at(b, p, k).unwrap().0.len() == k,
    decreases k,
{
    if k == 0 {
        assert(entries_at(b, p, k).unwrap().0 =~= Seq::<IndexEntry>::empty());
    } else {
        lemma_entries_prefix(b, p, (k - 1) as nat, (k - 1) as nat);
        if i < k {
            lemma_entries_prefix(b, p, i, (k - 1) as nat);
            let prev = entries_at(b, p, (k - 1) as nat).unwrap().0;
            let full = entries_at(b, p, k).unwrap().0;
            assert(full.take(i as int) =~= prev.take(i as int));
        } else {
            assert(entries_at(b, p, k).unwrap().0.take(i as int) =~= entries_at(b, p, k).unwrap().0);
        }
    }
}

/// Placing depends only on the cells that the slots reach.
proof fn lemma_place_agree<T>(c1: Seq<T>, c2: Seq<T>, slots: Seq<u16>, base: Seq<T>)
    requires
        c1.len() >= slots.len(),
        c2.len() >= slots.len(),
        forall|j: int| 0 <= j < slots.len() ==> c1[j] == c2[j],
    ensures
        place_cells(c1, slots, base) == place_cells(c2, slots, base),
    decreases slots.len(),
{
    if slots.len() > 0 {
        lemma_place_agree(c1, c2, slots.drop_last(), base);
    }
}

/// Once a slot is out of range, every longer run of slots fails too.
proof fn lemma_place_fail<T>(cells: Seq<T>, slots: Seq<u16>, base: Seq<T>, i: int, k: int)
    requires
        0 <= i <= k <= slots.len(),
        place_cells(cells, slots.take(i), base) is None,
    ensures
        place_cells(cells, slots.take(k), base) is None,
    decreases k,
{
    if k > i {
        lemma_place_fail(cells, slots, base, i, k - 1);
        assert(slots.take(k).drop_last() =~= slots.take(k - 1));
    }
}

/// One more slot places one more cell.
proof fn lemma_place_step<T>(cells: Seq<T>, slots: Seq<u16>, base: Seq<T>, i: int)
    requires
        0 <= i < slots.len(),
    ensures
        place_cells(cells, slots.take(i + 1), base) == match place_cells(cells, slots.take(i), base) {
            Some(s) => if slots[i] < s.len() {
                Some(s.update(slots[i] as int, cells[i]))
            } else {
                None::<Seq<T>>
            },
            None => None,
        },
{
    assert(slots.take(i + 1).drop_last() =~= slots.take(i));
}

/// The view of a vector of records.
pub open spec fn records_view(v: Seq<Record>) -> Seq<RecordView> {
    v.map_values(|r: Record| r@)
}

/// `n` default records.
fn default_records(n: usize) -> (v: Vec<Record>)
    ensures
        v@.len() == n,
        records_view(v@) == Seq::new(n as nat, |i: int| default_record_view()),
{
    let mut v: Vec<Record> = Vec::new();
    let mut i: usize = 0;
    while i < n
        invariant
            0 <= i <= n,
            v@.len() == i,
            records_view(v@) == Seq::new(i as nat, |j: int| default_record_view()),
        decreases n - i,
    {
        let r = Record::default();
        let ghost before = v@;
        v.push(r);
        i = i + 1;
        assert forall|j: int| 0 <= j < i implies #[trigger] records_view(v@)[j] == default_record_view() by {
            if j < i - 1 {
                assert(records_view(before)[j] == default_record_view());
                assert(v@[j] == before[j]);
            }
        }
        assert(records_view(v@) =~= Seq::new(i as nat, |j: int| default_record_view()));
    }
    v
}

/// `n` zeroed routing entries.
fn default_entries(n: usize) -> (v: Vec<IndexEntry>)
    ensures
        v@ == Seq::new(n as nat, |i: int| IndexEntry { key: 0, child_page_id: 0 }),
{
    let mut v: Vec<IndexEntry> = Vec::new();
    let mut i: usize = 0;
    while i < n
        invariant
            0 <= i <= n,
            v@ == Seq::new(i as nat, |j: int| IndexEntry { key: 0, child_page_id: 0 }),
        decreases n - i,
    {
        v.push(IndexEntry::default());
        i = i + 1;
        assert(v@ =~= Seq::new(i as nat, |j: int| IndexEntry { key: 0, child_page_id: 0 }));
    }
    v
}

/// Reads `n` slots from the cursor on.
fn read_slots(cursor: &mut ByteCursor, n: usize) -> (slots: Vec<u16>)
    requires
        old(cursor).pos() + 2 * n <= old(cursor).bytes().len(),
    ensures
        slots@ == slots_at(old(cursor).bytes(), old(cursor).pos(), n as nat),
        final(cursor).bytes() == old(cursor).bytes(),
        final(cursor).pos() == old(cursor).pos() + 2 * n,
{
    let ghost b = cursor.bytes();
    let ghost start = cursor.pos();
    let mut slots: Vec<u16> = Vec::new();
    let mut i: usize = 0;
    while i < n
        invariant
            0 <= i <= n,
            cursor.bytes() == b,
            start + 2 * n <= b.len(),
            cursor.pos() == start + 2 * i,
            slots@ == slots_at(b, start, i as nat),
        decreases n - i,
    {
        let s = cursor.read_u16();
        slots.push(s);
        i = i + 1;
        assert(slots@ =~= slots_at(b, start, i as nat));
    }
    slots
}

impl LeafNode {
    /// Decodes the leaf from the cursor standing just after the node-type byte.
    fn decode_from(cursor: &mut ByteCursor) -> (result: Result<LeafNode, DbError>)
        requires
            old(cursor).bytes().len() == PAGE_SIZE,
            old(cursor).pos() == 1,
        ensures
            match result {
                Ok(node) => decode_leaf_spec(old(cursor).bytes()) == Some(node@),
                Err(e) => decode_leaf_spec(old(cursor).bytes()) is None && e is CorruptPage,
            },
    {
        let ghost b = cursor.bytes();
        let page_id = cursor.read_u64();
        let last_lsn = cursor.read_u64();
        let has_prev = cursor.read_u8() != 0;
        let has_next = cursor.read_u8() != 0;
        let prev_page_id = cursor.read_u64();
        let next_page_id = cursor.read_u64();
        let cell_count = cursor.read_u32();
        let n = cell_count as usize;
        if n > (PAGE_SIZE - LEAF_NODE_HEADER_SIZE) / 2 {
            return Err(DbError::CorruptPage("leaf slot array exceeds the page".to_owned()));
        }
        let slot_array = read_slots(cursor, n);
        let free_size = cursor.read_u16();
        cursor.skip(free_size as usize);
        let ghost start = cursor.pos();
        let ghost base = Seq::new(n as nat, |i: int| default_record_view());
        let mut records = default_records(n);
        let ghost mut footer: Seq<RecordView> = Seq::empty();
        proof {
            assert(slot_array@.take(0) =~= Seq::<u16>::empty());
        }
        let mut i: usize = 0;
        while i < n
            invariant
                0 <= i <= n,
                n == cell_count,
                b.len() == PAGE_SIZE,
                b == old(cursor).bytes(),
                cursor.bytes() == b,
                slot_array@.len() == n,
                records_at(b, start, i as nat) == Some((footer, cursor.pos())),
                place_cells(footer, slot_array@.take(i as int), base) == Some(records_view(records@)),
                records@.len() == n,
                footer.len() == i,
                start == 41 + 2 * n + free_size,
                u32_at(b, 35) == n,
                free_size == u16_at(b, 39 + 2 * n),
                slot_array@ == slots_at(b, 39, n as nat),
                base == Seq::new(n as nat, |i: int| default_record_view()),
                page_id == u64_at(b, 1),
                last_lsn == u64_at(b, 9),
                has_prev == (b[17] != 0),
                has_next == (b[18] != 0),
                prev_page_id == u64_at(b, 19),
                next_page_id == u64_at(b, 27),
            decreases n - i,
        {
            let pos = cursor.position();
            proof {
                cursor.lemma_pos_nonneg();
                lemma_place_step(footer, slot_array@, base, i as int);
            }
            if pos > PAGE_SIZE || PAGE_SIZE - pos < 9 {
                proof {
                    lemma_records_fail(b, start, i as nat, n as nat);
                }
                return Err(DbError::CorruptPage("leaf cell exceeds the page".to_owned()));
            }
            let key = cursor.read_u32();
            let is_deleted = cursor.read_u8() != 0;
            let size = cursor.read_u32() as usize;
            if PAGE_SIZE - cursor.position() < size {
                proof {
                    lemma_records_fail(b, start, i as nat, n as nat);
                }
                return Err(DbError::CorruptPage("leaf cell exceeds the page".to_owned()));
            }
            let data = cursor.read_bytes(size);
            let record = Record { key, data, is_deleted };
            let ghost next_footer = footer.push(record@);
            proof {
                assert(record_at(b, pos as int) == Some((record@, cursor.pos())));
                assert(records_at(b, start, (i + 1) as nat) == Some((next_footer, cursor.pos())));
                lemma_place_agree(footer, next_footer, slot_array@.take(i as int), base);
                lemma_place_step(next_footer, slot_array@, base, i as int);
            }
            let idx = slot_array[i] as usize;
            if idx >= n {
                proof {
                    lemma_place_fail(next_footer, slot_array@, base, i + 1, n as int);
                    assert(slot_array@.take(n as int) =~= slot_array@);
                    if records_at(b, start, n as nat) is Some {
                        lemma_records_prefix(b, start, (i + 1) as nat, n as nat);
                        let full = records_at(b, start, n as nat).unwrap().0;
                        lemma_place_agree(next_footer, full, slot_array@.take(i + 1), base);
                        lemma_place_fail(full, slot_array@, base, i + 1, n as int);
                    }
                }
                return Err(DbError::CorruptPage("leaf slot names no cell".to_owned()));
            }
            let ghost before = records@;
            records.set(idx, record);
            proof {
                footer = next_footer;
                assert(records_view(records@) =~= records_view(before).update(idx as int, footer[i as int]));
            }
            i = i + 1;
        }
        proof {
            assert(slot_array@.take(n as int) =~= slot_array@);
        }
        let node = LeafNode {
            page_id,
            last_lsn,
            has_prev,
            has_next,
            prev_page_id,
            next_page_id,
            slot_array,
            records,
            free_size,
            is_dirty: false,
        };
        Ok(node)
    }
}

impl InternalNode {
    /// Decodes the internal node from the cursor standing just after the
    /// node-type byte.
    fn decode_from(cursor: &mut ByteCursor) -> (result: Result<InternalNode, DbError>)
        requires
            old(cursor).bytes().len() == PAGE_SIZE,
            old(cursor).pos() == 1,
        ensures
            match result {
                Ok(node) => decode_internal_spec(old(cursor).bytes()) == Some(node@),
                Err(e) => decode_internal_spec(old(cursor).bytes()) is None && e is CorruptPage,
            },
    {
        let ghost b = cursor.bytes();
        let page_id = cursor.read_u64();
        let last_lsn = cursor.read_u64();
        let rightmost_child = cursor.read_u64();
        let cell_count = cursor.read_u32();
        let n = cell_count as usize;
        if n > (PAGE_SIZE - INTERNAL_NODE_HEADER_SIZE) / 2 {
            return Err(DbError::CorruptPage("internal slot array exceeds the page".to_owned()));
        }
        let slot_array = read_slots(cursor, n);
        let free_size = cursor.read_u16();
        cursor.skip(free_size as usize);
        let ghost start = cursor.pos();
        let ghost base = Seq::new(n as nat, |i: int| IndexEntry { key: 0, child_page_id: 0 });
        let mut entries = default_entries(n);
        let ghost mut footer: Seq<IndexEntry> = Seq::empty();
        proof {
            assert(slot_array@.take(0) =~= Seq::<u16>::empty());
        }
        let mut i: usize = 0;
        while i < n
            invariant
                0 <= i <= n,
                n == cell_count,
                b.len() == PAGE_SIZE,
                b == old(cursor).bytes(),
                cursor.bytes() == b,
                slot_array@.len() == n,
                entries_at(b, start, i as nat) == Some((footer, cursor.pos())),
                place_cells(footer, slot_array@.take(i as int), base) == Some(entries@),
                entries@.len() == n,
                footer.len() == i,
                start == 31 + 2 * n + free_size,
                u32_at(b, 25) == n,
                free_size == u16_at(b, 29 + 2 * n),
                slot_array@ == slots_at(b, 29, n as nat),
                base == Seq::new(n as nat, |i: int| IndexEntry { key: 0, child_page_id: 0 }),
                page_id == u64_at(b, 1),
                last_lsn == u64_at(b, 9),
                rightmost_child == u64_at(b, 17),
            decreases n - i,
        {
            let pos = cursor.position();
            proof {
                cursor.lemma_pos_nonneg();
                lemma_place_step(footer, slot_array@, base, i as int);
            }
            if pos > PAGE_SIZE || PAGE_SIZE - pos < 12 {
                proof {
                    lemma_entries_fail(b, start, i as nat, n as nat);
                }
                return Err(DbError::CorruptPage("internal cell exceeds the page".to_owned()));
            }
            let key = cursor.read_u32();
            let child_page_id = cursor.read_u64();
            let entry = IndexEntry { key, child_page_id };
            let ghost next_footer = footer.push(entry);
            proof {
                assert(entry_at(b, pos as int) == Some((entry, cursor.pos())));
                assert(entries_at(b, start, (i + 1) as nat) == Some((next_footer, cursor.pos())));
                lemma_place_agree(footer, next_footer, slot_array@.take(i as int), base);
                lemma_place_step(next_footer, slot_array@, base, i as int);
            }
            let idx = slot_array[i] as usize;
            if idx >= n {
                proof {
                    lemma_place_fail(next_footer, slot_array@, base, i + 1, n as int);
                    assert(slot_array@.take(n as int) =~= slot_array@);
                    if entries_at(b, start, n as nat) is Some {
                        lemma_entries_prefix(b, start, (i + 1) as nat, n as nat);
                        let full = entries_at(b, start, n as nat).unwrap().0;
                        lemma_place_agree(next_footer, full, slot_array@.take(i + 1), base);
                        lemma_place_fail(full, slot_array@, base, i + 1, n as int);
                    }
                }
                return Err(DbError::CorruptPage("internal slot names no cell".to_owned()));
            }
            entries.set(idx, entry);
            proof {
                footer = next_footer;
            }
            i = i + 1;
        }
        proof {
            assert(slot_array@.take(n as int) =~= slot_array@);
        }
        Ok(InternalNode {
            page_id,
            last_lsn,
            rightmost_child,
            slot_array,
            entries,
            free_size,
            is_dirty: false,
        })
    }
}

impl BTreeNode {
    /// Reads the node stored in `page`. The first byte selects a leaf (1) or
    /// an internal node (0); any other byte, or a page whose slots or cells do
    /// not fit in it or whose slots name no cell, is reported as
    /// `CorruptPage`. Cells are read in slot order, and the `i`-th cell is
    /// stored at index `slot_array[i]`.
    pub fn decode(page: &Page) -> (result: Result<Self, DbError>)
        ensures
            match result {
                Ok(node) => decode_spec(page@) == Some(node@),
                Err(e) => decode_spec(page@) is None && e is CorruptPage,
            },
    {
        let mut cursor = ByteCursor::new(crate::storage::codec::page_to_vec(page));
        proof {
            assert(page@.len() == PAGE_SIZE);
        }
        let tag = cursor.read_u8();
        if tag == NodeType::Leaf.as_u8() {
            match LeafNode::decode_from(&mut cursor) {
                Ok(node) => Ok(BTreeNode::Leaf(node)),
                Err(e) => Err(e),
            }
        } else if tag == NodeType::Internal.as_u8() {
            match InternalNode::decode_from(&mut cursor) {
                Ok(node) => Ok(BTreeNode::Internal(node)),
                Err(e) => Err(e),
            }
        } else {
            Err(DbError::CorruptPage(unknown_node_type_message(tag)))
        }
    }
}

} // verus!
