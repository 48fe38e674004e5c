//! Encoding of nodes into pages and decoding of pages into nodes.
use crate::error::DbError;
use crate::storage::cursor::{splice, ByteCursor};
use crate::storage::layout::{
    lemma_internal_cells_len, lemma_internal_cells_step, lemma_leaf_cells_len,
    lemma_leaf_cells_len_mono, lemma_leaf_cells_step, lemma_slots_bytes_len,
    lemma_slots_bytes_step, bool_byte, internal_cells_bytes, internal_header_bytes, internal_header_len,
    internal_page_bytes, internal_used_len, leaf_cells_bytes, leaf_cells_len, leaf_header_bytes,
    leaf_header_len, leaf_page_bytes, leaf_used_len, node_page_bytes, node_slots_in_range,
    node_used_len, record_cell_bytes, record_cell_len, slots_bytes, entry_cell_bytes,
};
use crate::storage::page::{
    BTreeNode, InternalNode, LeafNode, NodeType, Page, INDEX_ENTRY_SIZE,
    INTERNAL_NODE_HEADER_SIZE, LEAF_NODE_HEADER_SIZE, PAGE_SIZE, RECORD_META_SIZE, SLOT_ELEM_SIZE,
};
use vstd::bytes::*;
use vstd::prelude::*;

verus! {

/// Writing `v` right after a written prefix `w` extends the prefix.
proof fn lemma_splice_extend(s: Seq<u8>, w: Seq<u8>, v: Seq<u8>)
    requires
        w.len() + v.len() <= s.len(),
    ensures
        splice(splice(s, 0, w), w.len() as int, v) == splice(s, 0, w + v),
        splice(s, 0, w + v).len() == s.len(),
{
    assert(splice(splice(s, 0, w), w.len() as int, v) =~= splice(s, 0, w + v));
}

/// A header at the front and cells that end the buffer leave the gap between them.
proof fn lemma_splice_frame(s: Seq<u8>, h: Seq<u8>, gap: int, c: Seq<u8>)
    requires
        0 <= gap,
        h.len() + gap + c.len() == s.len(),
    ensures
        splice(splice(s, 0, h), h.len() + gap, c) == h + s.subrange(
            h.len() as int,
            h.len() + gap,
        ) + c,
{
    assert(splice(splice(s, 0, h), h.len() + gap, c) =~= h + s.subrange(
        h.len() as int,
        h.len() + gap,
    ) + c);
}








/// A copy of the page's bytes.
pub(crate) fn page_to_vec(page: &Page) -> (v: Vec<u8>)
    ensures
        v@ == page@,
{
    let bytes = page.as_bytes();
    let mut v: Vec<u8> = Vec::new();
    let mut i: usize = 0;
    while i < PAGE_SIZE
        invariant
            0 <= i <= PAGE_SIZE,
            bytes@.len() == PAGE_SIZE,
            bytes@ == page@,
            v@ == bytes@.subrange(0, i as int),
        decreases PAGE_SIZE - i,
    {
        v.push(bytes[i]);
        i = i + 1;
        assert(v@ =~= bytes@.subrange(0, i as int));
    }
    assert(bytes@.subrange(0, PAGE_SIZE as int) =~= bytes@);
    v
}

/// A page holding the bytes of `v`.
fn page_from_vec(v: &Vec<u8>) -> (page: Page)
    requires
        v@.len() == PAGE_SIZE,
    ensures
        page@ == v@,
{
    let mut arr = [0u8; PAGE_SIZE];
    let mut i: usize = 0;
    while i < PAGE_SIZE
        invariant
            0 <= i <= PAGE_SIZE,
            v@.len() == PAGE_SIZE,
            arr@.len() == PAGE_SIZE,
            forall|j: int| 0 <= j < i ==> arr@[j] == v@[j],
        decreases PAGE_SIZE - i,
    {
        arr[i] = v[i];
        i = i + 1;
    }
    assert(arr@ =~= v@);
    Page { data: Box::new(arr) }
}

/// Writes one leaf cell at the cursor.
fn write_record_cell(cursor: &mut ByteCursor, cell: &crate::storage::page::Record)
    requires
        old(cursor).pos() + record_cell_len(cell@) <= old(cursor).bytes().len(),
    ensures
        final(cursor).bytes() == splice(old(cursor).bytes(), old(cursor).pos(), record_cell_bytes(cell@)),
        final(cursor).pos() == old(cursor).pos() + record_cell_len(cell@),
{
    proof {
        lemma_auto_spec_u32_to_from_le_bytes();
    }
    let ghost s0 = cursor.bytes();
    let ghost p0 = cursor.pos();
    proof {
        cursor.lemma_pos_nonneg();
    }
    cursor.write_u32(cell.key);
    proof { lemma_splice_extend_at(s0, p0, spec_u32_to_le_bytes(cell.key), seq![bool_byte(cell.is_deleted)]); }
    cursor.write_u8(if cell.is_deleted { 1 } else { 0 });
    let ghost w1 = spec_u32_to_le_bytes(cell.key) + seq![bool_byte(cell.is_deleted)];
    proof { lemma_splice_extend_at(s0, p0, w1, spec_u32_to_le_bytes(cell.data@.len() as u32)); }
    cursor.write_u32(cell.data.len() as u32);
    let ghost w2 = w1 + spec_u32_to_le_bytes(cell.data@.len() as u32);
    proof { lemma_splice_extend_at(s0, p0, w2, cell.data@); }
    cursor.write_bytes(cell.data.as_slice());
}

/// Writes one internal cell at the cursor.
fn write_entry_cell(cursor: &mut ByteCursor, cell: &crate::storage::page::IndexEntry)
    requires
        old(cursor).pos() + 12 <= old(cursor).bytes().len(),
    ensures
        final(cursor).bytes() == splice(old(cursor).bytes(), old(cursor).pos(), entry_cell_bytes(*cell)),
        final(cursor).pos() == old(cursor).pos() + 12,
{
    proof {
        lemma_auto_spec_u32_to_from_le_bytes();
        lemma_auto_spec_u64_to_from_le_bytes();
    }
    let ghost s0 = cursor.bytes();
    let ghost p0 = cursor.pos();
    proof {
        cursor.lemma_pos_nonneg();
    }
    cursor.write_u32(cell.key);
    proof { lemma_splice_extend_at(s0, p0, spec_u32_to_le_bytes(cell.key), spec_u64_to_le_bytes(cell.child_page_id)); }
    cursor.write_u64(cell.child_page_id);
}

/// Writing `v` right after bytes `w` written at `p` extends what was written.
proof fn lemma_splice_extend_at(s: Seq<u8>, p: int, w: Seq<u8>, v: Seq<u8>)
    requires
        0 <= p,
        p + w.len() + v.len() <= s.len(),
    ensures
        splice(splice(s, p, w), p + w.len(), v) == splice(s, p, w + v),
        splice(s, p, w + v).len() == s.len(),
        splice(s, p, w).len() == s.len(),
{
    assert(splice(splice(s, p, w), p + w.len(), v) =~= splice(s, p, w + v));
}

impl LeafNode {
    /// The size of the cells in slot order, or `None` where header and cells
    /// together exceed the page.
    pub(crate) fn footer_len(&self) -> (r: Option<usize>)
        requires
            crate::storage::layout::slots_in_range(self@.slot_array, self@.records.len()),
        ensures
            match r {
                Some(f) => leaf_used_len(self@) <= PAGE_SIZE && f == leaf_cells_len(self@.records, self@.slot_array),
                None => leaf_used_len(self@) > PAGE_SIZE,
            },
    {
        let ghost v = self@;
        let n = self.slot_array.len();
        if n > (PAGE_SIZE - LEAF_NODE_HEADER_SIZE) / SLOT_ELEM_SIZE {
            return None;
        }
        let header_len = LEAF_NODE_HEADER_SIZE + n * SLOT_ELEM_SIZE;
        let mut footer_len: usize = 0;
        let mut i: usize = 0;
        while i < n
            invariant
                0 <= i <= n,
                n == v.slot_array.len(),
                v == self@,
                crate::storage::layout::slots_in_range(v.slot_array, v.records.len()),
                header_len == leaf_header_len(v),
                header_len <= PAGE_SIZE,
                footer_len == leaf_cells_len(v.records, v.slot_array.take(i as int)),
                header_len + footer_len <= PAGE_SIZE,
            decreases n - i,
        {
            let idx = self.slot_array[i] as usize;
            let cell = &self.records[idx];
            let remaining = PAGE_SIZE - header_len - footer_len;
            proof {
                lemma_leaf_cells_step(v.records, v.slot_array, i as int);
                assert(v.records[idx as int] == cell@);
            }
            if RECORD_META_SIZE > remaining || cell.data.len() > remaining - RECORD_META_SIZE {
                proof {
                    lemma_leaf_cells_len_mono(v.records, v.slot_array, i + 1);
                }
                return None;
            }
            footer_len = footer_len + RECORD_META_SIZE + cell.data.len();
            i = i + 1;
        }
        proof {
            assert(v.slot_array.take(n as int) =~= v.slot_array);
        }
        Some(footer_len)
    }

    /// Writes the header, the slot array and the free size.
    fn write_header(&self, cursor: &mut ByteCursor, free_size: u16)
        requires
            old(cursor).pos() == 0,
            old(cursor).bytes().len() == PAGE_SIZE,
            leaf_header_len(self@) <= PAGE_SIZE,
        ensures
            final(cursor).bytes() == splice(old(cursor).bytes(), 0, leaf_header_bytes(self@, free_size)),
            final(cursor).pos() == leaf_header_len(self@),
            leaf_header_bytes(self@, free_size).len() == leaf_header_len(self@),
    {
        proof {
            lemma_auto_spec_u16_to_from_le_bytes();
            lemma_auto_spec_u32_to_from_le_bytes();
            lemma_auto_spec_u64_to_from_le_bytes();
            lemma_slots_bytes_len(self@.slot_array);
        }
        let ghost v = self@;
        let n = self.slot_array.len();
        let ghost old_bytes = cursor.bytes();
        let ghost mut w: Seq<u8> = Seq::empty();
        assert(splice(old_bytes, 0, w) =~= old_bytes);

        cursor.write_u8(NodeType::Leaf.as_u8());
        proof { lemma_splice_extend(old_bytes, w, seq![NodeType::Leaf.spec_byte()]); w = w + seq![NodeType::Leaf.spec_byte()]; }
        cursor.write_u64(self.page_id);
        proof { lemma_splice_extend(old_bytes, w, spec_u64_to_le_bytes(v.page_id)); w = w + spec_u64_to_le_bytes(v.page_id); }
        cursor.write_u64(self.last_lsn);
        proof { lemma_splice_extend(old_bytes, w, spec_u64_to_le_bytes(v.last_lsn)); w = w + spec_u64_to_le_bytes(v.last_lsn); }
        cursor.write_u8(if self.has_prev { 1 } else { 0 });
        proof { lemma_splice_extend(old_bytes, w, seq![bool_byte(v.has_prev)]); w = w + seq![bool_byte(v.has_prev)]; }
        cursor.write_u8(if self.has_next { 1 } else { 0 });
        proof { lemma_splice_extend(old_bytes, w, seq![bool_byte(v.has_next)]); w = w + seq![bool_byte(v.has_next)]; }
        cursor.write_u64(self.prev_page_id);
        proof { lemma_splice_extend(old_bytes, w, spec_u64_to_le_bytes(v.prev_page_id)); w = w + spec_u64_to_le_bytes(v.prev_page_id); }
        cursor.write_u64(self.next_page_id);
        proof { lemma_splice_extend(old_bytes, w, spec_u64_to_le_bytes(v.next_page_id)); w = w + spec_u64_to_le_bytes(v.next_page_id); }
        cursor.write_u32(n as u32);
        proof { lemma_splice_extend(old_bytes, w, spec_u32_to_le_bytes(n as u32)); w = w + spec_u32_to_le_bytes(n as u32); }
        let ghost w_fixed = w;
        let mut i: usize = 0;
        while i < n
            invariant
                0 <= i <= n,
                n == v.slot_array.len(),
                v == self@,
                old_bytes.len() == PAGE_SIZE,
                w_fixed.len() == 39,
                41 + 2 * n <= PAGE_SIZE,
                w == w_fixed + slots_bytes(v.slot_array.take(i as int)),
                w.len() == 39 + 2 * i,
                cursor.bytes() == splice(old_bytes, 0, w),
                cursor.pos() == w.len(),
            decreases n - i,
        {
            proof {
                lemma_auto_spec_u16_to_from_le_bytes();
                lemma_slots_bytes_step(v.slot_array, i as int);
                lemma_splice_extend(old_bytes, w, spec_u16_to_le_bytes(v.slot_array[i as int]));
            }
            cursor.write_u16(self.slot_array[i]);
            proof {
                w = w + spec_u16_to_le_bytes(v.slot_array[i as int]);
                assert(w == w_fixed + slots_bytes(v.slot_array.take(i + 1)));
            }
            i = i + 1;
        }
        proof {
            assert(v.slot_array.take(n as int) =~= v.slot_array);
            lemma_splice_extend(old_bytes, w, spec_u16_to_le_bytes(free_size));
        }
        cursor.write_u16(free_size);
        proof {
            w = w + spec_u16_to_le_bytes(free_size);
            assert(w =~= leaf_header_bytes(v, free_size));
        }
    }

    /// Writes the cells in slot order from the cursor on.
    fn write_cells(&self, cursor: &mut ByteCursor)
        requires
            crate::storage::layout::slots_in_range(self@.slot_array, self@.records.len()),
            old(cursor).pos() + leaf_cells_len(self@.records, self@.slot_array) <= old(cursor).bytes().len(),
        ensures
            final(cursor).bytes() == splice(old(cursor).bytes(), old(cursor).pos(), leaf_cells_bytes(self@.records, self@.slot_array)),
            final(cursor).pos() == old(cursor).pos() + leaf_cells_len(self@.records, self@.slot_array),
    {
        let ghost v = self@;
        let ghost s0 = cursor.bytes();
        let ghost start = cursor.pos();
        let n = self.slot_array.len();
        proof {
            cursor.lemma_pos_nonneg();
            assert(v.slot_array.take(0) =~= Seq::<u16>::empty());
            assert(splice(s0, start, Seq::empty()) =~= s0);
        }
        let mut i: usize = 0;
        while i < n
            invariant
                0 <= i <= n,
                n == v.slot_array.len(),
                v == self@,
                crate::storage::layout::slots_in_range(v.slot_array, v.records.len()),
                0 <= start,
                start + leaf_cells_len(v.records, v.slot_array) <= s0.len(),
                cursor.bytes() == splice(s0, start, leaf_cells_bytes(v.records, v.slot_array.take(i as int))),
                cursor.pos() == start + leaf_cells_len(v.records, v.slot_array.take(i as int)),
            decreases n - i,
        {
            let idx = self.slot_array[i] as usize;
            let cell = &self.records[idx];
            let ghost before = leaf_cells_bytes(v.records, v.slot_array.take(i as int));
            proof {
                lemma_leaf_cells_step(v.records, v.slot_array, i as int);
                lemma_leaf_cells_len_mono(v.records, v.slot_array, i + 1);
                lemma_leaf_cells_len(v.records, v.slot_array.take(i as int));
                assert(v.records[idx as int] == cell@);
                lemma_auto_spec_u32_to_from_le_bytes();
                lemma_splice_extend_at(s0, start, before, record_cell_bytes(cell@));
            }
            write_record_cell(cursor, cell);
            i = i + 1;
        }
        proof {
            assert(v.slot_array.take(n as int) =~= v.slot_array);
        }
    }

    /// Writes the leaf into `page`; `PageFull` where it does not fit.
    fn encode_into(&self, page: &mut Page) -> (result: Result<(), DbError>)
        requires
            crate::storage::layout::slots_in_range(self@.slot_array, self@.records.len()),
        ensures
            match result {
                Ok(()) => leaf_used_len(self@) <= PAGE_SIZE && final(page)@ == leaf_page_bytes(
                    self@,
                    old(page)@,
                ),
                Err(e) => e is PageFull && leaf_used_len(self@) > PAGE_SIZE && final(page)@ == old(
                    page,
                )@,
            },
    {
        let footer_len = match self.footer_len() {
            Some(f) => f,
            None => return Err(DbError::PageFull),
        };
        let header_len = LEAF_NODE_HEADER_SIZE + self.slot_array.len() * SLOT_ELEM_SIZE;
        let free_size = (PAGE_SIZE - header_len - footer_len) as u16;
        let ghost old_bytes = page@;
        let mut cursor = ByteCursor::new(page_to_vec(page));
        self.write_header(&mut cursor, free_size);
        let ghost hdr = leaf_header_bytes(self@, free_size);
        cursor.skip(free_size as usize);
        self.write_cells(&mut cursor);
        proof {
            lemma_leaf_cells_len(self@.records, self@.slot_array);
            lemma_splice_frame(old_bytes, hdr, free_size as int, leaf_cells_bytes(self@.records, self@.slot_array));
        }
        *page = page_from_vec(&cursor.into_buffer());
        Ok(())
    }
}

impl InternalNode {
    /// Writes the header, the slot array and the free size.
    fn write_header(&self, cursor: &mut ByteCursor, free_size: u16)
        requires
            old(cursor).pos() == 0,
            old(cursor).bytes().len() == PAGE_SIZE,
            internal_header_len(self@) <= PAGE_SIZE,
        ensures
            final(cursor).bytes() == splice(old(cursor).bytes(), 0, internal_header_bytes(self@, free_size)),
            final(cursor).pos() == internal_header_len(self@),
            internal_header_bytes(self@, free_size).len() == internal_header_len(self@),
    {
        proof {
            lemma_auto_spec_u16_to_from_le_bytes();
            lemma_auto_spec_u32_to_from_le_bytes();
            lemma_auto_spec_u64_to_from_le_bytes();
            lemma_slots_bytes_len(self@.slot_array);
        }
        let ghost v = self@;
        let n = self.slot_array.len();
        let ghost old_bytes = cursor.bytes();
        let ghost mut w: Seq<u8> = Seq::empty();
        assert(splice(old_bytes, 0, w) =~= old_bytes);

        cursor.write_u8(NodeType::Internal.as_u8());
        proof { lemma_splice_extend(old_bytes, w, seq![NodeType::Internal.spec_byte()]); w = w + seq![NodeType::Internal.spec_byte()]; }
        cursor.write_u64(self.page_id);
        proof { lemma_splice_extend(old_bytes, w, spec_u64_to_le_bytes(v.page_id)); w = w + spec_u64_to_le_bytes(v.page_id); }
        cursor.write_u64(self.last_lsn);
        proof { lemma_splice_extend(old_bytes, w, spec_u64_to_le_bytes(v.last_lsn)); w = w + spec_u64_to_le_bytes(v.last_lsn); }
        cursor.write_u64(self.rightmost_child);
        proof { lemma_splice_extend(old_bytes, w, spec_u64_to_le_bytes(v.rightmost_child)); w = w + spec_u64_to_le_bytes(v.rightmost_child); }
        cursor.write_u32(n as u32);
        proof { lemma_splice_extend(old_bytes, w, spec_u32_to_le_bytes(n as u32)); w = w + spec_u32_to_le_bytes(n as u32); }
        let ghost w_fixed = w;
        let mut i: usize = 0;
        while i < n
            invariant
                0 <= i <= n,
                n == v.slot_array.len(),
                v == self@,
                old_bytes.len() == PAGE_SIZE,
                w_fixed.len() == 29,
                31 + 2 * n <= PAGE_SIZE,
                w == w_fixed + slots_bytes(v.slot_array.take(i as int)),
                w.len() == 29 + 2 * i,
                cursor.bytes() == splice(old_bytes, 0, w),
                cursor.pos() == w.len(),
            decreases n - i,
        {
            proof {
                lemma_auto_spec_u16_to_from_le_bytes();
                lemma_slots_bytes_step(v.slot_array, i as int);
                lemma_splice_extend(old_bytes, w, spec_u16_to_le_bytes(v.slot_array[i as int]));
            }
            cursor.write_u16(self.slot_array[i]);
            proof {
                w = w + spec_u16_to_le_bytes(v.slot_array[i as int]);
                assert(w == w_fixed + slots_bytes(v.slot_array.take(i + 1)));
            }
            i = i + 1;
        }
        proof {
            assert(v.slot_array.take(n as int) =~= v.slot_array);
            lemma_splice_extend(old_bytes, w, spec_u16_to_le_bytes(free_size));
        }
        cursor.write_u16(free_size);
        proof {
            w = w + spec_u16_to_le_bytes(free_size);
            assert(w =~= internal_header_bytes(v, free_size));
        }
    }

    /// Writes the cells in slot order from the cursor on.
    fn write_cells(&self, cursor: &mut ByteCursor)
        requires
            crate::storage::layout::slots_in_range(self@.slot_array, self@.entries.len()),
            old(cursor).pos() + 12 * self@.slot_array.len() <= old(cursor).bytes().len(),
        ensures
            final(cursor).bytes() == splice(old(cursor).bytes(), old(cursor).pos(), internal_cells_bytes(self@.entries, self@.slot_array)),
            final(cursor).pos() == old(cursor).pos() + 12 * self@.slot_array.len(),
    {
        let ghost v = self@;
        let ghost s0 = cursor.bytes();
        let ghost start = cursor.pos();
        let n = self.slot_array.len();
        proof {
            cursor.lemma_pos_nonneg();
            assert(v.slot_array.take(0) =~= Seq::<u16>::empty());
            assert(splice(s0, start, Seq::empty()) =~= s0);
        }
        let mut i: usize = 0;
        while i < n
            invariant
                0 <= i <= n,
                n == v.slot_array.len(),
                v == self@,
                crate::storage::layout::slots_in_range(v.slot_array, v.entries.len()),
                0 <= start,
                start + 12 * n <= s0.len(),
                cursor.bytes() == splice(s0, start, internal_cells_bytes(v.entries, v.slot_array.take(i as int))),
                cursor.pos() == start + 12 * i,
            decreases n - i,
        {
            let idx = self.slot_array[i] as usize;
            let cell = &self.entries[idx];
            let ghost before = internal_cells_bytes(v.entries, v.slot_array.take(i as int));
            proof {
                lemma_internal_cells_step(v.entries, v.slot_array, i as int);
                lemma_internal_cells_len(v.entries, v.slot_array.take(i as int));
                lemma_auto_spec_u32_to_from_le_bytes();
                lemma_auto_spec_u64_to_from_le_bytes();
                lemma_splice_extend_at(s0, start, before, entry_cell_bytes(*cell));
            }
            write_entry_cell(cursor, cell);
            i = i + 1;
        }
        proof {
            assert(v.slot_array.take(n as int) =~= v.slot_array);
        }
    }

    /// Writes the internal node into `page`; `PageFull` where it does not fit.
    fn encode_into(&self, page: &mut Page) -> (result: Result<(), DbError>)
        requires
            internal_used_len(self@) <= PAGE_SIZE ==> crate::storage::layout::slots_in_range(
                self@.slot_array,
                self@.entries.len(),
            ),
        ensures
            match result {
                Ok(()) => internal_used_len(self@) <= PAGE_SIZE && final(page)@ == internal_page_bytes(
                    self@,
                    old(page)@,
                ),
                Err(e) => e is PageFull && internal_used_len(self@) > PAGE_SIZE && final(page)@ == old(
                    page,
                )@,
            },
    {
        let n = self.slot_array.len();
        if n > (PAGE_SIZE - INTERNAL_NODE_HEADER_SIZE) / (SLOT_ELEM_SIZE + INDEX_ENTRY_SIZE) {
            return Err(DbError::PageFull);
        }
        let header_len = INTERNAL_NODE_HEADER_SIZE + n * SLOT_ELEM_SIZE;
        let footer_len = n * INDEX_ENTRY_SIZE;
        let free_size = (PAGE_SIZE - header_len - footer_len) as u16;
        let ghost old_bytes = page@;
        let mut cursor = ByteCursor::new(page_to_vec(page));
        self.write_header(&mut cursor, free_size);
        let ghost hdr = internal_header_bytes(self@, free_size);
        cursor.skip(free_size as usize);
        self.write_cells(&mut cursor);
        proof {
            lemma_internal_cells_len(self@.entries, self@.slot_array);
            lemma_splice_frame(old_bytes, hdr, free_size as int, internal_cells_bytes(self@.entries, self@.slot_array));
        }
        *page = page_from_vec(&cursor.into_buffer());
        Ok(())
    }
}

impl BTreeNode {
    /// Writes the node into `page` in its on-disk layout: header, slot array
    /// and free size at the front, the cells in slot order at the back of the
    /// page, and between them the old bytes of the free gap. Fails with
    /// `PageFull`, leaving the page as it was, where the node does not fit.
    pub fn encode(&self, page: &mut Page) -> (result: Result<(), DbError>)
        requires
            self@ is Internal && node_used_len(self@) <= PAGE_SIZE ==> node_slots_in_range(self@),
            self@ is Leaf ==> node_slots_in_range(self@),
        ensures
            result is Ok <==> node_used_len(self@) <= PAGE_SIZE,
            match result {
                Ok(()) => final(page)@ == node_page_bytes(self@, old(page)@),
                Err(e) => e is PageFull && final(page)@ == old(page)@,
            },
    {
        match self {
            BTreeNode::Leaf(node) => node.encode_into(page),
            BTreeNode::Internal(node) => node.encode_into(page),
        }
    }
}

/// Whether every slot is below `n`.
fn all_slots_below(slots: &Vec<u16>, n: usize) -> (ok: bool)
    ensures
        ok == crate::storage::layout::slots_in_range(slots@, n as nat),
{
    let mut i: usize = 0;
    while i < slots.len()
        invariant
            0 <= i <= slots@.len(),
            forall|j: int| 0 <= j < i ==> (#[trigger] slots@[j]) < n,
        decreases slots@.len() - i,
    {
        if slots[i] as usize >= n {
            return false;
        }
        i = i + 1;
    }
    true
}

impl BTreeNode {
    /// Whether every slot of the node names one of its cells.
    pub fn has_slots_in_range(&self) -> (ok: bool)
        ensures
            ok == node_slots_in_range(self@),
    {
        match self {
            BTreeNode::Leaf(node) => all_slots_below(&node.slot_array, node.records.len()),
            BTreeNode::Internal(node) => all_slots_below(&node.slot_array, node.entries.len()),
        }
    }
}

} // verus!
