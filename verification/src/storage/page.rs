use vstd::bytes::*;
use vstd::prelude::*;
use vstd::slice::slice_subrange;

verus! {

/// Size of an element in the slot array (`u16`).
pub const SLOT_ELEM_SIZE: usize = 2;

/// Size of any page.
pub const PAGE_SIZE: usize = 4096;

/// Fixed size of an internal cell (key + child page id).
pub const INDEX_ENTRY_SIZE: usize = 4 + 8;

/// Fixed size of the metadata of a leaf cell (key + deleted flag + value size);
/// the value bytes follow it.
pub const RECORD_META_SIZE: usize = 4 + 1 + 4;

/// Largest value size accepted for a record.
pub const MAX_VALUE_SIZE: usize = 400;

/// Fixed size of the internal node header: node type (1), page id (8), last
/// lsn (8), rightmost child (8), cell count (4), free size (2).
pub const INTERNAL_NODE_HEADER_SIZE: usize = 1 + 8 + 8 + 8 + 4 + 2;

/// Fixed size of the leaf node header: node type (1), page id (8), last lsn
/// (8), has-prev (1), has-next (1), prev page id (8), next page id (8), cell
/// count (4), free size (2).
pub const LEAF_NODE_HEADER_SIZE: usize = 1 + 8 + 8 + 1 + 1 + 8 + 8 + 4 + 2;

/// Identifier for a physical file offset.
#[derive(Debug, Clone, Copy, PartialEq, Eq, Hash, Structural)]
pub struct PageId(pub u64);

/// An owned buffer of `PAGE_SIZE` bytes holding one physical page.
#[derive(Debug)]
pub struct Page {
    pub data: Box<[u8; PAGE_SIZE]>,
}

impl View for Page {
    type V = Seq<u8>;

    open spec fn view(&self) -> Seq<u8> {
        self.data@
    }
}

impl Page {
    /// A page of zero bytes.
    pub fn new() -> (page: Self)
        ensures
            page@ == Seq::new(PAGE_SIZE as nat, |i: int| 0u8),
            page@.len() == PAGE_SIZE,
    {
        let page = Self { data: Box::new([0u8; PAGE_SIZE]) };
        assert(page@ =~= Seq::new(PAGE_SIZE as nat, |i: int| 0u8));
        page
    }

    /// The bytes of the page.
    pub fn as_bytes(&self) -> (bytes: &[u8; PAGE_SIZE])
        ensures
            bytes@ == self@,
    {
        &self.data
    }

    /// The bytes of the page, for writing.
    pub fn as_bytes_mut(&mut self) -> (bytes: &mut [u8; PAGE_SIZE])
        ensures
            bytes@ == old(self)@,
            final(self)@ == final(bytes)@,
    {
        &mut self.data
    }
}


/// The kind of a node, stored in the first byte of its page.
pub enum NodeType {
    Internal,
    Leaf,
}

impl NodeType {
    /// The byte that marks a page of this kind: 0 for internal, 1 for leaf.
    pub open spec fn spec_byte(self) -> u8 {
        match self {
            NodeType::Internal => 0,
            NodeType::Leaf => 1,
        }
    }

    /// The byte that marks a page of this kind.
    pub fn as_u8(self) -> (b: u8)
        ensures
            b == self.spec_byte(),
    {
        match self {
            NodeType::Internal => 0,
            NodeType::Leaf => 1,
        }
    }
}

/// A routing cell of an internal node.
#[derive(Debug, Clone, Copy)]
pub struct IndexEntry {
    pub key: u32,
    pub child_page_id: u64,
}

impl Default for IndexEntry {
    fn default() -> (e: Self)
        ensures
            e.key == 0,
            e.child_page_id == 0,
    {
        IndexEntry { key: 0, child_page_id: 0 }
    }
}

/// The mathematical content of a [`Record`].
pub struct RecordView {
    pub key: u32,
    pub data: Seq<u8>,
    pub is_deleted: bool,
}

/// A cell of a leaf node: a key, its value bytes and a tombstone flag.
#[derive(Debug, Clone)]
pub struct Record {
    pub key: u32,
    pub data: Vec<u8>,
    pub is_deleted: bool,
}

impl View for Record {
    type V = RecordView;

    open spec fn view(&self) -> RecordView {
        RecordView { key: self.key, data: self.data@, is_deleted: self.is_deleted }
    }
}

/// The record that stands in a slot that no cell fills.
pub open spec fn default_record_view() -> RecordView {
    RecordView { key: 0, data: Seq::empty(), is_deleted: false }
}

impl Default for Record {
    fn default() -> (r: Self)
        ensures
            r@ == default_record_view(),
    {
        Record { key: 0, data: Vec::new(), is_deleted: false }
    }
}

/// The mathematical content of an [`InternalNode`].
pub struct InternalView {
    pub page_id: u64,
    pub last_lsn: u64,
    pub rightmost_child: u64,
    pub slot_array: Seq<u16>,
    pub entries: Seq<IndexEntry>,
    pub free_size: u16,
    pub is_dirty: bool,
}

/// A routing node of the tree.
#[derive(Debug, Clone)]
pub struct InternalNode {
    pub page_id: u64,
    pub last_lsn: u64,
    pub rightmost_child: u64,
    pub slot_array: Vec<u16>,
    pub entries: Vec<IndexEntry>,
    pub free_size: u16,
    /// Whether the node was modified in memory; not part of the encoding.
    pub is_dirty: bool,
}

impl View for InternalNode {
    type V = InternalView;

    open spec fn view(&self) -> InternalView {
        InternalView {
            page_id: self.page_id,
            last_lsn: self.last_lsn,
            rightmost_child: self.rightmost_child,
            slot_array: self.slot_array@,
            entries: self.entries@,
            free_size: self.free_size,
            is_dirty: self.is_dirty,
        }
    }
}

/// The mathematical content of a [`LeafNode`].
pub struct LeafView {
    pub page_id: u64,
    pub last_lsn: u64,
    pub has_prev: bool,
    pub has_next: bool,
    pub prev_page_id: u64,
    pub next_page_id: u64,
    pub slot_array: Seq<u16>,
    pub records: Seq<RecordView>,
    pub free_size: u16,
    pub is_dirty: bool,
}

/// A data node of the tree. `slot_array[i]` is the index in `records` of the
/// record that comes `i`-th in key order.
#[derive(Debug, Clone)]
pub struct LeafNode {
    pub page_id: u64,
    pub last_lsn: u64,
    pub has_prev: bool,
    pub has_next: bool,
    pub prev_page_id: u64,
    pub next_page_id: u64,
    pub slot_array: Vec<u16>,
    pub records: Vec<Record>,
    pub free_size: u16,
    /// Whether the node was modified in memory; not part of the encoding.
    pub is_dirty: bool,
}

impl View for LeafNode {
    type V = LeafView;

    open spec fn view(&self) -> LeafView {
        LeafView {
            page_id: self.page_id,
            last_lsn: self.last_lsn,
            has_prev: self.has_prev,
            has_next: self.has_next,
            prev_page_id: self.prev_page_id,
            next_page_id: self.next_page_id,
            slot_array: self.slot_array@,
            records: self.records@.map_values(|r: Record| r@),
            free_size: self.free_size,
            is_dirty: self.is_dirty,
        }
    }
}

/// The mathematical content of a [`BTreeNode`].
pub enum NodeView {
    Internal(InternalView),
    Leaf(LeafView),
}

/// A node of the tree as it lives in memory.
#[derive(Debug, Clone)]
pub enum BTreeNode {
    Internal(InternalNode),
    Leaf(LeafNode),
}

impl View for BTreeNode {
    type V = NodeView;

    open spec fn view(&self) -> NodeView {
        match self {
            BTreeNode::Internal(n) => NodeView::Internal(n@),
            BTreeNode::Leaf(n) => NodeView::Leaf(n@),
        }
    }
}

impl NodeView {
    pub open spec fn is_dirty(self) -> bool {
        match self {
            NodeView::Internal(n) => n.is_dirty,
            NodeView::Leaf(n) => n.is_dirty,
        }
    }

    pub open spec fn last_lsn(self) -> u64 {
        match self {
            NodeView::Internal(n) => n.last_lsn,
            NodeView::Leaf(n) => n.last_lsn,
        }
    }

    /// The same node with its dirty flag set to `dirty`.
    pub open spec fn with_dirty(self, dirty: bool) -> NodeView {
        match self {
            NodeView::Internal(n) => NodeView::Internal(InternalView { is_dirty: dirty, ..n }),
            NodeView::Leaf(n) => NodeView::Leaf(LeafView { is_dirty: dirty, ..n }),
        }
    }

    /// The same node with its dirty flag and last lsn replaced.
    pub open spec fn with_dirty_lsn(self, dirty: bool, lsn: u64) -> NodeView {
        match self {
            NodeView::Internal(n) => NodeView::Internal(
                InternalView { is_dirty: dirty, last_lsn: lsn, ..n },
            ),
            NodeView::Leaf(n) => NodeView::Leaf(LeafView { is_dirty: dirty, last_lsn: lsn, ..n }),
        }
    }
}

/// Marking a node dirty and then clean leaves it clean, carrying the lsn of
/// the last update; the rest of the node is untouched.
pub proof fn lemma_mark_then_clear(v: NodeView, lsn: u64)
    ensures
        !v.with_dirty_lsn(true, lsn).with_dirty(false).is_dirty(),
        v.with_dirty_lsn(true, lsn).with_dirty(false).last_lsn() == lsn,
        v.with_dirty_lsn(true, lsn).with_dirty(false) == v.with_dirty_lsn(false, lsn),
{
}

/// Setting the dirty flag decides what the dirty query reports, for either
/// kind of node: a node set dirty is dirty, a node set clean is clean.
pub proof fn lemma_dirty_flag_reported(v: NodeView)
    ensures
        v.with_dirty(true).is_dirty(),
        !v.with_dirty(false).is_dirty(),
        v.with_dirty(true).last_lsn() == v.last_lsn(),
        v.with_dirty(false).last_lsn() == v.last_lsn(),
{
}

/// Marking any node, leaf or internal, dirty with `lsn` leaves it dirty and
/// carrying `lsn` as its last update, of the same kind, and marking it again
/// with another lsn only moves the lsn on.
pub proof fn lemma_mark_dirty_marks(v: NodeView, lsn: u64, later: u64)
    ensures
        v.with_dirty_lsn(true, lsn).is_dirty(),
        v.with_dirty_lsn(true, lsn).last_lsn() == lsn,
        (v.with_dirty_lsn(true, lsn) is Internal) == (v is Internal),
        v.with_dirty_lsn(true, lsn).with_dirty_lsn(true, later) == v.with_dirty_lsn(true, later),
        v.with_dirty_lsn(true, lsn).with_dirty(false).with_dirty(true) == v.with_dirty_lsn(true, lsn),
{
}

impl BTreeNode {
    /// Whether the node was modified in memory since it was loaded from disk.
    pub fn is_dirty(&self) -> (d: bool)
        ensures
            d == self@.is_dirty(),
            d == match self {
                BTreeNode::Internal(node) => node.is_dirty,
                BTreeNode::Leaf(node) => node.is_dirty,
            },
    {
        match self {
            BTreeNode::Internal(node) => node.is_dirty,
            BTreeNode::Leaf(node) => node.is_dirty,
        }
    }

    /// Clears the dirty flag; called once the page was written to disk.
    pub fn clear_dirty(&mut self)
        ensures
            final(self)@ == old(self)@.with_dirty(false),
            !final(self)@.is_dirty(),
            final(self)@.last_lsn() == old(self)@.last_lsn(),
    {
        match self {
            BTreeNode::Internal(node) => node.is_dirty = false,
            BTreeNode::Leaf(node) => node.is_dirty = false,
        }
    }

    /// Marks the node dirty and records `lsn` as the last update applied to it.
    pub fn mark_dirty(&mut self, lsn: u64)
        ensures
            final(self)@ == old(self)@.with_dirty_lsn(true, lsn),
            final(self)@.is_dirty(),
            final(self)@.last_lsn() == lsn,
            match *final(self) {
                BTreeNode::Internal(node) => node.is_dirty && node.last_lsn == lsn,
                BTreeNode::Leaf(node) => node.is_dirty && node.last_lsn == lsn,
            },
    {
        match self {
            BTreeNode::Internal(node) => {
                node.last_lsn = lsn;
                node.is_dirty = true;
            },
            BTreeNode::Leaf(node) => {
                node.last_lsn = lsn;
                node.is_dirty = true;
            },
        }
    }

    /// The lsn of the last update applied to this node.
    pub fn get_last_lsn(&self) -> (lsn: u64)
        ensures
            lsn == self@.last_lsn(),
    {
        match self {
            BTreeNode::Internal(node) => node.last_lsn,
            BTreeNode::Leaf(node) => node.last_lsn,
        }
    }
}

impl BTreeNode {
    /// The empty leaf (`is_leaf`) or internal node for page `page_id`: no
    /// cells, no siblings or children, lsn 0, clean.
    pub open spec fn new_empty_spec(page_id: PageId, is_leaf: bool) -> NodeView {
        if is_leaf {
            NodeView::Leaf(
                LeafView {
                    page_id: page_id.0,
                    last_lsn: 0,
                    has_prev: false,
                    has_next: false,
                    prev_page_id: 0,
                    next_page_id: 0,
                    slot_array: Seq::empty(),
                    records: Seq::empty(),
                    free_size: 0,
                    is_dirty: false,
                },
            )
        } else {
            NodeView::Internal(
                InternalView {
                    page_id: page_id.0,
                    last_lsn: 0,
                    rightmost_child: 0,
                    slot_array: Seq::empty(),
                    entries: Seq::empty(),
                    free_size: 0,
                    is_dirty: false,
                },
            )
        }
    }

    /// An empty leaf (`is_leaf`) or internal node for page `page_id`: no
    /// cells, no siblings or children, lsn 0, clean.
    pub fn new_empty(page_id: PageId, is_leaf: bool) -> (node: Self)
        ensures
            node@ == Self::new_empty_spec(page_id, is_leaf),
            is_leaf ==> node@ == NodeView::Leaf(
                LeafView {
                    page_id: page_id.0,
                    last_lsn: 0,
                    has_prev: false,
                    has_next: false,
                    prev_page_id: 0,
                    next_page_id: 0,
                    slot_array: Seq::empty(),
                    records: Seq::empty(),
                    free_size: 0,
                    is_dirty: false,
                },
            ),
            !is_leaf ==> node@ == NodeView::Internal(
                InternalView {
                    page_id: page_id.0,
                    last_lsn: 0,
                    rightmost_child: 0,
                    slot_array: Seq::empty(),
                    entries: Seq::empty(),
                    free_size: 0,
                    is_dirty: false,
                },
            ),
    {
        if is_leaf {
            let node = LeafNode {
                page_id: page_id.0,
                last_lsn: 0,
                has_prev: false,
                has_next: false,
                prev_page_id: 0,
                next_page_id: 0,
                slot_array: Vec::new(),
                records: Vec::new(),
                free_size: 0,
                is_dirty: false,
            };
            assert(node@.records =~= Seq::<RecordView>::empty());
            BTreeNode::Leaf(node)
        } else {
            BTreeNode::Internal(
                InternalNode {
                    page_id: page_id.0,
                    last_lsn: 0,
                    rightmost_child: 0,
                    slot_array: Vec::new(),
                    entries: Vec::new(),
                    free_size: 0,
                    is_dirty: false,
                },
            )
        }
    }
}

/// Size of the file header at offset 0: last row id (4), root page offset
/// (8), next lsn (8), next free offset (8).
pub const FILE_HEADER_SIZE: usize = 4 + 8 + 8 + 8;

/// The metadata kept at the start of the database file.
#[derive(Debug, Clone)]
pub struct FileHeader {
    pub last_row_id: u32,
    pub page_root_offset: u64,
    pub next_lsn: u64,
    pub next_free_offset: u64,
}

impl Default for FileHeader {
    /// The header of an empty file: the first page after the header page is free.
    fn default() -> (h: Self)
        ensures
            h.last_row_id == 0,
            h.page_root_offset == 0,
            h.next_lsn == 0,
            h.next_free_offset == PAGE_SIZE,
    {
        Self { last_row_id: 0, page_root_offset: 0, next_lsn: 0, next_free_offset: PAGE_SIZE as u64 }
    }
}

/// The bytes of a file header, every field little-endian, in field order.
pub open spec fn file_header_bytes(h: FileHeader) -> Seq<u8> {
    spec_u32_to_le_bytes(h.last_row_id) + spec_u64_to_le_bytes(h.page_root_offset)
        + spec_u64_to_le_bytes(h.next_lsn) + spec_u64_to_le_bytes(h.next_free_offset)
}

impl FileHeader {
    /// Hands out the page at the next free offset and moves the offset one
    /// page further.
    pub fn allocate_page(&mut self) -> (id: PageId)
        requires
            old(self).next_free_offset + PAGE_SIZE <= u64::MAX,
        ensures
            id.0 == old(self).next_free_offset,
            final(self).next_free_offset == old(self).next_free_offset + PAGE_SIZE,
            final(self).last_row_id == old(self).last_row_id,
            final(self).page_root_offset == old(self).page_root_offset,
            final(self).next_lsn == old(self).next_lsn,
    {
        let id = PageId(self.next_free_offset);
        self.next_free_offset = self.next_free_offset + PAGE_SIZE as u64;
        id
    }

    /// The header as the bytes stored at offset 0 of the file.
    pub fn to_bytes(&self) -> (bytes: Vec<u8>)
        ensures
            bytes@ == file_header_bytes(*self),
            bytes@.len() == FILE_HEADER_SIZE,
    {
        proof {
            lemma_auto_spec_u32_to_from_le_bytes();
            lemma_auto_spec_u64_to_from_le_bytes();
        }
        let mut bytes = u32_to_le_bytes(self.last_row_id);
        let mut b = u64_to_le_bytes(self.page_root_offset);
        bytes.append(&mut b);
        let mut b = u64_to_le_bytes(self.next_lsn);
        bytes.append(&mut b);
        let mut b = u64_to_le_bytes(self.next_free_offset);
        bytes.append(&mut b);
        bytes
    }

    /// The header stored in the first `FILE_HEADER_SIZE` bytes of `buffer`.
    pub fn from_bytes(buffer: &[u8]) -> (h: Self)
        requires
            buffer@.len() == FILE_HEADER_SIZE,
        ensures
            h.last_row_id == spec_u32_from_le_bytes(buffer@.subrange(0, 4)),
            h.page_root_offset == spec_u64_from_le_bytes(buffer@.subrange(4, 12)),
            h.next_lsn == spec_u64_from_le_bytes(buffer@.subrange(12, 20)),
            h.next_free_offset == spec_u64_from_le_bytes(buffer@.subrange(20, 28)),
    {
        FileHeader {
            last_row_id: u32_from_le_bytes(slice_subrange(buffer, 0, 4)),
            page_root_offset: u64_from_le_bytes(slice_subrange(buffer, 4, 12)),
            next_lsn: u64_from_le_bytes(slice_subrange(buffer, 12, 20)),
            next_free_offset: u64_from_le_bytes(slice_subrange(buffer, 20, 28)),
        }
    }
}

/// Reading back the bytes of a header gives the header.
pub proof fn lemma_file_header_round_trip(h: FileHeader)
    ensures
        file_header_bytes(h).len() == FILE_HEADER_SIZE,
        spec_u32_from_le_bytes(file_header_bytes(h).subrange(0, 4)) == h.last_row_id,
        spec_u64_from_le_bytes(file_header_bytes(h).subrange(4, 12)) == h.page_root_offset,
        spec_u64_from_le_bytes(file_header_bytes(h).subrange(12, 20)) == h.next_lsn,
        spec_u64_from_le_bytes(file_header_bytes(h).subrange(20, 28)) == h.next_free_offset,
{
    lemma_auto_spec_u32_to_from_le_bytes();
    lemma_auto_spec_u64_to_from_le_bytes();
    let b = file_header_bytes(h);
    assert(b.subrange(0, 4) =~= spec_u32_to_le_bytes(h.last_row_id));
    assert(b.subrange(4, 12) =~= spec_u64_to_le_bytes(h.page_root_offset));
    assert(b.subrange(12, 20) =~= spec_u64_to_le_bytes(h.next_lsn));
    assert(b.subrange(20, 28) =~= spec_u64_to_le_bytes(h.next_free_offset));
}

} // verus!
