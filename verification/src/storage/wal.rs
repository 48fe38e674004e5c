//! The byte format of write-ahead log records.
use crate::error::DbError;
use crate::storage::layout::{u32_at, u64_at};
use crate::storage::page::PageId;
use vstd::bytes::*;
use vstd::prelude::*;
use vstd::slice::slice_subrange;

verus! {

/// Size of the fixed header of a log record:
/// op (1) + lsn (8) + page id (8) + row id (4) + payload length (4).
pub const WAL_ENTRY_HEADER_SIZE: usize = 25;

/// The physical operation that a log record describes.
#[derive(Debug, Clone, Copy, PartialEq, Eq, Structural)]
pub enum WalOp {
    Insert,
    Update,
    Delete,
}

/// The byte that stands for an operation.
pub open spec fn wal_op_byte(op: WalOp) -> u8 {
    match op {
        WalOp::Insert => 0,
        WalOp::Update => 1,
        WalOp::Delete => 2,
    }
}

/// The operation a byte stands for, if any.
pub open spec fn wal_op_of_byte(b: u8) -> Option<WalOp> {
    if b == 0 {
        Some(WalOp::Insert)
    } else if b == 1 {
        Some(WalOp::Update)
    } else if b == 2 {
        Some(WalOp::Delete)
    } else {
        None
    }
}

/// The message for an op byte that names no operation, built by std's
/// `format!`; nothing is stated of the text.
#[verifier::external_body]
fn wal_op_message(val: u8) -> String {
    format!("invalid WalOp byte discriminator: {}", val)
}

/// The message for a buffer shorter than the header, built by std's
/// `format!`; nothing is stated of the text.
#[verifier::external_body]
fn wal_header_message(len: usize) -> String {
    format!(
        "Wal entry buffer too small: expected at least {} bytes, got {}",
        WAL_ENTRY_HEADER_SIZE,
        len
    )
}

/// The message for a buffer shorter than its recorded payload, built by
/// std's `format!`; nothing is stated of the text.
#[verifier::external_body]
fn wal_payload_message(expected: u64, len: usize) -> String {
    format!(
        "Wal entry payload smaller than calculated size: expected {} bytes, got {}",
        expected,
        len
    )
}

impl WalOp {
    /// The operation that a byte stands for: 0 insert, 1 update, 2 delete;
    /// any other byte is `CorruptPage`.
    pub fn from_u8(val: u8) -> (result: Result<Self, DbError>)
        ensures
            match result {
                Ok(op) => wal_op_of_byte(val) == Some(op),
                Err(e) => wal_op_of_byte(val) is None && e is CorruptPage,
            },
    {
        match val {
            0 => Ok(WalOp::Insert),
            1 => Ok(WalOp::Update),
            2 => Ok(WalOp::Delete),
            _ => Err(DbError::CorruptPage(wal_op_message(val))),
        }
    }

    /// The byte that stands for the operation.
    pub fn as_u8(self) -> (b: u8)
        ensures
            b == wal_op_byte(self),
    {
        match self {
            WalOp::Insert => 0,
            WalOp::Update => 1,
            WalOp::Delete => 2,
        }
    }
}

/// The mathematical content of a [`WalEntry`].
pub struct WalEntryView {
    pub opcode: WalOp,
    pub lsn: u64,
    pub page_id: u64,
    pub row_id: u32,
    pub payload: Seq<u8>,
}

/// A log record describing one row modification on a page.
#[derive(Debug, Clone, PartialEq, Eq)]
pub struct WalEntry {
    pub opcode: WalOp,
    pub lsn: u64,
    pub page_id: PageId,
    pub row_id: u32,
    pub payload: Vec<u8>,
}

impl View for WalEntry {
    type V = WalEntryView;

    open spec fn view(&self) -> WalEntryView {
        WalEntryView {
            opcode: self.opcode,
            lsn: self.lsn,
            page_id: self.page_id.0,
            row_id: self.row_id,
            payload: self.payload@,
        }
    }
}

/// The bytes of a record: header fields in little-endian order, then the
/// payload. The length field holds the payload length truncated to 32 bits.
pub open spec fn wal_entry_bytes(e: WalEntryView) -> Seq<u8> {
    seq![wal_op_byte(e.opcode)] + spec_u64_to_le_bytes(e.lsn) + spec_u64_to_le_bytes(e.page_id)
        + spec_u32_to_le_bytes(e.row_id) + spec_u32_to_le_bytes(e.payload.len() as u32)
        + e.payload
}

/// The record at the front of `b`, or `None` where `b` is shorter than the
/// header, the op byte names no operation, or `b` is shorter than the header
/// and the payload length it records. Bytes after the payload are ignored.
pub open spec fn decode_wal_spec(b: Seq<u8>) -> Option<WalEntryView> {
    if b.len() < WAL_ENTRY_HEADER_SIZE {
        None
    } else {
        match wal_op_of_byte(b[0]) {
            None => None,
            Some(op) => {
                let len = u32_at(b, 21);
                if WAL_ENTRY_HEADER_SIZE + len > b.len() {
                    None
                } else {
                    Some(
                        WalEntryView {
                            opcode: op,
                            lsn: u64_at(b, 1),
                            page_id: u64_at(b, 9),
                            row_id: u32_at(b, 17),
                            payload: b.subrange(25, 25 + len),
                        },
                    )
                }
            },
        }
    }
}

/// Appends `src` to `buf`.
fn append_bytes(buf: &mut Vec<u8>, src: &[u8])
    ensures
        final(buf)@ == old(buf)@ + src@,
{
    let mut i: usize = 0;
    while i < src.len()
        invariant
            0 <= i <= src@.len(),
            buf@ == old(buf)@ + src@.subrange(0, i as int),
        decreases src@.len() - i,
    {
        buf.push(src[i]);
        i = i + 1;
        assert(buf@ =~= old(buf)@ + src@.subrange(0, i as int));
    }
    assert(src@.subrange(0, src@.len() as int) =~= src@);
}

impl WalEntry {
    /// The record as bytes: op, lsn, page id, row id and payload length in
    /// little-endian order, then the payload.
    pub fn encode(&self) -> (bytes: Vec<u8>)
        ensures
            bytes@ == wal_entry_bytes(self@),
    {
        let mut buffer: Vec<u8> = Vec::new();
        buffer.push(self.opcode.as_u8());
        append_bytes(&mut buffer, u64_to_le_bytes(self.lsn).as_slice());
        append_bytes(&mut buffer, u64_to_le_bytes(self.page_id.0).as_slice());
        append_bytes(&mut buffer, u32_to_le_bytes(self.row_id).as_slice());
        let payload_len = self.payload.len() as u32;
        append_bytes(&mut buffer, u32_to_le_bytes(payload_len).as_slice());
        append_bytes(&mut buffer, self.payload.as_slice());
        assert(buffer@ =~= wal_entry_bytes(self@));
        buffer
    }

    /// The record at the front of `buffer`. Fails with `CorruptPage` where the
    /// buffer is shorter than the header, the op byte names no operation, or
    /// the buffer is shorter than the header plus the recorded payload length.
    pub fn decode(buffer: &[u8]) -> (result: Result<Self, DbError>)
        ensures
            match result {
                Ok(e) => decode_wal_spec(buffer@) == Some(e@),
                Err(err) => decode_wal_spec(buffer@) is None && err is CorruptPage,
            },
    {
        if buffer.len() < WAL_ENTRY_HEADER_SIZE {
            return Err(DbError::CorruptPage(wal_header_message(buffer.len())));
        }
        let opcode = match WalOp::from_u8(buffer[0]) {
            Ok(op) => op,
            Err(e) => return Err(e),
        };
        let lsn = u64_from_le_bytes(slice_subrange(buffer, 1, 9));
        let page_id = PageId(u64_from_le_bytes(slice_subrange(buffer, 9, 17)));
        let row_id = u32_from_le_bytes(slice_subrange(buffer, 17, 21));
        let payload_len = u32_from_le_bytes(slice_subrange(buffer, 21, 25));
        let expected_size = WAL_ENTRY_HEADER_SIZE as u64 + payload_len as u64;
        if (buffer.len() as u64) < expected_size {
            return Err(DbError::CorruptPage(wal_payload_message(expected_size, buffer.len())));
        }
        let end = expected_size as usize;
        let payload = vstd::slice::slice_to_vec(slice_subrange(buffer, 25, end));
        Ok(WalEntry { opcode, lsn, page_id, row_id, payload })
    }
}

/// A batch of records to be made durable together.
pub type WalBatch = Vec<WalEntry>;

/// Decoding the bytes of a record gives the record back, provided its payload
/// length fits the 32-bit length field.
pub proof fn lemma_wal_decode_inverts_encode(e: WalEntryView)
    requires
        e.payload.len() <= u32::MAX,
    ensures
        decode_wal_spec(wal_entry_bytes(e)) == Some(e),
{
    lemma_auto_spec_u32_to_from_le_bytes();
    lemma_auto_spec_u64_to_from_le_bytes();
    let b = wal_entry_bytes(e);
    assert(b.subrange(1, 9) =~= spec_u64_to_le_bytes(e.lsn));
    assert(b.subrange(9, 17) =~= spec_u64_to_le_bytes(e.page_id));
    assert(b.subrange(17, 21) =~= spec_u32_to_le_bytes(e.row_id));
    assert(b.subrange(21, 25) =~= spec_u32_to_le_bytes(e.payload.len() as u32));
    assert(b.subrange(25, 25 + e.payload.len() as int) =~= e.payload);
}

/// An operation's byte reads back as that operation.
pub proof fn lemma_wal_op_round_trip(op: WalOp)
    ensures
        wal_op_of_byte(wal_op_byte(op)) == Some(op),
{
}

} // verus!
