use smol_db::error::DbError;
use smol_db::storage::page::PageId;
use smol_db::storage::wal::{WalEntry, WalOp, WAL_ENTRY_HEADER_SIZE};

#[test]
fn test_wal_entry_symmetry_and_layout() {
    let original_entry = WalEntry {
        opcode: WalOp::Update,
        lsn: 1048576,
        page_id: PageId(8192),
        row_id: 42,
        payload: vec![10, 20, 30, 40],
    };

    let encoded = original_entry.encode();

    assert_eq!(
        encoded.len(),
        29,
        "encoded buffer size must match header + payload length"
    );

    assert_eq!(encoded[0], WalOp::Update as u8);

    let decoded = WalEntry::decode(&encoded).expect("failed to decode valid WAL entry");
    assert_eq!(
        original_entry, decoded,
        "decoded entry must match original entry exactly"
    );
}

#[test]
fn test_wal_entry_decode_truncated_buffer() {
    let short_buf = vec![0u8; 10];
    let result = WalEntry::decode(&short_buf);
    assert!(
        result.is_err(),
        "decoding a truncated header buffer must fail"
    );
}

#[test]
fn wal_layout_is_little_endian() {
    let e = WalEntry {
        opcode: WalOp::Delete,
        lsn: 0x0102,
        page_id: PageId(0x0304),
        row_id: 0x0506,
        payload: vec![9],
    };
    let b = e.encode();
    assert_eq!(b.len(), WAL_ENTRY_HEADER_SIZE + 1);
    assert_eq!(b[0], 2);
    assert_eq!(&b[1..9], &[2, 1, 0, 0, 0, 0, 0, 0]);
    assert_eq!(&b[9..17], &[4, 3, 0, 0, 0, 0, 0, 0]);
    assert_eq!(&b[17..21], &[6, 5, 0, 0]);
    assert_eq!(&b[21..25], &[1, 0, 0, 0]);
    assert_eq!(b[25], 9);
}

#[test]
fn wal_op_bytes() {
    assert_eq!(WalOp::Insert.as_u8(), 0);
    assert_eq!(WalOp::Update.as_u8(), 1);
    assert_eq!(WalOp::Delete.as_u8(), 2);
    assert_eq!(WalOp::from_u8(0).unwrap(), WalOp::Insert);
    assert_eq!(WalOp::from_u8(2).unwrap(), WalOp::Delete);
    assert!(matches!(WalOp::from_u8(3), Err(DbError::CorruptPage(_))));
}

#[test]
fn wal_decode_rejects_bad_op_and_short_payload() {
    let mut b = WalEntry {
        opcode: WalOp::Insert,
        lsn: 1,
        page_id: PageId(2),
        row_id: 3,
        payload: vec![1, 2, 3],
    }
    .encode();
    let short = &b[..b.len() - 1];
    assert!(matches!(WalEntry::decode(short), Err(DbError::CorruptPage(_))));
    b[0] = 7;
    assert!(matches!(WalEntry::decode(&b), Err(DbError::CorruptPage(_))));
}

#[test]
fn wal_decode_ignores_trailing_bytes() {
    let e = WalEntry {
        opcode: WalOp::Insert,
        lsn: 5,
        page_id: PageId(6),
        row_id: 7,
        payload: vec![],
    };
    let mut b = e.encode();
    b.extend_from_slice(&[0xEE, 0xEE]);
    assert_eq!(WalEntry::decode(&b).unwrap(), e);
}
