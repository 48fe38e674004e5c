use vstd::prelude::*;

verus! {

/// Lets `std::io::Error` travel inside [`DbError`]; nothing is known of its content.
#[verifier::external_type_specification]
#[verifier::external_body]
pub struct ExIoError(std::io::Error);

/// Every failure the storage engine reports.
#[derive(Debug)]
pub enum DbError {
    /// The page with this id is not in the store.
    PageNotFound(u64),
    /// The page has no room left for the cell.
    PageFull,
    /// The tuple of this size is larger than allowed.
    TupleTooLarge(usize),
    /// An I/O operation of the disk failed.
    Io(std::io::Error),
    /// The bytes of a page or log record do not describe a valid value.
    CorruptPage(String),
    /// The replacer is empty, or every tracked page is pinned.
    LruEviction,
    /// A record with this key is already stored.
    DuplicateKey(u64),
}

} // verus!
