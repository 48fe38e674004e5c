pub mod page;
pub mod cursor;
pub mod layout;
pub mod codec;
pub mod decode;
pub mod wal;
pub mod lru;
pub mod buffer_pool;
pub mod flusher;
pub mod bptree;
pub mod leaf;
