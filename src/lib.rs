//! Storage core of an LSM-tree key-value engine: the varint-framed record
//! codec, the fixed-capacity page that stores records with a sparse offset
//! index, and the ordered multi-level index used as a write buffer.
pub mod varint;
pub mod entry;
pub mod block;
pub mod skiplist;
