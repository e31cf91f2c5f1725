//! The storage layer of a log-structured-merge key-value engine: the block
//! format, the block builder and iterator, a two-way merge iterator and the
//! sorted-string-table builder.

pub mod block;
pub mod iterators;
pub mod key;
pub mod table;
