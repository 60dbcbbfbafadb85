pub mod key_order;
pub mod merge_iterator;
pub mod merge_spec;
pub mod storage_iterator;

pub use merge_iterator::MergeIterator;
pub use storage_iterator::StorageIterator;
