pub mod converter;
pub mod memtable;
pub mod order;
pub mod sstable;

pub use converter::{
    convert_hashmap_to_vec, convert_skipmap_to_vec, convert_vec_to_hashmap, convert_vec_to_skipmap,
};
pub use memtable::Memtable;
pub use sstable::SSTable;
