pub mod compaction;
pub mod datastore;
pub mod filter;
pub mod model;

pub use datastore::Datastore;
