pub mod log_handler;
pub mod metadata;
pub mod serializer;

pub use metadata::{Metadata, SSTableSegment};
pub use serializer::{deserialize_bytes, serialize, serialized_size};
