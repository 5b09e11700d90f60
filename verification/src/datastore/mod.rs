pub mod config;
pub mod converters;
pub mod data;
pub mod history;
pub mod index;
pub mod index_map;
pub mod indexable;
pub mod model;
pub mod operation;
pub mod store;

pub use config::DBConfig;
pub use data::DBData;
pub use index::DBIndex;
pub use operation::Operation;
pub use store::DBStore;
