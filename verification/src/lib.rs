pub mod bytes;
pub mod capacity;
pub mod deletion;
pub mod deletion_laws;
pub mod filters;
pub mod hash;
pub mod ids;
pub mod incremental;
pub mod inner;
pub mod laws;
pub mod load;
pub mod loader;
pub mod meaning;
pub mod meaning_of_lists;
pub mod model;
pub mod parquet;
pub mod persisted_files;
pub mod query;
pub mod removed;
pub mod replaced;
pub mod snapshot;
pub mod vec_map;
