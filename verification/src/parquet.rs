//! The entries of the index.

use crate::ids::ParquetFileId;
use vstd::prelude::*;

verus! {

/// What the index knows of one parquet file in object storage.
#[derive(Debug, PartialEq, Eq)]
pub struct ParquetFile {
    pub id: ParquetFileId,
    pub path: String,
    pub size_bytes: u64,
    pub row_count: u64,
    pub chunk_time: i64,
    pub min_time: i64,
    pub max_time: i64,
}

impl Clone for ParquetFile {
    fn clone(&self) -> (r: ParquetFile)
        ensures
            r == *self,
    {
        ParquetFile {
            id: self.id,
            path: self.path.clone(),
            size_bytes: self.size_bytes,
            row_count: self.row_count,
            chunk_time: self.chunk_time,
            min_time: self.min_time,
            max_time: self.max_time,
        }
    }
}

} // verus!
