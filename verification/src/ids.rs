//! Identifiers of databases, tables and parquet files.

use vstd::prelude::*;

verus! {

/// Identifies a database.
#[derive(Debug, Clone, Copy, PartialEq, Eq, Structural, PartialOrd, Ord, Hash)]
pub struct DbId(pub u32);

/// Identifies a table within a database.
#[derive(Debug, Clone, Copy, PartialEq, Eq, Structural, PartialOrd, Ord, Hash)]
pub struct TableId(pub u32);

/// Identifies one entry of the index: two writes to one path have different ids.
#[derive(Debug, Clone, Copy, PartialEq, Eq, Structural, PartialOrd, Ord, Hash)]
pub struct ParquetFileId(pub u64);

impl From<u32> for DbId {
    fn from(id: u32) -> (r: DbId) {
        DbId(id)
    }
}

impl vstd::std_specs::convert::FromSpecImpl<u32> for DbId {
    open spec fn obeys_from_spec() -> bool {
        true
    }

    open spec fn from_spec(id: u32) -> DbId {
        DbId(id)
    }
}

impl From<u32> for TableId {
    fn from(id: u32) -> (r: TableId) {
        TableId(id)
    }
}

impl vstd::std_specs::convert::FromSpecImpl<u32> for TableId {
    open spec fn obeys_from_spec() -> bool {
        true
    }

    open spec fn from_spec(id: u32) -> TableId {
        TableId(id)
    }
}

impl From<u64> for ParquetFileId {
    fn from(id: u64) -> (r: ParquetFileId) {
        ParquetFileId(id)
    }
}

impl vstd::std_specs::convert::FromSpecImpl<u64> for ParquetFileId {
    open spec fn obeys_from_spec() -> bool {
        true
    }

    open spec fn from_spec(id: u64) -> ParquetFileId {
        ParquetFileId(id)
    }
}

} // verus!
