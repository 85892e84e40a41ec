//! The index of persisted files and its metrics.

use crate::bytes::ByteBalance;
use crate::deletion::DeletedTables;
use crate::hash::{
    deleted_by_db, ids_in, tables_by_db, DatabaseToTables, DeletedData, IdSet, TableToFiles,
};
use crate::ids::{DbId, TableId};
use crate::laws::{
    law_added_file_is_the_entry_for_its_path, law_adding_keeps_paths_unique,
    law_removing_keeps_paths_unique,
};
use crate::model::{
    files_of, ids_of, index_totals, lemma_index_totals_bounds, lemma_index_totals_insert,
    lemma_plausible_fit, lemma_table_totals_le, lemma_totals_bounds, lemma_totals_push,
    lemma_totals_split_ids, lemma_totals_split_path, lemma_upsert_one, paths_unique, totals_of,
    upsert, with_ids, with_path, without_ids, without_path, Index, TableKey, Totals,
};
use crate::parquet::ParquetFile;
use crate::removed::{drop_ids, drop_path, Removed};
use vstd::prelude::*;

verus! {

/// The files by database and table as one map.
pub open spec fn index_in(dbs: Map<u32, Map<u32, Seq<ParquetFile>>>) -> Index {
    Map::new(
        |k: TableKey| dbs.contains_key(k.0.0) && dbs[k.0.0].contains_key(k.1.0),
        |k: TableKey| dbs[k.0.0][k.1.0],
    )
}

/// The index and its metrics.
#[derive(Debug)]
pub struct Inner {
    /// The map of databases to tables to files
    pub files: DatabaseToTables,
    /// Overall count of the parquet files
    pub parquet_files_count: u64,
    /// Total size of all parquet files in bytes
    pub parquet_files_size_bytes: ByteBalance,
    /// Overall row count within the parquet files
    pub parquet_files_row_count: u64,
    /// Data that are marked for deletion.
    pub deleted_data: DeletedData,
}

impl Inner {
    /// The files of every table.
    pub open spec fn index(&self) -> Index {
        index_in(tables_by_db(self.files))
    }

    /// The files of one table.
    pub open spec fn table(&self, k: TableKey) -> Seq<ParquetFile> {
        files_of(self.index(), k)
    }

    /// What the counters say.
    pub open spec fn metrics(&self) -> Totals {
        Totals {
            count: self.parquet_files_count as int,
            size_bytes: self.parquet_files_size_bytes@,
            rows: self.parquet_files_row_count as int,
        }
    }

    /// The index knows finitely many tables, and the metrics are the totals of what it holds.
    pub open spec fn wf(&self) -> bool {
        &&& self.index().dom().finite()
        &&& self.metrics() == index_totals(self.index())
    }

    /// No table has two entries for one path.
    pub open spec fn one_entry_per_path(&self) -> bool {
        forall|k: TableKey| paths_unique(#[trigger] self.table(k))
    }

    /// An index without files.
    pub fn new() -> (r: Inner)
        ensures
            r.wf(),
            r.index() == Map::<TableKey, Seq<ParquetFile>>::empty(),
            r.one_entry_per_path(),
            deleted_by_db(r.deleted_data) == Map::<
                u32,
                DeletedTables,
            >::empty(),
    {
        let r = Inner {
            files: DatabaseToTables::new(),
            parquet_files_count: 0,
            parquet_files_size_bytes: ByteBalance::new(0),
            parquet_files_row_count: 0,
            deleted_data: DeletedData::new(),
        };
        assert(r.index() =~= Map::<TableKey, Seq<ParquetFile>>::empty());
        r
    }

    /// Insert `parquet_file` into its table, removing any entry with the same path. Removed
    /// entries are accumulated into `replaced`; metrics are left to the caller.
    pub fn upsert_file(
        &mut self,
        db_id: &DbId,
        table_id: &TableId,
        parquet_file: &ParquetFile,
        replaced: &mut Removed,
    )
        requires
            old(replaced)@.plus(
                totals_of(with_path(old(self).table((*db_id, *table_id)), parquet_file.path@)),
            ).fit(),
        ensures
            final(self).index() == old(self).index().insert(
                (*db_id, *table_id),
                upsert(old(self).table((*db_id, *table_id)), *parquet_file),
            ),
            final(replaced)@ == old(replaced)@.plus(
                totals_of(with_path(old(self).table((*db_id, *table_id)), parquet_file.path@)),
            ),
            with_path(final(self).table((*db_id, *table_id)), parquet_file.path@)
                == seq![*parquet_file],
            old(self).one_entry_per_path() ==> final(self).one_entry_per_path(),
            final(self).metrics() == old(self).metrics(),
            final(self).deleted_data == old(self).deleted_data,
    {
        let ghost k = (*db_id, *table_id);
        let ghost before = self.index();
        if self.files.get(db_id.0).is_none() {
            self.files.insert(db_id.0, TableToFiles::new());
        }
        assert(self.index() =~= before);
        match self.files.get_mut(db_id.0) {
            Some(tables) => {
                if tables.get(table_id.0).is_none() {
                    tables.insert(table_id.0, Vec::new());
                }
                match tables.get_mut(table_id.0) {
                    Some(files) => {
                        assert(files@ == files_of(before, k));
                        drop_path(files, &parquet_file.path, replaced);
                        files.push(parquet_file.clone());
                    },
                    None => {},
                }
            },
            None => {},
        }
        proof {
            let table = files_of(before, k);
            assert(self.index() =~= before.insert(k, upsert(table, *parquet_file)));
            law_added_file_is_the_entry_for_its_path(table, *parquet_file, parquet_file.path@);
            if old(self).one_entry_per_path() {
                assert(paths_unique(old(self).table(k)));
                law_adding_keeps_paths_unique(table, seq![*parquet_file]);
                lemma_upsert_one(table, *parquet_file);
                assert forall|j: TableKey| paths_unique(#[trigger] self.table(j)) by {
                    assert(paths_unique(old(self).table(j)));
                }
            }
        }
    }

    /// Subtract removed entries from the metrics. The numbers of files and of rows stop at zero;
    /// the size goes below it, as far as it can be held.
    pub fn subtract(&mut self, removed: &Removed)
        ensures
            final(self).files == old(self).files,
            final(self).deleted_data == old(self).deleted_data,
            final(self).parquet_files_count == (if removed.count <= old(self).parquet_files_count {
                old(self).parquet_files_count - removed.count
            } else {
                0
            }),
            final(self).parquet_files_row_count == (if removed.rows
                <= old(self).parquet_files_row_count {
                old(self).parquet_files_row_count - removed.rows
            } else {
                0
            }),
            final(self).parquet_files_size_bytes@ == (if old(self).parquet_files_size_bytes@
                - removed.size_bytes < -u128::MAX {
                -u128::MAX
            } else {
                old(self).parquet_files_size_bytes@ - removed.size_bytes
            }),
    {
        self.parquet_files_count = self.parquet_files_count.saturating_sub(removed.count);
        self.parquet_files_row_count = self.parquet_files_row_count.saturating_sub(removed.rows);
        self.parquet_files_size_bytes.subtract(removed.size_bytes);
    }

    /// Add a single file to a table's index.
    ///
    /// Object storage holds exactly one object per path, so the index keeps exactly one entry
    /// per path: adding a file whose path is already indexed replaces the existing entry (the
    /// newest write describes what is in object storage now). Re-adding an identical entry is
    /// a no-op for the metrics.
    pub fn add_persisted_file(
        &mut self,
        db_id: &DbId,
        table_id: &TableId,
        parquet_file: &ParquetFile,
    )
        requires
            old(self).wf(),
            old(self).metrics().minus(
                totals_of(with_path(old(self).table((*db_id, *table_id)), parquet_file.path@)),
            ).plus(Totals::of_file(*parquet_file)).countable(),
        ensures
            final(self).wf(),
            final(self).index() == old(self).index().insert(
                (*db_id, *table_id),
                upsert(old(self).table((*db_id, *table_id)), *parquet_file),
            ),
            final(self).metrics() == old(self).metrics().minus(
                totals_of(with_path(old(self).table((*db_id, *table_id)), parquet_file.path@)),
            ).plus(Totals::of_file(*parquet_file)),
            with_path(final(self).table((*db_id, *table_id)), parquet_file.path@)
                == seq![*parquet_file],
            old(self).one_entry_per_path() ==> final(self).one_entry_per_path(),
            final(self).deleted_data == old(self).deleted_data,
    {
        let ghost k = (*db_id, *table_id);
        let ghost table = self.table(k);
        let ghost path = parquet_file.path@;
        proof {
            lemma_table_totals_le(self.index(), k);
            lemma_totals_split_path(table, path);
            lemma_totals_bounds(without_path(table, path));
            lemma_totals_bounds(with_path(table, path));
            lemma_index_totals_insert(self.index(), k, upsert(table, *parquet_file));
            lemma_totals_push(without_path(table, path), *parquet_file);
            lemma_index_totals_bounds(self.index().insert(k, upsert(table, *parquet_file)));
            lemma_plausible_fit(
                index_totals(self.index().insert(k, upsert(table, *parquet_file))),
            );
        }
        let mut replaced = Removed::new();
        self.upsert_file(db_id, table_id, parquet_file, &mut replaced);
        let ghost grown = *self;
        self.subtract(&replaced);
        self.parquet_files_count = self.parquet_files_count + 1;
        self.parquet_files_row_count = self.parquet_files_row_count + parquet_file.row_count;
        self.parquet_files_size_bytes.add(parquet_file.size_bytes as u128);
        proof {
            if grown.one_entry_per_path() {
                assert forall|j: TableKey| paths_unique(#[trigger] self.table(j)) by {
                    assert(paths_unique(grown.table(j)));
                }
            }
        }
    }

    /// Remove the entries of a table that have the id of one of `files_to_remove`, and take them
    /// out of the metrics. Files that are not in the index are ignored.
    pub fn remove_files(
        &mut self,
        db_id: &DbId,
        table_id: &TableId,
        files_to_remove: &[ParquetFile],
    )
        requires
            old(self).wf(),
        ensures
            final(self).wf(),
            forall|k: TableKey| #[trigger]
                final(self).table(k) == (if k == (*db_id, *table_id) {
                    without_ids(old(self).table(k), ids_of(files_to_remove@))
                } else {
                    old(self).table(k)
                }),
            final(self).index().dom() == old(self).index().dom(),
            final(self).metrics() == old(self).metrics().minus(
                totals_of(
                    with_ids(old(self).table((*db_id, *table_id)), ids_of(files_to_remove@)),
                ),
            ),
            old(self).one_entry_per_path() ==> final(self).one_entry_per_path(),
            final(self).deleted_data == old(self).deleted_data,
    {
        let ghost k = (*db_id, *table_id);
        let ghost before = self.index();
        let ghost table = self.table(k);
        let ids = ids_to_remove(files_to_remove);
        let ghost gone = ids_in(ids);
        let mut removed = Removed::new();
        proof {
            lemma_table_totals_le(before, k);
            lemma_totals_split_ids(table, gone);
            lemma_totals_bounds(with_ids(table, gone));
            lemma_totals_bounds(without_ids(table, gone));
            lemma_index_totals_insert(before, k, without_ids(table, gone));
            lemma_none_with_ids(gone);
        }
        match self.files.get_mut(db_id.0) {
            Some(tables) => {
                match tables.get_mut(table_id.0) {
                    Some(files) => {
                        assert(files@ == files_of(before, k));
                        drop_ids(files, &ids, &mut removed);
                    },
                    None => {},
                }
            },
            None => {},
        }
        proof {
            if before.contains_key(k) {
                assert(self.index() =~= before.insert(k, without_ids(table, gone)));
            } else {
                assert(self.index() =~= before);
            }
        }
        self.subtract(&removed);
        proof {
            if old(self).one_entry_per_path() {
                assert(paths_unique(old(self).table(k)));
                law_removing_keeps_paths_unique(table, gone);
                assert forall|j: TableKey| paths_unique(#[trigger] self.table(j)) by {
                    assert(paths_unique(old(self).table(j)));
                }
            }
        }
    }
}

/// The ids of `files`.
fn ids_to_remove(files: &[ParquetFile]) -> (r: IdSet)
    ensures
        ids_in(r) == ids_of(files@),
{
    let mut r = IdSet::new();
    let mut i: usize = 0;
    while i < files.len()
        invariant
            i <= files@.len(),
            forall|id: u64| #[trigger]
                ids_in(r).contains(id) <==> exists|j: int|
                    0 <= j < i && (#[trigger] files@[j]).id.0 == id,
        decreases files@.len() - i,
    {
        r.insert(files[i].id.0);
        i = i + 1;
    }
    assert(ids_in(r) =~= ids_of(files@));
    r
}

proof fn lemma_none_with_ids(ids: Set<u64>)
    ensures
        with_ids(Seq::empty(), ids) == Seq::<ParquetFile>::empty(),
        without_ids(Seq::empty(), ids) == Seq::<ParquetFile>::empty(),
{
    reveal(Seq::filter);
}

} // verus!
