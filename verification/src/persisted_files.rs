//! This tracks what files have been persisted by the write buffer, limited to the last 72 hours.
//! When queries come in they will combine whatever chunks are still buffered with the persisted
//! files to get the full set of data to query.
//!
//! The limit of 72 hours is kept by whoever owns the index, not by the index itself: an entry does
//! not say when its file was persisted, and nothing here reads a clock. The owner loads the
//! snapshots of that time, and takes out what has left it with
//! [`PersistedFiles::remove_persisted_files`]. Until then the index answers with every file that
//! it holds.

use crate::deletion::{lists_marked, marked_ids, table_deleted, to_be_kept, DeletedTables};
use crate::hash::deleted_by_db;
use crate::ids::{DbId, TableId};
use crate::incremental::apply_snapshot;
use crate::inner::Inner;
use crate::load::{replay, replayed_index};
use crate::meaning::{lemma_none_has_id, lemma_upsert_contains};
use crate::model::{
    ids_of, index_totals, lemma_index_totals_bounds, totals_of, upsert, with_ids, with_path,
    without_ids, TableKey, Totals,
};
use crate::parquet::ParquetFile;
use crate::query::{asked_for, lemma_all_asked_for, newest_first, ChunkFilter};
use crate::snapshot::{
    all_listed, files_wf, lists_table, only_with_tables, DatabaseFiles, PersistedSnapshot,
};
use crate::vec_map::VecMap;
use vstd::prelude::*;

verus! {

/// The index of the persisted files.
#[derive(Debug)]
pub struct PersistedFiles {
    pub inner: Inner,
}

impl PersistedFiles {
    /// The metrics are those of the files that the index holds.
    pub open spec fn wf(&self) -> bool {
        self.inner.wf()
    }

    /// The files of one table.
    pub open spec fn table(&self, k: TableKey) -> Seq<ParquetFile> {
        self.inner.table(k)
    }

    /// No table has two entries for one path.
    pub open spec fn one_entry_per_path(&self) -> bool {
        self.inner.one_entry_per_path()
    }

    /// What is marked for deletion in each database.
    pub open spec fn deleted(&self) -> Map<u32, DeletedTables> {
        deleted_by_db(self.inner.deleted_data)
    }

    pub fn new() -> (r: PersistedFiles)
        ensures
            r.wf(),
            forall|k: TableKey| #[trigger] r.table(k) == Seq::<ParquetFile>::empty(),
            r.inner.metrics() == Totals::zero(),
            r.one_entry_per_path(),
            r.deleted() == Map::<u32, DeletedTables>::empty(),
    {
        PersistedFiles { inner: Inner::new() }
    }

    /// Create a new `PersistedFiles` from a list of persisted snapshots, the newest of which comes
    /// first.
    pub fn new_from_persisted_snapshots(
        persisted_snapshots: Vec<PersistedSnapshot>,
    ) -> (r: PersistedFiles)
        requires
            index_totals(replayed_index(persisted_snapshots@)).countable(),
        ensures
            r.wf(),
            forall|k: TableKey| #[trigger] r.table(k) == replay(persisted_snapshots@, k),
            r.inner.metrics() == index_totals(replayed_index(persisted_snapshots@)),
            r.one_entry_per_path(),
            r.deleted() == Map::<u32, DeletedTables>::empty(),
    {
        PersistedFiles { inner: Inner::new_from_persisted_snapshots(persisted_snapshots) }
    }

    /// Add all files from a persisted snapshot
    pub fn add_persisted_snapshot_files(&mut self, persisted_snapshot: PersistedSnapshot)
        requires
            old(self).wf(),
            old(self).inner.metrics().plus(
                totals_of(all_listed(persisted_snapshot.databases.entries@)),
            ).countable(),
        ensures
            final(self).wf(),
            forall|k: TableKey| #[trigger]
                final(self).table(k) == apply_snapshot(old(self).table(k), persisted_snapshot, k),
            forall|k: TableKey|
                !lists_table(persisted_snapshot.databases.entries@, k) && !lists_table(
                    persisted_snapshot.removed_files.entries@,
                    k,
                ) ==> #[trigger] final(self).table(k) == old(self).table(k),
            old(self).one_entry_per_path() ==> final(self).one_entry_per_path(),
            final(self).deleted() == old(self).deleted(),
    {
        self.inner.add_persisted_snapshot(persisted_snapshot);
    }

    /// Add single file to a table
    pub fn add_persisted_file(
        &mut self,
        db_id: &DbId,
        table_id: &TableId,
        parquet_file: &ParquetFile,
    )
        requires
            old(self).wf(),
            old(self).inner.metrics().minus(
                totals_of(with_path(old(self).table((*db_id, *table_id)), parquet_file.path@)),
            ).plus(Totals::of_file(*parquet_file)).countable(),
        ensures
            final(self).wf(),
            forall|k: TableKey| #[trigger]
                final(self).table(k) == (if k == (*db_id, *table_id) {
                    upsert(old(self).table(k), *parquet_file)
                } else {
                    old(self).table(k)
                }),
            forall|f: ParquetFile| #[trigger]
                final(self).table((*db_id, *table_id)).contains(f) == (f == *parquet_file || (old(
                    self,
                ).table((*db_id, *table_id)).contains(f) && f.path@ != parquet_file.path@)),
            final(self).inner.metrics() == old(self).inner.metrics().minus(
                totals_of(with_path(old(self).table((*db_id, *table_id)), parquet_file.path@)),
            ).plus(Totals::of_file(*parquet_file)),
            with_path(final(self).table((*db_id, *table_id)), parquet_file.path@)
                == seq![*parquet_file],
            old(self).one_entry_per_path() ==> final(self).one_entry_per_path(),
            final(self).deleted() == old(self).deleted(),
    {
        self.inner.add_persisted_file(db_id, table_id, parquet_file);
        proof {
            let k = (*db_id, *table_id);
            assert forall|f: ParquetFile| #[trigger]
                self.table(k).contains(f) == (f == *parquet_file || (old(self).table(k).contains(f)
                    && f.path@ != parquet_file.path@)) by {
                lemma_upsert_contains(old(self).table(k), *parquet_file, f);
            }
        }
    }

    /// Remove specific files from a table (for compaction and drift pruning).
    ///
    /// Entries are matched by id, not by path, so removing a stale entry never drops a different
    /// entry that happens to share its path. Metrics are adjusted by the entries actually removed;
    /// files that are not in the index are ignored.
    pub fn remove_persisted_files(
        &mut self,
        db_id: &DbId,
        table_id: &TableId,
        files_to_remove: &[ParquetFile],
    )
        requires
            old(self).wf(),
        ensures
            final(self).wf(),
            forall|k: TableKey| #[trigger]
                final(self).table(k) == (if k == (*db_id, *table_id) {
                    without_ids(old(self).table(k), ids_of(files_to_remove@))
                } else {
                    old(self).table(k)
                }),
            forall|f: ParquetFile| #[trigger]
                final(self).table((*db_id, *table_id)).contains(f) == (old(self).table(
                    (*db_id, *table_id),
                ).contains(f) && forall|i: int|
                    0 <= i < files_to_remove@.len() ==> (#[trigger] files_to_remove@[i]).id
                        != f.id),
            final(self).inner.metrics() == old(self).inner.metrics().minus(
                totals_of(
                    with_ids(old(self).table((*db_id, *table_id)), ids_of(files_to_remove@)),
                ),
            ),
            old(self).one_entry_per_path() ==> final(self).one_entry_per_path(),
            final(self).deleted() == old(self).deleted(),
    {
        self.inner.remove_files(db_id, table_id, files_to_remove);
        proof {
            let k = (*db_id, *table_id);
            assert forall|f: ParquetFile| #[trigger]
                self.table(k).contains(f) == (old(self).table(k).contains(f) && forall|i: int|
                    0 <= i < files_to_remove@.len() ==> (#[trigger] files_to_remove@[i]).id
                        != f.id) by {
                lemma_none_has_id(old(self).table(k), files_to_remove@, f);
            }
        }
    }

    /// Get the list of files for a given database and table, always return in descending order of
    /// min_time
    pub fn get_files(&self, db_id: DbId, table_id: TableId) -> (r: Vec<ParquetFile>)
        ensures
            newest_first(r@, self.table((db_id, table_id))),
            forall|f: ParquetFile| #[trigger]
                r@.contains(f) == self.table((db_id, table_id)).contains(f),
            forall|i: int, j: int|
                0 <= i < j < r@.len() ==> (#[trigger] r@[i]).min_time >= (#[trigger] r@[j]).min_time,
    {
        let filter = ChunkFilter::default();
        proof {
            lemma_all_asked_for(self.table((db_id, table_id)), filter);
        }
        self.get_files_filtered(db_id, table_id, &filter)
    }

    /// Get the list of files for a given database and table, using the provided filter to filter
    /// results.
    ///
    /// Always return in descending order of min_time
    pub fn get_files_filtered(
        &self,
        db_id: DbId,
        table_id: TableId,
        filter: &ChunkFilter,
    ) -> (r: Vec<ParquetFile>)
        ensures
            newest_first(r@, self.table((db_id, table_id)).filter(asked_for(*filter))),
            forall|f: ParquetFile| #[trigger]
                r@.contains(f) == (self.table((db_id, table_id)).contains(f)
                    && (filter.time_lower_bound_ns matches Some(lower) ==> lower <= f.max_time)
                    && (filter.time_upper_bound_ns matches Some(upper) ==> f.min_time <= upper)),
            forall|i: int, j: int|
                0 <= i < j < r@.len() ==> (#[trigger] r@[i]).min_time >= (#[trigger] r@[j]).min_time,
    {
        self.inner.files_filtered(db_id, table_id, filter)
    }

    /// Remove files that are marked for deletion or that violate their retention period: those of
    /// a table in `cutoffs` whose newest row is older than the cutoff of the table.
    pub fn remove_files_for_deletion(
        &mut self,
        cutoffs: &VecMap<TableKey, i64>,
    ) -> (removed: DatabaseFiles)
        requires
            old(self).wf(),
            cutoffs.wf(),
        ensures
            final(self).wf(),
            files_wf(removed),
            only_with_tables(removed.entries@),
            exists|owner: Map<u64, TableKey>| #[trigger]
                lists_marked(
                    old(self).inner.index(),
                    old(self).deleted(),
                    cutoffs@,
                    removed,
                    owner,
                ),
            forall|k: TableKey| #[trigger]
                final(self).table(k) == old(self).table(k).filter(
                    to_be_kept(old(self).deleted(), cutoffs@, k),
                ),
            forall|k: TableKey|
                table_deleted(old(self).deleted(), k) ==> (#[trigger] final(self).table(k)).len()
                    == 0,
            forall|k: TableKey, f: ParquetFile|
                !table_deleted(old(self).deleted(), k) ==> #[trigger] final(self).table(k).contains(
                    f,
                ) == (old(self).table(k).contains(f) && (cutoffs@.contains_key(k) ==> f.max_time
                    >= cutoffs@[k])),
            old(self).one_entry_per_path() ==> final(self).one_entry_per_path(),
            ({
                let none_marked = marked_ids(
                    old(self).inner.index(),
                    old(self).deleted(),
                    cutoffs@,
                ) == Set::<u64>::empty();
                &&& none_marked <==> removed.entries@.len() == 0
                &&& none_marked ==> *final(self) == *old(self)
                &&& !none_marked ==> final(self).deleted() == Map::<u32, DeletedTables>::empty()
            }),
    {
        let ghost before = self.inner;
        let removed = self.inner.remove_files_for_deletion(cutoffs);
        proof {
            let deleted = deleted_by_db(before.deleted_data);
            let owner = choose|owner: Map<u64, TableKey>| #[trigger]
                lists_marked(before.index(), deleted, cutoffs@, removed, owner);
            assert(lists_marked(
                old(self).inner.index(),
                old(self).deleted(),
                cutoffs@,
                removed,
                owner,
            ));
        }
        removed
    }

    /// Mark all tables of a database for deletion.
    pub fn delete_database(&mut self, db_id: DbId)
        requires
            old(self).wf(),
        ensures
            final(self).wf(),
            forall|k: TableKey| #[trigger] final(self).table(k) == old(self).table(k),
            final(self).deleted() == old(self).deleted().insert(db_id.0, DeletedTables::All),
            forall|k: TableKey| #[trigger]
                table_deleted(final(self).deleted(), k) == (k.0 == db_id || table_deleted(
                    old(self).deleted(),
                    k,
                )),
    {
        self.inner.delete_database(db_id);
    }

    /// Mark a table for deletion.
    pub fn delete_table(&mut self, db_id: DbId, table_id: TableId)
        requires
            old(self).wf(),
        ensures
            final(self).wf(),
            forall|k: TableKey| #[trigger] final(self).table(k) == old(self).table(k),
            final(self).deleted().dom() == old(self).deleted().dom().insert(db_id.0),
            forall|k: TableKey| #[trigger]
                table_deleted(final(self).deleted(), k) == (k == (db_id, table_id)
                    || table_deleted(old(self).deleted(), k)),
    {
        self.inner.delete_table(db_id, table_id);
    }

    /// Get parquet file metrics: file count, size in bytes and row count
    pub fn get_metrics(&self) -> (r: (u64, u128, u64))
        requires
            self.wf(),
        ensures
            ({
                let totals = index_totals(self.inner.index());
                &&& r.0 == totals.count
                &&& r.1 == totals.size_bytes
                &&& r.2 == totals.rows
            }),
    {
        proof {
            lemma_index_totals_bounds(self.inner.index());
        }
        (
            self.inner.parquet_files_count,
            self.inner.parquet_files_size_bytes.magnitude,
            self.inner.parquet_files_row_count,
        )
    }
}

impl Default for PersistedFiles {
    fn default() -> (r: PersistedFiles)
        ensures
            r.wf(),
            forall|k: TableKey| #[trigger] r.table(k) == Seq::<ParquetFile>::empty(),
            r.inner.metrics() == Totals::zero(),
            r.one_entry_per_path(),
            r.deleted() == Map::<u32, DeletedTables>::empty(),
    {
        PersistedFiles::new()
    }
}

} // verus!
