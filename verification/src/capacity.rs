//! Whether the counters of the index can hold what is to be added.

use crate::ids::{DbId, TableId};
use crate::incremental::{lemma_all_in_tables_prefix, lemma_all_listed_prefix};
use crate::inner::Inner;
use crate::load::count_files;
use crate::model::{
    lemma_index_totals_bounds, lemma_plausible_plus, lemma_table_totals_le, lemma_totals_add,
    lemma_totals_bounds, lemma_totals_push, lemma_totals_split_path, totals_of, with_path,
    without_path, Totals,
};
use crate::parquet::ParquetFile;
use crate::removed::Removed;
use crate::snapshot::{all_in_tables, all_listed, DatabaseFiles, DatabaseTables, PersistedSnapshot};
use vstd::prelude::*;

verus! {

impl Inner {
    /// Whether the counters can hold the index once `parquet_file` is added to a table.
    pub fn has_room_for_file(
        &self,
        db_id: &DbId,
        table_id: &TableId,
        parquet_file: &ParquetFile,
    ) -> (r: bool)
        requires
            self.wf(),
        ensures
            r == self.metrics().minus(
                totals_of(with_path(self.table((*db_id, *table_id)), parquet_file.path@)),
            ).plus(Totals::of_file(*parquet_file)).countable(),
    {
        let ghost k = (*db_id, *table_id);
        proof {
            reveal(Seq::filter);
            lemma_index_totals_bounds(self.index());
            lemma_table_totals_le(self.index(), k);
            lemma_totals_split_path(self.table(k), parquet_file.path@);
            lemma_totals_bounds(without_path(self.table(k), parquet_file.path@));
            lemma_totals_bounds(with_path(self.table(k), parquet_file.path@));
        }
        let replaced = match self.files.get(db_id.0) {
            Some(tables) => match tables.get(table_id.0) {
                Some(files) => count_path(files, &parquet_file.path),
                None => Removed::new(),
            },
            None => Removed::new(),
        };
        let count: u64 = self.parquet_files_count - replaced.count;
        let rows: u64 = self.parquet_files_row_count - replaced.rows;
        count < u64::MAX && rows <= u64::MAX - parquet_file.row_count
    }

    /// Whether the counters can hold the files of the index and those that a snapshot adds.
    pub fn has_room_for_snapshot(&self, persisted_snapshot: &PersistedSnapshot) -> (r: bool)
        requires
            self.wf(),
        ensures
            r == self.metrics().plus(
                totals_of(all_listed(persisted_snapshot.databases.entries@)),
            ).countable(),
    {
        proof {
            lemma_index_totals_bounds(self.index());
        }
        let mut counted = Removed {
            count: self.parquet_files_count,
            size_bytes: self.parquet_files_size_bytes.magnitude,
            rows: self.parquet_files_row_count,
        };
        count_databases(&persisted_snapshot.databases, &mut counted)
    }
}

/// The totals of the entries for `path`.
fn count_path(files: &Vec<ParquetFile>, path: &String) -> (r: Removed)
    requires
        totals_of(files@).fit(),
    ensures
        r@ == totals_of(with_path(files@, path@)),
{
    let mut r = Removed::new();
    let mut i: usize = 0;
    proof {
        reveal(Seq::filter);
        assert(with_path(files@.take(0), path@).len() == 0);
    }
    while i < files.len()
        invariant
            i <= files@.len(),
            totals_of(files@).fit(),
            r@ == totals_of(with_path(files@.take(i as int), path@)),
        decreases files@.len() - i,
    {
        let file = &files[i];
        proof {
            let n = i as int;
            let so_far = with_path(files@.take(n), path@);
            reveal(Seq::filter);
            assert(files@.take(n + 1).drop_last() =~= files@.take(n));
            lemma_totals_push(so_far, *file);
            lemma_totals_push(files@.take(n), *file);
            assert(files@.take(n + 1) =~= files@.take(n).push(*file));
            lemma_totals_split_path(files@.take(n), path@);
            lemma_totals_bounds(without_path(files@.take(n), path@));
            lemma_totals_add(files@.take(n + 1), files@.skip(n + 1));
            lemma_totals_bounds(files@.skip(n + 1));
            assert(files@.take(n + 1) + files@.skip(n + 1) =~= files@);
        }
        if file.path == *path {
            r.add(file);
        }
        i = i + 1;
    }
    assert(files@.take(files@.len() as int) =~= files@);
    r
}

/// Count the files of the tables of one database too, unless the counters cannot hold that.
fn count_tables(db_tables: &DatabaseTables, counted: &mut Removed) -> (r: bool)
    requires
        old(counted)@.plausible(),
    ensures
        r == old(counted)@.plus(totals_of(all_in_tables(db_tables.tables.entries@))).countable(),
        r ==> final(counted)@ == old(counted)@.plus(
            totals_of(all_in_tables(db_tables.tables.entries@)),
        ),
{
    let ghost before = counted@;
    let entries = &db_tables.tables.entries;
    let mut i: usize = 0;
    assert(entries@.take(0).len() == 0);
    while i < entries.len()
        invariant
            i <= entries@.len(),
            entries@ == db_tables.tables.entries@,
            before == old(counted)@,
            before.plausible(),
            counted@ == before.plus(totals_of(all_in_tables(entries@.take(i as int)))),
        decreases entries@.len() - i,
    {
        let files = &entries[i].1;
        proof {
            let n = i as int;
            assert(entries@.take(n + 1).drop_last() =~= entries@.take(n));
            lemma_totals_bounds(all_in_tables(entries@.take(n)));
            lemma_plausible_plus(before, totals_of(all_in_tables(entries@.take(n))));
            lemma_totals_add(all_in_tables(entries@.take(n)), files@);
            lemma_all_in_tables_prefix(entries@, n + 1);
        }
        if !count_files(files, counted) {
            return false;
        }
        i = i + 1;
    }
    assert(entries@.take(entries@.len() as int) =~= entries@);
    true
}

/// Count the files of all databases too, unless the counters cannot hold that.
fn count_databases(databases: &DatabaseFiles, counted: &mut Removed) -> (r: bool)
    requires
        old(counted)@.plausible(),
    ensures
        r == old(counted)@.plus(totals_of(all_listed(databases.entries@))).countable(),
        r ==> final(counted)@ == old(counted)@.plus(totals_of(all_listed(databases.entries@))),
{
    let ghost before = counted@;
    let entries = &databases.entries;
    let mut i: usize = 0;
    assert(entries@.take(0).len() == 0);
    while i < entries.len()
        invariant
            i <= entries@.len(),
            entries@ == databases.entries@,
            before == old(counted)@,
            before.plausible(),
            counted@ == before.plus(totals_of(all_listed(entries@.take(i as int)))),
        decreases entries@.len() - i,
    {
        let db_tables = &entries[i].1;
        proof {
            let n = i as int;
            assert(entries@.take(n + 1).drop_last() =~= entries@.take(n));
            lemma_totals_bounds(all_listed(entries@.take(n)));
            lemma_plausible_plus(before, totals_of(all_listed(entries@.take(n))));
            lemma_totals_add(
                all_listed(entries@.take(n)),
                all_in_tables(db_tables.tables.entries@),
            );
            lemma_all_listed_prefix(entries@, n + 1);
        }
        if !count_tables(db_tables, counted) {
            return false;
        }
        i = i + 1;
    }
    assert(entries@.take(entries@.len() as int) =~= entries@);
    true
}

} // verus!
