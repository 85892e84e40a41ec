//! Which entries a file takes the place of, for whoever wants to be told.

use crate::filters::lemma_filter_push;
use crate::ids::{DbId, TableId};
use crate::inner::Inner;
use crate::model::{on_path, upsert_all, with_path, TableKey};
use crate::parquet::ParquetFile;
use crate::snapshot::{listed, listed_in_tables, DatabaseTables};
use vstd::prelude::*;

verus! {

/// An entry, and the file that took its place.
#[derive(Debug, PartialEq, Eq)]
pub struct Replacement {
    pub replaced: ParquetFile,
    pub by: ParquetFile,
}

/// Whether two files agree in all that the index knows of them.
pub open spec fn alike(f: ParquetFile, g: ParquetFile) -> bool {
    &&& f.id == g.id
    &&& f.path@ == g.path@
    &&& f.size_bytes == g.size_bytes
    &&& f.row_count == g.row_count
    &&& f.chunk_time == g.chunk_time
    &&& f.min_time == g.min_time
    &&& f.max_time == g.max_time
}

/// The test for an entry that is not like `f`.
pub open spec fn unlike(f: ParquetFile) -> spec_fn(ParquetFile) -> bool {
    |g: ParquetFile| !alike(g, f)
}

/// The entries that `f` takes the place of and that are not like it.
pub open spec fn replaced_by(s: Seq<ParquetFile>, f: ParquetFile) -> Seq<ParquetFile> {
    with_path(s, f.path@).filter(unlike(f))
}

/// The entries `s`, each with `f` in its place.
pub open spec fn all_replaced(s: Seq<ParquetFile>, f: ParquetFile) -> Seq<Replacement> {
    s.map_values(|g: ParquetFile| Replacement { replaced: g, by: f })
}

/// What is replaced when `files` are added to a table one after the other.
pub open spec fn replacements(s: Seq<ParquetFile>, files: Seq<ParquetFile>) -> Seq<Replacement>
    decreases files.len(),
{
    if files.len() == 0 {
        Seq::empty()
    } else {
        let before = files.drop_last();
        replacements(s, before) + all_replaced(
            replaced_by(upsert_all(s, before), files.last()),
            files.last(),
        )
    }
}

/// What is replaced when the files of the tables of database `db` are added, where `held` gives
/// what each table holds before.
pub open spec fn replacements_in_tables(
    held: spec_fn(TableKey) -> Seq<ParquetFile>,
    db: DbId,
    tables: Seq<(TableId, Vec<ParquetFile>)>,
) -> Seq<Replacement>
    decreases tables.len(),
{
    if tables.len() == 0 {
        Seq::empty()
    } else {
        let before = tables.drop_last();
        let (t, files) = tables.last();
        replacements_in_tables(held, db, before) + replacements(
            upsert_all(held((db, t)), listed_in_tables(before, t)),
            files@,
        )
    }
}

/// What each table holds once the files of `dbs` are added.
pub open spec fn held_after(
    held: spec_fn(TableKey) -> Seq<ParquetFile>,
    dbs: Seq<(DbId, DatabaseTables)>,
) -> spec_fn(TableKey) -> Seq<ParquetFile> {
    |k: TableKey| upsert_all(held(k), listed(dbs, k))
}

/// What is replaced when the files of all databases are added.
pub open spec fn replacements_in_databases(
    held: spec_fn(TableKey) -> Seq<ParquetFile>,
    dbs: Seq<(DbId, DatabaseTables)>,
) -> Seq<Replacement>
    decreases dbs.len(),
{
    if dbs.len() == 0 {
        Seq::empty()
    } else {
        let before = dbs.drop_last();
        replacements_in_databases(held, before) + replacements_in_tables(
            held_after(held, before),
            dbs.last().0,
            dbs.last().1.tables.entries@,
        )
    }
}

/// Whether two files agree in all that the index knows of them.
fn are_alike(f: &ParquetFile, g: &ParquetFile) -> (r: bool)
    ensures
        r == alike(*f, *g),
{
    f.id.0 == g.id.0 && f.path == g.path && f.size_bytes == g.size_bytes && f.row_count
        == g.row_count && f.chunk_time == g.chunk_time && f.min_time == g.min_time && f.max_time
        == g.max_time
}

impl Inner {
    /// What each table holds.
    pub open spec fn held(&self) -> spec_fn(TableKey) -> Seq<ParquetFile> {
        |k: TableKey| self.table(k)
    }

    /// The entries of a table that `parquet_file` would take the place of and that are not like it.
    pub fn replaced_entries(
        &self,
        db_id: &DbId,
        table_id: &TableId,
        parquet_file: &ParquetFile,
    ) -> (r: Vec<ParquetFile>)
        ensures
            r@ == with_path(self.table((*db_id, *table_id)), parquet_file.path@).filter(
                unlike(*parquet_file),
            ),
    {
        proof {
            reveal(Seq::filter);
        }
        match self.files.get(db_id.0) {
            Some(tables) => match tables.get(table_id.0) {
                Some(files) => unlike_on_path(files, parquet_file),
                None => Vec::new(),
            },
            None => Vec::new(),
        }
    }

    /// Append what `parquet_file` would replace to `log`.
    pub(crate) fn log_replaced(
        &self,
        db_id: &DbId,
        table_id: &TableId,
        parquet_file: &ParquetFile,
        log: &mut Vec<Replacement>,
    )
        ensures
            final(log)@ == old(log)@ + all_replaced(
                replaced_by(self.table((*db_id, *table_id)), *parquet_file),
                *parquet_file,
            ),
    {
        let entries = self.replaced_entries(db_id, table_id, parquet_file);
        let ghost before = log@;
        let ghost all = entries@;
        for entry in it: entries
            invariant
                it.seq() == all,
                log@ == before + all_replaced(all.take(it.index()), *parquet_file),
        {
            log.push(Replacement { replaced: entry, by: parquet_file.clone() });
            assert(log@ =~= before + all_replaced(all.take(it.index() + 1), *parquet_file));
        }
        assert(all.take(all.len() as int) =~= all);
    }
}

/// The entries of `files` for the path of `parquet_file` that are not like it.
fn unlike_on_path(files: &Vec<ParquetFile>, parquet_file: &ParquetFile) -> (r: Vec<ParquetFile>)
    ensures
        r@ == replaced_by(files@, *parquet_file),
{
    let mut r: Vec<ParquetFile> = Vec::new();
    let ghost path = parquet_file.path@;
    let mut i: usize = 0;
    proof {
        reveal(Seq::filter);
        assert(replaced_by(files@.take(0), *parquet_file) =~= r@);
    }
    while i < files.len()
        invariant
            i <= files@.len(),
            path == parquet_file.path@,
            r@ == replaced_by(files@.take(i as int), *parquet_file),
        decreases files@.len() - i,
    {
        let file = &files[i];
        proof {
            let n = i as int;
            assert(files@.take(n + 1) =~= files@.take(n).push(*file));
            lemma_filter_push(files@.take(n), *file, on_path(path));
            lemma_filter_push(with_path(files@.take(n), path), *file, unlike(*parquet_file));
        }
        if file.path == parquet_file.path && !are_alike(file, parquet_file) {
            r.push(file.clone());
        }
        i = i + 1;
    }
    assert(files@.take(files@.len() as int) =~= files@);
    r
}

} // verus!
