//! Snapshots: which files were persisted and which were removed since the snapshot before.

use crate::ids::{DbId, TableId};
use crate::model::{lemma_totals_add, lemma_totals_push, totals_of, TableKey, Totals};
use crate::parquet::ParquetFile;
use crate::vec_map::{lemma_replaced, VecMap};
use vstd::prelude::*;

verus! {

/// The files of each table of a database.
#[derive(Debug)]
pub struct DatabaseTables {
    pub tables: VecMap<TableId, Vec<ParquetFile>>,
}

/// The files of each table of each database.
pub type DatabaseFiles = VecMap<DbId, DatabaseTables>;

/// What the index needs of a persisted snapshot.
#[derive(Debug)]
pub struct PersistedSnapshot {
    /// The files that the snapshot adds
    pub databases: DatabaseFiles,
    /// The files that the snapshot removes
    pub removed_files: DatabaseFiles,
}

/// The files listed for table `t`, in the order of the list.
pub open spec fn listed_in_tables(
    tables: Seq<(TableId, Vec<ParquetFile>)>,
    t: TableId,
) -> Seq<ParquetFile>
    decreases tables.len(),
{
    if tables.len() == 0 {
        Seq::empty()
    } else {
        listed_in_tables(tables.drop_last(), t) + (if tables.last().0 == t {
            tables.last().1@
        } else {
            Seq::empty()
        })
    }
}

/// The files listed for table `k`, in the order of the list.
pub open spec fn listed(dbs: Seq<(DbId, DatabaseTables)>, k: TableKey) -> Seq<ParquetFile>
    decreases dbs.len(),
{
    if dbs.len() == 0 {
        Seq::empty()
    } else {
        listed(dbs.drop_last(), k) + (if dbs.last().0 == k.0 {
            listed_in_tables(dbs.last().1.tables.entries@, k.1)
        } else {
            Seq::empty()
        })
    }
}

/// All the files listed for any table.
pub open spec fn all_in_tables(tables: Seq<(TableId, Vec<ParquetFile>)>) -> Seq<ParquetFile>
    decreases tables.len(),
{
    if tables.len() == 0 {
        Seq::empty()
    } else {
        all_in_tables(tables.drop_last()) + tables.last().1@
    }
}

/// All the files listed for any table of any database.
pub open spec fn all_listed(dbs: Seq<(DbId, DatabaseTables)>) -> Seq<ParquetFile>
    decreases dbs.len(),
{
    if dbs.len() == 0 {
        Seq::empty()
    } else {
        all_listed(dbs.drop_last()) + all_in_tables(dbs.last().1.tables.entries@)
    }
}

/// Neither a database nor a table of a database has two entries.
pub open spec fn files_wf(dbs: DatabaseFiles) -> bool {
    &&& dbs.wf()
    &&& forall|i: int| 0 <= i < dbs.entries@.len() ==> (#[trigger] dbs.entries@[i]).1.tables.wf()
}

/// Whether table `k` is listed, with files or without.
pub open spec fn lists_table(dbs: Seq<(DbId, DatabaseTables)>, k: TableKey) -> bool {
    exists|i: int, j: int|
        0 <= i < dbs.len() && 0 <= j < (#[trigger] dbs[i]).1.tables.entries@.len() && dbs[i].0
            == k.0 && (#[trigger] dbs[i].1.tables.entries@[j]).0 == k.1
}

/// A table that is not listed has no files listed.
pub proof fn lemma_not_listed(dbs: Seq<(DbId, DatabaseTables)>, k: TableKey)
    requires
        !lists_table(dbs, k),
    ensures
        listed(dbs, k) == Seq::<ParquetFile>::empty(),
    decreases dbs.len(),
{
    if dbs.len() > 0 {
        let rest = dbs.drop_last();
        let last = dbs[dbs.len() - 1];
        assert(!lists_table(rest, k)) by {
            if lists_table(rest, k) {
                let (i, j) = choose|i: int, j: int|
                    0 <= i < rest.len() && 0 <= j < (
                    #[trigger] rest[i]).1.tables.entries@.len() && rest[i].0 == k.0 && (
                    #[trigger] rest[i].1.tables.entries@[j]).0 == k.1;
                assert(dbs[i].1.tables.entries@[j].0 == k.1);
            }
        }
        lemma_not_listed(rest, k);
        if last.0 == k.0 {
            let entries = last.1.tables.entries@;
            assert forall|j: int| 0 <= j < entries.len() implies (#[trigger] entries[j]).0
                != k.1 by {
                if entries[j].0 == k.1 {
                    assert(dbs[dbs.len() - 1].1.tables.entries@[j].0 == k.1);
                }
            }
            lemma_not_in_tables(entries, k.1);
        }
    }
}

proof fn lemma_not_in_tables(tables: Seq<(TableId, Vec<ParquetFile>)>, t: TableId)
    requires
        forall|i: int| 0 <= i < tables.len() ==> (#[trigger] tables[i]).0 != t,
    ensures
        listed_in_tables(tables, t) == Seq::<ParquetFile>::empty(),
    decreases tables.len(),
{
    if tables.len() > 0 {
        let rest = tables.drop_last();
        assert forall|i: int| 0 <= i < rest.len() implies (#[trigger] rest[i]).0 != t by {
            assert(tables[i].0 != t);
        }
        lemma_not_in_tables(rest, t);
        assert(tables[tables.len() - 1].0 != t);
    }
}

/// No table is listed without files.
pub open spec fn only_with_files(tables: Seq<(TableId, Vec<ParquetFile>)>) -> bool {
    forall|i: int| 0 <= i < tables.len() ==> (#[trigger] tables[i]).1@.len() > 0
}

/// No database is listed without tables, and no table without files.
pub open spec fn only_with_tables(dbs: Seq<(DbId, DatabaseTables)>) -> bool {
    forall|i: int|
        0 <= i < dbs.len() ==> {
            &&& (#[trigger] dbs[i]).1.tables.entries@.len() > 0
            &&& only_with_files(dbs[i].1.tables.entries@)
        }
}

impl DatabaseTables {
    /// No tables.
    pub fn new() -> (r: DatabaseTables)
        ensures
            r.tables.wf(),
            r.tables@ == Map::<TableId, Vec<ParquetFile>>::empty(),
            r.tables.entries@ == Seq::<(TableId, Vec<ParquetFile>)>::empty(),
    {
        DatabaseTables { tables: VecMap::new() }
    }

    /// Add `file` to the files of table `table_id`.
    fn push_file(&mut self, table_id: TableId, file: ParquetFile)
        requires
            old(self).tables.wf(),
        ensures
            final(self).tables.wf(),
            final(self).tables.entries@.len() > 0,
            only_with_files(old(self).tables.entries@) ==> only_with_files(
                final(self).tables.entries@,
            ),
            totals_of(all_in_tables(final(self).tables.entries@)) == totals_of(
                all_in_tables(old(self).tables.entries@),
            ).plus(Totals::of_file(file)),
            forall|t: TableId| #[trigger]
                listed_in_tables(final(self).tables.entries@, t) == (if t == table_id {
                    listed_in_tables(old(self).tables.entries@, t).push(file)
                } else {
                    listed_in_tables(old(self).tables.entries@, t)
                }),
    {
        let ghost before = self.tables;
        match self.tables.position(&table_id) {
            Some(i) => {
                self.tables.entries[i].1.push(file);
                proof {
                    let old_files = before.entries@[i as int].1@;
                    lemma_tables_totals_update(
                        before.entries@,
                        i as int,
                        self.tables.entries@[i as int],
                    );
                    lemma_totals_push(old_files, file);
                    lemma_replaced(before, self.tables, i as int, self.tables.entries@[i as int].1);
                }
            },
            None => {
                let mut files: Vec<ParquetFile> = Vec::new();
                files.push(file);
                proof {
                    lemma_tables_totals_push(before.entries@, (table_id, files));
                    lemma_totals_push(Seq::empty(), file);
                    assert(files@ =~= Seq::<ParquetFile>::empty().push(file));
                }
                self.tables.insert(table_id, files);
            },
        }
        proof {
            assert forall|t: TableId| #[trigger]
                listed_in_tables(self.tables.entries@, t) == (if t == table_id {
                    listed_in_tables(before.entries@, t).push(file)
                } else {
                    listed_in_tables(before.entries@, t)
                }) by {
                lemma_listed_in_tables(before, t);
                lemma_listed_in_tables(self.tables, t);
            }
        }
    }
}

/// Add `file` to the files of a table.
pub fn push_file(dbs: &mut DatabaseFiles, db_id: DbId, table_id: TableId, file: ParquetFile)
    requires
        files_wf(*old(dbs)),
    ensures
        files_wf(*final(dbs)),
        final(dbs).entries@.len() > 0,
        only_with_tables(old(dbs).entries@) ==> only_with_tables(final(dbs).entries@),
        totals_of(all_listed(final(dbs).entries@)) == totals_of(all_listed(old(dbs).entries@)).plus(
            Totals::of_file(file),
        ),
        forall|k: TableKey| #[trigger]
            listed(final(dbs).entries@, k) == (if k == (db_id, table_id) {
                listed(old(dbs).entries@, k).push(file)
            } else {
                listed(old(dbs).entries@, k)
            }),
{
    let ghost before = *dbs;
    match dbs.position(&db_id) {
        Some(i) => {
            dbs.entries[i].1.push_file(table_id, file);
            proof {
                lemma_totals_update(before.entries@, i as int, dbs.entries@[i as int]);
                lemma_replaced(before, *dbs, i as int, dbs.entries@[i as int].1);
            }
        },
        None => {
            let mut tables = DatabaseTables::new();
            tables.push_file(table_id, file);
            proof {
                lemma_databases_totals_push(before.entries@, (db_id, tables));
            }
            dbs.insert(db_id, tables);
        },
    }
    proof {
        assert forall|k: TableKey| #[trigger]
            listed(dbs.entries@, k) == (if k == (db_id, table_id) {
                listed(before.entries@, k).push(file)
            } else {
                listed(before.entries@, k)
            }) by {
            lemma_listed(before, k);
            lemma_listed(*dbs, k);
        }
    }
}

impl PersistedSnapshot {
    /// A snapshot that neither adds nor removes files.
    pub fn new() -> (r: PersistedSnapshot)
        ensures
            files_wf(r.databases),
            files_wf(r.removed_files),
            r.databases.entries@.len() == 0,
            r.removed_files.entries@.len() == 0,
    {
        PersistedSnapshot { databases: VecMap::new(), removed_files: VecMap::new() }
    }

    /// Let the snapshot add `file` to a table.
    pub fn add_parquet_file(&mut self, db_id: DbId, table_id: TableId, file: ParquetFile)
        requires
            files_wf(old(self).databases),
        ensures
            files_wf(final(self).databases),
            final(self).removed_files == old(self).removed_files,
            totals_of(all_listed(final(self).databases.entries@)) == totals_of(
                all_listed(old(self).databases.entries@),
            ).plus(Totals::of_file(file)),
            forall|k: TableKey| #[trigger]
                listed(final(self).databases.entries@, k) == (if k == (db_id, table_id) {
                    listed(old(self).databases.entries@, k).push(file)
                } else {
                    listed(old(self).databases.entries@, k)
                }),
    {
        push_file(&mut self.databases, db_id, table_id, file);
    }
}

// -- The totals of what is listed

proof fn lemma_tables_totals_push(
    tables: Seq<(TableId, Vec<ParquetFile>)>,
    more: (TableId, Vec<ParquetFile>),
)
    ensures
        totals_of(all_in_tables(tables.push(more))) == totals_of(all_in_tables(tables)).plus(
            totals_of(more.1@),
        ),
{
    assert(tables.push(more).drop_last() =~= tables);
    lemma_totals_add(all_in_tables(tables), more.1@);
}

proof fn lemma_tables_totals_update(
    tables: Seq<(TableId, Vec<ParquetFile>)>,
    i: int,
    entry: (TableId, Vec<ParquetFile>),
)
    requires
        0 <= i < tables.len(),
    ensures
        totals_of(all_in_tables(tables.update(i, entry))) == totals_of(all_in_tables(tables)).minus(
            totals_of(tables[i].1@),
        ).plus(totals_of(entry.1@)),
    decreases tables.len(),
{
    let rest = tables.drop_last();
    assert(tables =~= rest.push(tables.last()));
    lemma_tables_totals_push(rest, tables.last());
    if i == tables.len() - 1 {
        assert(tables.update(i, entry) =~= rest.push(entry));
        lemma_tables_totals_push(rest, entry);
    } else {
        assert(tables.update(i, entry) =~= rest.update(i, entry).push(tables.last()));
        lemma_tables_totals_update(rest, i, entry);
        lemma_tables_totals_push(rest.update(i, entry), tables.last());
    }
}

proof fn lemma_databases_totals_push(
    dbs: Seq<(DbId, DatabaseTables)>,
    more: (DbId, DatabaseTables),
)
    ensures
        totals_of(all_listed(dbs.push(more))) == totals_of(all_listed(dbs)).plus(
            totals_of(all_in_tables(more.1.tables.entries@)),
        ),
{
    assert(dbs.push(more).drop_last() =~= dbs);
    lemma_totals_add(all_listed(dbs), all_in_tables(more.1.tables.entries@));
}

proof fn lemma_totals_update(
    dbs: Seq<(DbId, DatabaseTables)>,
    i: int,
    entry: (DbId, DatabaseTables),
)
    requires
        0 <= i < dbs.len(),
    ensures
        totals_of(all_listed(dbs.update(i, entry))) == totals_of(all_listed(dbs)).minus(
            totals_of(all_in_tables(dbs[i].1.tables.entries@)),
        ).plus(totals_of(all_in_tables(entry.1.tables.entries@))),
    decreases dbs.len(),
{
    let rest = dbs.drop_last();
    assert(dbs =~= rest.push(dbs.last()));
    lemma_databases_totals_push(rest, dbs.last());
    if i == dbs.len() - 1 {
        assert(dbs.update(i, entry) =~= rest.push(entry));
        lemma_databases_totals_push(rest, entry);
    } else {
        assert(dbs.update(i, entry) =~= rest.update(i, entry).push(dbs.last()));
        lemma_totals_update(rest, i, entry);
        lemma_databases_totals_push(rest.update(i, entry), dbs.last());
    }
}

// -- The tables for which files are listed

/// A list that names no files for any table names none at all.
pub proof fn lemma_nothing_listed(dbs: Seq<(DbId, DatabaseTables)>)
    requires
        forall|k: TableKey| (#[trigger] listed(dbs, k)).len() == 0,
    ensures
        all_listed(dbs) == Seq::<ParquetFile>::empty(),
    decreases dbs.len(),
{
    if dbs.len() > 0 {
        let rest = dbs.drop_last();
        let (db, last) = dbs.last();
        assert forall|k: TableKey| (#[trigger] listed(rest, k)).len() == 0 by {
            assert(listed(dbs, k).len() == 0);
        }
        lemma_nothing_listed(rest);
        assert forall|t: TableId|
            (#[trigger] listed_in_tables(last.tables.entries@, t)).len() == 0 by {
            assert(listed(dbs, (db, t)).len() == 0);
        }
        lemma_nothing_in_tables(last.tables.entries@);
    }
}

proof fn lemma_nothing_in_tables(tables: Seq<(TableId, Vec<ParquetFile>)>)
    requires
        forall|t: TableId| (#[trigger] listed_in_tables(tables, t)).len() == 0,
    ensures
        all_in_tables(tables) == Seq::<ParquetFile>::empty(),
    decreases tables.len(),
{
    if tables.len() > 0 {
        let rest = tables.drop_last();
        assert forall|t: TableId| (#[trigger] listed_in_tables(rest, t)).len() == 0 by {
            assert(listed_in_tables(tables, t).len() == 0);
        }
        lemma_nothing_in_tables(rest);
        assert(listed_in_tables(tables, tables.last().0).len() == 0);
        assert(tables.last().1@ =~= Seq::<ParquetFile>::empty());
    }
}

/// The tables of database `db` that are listed.
pub open spec fn keys_in_tables(db: DbId, tables: Seq<(TableId, Vec<ParquetFile>)>) -> Set<TableKey>
    decreases tables.len(),
{
    if tables.len() == 0 {
        Set::empty()
    } else {
        keys_in_tables(db, tables.drop_last()).insert((db, tables.last().0))
    }
}

/// The tables of all databases that are listed.
pub open spec fn keys_listed(dbs: Seq<(DbId, DatabaseTables)>) -> Set<TableKey>
    decreases dbs.len(),
{
    if dbs.len() == 0 {
        Set::empty()
    } else {
        keys_listed(dbs.drop_last()).union(
            keys_in_tables(dbs.last().0, dbs.last().1.tables.entries@),
        )
    }
}

/// Finitely many tables are listed, and only these have files listed.
pub proof fn lemma_keys_listed(dbs: Seq<(DbId, DatabaseTables)>)
    ensures
        keys_listed(dbs).finite(),
        forall|k: TableKey|
            (#[trigger] listed(dbs, k)).len() > 0 ==> keys_listed(dbs).contains(k),
    decreases dbs.len(),
{
    if dbs.len() > 0 {
        let rest = dbs.drop_last();
        let (db, last) = dbs.last();
        lemma_keys_listed(rest);
        lemma_keys_in_tables(db, last.tables.entries@);
        assert forall|k: TableKey| (#[trigger] listed(dbs, k)).len() > 0 implies keys_listed(
            dbs,
        ).contains(k) by {
            if listed(rest, k).len() == 0 {
                assert(listed_in_tables(last.tables.entries@, k.1).len() > 0);
                assert(k == (db, k.1));
            }
        }
    }
}

proof fn lemma_keys_in_tables(db: DbId, tables: Seq<(TableId, Vec<ParquetFile>)>)
    ensures
        keys_in_tables(db, tables).finite(),
        forall|t: TableId|
            (#[trigger] listed_in_tables(tables, t)).len() > 0 ==> keys_in_tables(
                db,
                tables,
            ).contains((db, t)),
    decreases tables.len(),
{
    if tables.len() > 0 {
        let rest = tables.drop_last();
        lemma_keys_in_tables(db, rest);
        assert forall|t: TableId|
            (#[trigger] listed_in_tables(tables, t)).len() > 0 implies keys_in_tables(
            db,
            tables,
        ).contains((db, t)) by {
            if t != tables.last().0 {
                assert(listed_in_tables(rest, t).len() > 0);
            }
        }
    }
}

/// The files listed for a table are those that the map holds for it.
pub proof fn lemma_listed_in_tables(tables: VecMap<TableId, Vec<ParquetFile>>, t: TableId)
    requires
        tables.wf(),
    ensures
        listed_in_tables(tables.entries@, t) == (if tables@.contains_key(t) {
            tables@[t]@
        } else {
            Seq::empty()
        }),
{
    lemma_listed_in_entries(tables.entries@, t);
    if tables@.contains_key(t) {
        let i = choose|i: int| tables.entry_for(i, t);
        assert(tables.entry_for(i, t));
        tables.lemma_entry(i);
    } else {
        assert forall|i: int| 0 <= i < tables.entries@.len() implies (
        #[trigger] tables.entries@[i]).0 != t by {
            if tables.entries@[i].0 == t {
                assert(tables.entry_for(i, t));
            }
        }
    }
}

proof fn lemma_listed_in_entries(entries: Seq<(TableId, Vec<ParquetFile>)>, t: TableId)
    requires
        forall|i: int, j: int|
            0 <= i < j < entries.len() ==> (#[trigger] entries[i]).0 != (#[trigger] entries[j]).0,
    ensures
        forall|i: int|
            0 <= i < entries.len() && (#[trigger] entries[i]).0 == t ==> listed_in_tables(
                entries,
                t,
            ) == entries[i].1@,
        (forall|i: int| 0 <= i < entries.len() ==> (#[trigger] entries[i]).0 != t)
            ==> listed_in_tables(entries, t) == Seq::<ParquetFile>::empty(),
    decreases entries.len(),
{
    if entries.len() > 0 {
        let rest = entries.drop_last();
        lemma_listed_in_entries(rest, t);
        assert(entries[entries.len() - 1] == entries.last());
        if entries.last().0 == t {
            assert forall|i: int| 0 <= i < rest.len() implies (#[trigger] rest[i]).0 != t by {
                assert(entries[i].0 != entries[entries.len() - 1].0);
            }
            assert(listed_in_tables(entries, t) =~= entries.last().1@);
        } else {
            assert(listed_in_tables(entries, t) =~= listed_in_tables(rest, t));
            assert forall|i: int|
                0 <= i < entries.len() && (#[trigger] entries[i]).0 == t implies listed_in_tables(
                entries,
                t,
            ) == entries[i].1@ by {
                assert(rest[i] == entries[i]);
            }
            assert forall|i: int| 0 <= i < rest.len() implies rest[i] == #[trigger] entries[i] by {}
        }
    }
}

/// The files listed for a table are those that the maps hold for it.
pub proof fn lemma_listed(dbs: DatabaseFiles, k: TableKey)
    requires
        files_wf(dbs),
    ensures
        listed(dbs.entries@, k) == (if dbs@.contains_key(k.0) {
            listed_in_tables(dbs@[k.0].tables.entries@, k.1)
        } else {
            Seq::empty()
        }),
        listed(dbs.entries@, k) == (if dbs@.contains_key(k.0) && dbs@[k.0].tables@.contains_key(
            k.1,
        ) {
            dbs@[k.0].tables@[k.1]@
        } else {
            Seq::empty()
        }),
{
    lemma_listed_entries(dbs.entries@, k);
    if dbs@.contains_key(k.0) {
        let i = choose|i: int| dbs.entry_for(i, k.0);
        assert(dbs.entry_for(i, k.0));
        dbs.lemma_entry(i);
        lemma_listed_in_tables(dbs.entries@[i].1.tables, k.1);
    } else {
        assert forall|i: int| 0 <= i < dbs.entries@.len() implies (#[trigger] dbs.entries@[i]).0
            != k.0 by {
            if dbs.entries@[i].0 == k.0 {
                assert(dbs.entry_for(i, k.0));
            }
        }
    }
}

proof fn lemma_listed_entries(entries: Seq<(DbId, DatabaseTables)>, k: TableKey)
    requires
        forall|i: int, j: int|
            0 <= i < j < entries.len() ==> (#[trigger] entries[i]).0 != (#[trigger] entries[j]).0,
    ensures
        forall|i: int|
            0 <= i < entries.len() && (#[trigger] entries[i]).0 == k.0 ==> listed(entries, k)
                == listed_in_tables(entries[i].1.tables.entries@, k.1),
        (forall|i: int| 0 <= i < entries.len() ==> (#[trigger] entries[i]).0 != k.0) ==> listed(
            entries,
            k,
        ) == Seq::<ParquetFile>::empty(),
    decreases entries.len(),
{
    if entries.len() > 0 {
        let rest = entries.drop_last();
        lemma_listed_entries(rest, k);
        assert(entries[entries.len() - 1] == entries.last());
        if entries.last().0 == k.0 {
            assert forall|i: int| 0 <= i < rest.len() implies (#[trigger] rest[i]).0 != k.0 by {
                assert(entries[i].0 != entries[entries.len() - 1].0);
            }
            assert(listed(entries, k) =~= listed_in_tables(
                entries.last().1.tables.entries@,
                k.1,
            ));
        } else {
            assert(listed(entries, k) =~= listed(rest, k));
            assert forall|i: int|
                0 <= i < entries.len() && (#[trigger] entries[i]).0 == k.0 implies listed(
                entries,
                k,
            ) == listed_in_tables(entries[i].1.tables.entries@, k.1) by {
                assert(rest[i] == entries[i]);
            }
            assert forall|i: int| 0 <= i < rest.len() implies rest[i] == #[trigger] entries[i] by {}
        }
    }
}

} // verus!
