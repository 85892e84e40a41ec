//! Bringing the index up to date with one more snapshot.

use crate::ids::{DbId, TableId};
use crate::inner::Inner;
use crate::laws::{law_snapshot_keeps_paths_unique, law_snapshot_leaves_other_tables_alone};
use crate::model::{
    ids_of, index_totals, lemma_ids_of_add, lemma_index_totals_bounds, lemma_index_totals_insert,
    lemma_plausible_fit, lemma_plausible_plus, lemma_table_totals_le, lemma_totals_add,
    lemma_totals_bounds, lemma_totals_push, lemma_totals_split_path, lemma_upsert_all_add,
    lemma_without_ids_union, lemma_without_no_ids, paths_unique, totals_of, upsert, upsert_all,
    without_ids, without_path, TableKey,
};
use crate::parquet::ParquetFile;
use crate::removed::Removed;
use crate::replaced::{
    held_after, replacements, replacements_in_databases, replacements_in_tables, Replacement,
};
use crate::snapshot::{
    all_in_tables, all_listed, listed, listed_in_tables, lists_table, DatabaseFiles, DatabaseTables,
    PersistedSnapshot,
};
use vstd::prelude::*;

verus! {

/// A table's files once a snapshot is applied to it: its files are added one after the other,
/// then the entries with the id of a file that it removes are dropped.
pub open spec fn apply_snapshot(
    s: Seq<ParquetFile>,
    snapshot: PersistedSnapshot,
    k: TableKey,
) -> Seq<ParquetFile> {
    without_ids(
        upsert_all(s, listed(snapshot.databases.entries@, k)),
        ids_of(listed(snapshot.removed_files.entries@, k)),
    )
}

impl Inner {
    /// Add all files from a persisted snapshot and apply its removals.
    ///
    /// Files are added with [`Self::add_persisted_file`] semantics (a file whose path is already
    /// indexed replaces the existing entry), and removals match by id.
    pub fn add_persisted_snapshot(&mut self, persisted_snapshot: PersistedSnapshot)
        requires
            old(self).wf(),
            old(self).metrics().plus(
                totals_of(all_listed(persisted_snapshot.databases.entries@)),
            ).countable(),
        ensures
            final(self).wf(),
            forall|k: TableKey| #[trigger]
                final(self).table(k) == apply_snapshot(old(self).table(k), persisted_snapshot, k),
            forall|k: TableKey|
                !lists_table(persisted_snapshot.databases.entries@, k) && !lists_table(
                    persisted_snapshot.removed_files.entries@,
                    k,
                ) ==> #[trigger] final(self).table(k) == old(self).table(k),
            old(self).one_entry_per_path() ==> final(self).one_entry_per_path(),
            final(self).deleted_data == old(self).deleted_data,
    {
        let _ = self.add_persisted_snapshot_reporting(persisted_snapshot);
    }

    /// [`Self::add_persisted_snapshot`], with the entries that were replaced by a file that is not
    /// like them.
    pub fn add_persisted_snapshot_reporting(
        &mut self,
        persisted_snapshot: PersistedSnapshot,
    ) -> (r: Vec<Replacement>)
        requires
            old(self).wf(),
            old(self).metrics().plus(
                totals_of(all_listed(persisted_snapshot.databases.entries@)),
            ).countable(),
        ensures
            final(self).wf(),
            forall|k: TableKey| #[trigger]
                final(self).table(k) == apply_snapshot(old(self).table(k), persisted_snapshot, k),
            forall|k: TableKey|
                !lists_table(persisted_snapshot.databases.entries@, k) && !lists_table(
                    persisted_snapshot.removed_files.entries@,
                    k,
                ) ==> #[trigger] final(self).table(k) == old(self).table(k),
            old(self).one_entry_per_path() ==> final(self).one_entry_per_path(),
            final(self).deleted_data == old(self).deleted_data,
            r@ == replacements_in_databases(
                old(self).held(),
                persisted_snapshot.databases.entries@,
            ),
    {
        let ghost before = *self;
        let mut added = Removed::new();
        let mut replaced = Removed::new();
        let mut log: Vec<Replacement> = Vec::new();
        proof {
            let all = all_listed(persisted_snapshot.databases.entries@);
            lemma_index_totals_bounds(self.index());
            lemma_totals_bounds(all);
            lemma_plausible_plus(index_totals(self.index()), totals_of(all));
            lemma_plausible_fit(self.metrics().plus(totals_of(all)));
        }
        self.add_databases(&persisted_snapshot.databases, &mut added, &mut replaced, &mut log);
        let ghost grown = *self;
        proof {
            lemma_index_totals_bounds(self.index());
        }
        self.parquet_files_count = self.parquet_files_count + added.count;
        self.parquet_files_row_count = self.parquet_files_row_count + added.rows;
        self.parquet_files_size_bytes.add(added.size_bytes);
        self.subtract(&replaced);
        self.remove_databases(&persisted_snapshot.removed_files);
        assert forall|k: TableKey| #[trigger]
            self.table(k) == apply_snapshot(before.table(k), persisted_snapshot, k) by {
            assert(grown.table(k) == upsert_all(
                before.table(k),
                listed(persisted_snapshot.databases.entries@, k),
            ));
        }
        proof {
            assert forall|k: TableKey|
                !lists_table(persisted_snapshot.databases.entries@, k) && !lists_table(
                    persisted_snapshot.removed_files.entries@,
                    k,
                ) implies #[trigger] self.table(k) == before.table(k) by {
                law_snapshot_leaves_other_tables_alone(before.table(k), persisted_snapshot, k);
            }
            if before.one_entry_per_path() {
                assert forall|k: TableKey| paths_unique(#[trigger] self.table(k)) by {
                    assert(paths_unique(before.table(k)));
                    law_snapshot_keeps_paths_unique(before.table(k), persisted_snapshot, k);
                }
            }
        }
        log
    }

    /// Add `files` to one table. What was there for their paths is accumulated into `replaced`,
    /// and they are into `added`; metrics are left to the caller. What was there and is not like
    /// the file that takes its place goes into `log`.
    fn add_files(
        &mut self,
        db_id: &DbId,
        table_id: &TableId,
        files: &Vec<ParquetFile>,
        added: &mut Removed,
        replaced: &mut Removed,
        log: &mut Vec<Replacement>,
    )
        requires
            old(self).index().dom().finite(),
            index_totals(old(self).index()).plus(old(replaced)@).plus(totals_of(files@)).fit(),
            old(added)@.plus(totals_of(files@)).fit(),
        ensures
            final(self).index().dom().finite(),
            forall|k: TableKey| #[trigger]
                final(self).table(k) == upsert_all(
                    old(self).table(k),
                    if k == (*db_id, *table_id) {
                        files@
                    } else {
                        Seq::empty()
                    },
                ),
            index_totals(final(self).index()).plus(final(replaced)@) == index_totals(
                old(self).index(),
            ).plus(old(replaced)@).plus(totals_of(files@)),
            final(added)@ == old(added)@.plus(totals_of(files@)),
            final(log)@ == old(log)@ + replacements(
                old(self).table((*db_id, *table_id)),
                files@,
            ),
            final(self).metrics() == old(self).metrics(),
            final(self).deleted_data == old(self).deleted_data,
    {
        let ghost k = (*db_id, *table_id);
        let ghost before = *self;
        let ghost was_replaced = replaced@;
        let ghost was_added = added@;
        let ghost was_logged = log@;
        let mut i: usize = 0;
        assert(files@.take(0) =~= Seq::<ParquetFile>::empty());
        while i < files.len()
            invariant
                i <= files@.len(),
                k == (*db_id, *table_id),
                self.index().dom().finite(),
                index_totals(before.index()).plus(was_replaced).plus(totals_of(files@)).fit(),
                was_added.plus(totals_of(files@)).fit(),
                forall|j: TableKey| j != k ==> #[trigger] self.table(j) == before.table(j),
                self.table(k) == upsert_all(before.table(k), files@.take(i as int)),
                index_totals(self.index()).plus(replaced@) == index_totals(before.index()).plus(
                    was_replaced,
                ).plus(totals_of(files@.take(i as int))),
                added@ == was_added.plus(totals_of(files@.take(i as int))),
                log@ == was_logged + replacements(before.table(k), files@.take(i as int)),
                self.metrics() == before.metrics(),
                self.deleted_data == before.deleted_data,
            decreases files@.len() - i,
        {
            let file = &files[i];
            let ghost table = self.table(k);
            let ghost index = self.index();
            proof {
                let n = i as int;
                assert(files@.take(n + 1) =~= files@.take(n).push(*file));
                assert(files@.take(n + 1).drop_last() =~= files@.take(n));
                lemma_totals_push(files@.take(n), *file);
                lemma_totals_prefix(files@, n);
                lemma_totals_prefix(files@, n + 1);
                lemma_table_totals_le(index, k);
                lemma_totals_split_path(table, file.path@);
                lemma_totals_bounds(without_path(table, file.path@));
                lemma_totals_push(without_path(table, file.path@), *file);
                lemma_index_totals_insert(index, k, upsert(table, *file));
            }
            let ghost now = *self;
            self.log_replaced(db_id, table_id, file, log);
            self.upsert_file(db_id, table_id, file, replaced);
            assert(log@ =~= was_logged + replacements(before.table(k), files@.take(i + 1)));
            assert forall|j: TableKey| j != k implies #[trigger] self.table(j) == before.table(j) by {
                assert(now.table(j) == before.table(j));
            }
            added.add(file);
            i = i + 1;
        }
        assert(files@.take(files@.len() as int) =~= files@);
    }

    /// Add the files of the tables of one database, as [`Self::add_files`] does for one table.
    fn add_tables(
        &mut self,
        db_id: &DbId,
        db_tables: &DatabaseTables,
        added: &mut Removed,
        replaced: &mut Removed,
        log: &mut Vec<Replacement>,
    )
        requires
            old(self).index().dom().finite(),
            index_totals(old(self).index()).plus(old(replaced)@).plus(
                totals_of(all_in_tables(db_tables.tables.entries@)),
            ).fit(),
            old(added)@.plus(totals_of(all_in_tables(db_tables.tables.entries@))).fit(),
        ensures
            final(self).index().dom().finite(),
            forall|k: TableKey| #[trigger]
                final(self).table(k) == upsert_all(
                    old(self).table(k),
                    if k.0 == *db_id {
                        listed_in_tables(db_tables.tables.entries@, k.1)
                    } else {
                        Seq::empty()
                    },
                ),
            index_totals(final(self).index()).plus(final(replaced)@) == index_totals(
                old(self).index(),
            ).plus(old(replaced)@).plus(totals_of(all_in_tables(db_tables.tables.entries@))),
            final(added)@ == old(added)@.plus(
                totals_of(all_in_tables(db_tables.tables.entries@)),
            ),
            final(log)@ == old(log)@ + replacements_in_tables(
                old(self).held(),
                *db_id,
                db_tables.tables.entries@,
            ),
            final(self).metrics() == old(self).metrics(),
            final(self).deleted_data == old(self).deleted_data,
    {
        let ghost before = *self;
        let ghost was_replaced = replaced@;
        let ghost was_added = added@;
        let ghost was_logged = log@;
        let entries = &db_tables.tables.entries;
        let mut i: usize = 0;
        assert(entries@.take(0).len() == 0);
        while i < entries.len()
            invariant
                i <= entries@.len(),
                self.index().dom().finite(),
                index_totals(before.index()).plus(was_replaced).plus(
                    totals_of(all_in_tables(entries@)),
                ).fit(),
                was_added.plus(totals_of(all_in_tables(entries@))).fit(),
                forall|k: TableKey| #[trigger]
                    self.table(k) == upsert_all(
                        before.table(k),
                        if k.0 == *db_id {
                            listed_in_tables(entries@.take(i as int), k.1)
                        } else {
                            Seq::empty()
                        },
                    ),
                index_totals(self.index()).plus(replaced@) == index_totals(before.index()).plus(
                    was_replaced,
                ).plus(totals_of(all_in_tables(entries@.take(i as int)))),
                added@ == was_added.plus(totals_of(all_in_tables(entries@.take(i as int)))),
                log@ == was_logged + replacements_in_tables(
                    before.held(),
                    *db_id,
                    entries@.take(i as int),
                ),
                self.metrics() == before.metrics(),
                self.deleted_data == before.deleted_data,
            decreases entries@.len() - i,
        {
            let entry = &entries[i];
            let ghost now = *self;
            proof {
                let n = i as int;
                assert(entries@.take(n + 1).drop_last() =~= entries@.take(n));
                lemma_totals_add(all_in_tables(entries@.take(n)), entry.1@);
                lemma_all_in_tables_prefix(entries@, n + 1);
            }
            assert(now.table((*db_id, entry.0)) == upsert_all(
                before.table((*db_id, entry.0)),
                listed_in_tables(entries@.take(i as int), entry.0),
            ));
            self.add_files(db_id, &entry.0, &entry.1, added, replaced, log);
            assert(log@ =~= was_logged + replacements_in_tables(
                before.held(),
                *db_id,
                entries@.take(i + 1),
            ));
            proof {
                let n = i as int;
                assert forall|k: TableKey| #[trigger]
                    self.table(k) == upsert_all(
                        before.table(k),
                        if k.0 == *db_id {
                            listed_in_tables(entries@.take(n + 1), k.1)
                        } else {
                            Seq::empty()
                        },
                    ) by {
                    let so_far: Seq<ParquetFile> = if k.0 == *db_id {
                        listed_in_tables(entries@.take(n), k.1)
                    } else {
                        Seq::empty()
                    };
                    let more: Seq<ParquetFile> = if k == (*db_id, entry.0) {
                        entry.1@
                    } else {
                        Seq::empty()
                    };
                    assert(now.table(k) == upsert_all(before.table(k), so_far));
                    lemma_upsert_all_add(before.table(k), so_far, more);
                    assert(k.0 != *db_id ==> so_far + more =~= Seq::<ParquetFile>::empty());
                }
            }
            i = i + 1;
        }
        assert(entries@.take(entries@.len() as int) =~= entries@);
    }

    /// Add the files of all databases, as [`Self::add_files`] does for one table.
    fn add_databases(
        &mut self,
        databases: &DatabaseFiles,
        added: &mut Removed,
        replaced: &mut Removed,
        log: &mut Vec<Replacement>,
    )
        requires
            old(self).index().dom().finite(),
            index_totals(old(self).index()).plus(old(replaced)@).plus(
                totals_of(all_listed(databases.entries@)),
            ).fit(),
            old(added)@.plus(totals_of(all_listed(databases.entries@))).fit(),
        ensures
            final(self).index().dom().finite(),
            forall|k: TableKey| #[trigger]
                final(self).table(k) == upsert_all(
                    old(self).table(k),
                    listed(databases.entries@, k),
                ),
            index_totals(final(self).index()).plus(final(replaced)@) == index_totals(
                old(self).index(),
            ).plus(old(replaced)@).plus(totals_of(all_listed(databases.entries@))),
            final(added)@ == old(added)@.plus(totals_of(all_listed(databases.entries@))),
            final(log)@ == old(log)@ + replacements_in_databases(
                old(self).held(),
                databases.entries@,
            ),
            final(self).metrics() == old(self).metrics(),
            final(self).deleted_data == old(self).deleted_data,
    {
        let ghost before = *self;
        let ghost was_replaced = replaced@;
        let ghost was_added = added@;
        let ghost was_logged = log@;
        let entries = &databases.entries;
        let mut i: usize = 0;
        assert(entries@.take(0).len() == 0);
        while i < entries.len()
            invariant
                i <= entries@.len(),
                self.index().dom().finite(),
                index_totals(before.index()).plus(was_replaced).plus(
                    totals_of(all_listed(entries@)),
                ).fit(),
                was_added.plus(totals_of(all_listed(entries@))).fit(),
                forall|k: TableKey| #[trigger]
                    self.table(k) == upsert_all(
                        before.table(k),
                        listed(entries@.take(i as int), k),
                    ),
                index_totals(self.index()).plus(replaced@) == index_totals(before.index()).plus(
                    was_replaced,
                ).plus(totals_of(all_listed(entries@.take(i as int)))),
                added@ == was_added.plus(totals_of(all_listed(entries@.take(i as int)))),
                log@ == was_logged + replacements_in_databases(
                    before.held(),
                    entries@.take(i as int),
                ),
                self.metrics() == before.metrics(),
                self.deleted_data == before.deleted_data,
            decreases entries@.len() - i,
        {
            let entry = &entries[i];
            let ghost now = *self;
            proof {
                let n = i as int;
                assert(entries@.take(n + 1).drop_last() =~= entries@.take(n));
                lemma_totals_add(
                    all_listed(entries@.take(n)),
                    all_in_tables(entry.1.tables.entries@),
                );
                lemma_all_listed_prefix(entries@, n + 1);
            }
            assert(now.held() =~= held_after(before.held(), entries@.take(i as int)));
            self.add_tables(&entry.0, &entry.1, added, replaced, log);
            assert(log@ =~= was_logged + replacements_in_databases(
                before.held(),
                entries@.take(i + 1),
            ));
            proof {
                let n = i as int;
                assert forall|k: TableKey| #[trigger]
                    self.table(k) == upsert_all(
                        before.table(k),
                        listed(entries@.take(n + 1), k),
                    ) by {
                    let so_far = listed(entries@.take(n), k);
                    let more: Seq<ParquetFile> = if k.0 == entry.0 {
                        listed_in_tables(entry.1.tables.entries@, k.1)
                    } else {
                        Seq::empty()
                    };
                    assert(now.table(k) == upsert_all(before.table(k), so_far));
                    lemma_upsert_all_add(before.table(k), so_far, more);
                }
            }
            i = i + 1;
        }
        assert(entries@.take(entries@.len() as int) =~= entries@);
    }

    /// Remove the files of the tables of one database by their ids.
    fn remove_tables(&mut self, db_id: &DbId, db_tables: &DatabaseTables)
        requires
            old(self).wf(),
        ensures
            final(self).wf(),
            forall|k: TableKey| #[trigger]
                final(self).table(k) == without_ids(
                    old(self).table(k),
                    ids_of(
                        if k.0 == *db_id {
                            listed_in_tables(db_tables.tables.entries@, k.1)
                        } else {
                            Seq::empty()
                        },
                    ),
                ),
            final(self).deleted_data == old(self).deleted_data,
    {
        let ghost before = *self;
        let entries = &db_tables.tables.entries;
        let mut i: usize = 0;
        proof {
            assert(entries@.take(0).len() == 0);
            assert forall|k: TableKey| #[trigger]
                self.table(k) == without_ids(before.table(k), ids_of(Seq::empty())) by {
                lemma_without_no_ids(before.table(k));
            }
        }
        while i < entries.len()
            invariant
                i <= entries@.len(),
                self.wf(),
                forall|k: TableKey| #[trigger]
                    self.table(k) == without_ids(
                        before.table(k),
                        ids_of(
                            if k.0 == *db_id {
                                listed_in_tables(entries@.take(i as int), k.1)
                            } else {
                                Seq::empty()
                            },
                        ),
                    ),
                self.deleted_data == before.deleted_data,
            decreases entries@.len() - i,
        {
            let entry = &entries[i];
            let ghost now = *self;
            self.remove_files(db_id, &entry.0, entry.1.as_slice());
            proof {
                let n = i as int;
                assert(entries@.take(n + 1).drop_last() =~= entries@.take(n));
                assert forall|k: TableKey| #[trigger]
                    self.table(k) == without_ids(
                        before.table(k),
                        ids_of(
                            if k.0 == *db_id {
                                listed_in_tables(entries@.take(n + 1), k.1)
                            } else {
                                Seq::empty()
                            },
                        ),
                    ) by {
                    let so_far: Seq<ParquetFile> = if k.0 == *db_id {
                        listed_in_tables(entries@.take(n), k.1)
                    } else {
                        Seq::empty()
                    };
                    assert(now.table(k) == without_ids(before.table(k), ids_of(so_far)));
                    if k == (*db_id, entry.0) {
                        lemma_without_ids_union(
                            before.table(k),
                            ids_of(so_far),
                            ids_of(entry.1@),
                        );
                        lemma_ids_of_add(so_far, entry.1@);
                    } else {
                        assert(so_far + Seq::<ParquetFile>::empty() =~= so_far);
                    }
                }
            }
            i = i + 1;
        }
        assert(entries@.take(entries@.len() as int) =~= entries@);
    }

    /// Remove the files of all databases by their ids.
    fn remove_databases(&mut self, databases: &DatabaseFiles)
        requires
            old(self).wf(),
        ensures
            final(self).wf(),
            forall|k: TableKey| #[trigger]
                final(self).table(k) == without_ids(
                    old(self).table(k),
                    ids_of(listed(databases.entries@, k)),
                ),
            final(self).deleted_data == old(self).deleted_data,
    {
        let ghost before = *self;
        let entries = &databases.entries;
        let mut i: usize = 0;
        proof {
            assert(entries@.take(0).len() == 0);
            assert forall|k: TableKey| #[trigger]
                self.table(k) == without_ids(before.table(k), ids_of(Seq::empty())) by {
                lemma_without_no_ids(before.table(k));
            }
        }
        while i < entries.len()
            invariant
                i <= entries@.len(),
                self.wf(),
                forall|k: TableKey| #[trigger]
                    self.table(k) == without_ids(
                        before.table(k),
                        ids_of(listed(entries@.take(i as int), k)),
                    ),
                self.deleted_data == before.deleted_data,
            decreases entries@.len() - i,
        {
            let entry = &entries[i];
            let ghost now = *self;
            self.remove_tables(&entry.0, &entry.1);
            proof {
                let n = i as int;
                assert(entries@.take(n + 1).drop_last() =~= entries@.take(n));
                assert forall|k: TableKey| #[trigger]
                    self.table(k) == without_ids(
                        before.table(k),
                        ids_of(listed(entries@.take(n + 1), k)),
                    ) by {
                    let so_far = listed(entries@.take(n), k);
                    let more: Seq<ParquetFile> = if k.0 == entry.0 {
                        listed_in_tables(entry.1.tables.entries@, k.1)
                    } else {
                        Seq::empty()
                    };
                    assert(now.table(k) == without_ids(before.table(k), ids_of(so_far)));
                    lemma_without_ids_union(before.table(k), ids_of(so_far), ids_of(more));
                    lemma_ids_of_add(so_far, more);
                }
            }
            i = i + 1;
        }
        assert(entries@.take(entries@.len() as int) =~= entries@);
    }
}

proof fn lemma_totals_prefix(s: Seq<ParquetFile>, n: int)
    requires
        0 <= n <= s.len(),
    ensures
        totals_of(s.take(n)).le(totals_of(s)),
{
    lemma_totals_add(s.take(n), s.skip(n));
    lemma_totals_bounds(s.skip(n));
    assert(s.take(n) + s.skip(n) =~= s);
}

pub proof fn lemma_all_in_tables_prefix(entries: Seq<(TableId, Vec<ParquetFile>)>, n: int)
    requires
        0 <= n <= entries.len(),
    ensures
        totals_of(all_in_tables(entries.take(n))).le(totals_of(all_in_tables(entries))),
    decreases entries.len(),
{
    if n == entries.len() {
        assert(entries.take(n) =~= entries);
    } else {
        let rest = entries.drop_last();
        assert(rest.take(n) =~= entries.take(n));
        lemma_all_in_tables_prefix(rest, n);
        lemma_totals_add(all_in_tables(rest), entries.last().1@);
        lemma_totals_bounds(entries.last().1@);
    }
}

pub proof fn lemma_all_listed_prefix(entries: Seq<(DbId, DatabaseTables)>, n: int)
    requires
        0 <= n <= entries.len(),
    ensures
        totals_of(all_listed(entries.take(n))).le(totals_of(all_listed(entries))),
    decreases entries.len(),
{
    if n == entries.len() {
        assert(entries.take(n) =~= entries);
    } else {
        let rest = entries.drop_last();
        let last = all_in_tables(entries.last().1.tables.entries@);
        assert(rest.take(n) =~= entries.take(n));
        lemma_all_listed_prefix(rest, n);
        lemma_totals_add(all_listed(rest), last);
        lemma_totals_bounds(last);
    }
}

} // verus!
