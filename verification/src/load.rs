//! Building the index from snapshots.

use crate::bytes::ByteBalance;
use crate::deletion::DeletedTables;
use crate::hash::{deleted_by_db, loaders_by_table, LoaderTables, TableToFiles};
use crate::ids::{DbId, TableId};
use crate::inner::Inner;
use crate::laws::law_loading_leaves_paths_unique;
use crate::loader::{has_other_entry, load_file, unload_file, TableLoader};
use crate::model::{
    files_of, index_totals, law_same_files_have_the_same_totals, lemma_index_totals_bounds,
    lemma_index_totals_insert, lemma_index_totals_remove, lemma_plausible_fit, lemma_plausible_plus,
    lemma_totals_add, lemma_totals_bounds, lemma_totals_push, paths_unique, totals_of, Index,
    TableKey, Totals,
};
use crate::parquet::ParquetFile;
use crate::removed::Removed;
use crate::snapshot::{
    keys_listed, lemma_keys_listed, listed, listed_in_tables, DatabaseFiles, DatabaseTables,
    PersistedSnapshot,
};
use vstd::prelude::*;

verus! {

/// The loaded files once those of `files` are loaded one after the other.
pub open spec fn load_all(s: Seq<ParquetFile>, files: Seq<ParquetFile>) -> Seq<ParquetFile>
    decreases files.len(),
{
    if files.len() == 0 {
        s
    } else {
        load_file(load_all(s, files.drop_last()), files.last())
    }
}

/// The loaded files once the entries `files` are removed.
pub open spec fn unload_all(s: Seq<ParquetFile>, files: Seq<ParquetFile>) -> Seq<ParquetFile>
    decreases files.len(),
{
    if files.len() == 0 {
        s
    } else {
        unload_file(unload_all(s, files.drop_last()), files.last())
    }
}

/// What one more snapshot makes of the loaded files of table `k`.
pub open spec fn replay_one(
    s: Seq<ParquetFile>,
    snapshot: PersistedSnapshot,
    k: TableKey,
) -> Seq<ParquetFile> {
    unload_all(
        load_all(s, listed(snapshot.databases.entries@, k)),
        listed(snapshot.removed_files.entries@, k),
    )
}

/// The files of table `k` once `snapshots`, the newest of which comes first, are replayed from
/// the oldest to the newest.
pub open spec fn replay(snapshots: Seq<PersistedSnapshot>, k: TableKey) -> Seq<ParquetFile>
    decreases snapshots.len(),
{
    if snapshots.len() == 0 {
        Seq::empty()
    } else {
        replay_one(replay(snapshots.drop_first(), k), snapshots[0], k)
    }
}

/// How many of `files`, loaded one after the other, take the place of an entry that has another id.
pub open spec fn collapses(s: Seq<ParquetFile>, files: Seq<ParquetFile>) -> nat
    decreases files.len(),
{
    if files.len() == 0 {
        0
    } else {
        collapses(s, files.drop_last()) + (if has_other_entry(
            load_all(s, files.drop_last()),
            files.last(),
        ) {
            1nat
        } else {
            0
        })
    }
}

/// The same for the files of the tables of database `db`, where `loaded` gives what is loaded for
/// each table before.
pub open spec fn collapses_in_tables(
    loaded: spec_fn(TableKey) -> Seq<ParquetFile>,
    db: DbId,
    tables: Seq<(TableId, Vec<ParquetFile>)>,
) -> nat
    decreases tables.len(),
{
    if tables.len() == 0 {
        0
    } else {
        let before = tables.drop_last();
        let (t, files) = tables.last();
        collapses_in_tables(loaded, db, before) + collapses(
            load_all(loaded((db, t)), listed_in_tables(before, t)),
            files@,
        )
    }
}

/// What is loaded for each table once the files of `dbs` are.
pub open spec fn loaded_after(
    loaded: spec_fn(TableKey) -> Seq<ParquetFile>,
    dbs: Seq<(DbId, DatabaseTables)>,
) -> spec_fn(TableKey) -> Seq<ParquetFile> {
    |k: TableKey| load_all(loaded(k), listed(dbs, k))
}

/// The same for the files of all databases.
pub open spec fn collapses_in_databases(
    loaded: spec_fn(TableKey) -> Seq<ParquetFile>,
    dbs: Seq<(DbId, DatabaseTables)>,
) -> nat
    decreases dbs.len(),
{
    if dbs.len() == 0 {
        0
    } else {
        let before = dbs.drop_last();
        collapses_in_databases(loaded, before) + collapses_in_tables(
            loaded_after(loaded, before),
            dbs.last().0,
            dbs.last().1.tables.entries@,
        )
    }
}

/// How many files take the place of an entry that has another id when `snapshots`, the newest of
/// which comes first, are replayed from the oldest to the newest.
pub open spec fn replay_collapses(snapshots: Seq<PersistedSnapshot>) -> nat
    decreases snapshots.len(),
{
    if snapshots.len() == 0 {
        0
    } else {
        let older = snapshots.drop_first();
        replay_collapses(older) + collapses_in_databases(
            |k: TableKey| replay(older, k),
            snapshots[0].databases.entries@,
        )
    }
}

/// `n`, or the most that 64 bits hold.
pub open spec fn capped(n: int) -> int {
    if n <= u64::MAX {
        n
    } else {
        u64::MAX as int
    }
}

/// The tables for which a replay leaves files, with these files.
pub open spec fn replayed_index(snapshots: Seq<PersistedSnapshot>) -> Index {
    Map::new(
        |k: TableKey| replay(snapshots, k).len() > 0,
        |k: TableKey| replay(snapshots, k),
    )
}

/// A replay leaves files for finitely many tables, whatever the snapshots list: the totals of the
/// replayed index are always defined.
pub proof fn lemma_replayed_index_finite(snapshots: Seq<PersistedSnapshot>)
    ensures
        replayed_index(snapshots).dom().finite(),
    decreases snapshots.len(),
{
    let replayed = replayed_index(snapshots).dom();
    if snapshots.len() == 0 {
        assert(replayed =~= Set::empty());
    } else {
        let older = replayed_index(snapshots.drop_first()).dom();
        let added = keys_listed(snapshots[0].databases.entries@);
        lemma_replayed_index_finite(snapshots.drop_first());
        lemma_keys_listed(snapshots[0].databases.entries@);
        assert forall|k: TableKey| replayed.contains(k) implies older.union(added).contains(k) by {
            if !older.contains(k) && !added.contains(k) {
                assert(replay(snapshots.drop_first(), k) =~= Seq::<ParquetFile>::empty());
                assert(listed(snapshots[0].databases.entries@, k).len() == 0);
                lemma_unload_nothing(listed(snapshots[0].removed_files.entries@, k));
            }
        }
        vstd::set_lib::lemma_set_subset_finite(older.union(added), replayed);
    }
}

/// The files of each table for which there is a loader.
spec fn loaded_index(tables: LoaderTables) -> Index {
    Map::new(
        |k: TableKey| loaders_by_table(tables).contains_key((k.0.0, k.1.0)),
        |k: TableKey| loaders_by_table(tables)[(k.0.0, k.1.0)]@,
    )
}

spec fn loaded(tables: LoaderTables, k: TableKey) -> Seq<ParquetFile> {
    files_of(loaded_index(tables), k)
}

spec fn all_loaded(tables: LoaderTables) -> spec_fn(TableKey) -> Seq<ParquetFile> {
    |k: TableKey| loaded(tables, k)
}

spec fn loaders_wf(tables: LoaderTables) -> bool {
    forall|t: (u32, u32)| #[trigger]
        loaders_by_table(tables).contains_key(t) ==> loaders_by_table(tables)[t].wf()
}

impl Inner {
    /// Build the index from persisted snapshots, the newest of which comes first.
    ///
    /// Snapshots are replayed oldest to newest so that a snapshot's `removed_files` apply to
    /// files added by the older snapshots before it, and so that when the same path is listed
    /// more than once the newest entry wins: object storage holds a single object per path, and
    /// the most recent write is the one that describes it. This collapses same-path duplicates,
    /// so a restart heals an index that had them.
    pub fn new_from_persisted_snapshots(persisted_snapshots: Vec<PersistedSnapshot>) -> (r: Inner)
        requires
            index_totals(replayed_index(persisted_snapshots@)).countable(),
        ensures
            r.wf(),
            forall|k: TableKey| #[trigger] r.table(k) == replay(persisted_snapshots@, k),
            r.metrics() == index_totals(replayed_index(persisted_snapshots@)),
            r.one_entry_per_path(),
            deleted_by_db(r.deleted_data) == Map::<
                u32,
                DeletedTables,
            >::empty(),
    {
        match Inner::checked_new_from_persisted_snapshots(persisted_snapshots) {
            Some(inner) => inner,
            None => vstd::pervasive::unreached(),
        }
    }

    /// [`Self::new_from_persisted_snapshots`], unless the counters cannot hold the number of the
    /// files or of their rows.
    pub fn checked_new_from_persisted_snapshots(
        persisted_snapshots: Vec<PersistedSnapshot>,
    ) -> (r: Option<Inner>)
        ensures
            replayed_index(persisted_snapshots@).dom().finite(),
            match r {
                Some(inner) => {
                    &&& inner.wf()
                    &&& forall|k: TableKey| #[trigger]
                        inner.table(k) == replay(persisted_snapshots@, k)
                    &&& deleted_by_db(inner.deleted_data) == Map::<
                        u32,
                        DeletedTables,
                    >::empty()
                    &&& inner.metrics() == index_totals(replayed_index(persisted_snapshots@))
                    &&& inner.one_entry_per_path()
                },
                None => !index_totals(replayed_index(persisted_snapshots@)).countable(),
            },
    {
        Inner::checked_new_counting_collapsed(persisted_snapshots).0
    }

    /// [`Self::checked_new_from_persisted_snapshots`], with the number of files that took the place
    /// of an entry for their path that has another id.
    pub fn checked_new_counting_collapsed(
        persisted_snapshots: Vec<PersistedSnapshot>,
    ) -> (r: (Option<Inner>, u64))
        ensures
            replayed_index(persisted_snapshots@).dom().finite(),
            match r.0 {
                Some(inner) => {
                    &&& inner.wf()
                    &&& forall|k: TableKey| #[trigger]
                        inner.table(k) == replay(persisted_snapshots@, k)
                    &&& deleted_by_db(inner.deleted_data) == Map::<u32, DeletedTables>::empty()
                    &&& inner.metrics() == index_totals(replayed_index(persisted_snapshots@))
                    &&& inner.one_entry_per_path()
                },
                None => !index_totals(replayed_index(persisted_snapshots@)).countable(),
            },
            r.1 == capped(replay_collapses(persisted_snapshots@) as int),
    {
        let ghost snapshots = persisted_snapshots@;
        let (tables, collapsed) = replay_snapshots(persisted_snapshots);
        let ghost whole = loaded_index(tables);
        proof {
            assert forall|k: TableKey| #[trigger] files_of(whole, k) == replay(snapshots, k) by {
                assert(loaded(tables, k) == replay(snapshots, k));
            }
        }
        let ghost loaders = tables;
        let entries = tables.into_entries();
        let ghost all = entries@;
        let mut files_by_table: Vec<(TableKey, Vec<ParquetFile>)> = Vec::new();
        for (table, loader) in it: entries
            invariant
                it.seq() == all,
                files_by_table@.len() == it.index(),
                forall|i: int|
                    0 <= i < files_by_table@.len() ==> {
                        &&& (#[trigger] files_by_table@[i]).0 == (
                            DbId(all[i].0.0),
                            TableId(all[i].0.1),
                        )
                        &&& files_by_table@[i].1@ == all[i].1@
                    },
        {
            files_by_table.push(((DbId(table.0), TableId(table.1)), loader.into_files()));
        }
        proof {
            lemma_loaded_finite(loaders, all, files_by_table@);
            lemma_same_as_replayed(whole, snapshots);
        }
        let r = Inner::checked_from_tables(files_by_table);
        proof {
            assert forall|k: TableKey| r is Some implies #[trigger] r->0.table(k) == replay(
                snapshots,
                k,
            ) by {
                assert(files_of(whole, k) == replay(snapshots, k));
            }
            assert forall|k: TableKey| r is Some implies paths_unique(
                #[trigger] r->0.table(k),
            ) by {
                law_loading_leaves_paths_unique(snapshots, k);
            }
        }
        (r, collapsed)
    }

    /// An index that holds, for each of `tables`, its files as they stand, unless the counters
    /// cannot hold the number of the files or of their rows.
    pub fn checked_from_tables(tables: Vec<(TableKey, Vec<ParquetFile>)>) -> (r: Option<Inner>)
        requires
            keys_unique(tables@),
        ensures
            match r {
                Some(inner) => {
                    &&& inner.wf()
                    &&& inner.index() == index_of(tables@)
                    &&& deleted_by_db(inner.deleted_data) == Map::<
                        u32,
                        DeletedTables,
                    >::empty()
                },
                None => !index_totals(index_of(tables@)).countable(),
            },
    {
        let ghost all = tables@;
        let ghost whole = index_of(all);
        let mut inner = Inner::new();
        let ghost none = inner.deleted_data;
        let mut counted = Removed::new();
        assert(all.take(0).len() == 0);
        proof {
            lemma_index_of(all);
        }
        for (table, files) in it: tables
            invariant
                it.seq() == all,
                keys_unique(all),
                whole == index_of(tables@),
                whole == index_of(all),
                whole.dom().finite(),
                inner.index() == index_of(all.take(it.index())),
                inner.index().dom().finite(),
                inner.deleted_data == none,
                inner.metrics() == Totals::zero(),
                counted@ == index_totals(inner.index()),
        {
            let ghost before = inner.index();
            let ghost n = it.index();
            proof {
                assert(all.take(n + 1).drop_last() =~= all.take(n));
                lemma_index_of(all.take(n));
                lemma_index_of(all.take(n + 1));
                assert(!before.contains_key(table)) by {
                    if before.contains_key(table) {
                        let i = choose|i: int|
                            0 <= i < n && (#[trigger] all.take(n)[i]).0 == table;
                        assert(all[i].0 == all[n].0);
                    }
                }
                lemma_index_totals_insert(before, table, files@);
                lemma_index_of_prefix(all, n + 1);
                lemma_sub_index(index_of(all.take(n + 1)), whole);
                lemma_index_totals_bounds(before);
            }
            if !count_files(&files, &mut counted) {
                return None;
            }
            if inner.files.get(table.0.0).is_none() {
                inner.files.insert(table.0.0, TableToFiles::new());
            }
            let ghost more = files@;
            match inner.files.get_mut(table.0.0) {
                Some(db_tables) => db_tables.insert(table.1.0, files),
                None => {},
            }
            assert(inner.index() =~= before.insert(table, more));
        }
        assert(all.take(all.len() as int) =~= all);
        inner.parquet_files_count = counted.count;
        inner.parquet_files_row_count = counted.rows;
        inner.parquet_files_size_bytes = ByteBalance::new(counted.size_bytes);
        Some(inner)
    }
}

/// No table comes twice.
pub open spec fn keys_unique(tables: Seq<(TableKey, Vec<ParquetFile>)>) -> bool {
    forall|i: int, j: int|
        0 <= i < j < tables.len() ==> (#[trigger] tables[i]).0 != (#[trigger] tables[j]).0
}

/// The index that holds, for each of `tables`, its files.
pub open spec fn index_of(tables: Seq<(TableKey, Vec<ParquetFile>)>) -> Index
    decreases tables.len(),
{
    if tables.len() == 0 {
        Map::empty()
    } else {
        index_of(tables.drop_last()).insert(tables.last().0, tables.last().1@)
    }
}

/// Count `files` too, unless the counters cannot hold that.
pub(crate) fn count_files(files: &Vec<ParquetFile>, counted: &mut Removed) -> (r: bool)
    requires
        old(counted)@.plausible(),
    ensures
        r == old(counted)@.plus(totals_of(files@)).countable(),
        r ==> final(counted)@ == old(counted)@.plus(totals_of(files@)),
{
    let ghost before = counted@;
    let mut i: usize = 0;
    assert(files@.take(0) =~= Seq::<ParquetFile>::empty());
    while i < files.len()
        invariant
            i <= files@.len(),
            before == old(counted)@,
            before.plausible(),
            counted@ == before.plus(totals_of(files@.take(i as int))),
        decreases files@.len() - i,
    {
        let file = &files[i];
        proof {
            let n = i as int;
            assert(files@.take(n + 1) =~= files@.take(n).push(*file));
            lemma_totals_push(files@.take(n), *file);
            lemma_totals_bounds(files@.take(n + 1));
            lemma_plausible_plus(before, totals_of(files@.take(n + 1)));
            assert(files@.take(n + 1) + files@.skip(n + 1) =~= files@);
            lemma_totals_add(files@.take(n + 1), files@.skip(n + 1));
            lemma_totals_bounds(files@.skip(n + 1));
        }
        if counted.count == u64::MAX || counted.rows > u64::MAX - file.row_count {
            return false;
        }
        proof {
            lemma_plausible_fit(before.plus(totals_of(files@.take(i + 1))));
        }
        counted.add(file);
        i = i + 1;
    }
    assert(files@.take(files@.len() as int) =~= files@);
    true
}

/// Replay the snapshots, from the last of the vector, which is the oldest, to the first, and count
/// the files that take the place of an entry that has another id.
fn replay_snapshots(persisted_snapshots: Vec<PersistedSnapshot>) -> (r: (LoaderTables, u64))
    ensures
        loaders_wf(r.0),
        forall|k: TableKey| #[trigger] loaded(r.0, k) == replay(persisted_snapshots@, k),
        r.1 == capped(replay_collapses(persisted_snapshots@) as int),
{
    let ghost all = persisted_snapshots@;
    let mut left = persisted_snapshots;
    let mut tables = LoaderTables::new();
    let mut collapsed: u64 = 0;
    assert(all.skip(all.len() as int).len() == 0);
    loop
        invariant
            left@.len() <= all.len(),
            left@ == all.take(left@.len() as int),
            loaders_wf(tables),
            forall|k: TableKey| #[trigger]
                loaded(tables, k) == replay(all.skip(left@.len() as int), k),
            collapsed == capped(replay_collapses(all.skip(left@.len() as int)) as int),
        ensures
            left@.len() == 0,
            loaders_wf(tables),
            forall|k: TableKey| #[trigger]
                loaded(tables, k) == replay(all.skip(left@.len() as int), k),
            collapsed == capped(replay_collapses(all.skip(left@.len() as int)) as int),
        decreases left@.len(),
    {
        let ghost n = left@.len() as int;
        let ghost before = tables;
        match left.pop() {
            None => break,
            Some(snapshot) => {
                assert(snapshot == all[n - 1]);
                load_databases(&mut tables, snapshot.databases, &mut collapsed);
                let ghost grown = tables;
                unload_databases(&mut tables, &snapshot.removed_files);
                proof {
                    assert(all.skip(n - 1).drop_first() =~= all.skip(n));
                    assert(all.skip(n - 1)[0] == snapshot);
                    let older = all.skip(n);
                    assert(all_loaded(before) =~= (|k: TableKey| replay(older, k)));
                    assert forall|k: TableKey| #[trigger]
                        loaded(tables, k) == replay(all.skip(n - 1), k) by {
                        assert(loaded(before, k) == replay(all.skip(n), k));
                        assert(loaded(grown, k) == load_all(
                            loaded(before, k),
                            listed(snapshot.databases.entries@, k),
                        ));
                        assert(all.skip(n - 1)[0] == snapshot);
                    }
                }
            },
        }
    }
    assert(all.skip(0) =~= all);
    (tables, collapsed)
}

/// Load `files` into one table, and count those that take the place of an entry that has another
/// id.
fn load_files(
    tables: &mut LoaderTables,
    db_id: DbId,
    table_id: TableId,
    files: Vec<ParquetFile>,
    collapsed: &mut u64,
)
    requires
        loaders_wf(*old(tables)),
    ensures
        loaders_wf(*final(tables)),
        forall|k: TableKey| #[trigger]
            loaded(*final(tables), k) == load_all(
                loaded(*old(tables), k),
                if k == (db_id, table_id) {
                    files@
                } else {
                    Seq::empty()
                },
            ),
        *final(collapsed) == capped(
            *old(collapsed) + collapses(loaded(*old(tables), (db_id, table_id)), files@),
        ),
{
    let ghost k = (db_id, table_id);
    let ghost before = *tables;
    let ghost all = files@;
    let ghost was_collapsed = *collapsed as int;
    let table: (u32, u32) = (db_id.0, table_id.0);
    if tables.get_mut(table).is_none() {
        tables.insert(table, TableLoader::new());
    }
    assert forall|j: TableKey| #[trigger] loaded(*tables, j) == loaded(before, j) by {}
    match tables.get_mut(table) {
        Some(loader) => {
            for file in it: files
                invariant
                    it.seq() == all,
                    loader.wf(),
                    loader@ == load_all(loaded(before, k), all.take(it.index())),
                    *collapsed == capped(
                        was_collapsed + collapses(loaded(before, k), all.take(it.index())),
                    ),
            {
                proof {
                    let n = it.index();
                    assert(all.take(n + 1).drop_last() =~= all.take(n));
                }
                if loader.upsert(file) {
                    *collapsed = collapsed.saturating_add(1);
                }
            }
            assert(all.take(all.len() as int) =~= all);
        },
        None => {},
    }
    assert forall|j: TableKey| #[trigger]
        loaded(*tables, j) == load_all(
            loaded(before, j),
            if j == k {
                all
            } else {
                Seq::empty()
            },
        ) by {}
}

/// Load the files of the tables of one database, as [`load_files`] does for one table.
fn load_tables(
    tables: &mut LoaderTables,
    db_id: DbId,
    db_tables: DatabaseTables,
    collapsed: &mut u64,
)
    requires
        loaders_wf(*old(tables)),
    ensures
        loaders_wf(*final(tables)),
        forall|k: TableKey| #[trigger]
            loaded(*final(tables), k) == load_all(
                loaded(*old(tables), k),
                if k.0 == db_id {
                    listed_in_tables(db_tables.tables.entries@, k.1)
                } else {
                    Seq::empty()
                },
            ),
        *final(collapsed) == capped(
            *old(collapsed) + collapses_in_tables(
                all_loaded(*old(tables)),
                db_id,
                db_tables.tables.entries@,
            ),
        ),
{
    let ghost before = *tables;
    let ghost was_collapsed = *collapsed as int;
    let ghost all = db_tables.tables.entries@;
    assert(all.take(0).len() == 0);
    for (table_id, files) in it: db_tables.tables.entries
        invariant
            it.seq() == all,
            loaders_wf(*tables),
            forall|k: TableKey| #[trigger]
                loaded(*tables, k) == load_all(
                    loaded(before, k),
                    if k.0 == db_id {
                        listed_in_tables(all.take(it.index()), k.1)
                    } else {
                        Seq::empty()
                    },
                ),
            *collapsed == capped(
                was_collapsed + collapses_in_tables(
                    all_loaded(before),
                    db_id,
                    all.take(it.index()),
                ),
            ),
    {
        let ghost now = *tables;
        let ghost more_files = files@;
        assert(loaded(now, (db_id, table_id)) == load_all(
            loaded(before, (db_id, table_id)),
            listed_in_tables(all.take(it.index()), table_id),
        ));
        load_files(tables, db_id, table_id, files, collapsed);
        proof {
            let n = it.index();
            assert(all.take(n + 1).drop_last() =~= all.take(n));
            assert forall|k: TableKey| #[trigger]
                loaded(*tables, k) == load_all(
                    loaded(before, k),
                    if k.0 == db_id {
                        listed_in_tables(all.take(n + 1), k.1)
                    } else {
                        Seq::empty()
                    },
                ) by {
                let so_far: Seq<ParquetFile> = if k.0 == db_id {
                    listed_in_tables(all.take(n), k.1)
                } else {
                    Seq::empty()
                };
                let more: Seq<ParquetFile> = if k == (db_id, table_id) {
                    more_files
                } else {
                    Seq::empty()
                };
                assert(loaded(now, k) == load_all(loaded(before, k), so_far));
                lemma_load_all_add(loaded(before, k), so_far, more);
                assert(k.0 != db_id ==> so_far + more =~= Seq::<ParquetFile>::empty());
            }
        }
    }
    assert(all.take(all.len() as int) =~= all);
}

/// Load the files of all databases, as [`load_files`] does for one table.
fn load_databases(tables: &mut LoaderTables, databases: DatabaseFiles, collapsed: &mut u64)
    requires
        loaders_wf(*old(tables)),
    ensures
        loaders_wf(*final(tables)),
        forall|k: TableKey| #[trigger]
            loaded(*final(tables), k) == load_all(
                loaded(*old(tables), k),
                listed(databases.entries@, k),
            ),
        *final(collapsed) == capped(
            *old(collapsed) + collapses_in_databases(
                all_loaded(*old(tables)),
                databases.entries@,
            ),
        ),
{
    let ghost before = *tables;
    let ghost was_collapsed = *collapsed as int;
    let ghost all = databases.entries@;
    assert(all.take(0).len() == 0);
    for (db_id, db_tables) in it: databases.entries
        invariant
            it.seq() == all,
            loaders_wf(*tables),
            forall|k: TableKey| #[trigger]
                loaded(*tables, k) == load_all(loaded(before, k), listed(all.take(it.index()), k)),
            *collapsed == capped(
                was_collapsed + collapses_in_databases(all_loaded(before), all.take(it.index())),
            ),
    {
        let ghost now = *tables;
        let ghost entries = db_tables.tables.entries@;
        assert(all_loaded(now) =~= loaded_after(all_loaded(before), all.take(it.index())));
        load_tables(tables, db_id, db_tables, collapsed);
        proof {
            let n = it.index();
            assert(all.take(n + 1).drop_last() =~= all.take(n));
            assert forall|k: TableKey| #[trigger]
                loaded(*tables, k) == load_all(loaded(before, k), listed(all.take(n + 1), k)) by {
                let so_far = listed(all.take(n), k);
                let more: Seq<ParquetFile> = if k.0 == db_id {
                    listed_in_tables(entries, k.1)
                } else {
                    Seq::empty()
                };
                assert(loaded(now, k) == load_all(loaded(before, k), so_far));
                lemma_load_all_add(loaded(before, k), so_far, more);
            }
        }
    }
    assert(all.take(all.len() as int) =~= all);
}

/// Remove the entries `files` from one table.
fn unload_files(tables: &mut LoaderTables, db_id: DbId, table_id: TableId, files: &Vec<ParquetFile>)
    requires
        loaders_wf(*old(tables)),
    ensures
        loaders_wf(*final(tables)),
        forall|k: TableKey| #[trigger]
            loaded(*final(tables), k) == unload_all(
                loaded(*old(tables), k),
                if k == (db_id, table_id) {
                    files@
                } else {
                    Seq::empty()
                },
            ),
{
    let ghost k = (db_id, table_id);
    let ghost before = *tables;
    proof {
        lemma_unload_nothing(files@);
    }
    match tables.get_mut((db_id.0, table_id.0)) {
        Some(loader) => {
            let mut i: usize = 0;
            assert(files@.take(0).len() == 0);
            while i < files.len()
                invariant
                    i <= files@.len(),
                    loader.wf(),
                    loader@ == unload_all(loaded(before, k), files@.take(i as int)),
                decreases files@.len() - i,
            {
                proof {
                    let n = i as int;
                    assert(files@.take(n + 1).drop_last() =~= files@.take(n));
                }
                loader.remove(&files[i]);
                i = i + 1;
            }
            assert(files@.take(files@.len() as int) =~= files@);
        },
        None => {},
    }
    assert forall|j: TableKey| #[trigger]
        loaded(*tables, j) == unload_all(
            loaded(before, j),
            if j == k {
                files@
            } else {
                Seq::empty()
            },
        ) by {}
}

/// Remove the entries listed for the tables of one database.
fn unload_tables(tables: &mut LoaderTables, db_id: DbId, db_tables: &DatabaseTables)
    requires
        loaders_wf(*old(tables)),
    ensures
        loaders_wf(*final(tables)),
        forall|k: TableKey| #[trigger]
            loaded(*final(tables), k) == unload_all(
                loaded(*old(tables), k),
                if k.0 == db_id {
                    listed_in_tables(db_tables.tables.entries@, k.1)
                } else {
                    Seq::empty()
                },
            ),
{
    let ghost before = *tables;
    let entries = &db_tables.tables.entries;
    let mut i: usize = 0;
    assert(entries@.take(0).len() == 0);
    while i < entries.len()
        invariant
            i <= entries@.len(),
            loaders_wf(*tables),
            forall|k: TableKey| #[trigger]
                loaded(*tables, k) == unload_all(
                    loaded(before, k),
                    if k.0 == db_id {
                        listed_in_tables(entries@.take(i as int), k.1)
                    } else {
                        Seq::empty()
                    },
                ),
        decreases entries@.len() - i,
    {
        let entry = &entries[i];
        let ghost now = *tables;
        unload_files(tables, db_id, entry.0, &entry.1);
        proof {
            let n = i as int;
            assert(entries@.take(n + 1).drop_last() =~= entries@.take(n));
            assert forall|k: TableKey| #[trigger]
                loaded(*tables, k) == unload_all(
                    loaded(before, k),
                    if k.0 == db_id {
                        listed_in_tables(entries@.take(n + 1), k.1)
                    } else {
                        Seq::empty()
                    },
                ) by {
                let so_far: Seq<ParquetFile> = if k.0 == db_id {
                    listed_in_tables(entries@.take(n), k.1)
                } else {
                    Seq::empty()
                };
                let more: Seq<ParquetFile> = if k == (db_id, entry.0) {
                    entry.1@
                } else {
                    Seq::empty()
                };
                assert(loaded(now, k) == unload_all(loaded(before, k), so_far));
                lemma_unload_all_add(loaded(before, k), so_far, more);
                assert(k.0 != db_id ==> so_far + more =~= Seq::<ParquetFile>::empty());
            }
        }
        i = i + 1;
    }
    assert(entries@.take(entries@.len() as int) =~= entries@);
}

/// Remove the entries listed for all databases.
fn unload_databases(tables: &mut LoaderTables, databases: &DatabaseFiles)
    requires
        loaders_wf(*old(tables)),
    ensures
        loaders_wf(*final(tables)),
        forall|k: TableKey| #[trigger]
            loaded(*final(tables), k) == unload_all(
                loaded(*old(tables), k),
                listed(databases.entries@, k),
            ),
{
    let ghost before = *tables;
    let entries = &databases.entries;
    let mut i: usize = 0;
    assert(entries@.take(0).len() == 0);
    while i < entries.len()
        invariant
            i <= entries@.len(),
            loaders_wf(*tables),
            forall|k: TableKey| #[trigger]
                loaded(*tables, k) == unload_all(
                    loaded(before, k),
                    listed(entries@.take(i as int), k),
                ),
        decreases entries@.len() - i,
    {
        let entry = &entries[i];
        let ghost now = *tables;
        unload_tables(tables, entry.0, &entry.1);
        proof {
            let n = i as int;
            assert(entries@.take(n + 1).drop_last() =~= entries@.take(n));
            assert forall|k: TableKey| #[trigger]
                loaded(*tables, k) == unload_all(
                    loaded(before, k),
                    listed(entries@.take(n + 1), k),
                ) by {
                let so_far = listed(entries@.take(n), k);
                let more: Seq<ParquetFile> = if k.0 == entry.0 {
                    listed_in_tables(entry.1.tables.entries@, k.1)
                } else {
                    Seq::empty()
                };
                assert(loaded(now, k) == unload_all(loaded(before, k), so_far));
                lemma_unload_all_add(loaded(before, k), so_far, more);
            }
        }
        i = i + 1;
    }
    assert(entries@.take(entries@.len() as int) =~= entries@);
}

// -- Loading and removing one after the other

pub proof fn lemma_load_all_add(s: Seq<ParquetFile>, a: Seq<ParquetFile>, b: Seq<ParquetFile>)
    ensures
        load_all(load_all(s, a), b) == load_all(s, a + b),
    decreases b.len(),
{
    if b.len() == 0 {
        assert(a + b =~= a);
    } else {
        lemma_load_all_add(s, a, b.drop_last());
        assert((a + b).drop_last() =~= a + b.drop_last());
    }
}

pub proof fn lemma_unload_all_add(s: Seq<ParquetFile>, a: Seq<ParquetFile>, b: Seq<ParquetFile>)
    ensures
        unload_all(unload_all(s, a), b) == unload_all(s, a + b),
    decreases b.len(),
{
    if b.len() == 0 {
        assert(a + b =~= a);
    } else {
        lemma_unload_all_add(s, a, b.drop_last());
        assert((a + b).drop_last() =~= a + b.drop_last());
    }
}

proof fn lemma_unload_nothing(files: Seq<ParquetFile>)
    ensures
        unload_all(Seq::empty(), files) == Seq::<ParquetFile>::empty(),
    decreases files.len(),
{
    reveal(Seq::filter);
    if files.len() > 0 {
        lemma_unload_nothing(files.drop_last());
    }
}

// -- The loaded tables as an index

pub proof fn lemma_index_of(tables: Seq<(TableKey, Vec<ParquetFile>)>)
    requires
        keys_unique(tables),
    ensures
        index_of(tables).dom().finite(),
        forall|k: TableKey| #[trigger]
            index_of(tables).contains_key(k) ==> exists|i: int|
                0 <= i < tables.len() && (#[trigger] tables[i]).0 == k,
        forall|i: int|
            0 <= i < tables.len() ==> {
                &&& index_of(tables).contains_key((#[trigger] tables[i]).0)
                &&& index_of(tables)[tables[i].0] == tables[i].1@
            },
    decreases tables.len(),
{
    if tables.len() > 0 {
        let rest = tables.drop_last();
        let last = tables.last();
        lemma_index_of(rest);
        assert(index_of(tables).dom() =~= index_of(rest).dom().insert(last.0));
        assert forall|k: TableKey| #[trigger] index_of(tables).contains_key(k) implies exists|
            i: int,
        | 0 <= i < tables.len() && (#[trigger] tables[i]).0 == k by {
            if k == last.0 {
                assert(tables[tables.len() - 1].0 == k);
            } else {
                let i = choose|i: int| 0 <= i < rest.len() && (#[trigger] rest[i]).0 == k;
                assert(tables[i].0 == k);
            }
        }
        assert forall|i: int| 0 <= i < tables.len() implies {
            &&& index_of(tables).contains_key((#[trigger] tables[i]).0)
            &&& index_of(tables)[tables[i].0] == tables[i].1@
        } by {
            if i < rest.len() {
                assert(rest[i] == tables[i]);
                assert(tables[i].0 != tables[tables.len() - 1].0);
            }
        }
    }
}

proof fn lemma_index_of_prefix(tables: Seq<(TableKey, Vec<ParquetFile>)>, n: int)
    requires
        0 <= n <= tables.len(),
        keys_unique(tables),
    ensures
        index_of(tables.take(n)).submap_of(index_of(tables)),
{
    lemma_index_of(tables);
    lemma_index_of(tables.take(n));
    assert forall|k: TableKey| index_of(tables.take(n)).contains_key(k) implies index_of(
        tables,
    ).contains_key(k) && index_of(tables.take(n))[k] == index_of(tables)[k] by {
        let i = choose|i: int| 0 <= i < n && (#[trigger] tables.take(n)[i]).0 == k;
        assert(tables[i] == tables.take(n)[i]);
    }
}

/// Part of an index has no more than its totals.
proof fn lemma_sub_index(a: Index, b: Index)
    requires
        a.submap_of(b),
        b.dom().finite(),
    ensures
        a.dom().finite(),
        index_totals(a).le(index_totals(b)),
    decreases b.dom().len(),
{
    assert(a.dom().subset_of(b.dom()));
    vstd::set_lib::lemma_set_subset_finite(b.dom(), a.dom());
    if b.dom().len() == 0 {
        assert(a.dom() =~= Set::empty());
    } else {
        let k = b.dom().choose();
        assert(b.dom().contains(k));
        assert(b.remove(k).dom() =~= b.dom().remove(k));
        lemma_totals_bounds(b[k]);
        if a.contains_key(k) {
            assert(a.dom().contains(k) && a[k] == b[k]);
            lemma_index_totals_remove(a, k);
            lemma_sub_index(a.remove(k), b.remove(k));
        } else {
            lemma_sub_index(a, b.remove(k));
        }
    }
}

proof fn lemma_loaded_finite(
    tables: LoaderTables,
    entries: Seq<((u32, u32), TableLoader)>,
    files: Seq<(TableKey, Vec<ParquetFile>)>,
)
    requires
        forall|i: int, j: int|
            0 <= i < j < entries.len() ==> (#[trigger] entries[i]).0 != (#[trigger] entries[j]).0,
        forall|i: int|
            0 <= i < entries.len() ==> loaders_by_table(tables).contains_key(
                (#[trigger] entries[i]).0,
            ) && loaders_by_table(tables)[entries[i].0] == entries[i].1,
        forall|k: (u32, u32)| #[trigger]
            loaders_by_table(tables).contains_key(k) ==> exists|i: int|
                0 <= i < entries.len() && (#[trigger] entries[i]).0 == k,
        files.len() == entries.len(),
        forall|i: int|
            0 <= i < files.len() ==> {
                &&& (#[trigger] files[i]).0 == (DbId(entries[i].0.0), TableId(entries[i].0.1))
                &&& files[i].1@ == entries[i].1@
            },
    ensures
        keys_unique(files),
        loaded_index(tables).dom().finite(),
        index_of(files) == loaded_index(tables),
{
    assert forall|i: int, j: int| 0 <= i < j < files.len() implies (#[trigger] files[i]).0 != (
    #[trigger] files[j]).0 by {
        assert(entries[i].0 != entries[j].0);
    }
    lemma_index_of(files);
    let part = index_of(files);
    let whole = loaded_index(tables);
    assert forall|k: TableKey| part.contains_key(k) == whole.contains_key(k) by {
        if whole.contains_key(k) {
            let i = choose|i: int|
                0 <= i < entries.len() && (#[trigger] entries[i]).0 == (k.0.0, k.1.0);
            assert(files[i].0 == k);
        }
        if part.contains_key(k) {
            let i = choose|i: int| 0 <= i < files.len() && (#[trigger] files[i]).0 == k;
            assert(entries[i].0 == (k.0.0, k.1.0));
        }
    }
    assert forall|k: TableKey| part.contains_key(k) implies part[k] == whole[k] by {
        let i = choose|i: int| 0 <= i < files.len() && (#[trigger] files[i]).0 == k;
        assert(entries[i].0 == (k.0.0, k.1.0));
    }
    assert(part =~= whole);
}

proof fn lemma_same_as_replayed(whole: Index, snapshots: Seq<PersistedSnapshot>)
    requires
        whole.dom().finite(),
        forall|k: TableKey| #[trigger] files_of(whole, k) == replay(snapshots, k),
    ensures
        replayed_index(snapshots).dom().finite(),
        index_totals(whole) == index_totals(replayed_index(snapshots)),
{
    let replayed = replayed_index(snapshots);
    assert(replayed.dom().subset_of(whole.dom())) by {
        assert forall|k: TableKey| replayed.dom().contains(k) implies whole.dom().contains(k) by {
            assert(files_of(whole, k) == replay(snapshots, k));
        }
    }
    vstd::set_lib::lemma_set_subset_finite(whole.dom(), replayed.dom());
    assert forall|k: TableKey| #[trigger] files_of(whole, k) == files_of(replayed, k) by {
        assert(files_of(whole, k) == replay(snapshots, k));
        if replay(snapshots, k).len() == 0 {
            assert(replay(snapshots, k) =~= Seq::<ParquetFile>::empty());
        }
    }
    law_same_files_have_the_same_totals(whole, replayed);
}

} // verus!
