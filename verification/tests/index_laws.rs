use persisted_files::bytes::ByteBalance;
use persisted_files::ids::{DbId, ParquetFileId, TableId};
use persisted_files::inner::Inner;
use persisted_files::loader::TableLoader;
use persisted_files::model::TableKey;
use persisted_files::parquet::ParquetFile;
use persisted_files::persisted_files::PersistedFiles;
use persisted_files::query::ChunkFilter;
use persisted_files::removed::Removed;
use persisted_files::replaced::Replacement;
use persisted_files::snapshot::{DatabaseFiles, DatabaseTables, PersistedSnapshot};
use persisted_files::vec_map::VecMap;

const DB: DbId = DbId(0);
const TABLE: TableId = TableId(0);

/// A file of one byte and one row.
fn file(id: u64, path: &str, min_time: i64, max_time: i64) -> ParquetFile {
    ParquetFile {
        id: ParquetFileId(id),
        path: path.to_string(),
        size_bytes: 1,
        row_count: 1,
        chunk_time: min_time,
        min_time,
        max_time,
    }
}

fn sized(id: u64, path: &str, size_bytes: u64, row_count: u64) -> ParquetFile {
    ParquetFile { size_bytes, row_count, ..file(id, path, 0, 0) }
}

fn snapshot(added: &[ParquetFile], removed: &[ParquetFile]) -> PersistedSnapshot {
    let mut snapshot = PersistedSnapshot::new();
    for f in added {
        snapshot.add_parquet_file(DB, TABLE, f.clone());
    }
    if !removed.is_empty() {
        let mut tables = DatabaseTables::new();
        tables.tables.insert(TABLE, removed.to_vec());
        snapshot.removed_files.insert(DB, tables);
    }
    snapshot
}

fn from_tables(tables: Vec<(TableKey, Vec<ParquetFile>)>) -> PersistedFiles {
    PersistedFiles { inner: Inner::checked_from_tables(tables).unwrap() }
}

fn ids(files: &[ParquetFile]) -> Vec<u64> {
    files.iter().map(|f| f.id.0).collect()
}

fn ids_in(files: &PersistedFiles, db: u32, table: u32) -> Vec<u64> {
    ids(&files.get_files(DbId(db), TableId(table)))
}

fn cutoffs(entries: &[(u32, u32, i64)]) -> VecMap<TableKey, i64> {
    let mut map = VecMap::new();
    for (db, table, cutoff) in entries {
        map.insert((DbId(*db), TableId(*table)), *cutoff);
    }
    map
}

fn listed(removed: &DatabaseFiles, db: u32, table: u32) -> Vec<u64> {
    match removed.get(&DbId(db)) {
        Some(tables) => match tables.tables.get(&TableId(table)) {
            Some(files) => ids(files),
            None => vec![],
        },
        None => vec![],
    }
}

// -- Adding

#[test]
fn new_index_is_empty() {
    for files in [PersistedFiles::new(), PersistedFiles::default()] {
        assert_eq!(files.get_metrics(), (0, 0, 0));
        assert!(files.get_files(DB, TABLE).is_empty());
        assert_eq!(files.inner.deleted_data.len(), 0);
    }
}

#[test]
fn added_file_is_the_entry_for_its_path() {
    let mut files = from_tables(vec![(
        (DB, TABLE),
        vec![file(1, "a", 0, 0), file(2, "a", 0, 0), file(3, "b", 0, 0)],
    )]);
    files.add_persisted_file(&DB, &TABLE, &file(4, "a", 0, 0));
    assert_eq!(ids_in(&files, 0, 0), vec![3, 4]);
    assert_eq!(files.get_metrics(), (2, 2, 2));
}

#[test]
fn last_added_file_of_a_snapshot_wins() {
    let mut files = PersistedFiles::new();
    files.add_persisted_file(&DB, &TABLE, &sized(1, "a", 5, 7));
    files.add_persisted_snapshot_files(snapshot(
        &[sized(2, "a", 10, 1), sized(3, "b", 20, 2), sized(4, "a", 40, 4)],
        &[],
    ));
    assert_eq!(ids_in(&files, 0, 0), vec![3, 4]);
    assert_eq!(files.get_metrics(), (2, 60, 6));
}

#[test]
fn readding_changes_neither_entries_nor_metrics() {
    let mut files = PersistedFiles::new();
    files.add_persisted_file(&DB, &TABLE, &sized(1, "a", 5, 7));
    files.add_persisted_file(&DB, &TABLE, &sized(2, "b", 6, 8));
    files.add_persisted_file(&DB, &TABLE, &sized(1, "a", 5, 7));
    let once = files.get_files(DB, TABLE);
    assert_eq!(ids(&once), vec![2, 1]);
    assert_eq!(files.get_metrics(), (2, 11, 15));
    files.add_persisted_file(&DB, &TABLE, &sized(1, "a", 5, 7));
    assert_eq!(files.get_files(DB, TABLE), once);
    assert_eq!(files.get_metrics(), (2, 11, 15));
}

#[test]
fn replaced_entry_keeps_its_own_size_out_of_the_metrics() {
    let mut files = PersistedFiles::new();
    files.add_persisted_file(&DB, &TABLE, &sized(1, "a", 100, 9));
    files.add_persisted_file(&DB, &TABLE, &sized(1, "a", 30, 2));
    assert_eq!(files.get_metrics(), (1, 30, 2));
}

#[test]
fn sizes_add_up_beyond_64_bits() {
    let mut files = PersistedFiles::new();
    files.add_persisted_file(&DB, &TABLE, &sized(1, "a", u64::MAX, 0));
    files.add_persisted_file(&DB, &TABLE, &sized(2, "b", u64::MAX, 0));
    assert_eq!(files.get_metrics(), (2, 2 * (u64::MAX as u128), 0));
    files.remove_persisted_files(&DB, &TABLE, &[sized(1, "a", u64::MAX, 0)]);
    assert_eq!(files.get_metrics(), (1, u64::MAX as u128, 0));
}

#[test]
fn snapshot_removals_come_after_its_additions() {
    let mut files = PersistedFiles::new();
    files.add_persisted_snapshot_files(snapshot(
        &[file(1, "a", 0, 0), file(2, "b", 0, 0)],
        &[file(2, "b", 0, 0), file(9, "z", 0, 0)],
    ));
    assert_eq!(ids_in(&files, 0, 0), vec![1]);
    assert_eq!(files.get_metrics(), (1, 1, 1));
}

#[test]
fn snapshot_removals_for_an_unknown_table_are_ignored() {
    let mut files = PersistedFiles::new();
    files.add_persisted_snapshot_files(snapshot(&[], &[file(1, "a", 0, 0)]));
    assert_eq!(files.get_metrics(), (0, 0, 0));
}

#[test]
fn tables_and_databases_are_kept_apart() {
    let mut files = PersistedFiles::new();
    files.add_persisted_file(&DbId(1), &TableId(2), &file(1, "a", 0, 0));
    files.add_persisted_file(&DbId(2), &TableId(1), &file(2, "a", 0, 0));
    files.add_persisted_file(&DbId(1), &TableId(1), &file(3, "a", 0, 0));
    assert_eq!(ids_in(&files, 1, 2), vec![1]);
    assert_eq!(ids_in(&files, 2, 1), vec![2]);
    assert_eq!(ids_in(&files, 1, 1), vec![3]);
    assert!(ids_in(&files, 2, 2).is_empty());
    files.remove_persisted_files(&DbId(1), &TableId(1), &[file(1, "a", 0, 0)]);
    assert_eq!(files.get_metrics(), (3, 3, 3));
}

// -- Removing

#[test]
fn removal_matches_by_id_only() {
    let mut files = from_tables(vec![(
        (DB, TABLE),
        vec![file(1, "a", 0, 0), file(2, "a", 0, 0), file(1, "b", 0, 0), file(3, "c", 0, 0)],
    )]);
    files.remove_persisted_files(&DB, &TABLE, &[file(1, "elsewhere", 5, 5)]);
    assert_eq!(ids_in(&files, 0, 0), vec![2, 3]);
    assert_eq!(files.get_metrics(), (2, 2, 2));
}

#[test]
fn removing_absent_files_changes_nothing() {
    let mut files = PersistedFiles::new();
    files.add_persisted_file(&DB, &TABLE, &file(1, "a", 0, 0));
    files.remove_persisted_files(&DB, &TABLE, &[]);
    files.remove_persisted_files(&DB, &TABLE, &[file(2, "a", 0, 0)]);
    files.remove_persisted_files(&DB, &TableId(1), &[file(1, "a", 0, 0)]);
    files.remove_persisted_files(&DbId(1), &TABLE, &[file(1, "a", 0, 0)]);
    assert_eq!(ids_in(&files, 0, 0), vec![1]);
    assert_eq!(files.get_metrics(), (1, 1, 1));
}

#[test]
fn removing_twice_is_removing_once() {
    let mut files = PersistedFiles::new();
    for id in 0..4 {
        files.add_persisted_file(&DB, &TABLE, &file(id, &format!("{id}"), 0, 0));
    }
    let gone = [file(1, "1", 0, 0), file(3, "3", 0, 0)];
    files.remove_persisted_files(&DB, &TABLE, &gone);
    files.remove_persisted_files(&DB, &TABLE, &gone);
    assert_eq!(ids_in(&files, 0, 0), vec![0, 2]);
    assert_eq!(files.get_metrics(), (2, 2, 2));
}

// -- Loading

#[test]
fn loaded_entry_keeps_the_place_of_its_path() {
    let loaded = PersistedFiles::new_from_persisted_snapshots(vec![
        snapshot(&[file(4, "a", 0, 0)], &[]),
        snapshot(&[file(1, "a", 0, 0), file(2, "b", 0, 0), file(3, "c", 0, 0)], &[]),
    ]);
    // Files with one min_time stay in the order of the index.
    assert_eq!(ids_in(&loaded, 0, 0), vec![4, 2, 3]);
}

#[test]
fn removed_path_that_comes_again_is_loaded_last() {
    let loaded = PersistedFiles::new_from_persisted_snapshots(vec![
        snapshot(&[file(3, "a", 0, 0)], &[]),
        snapshot(&[], &[file(1, "a", 0, 0)]),
        snapshot(&[file(1, "a", 0, 0), file(2, "b", 0, 0)], &[]),
    ]);
    assert_eq!(ids_in(&loaded, 0, 0), vec![2, 3]);
    assert_eq!(loaded.get_metrics(), (2, 2, 2));
}

#[test]
fn newest_snapshot_decides() {
    let loaded = PersistedFiles::new_from_persisted_snapshots(vec![
        snapshot(&[file(5, "a", 0, 0), file(6, "d", 0, 0)], &[file(6, "d", 0, 0)]),
        snapshot(&[file(3, "a", 0, 0), file(4, "c", 0, 0)], &[file(2, "b", 0, 0)]),
        snapshot(&[file(1, "a", 0, 0), file(2, "b", 0, 0)], &[]),
    ]);
    assert_eq!(ids_in(&loaded, 0, 0), vec![5, 4]);
}

#[test]
fn removal_in_an_older_snapshot_does_not_touch_newer_files() {
    let loaded = PersistedFiles::new_from_persisted_snapshots(vec![
        snapshot(&[file(1, "a", 0, 0)], &[]),
        snapshot(&[], &[file(1, "a", 0, 0)]),
    ]);
    assert_eq!(ids_in(&loaded, 0, 0), vec![1]);
}

#[test]
fn loading_no_snapshots_gives_an_empty_index() {
    let loaded = PersistedFiles::new_from_persisted_snapshots(vec![]);
    assert_eq!(loaded.get_metrics(), (0, 0, 0));
}

#[test]
fn loading_keeps_databases_and_tables_apart() {
    let mut newest = PersistedSnapshot::new();
    newest.add_parquet_file(DbId(7), TableId(8), sized(1, "a", 3, 4));
    newest.add_parquet_file(DbId(7), TableId(9), sized(2, "a", 30, 40));
    newest.add_parquet_file(DbId(8), TableId(8), sized(3, "a", 300, 400));
    let loaded = PersistedFiles::new_from_persisted_snapshots(vec![newest]);
    assert_eq!(ids_in(&loaded, 7, 8), vec![1]);
    assert_eq!(ids_in(&loaded, 7, 9), vec![2]);
    assert_eq!(ids_in(&loaded, 8, 8), vec![3]);
    assert_eq!(loaded.get_metrics(), (3, 333, 444));
}

#[test]
fn restart_keeps_the_files() {
    let oldest = || {
        snapshot(
            &[file(1, "a", 0, 0), file(2, "b", 0, 0), file(3, "c", 0, 0), file(4, "a", 0, 0)],
            &[],
        )
    };
    let middle = || snapshot(&[file(5, "b", 0, 0), file(6, "d", 0, 0)], &[file(3, "c", 0, 0)]);
    let newest =
        || snapshot(&[file(7, "d", 0, 0)], &[file(2, "b", 0, 0), file(6, "d", 0, 0)]);

    let mut grown = PersistedFiles::new();
    grown.add_persisted_snapshot_files(oldest());
    grown.add_persisted_snapshot_files(middle());
    grown.add_persisted_snapshot_files(newest());
    let loaded =
        PersistedFiles::new_from_persisted_snapshots(vec![newest(), middle(), oldest()]);

    let mut before = ids_in(&grown, 0, 0);
    let mut after = ids_in(&loaded, 0, 0);
    before.sort();
    after.sort();
    assert_eq!(before, vec![4, 5, 7]);
    assert_eq!(after, before);
    assert_eq!(loaded.get_metrics(), grown.get_metrics());
}

#[test]
fn restart_goes_by_the_path_of_a_removed_id() {
    let older = || snapshot(&[file(1, "a", 0, 0)], &[]);
    let newer = || snapshot(&[], &[file(1, "b", 0, 0)]);
    let mut grown = PersistedFiles::new();
    grown.add_persisted_snapshot_files(older());
    grown.add_persisted_snapshot_files(newer());
    assert!(ids_in(&grown, 0, 0).is_empty());
    let loaded = PersistedFiles::new_from_persisted_snapshots(vec![newer(), older()]);
    assert_eq!(ids_in(&loaded, 0, 0), vec![1]);
}

#[test]
fn loader_tells_when_another_entry_is_replaced() {
    let mut loader = TableLoader::new();
    assert!(!loader.upsert(file(1, "a", 0, 0)));
    assert!(!loader.upsert(file(2, "b", 0, 0)));
    assert!(!loader.upsert(file(1, "a", 5, 5)));
    assert!(loader.upsert(file(3, "a", 6, 6)));
    // An entry that has been superseded is left alone.
    loader.remove(&file(1, "a", 0, 0));
    loader.remove(&file(3, "c", 0, 0));
    loader.remove(&file(2, "b", 0, 0));
    assert!(!loader.upsert(file(4, "b", 0, 0)));
    assert_eq!(loader.into_files(), vec![file(3, "a", 6, 6), file(4, "b", 0, 0)]);
}

// -- Queries

#[test]
fn files_come_newest_first_and_otherwise_in_their_order() {
    let mut files = PersistedFiles::new();
    for (id, min_time) in [(1, 5), (2, 9), (3, 5), (4, -7), (5, 9), (6, i64::MAX)] {
        files.add_persisted_file(&DB, &TABLE, &file(id, &format!("{id}"), min_time, i64::MAX));
    }
    assert_eq!(ids_in(&files, 0, 0), vec![6, 2, 5, 1, 3, 4]);
}

#[test]
fn filter_selects_from_the_ordered_files() {
    let mut files = PersistedFiles::new();
    for (id, min_time, max_time) in [(1, 0, 4), (2, 5, 9), (3, 3, 6), (4, 10, 20), (5, 5, 5)] {
        files.add_persisted_file(&DB, &TABLE, &file(id, &format!("{id}"), min_time, max_time));
    }
    let filter = ChunkFilter { time_lower_bound_ns: Some(5), time_upper_bound_ns: Some(9) };
    let all = files.get_files(DB, TABLE);
    assert_eq!(ids(&all), vec![4, 2, 5, 3, 1]);
    let expected: Vec<ParquetFile> =
        all.into_iter().filter(|f| f.max_time >= 5 && f.min_time <= 9).collect();
    let filtered = files.get_files_filtered(DB, TABLE, &filter);
    assert_eq!(filtered, expected);
    assert_eq!(ids(&filtered), vec![2, 5, 3]);
}

#[test]
fn filter_bounds_are_inclusive() {
    let from = |t| ChunkFilter { time_lower_bound_ns: Some(t), time_upper_bound_ns: None };
    let to = |t| ChunkFilter { time_lower_bound_ns: None, time_upper_bound_ns: Some(t) };
    assert!(from(20).test_time_stamp_min_max(10, 20));
    assert!(!from(21).test_time_stamp_min_max(10, 20));
    assert!(to(10).test_time_stamp_min_max(10, 20));
    assert!(!to(9).test_time_stamp_min_max(10, 20));
    assert!(ChunkFilter::default().test_time_stamp_min_max(i64::MIN, i64::MIN));
    let both = ChunkFilter { time_lower_bound_ns: Some(21), time_upper_bound_ns: Some(30) };
    assert!(!both.test_time_stamp_min_max(10, 20));
    assert!(both.test_time_stamp_min_max(10, 21));
    assert!(!both.test_time_stamp_min_max(31, 40));
}

// -- Deletion

#[test]
fn retention_removes_what_is_older_than_the_cutoff() {
    let mut files = PersistedFiles::new();
    for (id, max_time) in [(1, 99), (2, 100), (3, 101), (4, -5)] {
        files.add_persisted_file(&DB, &TABLE, &file(id, &format!("{id}"), 0, max_time));
    }
    files.add_persisted_file(&DB, &TableId(1), &file(5, "5", 0, 0));
    let removed = files.remove_files_for_deletion(&cutoffs(&[(0, 0, 100), (3, 3, 100)]));
    assert_eq!(removed.len(), 1);
    assert_eq!(listed(&removed, 0, 0), vec![1, 4]);
    assert_eq!(ids_in(&files, 0, 0), vec![2, 3]);
    // A table without a cutoff is left alone.
    assert_eq!(ids_in(&files, 0, 1), vec![5]);
    assert_eq!(files.get_metrics(), (3, 3, 3));
}

#[test]
fn nothing_is_left_to_be_removed() {
    let mut files = PersistedFiles::new();
    files.add_persisted_file(&DB, &TABLE, &file(1, "1", 0, 10));
    files.add_persisted_file(&DbId(1), &TABLE, &file(2, "2", 0, 10));
    files.add_persisted_file(&DbId(1), &TABLE, &file(3, "3", 0, 90));
    files.delete_database(DB);
    let limits = cutoffs(&[(1, 0, 50)]);
    let removed = files.remove_files_for_deletion(&limits);
    assert_eq!(removed.len(), 2);
    let again = files.remove_files_for_deletion(&limits);
    assert!(again.is_empty());
    assert_eq!(files.get_metrics(), (1, 1, 1));
}

#[test]
fn marks_stay_where_nothing_is_removed() {
    let mut files = PersistedFiles::new();
    files.add_persisted_file(&DB, &TABLE, &file(1, "1", 0, 10));
    files.delete_database(DbId(5));
    files.delete_table(DB, TableId(8));
    assert_eq!(files.inner.deleted_data.len(), 2);
    assert!(files.remove_files_for_deletion(&cutoffs(&[])).is_empty());
    assert_eq!(files.inner.deleted_data.len(), 2);
    // Files that come later to what is marked are removed then.
    files.add_persisted_file(&DbId(5), &TABLE, &file(2, "2", 0, 10));
    let removed = files.remove_files_for_deletion(&cutoffs(&[]));
    assert_eq!(listed(&removed, 5, 0), vec![2]);
    assert_eq!(files.inner.deleted_data.len(), 0);
    assert_eq!(ids_in(&files, 0, 0), vec![1]);
}

#[test]
fn deleted_database_stays_deleted_as_a_whole() {
    let mut files = PersistedFiles::new();
    files.add_persisted_file(&DB, &TableId(1), &file(1, "1", 0, 10));
    files.add_persisted_file(&DB, &TableId(2), &file(2, "2", 0, 10));
    files.delete_database(DB);
    files.delete_table(DB, TableId(1));
    let removed = files.remove_files_for_deletion(&cutoffs(&[]));
    assert_eq!(removed.get(&DB).unwrap().tables.len(), 2);
    assert_eq!(files.get_metrics(), (0, 0, 0));
}

#[test]
fn deleting_a_database_covers_its_deleted_tables() {
    let mut files = PersistedFiles::new();
    files.add_persisted_file(&DB, &TableId(1), &file(1, "1", 0, 10));
    files.add_persisted_file(&DB, &TableId(2), &file(2, "2", 0, 10));
    files.delete_table(DB, TableId(1));
    files.delete_table(DB, TableId(1));
    files.delete_database(DB);
    assert_eq!(files.inner.deleted_data.len(), 1);
    let removed = files.remove_files_for_deletion(&cutoffs(&[]));
    assert_eq!(listed(&removed, 0, 1), vec![1]);
    assert_eq!(listed(&removed, 0, 2), vec![2]);
}

#[test]
fn deleted_table_loses_its_files_whatever_its_cutoff() {
    let mut files = PersistedFiles::new();
    files.add_persisted_file(&DB, &TABLE, &file(1, "1", 0, 10));
    files.add_persisted_file(&DB, &TABLE, &file(2, "2", 0, 1_000));
    files.add_persisted_file(&DB, &TableId(1), &file(3, "3", 0, 10));
    files.add_persisted_file(&DB, &TableId(1), &file(4, "4", 0, 1_000));
    files.delete_table(DB, TABLE);
    let removed = files.remove_files_for_deletion(&cutoffs(&[(0, 0, 50), (0, 1, 50)]));
    assert_eq!(listed(&removed, 0, 0), vec![1, 2]);
    assert_eq!(listed(&removed, 0, 1), vec![3]);
    assert_eq!(ids_in(&files, 0, 1), vec![4]);
}

#[test]
fn each_id_is_listed_once() {
    let mut files = from_tables(vec![
        ((DB, TABLE), vec![file(1, "a", 0, 10), file(1, "b", 0, 10), file(2, "c", 0, 10)]),
        ((DbId(1), TABLE), vec![file(2, "d", 0, 10), file(3, "e", 0, 1_000)]),
        ((DbId(2), TABLE), vec![file(1, "f", 0, 1_000), file(4, "g", 0, 1_000)]),
    ]);
    files.delete_table(DB, TABLE);
    let removed = files.remove_files_for_deletion(&cutoffs(&[(1, 0, 50)]));
    // What a deleted table holds is listed with it.
    assert_eq!(listed(&removed, 0, 0), vec![1, 2]);
    assert_eq!(removed.len(), 1);
    let first = &removed.get(&DB).unwrap().tables.get(&TABLE).unwrap()[0];
    assert_eq!(first.path, "a");
    // The file of the other table that is too old goes with its id listed already.
    assert_eq!(ids_in(&files, 1, 0), vec![3]);
    // A table that is neither marked nor too old keeps an entry that shares an id.
    assert_eq!(ids_in(&files, 2, 0), vec![1, 4]);
    assert_eq!(files.get_metrics(), (3, 3, 3));
}

#[test]
fn entry_in_a_table_that_is_not_marked_stays() {
    let f = ParquetFile {
        id: ParquetFileId(3),
        path: "a.parquet".to_string(),
        size_bytes: 6_750,
        row_count: 12,
        chunk_time: 10,
        min_time: 10,
        max_time: 200,
    };
    let mut files = PersistedFiles::new();
    files.add_persisted_file(&DB, &TableId(0), &f);
    files.add_persisted_file(&DB, &TableId(1), &f);
    files.delete_table(DB, TableId(0));
    let removed = files.remove_files_for_deletion(&cutoffs(&[]));
    assert_eq!(removed.len(), 1);
    assert_eq!(removed.get(&DB).unwrap().tables.len(), 1);
    assert_eq!(removed.get(&DB).unwrap().tables.get(&TableId(0)), Some(&vec![f.clone()]));
    assert!(files.get_files(DB, TableId(0)).is_empty());
    assert_eq!(files.get_files(DB, TableId(1)), vec![f]);
    assert_eq!(files.get_metrics(), (1, 6_750, 12));
}

#[test]
fn newer_entry_with_the_id_of_one_that_is_too_old_stays() {
    let mut files = from_tables(vec![(
        (DB, TABLE),
        vec![file(1, "a", 0, 10), file(1, "b", 0, 90), file(1, "c", 0, 20)],
    )]);
    let removed = files.remove_files_for_deletion(&cutoffs(&[(0, 0, 50)]));
    assert_eq!(listed(&removed, 0, 0), vec![1]);
    assert_eq!(removed.get(&DB).unwrap().tables.get(&TABLE).unwrap()[0].path, "a");
    assert_eq!(files.get_files(DB, TABLE), vec![file(1, "b", 0, 90)]);
    assert_eq!(files.get_metrics(), (1, 1, 1));
}

#[test]
fn just_the_marked_files_are_removed() {
    let mut files = PersistedFiles::new();
    for db in 0..3_u32 {
        for table in 0..3_u32 {
            for n in 0..3_i64 {
                let id = (db * 9 + table * 3) as u64 + n as u64;
                files.add_persisted_file(
                    &DbId(db),
                    &TableId(table),
                    &file(id, &format!("{id}"), 0, n * 10),
                );
            }
        }
    }
    files.delete_database(DbId(0));
    files.delete_table(DbId(1), TableId(1));
    let removed = files.remove_files_for_deletion(&cutoffs(&[(2, 2, 10), (0, 0, 10), (1, 1, 10)]));
    assert_eq!(removed.len(), 3);
    for table in 0..3_u32 {
        let first = (table * 3) as u64;
        assert_eq!(listed(&removed, 0, table), vec![first, first + 1, first + 2]);
        assert!(ids_in(&files, 0, table).is_empty());
    }
    assert_eq!(listed(&removed, 1, 1), vec![12, 13, 14]);
    assert_eq!(removed.get(&DbId(1)).unwrap().tables.len(), 1);
    assert_eq!(listed(&removed, 2, 2), vec![24]);
    assert_eq!(removed.get(&DbId(2)).unwrap().tables.len(), 1);
    assert_eq!(ids_in(&files, 1, 0), vec![9, 10, 11]);
    assert_eq!(ids_in(&files, 2, 2), vec![25, 26]);
    assert_eq!(files.get_metrics(), (14, 14, 14));
}

#[test]
fn files_added_between_the_two_steps_of_a_deletion_stay() {
    let mut files = PersistedFiles::new();
    files.add_persisted_file(&DB, &TABLE, &file(1, "1", 0, 10));
    files.delete_table(DB, TABLE);
    let pending = files.inner.files_for_deletion(&cutoffs(&[]));
    assert_eq!(listed(&pending.removed, 0, 0), vec![1]);
    files.add_persisted_file(&DB, &TABLE, &file(2, "2", 0, 10));
    files.inner.finish_deletion(&pending.removals);
    assert_eq!(ids_in(&files, 0, 0), vec![2]);
    assert_eq!(files.get_metrics(), (1, 1, 1));
    assert_eq!(files.inner.deleted_data.len(), 0);
}

// -- Counters

#[test]
fn room_for_a_file_ends_with_the_row_counter() {
    let mut files = PersistedFiles::new();
    files.add_persisted_file(&DB, &TABLE, &sized(1, "a", 0, u64::MAX - 1));
    assert!(files.inner.has_room_for_file(&DB, &TABLE, &sized(2, "b", 0, 1)));
    assert!(!files.inner.has_room_for_file(&DB, &TABLE, &sized(2, "b", 0, 2)));
    // What the file replaces makes room.
    assert!(files.inner.has_room_for_file(&DB, &TABLE, &sized(2, "a", 0, u64::MAX)));
    assert!(!files.inner.has_room_for_file(&DB, &TableId(1), &sized(2, "a", 0, u64::MAX)));
}

#[test]
fn room_for_a_snapshot_ends_with_the_row_counter() {
    let mut files = PersistedFiles::new();
    files.add_persisted_file(&DB, &TABLE, &sized(1, "a", 0, u64::MAX - 2));
    let fits = snapshot(&[sized(2, "b", 0, 1), sized(3, "c", 0, 1)], &[]);
    assert!(files.inner.has_room_for_snapshot(&fits));
    let too_many = snapshot(&[sized(2, "b", 0, 1), sized(3, "a", 0, 2)], &[]);
    assert!(!files.inner.has_room_for_snapshot(&too_many));
    files.add_persisted_snapshot_files(fits);
    assert_eq!(files.get_metrics(), (3, 0, u64::MAX));
}

#[test]
fn loading_more_rows_than_can_be_counted_gives_no_index() {
    let rows = |id, path: &str| sized(id, path, 0, u64::MAX);
    let too_many = vec![snapshot(&[rows(1, "a"), rows(2, "b")], &[])];
    assert!(Inner::checked_new_from_persisted_snapshots(too_many).is_none());
    // Only what stays is counted.
    let collapsed = vec![snapshot(&[rows(1, "a"), rows(2, "a")], &[])];
    let inner = Inner::checked_new_from_persisted_snapshots(collapsed).unwrap();
    assert_eq!(inner.parquet_files_row_count, u64::MAX);
    assert_eq!(inner.parquet_files_count, 1);
    let tables = vec![((DB, TABLE), vec![rows(1, "a"), rows(2, "a")])];
    assert!(Inner::checked_from_tables(tables).is_none());
}

#[test]
fn removed_counts_files_bytes_and_rows() {
    let mut removed = Removed::default();
    removed.add(&sized(1, "a", u64::MAX, 3));
    removed.add(&sized(2, "b", 1, 4));
    assert_eq!((removed.count, removed.size_bytes, removed.rows), (2, 1_u128 << 64, 7));
    let mut inner = Inner::new();
    inner.parquet_files_size_bytes = ByteBalance::new(1_u128 << 65);
    inner.parquet_files_count = 1;
    inner.parquet_files_row_count = 9;
    inner.subtract(&removed);
    assert_eq!(inner.parquet_files_count, 0);
    assert!(!inner.parquet_files_size_bytes.below_zero);
    assert_eq!(inner.parquet_files_size_bytes.magnitude, 1_u128 << 64);
    assert_eq!(inner.parquet_files_row_count, 2);
}

#[test]
fn subtracting_more_than_there_is_takes_the_size_below_zero() {
    let mut inner = Inner::new();
    inner.subtract(&Removed { count: 1, size_bytes: 500_000, rows: 1 });
    assert_eq!(inner.parquet_files_count, 0);
    assert_eq!(inner.parquet_files_row_count, 0);
    assert!(inner.parquet_files_size_bytes.below_zero);
    assert_eq!(inner.parquet_files_size_bytes.magnitude, 500_000);
    inner.subtract(&Removed { count: 0, size_bytes: u128::MAX, rows: 0 });
    assert!(inner.parquet_files_size_bytes.below_zero);
    assert_eq!(inner.parquet_files_size_bytes.magnitude, u128::MAX);
}

#[test]
fn byte_balance_comes_back_above_zero() {
    let mut balance = ByteBalance::new(3);
    balance.subtract(10);
    assert_eq!((balance.below_zero, balance.magnitude), (true, 7));
    balance.add(2);
    assert_eq!((balance.below_zero, balance.magnitude), (true, 5));
    balance.add(9);
    assert_eq!((balance.below_zero, balance.magnitude), (false, 4));
    balance.add(u128::MAX - 4);
    assert_eq!((balance.below_zero, balance.magnitude), (false, u128::MAX));
}

#[test]
fn upserting_counts_only_what_is_replaced() {
    let mut inner = Inner::new();
    let mut replaced = Removed::new();
    for (id, path) in [(1, "a"), (2, "b"), (3, "c")] {
        inner.upsert_file(&DB, &TABLE, &sized(id, path, 9, u64::MAX), &mut replaced);
    }
    assert_eq!((replaced.count, replaced.size_bytes, replaced.rows), (0, 0, 0));
    inner.upsert_file(&DB, &TABLE, &sized(4, "b", 1, 1), &mut replaced);
    assert_eq!((replaced.count, replaced.size_bytes, replaced.rows), (1, 9, u64::MAX));
    let files = PersistedFiles { inner };
    assert_eq!(ids_in(&files, 0, 0), vec![1, 3, 4]);
}

// -- What was replaced

#[test]
fn replaced_entries_are_those_that_differ() {
    let files = from_tables(vec![(
        (DB, TABLE),
        vec![
            file(1, "a", 0, 0),
            file(2, "a", 0, 0),
            file(1, "a", 0, 7),
            file(1, "b", 0, 0),
            file(1, "a", 0, 0),
        ],
    )]);
    let replaced = files.inner.replaced_entries(&DB, &TABLE, &file(1, "a", 0, 0));
    assert_eq!(replaced, vec![file(2, "a", 0, 0), file(1, "a", 0, 7)]);
    assert!(files.inner.replaced_entries(&DB, &TableId(1), &file(9, "a", 0, 0)).is_empty());
    assert!(files.inner.replaced_entries(&DbId(1), &TABLE, &file(9, "a", 0, 0)).is_empty());
}

#[test]
fn snapshot_reports_what_it_replaces() {
    let mut files = PersistedFiles::new();
    files.add_persisted_file(&DB, &TABLE, &file(1, "a", 0, 0));
    files.add_persisted_file(&DB, &TABLE, &file(2, "b", 0, 0));
    let report = files.inner.add_persisted_snapshot_reporting(snapshot(
        &[file(3, "a", 0, 0), file(2, "b", 0, 0), file(4, "a", 0, 0), file(5, "c", 0, 0)],
        &[],
    ));
    assert_eq!(
        report,
        vec![
            Replacement { replaced: file(1, "a", 0, 0), by: file(3, "a", 0, 0) },
            Replacement { replaced: file(3, "a", 0, 0), by: file(4, "a", 0, 0) },
        ]
    );
    assert_eq!(ids_in(&files, 0, 0), vec![2, 4, 5]);
}

#[test]
fn loading_counts_the_collapsed_entries() {
    let (inner, collapsed) = Inner::checked_new_counting_collapsed(vec![
        snapshot(&[file(5, "a", 0, 0), file(3, "b", 1, 1), file(6, "d", 0, 0)], &[]),
        snapshot(&[file(4, "c", 0, 0)], &[file(2, "d", 0, 0)]),
        snapshot(
            &[file(1, "a", 0, 0), file(3, "b", 0, 0), file(2, "d", 0, 0), file(7, "a", 0, 0)],
            &[],
        ),
    ]);
    // "a" twice; "b" comes again with its own id, and "d" after it was removed.
    assert_eq!(collapsed, 2);
    let files = PersistedFiles { inner: inner.unwrap() };
    assert_eq!(ids_in(&files, 0, 0), vec![3, 5, 4, 6]);
    assert_eq!(Inner::checked_new_counting_collapsed(vec![]).1, 0);
}

#[test]
fn snapshot_is_its_single_steps() {
    let start = || {
        let mut files = PersistedFiles::new();
        files.add_persisted_file(&DB, &TABLE, &sized(1, "a", 5, 50));
        files.add_persisted_file(&DB, &TABLE, &sized(2, "b", 6, 60));
        files.add_persisted_file(&DbId(1), &TABLE, &sized(2, "b", 7, 70));
        files
    };
    let added = [
        (DB, sized(3, "b", 10, 1)),
        (DB, sized(4, "c", 20, 2)),
        (DB, sized(5, "b", 30, 3)),
        (DbId(1), sized(6, "b", 40, 4)),
        (DbId(2), sized(7, "d", 50, 5)),
    ];
    let gone = [sized(1, "a", 0, 0), sized(4, "elsewhere", 0, 0), sized(9, "z", 0, 0)];

    let mut taken_in = snapshot(&[], &gone);
    for (db, f) in &added {
        taken_in.add_parquet_file(*db, TABLE, f.clone());
    }
    let mut at_once = start();
    at_once.add_persisted_snapshot_files(taken_in);

    let mut one_by_one = start();
    for (db, f) in &added {
        one_by_one.add_persisted_file(db, &TABLE, f);
    }
    one_by_one.remove_persisted_files(&DB, &TABLE, &gone);

    for db in 0..3 {
        assert_eq!(
            at_once.get_files(DbId(db), TABLE),
            one_by_one.get_files(DbId(db), TABLE)
        );
    }
    assert_eq!(ids_in(&at_once, 0, 0), vec![5]);
    assert_eq!(ids_in(&at_once, 1, 0), vec![6]);
    assert_eq!(at_once.get_metrics(), (3, 120, 12));
    assert_eq!(one_by_one.get_metrics(), (3, 120, 12));
}

#[test]
fn snapshot_leaves_other_tables_alone() {
    let mut files = PersistedFiles::new();
    files.add_persisted_file(&DB, &TableId(1), &file(1, "a", 0, 0));
    files.add_persisted_file(&DbId(1), &TABLE, &file(2, "b", 0, 0));
    files.delete_table(DbId(3), TABLE);
    files.add_persisted_snapshot_files(snapshot(
        &[file(3, "a", 0, 0), file(4, "b", 0, 0)],
        &[file(1, "a", 0, 0), file(2, "b", 0, 0)],
    ));
    assert_eq!(ids_in(&files, 0, 1), vec![1]);
    assert_eq!(ids_in(&files, 1, 0), vec![2]);
    assert_eq!(ids_in(&files, 0, 0), vec![3, 4]);
    assert_eq!(files.inner.deleted_data.len(), 1);
}

#[test]
fn index_keeps_one_entry_per_path_through_any_operations() {
    let mut files = PersistedFiles::new_from_persisted_snapshots(vec![snapshot(
        &[file(1, "a", 0, 50), file(2, "a", 0, 50), file(3, "b", 0, 50)],
        &[],
    )]);
    files.add_persisted_file(&DB, &TABLE, &file(4, "b", 0, 50));
    files.add_persisted_snapshot_files(snapshot(&[file(5, "a", 0, 9), file(6, "c", 0, 50)], &[]));
    files.remove_persisted_files(&DB, &TABLE, &[file(6, "c", 0, 50)]);
    files.add_persisted_file(&DB, &TABLE, &file(7, "c", 0, 50));
    files.remove_files_for_deletion(&cutoffs(&[(0, 0, 10)]));
    let paths: Vec<String> = files.get_files(DB, TABLE).into_iter().map(|f| f.path).collect();
    assert_eq!(paths, vec!["b".to_string(), "c".to_string()]);
    assert_eq!(files.get_metrics(), (2, 2, 2));
}

// -- Maps that keep their order

#[test]
fn vec_map_keeps_the_place_of_a_key() {
    let mut map: VecMap<DbId, u8> = VecMap::new();
    assert!(map.is_empty());
    map.insert(DbId(3), 1);
    map.insert(DbId(1), 2);
    map.insert(DbId(3), 4);
    assert_eq!(map.entries, vec![(DbId(3), 4), (DbId(1), 2)]);
    assert_eq!(map.len(), 2);
    assert_eq!(map.get(&DbId(3)), Some(&4));
    assert_eq!(map.get(&DbId(2)), None);
}
