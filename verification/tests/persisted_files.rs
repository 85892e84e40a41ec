use persisted_files::ids::{DbId, ParquetFileId, TableId};
use persisted_files::inner::Inner;
use persisted_files::model::TableKey;
use persisted_files::parquet::ParquetFile;
use persisted_files::persisted_files::PersistedFiles;
use persisted_files::query::ChunkFilter;
use persisted_files::snapshot::{DatabaseTables, PersistedSnapshot};
use persisted_files::vec_map::VecMap;
use std::sync::atomic::{AtomicU64, Ordering};

static NEXT_ID: AtomicU64 = AtomicU64::new(0);

fn next_file_id() -> ParquetFileId {
    ParquetFileId::from(NEXT_ID.fetch_add(1, Ordering::SeqCst))
}

fn as_mb(bytes: u128) -> f64 {
    let factor = (1_000 * 1_000) as f64;
    bytes as f64 / factor
}

/// The metrics with the size in MB.
fn metrics_in_mb(persisted_files: &PersistedFiles) -> (u64, f64, u64) {
    let (file_count, size_bytes, row_count) = persisted_files.get_metrics();
    (file_count, as_mb(size_bytes), row_count)
}

fn no_cutoffs() -> VecMap<TableKey, i64> {
    VecMap::new()
}

fn build_persisted_snapshots() -> Vec<PersistedSnapshot> {
    let mut all_persisted_snapshot_files = Vec::new();
    let parquet_files_1 = build_parquet_files("snap1_", 5);
    all_persisted_snapshot_files.push(build_snapshot(parquet_files_1));

    let parquet_files_2 = build_parquet_files("snap2_", 5);
    all_persisted_snapshot_files.push(build_snapshot(parquet_files_2));

    all_persisted_snapshot_files
}

fn build_snapshot(parquet_files: Vec<ParquetFile>) -> PersistedSnapshot {
    let mut new_snapshot = PersistedSnapshot::new();
    parquet_files.into_iter().for_each(|file| {
        new_snapshot.add_parquet_file(DbId::from(0), TableId::from(0), file);
    });
    new_snapshot
}

fn build_parquet_files(prefix: &str, num_files: u32) -> Vec<ParquetFile> {
    (0..num_files)
        .map(|i| ParquetFile {
            id: next_file_id(),
            path: format!("/random/path/{prefix}_{i}.parquet"),
            size_bytes: 50_000,
            row_count: 10,
            chunk_time: 10,
            min_time: 10,
            max_time: 200,
        })
        .collect()
}

#[test]
fn test_get_metrics_after_initial_load() {
    let all_persisted_snapshot_files = build_persisted_snapshots();
    let persisted_file = PersistedFiles::new_from_persisted_snapshots(all_persisted_snapshot_files);

    let (file_count, size_in_mb, row_count) = metrics_in_mb(&persisted_file);

    assert_eq!(10, file_count);
    assert_eq!(0.5, size_in_mb);
    assert_eq!(100, row_count);
}

#[test]
fn test_get_metrics_after_update() {
    let all_persisted_snapshot_files = build_persisted_snapshots();
    let mut persisted_file =
        PersistedFiles::new_from_persisted_snapshots(all_persisted_snapshot_files);
    let parquet_files = build_parquet_files("update_", 5);
    let new_snapshot = build_snapshot(parquet_files);
    persisted_file.add_persisted_snapshot_files(new_snapshot);

    let (file_count, size_in_mb, row_count) = metrics_in_mb(&persisted_file);

    assert_eq!(15, file_count);
    assert_eq!(0.75, size_in_mb);
    assert_eq!(150, row_count);
}

#[test]
fn test_get_metrics_after_update_with_duplicate_file() {
    let all_persisted_snapshot_files = build_persisted_snapshots();
    let already_existing_file = all_persisted_snapshot_files
        .last()
        .unwrap()
        .databases
        .get(&DbId::from(0))
        .unwrap()
        .tables
        .get(&TableId::from(0))
        .unwrap()
        .last()
        .cloned()
        .unwrap();

    let mut persisted_file =
        PersistedFiles::new_from_persisted_snapshots(all_persisted_snapshot_files);
    let mut parquet_files = build_parquet_files("update_", 4);
    parquet_files.push(already_existing_file);

    let new_snapshot = build_snapshot(parquet_files);
    persisted_file.add_persisted_snapshot_files(new_snapshot);

    let (file_count, size_in_mb, row_count) = metrics_in_mb(&persisted_file);

    assert_eq!(14, file_count);
    // Metrics count the files actually in the index; re-adding an already indexed file
    // does not count it twice.
    assert!((size_in_mb - 0.70).abs() < 1e-9, "size_in_mb = {size_in_mb}");
    assert_eq!(140, row_count);
}

/// The filter for times after `after` and before `before`.
fn between(after: Option<i64>, before: Option<i64>) -> ChunkFilter {
    ChunkFilter {
        time_lower_bound_ns: after.map(|t| t + 1),
        time_upper_bound_ns: before.map(|t| t - 1),
    }
}

#[test]
fn test_get_files_with_filters() {
    let parquet_files = (0..100)
        .step_by(10)
        .map(|i| {
            let chunk_time = i;
            ParquetFile {
                id: next_file_id(),
                path: format!("/path/{i:03}.parquet"),
                size_bytes: 1,
                row_count: 1,
                chunk_time,
                min_time: chunk_time,
                max_time: chunk_time + 10,
            }
        })
        .collect();
    let persisted_snapshots = vec![build_snapshot(parquet_files)];
    let persisted_files = PersistedFiles::new_from_persisted_snapshots(persisted_snapshots);

    struct TestCase {
        filter: ChunkFilter,
        expected_n_files: usize,
    }

    let test_cases = [
        TestCase { filter: between(None, None), expected_n_files: 10 },
        TestCase { filter: between(Some(0), None), expected_n_files: 10 },
        TestCase { filter: between(Some(50), None), expected_n_files: 5 },
        TestCase { filter: between(Some(90), None), expected_n_files: 1 },
        TestCase { filter: between(Some(100), None), expected_n_files: 0 },
        TestCase { filter: between(None, Some(100)), expected_n_files: 10 },
        TestCase { filter: between(None, Some(50)), expected_n_files: 5 },
        TestCase { filter: between(None, Some(10)), expected_n_files: 1 },
        TestCase { filter: between(None, Some(0)), expected_n_files: 0 },
        TestCase { filter: between(Some(20), Some(40)), expected_n_files: 2 },
        TestCase { filter: between(Some(20), Some(30)), expected_n_files: 1 },
        TestCase { filter: between(Some(21), Some(29)), expected_n_files: 1 },
        TestCase { filter: between(Some(0), Some(100)), expected_n_files: 10 },
    ];

    for t in test_cases {
        let filtered_files =
            persisted_files.get_files_filtered(DbId::from(0), TableId::from(0), &t.filter);
        assert_eq!(
            t.expected_n_files,
            filtered_files.len(),
            "wrong number of filtered files:\n\
            result: {filtered_files:?}\n\
            filter provided: {:?}",
            t.filter
        );
    }
}

#[test]
fn test_remove_files_for_deletion_deleted_database() {
    let parquet_files = build_parquet_files("file_", 5);
    let mut snapshot = build_snapshot(parquet_files.clone());

    // Add files to a second database
    let db_id2 = DbId::from(1);
    let table_id2 = TableId::from(1);
    let more_files = build_parquet_files("db2_", 3);
    for file in more_files.iter() {
        snapshot.add_parquet_file(db_id2, table_id2, file.clone());
    }

    let mut persisted_files = PersistedFiles::new_from_persisted_snapshots(vec![snapshot]);

    // Delete the first database
    persisted_files.delete_database(DbId::from(0));

    let removed = persisted_files.remove_files_for_deletion(&no_cutoffs());

    // Verify all files from database 0 are removed
    assert_eq!(removed.len(), 1);
    let db_tables = removed.get(&DbId::from(0)).unwrap();
    assert_eq!(db_tables.tables.len(), 1);
    let table_files = db_tables.tables.get(&TableId::from(0)).unwrap();
    assert_eq!(table_files.len(), 5);

    // Verify database 1 files remain
    let remaining_files = persisted_files.get_files(db_id2, table_id2);
    assert_eq!(remaining_files.len(), 3);

    // Verify metrics are updated
    let (file_count, size_mb, row_count) = metrics_in_mb(&persisted_files);
    assert_eq!(file_count, 3);
    assert!((size_mb - 0.15).abs() < 0.0001); // 3 files * 50_000 bytes (check with epsilon for floating point)
    assert_eq!(row_count, 30); // 3 files * 10 rows
}

#[test]
fn test_remove_files_for_deletion_deleted_tables() {
    let parquet_files = build_parquet_files("file_", 3);
    let mut snapshot = build_snapshot(parquet_files.clone());

    // Add files to multiple tables in the same database
    let db_id = DbId::from(0);
    let table_id1 = TableId::from(0);
    let table_id2 = TableId::from(1);
    let table_id3 = TableId::from(2);

    let table2_files = build_parquet_files("table2_", 4);
    for file in table2_files.iter() {
        snapshot.add_parquet_file(db_id, table_id2, file.clone());
    }

    let table3_files: Vec<ParquetFile> = build_parquet_files("table_3", 2);
    for file in table3_files.iter() {
        snapshot.add_parquet_file(db_id, table_id3, file.clone());
    }

    let mut persisted_files = PersistedFiles::new_from_persisted_snapshots(vec![snapshot]);

    // Delete specific tables
    persisted_files.delete_table(db_id, table_id1);
    persisted_files.delete_table(db_id, table_id3);

    let removed = persisted_files.remove_files_for_deletion(&no_cutoffs());

    // Verify only tables 1 and 3 are removed
    assert_eq!(removed.len(), 1);
    let db_tables = removed.get(&db_id).unwrap();
    assert_eq!(db_tables.tables.len(), 2);

    let table1_removed = db_tables.tables.get(&table_id1).unwrap();
    assert_eq!(table1_removed.len(), 3);

    let table3_removed = db_tables.tables.get(&table_id3).unwrap();
    assert_eq!(table3_removed.len(), 2);

    // Verify table 2 remains
    let table2_remaining = persisted_files.get_files(db_id, table_id2);
    assert_eq!(table2_remaining.len(), 4);

    // Verify metrics
    let (file_count, size_mb, row_count) = metrics_in_mb(&persisted_files);
    assert_eq!(file_count, 4);
    assert_eq!(size_mb, 0.2); // 4 files * 50_000 bytes
    assert_eq!(row_count, 40); // 4 files * 10 rows
}

#[test]
fn test_remove_files_for_deletion_clears_deleted_data() {
    let parquet_files = build_parquet_files("file_", 3);
    let snapshot = build_snapshot(parquet_files.clone());
    let mut persisted_files = PersistedFiles::new_from_persisted_snapshots(vec![snapshot]);

    // Delete a database
    persisted_files.delete_database(DbId::from(0));

    // Verify deleted_data is populated
    assert_eq!(persisted_files.inner.deleted_data.len(), 1);

    persisted_files.remove_files_for_deletion(&no_cutoffs());

    // Verify deleted_data is cleared after removal
    assert_eq!(persisted_files.inner.deleted_data.len(), 0);
}

fn parquet_file(id: u64, path: &str, size_bytes: u64, row_count: u64) -> ParquetFile {
    ParquetFile {
        id: ParquetFileId::from(id),
        path: path.to_string(),
        size_bytes,
        row_count,
        chunk_time: 10,
        min_time: 10,
        max_time: 200,
    }
}

fn assert_metrics(persisted_files: &PersistedFiles, count: u64, size_bytes: u128, rows: u64) {
    let (file_count, size, row_count) = persisted_files.get_metrics();
    assert_eq!(file_count, count, "file count");
    assert_eq!(size, size_bytes, "size in bytes");
    let (_, size_mb, _) = metrics_in_mb(persisted_files);
    assert!(
        (size_mb - as_mb(size_bytes)).abs() < 1e-9,
        "size_mb = {size_mb}, expected {}",
        as_mb(size_bytes)
    );
    assert_eq!(row_count, rows, "row count");
}

#[test]
fn remove_persisted_files_matches_by_id_not_path() {
    let db_id = DbId::from(0);
    let table_id = TableId::from(0);
    let stale = parquet_file(1, "gen2/2026-09-18/00-00/0.parquet", 6_730, 10);
    let valid = parquet_file(2, "gen2/2026-09-18/00-00/0.parquet", 6_750, 12);
    let other = parquet_file(3, "gen2/2026-09-18/01-00/0.parquet", 1_000, 5);

    // Reproduce the damaged state (two entries for one path) directly in the index; adding
    // files does not lead to it.
    let mut persisted_files = PersistedFiles {
        inner: Inner::checked_from_tables(vec![(
            (db_id, table_id),
            vec![stale.clone(), valid.clone(), other.clone()],
        )])
        .unwrap(),
    };
    assert_metrics(&persisted_files, 3, 6_730 + 6_750 + 1_000, 27);

    persisted_files.remove_persisted_files(&db_id, &table_id, std::slice::from_ref(&stale));

    let mut remaining = persisted_files.get_files(db_id, table_id);
    remaining.sort_by_key(|f| f.id);
    assert_eq!(remaining, vec![valid, other]);
    assert_metrics(&persisted_files, 2, 6_750 + 1_000, 17);

    // Removing a file that is not indexed is a no-op, including for the metrics.
    persisted_files.remove_persisted_files(&db_id, &table_id, &[stale]);
    assert_eq!(persisted_files.get_files(db_id, table_id).len(), 2);
    assert_metrics(&persisted_files, 2, 6_750 + 1_000, 17);
}

#[test]
fn add_persisted_file_replaces_entry_with_same_path() {
    let db_id = DbId::from(0);
    let table_id = TableId::from(0);
    let old = parquet_file(1, "gen2/2026-09-18/00-00/0.parquet", 6_730, 10);
    let other = parquet_file(2, "gen2/2026-09-18/01-00/0.parquet", 1_000, 5);
    let new = parquet_file(3, "gen2/2026-09-18/00-00/0.parquet", 6_750, 12);

    let mut persisted_files = PersistedFiles::new();
    persisted_files.add_persisted_file(&db_id, &table_id, &old);
    persisted_files.add_persisted_file(&db_id, &table_id, &other);
    assert_metrics(&persisted_files, 2, 6_730 + 1_000, 15);

    persisted_files.add_persisted_file(&db_id, &table_id, &new);
    let mut files = persisted_files.get_files(db_id, table_id);
    files.sort_by_key(|f| f.id);
    assert_eq!(files, vec![other.clone(), new.clone()]);
    assert_metrics(&persisted_files, 2, 6_750 + 1_000, 17);

    // Re-adding the identical entry changes nothing.
    persisted_files.add_persisted_file(&db_id, &table_id, &new);
    assert_eq!(persisted_files.get_files(db_id, table_id).len(), 2);
    assert_metrics(&persisted_files, 2, 6_750 + 1_000, 17);

    // The same path in another table is a different file.
    persisted_files.add_persisted_file(&db_id, &TableId::from(1), &new);
    assert_eq!(persisted_files.get_files(db_id, table_id).len(), 2);
    assert_eq!(persisted_files.get_files(db_id, TableId::from(1)).len(), 1);
    assert_metrics(&persisted_files, 3, 6_750 * 2 + 1_000, 29);
}

#[test]
fn load_snapshots_collapses_same_path_to_newest_entry() {
    let db_id = DbId::from(0);
    let table_id = TableId::from(0);
    let path = "node/dbs/db-0/t-0/2026-09-18/00-00/0000000042.parquet";
    let older = parquet_file(1, path, 6_730, 10);
    let unrelated = parquet_file(2, "node/dbs/db-0/t-0/2026-09-18/00-10/43.parquet", 500, 1);
    let newer = parquet_file(5, path, 6_750, 12);
    let within_snapshot_dupe_a = parquet_file(6, "p/dup.parquet", 100, 1);
    let within_snapshot_dupe_b = parquet_file(7, "p/dup.parquet", 200, 2);

    let snapshot_1 = build_snapshot(vec![older, unrelated.clone()]);
    let snapshot_2 = build_snapshot(vec![
        newer.clone(),
        within_snapshot_dupe_a,
        within_snapshot_dupe_b.clone(),
    ]);

    // The newest snapshot comes first.
    let persisted_files =
        PersistedFiles::new_from_persisted_snapshots(vec![snapshot_2, snapshot_1]);

    let mut files = persisted_files.get_files(db_id, table_id);
    files.sort_by_key(|f| f.id);
    assert_eq!(files, vec![unrelated, newer, within_snapshot_dupe_b]);
    assert_metrics(&persisted_files, 3, 500 + 6_750 + 200, 1 + 12 + 2);
}

#[test]
fn load_snapshots_applies_removals_from_newer_snapshots() {
    let db_id = DbId::from(0);
    let table_id = TableId::from(0);
    let kept = parquet_file(1, "a.parquet", 100, 1);
    let removed = parquet_file(2, "b.parquet", 200, 2);
    let superseded = parquet_file(3, "c.parquet", 300, 3);
    let replacement = parquet_file(4, "c.parquet", 310, 4);

    let snapshot_1 = build_snapshot(vec![kept.clone(), removed.clone(), superseded.clone()]);
    let snapshot_2 = build_snapshot(vec![replacement.clone()]);
    let mut snapshot_3 = build_snapshot(vec![]);
    let mut removed_tables = DatabaseTables::new();
    // Removing `superseded` by id must not drop its same-path replacement.
    removed_tables.tables.insert(table_id, vec![removed, superseded]);
    snapshot_3.removed_files.insert(db_id, removed_tables);

    let persisted_files =
        PersistedFiles::new_from_persisted_snapshots(vec![snapshot_3, snapshot_2, snapshot_1]);

    let mut files = persisted_files.get_files(db_id, table_id);
    files.sort_by_key(|f| f.id);
    assert_eq!(files, vec![kept, replacement]);
    assert_metrics(&persisted_files, 2, 100 + 310, 1 + 4);
}
