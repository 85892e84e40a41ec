//! What the operations do, said in terms of the fields of the files and of the entries of the lists
//! and maps.

use crate::bytes::ByteBalance;
use crate::deletion::{
    first_per_id, lists_marked, marked_files, marked_ids, owned_by, spared, table_deleted, taken,
    to_be_kept, to_be_removed, DeletedTables, TableRemoval,
};
use crate::deletion_laws::{
    ids_unique, law_all_the_marked_files_are_listed, law_each_id_is_listed_once,
};
use crate::filters::{
    lemma_filter_all, lemma_filter_contains, lemma_filter_count, lemma_filter_order,
    lemma_filter_push, lemma_push_contains,
};
use crate::hash::ids_in;
use crate::incremental::apply_snapshot;
use crate::inner::Inner;
use crate::laws::{
    law_loading_leaves_paths_unique, law_newest_snapshot_decides, law_removal_matches_by_id,
    lists_entry,
};
use crate::load::{lemma_load_all_add, lemma_unload_all_add, load_all, replay, unload_all};
use crate::loader::{load_file, not_same_entry, unload_file};
use crate::model::{
    files_of, has_id, ids_of, index_totals, lemma_index_totals_insert, lemma_totals_push,
    lemma_upsert_all_add, lemma_upsert_one, off_path, outside_ids, paths_unique, totals_of, upsert,
    upsert_all, with_path, without_ids, without_path, Index, TableKey, Totals,
};
use crate::parquet::ParquetFile;
use crate::query::{
    asked_for, law_ordered_files_are_all_the_files, lemma_ordered_contains, newest_first,
    starting_at, ChunkFilter,
};
use crate::removed::Removed;
use crate::snapshot::{listed, DatabaseFiles, PersistedSnapshot};
use vstd::prelude::*;

verus! {

// -- Marking and removing

/// Where nothing is marked, no table is deleted; a table is where its database is marked as a whole
/// or where its own id is among those marked in its database, and nowhere else.
pub proof fn law_only_marks_delete(deleted: Map<u32, DeletedTables>, k: TableKey)
    ensures
        !table_deleted(Map::empty(), k),
        !deleted.contains_key(k.0.0) ==> !table_deleted(deleted, k),
        deleted.contains_key(k.0.0) && deleted[k.0.0] is All ==> table_deleted(deleted, k),
        deleted.contains_key(k.0.0) && deleted[k.0.0] is List ==> table_deleted(deleted, k)
            == ids_in(deleted[k.0.0]->List_0).contains(k.1.0 as u64),
{
}

/// Marks of one database say nothing of another.
pub proof fn law_marks_stay_in_their_database(
    deleted: Map<u32, DeletedTables>,
    db: u32,
    marks: DeletedTables,
    k: TableKey,
)
    requires
        k.0.0 != db,
    ensures
        table_deleted(deleted.insert(db, marks), k) == table_deleted(deleted, k),
        table_deleted(deleted.remove(db), k) == table_deleted(deleted, k),
{
}

/// Without marks and without cutoffs nothing is removed: every table keeps its files, and nothing
/// is listed.
pub proof fn law_nothing_goes_without_marks_and_cutoffs(
    index: Index,
    removed: DatabaseFiles,
    owner: Map<u64, TableKey>,
    k: TableKey,
)
    requires
        lists_marked(index, Map::empty(), Map::empty(), removed, owner),
    ensures
        files_of(index, k).filter(to_be_kept(Map::empty(), Map::empty(), k)) == files_of(index, k),
        marked_ids(index, Map::empty(), Map::empty()) == Set::<u64>::empty(),
        listed(removed.entries@, k).len() == 0,
{
    let none: Map<u32, DeletedTables> = Map::empty();
    let limits: Map<TableKey, i64> = Map::empty();
    lemma_filter_all(files_of(index, k), to_be_kept(none, limits, k));
    assert forall|j: TableKey| (#[trigger] marked_files(index, none, limits, j)).len() == 0 by {
        files_of(index, j).lemma_all_neg_filter_empty(to_be_removed(none, limits, j));
    }
    assert(marked_ids(index, none, limits) =~= Set::<u64>::empty()) by {
        assert forall|id: u64| !marked_ids(index, none, limits).contains(id) by {
            if marked_ids(index, none, limits).contains(id) {
                let j = choose|j: TableKey| #[trigger]
                    has_id(marked_files(index, none, limits, j), id);
                assert(marked_files(index, none, limits, j).len() == 0);
            }
        }
    }
    reveal(Seq::filter);
    assert(marked_files(index, none, limits, k).len() == 0);
    assert(listed(removed.entries@, k) == first_per_id(
        marked_files(index, none, limits, k).filter(owned_by(owner, k)),
    ));
}

/// A table that is marked for deletion, with its database or by itself, is empty afterwards.
pub proof fn law_deleted_table_is_emptied(
    held: Seq<ParquetFile>,
    deleted: Map<u32, DeletedTables>,
    cutoffs: Map<TableKey, i64>,
    k: TableKey,
)
    requires
        deleted.contains_key(k.0.0),
        deleted[k.0.0] is List ==> ids_in(deleted[k.0.0]->List_0).contains(k.1.0 as u64),
    ensures
        held.filter(to_be_kept(deleted, cutoffs, k)).len() == 0,
{
    held.lemma_all_neg_filter_empty(to_be_kept(deleted, cutoffs, k));
}

/// A table that is not marked for deletion keeps a file exactly where it has no cutoff or the
/// newest row of the file is not older than the cutoff, as often as it held the file, in the order
/// in which it held its files.
pub proof fn law_retention_goes_by_the_newest_row(
    held: Seq<ParquetFile>,
    deleted: Map<u32, DeletedTables>,
    cutoffs: Map<TableKey, i64>,
    k: TableKey,
    f: ParquetFile,
)
    requires
        !deleted.contains_key(k.0.0) || (deleted[k.0.0] is List && !ids_in(
            deleted[k.0.0]->List_0,
        ).contains(k.1.0 as u64)),
    ensures
        ({
            let left = held.filter(to_be_kept(deleted, cutoffs, k));
            &&& left.contains(f) == (held.contains(f) && (cutoffs.contains_key(k) ==> f.max_time
                >= cutoffs[k]))
            &&& left.contains(f) ==> left.to_multiset().count(f) == held.to_multiset().count(f)
            &&& forall|i: int, j: int|
                0 <= i < j < held.len() && left.contains(#[trigger] held[i]) && left.contains(
                    #[trigger] held[j],
                ) ==> exists|a: int, b: int|
                    0 <= a < b < left.len() && #[trigger] left[a] == held[i] && #[trigger] left[b]
                        == held[j]
        }),
{
    let test = to_be_kept(deleted, cutoffs, k);
    let left = held.filter(test);
    lemma_filter_contains(held, test, f);
    lemma_filter_count(held, test, f);
    assert forall|i: int, j: int|
        0 <= i < j < held.len() && left.contains(#[trigger] held[i]) && left.contains(
            #[trigger] held[j],
        ) implies exists|a: int, b: int|
        0 <= a < b < left.len() && #[trigger] left[a] == held[i] && #[trigger] left[b] == held[j] by {
        lemma_filter_contains(held, test, held[i]);
        lemma_filter_contains(held, test, held[j]);
        lemma_filter_order(held, test, i, j);
    }
}

/// The second half of a removal takes an entry exactly where a removal names its table, its id and,
/// if it has a cutoff, one that is above the newest row of the entry.
pub proof fn law_removal_names_table_id_and_cutoff(
    held: Seq<ParquetFile>,
    removals: Seq<TableRemoval>,
    k: TableKey,
    f: ParquetFile,
)
    ensures
        held.filter(spared(removals, k)).contains(f) == (held.contains(f) && forall|i: int|
            0 <= i < removals.len() && (#[trigger] removals[i]).table == k && ids_in(
                removals[i].ids,
            ).contains(f.id.0) ==> (removals[i].cutoff matches Some(limit) && limit
                <= f.max_time)),
        held.filter(spared(removals, k)).contains(f) ==> held.filter(
            spared(removals, k),
        ).to_multiset().count(f) == held.to_multiset().count(f),
{
    lemma_filter_contains(held, spared(removals, k), f);
    lemma_filter_count(held, spared(removals, k), f);
    if taken(removals, k, f) {
        let i = choose|i: int|
            0 <= i < removals.len() && (#[trigger] removals[i]).table == k && removals[i].takes()(
                f,
            );
        assert(removals[i].table == k);
    } else {
        assert forall|i: int|
            0 <= i < removals.len() && (#[trigger] removals[i]).table == k && ids_in(
                removals[i].ids,
            ).contains(f.id.0) implies (removals[i].cutoff matches Some(limit) && limit
            <= f.max_time) by {
            assert(!removals[i].takes()(f));
        }
    }
}

/// The ids to be removed are those of the files that leave their table.
pub proof fn law_marked_ids_are_those_of_leaving_files(
    index: Index,
    deleted: Map<u32, DeletedTables>,
    cutoffs: Map<TableKey, i64>,
    id: u64,
)
    ensures
        marked_ids(index, deleted, cutoffs).contains(id) == exists|k: TableKey, i: int|
            0 <= i < files_of(index, k).len() && (#[trigger] files_of(index, k)[i]).id.0 == id && (
            table_deleted(deleted, k) || (cutoffs.contains_key(k) && files_of(index, k)[i].max_time
                < cutoffs[k])),
{
    if marked_ids(index, deleted, cutoffs).contains(id) {
        let k = choose|k: TableKey| #[trigger]
            has_id(marked_files(index, deleted, cutoffs, k), id);
        let marked = marked_files(index, deleted, cutoffs, k);
        let files = files_of(index, k);
        let j = choose|j: int| 0 <= j < marked.len() && (#[trigger] marked[j]).id.0 == id;
        assert(marked.contains(marked[j]));
        lemma_filter_contains(files, to_be_removed(deleted, cutoffs, k), marked[j]);
        let i = choose|i: int| 0 <= i < files.len() && files[i] == marked[j];
        assert(files_of(index, k)[i].id.0 == id);
    }
    if exists|k: TableKey, i: int|
        0 <= i < files_of(index, k).len() && (#[trigger] files_of(index, k)[i]).id.0 == id && (
        table_deleted(deleted, k) || (cutoffs.contains_key(k) && files_of(index, k)[i].max_time
            < cutoffs[k])) {
        let (k, i) = choose|k: TableKey, i: int|
            0 <= i < files_of(index, k).len() && (#[trigger] files_of(index, k)[i]).id.0 == id && (
            table_deleted(deleted, k) || (cutoffs.contains_key(k) && files_of(index, k)[i].max_time
                < cutoffs[k]));
        let files = files_of(index, k);
        let marked = marked_files(index, deleted, cutoffs, k);
        assert(files.contains(files[i]));
        lemma_filter_contains(files, to_be_removed(deleted, cutoffs, k), files[i]);
        let j = choose|j: int| 0 <= j < marked.len() && marked[j] == files[i];
        assert(marked[j].id.0 == id);
        assert(has_id(marked, id));
    }
}

/// Every file that is listed is one that its table held and that leaves it, and it is the first one
/// with its id that leaves the table.
pub proof fn law_listed_files_leave_their_table(
    index: Index,
    deleted: Map<u32, DeletedTables>,
    cutoffs: Map<TableKey, i64>,
    removed: DatabaseFiles,
    owner: Map<u64, TableKey>,
    k: TableKey,
    n: int,
)
    requires
        lists_marked(index, deleted, cutoffs, removed, owner),
        0 <= n < listed(removed.entries@, k).len(),
    ensures
        ({
            let f = listed(removed.entries@, k)[n];
            let files = files_of(index, k);
            &&& table_deleted(deleted, k) || (cutoffs.contains_key(k) && f.max_time < cutoffs[k])
            &&& exists|i: int|
                0 <= i < files.len() && #[trigger] files[i] == f && forall|j: int|
                    0 <= j < i && (#[trigger] files[j]).id.0 == f.id.0 ==> !(table_deleted(
                        deleted,
                        k,
                    ) || (cutoffs.contains_key(k) && files[j].max_time < cutoffs[k]))
        }),
{
    let files = files_of(index, k);
    let test = to_be_removed(deleted, cutoffs, k);
    let marked = marked_files(index, deleted, cutoffs, k);
    let owned = marked.filter(owned_by(owner, k));
    assert(listed(removed.entries@, k) == first_per_id(owned));
    let f = first_per_id(owned)[n];
    lemma_first_in_filtered(files, test, owned_by(owner, k), f);
}

/// Every file that leaves its table has its id listed, once and with one table, which is one that
/// is marked for deletion where the file's own is.
pub proof fn law_leaving_files_are_listed(
    index: Index,
    deleted: Map<u32, DeletedTables>,
    cutoffs: Map<TableKey, i64>,
    removed: DatabaseFiles,
    owner: Map<u64, TableKey>,
    k: TableKey,
    i: int,
)
    requires
        lists_marked(index, deleted, cutoffs, removed, owner),
        0 <= i < files_of(index, k).len(),
        table_deleted(deleted, k) || (cutoffs.contains_key(k) && files_of(index, k)[i].max_time
            < cutoffs[k]),
    ensures
        ({
            let id = files_of(index, k)[i].id.0;
            let by = owner[id];
            &&& exists|n: int|
                0 <= n < listed(removed.entries@, by).len() && (#[trigger] listed(
                    removed.entries@,
                    by,
                )[n]).id.0 == id
            &&& forall|j: TableKey, n: int|
                0 <= n < listed(removed.entries@, j).len() && (#[trigger] listed(
                    removed.entries@,
                    j,
                )[n]).id.0 == id ==> j == by
            &&& forall|m: int, n: int|
                0 <= m < n < listed(removed.entries@, by).len() ==> (#[trigger] listed(
                    removed.entries@,
                    by,
                )[m]).id.0 != (#[trigger] listed(removed.entries@, by)[n]).id.0
            &&& table_deleted(deleted, k) ==> table_deleted(deleted, by)
        }),
{
    let files = files_of(index, k);
    let marked = marked_files(index, deleted, cutoffs, k);
    let id = files[i].id.0;
    let by = owner[id];
    assert(files.contains(files[i]));
    lemma_filter_contains(files, to_be_removed(deleted, cutoffs, k), files[i]);
    let m = choose|m: int| 0 <= m < marked.len() && marked[m] == files[i];
    assert(marked[m].id.0 == id);
    assert(has_id(marked, id));
    assert(marked_ids(index, deleted, cutoffs).contains(id));
    law_each_id_is_listed_once(index, deleted, cutoffs, removed, owner);
    assert(has_id(listed(removed.entries@, by), id));
    assert(owner.contains_key(id));
    assert forall|j: TableKey, n: int|
        0 <= n < listed(removed.entries@, j).len() && (#[trigger] listed(
            removed.entries@,
            j,
        )[n]).id.0 == id implies j == by by {
        assert(has_id(listed(removed.entries@, j), id));
    }
}

/// The files listed for a table stand in the order in which the table held them.
pub proof fn law_listed_files_keep_the_order_of_the_table(
    index: Index,
    deleted: Map<u32, DeletedTables>,
    cutoffs: Map<TableKey, i64>,
    removed: DatabaseFiles,
    owner: Map<u64, TableKey>,
    k: TableKey,
    m: int,
    n: int,
)
    requires
        lists_marked(index, deleted, cutoffs, removed, owner),
        0 <= m < n < listed(removed.entries@, k).len(),
    ensures
        exists|i: int, j: int|
            0 <= i < j < files_of(index, k).len() && #[trigger] files_of(index, k)[i] == listed(
                removed.entries@,
                k,
            )[m] && #[trigger] files_of(index, k)[j] == listed(removed.entries@, k)[n],
{
    let files = files_of(index, k);
    let marked = marked_files(index, deleted, cutoffs, k);
    let owned = marked.filter(owned_by(owner, k));
    assert(listed(removed.entries@, k) == first_per_id(owned));
    lemma_first_positions(owned, m, n);
    let (c, d) = choose|c: int, d: int|
        0 <= c < d < owned.len() && #[trigger] owned[c] == first_per_id(owned)[m]
            && #[trigger] owned[d] == first_per_id(owned)[n];
    lemma_filter_positions(marked, owned_by(owner, k), c, d);
    let (a, b) = choose|a: int, b: int|
        0 <= a < b < marked.len() && #[trigger] marked[a] == owned[c] && #[trigger] marked[b]
            == owned[d];
    lemma_filter_positions(files, to_be_removed(deleted, cutoffs, k), a, b);
}

proof fn lemma_first_positions(s: Seq<ParquetFile>, m: int, n: int)
    requires
        0 <= m < n < first_per_id(s).len(),
    ensures
        exists|c: int, d: int|
            0 <= c < d < s.len() && #[trigger] s[c] == first_per_id(s)[m] && #[trigger] s[d]
                == first_per_id(s)[n],
    decreases s.len(),
{
    let rest = s.drop_last();
    let kept = first_per_id(rest);
    if n < kept.len() {
        lemma_first_positions(rest, m, n);
        let (c, d) = choose|c: int, d: int|
            0 <= c < d < rest.len() && #[trigger] rest[c] == kept[m] && #[trigger] rest[d]
                == kept[n];
        assert(s[c] == first_per_id(s)[m]);
        assert(s[d] == first_per_id(s)[n]);
    } else {
        lemma_first_position(rest, m);
        let c = choose|c: int| 0 <= c < rest.len() && #[trigger] rest[c] == kept[m];
        assert(s[c] == first_per_id(s)[m]);
        assert(s[s.len() - 1] == first_per_id(s)[n]);
    }
}

proof fn lemma_first_position(s: Seq<ParquetFile>, m: int)
    requires
        0 <= m < first_per_id(s).len(),
    ensures
        exists|c: int| 0 <= c < s.len() && #[trigger] s[c] == first_per_id(s)[m],
    decreases s.len(),
{
    let rest = s.drop_last();
    let kept = first_per_id(rest);
    if m < kept.len() {
        lemma_first_position(rest, m);
        let c = choose|c: int| 0 <= c < rest.len() && #[trigger] rest[c] == kept[m];
        assert(s[c] == first_per_id(s)[m]);
    } else {
        assert(s[s.len() - 1] == first_per_id(s)[m]);
    }
}

/// Where no two entries of the index have one id, a file is listed for its table exactly where the
/// table held it and it leaves the table, and as often as the table held it.
pub proof fn law_files_with_ids_of_their_own_are_listed(
    index: Index,
    deleted: Map<u32, DeletedTables>,
    cutoffs: Map<TableKey, i64>,
    removed: DatabaseFiles,
    owner: Map<u64, TableKey>,
    k: TableKey,
    f: ParquetFile,
)
    requires
        lists_marked(index, deleted, cutoffs, removed, owner),
        forall|a: TableKey, b: TableKey, i: int, j: int|
            0 <= i < files_of(index, a).len() && 0 <= j < files_of(index, b).len() && (
            #[trigger] files_of(index, a)[i]).id.0 == (#[trigger] files_of(index, b)[j]).id.0
                ==> a == b && i == j,
    ensures
        listed(removed.entries@, k).to_multiset().count(f) == (if table_deleted(deleted, k) || (
        cutoffs.contains_key(k) && f.max_time < cutoffs[k]) {
            files_of(index, k).to_multiset().count(f)
        } else {
            0
        }),
{
    assert forall|a: TableKey| ids_unique(#[trigger] files_of(index, a)) by {
        assert forall|i: int, j: int| 0 <= i < j < files_of(index, a).len() implies (
        #[trigger] files_of(index, a)[i]).id.0 != (#[trigger] files_of(index, a)[j]).id.0 by {}
    }
    assert forall|a: TableKey, b: TableKey, id: u64| #[trigger]
        has_id(files_of(index, a), id) && #[trigger] has_id(files_of(index, b), id) implies a
        == b by {
        let s = files_of(index, a);
        let t = files_of(index, b);
        let i = choose|i: int| 0 <= i < s.len() && (#[trigger] s[i]).id.0 == id;
        let j = choose|j: int| 0 <= j < t.len() && (#[trigger] t[j]).id.0 == id;
        assert(files_of(index, a)[i].id.0 == files_of(index, b)[j].id.0);
    }
    law_all_the_marked_files_are_listed(index, deleted, cutoffs, removed, owner, k);
    lemma_filter_count(files_of(index, k), to_be_removed(deleted, cutoffs, k), f);
}

proof fn lemma_first_in_filtered(
    files: Seq<ParquetFile>,
    test: spec_fn(ParquetFile) -> bool,
    owned: spec_fn(ParquetFile) -> bool,
    f: ParquetFile,
)
    requires
        first_per_id(files.filter(test).filter(owned)).contains(f),
        forall|a: ParquetFile, b: ParquetFile| a.id.0 == b.id.0 ==> #[trigger] owned(a)
            == #[trigger] owned(b),
    ensures
        test(f),
        exists|i: int|
            0 <= i < files.len() && #[trigger] files[i] == f && forall|j: int|
                0 <= j < i && (#[trigger] files[j]).id.0 == f.id.0 ==> !test(files[j]),
    decreases files.len(),
{
    reveal(Seq::filter);
    if files.len() > 0 {
        let rest = files.drop_last();
        let last = files.last();
        let before = rest.filter(test).filter(owned);
        if first_per_id(before).contains(f) {
            lemma_first_in_filtered(rest, test, owned, f);
            let i = choose|i: int|
                0 <= i < rest.len() && #[trigger] rest[i] == f && forall|j: int|
                    0 <= j < i && (#[trigger] rest[j]).id.0 == f.id.0 ==> !test(rest[j]);
            assert(files[i] == f);
            assert forall|j: int| 0 <= j < i && (#[trigger] files[j]).id.0 == f.id.0 implies !test(
                files[j],
            ) by {
                assert(rest[j] == files[j]);
            }
        } else {
            let all = files.filter(test).filter(owned);
            lemma_filter_push(rest.filter(test), last, owned);
            assert(test(last) && owned(last));
            assert(all == before.push(last));
            assert(all.drop_last() =~= before);
            assert(!has_id(before, last.id.0));
            lemma_push_contains(first_per_id(before), last, f);
            assert(f == last);
            assert(files[files.len() - 1] == f);
            assert forall|j: int|
                0 <= j < files.len() - 1 && (#[trigger] files[j]).id.0 == f.id.0 implies !test(
                files[j],
            ) by {
                if test(files[j]) {
                    let g = files[j];
                    assert(rest[j] == g);
                    assert(rest.contains(g));
                    assert(owned(g) == owned(last));
                    lemma_filter_contains(rest, test, g);
                    lemma_filter_contains(rest.filter(test), owned, g);
                    let m = choose|m: int| 0 <= m < before.len() && before[m] == g;
                    assert(before[m].id.0 == last.id.0);
                }
            }
        }
    }
}

// -- Queries

/// A query gets a file exactly where the table holds it and there is a time, from the oldest to the
/// newest row of the file, that the filter asks for.
pub proof fn law_query_gets_every_file_with_a_time_asked_for(
    held: Seq<ParquetFile>,
    filter: ChunkFilter,
    got: Seq<ParquetFile>,
    f: ParquetFile,
)
    requires
        newest_first(got, held.filter(asked_for(filter))),
        f.min_time <= f.max_time,
        filter.time_lower_bound_ns is Some && filter.time_upper_bound_ns is Some
            ==> filter.time_lower_bound_ns->0 <= filter.time_upper_bound_ns->0,
    ensures
        got.contains(f) == (held.contains(f) && exists|t: int| #[trigger]
            time_asked_for(filter, t) && f.min_time <= t <= f.max_time),
{
    law_filter_lets_a_shared_time_through(filter, f.min_time, f.max_time);
    lemma_filter_contains(held, asked_for(filter), f);
    law_ordered_files_are_all_the_files(got, held.filter(asked_for(filter)));
    broadcast use vstd::seq_lib::group_to_multiset_ensures;

    assert(got.contains(f) == (got.to_multiset().count(f) > 0));
    assert(held.filter(asked_for(filter)).contains(f) == (held.filter(
        asked_for(filter),
    ).to_multiset().count(f) > 0));
}

/// A file that is added is found by every query that asks for a time of it, right away.
pub proof fn law_added_file_is_found(
    held: Seq<ParquetFile>,
    f: ParquetFile,
    filter: ChunkFilter,
    t: int,
    got: Seq<ParquetFile>,
)
    requires
        newest_first(got, upsert(held, f).filter(asked_for(filter))),
        f.min_time <= t <= f.max_time,
        filter.time_lower_bound_ns matches Some(lower) ==> lower <= t,
        filter.time_upper_bound_ns matches Some(upper) ==> t <= upper,
    ensures
        got.contains(f),
        forall|i: int|
            0 <= i < got.len() && (#[trigger] got[i]).path@ == f.path@ ==> got[i] == f,
{
    let after = upsert(held, f);
    lemma_upsert_contains(held, f, f);
    lemma_filter_contains(after, asked_for(filter), f);
    lemma_ordered_contains(got, after.filter(asked_for(filter)), f);
    assert forall|i: int|
        0 <= i < got.len() && (#[trigger] got[i]).path@ == f.path@ implies got[i] == f by {
        assert(got.contains(got[i]));
        lemma_ordered_contains(got, after.filter(asked_for(filter)), got[i]);
        lemma_filter_contains(after, asked_for(filter), got[i]);
        lemma_upsert_contains(held, f, got[i]);
    }
}

/// Whether time `t` is not below the lower bound and not above the upper bound.
pub open spec fn time_asked_for(filter: ChunkFilter, t: int) -> bool {
    &&& filter.time_lower_bound_ns matches Some(lower) ==> lower <= t
    &&& filter.time_upper_bound_ns matches Some(upper) ==> t <= upper
}

/// The filter lets a file through exactly where a time of the file is one that is asked for.
pub proof fn law_filter_lets_a_shared_time_through(filter: ChunkFilter, min: i64, max: i64)
    requires
        min <= max,
        filter.time_lower_bound_ns is Some && filter.time_upper_bound_ns is Some
            ==> filter.time_lower_bound_ns->0 <= filter.time_upper_bound_ns->0,
    ensures
        filter.overlaps(min, max) == exists|t: int| #[trigger]
            time_asked_for(filter, t) && min <= t <= max,
{
    if filter.overlaps(min, max) {
        let t: int = match filter.time_lower_bound_ns {
            Some(lower) => if min <= lower {
                lower as int
            } else {
                min as int
            },
            None => min as int,
        };
        assert(time_asked_for(filter, t));
    }
}

/// Each bound counts by itself, whatever the other one and the other end of the file: a file is
/// left out exactly where it ends before the lower bound or begins after the upper bound.
pub proof fn law_filter_leaves_out_only_what_is_outside(filter: ChunkFilter, min: i64, max: i64)
    ensures
        !filter.overlaps(min, max) <==> (filter.time_lower_bound_ns is Some && max
            < filter.time_lower_bound_ns->0) || (filter.time_upper_bound_ns is Some
            && filter.time_upper_bound_ns->0 < min),
{
}

/// What a query gets never goes up in time, holds each file as often as the table does, and keeps
/// files that begin at the same time in the order of the table.
pub proof fn law_query_order(got: Seq<ParquetFile>, s: Seq<ParquetFile>, f: ParquetFile)
    requires
        newest_first(got, s),
    ensures
        got.len() == s.len(),
        forall|i: int, j: int|
            0 <= i < j < got.len() ==> (#[trigger] got[i]).min_time >= (
            #[trigger] got[j]).min_time,
        got.to_multiset().count(f) == s.to_multiset().count(f),
        forall|i: int, j: int|
            0 <= i < j < s.len() && (#[trigger] s[i]).min_time == (#[trigger] s[j]).min_time
                ==> exists|a: int, b: int|
                0 <= a < b < got.len() && #[trigger] got[a] == s[i] && #[trigger] got[b] == s[j],
{
    broadcast use vstd::seq_lib::group_to_multiset_ensures;

    law_ordered_files_are_all_the_files(got, s);
    assert(got.to_multiset().len() == got.len());
    assert(s.to_multiset().len() == s.len());
    assert forall|i: int, j: int|
        0 <= i < j < s.len() && (#[trigger] s[i]).min_time == (
        #[trigger] s[j]).min_time implies exists|a: int, b: int|
        0 <= a < b < got.len() && #[trigger] got[a] == s[i] && #[trigger] got[b] == s[j] by {
        let test = starting_at(s[i].min_time);
        lemma_filter_order(s, test, i, j);
        let same = s.filter(test);
        assert(got.filter(test) == same);
        let (c, d) = choose|c: int, d: int|
            0 <= c < d < same.len() && #[trigger] same[c] == s[i] && #[trigger] same[d] == s[j];
        lemma_filter_positions(got, test, c, d);
    }
}

proof fn lemma_filter_positions(
    s: Seq<ParquetFile>,
    p: spec_fn(ParquetFile) -> bool,
    c: int,
    d: int,
)
    requires
        0 <= c < d < s.filter(p).len(),
    ensures
        exists|a: int, b: int|
            0 <= a < b < s.len() && #[trigger] s[a] == s.filter(p)[c] && #[trigger] s[b]
                == s.filter(p)[d],
    decreases s.len(),
{
    reveal(Seq::filter);
    let rest = s.drop_last();
    let kept = rest.filter(p);
    if d < kept.len() {
        lemma_filter_positions(rest, p, c, d);
        let (a, b) = choose|a: int, b: int|
            0 <= a < b < rest.len() && #[trigger] rest[a] == kept[c] && #[trigger] rest[b]
                == kept[d];
        assert(s[a] == s.filter(p)[c]);
        assert(s[b] == s.filter(p)[d]);
    } else {
        lemma_filter_contains(rest, p, kept[c]);
        assert(kept.contains(kept[c]));
        let a = choose|a: int| 0 <= a < rest.len() && rest[a] == kept[c];
        assert(s[a] == s.filter(p)[c]);
        assert(s[s.len() - 1] == s.filter(p)[d]);
    }
}

// -- Counting

/// The totals of files are their number and the sums of their sizes and of their rows.
pub proof fn law_totals_are_sums(s: Seq<ParquetFile>)
    ensures
        totals_of(s).count == s.len(),
        totals_of(s).size_bytes == s.fold_left(0int, |sum: int, f: ParquetFile| sum + f.size_bytes),
        totals_of(s).rows == s.fold_left(0int, |sum: int, f: ParquetFile| sum + f.row_count),
    decreases s.len(),
{
    if s.len() > 0 {
        law_totals_are_sums(s.drop_last());
    }
}

/// An index that holds one file in one table reports one file, its size and its rows; one without
/// tables reports nothing.
pub proof fn law_one_file_is_reported_as_it_is(k: TableKey, f: ParquetFile)
    ensures
        ({
            let none = index_totals(Map::empty());
            let one = index_totals(Map::empty().insert(k, seq![f]));
            &&& none.count == 0 && none.size_bytes == 0 && none.rows == 0
            &&& one.count == 1 && one.size_bytes == f.size_bytes && one.rows == f.row_count
        }),
{
    let none: Index = Map::empty();
    lemma_index_totals_insert(none, k, seq![f]);
    assert(none.dom() =~= Set::empty());
    lemma_totals_push(Seq::empty(), f);
    assert(seq![f] =~= Seq::<ParquetFile>::empty().push(f));
    law_totals_are_sums(Seq::empty());
    lemma_only_one(f);
}

proof fn lemma_only_one(f: ParquetFile)
    ensures
        totals_of(seq![f]).count == 1,
        totals_of(seq![f]).size_bytes == f.size_bytes,
        totals_of(seq![f]).rows == f.row_count,
{
    law_totals_are_sums(seq![f]);
    assert(seq![f].drop_last() =~= Seq::<ParquetFile>::empty());
    reveal_with_fuel(Seq::fold_left, 2);
}

/// What is reported of an index is what is reported of it without a table, and the number, the sizes
/// and the rows of the files of that table.
pub proof fn law_tables_are_reported_together(index: Index, k: TableKey, s: Seq<ParquetFile>)
    requires
        index.dom().finite(),
        !index.contains_key(k),
    ensures
        ({
            let before = index_totals(index);
            let after = index_totals(index.insert(k, s));
            &&& after.count == before.count + s.len()
            &&& after.size_bytes == before.size_bytes + s.fold_left(
                0int,
                |sum: int, f: ParquetFile| sum + f.size_bytes,
            )
            &&& after.rows == before.rows + s.fold_left(
                0int,
                |sum: int, f: ParquetFile| sum + f.row_count,
            )
        }),
{
    lemma_index_totals_insert(index, k, s);
    law_totals_are_sums(s);
    law_totals_are_sums(Seq::empty());
}

/// Adding a file for a path that its table does not hold raises what is reported by one file, its
/// size and its rows.
pub proof fn law_new_file_raises_the_metrics(index: Index, k: TableKey, f: ParquetFile)
    requires
        index.dom().finite(),
        forall|i: int|
            0 <= i < files_of(index, k).len() ==> (#[trigger] files_of(index, k)[i]).path@
                != f.path@,
    ensures
        ({
            let before = index_totals(index);
            let after = index_totals(index.insert(k, upsert(files_of(index, k), f)));
            &&& after.count == before.count + 1
            &&& after.size_bytes == before.size_bytes + f.size_bytes
            &&& after.rows == before.rows + f.row_count
        }),
{
    let s = files_of(index, k);
    lemma_filter_all(s, off_path(f.path@));
    lemma_index_totals_insert(index, k, upsert(s, f));
    law_totals_are_sums(s);
    law_totals_are_sums(s.push(f));
    assert(s.push(f).drop_last() =~= s);
}

/// Adding a file for a path that its table holds once changes what is reported by the difference
/// between the file and the entry that it takes the place of.
pub proof fn law_replacing_file_changes_the_metrics_by_the_difference(
    index: Index,
    k: TableKey,
    f: ParquetFile,
    n: int,
)
    requires
        index.dom().finite(),
        0 <= n < files_of(index, k).len(),
        forall|i: int|
            0 <= i < files_of(index, k).len() ==> ((#[trigger] files_of(index, k)[i]).path@
                == f.path@ <==> i == n),
    ensures
        ({
            let g = files_of(index, k)[n];
            let before = index_totals(index);
            let after = index_totals(index.insert(k, upsert(files_of(index, k), f)));
            &&& after.count == before.count
            &&& after.size_bytes == before.size_bytes - g.size_bytes + f.size_bytes
            &&& after.rows == before.rows - g.row_count + f.row_count
        }),
{
    let s = files_of(index, k);
    let g = s[n];
    lemma_index_totals_insert(index, k, upsert(s, f));
    lemma_filter_one_out(s, off_path(f.path@), n);
    lemma_totals_push(without_path(s, f.path@), f);
    lemma_only_one(f);
    lemma_only_one(g);
    assert(seq![f] =~= Seq::<ParquetFile>::empty().push(f));
    assert(seq![g] =~= Seq::<ParquetFile>::empty().push(g));
    lemma_totals_push(Seq::empty(), f);
    lemma_totals_push(Seq::empty(), g);
}

/// Removing one entry lowers what is reported by one file, its size and its rows.
pub proof fn law_removed_file_lowers_the_metrics(index: Index, k: TableKey, ids: Set<u64>, n: int)
    requires
        index.dom().finite(),
        0 <= n < files_of(index, k).len(),
        forall|i: int|
            0 <= i < files_of(index, k).len() ==> (ids.contains(
                (#[trigger] files_of(index, k)[i]).id.0,
            ) <==> i == n),
    ensures
        ({
            let g = files_of(index, k)[n];
            let before = index_totals(index);
            let after = index_totals(index.insert(k, without_ids(files_of(index, k), ids)));
            &&& after.count == before.count - 1
            &&& after.size_bytes == before.size_bytes - g.size_bytes
            &&& after.rows == before.rows - g.row_count
        }),
{
    let s = files_of(index, k);
    let g = s[n];
    lemma_index_totals_insert(index, k, without_ids(s, ids));
    lemma_filter_one_out(s, outside_ids(ids), n);
    lemma_only_one(g);
    assert(seq![g] =~= Seq::<ParquetFile>::empty().push(g));
    lemma_totals_push(Seq::empty(), g);
}

proof fn lemma_filter_one_out(s: Seq<ParquetFile>, p: spec_fn(ParquetFile) -> bool, n: int)
    requires
        0 <= n < s.len(),
        forall|i: int| 0 <= i < s.len() ==> (p(#[trigger] s[i]) <==> i != n),
    ensures
        totals_of(s) == totals_of(s.filter(p)).plus(Totals::of_file(s[n])),
    decreases s.len(),
{
    reveal(Seq::filter);
    let rest = s.drop_last();
    if n == s.len() - 1 {
        assert forall|i: int| 0 <= i < rest.len() implies p(#[trigger] rest[i]) by {
            assert(rest[i] == s[i]);
        }
        lemma_filter_all(rest, p);
        assert(!p(s[n]));
    } else {
        assert forall|i: int| 0 <= i < rest.len() implies (p(#[trigger] rest[i]) <==> i != n) by {
            assert(rest[i] == s[i]);
        }
        lemma_filter_one_out(rest, p, n);
        assert(p(s[s.len() - 1]));
        lemma_totals_push(rest.filter(p), s.last());
    }
}

/// What is counted is compared and held as it is: totals can be counted where neither the number of
/// files nor that of rows exceeds 64 bits, and fit where the size does not exceed 128 bits either.
pub proof fn law_counters_hold_what_their_bits_hold(a: Totals, b: Totals)
    ensures
        a.countable() <==> a.count <= 0xffff_ffff_ffff_ffff && a.rows <= 0xffff_ffff_ffff_ffff,
        a.fit() <==> a.countable() && a.size_bytes
            <= 0xffff_ffff_ffff_ffff_ffff_ffff_ffff_ffffint,
        a.plus(b).minus(b) == a,
        a.plus(b).count - b.count == a.count,
        a.plus(b).size_bytes - b.size_bytes == a.size_bytes,
        a.plus(b).rows - b.rows == a.rows,
{
}

/// The running totals and the signed count of bytes are read as they stand.
pub proof fn law_counters_are_read_as_they_stand(removed: Removed, n: u128)
    ensures
        removed@.count == removed.count,
        removed@.size_bytes == removed.size_bytes,
        removed@.rows == removed.rows,
        (ByteBalance { below_zero: false, magnitude: n })@ == n,
        (ByteBalance { below_zero: true, magnitude: n })@ + n == 0,
{
}

/// The metrics of an index are its three counters.
pub proof fn law_metrics_are_the_counters(inner: Inner)
    ensures
        inner.metrics().count == inner.parquet_files_count,
        inner.metrics().size_bytes == inner.parquet_files_size_bytes@,
        inner.metrics().rows == inner.parquet_files_row_count,
        inner.wf() ==> index_totals(inner.index()).count == inner.parquet_files_count
            && index_totals(inner.index()).size_bytes == inner.parquet_files_size_bytes@
            && index_totals(inner.index()).rows == inner.parquet_files_row_count,
{
}

// -- Adding and removing

/// Once a file is added, its table holds it once and last, no other entry for its path, and every
/// entry for another path as often as before and in the same order.
pub proof fn law_adding_keeps_all_other_paths(s: Seq<ParquetFile>, f: ParquetFile, g: ParquetFile)
    ensures
        ({
            let after = upsert(s, f);
            &&& after.len() > 0 && after[after.len() - 1] == f
            &&& after.to_multiset().count(g) == (if g == f {
                1
            } else if g.path@ == f.path@ {
                0
            } else {
                s.to_multiset().count(g)
            })
            &&& forall|i: int, j: int|
                0 <= i < j < s.len() && (#[trigger] s[i]).path@ != f.path@ && (
                #[trigger] s[j]).path@ != f.path@ ==> exists|a: int, b: int|
                    0 <= a < b < after.len() - 1 && #[trigger] after[a] == s[i]
                        && #[trigger] after[b] == s[j]
        }),
{
    broadcast use vstd::seq_lib::group_to_multiset_ensures;

    let test = off_path(f.path@);
    let rest = s.filter(test);
    let after = upsert(s, f);
    lemma_filter_count(s, test, g);
    assert(after == rest.push(f));
    assert forall|i: int, j: int|
        0 <= i < j < s.len() && (#[trigger] s[i]).path@ != f.path@ && (#[trigger] s[j]).path@
            != f.path@ implies exists|a: int, b: int|
        0 <= a < b < after.len() - 1 && #[trigger] after[a] == s[i] && #[trigger] after[b]
            == s[j] by {
        lemma_filter_order(s, test, i, j);
        let (a, b) = choose|a: int, b: int|
            0 <= a < b < rest.len() && #[trigger] rest[a] == s[i] && #[trigger] rest[b] == s[j];
        assert(after[a] == s[i]);
        assert(after[b] == s[j]);
    }
}

pub proof fn lemma_upsert_contains(s: Seq<ParquetFile>, f: ParquetFile, g: ParquetFile)
    ensures
        upsert(s, f).contains(g) == (g == f || (s.contains(g) && g.path@ != f.path@)),
{
    lemma_filter_contains(s, off_path(f.path@), g);
    lemma_push_contains(without_path(s, f.path@), f, g);
}

pub proof fn lemma_none_has_id(s: Seq<ParquetFile>, files: Seq<ParquetFile>, f: ParquetFile)
    ensures
        without_ids(s, ids_of(files)).contains(f) == (s.contains(f) && forall|i: int|
            0 <= i < files.len() ==> (#[trigger] files[i]).id != f.id),
{
    law_removal_matches_by_id(s, ids_of(files), f);
    if has_id(files, f.id.0) {
        let i = choose|i: int| 0 <= i < files.len() && (#[trigger] files[i]).id.0 == f.id.0;
        assert(files[i].id == f.id);
    } else {
        assert forall|i: int| 0 <= i < files.len() implies (#[trigger] files[i]).id != f.id by {
            assert(files[i].id.0 != f.id.0);
        }
    }
}

/// Adding files one after the other is adding the first ones and then the others; adding none
/// changes nothing.
pub proof fn law_adding_goes_one_after_the_other(
    s: Seq<ParquetFile>,
    a: Seq<ParquetFile>,
    b: Seq<ParquetFile>,
    f: ParquetFile,
)
    ensures
        upsert_all(s, Seq::empty()) == s,
        upsert_all(s, seq![f]) == upsert(s, f),
        upsert_all(s, a + b) == upsert_all(upsert_all(s, a), b),
{
    lemma_upsert_one(s, f);
    lemma_upsert_all_add(s, a, b);
}

/// Removing files leaves an entry exactly where none of them has its id, as often as it was there
/// and in the same order.
pub proof fn law_removing_leaves_all_other_ids(
    s: Seq<ParquetFile>,
    files: Seq<ParquetFile>,
    g: ParquetFile,
)
    ensures
        ({
            let after = without_ids(s, ids_of(files));
            &&& after.to_multiset().count(g) == (if exists|i: int|
                0 <= i < files.len() && (#[trigger] files[i]).id == g.id {
                0
            } else {
                s.to_multiset().count(g)
            })
            &&& forall|i: int, j: int|
                0 <= i < j < s.len() && after.contains(#[trigger] s[i]) && after.contains(
                    #[trigger] s[j],
                ) ==> exists|a: int, b: int|
                    0 <= a < b < after.len() && #[trigger] after[a] == s[i]
                        && #[trigger] after[b] == s[j]
        }),
{
    let ids = ids_of(files);
    let test = outside_ids(ids);
    let after = without_ids(s, ids);
    lemma_filter_count(s, test, g);
    assert(ids.contains(g.id.0) == exists|i: int|
        0 <= i < files.len() && (#[trigger] files[i]).id == g.id) by {
        if has_id(files, g.id.0) {
            let i = choose|i: int| 0 <= i < files.len() && (#[trigger] files[i]).id.0 == g.id.0;
            assert(files[i].id == g.id);
        }
        if exists|i: int| 0 <= i < files.len() && (#[trigger] files[i]).id == g.id {
            let i = choose|i: int| 0 <= i < files.len() && (#[trigger] files[i]).id == g.id;
            assert(files[i].id.0 == g.id.0);
        }
    }
    assert forall|i: int, j: int|
        0 <= i < j < s.len() && after.contains(#[trigger] s[i]) && after.contains(
            #[trigger] s[j],
        ) implies exists|a: int, b: int|
        0 <= a < b < after.len() && #[trigger] after[a] == s[i] && #[trigger] after[b] == s[j] by {
        lemma_filter_contains(s, test, s[i]);
        lemma_filter_contains(s, test, s[j]);
        lemma_filter_order(s, test, i, j);
    }
}

/// Taking in a snapshot is adding its files and then removing those that it removes; an entry is
/// there afterwards exactly where no removed file has its id and it is either the last file added
/// for its path or, where none is added for its path, an entry that was there before.
pub proof fn law_snapshot_says_what_is_there(
    s: Seq<ParquetFile>,
    snapshot: PersistedSnapshot,
    k: TableKey,
    f: ParquetFile,
)
    ensures
        ({
            let added = listed(snapshot.databases.entries@, k);
            let gone = listed(snapshot.removed_files.entries@, k);
            &&& apply_snapshot(s, snapshot, k) == without_ids(upsert_all(s, added), ids_of(gone))
            &&& apply_snapshot(s, snapshot, k).contains(f) == ((forall|i: int|
                0 <= i < gone.len() ==> (#[trigger] gone[i]).id != f.id) && (is_last_for_its_path(
                added,
                f,
            ) || (s.contains(f) && forall|i: int|
                0 <= i < added.len() ==> (#[trigger] added[i]).path@ != f.path@)))
        }),
{
    let added = listed(snapshot.databases.entries@, k);
    let gone = listed(snapshot.removed_files.entries@, k);
    lemma_last_added(s, added, f);
    law_removal_matches_by_id(upsert_all(s, added), ids_of(gone), f);
    if has_id(gone, f.id.0) {
        let i = choose|i: int| 0 <= i < gone.len() && (#[trigger] gone[i]).id.0 == f.id.0;
        assert(gone[i].id == f.id);
    } else {
        assert forall|i: int| 0 <= i < gone.len() implies (#[trigger] gone[i]).id != f.id by {
            assert(gone[i].id.0 != f.id.0);
        }
    }
}

/// Whether `f` stands in `files` with no file for its path behind it.
pub open spec fn is_last_for_its_path(files: Seq<ParquetFile>, f: ParquetFile) -> bool {
    exists|i: int|
        0 <= i < files.len() && #[trigger] files[i] == f && forall|j: int|
            i < j < files.len() ==> (#[trigger] files[j]).path@ != f.path@
}

proof fn lemma_last_step(before: Seq<ParquetFile>, last: ParquetFile, f: ParquetFile)
    ensures
        is_last_for_its_path(before.push(last), f) == (f == last || (is_last_for_its_path(before, f)
            && last.path@ != f.path@)),
        (forall|i: int|
            0 <= i < before.push(last).len() ==> (#[trigger] before.push(last)[i]).path@
                != f.path@) <==> (last.path@ != f.path@ && forall|i: int|
            0 <= i < before.len() ==> (#[trigger] before[i]).path@ != f.path@),
{
    let files = before.push(last);
    let n = before.len() as int;
    assert(files[n] == last);
    if is_last_for_its_path(files, f) {
        let i = choose|i: int|
            0 <= i < files.len() && #[trigger] files[i] == f && forall|j: int|
                i < j < files.len() ==> (#[trigger] files[j]).path@ != f.path@;
        if i < n {
            assert(files[n].path@ != f.path@);
            assert(before[i] == f);
            assert forall|j: int| i < j < before.len() implies (#[trigger] before[j]).path@
                != f.path@ by {
                assert(files[j] == before[j]);
            }
        }
    }
    if is_last_for_its_path(before, f) && last.path@ != f.path@ {
        let i = choose|i: int|
            0 <= i < before.len() && #[trigger] before[i] == f && forall|j: int|
                i < j < before.len() ==> (#[trigger] before[j]).path@ != f.path@;
        assert(files[i] == f);
        assert forall|j: int| i < j < files.len() implies (#[trigger] files[j]).path@ != f.path@ by {
            if j < n {
                assert(files[j] == before[j]);
            }
        }
    }
    if forall|i: int| 0 <= i < files.len() ==> (#[trigger] files[i]).path@ != f.path@ {
        assert(files[n].path@ != f.path@);
        assert forall|i: int| 0 <= i < before.len() implies (#[trigger] before[i]).path@
            != f.path@ by {
            assert(files[i] == before[i]);
        }
    }
    if last.path@ != f.path@ && forall|i: int|
        0 <= i < before.len() ==> (#[trigger] before[i]).path@ != f.path@ {
        assert forall|i: int| 0 <= i < files.len() implies (#[trigger] files[i]).path@ != f.path@ by {
            if i < n {
                assert(files[i] == before[i]);
            }
        }
    }
}

proof fn lemma_last_added(s: Seq<ParquetFile>, added: Seq<ParquetFile>, f: ParquetFile)
    ensures
        upsert_all(s, added).contains(f) == (is_last_for_its_path(added, f) || (s.contains(f)
            && forall|i: int| 0 <= i < added.len() ==> (#[trigger] added[i]).path@ != f.path@)),
    decreases added.len(),
{
    if added.len() > 0 {
        let before = added.drop_last();
        let last = added.last();
        lemma_last_added(s, before, f);
        assert(added =~= before.push(last));
        lemma_last_step(before, last, f);
        let so_far = upsert_all(s, before);
        lemma_filter_contains(so_far, off_path(last.path@), f);
        lemma_push_contains(
            without_path(so_far, last.path@),
            last,
            f,
        );
    } else {
        assert(!is_last_for_its_path(added, f));
    }
}

// -- Loading

/// Loading a file where there is an entry for its path puts it in the place of that entry and leaves
/// all others where they are; where there is none, it comes last.
pub proof fn law_loaded_file_takes_its_place(s: Seq<ParquetFile>, f: ParquetFile)
    ensures
        (exists|i: int| 0 <= i < s.len() && (#[trigger] s[i]).path@ == f.path@) ==> load_file(
            s,
            f,
        ).len() == s.len() && forall|i: int|
            0 <= i < s.len() ==> #[trigger] load_file(s, f)[i] == (if s[i].path@ == f.path@ {
                f
            } else {
                s[i]
            }),
        (forall|i: int| 0 <= i < s.len() ==> (#[trigger] s[i]).path@ != f.path@) ==> load_file(s, f)
            == s + seq![f],
{
    if forall|i: int| 0 <= i < s.len() ==> (#[trigger] s[i]).path@ != f.path@ {
        assert(load_file(s, f) =~= s + seq![f]);
    }
}

/// Removing an entry while loading leaves every entry that has another path or another id, as often
/// as it was there and in the same order.
pub proof fn law_unloading_leaves_all_other_entries(
    s: Seq<ParquetFile>,
    f: ParquetFile,
    g: ParquetFile,
)
    ensures
        unload_file(s, f).to_multiset().count(g) == (if g.path@ == f.path@ && g.id == f.id {
            0
        } else {
            s.to_multiset().count(g)
        }),
        forall|i: int, j: int|
            0 <= i < j < s.len() && unload_file(s, f).contains(#[trigger] s[i]) && unload_file(
                s,
                f,
            ).contains(#[trigger] s[j]) ==> exists|a: int, b: int|
                0 <= a < b < unload_file(s, f).len() && #[trigger] unload_file(s, f)[a] == s[i]
                    && #[trigger] unload_file(s, f)[b] == s[j],
{
    let test = not_same_entry(f);
    lemma_filter_count(s, test, g);
    assert forall|i: int, j: int|
        0 <= i < j < s.len() && unload_file(s, f).contains(#[trigger] s[i]) && unload_file(
            s,
            f,
        ).contains(#[trigger] s[j]) implies exists|a: int, b: int|
        0 <= a < b < unload_file(s, f).len() && #[trigger] unload_file(s, f)[a] == s[i]
            && #[trigger] unload_file(s, f)[b] == s[j] by {
        lemma_filter_contains(s, test, s[i]);
        lemma_filter_contains(s, test, s[j]);
        lemma_filter_order(s, test, i, j);
    }
}

/// Loading and removing go one after the other; a replay starts from nothing and goes from the last
/// snapshot to the first, each loading its files before it removes.
pub proof fn law_replay_goes_from_the_oldest_to_the_newest(
    older: Seq<PersistedSnapshot>,
    newest: PersistedSnapshot,
    s: Seq<ParquetFile>,
    a: Seq<ParquetFile>,
    b: Seq<ParquetFile>,
    f: ParquetFile,
    k: TableKey,
)
    ensures
        load_all(s, Seq::empty()) == s,
        load_all(s, seq![f]) == load_file(s, f),
        load_all(s, a + b) == load_all(load_all(s, a), b),
        unload_all(s, Seq::empty()) == s,
        unload_all(s, seq![f]) == unload_file(s, f),
        unload_all(s, a + b) == unload_all(unload_all(s, a), b),
        replay(Seq::empty(), k) == Seq::<ParquetFile>::empty(),
        replay(seq![newest] + older, k) == unload_all(
            load_all(replay(older, k), listed(newest.databases.entries@, k)),
            listed(newest.removed_files.entries@, k),
        ),
{
    assert(seq![f].drop_last() =~= Seq::<ParquetFile>::empty());
    assert(load_all(s, seq![f].drop_last()) == s);
    assert(unload_all(s, seq![f].drop_last()) == s);
    lemma_load_all_add(s, a, b);
    lemma_unload_all_add(s, a, b);
    assert((seq![newest] + older).drop_first() =~= older);
}

/// Which entries loading leaves, told by the fields: an entry stands in the index exactly where the
/// newest snapshot does not remove its path with its id, and it is either the last file that the
/// newest snapshot lists for its path or, where it lists none for its path, an entry that the older
/// snapshots left.
pub proof fn law_loading_says_what_is_there(
    snapshots: Seq<PersistedSnapshot>,
    k: TableKey,
    f: ParquetFile,
)
    requires
        snapshots.len() > 0,
    ensures
        ({
            let added = listed(snapshots[0].databases.entries@, k);
            let gone = listed(snapshots[0].removed_files.entries@, k);
            replay(snapshots, k).contains(f) == ((forall|i: int|
                0 <= i < gone.len() ==> (#[trigger] gone[i]).path@ != f.path@ || gone[i].id != f.id)
                && (is_last_for_its_path(added, f) || (replay(
                snapshots.drop_first(),
                k,
            ).contains(f) && forall|i: int|
                0 <= i < added.len() ==> (#[trigger] added[i]).path@ != f.path@)))
        }),
{
    let added = listed(snapshots[0].databases.entries@, k);
    let gone = listed(snapshots[0].removed_files.entries@, k);
    law_newest_snapshot_decides(snapshots, k, f);
    lemma_last_on_path(added, f);
    if lists_entry(gone, f) {
        let i = choose|i: int|
            0 <= i < gone.len() && (#[trigger] gone[i]).path@ == f.path@ && gone[i].id == f.id;
        assert(gone[i].path@ == f.path@);
    }
}

proof fn lemma_last_on_path(files: Seq<ParquetFile>, f: ParquetFile)
    ensures
        ({
            let found = with_path(files, f.path@);
            &&& found.len() == 0 <==> forall|i: int|
                0 <= i < files.len() ==> (#[trigger] files[i]).path@ != f.path@
            &&& found.len() > 0 ==> (f == found.last() <==> is_last_for_its_path(files, f))
            &&& found.len() == 0 ==> !is_last_for_its_path(files, f)
        }),
    decreases files.len(),
{
    reveal(Seq::filter);
    if files.len() > 0 {
        let before = files.drop_last();
        let last = files.last();
        lemma_last_on_path(before, f);
        assert(files =~= before.push(last));
        lemma_last_step(before, last, f);
    }
}

/// No two entries that loading leaves in one table have one path.
pub proof fn law_loaded_paths_differ(
    snapshots: Seq<PersistedSnapshot>,
    k: TableKey,
    i: int,
    j: int,
)
    requires
        0 <= i < j < replay(snapshots, k).len(),
    ensures
        replay(snapshots, k)[i].path@ != replay(snapshots, k)[j].path@,
{
    law_loading_leaves_paths_unique(snapshots, k);
}

/// The index keeps one entry per path where no two entries at different places of a table have one
/// path, and only there.
pub proof fn law_unique_paths_differ_everywhere(s: Seq<ParquetFile>)
    ensures
        paths_unique(s) <==> forall|i: int, j: int|
            0 <= i < s.len() && 0 <= j < s.len() && (#[trigger] s[i]).path@ == (
            #[trigger] s[j]).path@ ==> i == j,
{
    if paths_unique(s) {
        assert forall|i: int, j: int|
            0 <= i < s.len() && 0 <= j < s.len() && (#[trigger] s[i]).path@ == (
            #[trigger] s[j]).path@ implies i == j by {
            if i < j {
                assert(s[i].path@ != s[j].path@);
            } else if j < i {
                assert(s[j].path@ != s[i].path@);
            }
        }
    }
}

} // verus!
