//! What holds of the index as a whole, over any number of its operations.

use crate::deletion::{spared, to_be_kept, DeletedTables, TableRemoval};
use crate::filters::{
    lemma_contains_on_path, lemma_filter_all, lemma_filter_contains, lemma_filter_filter,
    lemma_filter_push, lemma_filter_unique, lemma_unique_from_paths, lemma_unique_on_path,
};
use crate::ids::{DbId, TableId};
use crate::incremental::apply_snapshot;
use crate::load::{load_all, replay, replay_one, unload_all};
use crate::loader::{load_file, not_same_entry, superseding};
use crate::model::{
    files_of, has_id, has_path, ids_of, index_totals, law_same_files_have_the_same_totals,
    lemma_ids_of_add, lemma_index_totals_insert, lemma_totals_add, lemma_totals_bounds,
    lemma_totals_push, lemma_totals_split_path, lemma_upsert_all_add, lemma_upsert_one,
    lemma_without_ids_union, lemma_without_no_ids, off_path, on_path, outside_ids, paths_unique,
    totals_of, upsert, upsert_all, with_path, without_ids, without_path, Index, TableKey, Totals,
};
use crate::parquet::ParquetFile;
use crate::snapshot::{
    all_in_tables, all_listed, lemma_not_listed, lemma_nothing_listed, listed, listed_in_tables,
    lists_table, DatabaseTables, PersistedSnapshot,
};
use vstd::prelude::*;

verus! {

// -- Adding files

/// Once a file is added, it is the one entry for its path, whatever was there before, and the
/// entries for other paths are unchanged.
pub proof fn law_added_file_is_the_entry_for_its_path(
    s: Seq<ParquetFile>,
    f: ParquetFile,
    path: Seq<char>,
)
    ensures
        with_path(upsert(s, f), path) == (if path == f.path@ {
            seq![f]
        } else {
            with_path(s, path)
        }),
{
    let rest = without_path(s, f.path@);
    lemma_filter_push(rest, f, on_path(path));
    if path == f.path@ {
        lemma_filter_filter(s, off_path(path), on_path(path), |g: ParquetFile| false);
        s.lemma_all_neg_filter_empty(|g: ParquetFile| false);
        assert(with_path(rest, path) =~= Seq::<ParquetFile>::empty());
        assert(Seq::<ParquetFile>::empty().push(f) =~= seq![f]);
    } else {
        lemma_filter_filter(s, off_path(f.path@), on_path(path), on_path(path));
    }
}

/// Of the files added for a path, the last one stays; the entries for a path for which none is
/// added are unchanged.
pub proof fn law_last_added_file_wins(
    s: Seq<ParquetFile>,
    added: Seq<ParquetFile>,
    path: Seq<char>,
)
    ensures
        with_path(upsert_all(s, added), path) == (if with_path(added, path).len() > 0 {
            seq![with_path(added, path).last()]
        } else {
            with_path(s, path)
        }),
    decreases added.len(),
{
    reveal(Seq::filter);
    if added.len() > 0 {
        let before = added.drop_last();
        law_last_added_file_wins(s, before, path);
        law_added_file_is_the_entry_for_its_path(upsert_all(s, before), added.last(), path);
    }
}

/// Adding files keeps the index at one entry for each path.
pub proof fn law_adding_keeps_paths_unique(s: Seq<ParquetFile>, added: Seq<ParquetFile>)
    requires
        paths_unique(s),
    ensures
        paths_unique(upsert_all(s, added)),
{
    let after = upsert_all(s, added);
    assert forall|path: Seq<char>| (#[trigger] with_path(after, path)).len() <= 1 by {
        law_last_added_file_wins(s, added, path);
        lemma_unique_on_path(s, path);
    }
    lemma_unique_from_paths(after);
}

/// Adding an entry again that is the one for its path changes neither which entries there are nor
/// the metrics.
pub proof fn law_readding_changes_nothing(s: Seq<ParquetFile>, f: ParquetFile)
    requires
        with_path(s, f.path@) == seq![f],
    ensures
        upsert(s, f).to_multiset() == s.to_multiset(),
        totals_of(upsert(s, f)) == totals_of(s),
{
    let rest = without_path(s, f.path@);
    lemma_totals_split_path(s, f.path@);
    lemma_totals_push(rest, f);
    lemma_totals_push(Seq::empty(), f);
    assert(seq![f] =~= Seq::<ParquetFile>::empty().push(f));
    lemma_multiset_split(s, on_path(f.path@), off_path(f.path@));
    broadcast use vstd::seq_lib::group_to_multiset_ensures;

    assert(Seq::<ParquetFile>::empty().to_multiset().insert(f)
        =~= vstd::multiset::Multiset::singleton(f));
    assert(upsert(s, f).to_multiset() =~= s.to_multiset());
}

/// Adding a file twice in a row is the same as adding it once.
pub proof fn law_adding_twice_is_adding_once(s: Seq<ParquetFile>, f: ParquetFile)
    ensures
        upsert(upsert(s, f), f) == upsert(s, f),
{
    let rest = without_path(s, f.path@);
    lemma_filter_push(rest, f, off_path(f.path@));
    lemma_filter_filter(s, off_path(f.path@), off_path(f.path@), off_path(f.path@));
}

proof fn lemma_multiset_split(
    s: Seq<ParquetFile>,
    p: spec_fn(ParquetFile) -> bool,
    q: spec_fn(ParquetFile) -> bool,
)
    requires
        forall|f: ParquetFile| #[trigger] p(f) == !q(f),
    ensures
        s.to_multiset() == s.filter(p).to_multiset().add(s.filter(q).to_multiset()),
    decreases s.len(),
{
    broadcast use vstd::seq_lib::group_to_multiset_ensures;

    reveal(Seq::filter);
    if s.len() > 0 {
        let rest = s.drop_last();
        lemma_multiset_split(rest, p, q);
        assert(s =~= rest.push(s.last()));
        assert(p(s.last()) == !q(s.last()));
    }
    assert(s.to_multiset() =~= s.filter(p).to_multiset().add(s.filter(q).to_multiset()));
}

// -- Removing files

/// Removing files by their ids drops the entries with these ids and no others, even where an
/// entry that stays has the path of one that goes.
pub proof fn law_removal_matches_by_id(s: Seq<ParquetFile>, ids: Set<u64>, f: ParquetFile)
    ensures
        without_ids(s, ids).contains(f) == (s.contains(f) && !ids.contains(f.id.0)),
{
    lemma_filter_contains(s, outside_ids(ids), f);
}

/// Removing files that are not in the index changes nothing.
pub proof fn law_removing_absent_files_changes_nothing(s: Seq<ParquetFile>, ids: Set<u64>)
    requires
        forall|id: u64| #[trigger] has_id(s, id) ==> !ids.contains(id),
    ensures
        without_ids(s, ids) == s,
{
    assert forall|i: int| 0 <= i < s.len() implies outside_ids(ids)(#[trigger] s[i]) by {
        assert(has_id(s, s[i].id.0));
    }
    lemma_filter_all(s, outside_ids(ids));
}

/// Removing files twice is the same as removing them once.
pub proof fn law_removing_twice_is_removing_once(s: Seq<ParquetFile>, ids: Set<u64>)
    ensures
        without_ids(without_ids(s, ids), ids) == without_ids(s, ids),
{
    lemma_filter_filter(s, outside_ids(ids), outside_ids(ids), outside_ids(ids));
}

/// Removing files keeps the index at one entry for each path.
pub proof fn law_removing_keeps_paths_unique(s: Seq<ParquetFile>, ids: Set<u64>)
    requires
        paths_unique(s),
    ensures
        paths_unique(without_ids(s, ids)),
{
    lemma_filter_unique(s, outside_ids(ids));
}

/// Applying a snapshot keeps the index at one entry for each path.
pub proof fn law_snapshot_keeps_paths_unique(
    s: Seq<ParquetFile>,
    snapshot: PersistedSnapshot,
    k: TableKey,
)
    requires
        paths_unique(s),
    ensures
        paths_unique(apply_snapshot(s, snapshot, k)),
{
    let added = listed(snapshot.databases.entries@, k);
    law_adding_keeps_paths_unique(s, added);
    law_removing_keeps_paths_unique(
        upsert_all(s, added),
        ids_of(listed(snapshot.removed_files.entries@, k)),
    );
}

/// A table that a snapshot names neither among its additions nor among its removals is unchanged,
/// whatever paths and ids it holds.
pub proof fn law_snapshot_leaves_other_tables_alone(
    s: Seq<ParquetFile>,
    snapshot: PersistedSnapshot,
    k: TableKey,
)
    requires
        !lists_table(snapshot.databases.entries@, k),
        !lists_table(snapshot.removed_files.entries@, k),
    ensures
        apply_snapshot(s, snapshot, k) == s,
{
    lemma_not_listed(snapshot.databases.entries@, k);
    lemma_not_listed(snapshot.removed_files.entries@, k);
    lemma_without_no_ids(s);
}

/// The removals of a snapshot that name no entry of a table, with what the snapshot adds to it,
/// change nothing of the table: none that names an unknown table does.
pub proof fn law_removals_of_absent_files_change_nothing(
    s: Seq<ParquetFile>,
    snapshot: PersistedSnapshot,
    k: TableKey,
)
    requires
        forall|id: u64| #[trigger]
            has_id(upsert_all(s, listed(snapshot.databases.entries@, k)), id) ==> !has_id(
                listed(snapshot.removed_files.entries@, k),
                id,
            ),
    ensures
        apply_snapshot(s, snapshot, k) == upsert_all(s, listed(snapshot.databases.entries@, k)),
{
    law_removing_absent_files_changes_nothing(
        upsert_all(s, listed(snapshot.databases.entries@, k)),
        ids_of(listed(snapshot.removed_files.entries@, k)),
    );
}

/// A snapshot that adds no file and removes none that is indexed changes neither the files of any
/// table nor the metrics. It adds nothing to the counters, so that there is always room for it.
pub proof fn law_idle_snapshot_changes_nothing(
    before: Index,
    snapshot: PersistedSnapshot,
    after: Index,
)
    requires
        before.dom().finite(),
        after.dom().finite(),
        forall|k: TableKey| #[trigger]
            files_of(after, k) == apply_snapshot(files_of(before, k), snapshot, k),
        forall|k: TableKey|
            (#[trigger] listed(snapshot.databases.entries@, k)).len() == 0,
        forall|k: TableKey, id: u64| #[trigger]
            has_id(files_of(before, k), id) ==> !has_id(
                listed(snapshot.removed_files.entries@, k),
                id,
            ),
    ensures
        forall|k: TableKey| #[trigger] files_of(after, k) == files_of(before, k),
        index_totals(after) == index_totals(before),
        totals_of(all_listed(snapshot.databases.entries@)) == Totals::zero(),
{
    lemma_nothing_listed(snapshot.databases.entries@);
    assert forall|k: TableKey| #[trigger] files_of(after, k) == files_of(before, k) by {
        assert(listed(snapshot.databases.entries@, k).len() == 0);
        law_removals_of_absent_files_change_nothing(files_of(before, k), snapshot, k);
    }
    law_same_files_have_the_same_totals(after, before);
}

// -- Any number of operations

/// What is done to the index.
pub enum Step {
    /// A file is added to a table
    Add(TableKey, ParquetFile),
    /// A snapshot is taken in
    TakeIn(PersistedSnapshot),
    /// The files with these ids are removed from a table
    Remove(TableKey, Set<u64>),
    /// The files that are marked for deletion or too old are removed
    Expire(Map<u32, DeletedTables>, Map<TableKey, i64>),
    /// The second half of such a removal
    Finish(Seq<TableRemoval>),
}

/// The files of table `k` after one step.
pub open spec fn after_step(s: Seq<ParquetFile>, step: Step, k: TableKey) -> Seq<ParquetFile> {
    match step {
        Step::Add(table, f) => if table == k {
            upsert(s, f)
        } else {
            s
        },
        Step::TakeIn(snapshot) => apply_snapshot(s, snapshot, k),
        Step::Remove(table, ids) => if table == k {
            without_ids(s, ids)
        } else {
            s
        },
        Step::Expire(deleted, cutoffs) => s.filter(to_be_kept(deleted, cutoffs, k)),
        Step::Finish(removals) => s.filter(spared(removals, k)),
    }
}

/// The files of table `k`, which holds `s` before, after `steps`.
pub open spec fn run(s: Seq<ParquetFile>, steps: Seq<Step>, k: TableKey) -> Seq<ParquetFile>
    decreases steps.len(),
{
    if steps.len() == 0 {
        s
    } else {
        after_step(run(s, steps.drop_last(), k), steps.last(), k)
    }
}

/// The files of table `k` in an index that was loaded from `snapshots`, none of them for a new
/// index, after `steps`.
pub open spec fn after_steps(
    snapshots: Seq<PersistedSnapshot>,
    steps: Seq<Step>,
    k: TableKey,
) -> Seq<ParquetFile> {
    run(replay(snapshots, k), steps, k)
}

/// However the index came about, no table has two entries for one path; and right after a file is
/// added, it is the entry for its path.
pub proof fn law_always_one_entry_per_path(
    snapshots: Seq<PersistedSnapshot>,
    steps: Seq<Step>,
    k: TableKey,
)
    ensures
        paths_unique(after_steps(snapshots, steps, k)),
        steps.len() > 0 ==> (steps.last() matches Step::Add(table, f) ==> table == k ==> with_path(
            after_steps(snapshots, steps, k),
            f.path@,
        ) == seq![f]),
    decreases steps.len(),
{
    if steps.len() == 0 {
        law_loading_leaves_paths_unique(snapshots, k);
    } else {
        let s = after_steps(snapshots, steps.drop_last(), k);
        law_always_one_entry_per_path(snapshots, steps.drop_last(), k);
        match steps.last() {
            Step::Add(table, f) => {
                law_adding_keeps_paths_unique(s, seq![f]);
                lemma_upsert_one(s, f);
                law_added_file_is_the_entry_for_its_path(s, f, f.path@);
            },
            Step::TakeIn(snapshot) => law_snapshot_keeps_paths_unique(s, snapshot, k),
            Step::Remove(table, ids) => law_removing_keeps_paths_unique(s, ids),
            Step::Expire(deleted, cutoffs) => lemma_filter_unique(
                s,
                to_be_kept(deleted, cutoffs, k),
            ),
            Step::Finish(removals) => lemma_filter_unique(s, spared(removals, k)),
        }
    }
}

// -- A snapshot as single steps

/// Adding each of `files` to table `table`, in their order.
pub open spec fn add_each(table: TableKey, files: Seq<ParquetFile>) -> Seq<Step> {
    files.map_values(|f: ParquetFile| Step::Add(table, f))
}

/// Adding each file that is listed for the tables of database `db`, in the order of the list.
pub open spec fn add_each_in_tables(
    db: DbId,
    tables: Seq<(TableId, Vec<ParquetFile>)>,
) -> Seq<Step>
    decreases tables.len(),
{
    if tables.len() == 0 {
        Seq::empty()
    } else {
        add_each_in_tables(db, tables.drop_last()) + add_each(
            (db, tables.last().0),
            tables.last().1@,
        )
    }
}

/// Adding each file that is listed, in the order of the list.
pub open spec fn add_each_listed(dbs: Seq<(DbId, DatabaseTables)>) -> Seq<Step>
    decreases dbs.len(),
{
    if dbs.len() == 0 {
        Seq::empty()
    } else {
        add_each_listed(dbs.drop_last()) + add_each_in_tables(
            dbs.last().0,
            dbs.last().1.tables.entries@,
        )
    }
}

/// Removing from each table of database `db` that is listed the files listed for it.
pub open spec fn remove_from_tables(
    db: DbId,
    tables: Seq<(TableId, Vec<ParquetFile>)>,
) -> Seq<Step>
    decreases tables.len(),
{
    if tables.len() == 0 {
        Seq::empty()
    } else {
        remove_from_tables(db, tables.drop_last()).push(
            Step::Remove((db, tables.last().0), ids_of(tables.last().1@)),
        )
    }
}

/// Removing from each table that is listed the files listed for it.
pub open spec fn remove_listed(dbs: Seq<(DbId, DatabaseTables)>) -> Seq<Step>
    decreases dbs.len(),
{
    if dbs.len() == 0 {
        Seq::empty()
    } else {
        remove_listed(dbs.drop_last()) + remove_from_tables(
            dbs.last().0,
            dbs.last().1.tables.entries@,
        )
    }
}

/// The single steps of a snapshot: each file that it adds, then what it removes from each table.
pub open spec fn single_steps(snapshot: PersistedSnapshot) -> Seq<Step> {
    add_each_listed(snapshot.databases.entries@) + remove_listed(snapshot.removed_files.entries@)
}

/// Taking in a snapshot is the same as adding each of its files by itself, in the order of the
/// list, and then removing by their ids those that it removes: every table holds the same files in
/// the same order, and the metrics are the same.
pub proof fn law_snapshot_is_its_single_steps(
    before: Index,
    snapshot: PersistedSnapshot,
    at_once: Index,
    one_by_one: Index,
)
    requires
        at_once.dom().finite(),
        one_by_one.dom().finite(),
        forall|k: TableKey| #[trigger]
            files_of(at_once, k) == apply_snapshot(files_of(before, k), snapshot, k),
        forall|k: TableKey| #[trigger]
            files_of(one_by_one, k) == run(files_of(before, k), single_steps(snapshot), k),
    ensures
        forall|k: TableKey| #[trigger] files_of(at_once, k) == files_of(one_by_one, k),
        index_totals(at_once) == index_totals(one_by_one),
{
    assert forall|k: TableKey| #[trigger] files_of(at_once, k) == files_of(one_by_one, k) by {
        law_snapshot_is_its_single_steps_in_a_table(files_of(before, k), snapshot, k);
        assert(files_of(one_by_one, k) == run(files_of(before, k), single_steps(snapshot), k));
    }
    law_same_files_have_the_same_totals(at_once, one_by_one);
}

/// In each table, taking in a snapshot is the same as adding each of its files by itself and then
/// removing those that it removes.
pub proof fn law_snapshot_is_its_single_steps_in_a_table(
    s: Seq<ParquetFile>,
    snapshot: PersistedSnapshot,
    k: TableKey,
)
    ensures
        run(s, single_steps(snapshot), k) == apply_snapshot(s, snapshot, k),
{
    let added = upsert_all(s, listed(snapshot.databases.entries@, k));
    lemma_run_add(
        s,
        add_each_listed(snapshot.databases.entries@),
        remove_listed(snapshot.removed_files.entries@),
        k,
    );
    lemma_run_add_each_listed(s, snapshot.databases.entries@, k);
    lemma_run_remove_listed(added, snapshot.removed_files.entries@, k);
}

/// The index once the files of `steps` are added one after the other.
pub open spec fn index_after(index: Index, steps: Seq<Step>) -> Index
    decreases steps.len(),
{
    if steps.len() == 0 {
        index
    } else {
        let before = index_after(index, steps.drop_last());
        match steps.last() {
            Step::Add(k, f) => before.insert(k, upsert(files_of(before, k), f)),
            _ => before,
        }
    }
}

/// Where there is room for a snapshot, there is room for each of its files when they are added one
/// after the other, up to the last: the single steps can be made wherever the snapshot can be taken
/// in at once.
pub proof fn law_room_for_a_snapshot_is_room_for_its_files(
    index: Index,
    snapshot: PersistedSnapshot,
    n: int,
)
    requires
        index.dom().finite(),
        index_totals(index).plus(
            totals_of(all_listed(snapshot.databases.entries@)),
        ).countable(),
        0 <= n < add_each_listed(snapshot.databases.entries@).len(),
    ensures
        ({
            let steps = add_each_listed(snapshot.databases.entries@);
            let now = index_after(index, steps.take(n));
            &&& now.dom().finite()
            &&& forall|k: TableKey| #[trigger]
                files_of(now, k) == run(files_of(index, k), steps.take(n), k)
            &&& steps[n] matches Step::Add(k, f) && index_totals(now).minus(
                totals_of(with_path(files_of(now, k), f.path@)),
            ).plus(Totals::of_file(f)).countable()
        }),
{
    let dbs = snapshot.databases.entries@;
    let steps = add_each_listed(dbs);
    let now = index_after(index, steps.take(n));
    lemma_add_each_listed_totals(dbs);
    assert(steps[n] is Add);
    let k = steps[n]->Add_0;
    let f = steps[n]->Add_1;
    lemma_index_after(index, steps.take(n));
    lemma_added_totals_prefix(steps, n + 1);
    assert(steps.take(n + 1).drop_last() =~= steps.take(n));
    lemma_totals_bounds(with_path(files_of(now, k), f.path@));
}

/// The totals of the files that `steps` add.
spec fn added_totals(steps: Seq<Step>) -> Totals
    decreases steps.len(),
{
    if steps.len() == 0 {
        Totals::zero()
    } else {
        match steps.last() {
            Step::Add(k, f) => added_totals(steps.drop_last()).plus(Totals::of_file(f)),
            _ => added_totals(steps.drop_last()),
        }
    }
}

spec fn only_adds(steps: Seq<Step>) -> bool {
    forall|i: int| 0 <= i < steps.len() ==> #[trigger] steps[i] is Add
}

proof fn lemma_added_totals_add(a: Seq<Step>, b: Seq<Step>)
    ensures
        added_totals(a + b) == added_totals(a).plus(added_totals(b)),
    decreases b.len(),
{
    if b.len() == 0 {
        assert(a + b =~= a);
    } else {
        lemma_added_totals_add(a, b.drop_last());
        assert((a + b).drop_last() =~= a + b.drop_last());
    }
}

proof fn lemma_added_totals_prefix(steps: Seq<Step>, n: int)
    requires
        0 <= n <= steps.len(),
    ensures
        added_totals(steps.take(n)).le(added_totals(steps)),
    decreases steps.len(),
{
    if n == steps.len() {
        assert(steps.take(n) =~= steps);
    } else {
        lemma_added_totals_prefix(steps.drop_last(), n);
        assert(steps.drop_last().take(n) =~= steps.take(n));
    }
}

proof fn lemma_add_each_totals(table: TableKey, files: Seq<ParquetFile>)
    ensures
        only_adds(add_each(table, files)),
        added_totals(add_each(table, files)) == totals_of(files),
    decreases files.len(),
{
    if files.len() > 0 {
        lemma_add_each_totals(table, files.drop_last());
        assert(add_each(table, files).drop_last() =~= add_each(table, files.drop_last()));
    }
}

proof fn lemma_add_each_in_tables_totals(db: DbId, tables: Seq<(TableId, Vec<ParquetFile>)>)
    ensures
        only_adds(add_each_in_tables(db, tables)),
        added_totals(add_each_in_tables(db, tables)) == totals_of(all_in_tables(tables)),
    decreases tables.len(),
{
    if tables.len() > 0 {
        let rest = tables.drop_last();
        let table = (db, tables.last().0);
        let files = tables.last().1@;
        lemma_add_each_in_tables_totals(db, rest);
        lemma_add_each_totals(table, files);
        lemma_added_totals_add(add_each_in_tables(db, rest), add_each(table, files));
        lemma_totals_add(all_in_tables(rest), files);
    }
}

proof fn lemma_add_each_listed_totals(dbs: Seq<(DbId, DatabaseTables)>)
    ensures
        only_adds(add_each_listed(dbs)),
        added_totals(add_each_listed(dbs)) == totals_of(all_listed(dbs)),
    decreases dbs.len(),
{
    if dbs.len() > 0 {
        let rest = dbs.drop_last();
        let db = dbs.last().0;
        let tables = dbs.last().1.tables.entries@;
        lemma_add_each_listed_totals(rest);
        lemma_add_each_in_tables_totals(db, tables);
        lemma_added_totals_add(add_each_listed(rest), add_each_in_tables(db, tables));
        lemma_totals_add(all_listed(rest), all_in_tables(tables));
    }
}

/// Adding files one after the other gives what each table holds, and no more than their totals.
proof fn lemma_index_after(index: Index, steps: Seq<Step>)
    requires
        index.dom().finite(),
        only_adds(steps),
    ensures
        index_after(index, steps).dom().finite(),
        index_totals(index_after(index, steps)).le(index_totals(index).plus(added_totals(steps))),
        forall|k: TableKey| #[trigger]
            files_of(index_after(index, steps), k) == run(files_of(index, k), steps, k),
    decreases steps.len(),
{
    if steps.len() > 0 {
        let rest = steps.drop_last();
        let before = index_after(index, rest);
        assert(only_adds(rest)) by {
            assert forall|i: int| 0 <= i < rest.len() implies #[trigger] rest[i] is Add by {
                assert(rest[i] == steps[i]);
            }
        }
        lemma_index_after(index, rest);
        assert(steps[steps.len() - 1] is Add);
        let table = steps.last()->Add_0;
        let f = steps.last()->Add_1;
        let files = files_of(before, table);
        lemma_index_totals_insert(before, table, upsert(files, f));
        lemma_totals_push(without_path(files, f.path@), f);
        lemma_totals_split_path(files, f.path@);
        lemma_totals_bounds(with_path(files, f.path@));
        assert forall|k: TableKey| #[trigger]
            files_of(index_after(index, steps), k) == run(files_of(index, k), steps, k) by {
            assert(files_of(before, k) == run(files_of(index, k), rest, k));
        }
    }
}

proof fn lemma_run_add(s: Seq<ParquetFile>, a: Seq<Step>, b: Seq<Step>, k: TableKey)
    ensures
        run(s, a + b, k) == run(run(s, a, k), b, k),
    decreases b.len(),
{
    if b.len() == 0 {
        assert(a + b =~= a);
    } else {
        lemma_run_add(s, a, b.drop_last(), k);
        assert((a + b).drop_last() =~= a + b.drop_last());
    }
}

proof fn lemma_run_add_each(
    s: Seq<ParquetFile>,
    table: TableKey,
    files: Seq<ParquetFile>,
    k: TableKey,
)
    ensures
        run(s, add_each(table, files), k) == upsert_all(
            s,
            if k == table {
                files
            } else {
                Seq::empty()
            },
        ),
    decreases files.len(),
{
    if files.len() > 0 {
        lemma_run_add_each(s, table, files.drop_last(), k);
        assert(add_each(table, files).drop_last() =~= add_each(table, files.drop_last()));
    }
}

proof fn lemma_run_add_each_in_tables(
    s: Seq<ParquetFile>,
    db: DbId,
    tables: Seq<(TableId, Vec<ParquetFile>)>,
    k: TableKey,
)
    ensures
        run(s, add_each_in_tables(db, tables), k) == upsert_all(
            s,
            if k.0 == db {
                listed_in_tables(tables, k.1)
            } else {
                Seq::empty()
            },
        ),
    decreases tables.len(),
{
    if tables.len() > 0 {
        let rest = tables.drop_last();
        let table = (db, tables.last().0);
        let files = tables.last().1@;
        let so_far: Seq<ParquetFile> = if k.0 == db {
            listed_in_tables(rest, k.1)
        } else {
            Seq::empty()
        };
        let more: Seq<ParquetFile> = if k == table {
            files
        } else {
            Seq::empty()
        };
        lemma_run_add_each_in_tables(s, db, rest, k);
        lemma_run_add(s, add_each_in_tables(db, rest), add_each(table, files), k);
        lemma_run_add_each(upsert_all(s, so_far), table, files, k);
        lemma_upsert_all_add(s, so_far, more);
        assert(k.0 != db ==> so_far + more =~= Seq::<ParquetFile>::empty());
    }
}

proof fn lemma_run_add_each_listed(
    s: Seq<ParquetFile>,
    dbs: Seq<(DbId, DatabaseTables)>,
    k: TableKey,
)
    ensures
        run(s, add_each_listed(dbs), k) == upsert_all(s, listed(dbs, k)),
    decreases dbs.len(),
{
    if dbs.len() > 0 {
        let rest = dbs.drop_last();
        let db = dbs.last().0;
        let tables = dbs.last().1.tables.entries@;
        let more: Seq<ParquetFile> = if k.0 == db {
            listed_in_tables(tables, k.1)
        } else {
            Seq::empty()
        };
        lemma_run_add_each_listed(s, rest, k);
        lemma_run_add(s, add_each_listed(rest), add_each_in_tables(db, tables), k);
        lemma_run_add_each_in_tables(upsert_all(s, listed(rest, k)), db, tables, k);
        lemma_upsert_all_add(s, listed(rest, k), more);
    }
}

proof fn lemma_run_remove_from_tables(
    s: Seq<ParquetFile>,
    db: DbId,
    tables: Seq<(TableId, Vec<ParquetFile>)>,
    k: TableKey,
)
    ensures
        run(s, remove_from_tables(db, tables), k) == without_ids(
            s,
            ids_of(
                if k.0 == db {
                    listed_in_tables(tables, k.1)
                } else {
                    Seq::empty()
                },
            ),
        ),
    decreases tables.len(),
{
    lemma_without_no_ids(s);
    if tables.len() > 0 {
        let rest = tables.drop_last();
        let files = tables.last().1@;
        let steps = remove_from_tables(db, rest);
        let last = Step::Remove((db, tables.last().0), ids_of(files));
        lemma_run_remove_from_tables(s, db, rest, k);
        assert(steps.push(last).drop_last() =~= steps);
        if k.0 == db {
            let so_far = listed_in_tables(rest, k.1);
            if k == (db, tables.last().0) {
                lemma_without_ids_union(s, ids_of(so_far), ids_of(files));
                lemma_ids_of_add(so_far, files);
            } else {
                assert(so_far + Seq::<ParquetFile>::empty() =~= so_far);
            }
        }
    }
}

proof fn lemma_run_remove_listed(
    s: Seq<ParquetFile>,
    dbs: Seq<(DbId, DatabaseTables)>,
    k: TableKey,
)
    ensures
        run(s, remove_listed(dbs), k) == without_ids(s, ids_of(listed(dbs, k))),
    decreases dbs.len(),
{
    lemma_without_no_ids(s);
    if dbs.len() > 0 {
        let rest = dbs.drop_last();
        let db = dbs.last().0;
        let tables = dbs.last().1.tables.entries@;
        let so_far = listed(rest, k);
        let more: Seq<ParquetFile> = if k.0 == db {
            listed_in_tables(tables, k.1)
        } else {
            Seq::empty()
        };
        lemma_run_remove_listed(s, rest, k);
        lemma_run_add(s, remove_listed(rest), remove_from_tables(db, tables), k);
        lemma_run_remove_from_tables(without_ids(s, ids_of(so_far)), db, tables, k);
        lemma_without_ids_union(s, ids_of(so_far), ids_of(more));
        lemma_ids_of_add(so_far, more);
    }
}

// -- Loading snapshots

proof fn lemma_loaded_on_path(s: Seq<ParquetFile>, f: ParquetFile, path: Seq<char>)
    requires
        paths_unique(s),
    ensures
        with_path(load_file(s, f), path) == (if path == f.path@ {
            seq![f]
        } else {
            with_path(s, path)
        }),
{
    lemma_unique_on_path(s, f.path@);
    if has_path(s, f.path@) {
        lemma_superseded_on_path(s, f, path);
        if path == f.path@ {
            assert(with_path(load_file(s, f), path) =~= seq![f]);
        }
    } else {
        lemma_filter_push(s, f, on_path(path));
        if path == f.path@ {
            assert(with_path(s, path) =~= Seq::<ParquetFile>::empty());
            assert(Seq::<ParquetFile>::empty().push(f) =~= seq![f]);
        }
    }
}

proof fn lemma_superseded_on_path(s: Seq<ParquetFile>, f: ParquetFile, path: Seq<char>)
    ensures
        path != f.path@ ==> with_path(s.map_values(superseding(f)), path) == with_path(s, path),
        path == f.path@ ==> {
            let found = with_path(s.map_values(superseding(f)), path);
            &&& found.len() == with_path(s, path).len()
            &&& forall|i: int| 0 <= i < found.len() ==> #[trigger] found[i] == f
        },
    decreases s.len(),
{
    reveal(Seq::filter);
    if s.len() > 0 {
        let rest = s.drop_last();
        lemma_superseded_on_path(rest, f, path);
        let last = superseding(f)(s.last());
        assert(s.map_values(superseding(f)) =~= rest.map_values(superseding(f)).push(last));
        lemma_filter_push(rest.map_values(superseding(f)), last, on_path(path));
    }
}

proof fn lemma_load_all_on_path(s: Seq<ParquetFile>, files: Seq<ParquetFile>, path: Seq<char>)
    requires
        paths_unique(s),
    ensures
        paths_unique(load_all(s, files)),
        with_path(load_all(s, files), path) == (if with_path(files, path).len() > 0 {
            seq![with_path(files, path).last()]
        } else {
            with_path(s, path)
        }),
    decreases files.len(),
{
    reveal(Seq::filter);
    if files.len() > 0 {
        let before = files.drop_last();
        let so_far = load_all(s, before);
        lemma_load_all_on_path(s, before, path);
        lemma_loaded_on_path(so_far, files.last(), path);
        let after = load_all(s, files);
        assert forall|p: Seq<char>| (#[trigger] with_path(after, p)).len() <= 1 by {
            lemma_loaded_on_path(so_far, files.last(), p);
            lemma_unique_on_path(so_far, p);
        }
        lemma_unique_from_paths(after);
    }
}

/// Whether `removed` lists the entry `f`: the same path with the same id.
pub open spec fn lists_entry(removed: Seq<ParquetFile>, f: ParquetFile) -> bool {
    exists|i: int|
        0 <= i < removed.len() && (#[trigger] removed[i]).path@ == f.path@ && removed[i].id == f.id
}

proof fn lemma_unload_all_contains(
    s: Seq<ParquetFile>,
    removed: Seq<ParquetFile>,
    f: ParquetFile,
)
    ensures
        unload_all(s, removed).contains(f) == (s.contains(f) && !lists_entry(removed, f)),
    decreases removed.len(),
{
    if removed.len() > 0 {
        let before = removed.drop_last();
        lemma_unload_all_contains(s, before, f);
        lemma_filter_contains(unload_all(s, before), not_same_entry(removed.last()), f);
        if lists_entry(before, f) {
            let i = choose|i: int|
                0 <= i < before.len() && (#[trigger] before[i]).path@ == f.path@ && before[i].id
                    == f.id;
            assert(removed[i].path@ == f.path@);
        }
        if lists_entry(removed, f) {
            let i = choose|i: int|
                0 <= i < removed.len() && (#[trigger] removed[i]).path@ == f.path@ && removed[i].id
                    == f.id;
            if i < before.len() {
                assert(before[i].path@ == f.path@);
            }
        } else {
            assert(removed[removed.len() - 1] == removed.last());
        }
    }
}

proof fn lemma_unload_all_unique(s: Seq<ParquetFile>, removed: Seq<ParquetFile>)
    requires
        paths_unique(s),
    ensures
        paths_unique(unload_all(s, removed)),
    decreases removed.len(),
{
    if removed.len() > 0 {
        lemma_unload_all_unique(s, removed.drop_last());
        lemma_filter_unique(
            unload_all(s, removed.drop_last()),
            not_same_entry(removed.last()),
        );
    }
}

/// Whatever the snapshots list, loading them leaves one entry for each path: a restart heals an
/// index that had more.
pub proof fn law_loading_leaves_paths_unique(snapshots: Seq<PersistedSnapshot>, k: TableKey)
    ensures
        paths_unique(replay(snapshots, k)),
    decreases snapshots.len(),
{
    if snapshots.len() > 0 {
        let older = replay(snapshots.drop_first(), k);
        let added = listed(snapshots[0].databases.entries@, k);
        law_loading_leaves_paths_unique(snapshots.drop_first(), k);
        lemma_load_all_on_path(older, added, Seq::empty());
        lemma_unload_all_unique(
            load_all(older, added),
            listed(snapshots[0].removed_files.entries@, k),
        );
    }
}

/// Which entries loading leaves: the last one that the newest snapshot lists for a path, and what
/// the older snapshots left for a path where it lists none; in either case not an entry that the
/// newest snapshot removes. An entry that was superseded by another one for its path is not
/// brought back, and its removal does not touch the other one, which has another id.
pub proof fn law_newest_snapshot_decides(
    snapshots: Seq<PersistedSnapshot>,
    k: TableKey,
    f: ParquetFile,
)
    requires
        snapshots.len() > 0,
    ensures
        replay(snapshots, k).contains(f) == ({
            let added = with_path(listed(snapshots[0].databases.entries@, k), f.path@);
            &&& !lists_entry(listed(snapshots[0].removed_files.entries@, k), f)
            &&& if added.len() > 0 {
                f == added.last()
            } else {
                replay(snapshots.drop_first(), k).contains(f)
            }
        }),
{
    let older = replay(snapshots.drop_first(), k);
    law_loading_leaves_paths_unique(snapshots.drop_first(), k);
    lemma_replay_one_contains(older, snapshots[0], k, f);
}

proof fn lemma_replay_one_contains(
    s: Seq<ParquetFile>,
    snapshot: PersistedSnapshot,
    k: TableKey,
    f: ParquetFile,
)
    requires
        paths_unique(s),
    ensures
        replay_one(s, snapshot, k).contains(f) == ({
            let added = with_path(listed(snapshot.databases.entries@, k), f.path@);
            &&& !lists_entry(listed(snapshot.removed_files.entries@, k), f)
            &&& if added.len() > 0 {
                f == added.last()
            } else {
                s.contains(f)
            }
        }),
{
    let added = listed(snapshot.databases.entries@, k);
    lemma_load_all_on_path(s, added, f.path@);
    lemma_contains_on_path(load_all(s, added), f);
    lemma_contains_on_path(s, f);
    lemma_only_contains(f, with_path(added, f.path@).last());
    lemma_unload_all_contains(
        load_all(s, added),
        listed(snapshot.removed_files.entries@, k),
        f,
    );
}

proof fn lemma_only_contains(f: ParquetFile, g: ParquetFile)
    ensures
        seq![g].contains(f) == (f == g),
{
    assert(seq![g][0] == g);
}

proof fn lemma_apply_contains(
    s: Seq<ParquetFile>,
    snapshot: PersistedSnapshot,
    k: TableKey,
    f: ParquetFile,
)
    ensures
        apply_snapshot(s, snapshot, k).contains(f) == ({
            let added = with_path(listed(snapshot.databases.entries@, k), f.path@);
            &&& !has_id(listed(snapshot.removed_files.entries@, k), f.id.0)
            &&& if added.len() > 0 {
                f == added.last()
            } else {
                s.contains(f)
            }
        }),
{
    let added = listed(snapshot.databases.entries@, k);
    law_last_added_file_wins(s, added, f.path@);
    lemma_contains_on_path(upsert_all(s, added), f);
    lemma_contains_on_path(s, f);
    lemma_only_contains(f, with_path(added, f.path@).last());
    law_removal_matches_by_id(
        upsert_all(s, added),
        ids_of(listed(snapshot.removed_files.entries@, k)),
        f,
    );
}

// -- Restarting

/// The files of table `k` in an index that took in `snapshots`, the newest of which comes first,
/// one after the other from the oldest to the newest.
pub open spec fn grown(snapshots: Seq<PersistedSnapshot>, k: TableKey) -> Seq<ParquetFile>
    decreases snapshots.len(),
{
    if snapshots.len() == 0 {
        Seq::empty()
    } else {
        apply_snapshot(grown(snapshots.drop_first(), k), snapshots[0], k)
    }
}

/// A file that some snapshot removes has the path of the file with its id that some snapshot adds.
pub open spec fn ids_name_paths(snapshots: Seq<PersistedSnapshot>, k: TableKey) -> bool {
    forall|i: int, j: int, f: ParquetFile, g: ParquetFile|
        #![trigger listed(snapshots[i].databases.entries@, k).contains(f),
            listed(snapshots[j].removed_files.entries@, k).contains(g)]
        0 <= i < snapshots.len() && 0 <= j < snapshots.len() && listed(
            snapshots[i].databases.entries@,
            k,
        ).contains(f) && listed(snapshots[j].removed_files.entries@, k).contains(g) && f.id == g.id
            ==> f.path@ == g.path@
}

/// A restart loses no file and brings none back: an index loaded from snapshots holds the same
/// entries, one for each path, and has the same totals as one that took them in one after the
/// other.
pub proof fn law_restart_keeps_the_files(snapshots: Seq<PersistedSnapshot>, k: TableKey)
    requires
        ids_name_paths(snapshots, k),
    ensures
        paths_unique(grown(snapshots, k)),
        paths_unique(replay(snapshots, k)),
        forall|f: ParquetFile| #[trigger]
            grown(snapshots, k).contains(f) == replay(snapshots, k).contains(f),
        totals_of(grown(snapshots, k)) == totals_of(replay(snapshots, k)),
{
    lemma_grown_as_replayed(snapshots, k);
    law_loading_leaves_paths_unique(snapshots, k);
    lemma_same_entries_same_totals(grown(snapshots, k), replay(snapshots, k));
}

proof fn lemma_grown_as_replayed(snapshots: Seq<PersistedSnapshot>, k: TableKey)
    requires
        ids_name_paths(snapshots, k),
    ensures
        paths_unique(grown(snapshots, k)),
        forall|f: ParquetFile| #[trigger]
            grown(snapshots, k).contains(f) == replay(snapshots, k).contains(f),
        forall|f: ParquetFile| #[trigger]
            grown(snapshots, k).contains(f) ==> added_by_some(snapshots, k, f),
    decreases snapshots.len(),
{
    if snapshots.len() > 0 {
        let older = snapshots.drop_first();
        let newest = snapshots[0];
        assert(ids_name_paths(older, k)) by {
            assert forall|i: int, j: int, f: ParquetFile, g: ParquetFile|
                #![trigger listed(older[i].databases.entries@, k).contains(f),
                    listed(older[j].removed_files.entries@, k).contains(g)]
                0 <= i < older.len() && 0 <= j < older.len() && listed(
                    older[i].databases.entries@,
                    k,
                ).contains(f) && listed(older[j].removed_files.entries@, k).contains(g) && f.id
                    == g.id implies f.path@ == g.path@ by {
                assert(older[i] == snapshots[i + 1]);
                assert(older[j] == snapshots[j + 1]);
            }
        }
        lemma_grown_as_replayed(older, k);
        law_loading_leaves_paths_unique(older, k);
        law_snapshot_keeps_paths_unique(grown(older, k), newest, k);
        assert forall|f: ParquetFile| #[trigger]
            grown(snapshots, k).contains(f) == replay(snapshots, k).contains(f) by {
            lemma_apply_contains(grown(older, k), newest, k, f);
            lemma_replay_one_contains(replay(older, k), newest, k, f);
            assert(grown(older, k).contains(f) == replay(older, k).contains(f));
            lemma_newest_or_older(snapshots, k, f);
            lemma_removed_alike(snapshots, k, f);
        }
        assert forall|f: ParquetFile| #[trigger] grown(snapshots, k).contains(f) implies added_by_some(
            snapshots,
            k,
            f,
        ) by {
            lemma_apply_contains(grown(older, k), newest, k, f);
            lemma_newest_or_older(snapshots, k, f);
        }
    }
}

/// Whether some snapshot adds `f` to table `k`.
spec fn added_by_some(snapshots: Seq<PersistedSnapshot>, k: TableKey, f: ParquetFile) -> bool {
    exists|i: int|
        0 <= i < snapshots.len() && listed(
            (#[trigger] snapshots[i]).databases.entries@,
            k,
        ).contains(f)
}

proof fn lemma_newest_or_older(snapshots: Seq<PersistedSnapshot>, k: TableKey, f: ParquetFile)
    requires
        snapshots.len() > 0,
    ensures
        ({
            let found = with_path(listed(snapshots[0].databases.entries@, k), f.path@);
            found.len() > 0 && f == found.last() ==> added_by_some(snapshots, k, f)
        }),
        added_by_some(snapshots.drop_first(), k, f) ==> added_by_some(snapshots, k, f),
{
    let added = listed(snapshots[0].databases.entries@, k);
    let found = with_path(added, f.path@);
    let older = snapshots.drop_first();
    lemma_filter_contains(added, on_path(f.path@), f);
    if found.len() > 0 && f == found.last() {
        assert(found.contains(found[found.len() - 1]));
        assert(listed(snapshots[0].databases.entries@, k).contains(f));
    }
    if added_by_some(older, k, f) {
        let i = choose|i: int|
            0 <= i < older.len() && listed(
                (#[trigger] older[i]).databases.entries@,
                k,
            ).contains(f);
        assert(older[i] == snapshots[i + 1]);
    }
}

/// A file that some snapshot adds is removed alike by its id and by its path and id.
proof fn lemma_removed_alike(snapshots: Seq<PersistedSnapshot>, k: TableKey, f: ParquetFile)
    requires
        snapshots.len() > 0,
        ids_name_paths(snapshots, k),
    ensures
        lists_entry(listed(snapshots[0].removed_files.entries@, k), f) ==> has_id(
            listed(snapshots[0].removed_files.entries@, k),
            f.id.0,
        ),
        added_by_some(snapshots, k, f) ==> lists_entry(
            listed(snapshots[0].removed_files.entries@, k),
            f,
        ) == has_id(listed(snapshots[0].removed_files.entries@, k), f.id.0),
{
    let removed = listed(snapshots[0].removed_files.entries@, k);
    if lists_entry(removed, f) {
        let i = choose|i: int|
            0 <= i < removed.len() && (#[trigger] removed[i]).path@ == f.path@ && removed[i].id
                == f.id;
        assert(removed[i].id.0 == f.id.0);
    }
    if has_id(removed, f.id.0) && added_by_some(snapshots, k, f) {
        let i = choose|i: int|
            0 <= i < snapshots.len() && listed(
                (#[trigger] snapshots[i]).databases.entries@,
                k,
            ).contains(f);
        let j = choose|j: int| 0 <= j < removed.len() && (#[trigger] removed[j]).id.0 == f.id.0;
        assert(listed(snapshots[i].databases.entries@, k).contains(f));
        assert(listed(snapshots[0].removed_files.entries@, k).contains(removed[j]));
        assert(f.id == removed[j].id);
        assert(removed[j].path@ == f.path@);
    }
}

/// Two lists of the same entries, one for each path, have the same totals.
proof fn lemma_same_entries_same_totals(a: Seq<ParquetFile>, b: Seq<ParquetFile>)
    requires
        paths_unique(a),
        paths_unique(b),
        forall|f: ParquetFile| #[trigger] a.contains(f) == b.contains(f),
    ensures
        totals_of(a) == totals_of(b),
    decreases a.len(),
{
    if a.len() == 0 {
        if b.len() > 0 {
            assert(b.contains(b[0]));
            assert(a.contains(b[0]));
        }
    } else {
        let f = a.last();
        let path = f.path@;
        let rest_a = a.drop_last();
        let rest_b = without_path(b, path);
        assert(a.contains(a[a.len() - 1]));
        assert(b.contains(f));
        let i = choose|i: int| 0 <= i < b.len() && b[i] == f;
        assert(b[i].path@ == path);
        lemma_unique_on_path(b, path);
        lemma_contains_on_path(b, f);
        assert(with_path(b, path) =~= seq![f]);
        lemma_totals_split_path(b, path);
        lemma_totals_push(Seq::empty(), f);
        assert(seq![f] =~= Seq::<ParquetFile>::empty().push(f));
        lemma_filter_unique(b, off_path(path));
        assert forall|i: int, j: int| 0 <= i < j < rest_a.len() implies (
        #[trigger] rest_a[i]).path@ != (#[trigger] rest_a[j]).path@ by {
            assert(a[i].path@ != a[j].path@);
        }
        assert forall|g: ParquetFile| #[trigger] rest_a.contains(g) == rest_b.contains(g) by {
            lemma_filter_contains(b, off_path(path), g);
            assert(a.contains(g) == b.contains(g));
            if rest_a.contains(g) {
                let i = choose|i: int| 0 <= i < rest_a.len() && rest_a[i] == g;
                assert(a[i] == g);
                assert(a[i].path@ != a[a.len() - 1].path@);
            }
            if a.contains(g) && g.path@ != path {
                let i = choose|i: int| 0 <= i < a.len() && a[i] == g;
                assert(rest_a[i] == g);
            }
        }
        lemma_same_entries_same_totals(rest_a, rest_b);
    }
}

} // verus!
