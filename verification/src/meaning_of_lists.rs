//! What the lists of files, the maps and the reports hold, said in terms of their entries.

use crate::deletion::PendingDeletion;
use crate::filters::{
    lemma_filter_contains, lemma_filter_count, lemma_filter_filter, lemma_filter_order,
};
use crate::hash::{deleted_by_db, ids_in, tables_by_db};
use crate::ids::{DbId, ParquetFileId, TableId};
use crate::inner::Inner;
use crate::load::{
    capped, collapses, collapses_in_databases, collapses_in_tables, index_of, keys_unique,
    lemma_index_of, load_all, loaded_after, replay, replay_collapses, replayed_index,
};
use crate::loader::{has_other_entry, occupied, TableLoader};
use crate::model::{files_of, has_path, index_totals, on_path, paths_unique, upsert_all, TableKey};
use crate::parquet::ParquetFile;
use crate::persisted_files::PersistedFiles;
use crate::replaced::{
    alike, held_after, replaced_by, replacements, replacements_in_databases, replacements_in_tables,
    unlike,
};
use crate::snapshot::{
    all_in_tables, all_listed, files_wf, lemma_listed, lemma_not_listed, listed, listed_in_tables,
    lists_table, only_with_tables, DatabaseFiles, DatabaseTables, PersistedSnapshot,
};
use crate::vec_map::VecMap;
use vstd::prelude::*;

verus! {

// -- Ids and keys

/// An id made of a number holds that number.
pub proof fn law_ids_hold_their_number(n: u32, m: u64)
    ensures
        <DbId as vstd::std_specs::convert::FromSpec<u32>>::from_spec(n).0 == n,
        <TableId as vstd::std_specs::convert::FromSpec<u32>>::from_spec(n).0 == n,
        <ParquetFileId as vstd::std_specs::convert::FromSpec<u64>>::from_spec(m).0 == m,
        <DbId as vstd::std_specs::convert::FromSpec<u32>>::obeys_from_spec(),
        <TableId as vstd::std_specs::convert::FromSpec<u32>>::obeys_from_spec(),
        <ParquetFileId as vstd::std_specs::convert::FromSpec<u64>>::obeys_from_spec(),
{
}

/// The index holds for a table what the maps hold for its database and its id, and nothing for any
/// other.
pub proof fn law_index_is_what_the_maps_hold(files: PersistedFiles, k: TableKey)
    ensures
        ({
            let dbs = tables_by_db(files.inner.files);
            &&& files.inner.index().contains_key(k) <==> dbs.contains_key(k.0.0)
                && dbs[k.0.0].contains_key(k.1.0)
            &&& dbs.contains_key(k.0.0) && dbs[k.0.0].contains_key(k.1.0) ==> files.table(k)
                == dbs[k.0.0][k.1.0] && files.inner.index()[k] == dbs[k.0.0][k.1.0]
            &&& !dbs.contains_key(k.0.0) ==> files.table(k).len() == 0
            &&& dbs.contains_key(k.0.0) && !dbs[k.0.0].contains_key(k.1.0) ==> files.table(k).len()
                == 0
            &&& files.table(k) == files.inner.table(k)
            &&& files.inner.held()(k) == files.inner.table(k)
            &&& files.deleted() == deleted_by_db(files.inner.deleted_data)
            &&& files.wf() == files.inner.wf()
            &&& files.one_entry_per_path() <==> forall|j: TableKey|
                paths_unique(#[trigger] files.table(j))
        }),
{
    if files.one_entry_per_path() {
        assert forall|j: TableKey| paths_unique(#[trigger] files.table(j)) by {
            assert(paths_unique(files.inner.table(j)));
        }
    }
    if forall|j: TableKey| paths_unique(#[trigger] files.table(j)) {
        assert forall|j: TableKey| paths_unique(#[trigger] files.inner.table(j)) by {
            assert(paths_unique(files.table(j)));
        }
    }
}

/// The number of tables that the index knows is finite and its counters are right, or it is not in
/// order.
pub proof fn law_order_means_right_counters(inner: Inner)
    ensures
        inner.wf() <==> inner.index().dom().finite() && inner.parquet_files_count
            == index_totals(inner.index()).count && inner.parquet_files_size_bytes@
            == index_totals(inner.index()).size_bytes
            && inner.parquet_files_row_count == index_totals(inner.index()).rows,
{
}

/// A map holds for a key the value of the one entry with that key, and no other key.
pub proof fn law_map_holds_its_entries<K, V>(map: VecMap<K, V>, k: K)
    requires
        map.wf(),
    ensures
        forall|i: int, j: int|
            0 <= i < map.entries@.len() && 0 <= j < map.entries@.len() && (
            #[trigger] map.entries@[i]).0 == (#[trigger] map.entries@[j]).0 ==> i == j,
        forall|i: int|
            0 <= i < map.entries@.len() && (#[trigger] map.entries@[i]).0 == k
                ==> map@.contains_key(k) && map@[k] == map.entries@[i].1,
        (forall|i: int| 0 <= i < map.entries@.len() ==> (#[trigger] map.entries@[i]).0 != k)
            ==> !map@.contains_key(k),
{
    assert forall|i: int| 0 <= i < map.entries@.len() && (
    #[trigger] map.entries@[i]).0 == k implies map@.contains_key(k) && map@[k]
        == map.entries@[i].1 by {
        map.lemma_entry(i);
    }
    assert forall|i: int, j: int|
        0 <= i < map.entries@.len() && 0 <= j < map.entries@.len() && (
        #[trigger] map.entries@[i]).0 == (#[trigger] map.entries@[j]).0 implies i == j by {
        if i < j {
            assert(map.entries@[i].0 != map.entries@[j].0);
        } else if j < i {
            assert(map.entries@[j].0 != map.entries@[i].0);
        }
    }
    if map@.contains_key(k) {
        let i = choose|i: int| map.entry_for(i, k);
        assert(map.entries@[i].0 == k);
    }
}

// -- Lists of files

/// What is listed for a table is, in the order of the list, the files of every entry for it: lists
/// that stand behind each other are read one after the other, and an entry for one table of one
/// database lists its files for that table and for no other.
pub proof fn law_list_is_read_in_order(
    a: Seq<(DbId, DatabaseTables)>,
    b: Seq<(DbId, DatabaseTables)>,
    db: DbId,
    x: Seq<(TableId, Vec<ParquetFile>)>,
    y: Seq<(TableId, Vec<ParquetFile>)>,
    tables: DatabaseTables,
    t: TableId,
    files: Vec<ParquetFile>,
    k: TableKey,
)
    ensures
        listed(Seq::empty(), k).len() == 0,
        listed(a + b, k) == listed(a, k) + listed(b, k),
        listed(seq![(db, tables)], k) == (if k.0 == db {
            listed_in_tables(tables.tables.entries@, k.1)
        } else {
            Seq::empty()
        }),
        listed_in_tables(Seq::empty(), k.1).len() == 0,
        listed_in_tables(x + y, k.1) == listed_in_tables(x, k.1) + listed_in_tables(y, k.1),
        listed_in_tables(seq![(t, files)], k.1) == (if k.1 == t {
            files@
        } else {
            Seq::empty()
        }),
{
    lemma_listed_add(a, b, k);
    lemma_in_tables_add(x, y, k.1);
    let one = seq![(db, tables)];
    assert(one.drop_last() =~= Seq::<(DbId, DatabaseTables)>::empty());
    assert(listed(one.drop_last(), k) =~= Seq::<ParquetFile>::empty());
    assert(listed(one, k) =~= (if k.0 == db {
        listed_in_tables(tables.tables.entries@, k.1)
    } else {
        Seq::empty()
    }));
    let single = seq![(t, files)];
    assert(single.drop_last() =~= Seq::<(TableId, Vec<ParquetFile>)>::empty());
    assert(listed_in_tables(single.drop_last(), k.1) =~= Seq::<ParquetFile>::empty());
    assert(listed_in_tables(single, k.1) =~= (if k.1 == t {
        files@
    } else {
        Seq::empty()
    }));
}

proof fn lemma_listed_add(
    a: Seq<(DbId, DatabaseTables)>,
    b: Seq<(DbId, DatabaseTables)>,
    k: TableKey,
)
    ensures
        listed(a + b, k) == listed(a, k) + listed(b, k),
    decreases b.len(),
{
    if b.len() == 0 {
        assert(a + b =~= a);
        assert(listed(a, k) + listed(b, k) =~= listed(a, k));
    } else {
        lemma_listed_add(a, b.drop_last(), k);
        assert((a + b).drop_last() =~= a + b.drop_last());
        assert(listed(a + b, k) =~= listed(a, k) + listed(b, k));
    }
}

proof fn lemma_in_tables_add(
    x: Seq<(TableId, Vec<ParquetFile>)>,
    y: Seq<(TableId, Vec<ParquetFile>)>,
    t: TableId,
)
    ensures
        listed_in_tables(x + y, t) == listed_in_tables(x, t) + listed_in_tables(y, t),
    decreases y.len(),
{
    if y.len() == 0 {
        assert(x + y =~= x);
        assert(listed_in_tables(x, t) + listed_in_tables(y, t) =~= listed_in_tables(x, t));
    } else {
        lemma_in_tables_add(x, y.drop_last(), t);
        assert((x + y).drop_last() =~= x + y.drop_last());
        assert(listed_in_tables(x + y, t) =~= listed_in_tables(x, t) + listed_in_tables(y, t));
    }
}

/// All that is listed is what every entry lists, in the order of the list.
pub proof fn law_all_listed_is_every_entry(
    a: Seq<(DbId, DatabaseTables)>,
    db: DbId,
    tables: DatabaseTables,
    x: Seq<(TableId, Vec<ParquetFile>)>,
    t: TableId,
    files: Vec<ParquetFile>,
)
    ensures
        all_listed(Seq::empty()).len() == 0,
        all_listed(a.push((db, tables))) == all_listed(a) + all_in_tables(tables.tables.entries@),
        all_in_tables(Seq::empty()).len() == 0,
        all_in_tables(x.push((t, files))) == all_in_tables(x) + files@,
{
    assert(a.push((db, tables)).drop_last() =~= a);
    assert(x.push((t, files)).drop_last() =~= x);
}

/// A list that is in order has one entry for a database and one for a table of it, and what it lists
/// for the table are the files of that entry.
pub proof fn law_ordered_list_has_one_entry_for_a_table(dbs: DatabaseFiles, i: int, j: int)
    requires
        files_wf(dbs),
        0 <= i < dbs.entries@.len(),
        0 <= j < dbs.entries@[i].1.tables.entries@.len(),
    ensures
        ({
            let (db, tables) = dbs.entries@[i];
            let (t, files) = tables.tables.entries@[j];
            &&& listed(dbs.entries@, (db, t)) == files@
            &&& lists_table(dbs.entries@, (db, t))
            &&& forall|n: int|
                0 <= n < dbs.entries@.len() && n != i ==> (#[trigger] dbs.entries@[n]).0 != db
            &&& forall|n: int|
                0 <= n < tables.tables.entries@.len() && n != j ==> (
                #[trigger] tables.tables.entries@[n]).0 != t
        }),
{
    let (db, tables) = dbs.entries@[i];
    let (t, files) = tables.tables.entries@[j];
    dbs.lemma_entry(i);
    assert(dbs.entries@[i].1.tables.wf());
    tables.tables.lemma_entry(j);
    lemma_listed(dbs, (db, t));
    law_map_holds_its_entries(dbs, db);
    law_map_holds_its_entries(tables.tables, t);
    assert(dbs.entries@[i].1.tables.entries@[j].0 == t);
    assert forall|n: int| 0 <= n < dbs.entries@.len() && n != i implies (
    #[trigger] dbs.entries@[n]).0 != db by {
        if dbs.entries@[n].0 == dbs.entries@[i].0 {
            assert(n == i);
        }
    }
    assert forall|n: int| 0 <= n < tables.tables.entries@.len() && n != j implies (
    #[trigger] tables.tables.entries@[n]).0 != t by {
        if tables.tables.entries@[n].0 == tables.tables.entries@[j].0 {
            assert(n == j);
        }
    }
}

/// A list without empty entries has a table for every database and a file for every table.
pub proof fn law_list_without_empty_entries(dbs: Seq<(DbId, DatabaseTables)>, i: int)
    requires
        only_with_tables(dbs),
        0 <= i < dbs.len(),
    ensures
        dbs[i].1.tables.entries@.len() > 0,
        forall|j: int|
            0 <= j < dbs[i].1.tables.entries@.len() ==> (
            #[trigger] dbs[i].1.tables.entries@[j]).1@.len() > 0,
{
}

/// A table that no entry names has nothing listed.
pub proof fn law_unnamed_table_has_nothing_listed(dbs: Seq<(DbId, DatabaseTables)>, k: TableKey)
    requires
        forall|i: int, j: int|
            0 <= i < dbs.len() && 0 <= j < (#[trigger] dbs[i]).1.tables.entries@.len()
                && dbs[i].0 == k.0 ==> (#[trigger] dbs[i].1.tables.entries@[j]).0 != k.1,
    ensures
        !lists_table(dbs, k),
        listed(dbs, k).len() == 0,
{
    lemma_not_listed(dbs, k);
}

/// A removal that was found is in order where its list is, without empty entries, and empty exactly
/// where no ids were found.
pub proof fn law_pending_deletion_in_order(pending: PendingDeletion)
    ensures
        pending.wf() <==> files_wf(pending.removed) && only_with_tables(pending.removed.entries@)
            && (pending.removed.entries@.len() == 0 <==> forall|id: u64|
            !ids_in(pending.removed_ids).contains(id)),
{
    if forall|id: u64| !ids_in(pending.removed_ids).contains(id) {
        assert(ids_in(pending.removed_ids) =~= Set::<u64>::empty());
    }
}

/// An index made of tables holds for each of them its files, and knows no other table.
pub proof fn law_index_of_tables_holds_their_files(
    tables: Seq<(TableKey, Vec<ParquetFile>)>,
    i: int,
    k: TableKey,
)
    requires
        forall|m: int, n: int|
            0 <= m < n < tables.len() ==> (#[trigger] tables[m]).0 != (#[trigger] tables[n]).0,
        0 <= i < tables.len(),
    ensures
        keys_unique(tables),
        index_of(tables).contains_key(tables[i].0),
        index_of(tables)[tables[i].0] == tables[i].1@,
        (forall|n: int| 0 <= n < tables.len() ==> (#[trigger] tables[n]).0 != k) ==> !index_of(
            tables,
        ).contains_key(k),
{
    lemma_index_of(tables);
}

/// The index that a replay leaves knows the tables with files, and their files.
pub proof fn law_replayed_index_holds_what_is_left(
    snapshots: Seq<PersistedSnapshot>,
    k: TableKey,
)
    ensures
        files_of(replayed_index(snapshots), k) == replay(snapshots, k),
        replayed_index(snapshots).contains_key(k) <==> replay(snapshots, k).len() > 0,
{
    if replay(snapshots, k).len() == 0 {
        assert(replay(snapshots, k) =~= Seq::<ParquetFile>::empty());
    }
}

// -- The loader of a table

/// A loader holds a file exactly where a slot does; slots are read in their order.
pub proof fn law_loader_holds_what_its_slots_hold(
    loader: TableLoader,
    slots: Seq<Option<ParquetFile>>,
    f: ParquetFile,
)
    ensures
        loader@ == occupied(loader.files@),
        occupied(Seq::empty()).len() == 0,
        occupied(slots.push(None)) == occupied(slots),
        occupied(slots.push(Some(f))) == occupied(slots).push(f),
{
    reveal(Seq::filter_map);
    assert(slots.push(None).drop_last() =~= slots);
    assert(slots.push(Some(f)).drop_last() =~= slots);
    assert(occupied(slots) + seq![f] =~= occupied(slots).push(f));
}

/// An entry for the path of a file that has another id: there is one where the fields say so.
pub proof fn law_other_entry_has_the_path_and_another_id(s: Seq<ParquetFile>, f: ParquetFile)
    ensures
        has_other_entry(s, f) <==> exists|i: int|
            0 <= i < s.len() && (#[trigger] s[i]).path@ == f.path@ && s[i].id.0 != f.id.0,
        has_path(s, f.path@) <==> exists|i: int|
            0 <= i < s.len() && (#[trigger] s[i]).path@ == f.path@,
{
    if has_other_entry(s, f) {
        let i = choose|i: int|
            0 <= i < s.len() && (#[trigger] s[i]).path@ == f.path@ && s[i].id != f.id;
        assert(s[i].id.0 != f.id.0);
    }
    if exists|i: int|
        0 <= i < s.len() && (#[trigger] s[i]).path@ == f.path@ && s[i].id.0 != f.id.0 {
        let i = choose|i: int|
            0 <= i < s.len() && (#[trigger] s[i]).path@ == f.path@ && s[i].id.0 != f.id.0;
        assert(s[i].id != f.id);
    }
}

// -- What is counted while loading

/// Every file that is loaded is an entry more, or takes the place of an entry that has its id, or is
/// counted as taking the place of one that has another id.
pub proof fn law_every_loaded_file_is_accounted_for(
    s: Seq<ParquetFile>,
    files: Seq<ParquetFile>,
)
    requires
        forall|i: int, j: int|
            0 <= i < s.len() && 0 <= j < files.len() ==> (#[trigger] s[i]).id != (
            #[trigger] files[j]).id,
        forall|i: int, j: int|
            0 <= i < j < files.len() ==> (#[trigger] files[i]).id != (#[trigger] files[j]).id,
    ensures
        load_all(s, files).len() + collapses(s, files) == s.len() + files.len(),
    decreases files.len(),
{
    if files.len() > 0 {
        let before = files.drop_last();
        let last = files.last();
        assert forall|i: int, j: int|
            0 <= i < s.len() && 0 <= j < before.len() implies (#[trigger] s[i]).id != (
        #[trigger] before[j]).id by {
            assert(before[j] == files[j]);
        }
        assert forall|i: int, j: int| 0 <= i < j < before.len() implies (
        #[trigger] before[i]).id != (#[trigger] before[j]).id by {
            assert(files[i].id != files[j].id);
        }
        law_every_loaded_file_is_accounted_for(s, before);
        let now = load_all(s, before);
        assert forall|i: int| 0 <= i < now.len() implies (#[trigger] now[i]).id != last.id by {
            lemma_loaded_from(s, before, i);
            if s.contains(now[i]) {
                let j = choose|j: int| 0 <= j < s.len() && s[j] == now[i];
                assert(s[j].id != files[files.len() - 1].id);
            } else {
                let j = choose|j: int| 0 <= j < before.len() && before[j] == now[i];
                assert(files[j].id != files[files.len() - 1].id);
            }
        }
        assert(has_other_entry(now, last) == has_path(now, last.path@)) by {
            if has_path(now, last.path@) {
                let i = choose|i: int|
                    0 <= i < now.len() && (#[trigger] now[i]).path@ == last.path@;
                assert(now[i].id != last.id);
            }
        }
    }
}

proof fn lemma_loaded_from(s: Seq<ParquetFile>, files: Seq<ParquetFile>, i: int)
    requires
        0 <= i < load_all(s, files).len(),
    ensures
        s.contains(load_all(s, files)[i]) || files.contains(load_all(s, files)[i]),
    decreases files.len(),
{
    if files.len() == 0 {
        assert(s.contains(s[i]));
    } else {
        let before = files.drop_last();
        let last = files.last();
        let now = load_all(s, before);
        let f = load_all(s, files)[i];
        assert(files[files.len() - 1] == last);
        if f != last {
            assert(f == now[i]);
            lemma_loaded_from(s, before, i);
            if before.contains(f) {
                let j = choose|j: int| 0 <= j < before.len() && before[j] == f;
                assert(files[j] == f);
            }
        } else {
            assert(files.contains(last));
        }
    }
}

/// Loading one file counts where there is an entry for its path that has another id, and only there;
/// files, tables, databases and snapshots are counted one after the other, each over what was loaded
/// before it.
pub proof fn law_collapsed_files_are_counted_one_after_the_other(
    s: Seq<ParquetFile>,
    a: Seq<ParquetFile>,
    f: ParquetFile,
    loaded: spec_fn(TableKey) -> Seq<ParquetFile>,
    db: DbId,
    x: Seq<(TableId, Vec<ParquetFile>)>,
    t: TableId,
    files: Vec<ParquetFile>,
    dbs: Seq<(DbId, DatabaseTables)>,
    tables: DatabaseTables,
    older: Seq<PersistedSnapshot>,
    newest: PersistedSnapshot,
)
    ensures
        collapses(s, Seq::empty()) == 0,
        collapses(s, a.push(f)) == collapses(s, a) + (if exists|i: int|
            0 <= i < load_all(s, a).len() && (#[trigger] load_all(s, a)[i]).path@ == f.path@
                && load_all(s, a)[i].id != f.id {
            1int
        } else {
            0
        }),
        collapses_in_tables(loaded, db, Seq::empty()) == 0,
        collapses_in_tables(loaded, db, x.push((t, files))) == collapses_in_tables(loaded, db, x)
            + collapses(load_all(loaded((db, t)), listed_in_tables(x, t)), files@),
        collapses_in_databases(loaded, Seq::empty()) == 0,
        collapses_in_databases(loaded, dbs.push((db, tables))) == collapses_in_databases(
            loaded,
            dbs,
        ) + collapses_in_tables(
            |k: TableKey| load_all(loaded(k), listed(dbs, k)),
            db,
            tables.tables.entries@,
        ),
        replay_collapses(Seq::empty()) == 0,
        replay_collapses(seq![newest] + older) == replay_collapses(older) + collapses_in_databases(
            |k: TableKey| replay(older, k),
            newest.databases.entries@,
        ),
{
    assert(a.push(f).drop_last() =~= a);
    assert(x.push((t, files)).drop_last() =~= x);
    assert(dbs.push((db, tables)).drop_last() =~= dbs);
    assert(loaded_after(loaded, dbs) =~= (|k: TableKey| load_all(loaded(k), listed(dbs, k))));
    assert((seq![newest] + older).drop_first() =~= older);
}

/// The count is told as it is up to the most that 64 bits hold, and as that beyond.
pub proof fn law_count_is_told_up_to_64_bits(n: int)
    ensures
        n <= 0xffff_ffff_ffff_ffff ==> capped(n) == n,
        n > 0xffff_ffff_ffff_ffff ==> capped(n) == 0xffff_ffff_ffff_ffff,
{
}

// -- What was replaced

/// Two files are alike where all their fields agree: a file is like itself, and two alike files
/// with the same path are the same.
pub proof fn law_alike_files_are_the_same(f: ParquetFile, g: ParquetFile)
    ensures
        alike(f, f),
        alike(f, g) ==> f.path@ == g.path@ && (f.path == g.path ==> f == g),
        alike(f, g) == alike(g, f),
        f.path@ == g.path@ && f.id == g.id && f.size_bytes == g.size_bytes && f.row_count
            == g.row_count && f.chunk_time == g.chunk_time && f.min_time == g.min_time && f.max_time
            == g.max_time ==> alike(f, g),
{
}

/// A file takes the place of the entries for its path; those of them that differ from it are told,
/// each as often as it is there and in the same order.
pub proof fn law_differing_entries_are_told(
    s: Seq<ParquetFile>,
    f: ParquetFile,
    g: ParquetFile,
)
    ensures
        replaced_by(s, f).to_multiset().count(g) == (if g.path@ == f.path@ && (g.id != f.id
            || g.size_bytes != f.size_bytes || g.row_count != f.row_count || g.chunk_time
            != f.chunk_time || g.min_time != f.min_time || g.max_time != f.max_time) {
            s.to_multiset().count(g)
        } else {
            0
        }),
        forall|i: int, j: int|
            0 <= i < j < s.len() && replaced_by(s, f).contains(#[trigger] s[i]) && replaced_by(
                s,
                f,
            ).contains(#[trigger] s[j]) ==> exists|a: int, b: int|
                0 <= a < b < replaced_by(s, f).len() && #[trigger] replaced_by(s, f)[a] == s[i]
                    && #[trigger] replaced_by(s, f)[b] == s[j],
{
    let on = on_path(f.path@);
    let differ = unlike(f);
    let both = |h: ParquetFile| on(h) && differ(h);
    lemma_filter_filter(s, on, differ, both);
    lemma_filter_count(s, both, g);
    assert forall|i: int, j: int|
        0 <= i < j < s.len() && replaced_by(s, f).contains(#[trigger] s[i]) && replaced_by(
            s,
            f,
        ).contains(#[trigger] s[j]) implies exists|a: int, b: int|
        0 <= a < b < replaced_by(s, f).len() && #[trigger] replaced_by(s, f)[a] == s[i]
            && #[trigger] replaced_by(s, f)[b] == s[j] by {
        lemma_filter_contains(s, both, s[i]);
        lemma_filter_contains(s, both, s[j]);
        lemma_filter_order(s, both, i, j);
    }
}

/// What a snapshot replaces is told one file after the other, each over what the table holds once
/// those before it are added, with the file that takes the place.
pub proof fn law_replacements_are_told_one_after_the_other(
    s: Seq<ParquetFile>,
    a: Seq<ParquetFile>,
    f: ParquetFile,
    n: int,
    held: spec_fn(TableKey) -> Seq<ParquetFile>,
    db: DbId,
    x: Seq<(TableId, Vec<ParquetFile>)>,
    t: TableId,
    files: Vec<ParquetFile>,
    dbs: Seq<(DbId, DatabaseTables)>,
    tables: DatabaseTables,
)
    ensures
        replacements(s, Seq::empty()).len() == 0,
        ({
            let before = replacements(s, a);
            let after = replacements(s, a.push(f));
            let more = replaced_by(upsert_all(s, a), f);
            &&& after.len() == before.len() + more.len()
            &&& 0 <= n < before.len() ==> after[n] == before[n]
            &&& 0 <= n < more.len() ==> after[before.len() + n].replaced == more[n]
                && after[before.len() + n].by == f
        }),
        replacements_in_tables(held, db, Seq::empty()).len() == 0,
        replacements_in_tables(held, db, x.push((t, files))) == replacements_in_tables(held, db, x)
            + replacements(upsert_all(held((db, t)), listed_in_tables(x, t)), files@),
        replacements_in_databases(held, Seq::empty()).len() == 0,
        replacements_in_databases(held, dbs.push((db, tables))) == replacements_in_databases(
            held,
            dbs,
        ) + replacements_in_tables(
            |k: TableKey| upsert_all(held(k), listed(dbs, k)),
            db,
            tables.tables.entries@,
        ),
{
    assert(a.push(f).drop_last() =~= a);
    assert(x.push((t, files)).drop_last() =~= x);
    assert(dbs.push((db, tables)).drop_last() =~= dbs);
    assert(held_after(held, dbs) =~= (|k: TableKey| upsert_all(held(k), listed(dbs, k))));
}

} // verus!
