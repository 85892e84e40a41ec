//! Removing the files that are marked for deletion or that violate their retention period.

use crate::filters::{
    lemma_filter_agree, lemma_filter_all, lemma_filter_contains, lemma_filter_filter,
    lemma_filter_unique,
};
use crate::hash::{deleted_by_db, files_by_table, ids_in, tables_by_db, DeletedData, IdSet};
use crate::ids::{DbId, TableId};
use crate::inner::Inner;
use crate::meaning::{law_deleted_table_is_emptied, law_retention_goes_by_the_newest_row};
use crate::model::{
    files_of, has_id, ids_of, index_totals, lemma_ids_of_add, lemma_index_totals_bounds,
    lemma_index_totals_insert, lemma_table_totals_le, lemma_totals_bounds, lemma_totals_split,
    outside_ids, paths_unique, totals_of, Index, TableKey,
};
use crate::parquet::ParquetFile;
use crate::removed::{lemma_step, lemma_taken_fits, Removed};
use crate::snapshot::{files_wf, listed, only_with_tables, push_file, DatabaseFiles};
use crate::vec_map::VecMap;
use vstd::prelude::*;

verus! {

/// The tables of one database that are marked for deletion.
#[derive(Debug)]
pub enum DeletedTables {
    /// All tables in the database are marked for deletion
    All,
    /// A list of tables in the database that are marked for deletion
    List(IdSet),
}

/// Whether table `k` is marked for deletion, by itself or with its database.
pub open spec fn table_deleted(deleted: Map<u32, DeletedTables>, k: TableKey) -> bool {
    deleted.contains_key(k.0.0) && (match deleted[k.0.0] {
        DeletedTables::All => true,
        DeletedTables::List(tables) => ids_in(tables).contains(k.1.0 as u64),
    })
}

/// The test for a file of table `k` that is to be removed: its table is marked for deletion, or
/// its newest row is older than the cutoff of its table.
pub open spec fn to_be_removed(
    deleted: Map<u32, DeletedTables>,
    cutoffs: Map<TableKey, i64>,
    k: TableKey,
) -> spec_fn(ParquetFile) -> bool {
    |f: ParquetFile|
        table_deleted(deleted, k) || (cutoffs.contains_key(k) && f.max_time < cutoffs[k])
}

/// The test for a file of table `k` that is not to be removed.
pub open spec fn to_be_kept(
    deleted: Map<u32, DeletedTables>,
    cutoffs: Map<TableKey, i64>,
    k: TableKey,
) -> spec_fn(ParquetFile) -> bool {
    |f: ParquetFile| !to_be_removed(deleted, cutoffs, k)(f)
}

/// The files of table `k` that are to be removed.
pub open spec fn marked_files(
    index: Index,
    deleted: Map<u32, DeletedTables>,
    cutoffs: Map<TableKey, i64>,
    k: TableKey,
) -> Seq<ParquetFile> {
    files_of(index, k).filter(to_be_removed(deleted, cutoffs, k))
}

/// The ids of the files that are to be removed.
pub open spec fn marked_ids(
    index: Index,
    deleted: Map<u32, DeletedTables>,
    cutoffs: Map<TableKey, i64>,
) -> Set<u64> {
    Set::new(
        |id: u64|
            exists|k: TableKey| #[trigger]
                has_id(marked_files(index, deleted, cutoffs, k), id),
    )
}

/// The first entry of each id.
pub open spec fn first_per_id(s: Seq<ParquetFile>) -> Seq<ParquetFile>
    decreases s.len(),
{
    if s.len() == 0 {
        s
    } else if has_id(s.drop_last(), s.last().id.0) {
        first_per_id(s.drop_last())
    } else {
        first_per_id(s.drop_last()).push(s.last())
    }
}

/// The test for an entry whose id is listed with table `k`.
pub open spec fn owned_by(owner: Map<u64, TableKey>, k: TableKey) -> spec_fn(ParquetFile) -> bool {
    |f: ParquetFile| owner[f.id.0] == k
}

/// An id that is found in a table marked for deletion is listed with such a table.
pub open spec fn deleted_first(
    index: Index,
    deleted: Map<u32, DeletedTables>,
    cutoffs: Map<TableKey, i64>,
    owner: Map<u64, TableKey>,
) -> bool {
    forall|k: TableKey, id: u64|
        table_deleted(deleted, k) && #[trigger] has_id(
            marked_files(index, deleted, cutoffs, k),
            id,
        ) && owner.contains_key(id) ==> table_deleted(deleted, owner[id])
}

/// `removed` lists one file for each id that is to be removed: the first file with that id which
/// is to be removed from the table that `owner` gives for the id. A table that is marked for
/// deletion comes before one whose files are too old.
pub open spec fn lists_marked(
    index: Index,
    deleted: Map<u32, DeletedTables>,
    cutoffs: Map<TableKey, i64>,
    removed: DatabaseFiles,
    owner: Map<u64, TableKey>,
) -> bool {
    &&& owner.dom() == marked_ids(index, deleted, cutoffs)
    &&& forall|id: u64| #[trigger]
        owner.contains_key(id) ==> has_id(marked_files(index, deleted, cutoffs, owner[id]), id)
    &&& deleted_first(index, deleted, cutoffs, owner)
    &&& forall|k: TableKey| #[trigger]
        listed(removed.entries@, k) == first_per_id(
            marked_files(index, deleted, cutoffs, k).filter(owned_by(owner, k)),
        )
}

impl DeletedData {
    /// The number of databases with something marked for deletion.
    pub fn len(&self) -> (r: usize)
        ensures
            deleted_by_db(*self).dom().finite(),
            r == deleted_by_db(*self).dom().len(),
    {
        let dbs = self.keys();
        proof {
            dbs@.unique_seq_to_set();
            assert(dbs@.to_set() =~= deleted_by_db(*self).dom());
        }
        dbs.len()
    }
}

/// The entries of one table that are to be removed: those with one of the ids that are older than
/// the cutoff, if there is one.
#[derive(Debug)]
pub struct TableRemoval {
    pub table: TableKey,
    pub ids: IdSet,
    pub cutoff: Option<i64>,
}

impl TableRemoval {
    /// The test for an entry that is to be removed.
    pub open spec fn takes(&self) -> spec_fn(ParquetFile) -> bool {
        |f: ParquetFile| ids_in(self.ids).contains(f.id.0) && older_than(self.cutoff)(f)
    }

    /// The test for an entry that stays.
    pub open spec fn leaves(&self) -> spec_fn(ParquetFile) -> bool {
        |f: ParquetFile| !self.takes()(f)
    }

    /// Take the entries that are to be removed out of `files` and count them in `removed`.
    fn take_from(&self, files: &mut Vec<ParquetFile>, removed: &mut Removed)
        requires
            old(removed)@.plus(totals_of(old(files)@.filter(self.takes()))).fit(),
        ensures
            final(files)@ == old(files)@.filter(self.leaves()),
            final(removed)@ == old(removed)@.plus(totals_of(old(files)@.filter(self.takes()))),
    {
        let ghost all = files@;
        let ghost before = removed@;
        let mut taken: Vec<ParquetFile> = Vec::new();
        std::mem::swap(files, &mut taken);
        proof {
            reveal(Seq::filter);
        }
        for file in entries: taken
            invariant
                entries.seq() == all,
                before.plus(totals_of(all.filter(self.takes()))).fit(),
                files@ == all.take(entries.index()).filter(self.leaves()),
                removed@ == before.plus(
                    totals_of(all.take(entries.index()).filter(self.takes())),
                ),
        {
            proof {
                let n = entries.index();
                lemma_step(all, n, self.takes());
                lemma_step(all, n, self.leaves());
                lemma_taken_fits(all, n, self.takes(), before);
            }
            if self.ids.contains(file.id.0) && is_older(&file, self.cutoff) {
                removed.add(&file);
            } else {
                files.push(file);
            }
        }
        assert(all.take(all.len() as int) =~= all);
    }
}

/// The test for an entry of table `k` that none of `removals` takes.
pub open spec fn spared(removals: Seq<TableRemoval>, k: TableKey) -> spec_fn(ParquetFile) -> bool {
    |f: ParquetFile| !taken(removals, k, f)
}

/// Whether one of `removals` takes the entry `f` of table `k`.
pub open spec fn taken(removals: Seq<TableRemoval>, k: TableKey, f: ParquetFile) -> bool {
    exists|i: int|
        0 <= i < removals.len() && (#[trigger] removals[i]).table == k && removals[i].takes()(f)
}

proof fn lemma_taken_push(removals: Seq<TableRemoval>, more: TableRemoval, k: TableKey, f: ParquetFile)
    ensures
        taken(removals.push(more), k, f) == (taken(removals, k, f) || (more.table == k
            && more.takes()(f))),
{
    let all = removals.push(more);
    if taken(removals, k, f) {
        let i = choose|i: int|
            0 <= i < removals.len() && (#[trigger] removals[i]).table == k && removals[i].takes()(
                f,
            );
        assert(all[i].table == k);
    }
    assert(all[removals.len() as int] == more);
}

proof fn lemma_one_more_removal(
    removals: Seq<TableRemoval>,
    n: int,
    files: Seq<ParquetFile>,
    k: TableKey,
)
    requires
        0 <= n < removals.len(),
    ensures
        files.filter(spared(removals.take(n + 1), k)) == (if removals[n].table == k {
            files.filter(spared(removals.take(n), k)).filter(removals[n].leaves())
        } else {
            files.filter(spared(removals.take(n), k))
        }),
{
    let before = spared(removals.take(n), k);
    let after = spared(removals.take(n + 1), k);
    assert(removals.take(n + 1) =~= removals.take(n).push(removals[n]));
    assert forall|f: ParquetFile| #[trigger]
        after(f) == (before(f) && !(removals[n].table == k && removals[n].takes()(f))) by {
        lemma_taken_push(removals.take(n), removals[n], k, f);
    }
    if removals[n].table == k {
        lemma_filter_filter(files, before, removals[n].leaves(), after);
    } else {
        lemma_filter_agree(files, after, before);
    }
}

/// The files found to be removed: each id listed once, with the ids that are listed, and what goes
/// from each table.
#[derive(Debug)]
pub struct PendingDeletion {
    pub removed: DatabaseFiles,
    pub removed_ids: IdSet,
    pub removals: Vec<TableRemoval>,
}

impl PendingDeletion {
    /// Only tables with files to be removed are listed, and none only where there are no ids.
    pub open spec fn wf(&self) -> bool {
        &&& files_wf(self.removed)
        &&& only_with_tables(self.removed.entries@)
        &&& self.removed.entries@.len() == 0 <==> ids_in(self.removed_ids) == Set::<u64>::empty()
    }

    fn new() -> (r: PendingDeletion)
        ensures
            r.wf(),
            ids_in(r.removed_ids) == Set::<u64>::empty(),
            forall|k: TableKey| #[trigger]
                listed(r.removed.entries@, k) == Seq::<ParquetFile>::empty(),
            r.removals@ == Seq::<TableRemoval>::empty(),
    {
        PendingDeletion {
            removed: VecMap::new(),
            removed_ids: IdSet::new(),
            removals: Vec::new(),
        }
    }

    /// List `file`, unless its id is listed already.
    fn queue_for_removal(&mut self, db_id: DbId, table_id: TableId, file: &ParquetFile)
        requires
            old(self).wf(),
        ensures
            final(self).wf(),
            ids_in(final(self).removed_ids) == ids_in(old(self).removed_ids).insert(file.id.0),
            final(self).removals@ == old(self).removals@,
            forall|k: TableKey| #[trigger]
                listed(final(self).removed.entries@, k) == (if k == (db_id, table_id) && !ids_in(
                    old(self).removed_ids,
                ).contains(file.id.0) {
                    listed(old(self).removed.entries@, k).push(*file)
                } else {
                    listed(old(self).removed.entries@, k)
                }),
    {
        assert(ids_in(self.removed_ids).insert(file.id.0).contains(file.id.0));
        // Guard to prevent adding a file more than once.
        if self.removed_ids.insert(file.id.0) {
            push_file(&mut self.removed, db_id, table_id, file.clone());
        } else {
            assert(ids_in(old(self).removed_ids).insert(file.id.0) =~= ids_in(
                old(self).removed_ids,
            ));
        }
    }

    /// List the files of a table that has not been looked at before: all of them, or those older
    /// than `cutoff`. They go from the table.
    fn queue_table(
        &mut self,
        db_id: DbId,
        table_id: TableId,
        files: &Vec<ParquetFile>,
        cutoff: Option<i64>,
    )
        requires
            old(self).wf(),
            listed(old(self).removed.entries@, (db_id, table_id)).len() == 0,
        ensures
            final(self).wf(),
            ids_in(final(self).removed_ids) == ids_in(old(self).removed_ids).union(
                ids_of(files@.filter(older_than(cutoff))),
            ),
            forall|k: TableKey| #[trigger]
                listed(final(self).removed.entries@, k) == (if k == (db_id, table_id) {
                    first_per_id(
                        files@.filter(older_than(cutoff)).filter(
                            outside_ids(ids_in(old(self).removed_ids)),
                        ),
                    )
                } else {
                    listed(old(self).removed.entries@, k)
                }),
            ({
                let removal = final(self).removals@.last();
                &&& final(self).removals@ == old(self).removals@.push(removal)
                &&& removal.table == (db_id, table_id)
                &&& ids_in(removal.ids) == ids_of(files@.filter(older_than(cutoff)))
                &&& removal.cutoff == cutoff
            }),
    {
        let mut ids = IdSet::new();
        let ghost k = (db_id, table_id);
        let ghost before = *self;
        let ghost seen = ids_in(self.removed_ids);
        let ghost test = older_than(cutoff);
        let ghost fresh = outside_ids(seen);
        let mut i: usize = 0;
        proof {
            reveal(Seq::filter);
            assert(files@.take(0).filter(test).len() == 0);
            assert(ids_of(files@.take(0).filter(test)) =~= Set::<u64>::empty());
            assert(seen.union(ids_of(files@.take(0).filter(test))) =~= seen);
            assert(listed(before.removed.entries@, k) =~= first_per_id(
                files@.take(0).filter(test).filter(fresh),
            ));
        }
        while i < files.len()
            invariant
                i <= files@.len(),
                k == (db_id, table_id),
                test == older_than(cutoff),
                fresh == outside_ids(seen),
                self.wf(),
                self.removals@ == before.removals@,
                ids_in(ids) == ids_of(files@.take(i as int).filter(test)),
                ids_in(self.removed_ids) == seen.union(
                    ids_of(files@.take(i as int).filter(test)),
                ),
                listed(self.removed.entries@, k) == first_per_id(
                    files@.take(i as int).filter(test).filter(fresh),
                ),
                forall|j: TableKey|
                    j != k ==> #[trigger] listed(self.removed.entries@, j) == listed(
                        before.removed.entries@,
                        j,
                    ),
            decreases files@.len() - i,
        {
            let file = &files[i];
            let ghost now = *self;
            let ghost chosen = files@.take(i as int).filter(test);
            proof {
                let n = i as int;
                assert(files@.take(n + 1).drop_last() =~= files@.take(n));
                assert(files@.take(n + 1).last() == *file);
                lemma_queue_step(chosen, *file, seen);
                lemma_queue_step(chosen, *file, Set::empty());
                assert(Set::<u64>::empty().union(ids_of(chosen)) =~= ids_of(chosen));
                assert(Set::<u64>::empty().union(ids_of(chosen.push(*file))) =~= ids_of(
                    chosen.push(*file),
                ));
                reveal(Seq::filter);
            }
            // remove files if their max time (aka newest timestamp) is less than (aka older
            // than) the cutoff timestamp for the retention period
            if is_older(file, cutoff) {
                ids.insert(file.id.0);
                self.queue_for_removal(db_id, table_id, file);
                assert(files@.take(i + 1).filter(test) == chosen.push(*file));
                assert(ids_in(self.removed_ids) =~= seen.union(ids_of(chosen.push(*file))));
                assert forall|j: TableKey| j != k implies #[trigger] listed(
                    self.removed.entries@,
                    j,
                ) == listed(before.removed.entries@, j) by {
                    assert(listed(now.removed.entries@, j) == listed(before.removed.entries@, j));
                }
            } else {
                assert(files@.take(i + 1).filter(test) == chosen);
            }
            i = i + 1;
        }
        assert(files@.take(files@.len() as int) =~= files@);
        self.removals.push(TableRemoval { table: (db_id, table_id), ids, cutoff });
        assert(self.removals@.last().cutoff == cutoff);
    }
}

/// Whether `file` is older than the cutoff, if there is one.
fn is_older(file: &ParquetFile, cutoff: Option<i64>) -> (r: bool)
    ensures
        r == older_than(cutoff)(*file),
{
    match cutoff {
        Some(limit) => file.max_time < limit,
        None => true,
    }
}

/// The test for a file that is older than the cutoff, if there is one.
pub open spec fn older_than(cutoff: Option<i64>) -> spec_fn(ParquetFile) -> bool {
    |f: ParquetFile|
        match cutoff {
            Some(limit) => f.max_time < limit,
            None => true,
        }
}

proof fn lemma_queue_step(chosen: Seq<ParquetFile>, f: ParquetFile, seen: Set<u64>)
    ensures
        ({
            let fresh = outside_ids(seen);
            &&& first_per_id(chosen.push(f).filter(fresh)) == (if seen.union(
                ids_of(chosen),
            ).contains(f.id.0) {
                first_per_id(chosen.filter(fresh))
            } else {
                first_per_id(chosen.filter(fresh)).push(f)
            })
            &&& seen.union(ids_of(chosen)).insert(f.id.0) == seen.union(ids_of(chosen.push(f)))
        }),
{
    let fresh = outside_ids(seen);
    let id = f.id.0;
    let kept = chosen.filter(fresh);
    reveal(Seq::filter);
    assert(chosen.push(f).drop_last() =~= chosen);
    lemma_ids_of_add(chosen, seq![f]);
    assert(chosen + seq![f] =~= chosen.push(f));
    assert(ids_of(seq![f]) =~= set![id]) by {
        assert(seq![f][0].id.0 == id);
    }
    assert(seen.union(ids_of(chosen)).insert(id) =~= seen.union(ids_of(chosen.push(f))));
    if !seen.contains(id) {
        assert(kept.push(f).drop_last() =~= kept);
        assert(has_id(kept, id) == has_id(chosen, id)) by {
            if has_id(chosen, id) {
                let i = choose|i: int| 0 <= i < chosen.len() && (#[trigger] chosen[i]).id.0 == id;
                broadcast use vstd::seq_lib::group_filter_ensures;
                assert(kept.contains(chosen[i]));
                let j = choose|j: int| 0 <= j < kept.len() && kept[j] == chosen[i];
                assert(kept[j].id.0 == id);
            }
            if has_id(kept, id) {
                let i = choose|i: int| 0 <= i < kept.len() && (#[trigger] kept[i]).id.0 == id;
                chosen.lemma_filter_contains_rev(fresh, kept[i]);
                let j = choose|j: int| 0 <= j < chosen.len() && chosen[j] == kept[i];
                assert(chosen[j].id.0 == id);
            }
        }
    }
}

/// What the files listed so far must be: those of the tables in `visited`, which are the owners.
spec fn queued(
    pending: PendingDeletion,
    index: Index,
    deleted: Map<u32, DeletedTables>,
    cutoffs: Map<TableKey, i64>,
    visited: Set<TableKey>,
    owner: Map<u64, TableKey>,
) -> bool {
    &&& pending.wf()
    &&& owner.dom() == ids_in(pending.removed_ids)
    &&& forall|id: u64| #[trigger]
        owner.contains_key(id) ==> visited.contains(owner[id]) && has_id(
            marked_files(index, deleted, cutoffs, owner[id]),
            id,
        )
    &&& deleted_first(index, deleted, cutoffs, owner)
    &&& forall|k: TableKey, id: u64|
        visited.contains(k) && #[trigger] has_id(marked_files(index, deleted, cutoffs, k), id)
            ==> owner.contains_key(id)
    &&& forall|k: TableKey| #[trigger]
        listed(pending.removed.entries@, k) == (if visited.contains(k) {
            first_per_id(marked_files(index, deleted, cutoffs, k).filter(owned_by(owner, k)))
        } else {
            Seq::empty()
        })
    &&& forall|k: TableKey, f: ParquetFile| #[trigger]
        taken(pending.removals@, k, f) == (visited.contains(k) && has_id(
            marked_files(index, deleted, cutoffs, k),
            f.id.0,
        ) && to_be_removed(deleted, cutoffs, k)(f))
}

/// The owners once table `k` has been looked at.
spec fn owner_with(owner: Map<u64, TableKey>, marked: Seq<ParquetFile>, k: TableKey) -> Map<
    u64,
    TableKey,
> {
    Map::new(
        |id: u64| owner.contains_key(id) || has_id(marked, id),
        |id: u64|
            if owner.contains_key(id) {
                owner[id]
            } else {
                k
            },
    )
}

/// Looking at one more table.
proof fn lemma_visit(
    before: PendingDeletion,
    after: PendingDeletion,
    index: Index,
    deleted: Map<u32, DeletedTables>,
    cutoffs: Map<TableKey, i64>,
    visited: Set<TableKey>,
    owner: Map<u64, TableKey>,
    k: TableKey,
)
    requires
        queued(before, index, deleted, cutoffs, visited, owner),
        !visited.contains(k),
        table_deleted(deleted, k) || forall|j: TableKey|
            index.contains_key(j) && #[trigger] table_deleted(deleted, j) ==> visited.contains(j),
        after.wf(),
        ids_in(after.removed_ids) == ids_in(before.removed_ids).union(
            ids_of(marked_files(index, deleted, cutoffs, k)),
        ),
        forall|j: TableKey| #[trigger]
            listed(after.removed.entries@, j) == (if j == k {
                first_per_id(
                    marked_files(index, deleted, cutoffs, k).filter(
                        outside_ids(ids_in(before.removed_ids)),
                    ),
                )
            } else {
                listed(before.removed.entries@, j)
            }),
        ({
            let removal = after.removals@.last();
            &&& after.removals@ == before.removals@.push(removal)
            &&& removal.table == k
            &&& ids_in(removal.ids) == ids_of(marked_files(index, deleted, cutoffs, k))
            &&& forall|f: ParquetFile| #[trigger]
                older_than(removal.cutoff)(f) == to_be_removed(deleted, cutoffs, k)(f)
        }),
    ensures
        queued(
            after,
            index,
            deleted,
            cutoffs,
            visited.insert(k),
            owner_with(owner, marked_files(index, deleted, cutoffs, k), k),
        ),
{
    let marked = marked_files(index, deleted, cutoffs, k);
    let owner2 = owner_with(owner, marked, k);
    let visited2 = visited.insert(k);
    assert(owner2.dom() =~= ids_in(after.removed_ids));
    assert forall|j: TableKey, f: ParquetFile| #[trigger]
        taken(after.removals@, j, f) == (visited2.contains(j) && has_id(
            marked_files(index, deleted, cutoffs, j),
            f.id.0,
        ) && to_be_removed(deleted, cutoffs, j)(f)) by {
        let removal = after.removals@.last();
        lemma_taken_push(before.removals@, removal, j, f);
        assert(older_than(removal.cutoff)(f) == to_be_removed(deleted, cutoffs, k)(f));
    }
    assert forall|id: u64| #[trigger] owner2.contains_key(id) implies visited2.contains(owner2[id])
        && has_id(marked_files(index, deleted, cutoffs, owner2[id]), id) by {}
    assert forall|j: TableKey, id: u64|
        visited2.contains(j) && #[trigger] has_id(
            marked_files(index, deleted, cutoffs, j),
            id,
        ) implies owner2.contains_key(id) by {
        if j != k {
            assert(owner.contains_key(id));
        }
    }
    assert forall|j: TableKey, id: u64|
        table_deleted(deleted, j) && #[trigger] has_id(
            marked_files(index, deleted, cutoffs, j),
            id,
        ) && owner2.contains_key(id) implies table_deleted(deleted, owner2[id]) by {
        if !owner.contains_key(id) && !table_deleted(deleted, k) {
            if !index.contains_key(j) {
                reveal(Seq::filter);
                assert(marked_files(index, deleted, cutoffs, j).len() == 0);
            }
            assert(visited.contains(j));
        }
    }
    assert forall|j: TableKey| #[trigger]
        listed(after.removed.entries@, j) == (if visited2.contains(j) {
            first_per_id(marked_files(index, deleted, cutoffs, j).filter(owned_by(owner2, j)))
        } else {
            Seq::empty()
        }) by {
        let files = marked_files(index, deleted, cutoffs, j);
        if j == k {
            let fresh = outside_ids(ids_in(before.removed_ids));
            assert forall|i: int| 0 <= i < files.len() implies owned_by(owner2, k)(
                #[trigger] files[i],
            ) == fresh(files[i]) by {
                let id = files[i].id.0;
                assert(has_id(marked, id));
                if owner.contains_key(id) {
                    assert(visited.contains(owner[id]));
                }
            }
            lemma_filter_agree(files, owned_by(owner2, k), fresh);
        } else if visited.contains(j) {
            assert(listed(before.removed.entries@, j) == first_per_id(
                files.filter(owned_by(owner, j)),
            ));
            assert forall|i: int| 0 <= i < files.len() implies owned_by(owner2, j)(
                #[trigger] files[i],
            ) == owned_by(owner, j)(files[i]) by {
                assert(has_id(files, files[i].id.0));
            }
            lemma_filter_agree(files, owned_by(owner2, j), owned_by(owner, j));
        } else {
            assert(listed(before.removed.entries@, j) == Seq::<ParquetFile>::empty());
        }
    }
}

impl Inner {
    /// Mark all tables of a database for deletion.
    pub fn delete_database(&mut self, db_id: DbId)
        ensures
            final(self).files == old(self).files,
            final(self).metrics() == old(self).metrics(),
            deleted_by_db(final(self).deleted_data) == deleted_by_db(
                old(self).deleted_data,
            ).insert(db_id.0, DeletedTables::All),
            forall|k: TableKey| #[trigger]
                table_deleted(deleted_by_db(final(self).deleted_data), k) == (k.0 == db_id
                    || table_deleted(deleted_by_db(old(self).deleted_data), k)),
    {
        self.deleted_data.insert(db_id.0, DeletedTables::All);
    }

    /// Mark a table for deletion.
    pub fn delete_table(&mut self, db_id: DbId, table_id: TableId)
        ensures
            final(self).files == old(self).files,
            final(self).metrics() == old(self).metrics(),
            deleted_by_db(final(self).deleted_data).dom() == deleted_by_db(
                old(self).deleted_data,
            ).dom().insert(db_id.0),
            forall|d: u32|
                d != db_id.0 && deleted_by_db(old(self).deleted_data).contains_key(d)
                    ==> #[trigger] deleted_by_db(final(self).deleted_data)[d] == deleted_by_db(
                    old(self).deleted_data,
                )[d],
            match deleted_by_db(final(self).deleted_data)[db_id.0] {
                DeletedTables::All => deleted_by_db(old(self).deleted_data).contains_key(db_id.0)
                    && deleted_by_db(old(self).deleted_data)[db_id.0] is All,
                DeletedTables::List(tables) => {
                    let before = deleted_by_db(old(self).deleted_data);
                    if before.contains_key(db_id.0) {
                        &&& before[db_id.0] is List
                        &&& ids_in(tables) == ids_in(before[db_id.0]->List_0).insert(
                            table_id.0 as u64,
                        )
                    } else {
                        ids_in(tables) == set![table_id.0 as u64]
                    }
                },
            },
            forall|k: TableKey| #[trigger]
                table_deleted(deleted_by_db(final(self).deleted_data), k) == (k == (
                    db_id,
                    table_id,
                ) || table_deleted(deleted_by_db(old(self).deleted_data), k)),
    {
        let ghost before = deleted_by_db(self.deleted_data);
        let mut listed_before = false;
        match self.deleted_data.get_mut(db_id.0) {
            Some(deleted) => {
                listed_before = true;
                match deleted {
                    DeletedTables::All => {},  // already marked for deletion
                    DeletedTables::List(tables) => {
                        tables.insert(table_id.0 as u64);
                    },
                }
            },
            None => {},
        }
        if !listed_before {
            let mut tables = IdSet::new();
            tables.insert(table_id.0 as u64);
            self.deleted_data.insert(db_id.0, DeletedTables::List(tables));
        }
        assert(deleted_by_db(self.deleted_data).dom() =~= before.dom().insert(db_id.0));
    }

    /// Whether a table is marked for deletion.
    fn is_deleted(&self, db_id: DbId, table_id: TableId) -> (r: bool)
        ensures
            r == table_deleted(deleted_by_db(self.deleted_data), (db_id, table_id)),
    {
        match self.deleted_data.get(db_id.0) {
            Some(DeletedTables::All) => true,
            Some(DeletedTables::List(tables)) => tables.contains(table_id.0 as u64),
            None => false,
        }
    }

    /// The tables of the index that are marked for deletion.
    fn deleted_tables(&self) -> (r: Vec<TableKey>)
        ensures
            r@.no_duplicates(),
            forall|k: TableKey| #[trigger]
                r@.contains(k) <==> self.index().contains_key(k) && table_deleted(
                    deleted_by_db(self.deleted_data),
                    k,
                ),
    {
        let mut r: Vec<TableKey> = Vec::new();
        let dbs = self.deleted_data.keys();
        let ghost deleted = deleted_by_db(self.deleted_data);
        let mut i: usize = 0;
        while i < dbs.len()
            invariant
                i <= dbs@.len(),
                deleted == deleted_by_db(self.deleted_data),
                dbs@.no_duplicates(),
                r@.no_duplicates(),
                forall|k: TableKey| #[trigger]
                    r@.contains(k) <==> self.index().contains_key(k) && table_deleted(deleted, k)
                        && dbs@.take(i as int).contains(k.0.0),
            decreases dbs@.len() - i,
        {
            let db_id: u32 = dbs[i];
            let ghost so_far = r@;
            proof {
                lemma_take_contains(dbs@, i as int);
            }
            match self.files.get(db_id) {
                Some(tables) => {
                    let table_ids = tables.keys();
                    let mut j: usize = 0;
                    assert(so_far.len() <= r@.len());
                    while j < table_ids.len()
                        invariant
                            j <= table_ids@.len(),
                            deleted == deleted_by_db(self.deleted_data),
                            table_ids@.no_duplicates(),
                            tables_by_db(self.files).contains_key(db_id),
                            files_by_table(*tables) == tables_by_db(self.files)[db_id],
                            forall|t: u32| #[trigger]
                                table_ids@.contains(t) <==> files_by_table(*tables).contains_key(
                                    t,
                                ),
                            r@.no_duplicates(),
                            forall|k: TableKey| #[trigger]
                                so_far.contains(k) ==> k.0.0 != db_id,
                            forall|k: TableKey| #[trigger]
                                r@.contains(k) <==> so_far.contains(k) || (k.0.0 == db_id
                                    && table_deleted(deleted, k) && table_ids@.take(
                                    j as int,
                                ).contains(k.1.0)),
                        decreases table_ids@.len() - j,
                    {
                        let table_id: u32 = table_ids[j];
                        let ghost k = (DbId(db_id), TableId(table_id));
                        let ghost now = r@;
                        proof {
                            lemma_take_contains(table_ids@, j as int);
                            assert(!now.contains(k));
                        }
                        if self.is_deleted(DbId(db_id), TableId(table_id)) {
                            r.push((DbId(db_id), TableId(table_id)));
                            proof {
                                lemma_push_contains(now, k);
                            }
                        }
                        j = j + 1;
                    }
                    proof {
                        assert(table_ids@.take(table_ids@.len() as int) =~= table_ids@);
                    }
                },
                None => {},
            }
            i = i + 1;
        }
        proof {
            assert(dbs@.take(dbs@.len() as int) =~= dbs@);
        }
        r
    }

    /// Find the files that are marked for deletion or that violate their retention period.
    pub fn files_for_deletion(&self, cutoffs: &VecMap<TableKey, i64>) -> (r: PendingDeletion)
        requires
            cutoffs.wf(),
        ensures
            r.wf(),
            ids_in(r.removed_ids) == marked_ids(
                self.index(),
                deleted_by_db(self.deleted_data),
                cutoffs@,
            ),
            exists|owner: Map<u64, TableKey>| #[trigger]
                lists_marked(
                    self.index(),
                    deleted_by_db(self.deleted_data),
                    cutoffs@,
                    r.removed,
                    owner,
                ),
            forall|k: TableKey, f: ParquetFile| #[trigger]
                taken(r.removals@, k, f) == (has_id(
                    marked_files(self.index(), deleted_by_db(self.deleted_data), cutoffs@, k),
                    f.id.0,
                ) && to_be_removed(deleted_by_db(self.deleted_data), cutoffs@, k)(f)),
    {
        let ghost index = self.index();
        let ghost deleted = deleted_by_db(self.deleted_data);
        let ghost limits = cutoffs@;
        let mut pending = PendingDeletion::new();
        let ghost mut visited: Set<TableKey> = Set::empty();
        let ghost mut owner: Map<u64, TableKey> = Map::empty();
        assert(owner.dom() =~= ids_in(pending.removed_ids));

        // Remove any data marked for hard-deletion.
        let tables = self.deleted_tables();
        let mut i: usize = 0;
        while i < tables.len()
            invariant
                i <= tables@.len(),
                index == self.index(),
                deleted == deleted_by_db(self.deleted_data),
                tables@.no_duplicates(),
                forall|k: TableKey| #[trigger]
                    tables@.contains(k) <==> index.contains_key(k) && table_deleted(deleted, k),
                queued(pending, index, deleted, limits, visited, owner),
                forall|k: TableKey| #[trigger]
                    visited.contains(k) <==> tables@.take(i as int).contains(k),
            decreases tables@.len() - i,
        {
            let table: TableKey = tables[i];
            let ghost before = pending;
            proof {
                lemma_take_contains(tables@, i as int);
                assert(tables@.contains(table));
                assert(!visited.contains(table));
                assert(listed(pending.removed.entries@, table) == Seq::<ParquetFile>::empty());
            }
            match self.files.get(table.0.0) {
                Some(db_tables) => match db_tables.get(table.1.0) {
                    Some(files) => {
                        pending.queue_table(table.0, table.1, files, None);
                        proof {
                            assert(files@ == files_of(index, table));
                            lemma_filter_agree(
                                files@,
                                older_than(None),
                                to_be_removed(deleted, limits, table),
                            );
                            lemma_visit(
                                before,
                                pending,
                                index,
                                deleted,
                                limits,
                                visited,
                                owner,
                                table,
                            );
                            owner = owner_with(
                                owner,
                                marked_files(index, deleted, limits, table),
                                table,
                            );
                            visited = visited.insert(table);
                        }
                    },
                    None => {},
                },
                None => {},
            }
            i = i + 1;
        }
        assert(tables@.take(tables@.len() as int) =~= tables@);

        let entries = &cutoffs.entries;
        let mut j: usize = 0;
        while j < entries.len()
            invariant
                j <= entries@.len(),
                cutoffs.wf(),
                entries@ == cutoffs.entries@,
                index == self.index(),
                deleted == deleted_by_db(self.deleted_data),
                limits == cutoffs@,
                queued(pending, index, deleted, limits, visited, owner),
                forall|k: TableKey| #[trigger]
                    visited.contains(k) ==> table_deleted(deleted, k) || exists|n: int|
                        0 <= n < j && (#[trigger] entries@[n]).0 == k,
                forall|k: TableKey|
                    index.contains_key(k) && #[trigger] table_deleted(deleted, k)
                        ==> visited.contains(k),
                forall|n: int|
                    0 <= n < j && index.contains_key((#[trigger] entries@[n]).0)
                        ==> visited.contains(entries@[n].0),
            decreases entries@.len() - j,
        {
            let table: TableKey = entries[j].0;
            let cutoff: i64 = entries[j].1;
            let ghost before = pending;
            proof {
                cutoffs.lemma_entry(j as int);
            }
            // If the database or table is deleted, the files are already scheduled for deletion.
            if !self.is_deleted(table.0, table.1) {
                assert(!visited.contains(table)) by {
                    if visited.contains(table) {
                        let n = choose|n: int| 0 <= n < j && (#[trigger] entries@[n]).0 == table;
                        assert(entries@[n].0 != entries@[j as int].0);
                    }
                }
                assert(listed(pending.removed.entries@, table) == Seq::<ParquetFile>::empty());
                match self.files.get(table.0.0) {
                    Some(db_tables) => match db_tables.get(table.1.0) {
                        Some(files) => {
                            pending.queue_table(table.0, table.1, files, Some(cutoff));
                            proof {
                                assert(files@ == files_of(index, table));
                                lemma_filter_agree(
                                    files@,
                                    older_than(Some(cutoff)),
                                    to_be_removed(deleted, limits, table),
                                );
                                lemma_visit(
                                    before,
                                    pending,
                                    index,
                                    deleted,
                                    limits,
                                    visited,
                                    owner,
                                    table,
                                );
                                owner = owner_with(
                                    owner,
                                    marked_files(index, deleted, limits, table),
                                    table,
                                );
                                visited = visited.insert(table);
                            }
                        },
                        None => {},
                    },
                    None => {},
                }
            }
            j = j + 1;
        }
        proof {
            assert forall|k: TableKey| !visited.contains(k) implies #[trigger] marked_files(
                index,
                deleted,
                limits,
                k,
            ) == Seq::<ParquetFile>::empty() by {
                lemma_unvisited(*cutoffs, index, deleted, visited, k);
            }
            lemma_all_visited(pending, index, deleted, limits, visited, owner);
            assert forall|k: TableKey, f: ParquetFile| #[trigger]
                taken(pending.removals@, k, f) == (has_id(
                    marked_files(index, deleted, limits, k),
                    f.id.0,
                ) && to_be_removed(deleted, limits, k)(f)) by {
                if !visited.contains(k) {
                    assert(marked_files(index, deleted, limits, k).len() == 0);
                }
            }
        }
        pending
    }

    /// Take the entries that `removals` name out of their tables, and forget what is marked for
    /// deletion: it has been processed.
    pub fn finish_deletion(&mut self, removals: &Vec<TableRemoval>)
        requires
            old(self).wf(),
        ensures
            final(self).wf(),
            forall|k: TableKey| #[trigger]
                final(self).table(k) == old(self).table(k).filter(spared(removals@, k)),
            old(self).one_entry_per_path() ==> final(self).one_entry_per_path(),
            final(self).index().dom() == old(self).index().dom(),
            deleted_by_db(final(self).deleted_data) == Map::<u32, DeletedTables>::empty(),
    {
        let ghost before = *self;
        let mut removed = Removed::new();
        let mut i: usize = 0;
        proof {
            assert forall|k: TableKey| #[trigger]
                self.table(k) == before.table(k).filter(spared(removals@.take(0), k)) by {
                lemma_filter_all(before.table(k), spared(removals@.take(0), k));
            }
        }
        while i < removals.len()
            invariant
                i <= removals@.len(),
                before.wf(),
                self.metrics() == before.metrics(),
                self.index().dom() == before.index().dom(),
                self.index().dom().finite(),
                index_totals(self.index()).plus(removed@) == index_totals(before.index()),
                forall|k: TableKey| #[trigger]
                    self.table(k) == before.table(k).filter(
                        spared(removals@.take(i as int), k),
                    ),
            decreases removals@.len() - i,
        {
            let removal = &removals[i];
            let table: TableKey = removal.table;
            let ghost now = *self;
            let ghost kept = now.table(table).filter(removal.leaves());
            proof {
                lemma_table_totals_le(now.index(), table);
                lemma_totals_split(now.table(table), removal.leaves(), removal.takes());
                lemma_totals_bounds(kept);
                lemma_totals_bounds(now.table(table).filter(removal.takes()));
                lemma_index_totals_insert(now.index(), table, kept);
                lemma_index_totals_bounds(now.index());
                lemma_index_totals_bounds(before.index());
            }
            match self.files.get_mut(table.0.0) {
                Some(db_tables) => match db_tables.get_mut(table.1.0) {
                    Some(files) => {
                        assert(files@ == now.table(table));
                        removal.take_from(files, &mut removed);
                    },
                    None => {},
                },
                None => {},
            }
            proof {
                if now.index().contains_key(table) {
                    assert(self.index() =~= now.index().insert(table, kept));
                } else {
                    assert(self.index() =~= now.index());
                }
                assert(self.index().dom() =~= before.index().dom());
                assert forall|k: TableKey| #[trigger]
                    self.table(k) == before.table(k).filter(spared(removals@.take(i + 1), k)) by {
                    assert(now.table(k) == before.table(k).filter(
                        spared(removals@.take(i as int), k),
                    ));
                    lemma_one_more_removal(removals@, i as int, before.table(k), k);
                    if k == table && !now.index().contains_key(k) {
                        reveal(Seq::filter);
                    }
                }
            }
            i = i + 1;
        }
        let ghost dropped = *self;
        proof {
            assert(removals@.take(removals@.len() as int) =~= removals@);
            lemma_index_totals_bounds(self.index());
        }
        self.subtract(&removed);
        self.deleted_data = DeletedData::new();
        assert forall|k: TableKey| #[trigger]
            self.table(k) == before.table(k).filter(spared(removals@, k)) by {
            assert(dropped.table(k) == before.table(k).filter(spared(removals@, k)));
        }
        proof {
            if before.one_entry_per_path() {
                assert forall|k: TableKey| paths_unique(#[trigger] self.table(k)) by {
                    assert(paths_unique(before.table(k)));
                    lemma_filter_unique(before.table(k), spared(removals@, k));
                }
            }
        }
    }

    /// Remove files that are marked for deletion or that violate their retention period.
    pub fn remove_files_for_deletion(
        &mut self,
        cutoffs: &VecMap<TableKey, i64>,
    ) -> (removed: DatabaseFiles)
        requires
            old(self).wf(),
            cutoffs.wf(),
        ensures
            final(self).wf(),
            files_wf(removed),
            only_with_tables(removed.entries@),
            exists|owner: Map<u64, TableKey>| #[trigger]
                lists_marked(
                    old(self).index(),
                    deleted_by_db(old(self).deleted_data),
                    cutoffs@,
                    removed,
                    owner,
                ),
            forall|k: TableKey| #[trigger]
                final(self).table(k) == old(self).table(k).filter(
                    to_be_kept(deleted_by_db(old(self).deleted_data), cutoffs@, k),
                ),
            forall|k: TableKey|
                table_deleted(deleted_by_db(old(self).deleted_data), k) ==> (
                #[trigger] final(self).table(k)).len() == 0,
            forall|k: TableKey, f: ParquetFile|
                !table_deleted(deleted_by_db(old(self).deleted_data), k)
                    ==> #[trigger] final(self).table(k).contains(f) == (old(self).table(k).contains(
                    f,
                ) && (cutoffs@.contains_key(k) ==> f.max_time >= cutoffs@[k])),
            final(self).index().dom() == old(self).index().dom(),
            old(self).one_entry_per_path() ==> final(self).one_entry_per_path(),
            ({
                let none_marked = marked_ids(
                    old(self).index(),
                    deleted_by_db(old(self).deleted_data),
                    cutoffs@,
                ) == Set::<u64>::empty();
                &&& none_marked <==> removed.entries@.len() == 0
                &&& none_marked ==> *final(self) == *old(self)
                &&& !none_marked ==> deleted_by_db(final(self).deleted_data) == Map::<
                    u32,
                    DeletedTables,
                >::empty()
            }),
    {
        let ghost before = *self;
        let ghost deleted = deleted_by_db(self.deleted_data);
        let pending = self.files_for_deletion(cutoffs);
        proof {
            assert forall|k: TableKey| before.table(k).filter(
                #[trigger] spared(pending.removals@, k),
            ) == before.table(k).filter(to_be_kept(deleted, cutoffs@, k)) by {
                lemma_spared_are_kept(before.index(), deleted, cutoffs@, pending.removals@, k);
            }
            assert forall|k: TableKey| table_deleted(deleted, k) implies (
            #[trigger] before.table(k)).filter(to_be_kept(deleted, cutoffs@, k)).len() == 0 by {
                law_deleted_table_is_emptied(before.table(k), deleted, cutoffs@, k);
            }
            assert forall|k: TableKey, f: ParquetFile| !table_deleted(deleted, k) implies (
            #[trigger] before.table(k).filter(to_be_kept(deleted, cutoffs@, k)).contains(f)) == (
            before.table(k).contains(f) && (cutoffs@.contains_key(k) ==> f.max_time
                >= cutoffs@[k])) by {
                law_retention_goes_by_the_newest_row(before.table(k), deleted, cutoffs@, k, f);
            }
        }
        // if no persisted files are found to be in violation of their retention period, then
        // the index stays as it is
        if pending.removed.is_empty() {
            assert forall|k: TableKey| #[trigger]
                self.table(k) == self.table(k).filter(to_be_kept(deleted, cutoffs@, k)) by {
                lemma_none_to_be_removed(self.index(), deleted, cutoffs@, k);
            }
            return pending.removed;
        }
        self.finish_deletion(&pending.removals);
        assert forall|k: TableKey| #[trigger]
            self.table(k) == before.table(k).filter(to_be_kept(deleted, cutoffs@, k)) by {
            assert(before.table(k).filter(spared(pending.removals@, k)) == before.table(k).filter(
                to_be_kept(deleted, cutoffs@, k),
            ));
        }
        pending.removed
    }
}

/// What goes from a table are the files that are to be removed.
proof fn lemma_spared_are_kept(
    index: Index,
    deleted: Map<u32, DeletedTables>,
    cutoffs: Map<TableKey, i64>,
    removals: Seq<TableRemoval>,
    k: TableKey,
)
    requires
        forall|f: ParquetFile| #[trigger]
            taken(removals, k, f) == (has_id(marked_files(index, deleted, cutoffs, k), f.id.0)
                && to_be_removed(deleted, cutoffs, k)(f)),
    ensures
        files_of(index, k).filter(spared(removals, k)) == files_of(index, k).filter(
            to_be_kept(deleted, cutoffs, k),
        ),
{
    let files = files_of(index, k);
    let marked = marked_files(index, deleted, cutoffs, k);
    assert forall|i: int| 0 <= i < files.len() implies spared(removals, k)(#[trigger] files[i])
        == to_be_kept(deleted, cutoffs, k)(files[i]) by {
        let f = files[i];
        assert(files.contains(f));
        assert(taken(removals, k, f) == (has_id(marked, f.id.0) && to_be_removed(
            deleted,
            cutoffs,
            k,
        )(f)));
        lemma_filter_contains(files, to_be_removed(deleted, cutoffs, k), f);
        if to_be_removed(deleted, cutoffs, k)(f) {
            let j = choose|j: int| 0 <= j < marked.len() && marked[j] == f;
            assert(marked[j].id.0 == f.id.0);
        }
    }
    lemma_filter_agree(files, spared(removals, k), to_be_kept(deleted, cutoffs, k));
}

/// Where no ids are to be removed, all files are kept.
proof fn lemma_none_to_be_removed(
    index: Index,
    deleted: Map<u32, DeletedTables>,
    cutoffs: Map<TableKey, i64>,
    k: TableKey,
)
    requires
        marked_ids(index, deleted, cutoffs) == Set::<u64>::empty(),
    ensures
        files_of(index, k).filter(to_be_kept(deleted, cutoffs, k)) == files_of(index, k),
{
    let files = files_of(index, k);
    let marked = marked_files(index, deleted, cutoffs, k);
    assert forall|i: int| 0 <= i < files.len() implies to_be_kept(deleted, cutoffs, k)(
        #[trigger] files[i],
    ) by {
        let f = files[i];
        assert(files.contains(f));
        lemma_filter_contains(files, to_be_removed(deleted, cutoffs, k), f);
        if to_be_removed(deleted, cutoffs, k)(f) {
            let j = choose|j: int| 0 <= j < marked.len() && marked[j] == f;
            assert(marked[j].id.0 == f.id.0);
            assert(has_id(marked, f.id.0));
            assert(marked_ids(index, deleted, cutoffs).contains(f.id.0));
        }
    }
    lemma_filter_all(files, to_be_kept(deleted, cutoffs, k));
}

proof fn lemma_unvisited(
    cutoffs: VecMap<TableKey, i64>,
    index: Index,
    deleted: Map<u32, DeletedTables>,
    visited: Set<TableKey>,
    k: TableKey,
)
    requires
        cutoffs.wf(),
        !visited.contains(k),
        index.contains_key(k) && table_deleted(deleted, k) ==> visited.contains(k),
        forall|n: int|
            0 <= n < cutoffs.entries@.len() && index.contains_key(
                (#[trigger] cutoffs.entries@[n]).0,
            ) ==> visited.contains(cutoffs.entries@[n].0),
    ensures
        marked_files(index, deleted, cutoffs@, k) == Seq::<ParquetFile>::empty(),
{
    let files = files_of(index, k);
    if index.contains_key(k) {
        if cutoffs@.contains_key(k) {
            let n = choose|n: int| cutoffs.entry_for(n, k);
            assert(cutoffs.entry_for(n, k));
            assert(visited.contains(cutoffs.entries@[n].0));
        }
        files.lemma_all_neg_filter_empty(to_be_removed(deleted, cutoffs@, k));
    } else {
        reveal(Seq::filter);
    }
    assert(marked_files(index, deleted, cutoffs@, k) =~= Seq::<ParquetFile>::empty());
}

proof fn lemma_all_visited(
    pending: PendingDeletion,
    index: Index,
    deleted: Map<u32, DeletedTables>,
    cutoffs: Map<TableKey, i64>,
    visited: Set<TableKey>,
    owner: Map<u64, TableKey>,
)
    requires
        queued(pending, index, deleted, cutoffs, visited, owner),
        forall|k: TableKey|
            !visited.contains(k) ==> #[trigger] marked_files(index, deleted, cutoffs, k)
                == Seq::<ParquetFile>::empty(),
    ensures
        ids_in(pending.removed_ids) == marked_ids(index, deleted, cutoffs),
        lists_marked(index, deleted, cutoffs, pending.removed, owner),
{
    let ids = marked_ids(index, deleted, cutoffs);
    assert forall|id: u64| owner.contains_key(id) == ids.contains(id) by {
        if owner.contains_key(id) {
            assert(has_id(marked_files(index, deleted, cutoffs, owner[id]), id));
        }
        if ids.contains(id) {
            let k = choose|k: TableKey| #[trigger]
                has_id(marked_files(index, deleted, cutoffs, k), id);
            assert(visited.contains(k)) by {
                if !visited.contains(k) {
                    assert(marked_files(index, deleted, cutoffs, k).len() == 0);
                }
            }
        }
    }
    assert(owner.dom() =~= ids);
    assert forall|k: TableKey| #[trigger]
        listed(pending.removed.entries@, k) == first_per_id(
            marked_files(index, deleted, cutoffs, k).filter(owned_by(owner, k)),
        ) by {
        if !visited.contains(k) {
            assert(marked_files(index, deleted, cutoffs, k) == Seq::<ParquetFile>::empty());
            reveal(Seq::filter);
        }
    }
}

proof fn lemma_take_contains<T>(s: Seq<T>, n: int)
    requires
        0 <= n < s.len(),
        s.no_duplicates(),
    ensures
        forall|x: T| #[trigger] s.take(n + 1).contains(x) <==> x == s[n] || s.take(n).contains(x),
        !s.take(n).contains(s[n]),
        s.contains(s[n]),
{
    assert forall|x: T| #[trigger]
        s.take(n + 1).contains(x) <==> x == s[n] || s.take(n).contains(x) by {
        if s.take(n).contains(x) {
            let t = s.take(n);
            let i = choose|i: int| 0 <= i < t.len() && t[i] == x;
            assert(s.take(n + 1)[i] == x);
        }
        if s.take(n + 1).contains(x) {
            let t = s.take(n + 1);
            let i = choose|i: int| 0 <= i < t.len() && t[i] == x;
            if i < n {
                assert(s.take(n)[i] == x);
            }
        }
        assert(s.take(n + 1)[n] == s[n]);
    }
}

proof fn lemma_push_contains<T>(s: Seq<T>, x: T)
    requires
        s.no_duplicates(),
        !s.contains(x),
    ensures
        s.push(x).no_duplicates(),
        forall|y: T| #[trigger] s.push(x).contains(y) <==> y == x || s.contains(y),
{
    assert forall|y: T| #[trigger] s.push(x).contains(y) <==> y == x || s.contains(y) by {
        if s.contains(y) {
            let i = choose|i: int| 0 <= i < s.len() && s[i] == y;
            assert(s.push(x)[i] == y);
        }
        assert(s.push(x)[s.len() as int] == x);
    }
    assert forall|i: int, j: int|
        0 <= i < s.push(x).len() && 0 <= j < s.push(x).len() && i != j implies s.push(x)[i]
        != s.push(x)[j] by {
        if i == s.len() {
            assert(s.contains(s[j]));
        }
        if j == s.len() {
            assert(s.contains(s[i]));
        }
    }
}

} // verus!
