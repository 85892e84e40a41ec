//! What holds of removing the files that are marked for deletion or too old.

use crate::deletion::{
    first_per_id, lists_marked, marked_files, marked_ids, owned_by, table_deleted, to_be_kept,
    to_be_removed, DeletedTables,
};
use crate::filters::{lemma_filter_all, lemma_filter_contains};
use crate::model::{files_of, has_id, lemma_totals_split, totals_of, Index, TableKey};
use crate::parquet::ParquetFile;
use crate::snapshot::{listed, DatabaseFiles};
use vstd::prelude::*;

verus! {

/// No two entries have one id.
pub open spec fn ids_unique(s: Seq<ParquetFile>) -> bool {
    forall|i: int, j: int| 0 <= i < j < s.len() ==> (#[trigger] s[i]).id.0 != (#[trigger] s[j]).id.0
}

/// No two entries of the index have one id, in one table or in two.
pub open spec fn index_ids_unique(index: Index) -> bool {
    &&& forall|k: TableKey| ids_unique(#[trigger] files_of(index, k))
    &&& forall|j: TableKey, k: TableKey, id: u64| #[trigger]
        has_id(files_of(index, j), id) && #[trigger] has_id(files_of(index, k), id) ==> j == k
}

/// Once the files that are to be removed have been removed, none is left to be removed, as long as
/// no more tables are marked for deletion: doing it again with the same cutoffs removes nothing.
pub proof fn law_nothing_is_left_to_be_removed(
    before: Index,
    deleted: Map<u32, DeletedTables>,
    cutoffs: Map<TableKey, i64>,
    after: Index,
    deleted_after: Map<u32, DeletedTables>,
)
    requires
        forall|k: TableKey| #[trigger]
            files_of(after, k) == files_of(before, k).filter(to_be_kept(deleted, cutoffs, k)),
        forall|k: TableKey| #[trigger]
            table_deleted(deleted_after, k) ==> table_deleted(deleted, k),
    ensures
        marked_ids(after, deleted_after, cutoffs) == Set::<u64>::empty(),
{
    assert forall|id: u64| !marked_ids(after, deleted_after, cutoffs).contains(id) by {
        if marked_ids(after, deleted_after, cutoffs).contains(id) {
            let k = choose|k: TableKey| #[trigger]
                has_id(marked_files(after, deleted_after, cutoffs, k), id);
            let left = marked_files(after, deleted_after, cutoffs, k);
            let i = choose|i: int| 0 <= i < left.len() && (#[trigger] left[i]).id.0 == id;
            let f = left[i];
            assert(left.contains(f));
            lemma_filter_contains(
                files_of(after, k),
                to_be_removed(deleted_after, cutoffs, k),
                f,
            );
            lemma_filter_contains(files_of(before, k), to_be_kept(deleted, cutoffs, k), f);
            assert(files_of(after, k) == files_of(before, k).filter(
                to_be_kept(deleted, cutoffs, k),
            ));
            assert(table_deleted(deleted_after, k) ==> table_deleted(deleted, k));
        }
    }
    assert(marked_ids(after, deleted_after, cutoffs) =~= Set::<u64>::empty());
}

/// A table that is not marked for deletion and has no cutoff has no files that are to be removed,
/// and keeps all its files, also those that share an id with a file that goes from another table.
pub proof fn law_only_marked_tables_are_touched(
    index: Index,
    deleted: Map<u32, DeletedTables>,
    cutoffs: Map<TableKey, i64>,
    k: TableKey,
)
    requires
        !table_deleted(deleted, k),
        !cutoffs.contains_key(k),
    ensures
        marked_files(index, deleted, cutoffs, k) == Seq::<ParquetFile>::empty(),
        files_of(index, k).filter(to_be_kept(deleted, cutoffs, k)) == files_of(index, k),
{
    lemma_filter_all(files_of(index, k), to_be_kept(deleted, cutoffs, k));
    files_of(index, k).lemma_all_neg_filter_empty(to_be_removed(deleted, cutoffs, k));
    assert(marked_files(index, deleted, cutoffs, k) =~= Seq::<ParquetFile>::empty());
}

/// Each id that is to be removed is listed once, with one table, and no other id is listed.
pub proof fn law_each_id_is_listed_once(
    index: Index,
    deleted: Map<u32, DeletedTables>,
    cutoffs: Map<TableKey, i64>,
    removed: DatabaseFiles,
    owner: Map<u64, TableKey>,
)
    requires
        lists_marked(index, deleted, cutoffs, removed, owner),
    ensures
        forall|k: TableKey| ids_unique(#[trigger] listed(removed.entries@, k)),
        forall|k: TableKey, id: u64| #[trigger]
            has_id(listed(removed.entries@, k), id) == (marked_ids(
                index,
                deleted,
                cutoffs,
            ).contains(id) && owner[id] == k),
{
    assert forall|k: TableKey| ids_unique(#[trigger] listed(removed.entries@, k)) by {
        lemma_first_per_id(
            marked_files(index, deleted, cutoffs, k).filter(owned_by(owner, k)),
            0,
        );
    }
    assert forall|k: TableKey, id: u64| #[trigger]
        has_id(listed(removed.entries@, k), id) == (marked_ids(index, deleted, cutoffs).contains(id)
            && owner[id] == k) by {
        let marked = marked_files(index, deleted, cutoffs, k);
        let owned = marked.filter(owned_by(owner, k));
        assert(listed(removed.entries@, k) == first_per_id(owned));
        lemma_first_per_id(owned, id);
        if has_id(owned, id) {
            let i = choose|i: int| 0 <= i < owned.len() && (#[trigger] owned[i]).id.0 == id;
            assert(owned.contains(owned[i]));
            lemma_filter_contains(marked, owned_by(owner, k), owned[i]);
            let j = choose|j: int| 0 <= j < marked.len() && marked[j] == owned[i];
            assert(marked[j].id.0 == id);
            assert(has_id(marked, id));
        }
        if marked_ids(index, deleted, cutoffs).contains(id) && owner[id] == k {
            assert(owner.contains_key(id));
            let j = choose|j: int| 0 <= j < marked.len() && (#[trigger] marked[j]).id.0 == id;
            assert(marked.contains(marked[j]));
            lemma_filter_contains(marked, owned_by(owner, k), marked[j]);
            let i = choose|i: int| 0 <= i < owned.len() && owned[i] == marked[j];
            assert(owned[i].id.0 == id);
        }
    }
}

/// Just the files that are to be removed leave a table: an entry stays where it is not one of
/// them, and the metrics go down by theirs.
pub proof fn law_just_the_marked_files_are_removed(
    index: Index,
    deleted: Map<u32, DeletedTables>,
    cutoffs: Map<TableKey, i64>,
    k: TableKey,
    f: ParquetFile,
)
    ensures
        files_of(index, k).filter(to_be_kept(deleted, cutoffs, k)).contains(f) == (files_of(
            index,
            k,
        ).contains(f) && !marked_files(index, deleted, cutoffs, k).contains(f)),
        totals_of(files_of(index, k)) == totals_of(
            files_of(index, k).filter(to_be_kept(deleted, cutoffs, k)),
        ).plus(totals_of(marked_files(index, deleted, cutoffs, k))),
{
    let files = files_of(index, k);
    lemma_filter_contains(files, to_be_kept(deleted, cutoffs, k), f);
    lemma_filter_contains(files, to_be_removed(deleted, cutoffs, k), f);
    lemma_totals_split(files, to_be_kept(deleted, cutoffs, k), to_be_removed(deleted, cutoffs, k));
}

/// Where no two entries have one id, all the files that are to be removed are listed, each with its
/// own table.
pub proof fn law_all_the_marked_files_are_listed(
    index: Index,
    deleted: Map<u32, DeletedTables>,
    cutoffs: Map<TableKey, i64>,
    removed: DatabaseFiles,
    owner: Map<u64, TableKey>,
    k: TableKey,
)
    requires
        lists_marked(index, deleted, cutoffs, removed, owner),
        index_ids_unique(index),
    ensures
        listed(removed.entries@, k) == marked_files(index, deleted, cutoffs, k),
{
    let files = files_of(index, k);
    let marked = marked_files(index, deleted, cutoffs, k);
    let ids = marked_ids(index, deleted, cutoffs);
    assert forall|i: int| 0 <= i < marked.len() implies owned_by(owner, k)(#[trigger] marked[i]) by {
        let id = marked[i].id.0;
        assert(has_id(marked, id));
        assert(ids.contains(id));
        assert(owner.contains_key(id));
        lemma_marked_has_id(index, deleted, cutoffs, k, id);
        lemma_marked_has_id(index, deleted, cutoffs, owner[id], id);
    }
    lemma_filter_all(marked, owned_by(owner, k));
    assert(ids_unique(files));
    lemma_filter_ids_unique(files, to_be_removed(deleted, cutoffs, k));
    lemma_first_of_unique(marked);
    assert(listed(removed.entries@, k) == first_per_id(marked.filter(owned_by(owner, k))));
}

proof fn lemma_marked_has_id(
    index: Index,
    deleted: Map<u32, DeletedTables>,
    cutoffs: Map<TableKey, i64>,
    k: TableKey,
    id: u64,
)
    requires
        has_id(marked_files(index, deleted, cutoffs, k), id),
    ensures
        has_id(files_of(index, k), id),
{
    let marked = marked_files(index, deleted, cutoffs, k);
    let files = files_of(index, k);
    let i = choose|i: int| 0 <= i < marked.len() && (#[trigger] marked[i]).id.0 == id;
    assert(marked.contains(marked[i]));
    lemma_filter_contains(files, to_be_removed(deleted, cutoffs, k), marked[i]);
    let j = choose|j: int| 0 <= j < files.len() && files[j] == marked[i];
    assert(files[j].id.0 == id);
}

proof fn lemma_first_per_id(s: Seq<ParquetFile>, id: u64)
    ensures
        ids_unique(first_per_id(s)),
        has_id(first_per_id(s), id) == has_id(s, id),
    decreases s.len(),
{
    if s.len() > 0 {
        let rest = s.drop_last();
        let last = s.last().id.0;
        lemma_first_per_id(rest, id);
        lemma_first_per_id(rest, last);
        assert(s =~= rest.push(s.last()));
        lemma_push_has_id(rest, s.last(), id);
        lemma_push_has_id(first_per_id(rest), s.last(), id);
        if !has_id(rest, last) {
            let kept = first_per_id(rest);
            assert forall|i: int, j: int| 0 <= i < j < kept.push(s.last()).len() implies (
            #[trigger] kept.push(s.last())[i]).id.0 != (#[trigger] kept.push(s.last())[j]).id.0 by {
                assert(kept.push(s.last())[i] == kept[i]);
                if j == kept.len() {
                    assert(kept[i].id.0 != last);
                }
            }
        }
    }
}

proof fn lemma_push_has_id(s: Seq<ParquetFile>, f: ParquetFile, id: u64)
    ensures
        has_id(s.push(f), id) == (has_id(s, id) || f.id.0 == id),
{
    if has_id(s, id) {
        let i = choose|i: int| 0 <= i < s.len() && (#[trigger] s[i]).id.0 == id;
        assert(s.push(f)[i].id.0 == id);
    }
    assert(s.push(f)[s.len() as int] == f);
}

proof fn lemma_first_of_unique(s: Seq<ParquetFile>)
    requires
        ids_unique(s),
    ensures
        first_per_id(s) == s,
    decreases s.len(),
{
    if s.len() > 0 {
        let rest = s.drop_last();
        assert forall|i: int| 0 <= i < rest.len() implies (#[trigger] rest[i]).id.0
            != s.last().id.0 by {
            assert(s[i].id.0 != s[s.len() - 1].id.0);
        }
        assert forall|i: int, j: int| 0 <= i < j < rest.len() implies (#[trigger] rest[i]).id.0 != (
        #[trigger] rest[j]).id.0 by {
            assert(s[i].id.0 != s[j].id.0);
        }
        lemma_first_of_unique(rest);
        assert(s =~= rest.push(s.last()));
    }
}

proof fn lemma_filter_ids_unique(s: Seq<ParquetFile>, p: spec_fn(ParquetFile) -> bool)
    requires
        ids_unique(s),
    ensures
        ids_unique(s.filter(p)),
    decreases s.len(),
{
    reveal(Seq::filter);
    if s.len() > 0 {
        let rest = s.drop_last();
        let kept = rest.filter(p);
        assert forall|i: int, j: int| 0 <= i < j < rest.len() implies (#[trigger] rest[i]).id.0 != (
        #[trigger] rest[j]).id.0 by {
            assert(s[i].id.0 != s[j].id.0);
        }
        lemma_filter_ids_unique(rest, p);
        assert forall|i: int| 0 <= i < kept.len() implies (#[trigger] kept[i]).id.0
            != s.last().id.0 by {
            lemma_filter_contains(rest, p, kept[i]);
            assert(kept.contains(kept[i]));
            let j = choose|j: int| 0 <= j < rest.len() && rest[j] == kept[i];
            assert(s[j].id.0 != s[s.len() - 1].id.0);
        }
    }
}

} // verus!
