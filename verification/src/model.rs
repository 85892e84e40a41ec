//! The mathematical model of the index: a table's files are a sequence, the index maps a table to
//! its files, and the metrics are the totals of what the index holds.

use crate::ids::{DbId, TableId};
use crate::parquet::ParquetFile;
use vstd::prelude::*;

verus! {

/// A table of a database.
pub type TableKey = (DbId, TableId);

/// The files of every table that the index knows.
pub type Index = Map<TableKey, Seq<ParquetFile>>;

/// The files of table `k`, none where the index does not know the table.
pub open spec fn files_of(index: Index, k: TableKey) -> Seq<ParquetFile> {
    if index.contains_key(k) {
        index[k]
    } else {
        Seq::empty()
    }
}

/// The test for an entry for `path`.
pub open spec fn on_path(path: Seq<char>) -> spec_fn(ParquetFile) -> bool {
    |f: ParquetFile| f.path@ == path
}

/// The test for an entry for another path than `path`.
pub open spec fn off_path(path: Seq<char>) -> spec_fn(ParquetFile) -> bool {
    |f: ParquetFile| f.path@ != path
}

/// The test for an entry whose id is in `ids`.
pub open spec fn inside_ids(ids: Set<u64>) -> spec_fn(ParquetFile) -> bool {
    |f: ParquetFile| ids.contains(f.id.0)
}

/// The test for an entry whose id is not in `ids`.
pub open spec fn outside_ids(ids: Set<u64>) -> spec_fn(ParquetFile) -> bool {
    |f: ParquetFile| !ids.contains(f.id.0)
}

/// The entries for `path`.
pub open spec fn with_path(s: Seq<ParquetFile>, path: Seq<char>) -> Seq<ParquetFile> {
    s.filter(on_path(path))
}

/// The entries for any other path than `path`, in their order.
pub open spec fn without_path(s: Seq<ParquetFile>, path: Seq<char>) -> Seq<ParquetFile> {
    s.filter(off_path(path))
}

/// The entries whose id is in `ids`, in their order.
pub open spec fn with_ids(s: Seq<ParquetFile>, ids: Set<u64>) -> Seq<ParquetFile> {
    s.filter(inside_ids(ids))
}

/// The entries whose id is not in `ids`, in their order.
pub open spec fn without_ids(s: Seq<ParquetFile>, ids: Set<u64>) -> Seq<ParquetFile> {
    s.filter(outside_ids(ids))
}

/// Whether some entry has the id `id`.
pub open spec fn has_id(s: Seq<ParquetFile>, id: u64) -> bool {
    exists|i: int| 0 <= i < s.len() && (#[trigger] s[i]).id.0 == id
}

/// The ids of the entries.
pub open spec fn ids_of(s: Seq<ParquetFile>) -> Set<u64> {
    Set::new(|id: u64| has_id(s, id))
}

/// Whether some entry is for `path`.
pub open spec fn has_path(s: Seq<ParquetFile>, path: Seq<char>) -> bool {
    exists|i: int| 0 <= i < s.len() && (#[trigger] s[i]).path@ == path
}

/// No two entries are for one path.
pub open spec fn paths_unique(s: Seq<ParquetFile>) -> bool {
    forall|i: int, j: int|
        0 <= i < j < s.len() ==> (#[trigger] s[i]).path@ != (#[trigger] s[j]).path@
}

/// A table's files once `f` is added: `f` comes last, in place of what was there for its path.
pub open spec fn upsert(s: Seq<ParquetFile>, f: ParquetFile) -> Seq<ParquetFile> {
    without_path(s, f.path@).push(f)
}

/// A table's files once those of `added` are added one after the other.
pub open spec fn upsert_all(s: Seq<ParquetFile>, added: Seq<ParquetFile>) -> Seq<ParquetFile>
    decreases added.len(),
{
    if added.len() == 0 {
        s
    } else {
        upsert(upsert_all(s, added.drop_last()), added.last())
    }
}

/// How many files there are, their size in bytes and their rows.
pub struct Totals {
    pub count: int,
    pub size_bytes: int,
    pub rows: int,
}

impl Totals {
    pub open spec fn zero() -> Totals {
        Totals { count: 0, size_bytes: 0, rows: 0 }
    }

    pub open spec fn of_file(f: ParquetFile) -> Totals {
        Totals { count: 1, size_bytes: f.size_bytes as int, rows: f.row_count as int }
    }

    pub open spec fn plus(self, other: Totals) -> Totals {
        Totals {
            count: self.count + other.count,
            size_bytes: self.size_bytes + other.size_bytes,
            rows: self.rows + other.rows,
        }
    }

    pub open spec fn minus(self, other: Totals) -> Totals {
        Totals {
            count: self.count - other.count,
            size_bytes: self.size_bytes - other.size_bytes,
            rows: self.rows - other.rows,
        }
    }

    /// No part exceeds that of `other`.
    pub open spec fn le(self, other: Totals) -> bool {
        &&& self.count <= other.count
        &&& self.size_bytes <= other.size_bytes
        &&& self.rows <= other.rows
    }

    /// The 64-bit counters for files and for rows can hold these totals.
    pub open spec fn countable(self) -> bool {
        &&& self.count <= u64::MAX
        &&& self.rows <= u64::MAX
    }

    /// All the counters can hold these totals, the 128-bit one for the size too.
    pub open spec fn fit(self) -> bool {
        &&& self.countable()
        &&& self.size_bytes <= u128::MAX
    }

    /// The size is at most what so many files can have.
    pub open spec fn plausible(self) -> bool {
        &&& 0 <= self.count
        &&& 0 <= self.rows
        &&& 0 <= self.size_bytes <= self.count * u64::MAX
    }
}

/// The totals of a sequence of files.
pub open spec fn totals_of(s: Seq<ParquetFile>) -> Totals
    decreases s.len(),
{
    if s.len() == 0 {
        Totals::zero()
    } else {
        totals_of(s.drop_last()).plus(Totals::of_file(s.last()))
    }
}

/// The totals of all the files of all the tables.
pub open spec fn index_totals(index: Index) -> Totals
    decreases index.dom().len(),
    when index.dom().finite()
{
    if index.dom().len() == 0 {
        Totals::zero()
    } else {
        let k = index.dom().choose();
        index_totals(index.remove(k)).plus(totals_of(index[k]))
    }
}

/// Totals that can be counted fit.
pub proof fn lemma_plausible_fit(t: Totals)
    requires
        t.plausible(),
        t.countable(),
    ensures
        t.fit(),
{
    let n = t.count;
    assert(n * u64::MAX <= u64::MAX * u64::MAX) by (nonlinear_arith)
        requires
            0 <= n <= u64::MAX,
    ;
}

pub proof fn lemma_plausible_plus(a: Totals, b: Totals)
    requires
        a.plausible(),
        b.plausible(),
    ensures
        a.plus(b).plausible(),
{
    let m = a.count;
    let n = b.count;
    assert((m + n) * u64::MAX == m * u64::MAX + n * u64::MAX) by (nonlinear_arith);
}

// -- Totals of sequences

pub proof fn lemma_totals_push(s: Seq<ParquetFile>, f: ParquetFile)
    ensures
        totals_of(s.push(f)) == totals_of(s).plus(Totals::of_file(f)),
{
    assert(s.push(f).drop_last() =~= s);
}

pub proof fn lemma_totals_add(a: Seq<ParquetFile>, b: Seq<ParquetFile>)
    ensures
        totals_of(a + b) == totals_of(a).plus(totals_of(b)),
    decreases b.len(),
{
    if b.len() == 0 {
        assert(a + b =~= a);
    } else {
        lemma_totals_add(a, b.drop_last());
        assert((a + b).drop_last() =~= a + b.drop_last());
    }
}

pub proof fn lemma_totals_bounds(s: Seq<ParquetFile>)
    ensures
        totals_of(s).count == s.len(),
        totals_of(s).plausible(),
    decreases s.len(),
{
    if s.len() > 0 {
        lemma_totals_bounds(s.drop_last());
        let n = s.len() as int;
        assert(n * u64::MAX == (n - 1) * u64::MAX + u64::MAX) by (nonlinear_arith);
    }
}

/// The files that pass a test and those that do not have the totals of all of them.
pub proof fn lemma_totals_split(
    s: Seq<ParquetFile>,
    keep: spec_fn(ParquetFile) -> bool,
    dropped: spec_fn(ParquetFile) -> bool,
)
    requires
        forall|f: ParquetFile| #[trigger] keep(f) == !dropped(f),
    ensures
        totals_of(s) == totals_of(s.filter(keep)).plus(totals_of(s.filter(dropped))),
    decreases s.len(),
{
    reveal(Seq::filter);
    if s.len() > 0 {
        let last = s.last();
        lemma_totals_split(s.drop_last(), keep, dropped);
        lemma_totals_push(s.drop_last().filter(keep), last);
        lemma_totals_push(s.drop_last().filter(dropped), last);
        assert(keep(last) == !dropped(last));
    }
}

pub proof fn lemma_totals_split_path(s: Seq<ParquetFile>, path: Seq<char>)
    ensures
        totals_of(s) == totals_of(without_path(s, path)).plus(totals_of(with_path(s, path))),
{
    lemma_totals_split(s, off_path(path), on_path(path));
}

pub proof fn lemma_totals_split_ids(s: Seq<ParquetFile>, ids: Set<u64>)
    ensures
        totals_of(s) == totals_of(without_ids(s, ids)).plus(totals_of(with_ids(s, ids))),
{
    lemma_totals_split(s, outside_ids(ids), inside_ids(ids));
}

// -- Adding and removing one after the other

pub proof fn lemma_upsert_one(s: Seq<ParquetFile>, f: ParquetFile)
    ensures
        upsert_all(s, seq![f]) == upsert(s, f),
{
    assert(seq![f].drop_last() =~= Seq::<ParquetFile>::empty());
    assert(upsert_all(s, Seq::empty()) == s);
}

pub proof fn lemma_upsert_all_add(s: Seq<ParquetFile>, a: Seq<ParquetFile>, b: Seq<ParquetFile>)
    ensures
        upsert_all(upsert_all(s, a), b) == upsert_all(s, a + b),
    decreases b.len(),
{
    if b.len() == 0 {
        assert(a + b =~= a);
    } else {
        lemma_upsert_all_add(s, a, b.drop_last());
        assert((a + b).drop_last() =~= a + b.drop_last());
    }
}

pub proof fn lemma_without_ids_union(s: Seq<ParquetFile>, a: Set<u64>, b: Set<u64>)
    ensures
        without_ids(without_ids(s, a), b) == without_ids(s, a.union(b)),
    decreases s.len(),
{
    reveal(Seq::filter);
    if s.len() > 0 {
        let rest = s.drop_last();
        lemma_without_ids_union(rest, a, b);
        if !a.contains(s.last().id.0) {
            assert(without_ids(s, a).drop_last() =~= without_ids(rest, a));
        }
    }
}

pub proof fn lemma_ids_of_add(a: Seq<ParquetFile>, b: Seq<ParquetFile>)
    ensures
        ids_of(a + b) == ids_of(a).union(ids_of(b)),
{
    assert forall|id: u64| ids_of(a + b).contains(id) == ids_of(a).union(ids_of(b)).contains(
        id,
    ) by {
        if has_id(a, id) {
            let i = choose|i: int| 0 <= i < a.len() && (#[trigger] a[i]).id.0 == id;
            assert((a + b)[i].id.0 == id);
        }
        if has_id(b, id) {
            let i = choose|i: int| 0 <= i < b.len() && (#[trigger] b[i]).id.0 == id;
            assert((a + b)[a.len() + i].id.0 == id);
        }
        if has_id(a + b, id) {
            let i = choose|i: int| 0 <= i < (a + b).len() && (#[trigger] (a + b)[i]).id.0 == id;
            if i < a.len() {
                assert(a[i].id.0 == id);
            } else {
                assert(b[i - a.len()].id.0 == id);
            }
        }
    }
    assert(ids_of(a + b) =~= ids_of(a).union(ids_of(b)));
}

pub proof fn lemma_without_no_ids(s: Seq<ParquetFile>)
    ensures
        without_ids(s, ids_of(Seq::empty())) == s,
    decreases s.len(),
{
    reveal(Seq::filter);
    if s.len() > 0 {
        lemma_without_no_ids(s.drop_last());
        assert(s =~= s.drop_last().push(s.last()));
    }
}

// -- Totals of the index

/// The totals do not depend on the order in which the tables are taken.
pub proof fn lemma_index_totals_remove(index: Index, k: TableKey)
    requires
        index.dom().finite(),
        index.contains_key(k),
    ensures
        index_totals(index) == index_totals(index.remove(k)).plus(totals_of(index[k])),
    decreases index.dom().len(),
{
    let c = index.dom().choose();
    assert(index.dom().contains(c));
    if c != k {
        let rest = index.remove(c);
        assert(rest.dom() =~= index.dom().remove(c));
        assert(index.remove(k).dom() =~= index.dom().remove(k));
        lemma_index_totals_remove(rest, k);
        lemma_index_totals_remove(index.remove(k), c);
        assert(rest.remove(k) =~= index.remove(k).remove(c));
    }
}

/// What becomes of the totals when the files of one table are replaced.
pub proof fn lemma_index_totals_insert(index: Index, k: TableKey, s: Seq<ParquetFile>)
    requires
        index.dom().finite(),
    ensures
        index.insert(k, s).dom().finite(),
        index_totals(index.insert(k, s)) == index_totals(index).minus(
            totals_of(files_of(index, k)),
        ).plus(totals_of(s)),
{
    let after = index.insert(k, s);
    assert(after.dom() =~= index.dom().insert(k));
    lemma_index_totals_remove(after, k);
    if index.contains_key(k) {
        lemma_index_totals_remove(index, k);
        assert(after.remove(k) =~= index.remove(k));
    } else {
        assert(after.remove(k) =~= index);
    }
}

pub proof fn lemma_index_totals_bounds(index: Index)
    requires
        index.dom().finite(),
    ensures
        index_totals(index).plausible(),
    decreases index.dom().len(),
{
    if index.dom().len() > 0 {
        let k = index.dom().choose();
        assert(index.dom().contains(k));
        assert(index.remove(k).dom() =~= index.dom().remove(k));
        lemma_index_totals_bounds(index.remove(k));
        lemma_totals_bounds(index[k]);
        lemma_plausible_plus(index_totals(index.remove(k)), totals_of(index[k]));
    }
}

/// The files of one table are part of the totals.
pub proof fn lemma_table_totals_le(index: Index, k: TableKey)
    requires
        index.dom().finite(),
    ensures
        totals_of(files_of(index, k)).le(index_totals(index)),
{
    lemma_index_totals_bounds(index);
    if index.contains_key(k) {
        assert(index.remove(k).dom() =~= index.dom().remove(k));
        lemma_index_totals_remove(index, k);
        lemma_index_totals_bounds(index.remove(k));
    }
}

/// Two indexes that hold the same files in every table have the same totals, whichever empty
/// tables they know.
pub proof fn law_same_files_have_the_same_totals(a: Index, b: Index)
    requires
        a.dom().finite(),
        b.dom().finite(),
        forall|k: TableKey| #[trigger] files_of(a, k) == files_of(b, k),
    ensures
        index_totals(a) == index_totals(b),
    decreases a.dom().len() + b.dom().len(),
{
    if a.dom().len() > 0 {
        let k = a.dom().choose();
        assert(a.dom().contains(k));
        let a1 = a.remove(k);
        let b1 = b.remove(k);
        assert(a1.dom() =~= a.dom().remove(k));
        assert(b1.dom() =~= b.dom().remove(k));
        assert forall|j: TableKey| #[trigger] files_of(a1, j) == files_of(b1, j) by {
            assert(files_of(a, j) == files_of(b, j));
        }
        law_same_files_have_the_same_totals(a1, b1);
        assert(files_of(a, k) == files_of(b, k));
        if b.contains_key(k) {
            lemma_index_totals_remove(b, k);
        } else {
            assert(b1 =~= b);
        }
    } else if b.dom().len() > 0 {
        let k = b.dom().choose();
        assert(b.dom().contains(k));
        let b1 = b.remove(k);
        assert(b1.dom() =~= b.dom().remove(k));
        assert(files_of(a, k) == files_of(b, k));
        assert forall|j: TableKey| #[trigger] files_of(a, j) == files_of(b1, j) by {
            assert(files_of(a, j) == files_of(b, j));
        }
        law_same_files_have_the_same_totals(a, b1);
    }
}

} // verus!
