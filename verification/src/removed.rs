//! Taking entries out of a table's files, and the running totals of what was taken out.

use crate::hash::{ids_in, IdSet};
use crate::model::{
    inside_ids, lemma_totals_push, off_path, on_path, outside_ids, totals_of, with_ids, with_path,
    without_ids, without_path, Totals,
};
use crate::parquet::ParquetFile;
use vstd::prelude::*;

verus! {

/// Running totals of index entries removed from the index.
///
/// Sizes are summed in 128 bits, which no number of files that can be counted overflows.
#[derive(Debug, Clone, Copy)]
pub struct Removed {
    pub count: u64,
    pub size_bytes: u128,
    pub rows: u64,
}

impl Removed {
    /// The totals as unbounded numbers.
    pub open spec fn view(&self) -> Totals {
        Totals {
            count: self.count as int,
            size_bytes: self.size_bytes as int,
            rows: self.rows as int,
        }
    }

    /// Nothing removed.
    pub fn new() -> (r: Removed)
        ensures
            r@ == Totals::zero(),
    {
        Removed { count: 0, size_bytes: 0, rows: 0 }
    }

    /// Count `file` too.
    pub fn add(&mut self, file: &ParquetFile)
        requires
            old(self)@.plus(Totals::of_file(*file)).fit(),
        ensures
            final(self)@ == old(self)@.plus(Totals::of_file(*file)),
    {
        self.count = self.count + 1;
        self.size_bytes = self.size_bytes + file.size_bytes as u128;
        self.rows = self.rows + file.row_count;
    }
}

impl Default for Removed {
    fn default() -> (r: Removed)
        ensures
            r@ == Totals::zero(),
    {
        Removed::new()
    }
}

/// Drop the entries for `path` and count them in `removed`.
pub fn drop_path(files: &mut Vec<ParquetFile>, path: &String, removed: &mut Removed)
    requires
        old(removed)@.plus(totals_of(with_path(old(files)@, path@))).fit(),
    ensures
        final(files)@ == without_path(old(files)@, path@),
        final(removed)@ == old(removed)@.plus(totals_of(with_path(old(files)@, path@))),
{
    let ghost all = files@;
    let ghost before = removed@;
    let mut taken: Vec<ParquetFile> = Vec::new();
    std::mem::swap(files, &mut taken);
    proof {
        reveal(Seq::filter);
    }
    for file in entries: taken
        invariant
            entries.seq() == all,
            before.plus(totals_of(with_path(all, path@))).fit(),
            files@ == without_path(all.take(entries.index()), path@),
            removed@ == before.plus(totals_of(with_path(all.take(entries.index()), path@))),
    {
        proof {
            let n = entries.index();
            lemma_step(all, n, on_path(path@));
            lemma_step(all, n, off_path(path@));
            lemma_taken_fits(all, n, on_path(path@), before);
        }
        if file.path == *path {
            removed.add(&file);
        } else {
            files.push(file);
        }
    }
    assert(all.take(all.len() as int) =~= all);
}

/// Drop the entries whose id is in `ids` and count them in `removed`.
pub fn drop_ids(files: &mut Vec<ParquetFile>, ids: &IdSet, removed: &mut Removed)
    requires
        old(removed)@.plus(totals_of(with_ids(old(files)@, ids_in(*ids)))).fit(),
    ensures
        final(files)@ == without_ids(old(files)@, ids_in(*ids)),
        final(removed)@ == old(removed)@.plus(totals_of(with_ids(old(files)@, ids_in(*ids)))),
{
    let ghost all = files@;
    let ghost before = removed@;
    let mut taken: Vec<ParquetFile> = Vec::new();
    std::mem::swap(files, &mut taken);
    proof {
        reveal(Seq::filter);
    }
    for file in entries: taken
        invariant
            entries.seq() == all,
            before.plus(totals_of(with_ids(all, ids_in(*ids)))).fit(),
            files@ == without_ids(all.take(entries.index()), ids_in(*ids)),
            removed@ == before.plus(totals_of(with_ids(all.take(entries.index()), ids_in(*ids)))),
    {
        proof {
            let n = entries.index();
            lemma_step(all, n, inside_ids(ids_in(*ids)));
            lemma_step(all, n, outside_ids(ids_in(*ids)));
            lemma_taken_fits(all, n, inside_ids(ids_in(*ids)), before);
        }
        if ids.contains(file.id.0) {
            removed.add(&file);
        } else {
            files.push(file);
        }
    }
    assert(all.take(all.len() as int) =~= all);
}

/// What one more entry adds to those that pass a test.
pub proof fn lemma_step(all: Seq<ParquetFile>, n: int, test: spec_fn(ParquetFile) -> bool)
    requires
        0 <= n < all.len(),
    ensures
        all.take(n + 1).filter(test) == (if test(all[n]) {
            all.take(n).filter(test).push(all[n])
        } else {
            all.take(n).filter(test)
        }),
        test(all[n]) ==> totals_of(all.take(n + 1).filter(test)) == totals_of(
            all.take(n).filter(test),
        ).plus(Totals::of_file(all[n])),
{
    reveal(Seq::filter);
    assert(all.take(n + 1).drop_last() =~= all.take(n));
    lemma_totals_push(all.take(n).filter(test), all[n]);
}

/// The counters that hold the totals of all the entries that pass a test hold those of the first
/// ones.
pub proof fn lemma_taken_fits(
    all: Seq<ParquetFile>,
    n: int,
    test: spec_fn(ParquetFile) -> bool,
    before: Totals,
)
    requires
        0 <= n < all.len(),
        before.plus(totals_of(all.filter(test))).fit(),
    ensures
        test(all[n]) ==> before.plus(totals_of(all.take(n).filter(test))).plus(
            Totals::of_file(all[n]),
        ).fit(),
{
    lemma_step(all, n, test);
    lemma_filtered_prefix_le(all, n + 1, test);
}

proof fn lemma_filtered_prefix_le(
    all: Seq<ParquetFile>,
    n: int,
    test: spec_fn(ParquetFile) -> bool,
)
    requires
        0 <= n <= all.len(),
    ensures
        totals_of(all.take(n).filter(test)).le(totals_of(all.filter(test))),
    decreases all.len(),
{
    reveal(Seq::filter);
    if all.len() > 0 {
        let rest = all.drop_last();
        if n < all.len() {
            lemma_filtered_prefix_le(rest, n, test);
            assert(rest.take(n) =~= all.take(n));
            lemma_totals_push(rest.filter(test), all.last());
        } else {
            assert(all.take(n) =~= all);
        }
    }
}

} // verus!
