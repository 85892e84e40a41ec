//! Which files of a table a query has to read.

use crate::filters::{lemma_filter_contains, lemma_filter_swap};
use crate::ids::{DbId, TableId};
use crate::inner::Inner;
use crate::meaning::law_filter_leaves_out_only_what_is_outside;
use crate::parquet::ParquetFile;
use std::cmp::Ordering;
use vstd::prelude::*;

verus! {

/// The times that a query asks for: from the lower bound to the upper bound, both included.
#[derive(Debug, Clone, Copy)]
pub struct ChunkFilter {
    pub time_lower_bound_ns: Option<i64>,
    pub time_upper_bound_ns: Option<i64>,
}

impl ChunkFilter {
    /// Whether the filter asks for some time from `min` to `max`.
    pub open spec fn overlaps(self, min: i64, max: i64) -> bool {
        &&& match self.time_lower_bound_ns {
            Some(lower) => lower <= max,
            None => true,
        }
        &&& match self.time_upper_bound_ns {
            Some(upper) => min <= upper,
            None => true,
        }
    }

    /// Test if a file whose rows are from `min_time_ns` to `max_time_ns` may hold rows that the
    /// filter asks for.
    pub fn test_time_stamp_min_max(&self, min_time_ns: i64, max_time_ns: i64) -> (r: bool)
        ensures
            r == self.overlaps(min_time_ns, max_time_ns),
    {
        match (self.time_lower_bound_ns, self.time_upper_bound_ns) {
            (None, None) => true,
            (None, Some(upper)) => min_time_ns <= upper,
            (Some(lower), None) => lower <= max_time_ns,
            (Some(lower), Some(upper)) => lower <= max_time_ns && min_time_ns <= upper,
        }
    }
}

impl Default for ChunkFilter {
    /// The filter that asks for all times.
    fn default() -> (r: ChunkFilter)
        ensures
            r.time_lower_bound_ns is None,
            r.time_upper_bound_ns is None,
    {
        ChunkFilter { time_lower_bound_ns: None, time_upper_bound_ns: None }
    }
}

/// The test for a file that may hold rows that the filter asks for.
pub open spec fn asked_for(filter: ChunkFilter) -> spec_fn(ParquetFile) -> bool {
    |f: ParquetFile| filter.overlaps(f.min_time, f.max_time)
}

/// The test for a file whose oldest row is from `time`.
pub open spec fn starting_at(time: i64) -> spec_fn(ParquetFile) -> bool {
    |f: ParquetFile| f.min_time == time
}

/// The files come in descending order of `min_time`.
pub open spec fn descending(s: Seq<ParquetFile>) -> bool {
    forall|i: int, j: int|
        0 <= i < j < s.len() ==> (#[trigger] s[i]).min_time >= (#[trigger] s[j]).min_time
}

/// `sorted` holds the files of `s` in descending order of `min_time`; those with the same
/// `min_time` keep their order.
pub open spec fn newest_first(sorted: Seq<ParquetFile>, s: Seq<ParquetFile>) -> bool {
    &&& descending(sorted)
    &&& forall|time: i64|
        sorted.filter(#[trigger] starting_at(time)) == s.filter(starting_at(time))
}

/// Compare two files for a descending order of `min_time`.
fn compare_newest_first(a: &ParquetFile, b: &ParquetFile) -> (r: Ordering)
    ensures
        match r {
            Ordering::Less => a.min_time > b.min_time,
            Ordering::Equal => a.min_time == b.min_time,
            Ordering::Greater => a.min_time < b.min_time,
        },
{
    if a.min_time > b.min_time {
        Ordering::Less
    } else if a.min_time == b.min_time {
        Ordering::Equal
    } else {
        Ordering::Greater
    }
}

/// `slice::sort_by` of the standard library, with [`compare_newest_first`], which is a total
/// order: a stable sort, so that equal files keep their order.
#[verifier::external_body]
fn sort_newest_first(files: &mut Vec<ParquetFile>)
    ensures
        newest_first(final(files)@, old(files)@),
{
    files.sort_by(|a, b| compare_newest_first(a, b));
}

/// The files that may hold rows that the filter asks for, in their order.
fn select(files: &Vec<ParquetFile>, filter: &ChunkFilter) -> (r: Vec<ParquetFile>)
    ensures
        r@ == files@.filter(asked_for(*filter)),
{
    let mut r: Vec<ParquetFile> = Vec::new();
    let ghost test = asked_for(*filter);
    let mut i: usize = 0;
    proof {
        reveal(Seq::filter);
        assert(files@.take(0).filter(test) =~= r@);
    }
    while i < files.len()
        invariant
            i <= files@.len(),
            test == asked_for(*filter),
            r@ == files@.take(i as int).filter(test),
        decreases files@.len() - i,
    {
        let file = &files[i];
        proof {
            reveal(Seq::filter);
            assert(files@.take(i + 1).drop_last() =~= files@.take(i as int));
        }
        if filter.test_time_stamp_min_max(file.min_time, file.max_time) {
            r.push(file.clone());
        }
        i = i + 1;
    }
    assert(files@.take(files@.len() as int) =~= files@);
    r
}

impl Inner {
    /// Get the list of files for a given database and table, using the provided filter to filter
    /// results, in descending order of min_time.
    pub fn files_filtered(&self, db_id: DbId, table_id: TableId, filter: &ChunkFilter) -> (r: Vec<
        ParquetFile,
    >)
        ensures
            newest_first(r@, self.table((db_id, table_id)).filter(asked_for(*filter))),
            forall|f: ParquetFile| #[trigger]
                r@.contains(f) == (self.table((db_id, table_id)).contains(f)
                    && (filter.time_lower_bound_ns matches Some(lower) ==> lower <= f.max_time)
                    && (filter.time_upper_bound_ns matches Some(upper) ==> f.min_time <= upper)),
            forall|i: int, j: int|
                0 <= i < j < r@.len() ==> (#[trigger] r@[i]).min_time >= (#[trigger] r@[j]).min_time,
    {
        let mut files = match self.files.get(db_id.0) {
            Some(tables) => match tables.get(table_id.0) {
                Some(files) => select(files, filter),
                None => Vec::new(),
            },
            None => Vec::new(),
        };
        proof {
            reveal(Seq::filter);
            assert(files@ =~= self.table((db_id, table_id)).filter(asked_for(*filter)));
        }
        sort_newest_first(&mut files);
        proof {
            let held = self.table((db_id, table_id));
            assert forall|f: ParquetFile| #[trigger]
                files@.contains(f) == (held.contains(f) && (filter.time_lower_bound_ns matches Some(
                    lower,
                ) ==> lower <= f.max_time) && (filter.time_upper_bound_ns matches Some(upper)
                    ==> f.min_time <= upper)) by {
                lemma_ordered_contains(files@, held.filter(asked_for(*filter)), f);
                lemma_filter_contains(held, asked_for(*filter), f);
                law_filter_leaves_out_only_what_is_outside(*filter, f.min_time, f.max_time);
            }
        }
        files
    }
}

/// A filter without bounds asks for all files.
pub proof fn lemma_all_asked_for(s: Seq<ParquetFile>, filter: ChunkFilter)
    requires
        filter.time_lower_bound_ns is None,
        filter.time_upper_bound_ns is None,
    ensures
        s.filter(asked_for(filter)) == s,
    decreases s.len(),
{
    reveal(Seq::filter);
    if s.len() > 0 {
        lemma_all_asked_for(s.drop_last(), filter);
        assert(s =~= s.drop_last().push(s.last()));
    }
}

/// There is one way only to put files in descending order of `min_time` in which those with the
/// same `min_time` keep their order.
pub proof fn law_newest_first_is_unique(
    a: Seq<ParquetFile>,
    b: Seq<ParquetFile>,
    s: Seq<ParquetFile>,
)
    requires
        newest_first(a, s),
        newest_first(b, s),
    ensures
        a == b,
{
    assert forall|time: i64| a.filter(#[trigger] starting_at(time)) == b.filter(
        starting_at(time),
    ) by {}
    lemma_same_order(a, b);
}

/// Files that are put in order are the files that there were.
pub proof fn lemma_ordered_contains(sorted: Seq<ParquetFile>, s: Seq<ParquetFile>, f: ParquetFile)
    requires
        newest_first(sorted, s),
    ensures
        sorted.contains(f) == s.contains(f),
{
    let test = starting_at(f.min_time);
    lemma_filter_contains(sorted, test, f);
    lemma_filter_contains(s, test, f);
    assert(sorted.filter(test) == s.filter(test));
}

/// A query gets each file of the table as often as the table holds it, and no other file.
pub proof fn law_ordered_files_are_all_the_files(sorted: Seq<ParquetFile>, s: Seq<ParquetFile>)
    requires
        newest_first(sorted, s),
    ensures
        sorted.to_multiset() == s.to_multiset(),
{
    assert forall|f: ParquetFile| #[trigger]
        sorted.to_multiset().count(f) == s.to_multiset().count(f) by {
        let test = starting_at(f.min_time);
        lemma_count_of_found(sorted, test, f);
        lemma_count_of_found(s, test, f);
        assert(sorted.filter(test) == s.filter(test));
    }
    assert(sorted.to_multiset() =~= s.to_multiset());
}

/// What a query gets with a filter are the files that it gets without one which pass the filter,
/// in the same order.
pub proof fn law_filter_selects_from_ordered_files(
    sorted: Seq<ParquetFile>,
    s: Seq<ParquetFile>,
    filter: ChunkFilter,
)
    requires
        newest_first(sorted, s),
    ensures
        newest_first(sorted.filter(asked_for(filter)), s.filter(asked_for(filter))),
{
    let test = asked_for(filter);
    lemma_filter_descending(sorted, test);
    assert forall|time: i64| sorted.filter(test).filter(#[trigger] starting_at(time)) == s.filter(
        test,
    ).filter(starting_at(time)) by {
        lemma_filter_swap(sorted, test, starting_at(time));
        lemma_filter_swap(s, test, starting_at(time));
        assert(sorted.filter(starting_at(time)) == s.filter(starting_at(time)));
    }
}

proof fn lemma_count_of_found(
    s: Seq<ParquetFile>,
    test: spec_fn(ParquetFile) -> bool,
    f: ParquetFile,
)
    requires
        test(f),
    ensures
        s.filter(test).to_multiset().count(f) == s.to_multiset().count(f),
    decreases s.len(),
{
    broadcast use vstd::seq_lib::group_to_multiset_ensures;

    reveal(Seq::filter);
    if s.len() > 0 {
        lemma_count_of_found(s.drop_last(), test, f);
        assert(s =~= s.drop_last().push(s.last()));
    }
}

proof fn lemma_filter_descending(s: Seq<ParquetFile>, test: spec_fn(ParquetFile) -> bool)
    requires
        descending(s),
    ensures
        descending(s.filter(test)),
    decreases s.len(),
{
    reveal(Seq::filter);
    if s.len() > 0 {
        let rest = s.drop_last();
        let kept = rest.filter(test);
        assert forall|i: int, j: int| 0 <= i < j < rest.len() implies (
        #[trigger] rest[i]).min_time >= (#[trigger] rest[j]).min_time by {
            assert(s[i].min_time >= s[j].min_time);
        }
        lemma_filter_descending(rest, test);
        assert forall|i: int| 0 <= i < kept.len() implies (#[trigger] kept[i]).min_time
            >= s.last().min_time by {
            lemma_filter_contains(rest, test, kept[i]);
            assert(kept.contains(kept[i]));
            let j = choose|j: int| 0 <= j < rest.len() && rest[j] == kept[i];
            assert(s[j].min_time >= s[s.len() - 1].min_time);
        }
    }
}

proof fn lemma_same_order(a: Seq<ParquetFile>, b: Seq<ParquetFile>)
    requires
        descending(a),
        descending(b),
        forall|time: i64| a.filter(#[trigger] starting_at(time)) == b.filter(starting_at(time)),
    ensures
        a == b,
    decreases a.len(),
{
    if a.len() == 0 {
        if b.len() > 0 {
            lemma_last_found(b);
            reveal(Seq::filter);
            assert(a.filter(starting_at(b.last().min_time)).len() == 0);
        }
        assert(a =~= b);
    } else if b.len() == 0 {
        lemma_last_found(a);
        reveal(Seq::filter);
        assert(b.filter(starting_at(a.last().min_time)).len() == 0);
    } else {
        lemma_last_found(a);
        lemma_last_found(b);
        lemma_found_not_below(a, b.last().min_time);
        lemma_found_not_below(b, a.last().min_time);
        let a1 = a.drop_last();
        let b1 = b.drop_last();
        assert forall|time: i64| a1.filter(#[trigger] starting_at(time)) == b1.filter(
            starting_at(time),
        ) by {
            reveal(Seq::filter);
            assert(a.filter(starting_at(time)) == b.filter(starting_at(time)));
            if time == a.last().min_time {
                assert(a1.filter(starting_at(time)) =~= a.filter(starting_at(time)).drop_last());
                assert(b1.filter(starting_at(time)) =~= b.filter(starting_at(time)).drop_last());
            }
        }
        lemma_same_order(a1, b1);
        assert(a =~= a1.push(a.last()));
        assert(b =~= b1.push(b.last()));
    }
}

proof fn lemma_last_found(s: Seq<ParquetFile>)
    requires
        s.len() > 0,
    ensures
        s.filter(starting_at(s.last().min_time)).len() > 0,
        s.filter(starting_at(s.last().min_time)).last() == s.last(),
{
    reveal(Seq::filter);
}

proof fn lemma_found_not_below(s: Seq<ParquetFile>, time: i64)
    requires
        s.len() > 0,
        descending(s),
        s.filter(starting_at(time)).len() > 0,
    ensures
        s.last().min_time <= time,
    decreases s.len(),
{
    reveal(Seq::filter);
    if s.last().min_time != time {
        let rest = s.drop_last();
        assert(rest.filter(starting_at(time)).len() > 0);
        assert(rest.len() > 0);
        lemma_found_not_below(rest, time);
        assert(s[s.len() - 2].min_time >= s[s.len() - 1].min_time);
    }
}

} // verus!
