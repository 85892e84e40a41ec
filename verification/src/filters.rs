//! Facts about the entries that pass a test.

use crate::model::{has_path, on_path, paths_unique, with_path};
use crate::parquet::ParquetFile;
use vstd::prelude::*;

verus! {

/// A sequence holds an entry after a test where it held it before and the entry passes.
pub proof fn lemma_filter_contains(
    s: Seq<ParquetFile>,
    p: spec_fn(ParquetFile) -> bool,
    x: ParquetFile,
)
    ensures
        s.filter(p).contains(x) == (s.contains(x) && p(x)),
    decreases s.len(),
{
    reveal(Seq::filter);
    if s.len() > 0 {
        let rest = s.drop_last();
        lemma_filter_contains(rest, p, x);
        lemma_push_contains(rest, s.last(), x);
        lemma_push_contains(rest.filter(p), s.last(), x);
        assert(s =~= rest.push(s.last()));
    }
}

pub proof fn lemma_push_contains(s: Seq<ParquetFile>, f: ParquetFile, x: ParquetFile)
    ensures
        s.push(f).contains(x) == (s.contains(x) || x == f),
{
    if s.contains(x) {
        let i = choose|i: int| 0 <= i < s.len() && s[i] == x;
        assert(s.push(f)[i] == x);
    }
    assert(s.push(f)[s.len() as int] == f);
}

pub proof fn lemma_filter_push(
    s: Seq<ParquetFile>,
    f: ParquetFile,
    p: spec_fn(ParquetFile) -> bool,
)
    ensures
        s.push(f).filter(p) == (if p(f) {
            s.filter(p).push(f)
        } else {
            s.filter(p)
        }),
{
    reveal(Seq::filter);
    assert(s.push(f).drop_last() =~= s);
}

/// Two tests that agree on the entries of a sequence let the same ones through.
pub proof fn lemma_filter_agree(
    s: Seq<ParquetFile>,
    p: spec_fn(ParquetFile) -> bool,
    q: spec_fn(ParquetFile) -> bool,
)
    requires
        forall|i: int| 0 <= i < s.len() ==> p(#[trigger] s[i]) == q(s[i]),
    ensures
        s.filter(p) == s.filter(q),
    decreases s.len(),
{
    reveal(Seq::filter);
    if s.len() > 0 {
        let rest = s.drop_last();
        assert forall|i: int| 0 <= i < rest.len() implies p(#[trigger] rest[i]) == q(rest[i]) by {
            assert(rest[i] == s[i]);
        }
        lemma_filter_agree(rest, p, q);
        assert(s.last() == s[s.len() - 1]);
    }
}

/// One test after another lets through what passes both.
pub proof fn lemma_filter_filter(
    s: Seq<ParquetFile>,
    p: spec_fn(ParquetFile) -> bool,
    q: spec_fn(ParquetFile) -> bool,
    both: spec_fn(ParquetFile) -> bool,
)
    requires
        forall|f: ParquetFile| #[trigger] both(f) == (p(f) && q(f)),
    ensures
        s.filter(p).filter(q) == s.filter(both),
    decreases s.len(),
{
    reveal(Seq::filter);
    if s.len() > 0 {
        let rest = s.drop_last();
        lemma_filter_filter(rest, p, q, both);
        lemma_filter_push(rest.filter(p), s.last(), q);
        assert(both(s.last()) == (p(s.last()) && q(s.last())));
    }
}

/// A test that all entries pass changes nothing.
pub proof fn lemma_filter_all(s: Seq<ParquetFile>, p: spec_fn(ParquetFile) -> bool)
    requires
        forall|i: int| 0 <= i < s.len() ==> p(#[trigger] s[i]),
    ensures
        s.filter(p) == s,
    decreases s.len(),
{
    reveal(Seq::filter);
    if s.len() > 0 {
        let rest = s.drop_last();
        assert forall|i: int| 0 <= i < rest.len() implies p(#[trigger] rest[i]) by {
            assert(rest[i] == s[i]);
        }
        lemma_filter_all(rest, p);
        assert(p(s[s.len() - 1]));
        assert(s =~= rest.push(s.last()));
    }
}

/// The order of two tests does not matter.
pub proof fn lemma_filter_swap(
    s: Seq<ParquetFile>,
    p: spec_fn(ParquetFile) -> bool,
    q: spec_fn(ParquetFile) -> bool,
)
    ensures
        s.filter(p).filter(q) == s.filter(q).filter(p),
{
    let both = |f: ParquetFile| p(f) && q(f);
    lemma_filter_filter(s, p, q, both);
    lemma_filter_filter(s, q, p, both);
}

/// An entry that passes a test is there as often as before, any other not at all.
pub proof fn lemma_filter_count(
    s: Seq<ParquetFile>,
    p: spec_fn(ParquetFile) -> bool,
    x: ParquetFile,
)
    ensures
        s.filter(p).to_multiset().count(x) == (if p(x) {
            s.to_multiset().count(x)
        } else {
            0
        }),
    decreases s.len(),
{
    broadcast use vstd::seq_lib::group_to_multiset_ensures;

    reveal(Seq::filter);
    if s.len() > 0 {
        lemma_filter_count(s.drop_last(), p, x);
        assert(s =~= s.drop_last().push(s.last()));
    }
}

/// Of two entries that pass a test, the one that came first still does.
pub proof fn lemma_filter_order(
    s: Seq<ParquetFile>,
    p: spec_fn(ParquetFile) -> bool,
    i: int,
    j: int,
)
    requires
        0 <= i < j < s.len(),
        p(s[i]),
        p(s[j]),
    ensures
        exists|a: int, b: int|
            0 <= a < b < s.filter(p).len() && #[trigger] s.filter(p)[a] == s[i]
                && #[trigger] s.filter(p)[b] == s[j],
    decreases s.len(),
{
    reveal(Seq::filter);
    let rest = s.drop_last();
    let kept = rest.filter(p);
    if j == s.len() - 1 {
        lemma_filter_contains(rest, p, s[i]);
        assert(rest[i] == s[i]);
        assert(rest.contains(s[i]));
        let a = choose|a: int| 0 <= a < kept.len() && kept[a] == s[i];
        assert(s.filter(p)[a] == s[i]);
        assert(s.filter(p)[kept.len() as int] == s[j]);
    } else {
        lemma_filter_order(rest, p, i, j);
        let (a, b) = choose|a: int, b: int|
            0 <= a < b < kept.len() && #[trigger] kept[a] == rest[i] && #[trigger] kept[b]
                == rest[j];
        assert(s.filter(p)[a] == s[i]);
        assert(s.filter(p)[b] == s[j]);
    }
}

/// A sequence holds an entry where the entries for its path do.
pub proof fn lemma_contains_on_path(s: Seq<ParquetFile>, x: ParquetFile)
    ensures
        s.contains(x) == with_path(s, x.path@).contains(x),
{
    lemma_filter_contains(s, on_path(x.path@), x);
}

/// Where no two entries are for one path, those that pass a test are not either.
pub proof fn lemma_filter_unique(s: Seq<ParquetFile>, p: spec_fn(ParquetFile) -> bool)
    requires
        paths_unique(s),
    ensures
        paths_unique(s.filter(p)),
    decreases s.len(),
{
    reveal(Seq::filter);
    if s.len() > 0 {
        let rest = s.drop_last();
        let kept = rest.filter(p);
        assert forall|i: int, j: int| 0 <= i < j < rest.len() implies (
        #[trigger] rest[i]).path@ != (#[trigger] rest[j]).path@ by {
            assert(s[i].path@ != s[j].path@);
        }
        lemma_filter_unique(rest, p);
        assert forall|i: int| 0 <= i < kept.len() implies (#[trigger] kept[i]).path@
            != s.last().path@ by {
            lemma_filter_contains(rest, p, kept[i]);
            assert(kept.contains(kept[i]));
            let j = choose|j: int| 0 <= j < rest.len() && rest[j] == kept[i];
            assert(s[j].path@ != s[s.len() - 1].path@);
        }
    }
}

/// Where no two entries are for one path, a path has one entry or none.
pub proof fn lemma_unique_on_path(s: Seq<ParquetFile>, path: Seq<char>)
    requires
        paths_unique(s),
    ensures
        with_path(s, path).len() == (if has_path(s, path) {
            1int
        } else {
            0
        }),
{
    let found = with_path(s, path);
    lemma_filter_unique(s, on_path(path));
    assert forall|i: int| 0 <= i < found.len() implies s.contains(#[trigger] found[i])
        && found[i].path@ == path by {
        lemma_filter_contains(s, on_path(path), found[i]);
        assert(found.contains(found[i]));
    }
    if found.len() > 0 {
        assert(s.contains(found[0]));
        let i = choose|i: int| 0 <= i < s.len() && s[i] == found[0];
        assert(s[i].path@ == path);
        assert(has_path(s, path));
        if found.len() > 1 {
            assert(found[0].path@ != found[1].path@);
        }
    }
    if has_path(s, path) {
        let i = choose|i: int| 0 <= i < s.len() && (#[trigger] s[i]).path@ == path;
        lemma_filter_contains(s, on_path(path), s[i]);
        assert(s.contains(s[i]));
        assert(found.contains(s[i]));
    }
}

/// Where every path has one entry or none, no two entries are for one path.
pub proof fn lemma_unique_from_paths(s: Seq<ParquetFile>)
    requires
        forall|path: Seq<char>| (#[trigger] with_path(s, path)).len() <= 1,
    ensures
        paths_unique(s),
    decreases s.len(),
{
    reveal(Seq::filter);
    if s.len() > 0 {
        let rest = s.drop_last();
        assert forall|path: Seq<char>| (#[trigger] with_path(rest, path)).len() <= 1 by {
            assert(with_path(s, path).len() <= 1);
        }
        lemma_unique_from_paths(rest);
        assert forall|i: int| 0 <= i < rest.len() implies (#[trigger] rest[i]).path@
            != s.last().path@ by {
            if rest[i].path@ == s.last().path@ {
                let path = s.last().path@;
                lemma_filter_contains(rest, on_path(path), rest[i]);
                assert(rest.contains(rest[i]));
                assert(with_path(rest, path).contains(rest[i]));
                assert(with_path(s, path).len() <= 1);
            }
        }
        assert forall|i: int, j: int| 0 <= i < j < s.len() implies (#[trigger] s[i]).path@ != (
        #[trigger] s[j]).path@ by {
            assert(s[i] == rest[i]);
            if j < rest.len() {
                assert(s[j] == rest[j]);
            }
        }
    }
}

} // verus!
