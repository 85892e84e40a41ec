//! Loading the files of one table from snapshots.

use crate::hash::{slots_by_path, PathSlots};
use crate::model::has_path;
use crate::parquet::ParquetFile;
use vstd::prelude::*;

verus! {

/// Per-table state while loading snapshots: keeps one entry per path in insertion order, with a
/// path lookup so loading many snapshots stays linear.
#[derive(Debug)]
pub struct TableLoader {
    pub files: Vec<Option<ParquetFile>>,
    pub by_path: PathSlots,
}

/// The occupied slots, in their order.
pub open spec fn occupied(slots: Seq<Option<ParquetFile>>) -> Seq<ParquetFile> {
    slots.filter_map(|slot: Option<ParquetFile>| slot)
}

/// `g`, or `f` where `g` is an entry for the same path.
pub open spec fn superseding(f: ParquetFile) -> spec_fn(ParquetFile) -> ParquetFile {
    |g: ParquetFile|
        if g.path@ == f.path@ {
            f
        } else {
            g
        }
}

/// The test for an entry that removing `f` leaves: another path, or another id.
pub open spec fn not_same_entry(f: ParquetFile) -> spec_fn(ParquetFile) -> bool {
    |g: ParquetFile| g.path@ != f.path@ || g.id != f.id
}

/// The loaded files once `f` is loaded: it takes the place of the entry for its path, and comes
/// last where there is none.
pub open spec fn load_file(s: Seq<ParquetFile>, f: ParquetFile) -> Seq<ParquetFile> {
    if has_path(s, f.path@) {
        s.map_values(superseding(f))
    } else {
        s.push(f)
    }
}

/// Whether there is an entry for the path of `f` that has another id.
pub open spec fn has_other_entry(s: Seq<ParquetFile>, f: ParquetFile) -> bool {
    exists|i: int|
        0 <= i < s.len() && (#[trigger] s[i]).path@ == f.path@ && s[i].id != f.id
}

/// The loaded files once the entry `f` is removed.
pub open spec fn unload_file(s: Seq<ParquetFile>, f: ParquetFile) -> Seq<ParquetFile> {
    s.filter(not_same_entry(f))
}

impl TableLoader {
    /// The files that are loaded, in the order in which their paths were first seen.
    pub open spec fn view(&self) -> Seq<ParquetFile> {
        occupied(self.files@)
    }

    /// The lookup leads from each path to the one slot that is occupied for it.
    pub open spec fn wf(&self) -> bool {
        &&& forall|p: Seq<char>| #[trigger]
            slots_by_path(self.by_path).contains_key(p) ==> {
                let slot = slots_by_path(self.by_path)[p];
                &&& slot < self.files@.len()
                &&& self.files@[slot as int] is Some
                &&& self.files@[slot as int]->0.path@ == p
            }
        &&& forall|i: int|
            0 <= i < self.files@.len() && (#[trigger] self.files@[i]) is Some ==> {
                let path = self.files@[i]->0.path@;
                &&& slots_by_path(self.by_path).contains_key(path)
                &&& slots_by_path(self.by_path)[path] == i
            }
    }

    /// A loader with no files.
    pub fn new() -> (r: TableLoader)
        ensures
            r.wf(),
            r@ == Seq::<ParquetFile>::empty(),
            r.files@ == Seq::<Option<ParquetFile>>::empty(),
            slots_by_path(r.by_path) == Map::<Seq<char>, usize>::empty(),
    {
        let r = TableLoader { files: Vec::new(), by_path: PathSlots::new() };
        proof {
            reveal(Seq::filter_map);
        }
        r
    }

    /// Insert `file`, replacing any entry with the same path. Returns true if an entry with a
    /// different id was replaced.
    pub fn upsert(&mut self, file: ParquetFile) -> (collapsed: bool)
        requires
            old(self).wf(),
        ensures
            final(self).wf(),
            final(self)@ == load_file(old(self)@, file),
            collapsed == has_other_entry(old(self)@, file),
    {
        match self.by_path.get(&file.path) {
            Some(idx) => {
                let collapsed = match &self.files[idx] {
                    Some(previous) => previous.id != file.id,
                    None => false,
                };
                proof {
                    let slots = self.files@;
                    lemma_occupied_contains(slots, idx as int);
                    lemma_occupied_from(slots);
                    assert forall|i: int|
                        0 <= i < self@.len() && (#[trigger] self@[i]).path@
                            == file.path@ implies Some(self@[i]) == slots[idx as int] by {
                        let j = choose|j: int|
                            0 <= j < slots.len() && #[trigger] slots[j] == Some(occupied(slots)[i]);
                        assert(slots[j] is Some);
                    }
                    let k = choose|k: int|
                        0 <= k < occupied(slots).len() && #[trigger] occupied(slots)[k]
                            == slots[idx as int]->0;
                    assert(collapsed == (slots[idx as int]->0.id != file.id));
                    assert(self@[k].path@ == file.path@);
                    lemma_occupied_map(
                        self.files@,
                        self.files@.update(idx as int, Some(file)),
                        superseding(file),
                    );
                }
                self.files[idx] = Some(file);
                collapsed
            },
            None => {
                proof {
                    let slots = self.files@;
                    lemma_occupied_from(slots);
                    assert forall|i: int| 0 <= i < self@.len() implies (#[trigger] self@[i]).path@
                        != file.path@ by {
                        let j = choose|j: int|
                            0 <= j < slots.len() && #[trigger] slots[j] == Some(occupied(slots)[i]);
                        assert(slots[j] is Some);
                    }
                    lemma_occupied_push(slots, Some(file));
                }
                let slot = self.files.len();
                self.by_path.insert(file.path.clone(), slot);
                self.files.push(Some(file));
                false
            },
        }
    }

    /// Remove the entry for `file`'s path if it is the same entry (same id). An entry that has
    /// already been superseded by a newer write to that path is left alone.
    pub fn remove(&mut self, file: &ParquetFile)
        requires
            old(self).wf(),
        ensures
            final(self).wf(),
            final(self)@ == unload_file(old(self)@, *file),
    {
        let ghost before = self.files@;
        match self.by_path.get(&file.path) {
            Some(idx) => {
                let same = match &self.files[idx] {
                    Some(entry) => entry.id == file.id,
                    None => false,
                };
                if same {
                    self.files[idx] = None;
                    self.by_path.remove(&file.path);
                }
            },
            None => {},
        }
        proof {
            lemma_occupied_filter(before, self.files@, not_same_entry(*file));
        }
    }

    /// The files that are loaded.
    pub fn into_files(self) -> (r: Vec<ParquetFile>)
        ensures
            r@ == self@,
    {
        let mut r: Vec<ParquetFile> = Vec::new();
        let ghost all = self.files@;
        proof {
            reveal(Seq::filter_map);
        }
        for slot in slots: self.files
            invariant
                slots.seq() == all,
                r@ == occupied(slots.seq().take(slots.index())),
        {
            proof {
                let n = slots.index();
                assert(slots.seq().take(n + 1) =~= slots.seq().take(n).push(slot));
                lemma_occupied_push(slots.seq().take(n), slot);
            }
            match slot {
                Some(file) => r.push(file),
                None => {},
            }
        }
        assert(all.take(all.len() as int) =~= all);
        r
    }
}

proof fn lemma_occupied_push(slots: Seq<Option<ParquetFile>>, slot: Option<ParquetFile>)
    ensures
        occupied(slots.push(slot)) == (match slot {
            Some(f) => occupied(slots).push(f),
            None => occupied(slots),
        }),
{
    reveal(Seq::filter_map);
    assert(slots.push(slot).drop_last() =~= slots);
    assert(slot is Some ==> occupied(slots) + seq![slot->0] =~= occupied(slots).push(slot->0));
}

/// What stands in an occupied slot is among the occupied ones.
proof fn lemma_occupied_contains(slots: Seq<Option<ParquetFile>>, i: int)
    requires
        0 <= i < slots.len(),
        slots[i] is Some,
    ensures
        exists|j: int| 0 <= j < occupied(slots).len() && #[trigger] occupied(slots)[j] == slots[i]->0,
    decreases slots.len(),
{
    let rest = slots.drop_last();
    assert(slots =~= rest.push(slots.last()));
    lemma_occupied_push(rest, slots.last());
    if i < rest.len() {
        lemma_occupied_contains(rest, i);
        let j = choose|j: int|
            0 <= j < occupied(rest).len() && #[trigger] occupied(rest)[j] == slots[i]->0;
        assert(occupied(slots)[j] == slots[i]->0);
    } else {
        assert(occupied(slots)[occupied(slots).len() - 1] == slots[i]->0);
    }
}

/// What is among the occupied ones stands in a slot.
proof fn lemma_occupied_from(slots: Seq<Option<ParquetFile>>)
    ensures
        forall|j: int|
            0 <= j < occupied(slots).len() ==> exists|i: int|
                0 <= i < slots.len() && #[trigger] slots[i] == Some(#[trigger] occupied(slots)[j]),
    decreases slots.len(),
{
    reveal(Seq::filter_map);
    if slots.len() > 0 {
        let rest = slots.drop_last();
        assert(slots =~= rest.push(slots.last()));
        lemma_occupied_push(rest, slots.last());
        lemma_occupied_from(rest);
        assert forall|j: int| 0 <= j < occupied(slots).len() implies exists|i: int|
            0 <= i < slots.len() && #[trigger] slots[i] == Some(
                #[trigger] occupied(slots)[j],
            ) by {
            if j < occupied(rest).len() {
                let i = choose|i: int|
                    0 <= i < rest.len() && #[trigger] rest[i] == Some(occupied(rest)[j]);
                assert(slots[i] == Some(occupied(slots)[j]));
            } else {
                assert(slots[slots.len() - 1] == Some(occupied(slots)[j]));
            }
        }
    }
}

/// Rewriting every occupied slot rewrites the occupied ones.
proof fn lemma_occupied_map(
    before: Seq<Option<ParquetFile>>,
    after: Seq<Option<ParquetFile>>,
    f: spec_fn(ParquetFile) -> ParquetFile,
)
    requires
        before.len() == after.len(),
        forall|i: int|
            0 <= i < before.len() ==> (match #[trigger] before[i] {
                Some(g) => after[i] == Some(f(g)),
                None => after[i] is None,
            }),
    ensures
        occupied(after) == occupied(before).map_values(f),
    decreases before.len(),
{
    reveal(Seq::filter_map);
    if before.len() > 0 {
        let b = before.drop_last();
        let a = after.drop_last();
        assert(before =~= b.push(before.last()));
        assert(after =~= a.push(after.last()));
        lemma_occupied_push(b, before.last());
        lemma_occupied_push(a, after.last());
        assert forall|i: int| 0 <= i < b.len() implies (match #[trigger] b[i] {
            Some(g) => a[i] == Some(f(g)),
            None => a[i] is None,
        }) by {
            assert(before[i] == b[i]);
        }
        lemma_occupied_map(b, a, f);
        assert(before[before.len() - 1] == before.last());
    }
    assert(occupied(after) =~= occupied(before).map_values(f));
}

/// Clearing the slots that fail a test leaves the occupied ones that pass it.
proof fn lemma_occupied_filter(
    before: Seq<Option<ParquetFile>>,
    after: Seq<Option<ParquetFile>>,
    keep: spec_fn(ParquetFile) -> bool,
)
    requires
        before.len() == after.len(),
        forall|i: int|
            0 <= i < before.len() ==> (match #[trigger] before[i] {
                Some(g) => after[i] == (if keep(g) {
                    Some(g)
                } else {
                    None
                }),
                None => after[i] is None,
            }),
    ensures
        occupied(after) == occupied(before).filter(keep),
    decreases before.len(),
{
    reveal(Seq::filter_map);
    reveal(Seq::filter);
    if before.len() > 0 {
        let b = before.drop_last();
        let a = after.drop_last();
        assert(before =~= b.push(before.last()));
        assert(after =~= a.push(after.last()));
        lemma_occupied_push(b, before.last());
        lemma_occupied_push(a, after.last());
        assert forall|i: int| 0 <= i < b.len() implies (match #[trigger] b[i] {
            Some(g) => a[i] == (if keep(g) {
                Some(g)
            } else {
                None
            }),
            None => a[i] is None,
        }) by {
            assert(before[i] == b[i]);
        }
        lemma_occupied_filter(b, a, keep);
        assert(before[before.len() - 1] == before.last());
        if before.last() is Some {
            assert(occupied(before).drop_last() =~= occupied(b));
        }
    }
}

} // verus!
