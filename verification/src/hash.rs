//! The hash tables of the index, kept in `hashbrown` collections keyed by plain integers or
//! strings.
//!
//! `hashbrown` is not verified: what each method does to the contents of its collection is stated
//! here and believed. The order in which a collection hands out its keys is left open, as its
//! hasher is seeded anew in each process.

use crate::deletion::DeletedTables;
use crate::loader::TableLoader;
use crate::parquet::ParquetFile;
use vstd::prelude::*;

verus! {

/// The files of each table of one database, by the table's id.
#[verifier::external_body]
#[derive(Debug)]
pub struct TableToFiles {
    map: hashbrown::HashMap<u32, Vec<ParquetFile>>,
}

/// What a [`TableToFiles`] holds.
pub uninterp spec fn files_by_table(m: TableToFiles) -> Map<u32, Seq<ParquetFile>>;

impl TableToFiles {
    /// `hashbrown::HashMap::new`: the new map is empty.
    #[verifier::external_body]
    pub(crate) fn new() -> (r: TableToFiles)
        ensures
            files_by_table(r) == (Map::<u32, Seq<ParquetFile>>::empty()),
    {
        TableToFiles { map: hashbrown::HashMap::new() }
    }

    /// `hashbrown::HashMap::get`: the value for the key, if the map holds the key.
    #[verifier::external_body]
    pub(crate) fn get(&self, table_id: u32) -> (r: Option<&Vec<ParquetFile>>)
        ensures
            match r {
                Some(files) => {
                    &&& files_by_table(*self).contains_key(table_id)
                    &&& files@ == files_by_table(*self)[table_id]
                },
                None => !files_by_table(*self).contains_key(table_id),
            },
    {
        self.map.get(&table_id)
    }

    /// `hashbrown::HashMap::get_mut`: the value for the key, if the map holds the key. What the
    /// caller makes of the value is what the map then holds for the key.
    #[verifier::external_body]
    pub(crate) fn get_mut(&mut self, table_id: u32) -> (r: Option<&mut Vec<ParquetFile>>)
        ensures
            match r {
                Some(files) => {
                    &&& files_by_table(*old(self)).contains_key(table_id)
                    &&& files@ == files_by_table(*old(self))[table_id]
                    &&& files_by_table(*final(self)) == files_by_table(*old(self)).insert(
                        table_id,
                        final(files)@,
                    )
                },
                None => {
                    &&& !files_by_table(*old(self)).contains_key(table_id)
                    &&& files_by_table(*final(self)) == files_by_table(*old(self))
                },
            },
    {
        self.map.get_mut(&table_id)
    }

    /// `hashbrown::HashMap::insert`: the map then holds the value for the key, in place of any it
    /// held before, and is otherwise unchanged.
    #[verifier::external_body]
    pub(crate) fn insert(&mut self, table_id: u32, files: Vec<ParquetFile>)
        ensures
            files_by_table(*final(self)) == files_by_table(*old(self)).insert(table_id, files@),
    {
        self.map.insert(table_id, files);
    }

    /// `hashbrown::HashMap::keys`: every key of the map once, in any order.
    #[verifier::external_body]
    pub(crate) fn keys(&self) -> (r: Vec<u32>)
        ensures
            r@.no_duplicates(),
            forall|t: u32| #[trigger] r@.contains(t) <==> files_by_table(*self).contains_key(t),
    {
        self.map.keys().copied().collect()
    }
}

/// The tables of each database, by the database's id.
#[verifier::external_body]
#[derive(Debug)]
pub struct DatabaseToTables {
    map: hashbrown::HashMap<u32, TableToFiles>,
}

/// What a [`DatabaseToTables`] holds.
pub uninterp spec fn tables_by_db(m: DatabaseToTables) -> Map<u32, Map<u32, Seq<ParquetFile>>>;

impl DatabaseToTables {
    /// `hashbrown::HashMap::new`: the new map is empty.
    #[verifier::external_body]
    pub(crate) fn new() -> (r: DatabaseToTables)
        ensures
            tables_by_db(r) == (Map::<u32, Map<u32, Seq<ParquetFile>>>::empty()),
    {
        DatabaseToTables { map: hashbrown::HashMap::new() }
    }

    /// `hashbrown::HashMap::get`: the value for the key, if the map holds the key.
    #[verifier::external_body]
    pub(crate) fn get(&self, db_id: u32) -> (r: Option<&TableToFiles>)
        ensures
            match r {
                Some(tables) => {
                    &&& tables_by_db(*self).contains_key(db_id)
                    &&& files_by_table(*tables) == tables_by_db(*self)[db_id]
                },
                None => !tables_by_db(*self).contains_key(db_id),
            },
    {
        self.map.get(&db_id)
    }

    /// `hashbrown::HashMap::get_mut`: the value for the key, if the map holds the key. What the
    /// caller makes of the value is what the map then holds for the key.
    #[verifier::external_body]
    pub(crate) fn get_mut(&mut self, db_id: u32) -> (r: Option<&mut TableToFiles>)
        ensures
            match r {
                Some(tables) => {
                    &&& tables_by_db(*old(self)).contains_key(db_id)
                    &&& files_by_table(*tables) == tables_by_db(*old(self))[db_id]
                    &&& tables_by_db(*final(self)) == tables_by_db(*old(self)).insert(
                        db_id,
                        files_by_table(*final(tables)),
                    )
                },
                None => {
                    &&& !tables_by_db(*old(self)).contains_key(db_id)
                    &&& tables_by_db(*final(self)) == tables_by_db(*old(self))
                },
            },
    {
        self.map.get_mut(&db_id)
    }

    /// `hashbrown::HashMap::insert`: the map then holds the value for the key, in place of any it
    /// held before, and is otherwise unchanged.
    #[verifier::external_body]
    pub(crate) fn insert(&mut self, db_id: u32, tables: TableToFiles)
        ensures
            tables_by_db(*final(self)) == tables_by_db(*old(self)).insert(
                db_id,
                files_by_table(tables),
            ),
    {
        self.map.insert(db_id, tables);
    }
}

/// What is marked for deletion in each database, by the database's id.
#[verifier::external_body]
#[derive(Debug)]
pub struct DeletedData {
    map: hashbrown::HashMap<u32, DeletedTables>,
}

/// What a [`DeletedData`] holds.
pub uninterp spec fn deleted_by_db(m: DeletedData) -> Map<u32, DeletedTables>;

impl DeletedData {
    /// `hashbrown::HashMap::new`: the new map is empty.
    #[verifier::external_body]
    pub(crate) fn new() -> (r: DeletedData)
        ensures
            deleted_by_db(r) == (Map::<u32, DeletedTables>::empty()),
    {
        DeletedData { map: hashbrown::HashMap::new() }
    }

    /// `hashbrown::HashMap::get`: the value for the key, if the map holds the key.
    #[verifier::external_body]
    pub(crate) fn get(&self, db_id: u32) -> (r: Option<&DeletedTables>)
        ensures
            match r {
                Some(deleted) => {
                    &&& deleted_by_db(*self).contains_key(db_id)
                    &&& *deleted == deleted_by_db(*self)[db_id]
                },
                None => !deleted_by_db(*self).contains_key(db_id),
            },
    {
        self.map.get(&db_id)
    }

    /// `hashbrown::HashMap::get_mut`: the value for the key, if the map holds the key. What the
    /// caller makes of the value is what the map then holds for the key.
    #[verifier::external_body]
    pub(crate) fn get_mut(&mut self, db_id: u32) -> (r: Option<&mut DeletedTables>)
        ensures
            match r {
                Some(deleted) => {
                    &&& deleted_by_db(*old(self)).contains_key(db_id)
                    &&& *deleted == deleted_by_db(*old(self))[db_id]
                    &&& deleted_by_db(*final(self)) == deleted_by_db(*old(self)).insert(
                        db_id,
                        *final(deleted),
                    )
                },
                None => {
                    &&& !deleted_by_db(*old(self)).contains_key(db_id)
                    &&& deleted_by_db(*final(self)) == deleted_by_db(*old(self))
                },
            },
    {
        self.map.get_mut(&db_id)
    }

    /// `hashbrown::HashMap::insert`: the map then holds the value for the key, in place of any it
    /// held before, and is otherwise unchanged.
    #[verifier::external_body]
    pub(crate) fn insert(&mut self, db_id: u32, deleted: DeletedTables)
        ensures
            deleted_by_db(*final(self)) == deleted_by_db(*old(self)).insert(db_id, deleted),
    {
        self.map.insert(db_id, deleted);
    }

    /// `hashbrown::HashMap::keys`: every key of the map once, in any order.
    #[verifier::external_body]
    pub(crate) fn keys(&self) -> (r: Vec<u32>)
        ensures
            r@.no_duplicates(),
            forall|d: u32| #[trigger] r@.contains(d) <==> deleted_by_db(*self).contains_key(d),
    {
        self.map.keys().copied().collect()
    }
}

/// A set of ids.
#[verifier::external_body]
#[derive(Debug)]
pub struct IdSet {
    set: hashbrown::HashSet<u64>,
}

/// What an [`IdSet`] holds.
pub uninterp spec fn ids_in(s: IdSet) -> Set<u64>;

impl IdSet {
    /// `hashbrown::HashSet::new`: the new set is empty.
    #[verifier::external_body]
    pub(crate) fn new() -> (r: IdSet)
        ensures
            ids_in(r) == Set::<u64>::empty(),
    {
        IdSet { set: hashbrown::HashSet::new() }
    }

    /// `hashbrown::HashSet::insert`: the set then holds the value too; the result says whether it
    /// did not before.
    #[verifier::external_body]
    pub(crate) fn insert(&mut self, id: u64) -> (r: bool)
        ensures
            ids_in(*final(self)) == ids_in(*old(self)).insert(id),
            r == !ids_in(*old(self)).contains(id),
    {
        self.set.insert(id)
    }

    /// `hashbrown::HashSet::contains`: whether the set holds the value.
    #[verifier::external_body]
    pub(crate) fn contains(&self, id: u64) -> (r: bool)
        ensures
            r == ids_in(*self).contains(id),
    {
        self.set.contains(&id)
    }
}

/// The loader of each table, by the ids of its database and of the table.
#[verifier::external_body]
#[derive(Debug)]
pub struct LoaderTables {
    map: hashbrown::HashMap<(u32, u32), TableLoader>,
}

/// What a [`LoaderTables`] holds.
pub uninterp spec fn loaders_by_table(m: LoaderTables) -> Map<(u32, u32), TableLoader>;

impl LoaderTables {
    /// `hashbrown::HashMap::new`: the new map is empty.
    #[verifier::external_body]
    pub(crate) fn new() -> (r: LoaderTables)
        ensures
            loaders_by_table(r) == (Map::<(u32, u32), TableLoader>::empty()),
    {
        LoaderTables { map: hashbrown::HashMap::new() }
    }

    /// `hashbrown::HashMap::get_mut`: the value for the key, if the map holds the key. What the
    /// caller makes of the value is what the map then holds for the key.
    #[verifier::external_body]
    pub(crate) fn get_mut(&mut self, table: (u32, u32)) -> (r: Option<&mut TableLoader>)
        ensures
            match r {
                Some(loader) => {
                    &&& loaders_by_table(*old(self)).contains_key(table)
                    &&& *loader == loaders_by_table(*old(self))[table]
                    &&& loaders_by_table(*final(self)) == loaders_by_table(*old(self)).insert(
                        table,
                        *final(loader),
                    )
                },
                None => {
                    &&& !loaders_by_table(*old(self)).contains_key(table)
                    &&& loaders_by_table(*final(self)) == loaders_by_table(*old(self))
                },
            },
    {
        self.map.get_mut(&table)
    }

    /// `hashbrown::HashMap::insert`: the map then holds the value for the key, in place of any it
    /// held before, and is otherwise unchanged.
    #[verifier::external_body]
    pub(crate) fn insert(&mut self, table: (u32, u32), loader: TableLoader)
        ensures
            loaders_by_table(*final(self)) == loaders_by_table(*old(self)).insert(table, loader),
    {
        self.map.insert(table, loader);
    }

    /// `hashbrown::HashMap::into_iter`: every key of the map once with its value, in any order.
    #[verifier::external_body]
    pub(crate) fn into_entries(self) -> (r: Vec<((u32, u32), TableLoader)>)
        ensures
            forall|i: int, j: int|
                0 <= i < j < r@.len() ==> (#[trigger] r@[i]).0 != (#[trigger] r@[j]).0,
            forall|i: int|
                0 <= i < r@.len() ==> loaders_by_table(self).contains_key((#[trigger] r@[i]).0)
                    && loaders_by_table(self)[r@[i].0] == r@[i].1,
            forall|k: (u32, u32)| #[trigger]
                loaders_by_table(self).contains_key(k) ==> exists|i: int|
                    0 <= i < r@.len() && (#[trigger] r@[i]).0 == k,
    {
        self.map.into_iter().collect()
    }
}

/// The slot of each path.
#[verifier::external_body]
#[derive(Debug)]
pub struct PathSlots {
    map: hashbrown::HashMap<String, usize>,
}

/// What a [`PathSlots`] holds.
pub uninterp spec fn slots_by_path(m: PathSlots) -> Map<Seq<char>, usize>;

impl PathSlots {
    /// `hashbrown::HashMap::new`: the new map is empty.
    #[verifier::external_body]
    pub(crate) fn new() -> (r: PathSlots)
        ensures
            slots_by_path(r) == (Map::<Seq<char>, usize>::empty()),
    {
        PathSlots { map: hashbrown::HashMap::new() }
    }

    /// `hashbrown::HashMap::get`: the value for the key, if the map holds the key. Strings are one
    /// key where they have the same characters.
    #[verifier::external_body]
    pub(crate) fn get(&self, path: &String) -> (r: Option<usize>)
        ensures
            match r {
                Some(slot) => {
                    &&& slots_by_path(*self).contains_key(path@)
                    &&& slot == slots_by_path(*self)[path@]
                },
                None => !slots_by_path(*self).contains_key(path@),
            },
    {
        self.map.get(path).copied()
    }

    /// `hashbrown::HashMap::insert`: the map then holds the value for the key, in place of any it
    /// held before, and is otherwise unchanged.
    #[verifier::external_body]
    pub(crate) fn insert(&mut self, path: String, slot: usize)
        ensures
            slots_by_path(*final(self)) == slots_by_path(*old(self)).insert(path@, slot),
    {
        self.map.insert(path, slot);
    }

    /// `hashbrown::HashMap::remove`: the map then holds nothing for the key and is otherwise
    /// unchanged.
    #[verifier::external_body]
    pub(crate) fn remove(&mut self, path: &String)
        ensures
            slots_by_path(*final(self)) == slots_by_path(*old(self)).remove(path@),
    {
        self.map.remove(path);
    }
}

} // verus!
