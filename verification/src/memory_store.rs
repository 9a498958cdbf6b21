//! A store that lives in memory and is gone with the process.

use crate::store::Store;
use vstd::hash_map::StringHashMap;
use vstd::prelude::*;

verus! {

/// A plain table from keys to values.
pub struct MemoryStore {
    data: StringHashMap<String>,
}

impl MemoryStore {
    /// An empty store.
    pub fn new() -> (store: Self)
        ensures
            store.contents() == Map::<Seq<char>, Seq<char>>::empty(),
    {
        let store = Self { data: StringHashMap::new() };
        assert(store.contents() =~= Map::<Seq<char>, Seq<char>>::empty());
        store
    }
}

impl Store for MemoryStore {
    closed spec fn contents(&self) -> Map<Seq<char>, Seq<char>> {
        self.data@.map_values(|value: String| value@)
    }

    fn get(&self, key: &String) -> (value: Option<&String>) {
        self.data.get(key.as_str())
    }

    fn set(&mut self, key: String, value: String) {
        self.data.insert(key, value);
        assert(self.contents() =~= old(self).contents().insert(key@, value@));
    }

    /// Nothing is held back in memory, so closing always goes well.
    fn close(&self) -> (closed: bool)
        ensures
            closed,
    {
        true
    }
}

} // verus!
