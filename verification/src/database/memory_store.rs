//! A key-value store that keeps everything in memory.
use vstd::hash_map::StringHashMap;
use vstd::prelude::*;

verus! {

/// A store of string values under string keys, held in memory only.
pub struct MemoryStorage {
    store: StringHashMap<String>,
}

impl View for MemoryStorage {
    type V = Map<Seq<char>, Seq<char>>;

    closed spec fn view(&self) -> Map<Seq<char>, Seq<char>> {
        self.store@.map_values(|v: String| v@)
    }
}

impl MemoryStorage {
    /// What `get` finds under `key`: the value stored there, if any.
    pub open spec fn value_of(&self, key: Seq<char>) -> Option<Seq<char>> {
        if self@.contains_key(key) {
            Some(self@[key])
        } else {
            None
        }
    }

    /// An empty store.
    pub fn new() -> (store: Self)
        ensures
            store@ == Map::<Seq<char>, Seq<char>>::empty(),
    {
        let store = Self { store: StringHashMap::new() };
        assert(store@ =~= Map::<Seq<char>, Seq<char>>::empty());
        store
    }

    /// Stores `val` under `key`, replacing what was stored there.
    pub fn set(&mut self, key: String, val: String)
        ensures
            final(self)@ == old(self)@.insert(key@, val@),
    {
        self.store.insert(key, val);
        assert(self@ =~= old(self)@.insert(key@, val@));
    }

    /// The value stored under `key`, if any.
    pub fn get(&self, key: &str) -> (val: Option<&str>)
        ensures
            val is Some <==> self@.contains_key(key@),
            val is Some ==> val->Some_0@ == self@[key@],
            match val {
                Some(s) => self.value_of(key@) == Some(s@),
                None => self.value_of(key@) == None::<Seq<char>>,
            },
    {
        match self.store.get(key) {
            Some(v) => Some(v.as_str()),
            None => None,
        }
    }

    /// Closes the store; nothing is held outside memory, so nothing changes.
    pub fn close(&mut self)
        ensures
            final(self)@ == old(self)@,
    {
    }
}

/// What a read gives back of a write: if `after` is `before` once
/// `set(key, val)` has run (the state that `set` ensures), then `get(key)` on
/// `after` finds `val`, and `get` of any other key finds what it found on
/// `before`.
pub proof fn lemma_get_after_set(
    before: MemoryStorage,
    after: MemoryStorage,
    key: Seq<char>,
    val: Seq<char>,
    other: Seq<char>,
)
    requires
        after@ == before@.insert(key, val),
    ensures
        after.value_of(key) == Some(val),
        other != key ==> after.value_of(other) == before.value_of(other),
{
}

} // verus!
