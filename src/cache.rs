use vstd::prelude::*;
use vstd::rwlock::{RwLock, RwLockPredicate};
use vstd::utf8::encode_utf8;
use ahash::AHashMap;
use crate::model::{EncodeRules, initial_symbols, unk_missing, nothing_dropped};
use crate::word::{total, greedy};

verus! {

/// Longest input, in bytes, whose result is kept (exclusive bound).
pub const MAX_LENGTH: usize = 256;

/// Input string to its merged symbols.
pub type CacheMap = AHashMap<String, Vec<(u32, usize)>>;

/// What a cache map holds.
pub uninterp spec fn cache_entries(m: AHashMap<String, Vec<(u32, usize)>>) -> Map<Seq<char>, Seq<(u32, usize)>>;

/// Relies on AHashMap::new: a new map is empty.
#[verifier::external_body]
fn cache_map_new() -> (r: CacheMap)
    ensures
        cache_entries(r) =~= Map::empty(),
{
    AHashMap::new()
}

/// Relies on AHashMap::get: the value stored under the key, if any (cloned).
#[verifier::external_body]
fn cache_map_get(m: &CacheMap, k: &str) -> (r: Option<Vec<(u32, usize)>>)
    ensures
        match r {
            Some(v) => cache_entries(*m).contains_key(k@) && cache_entries(*m)[k@] == v@,
            None => !cache_entries(*m).contains_key(k@),
        },
{
    m.get(k).cloned()
}

/// Relies on AHashMap::insert: the key now maps to the value, other keys are unchanged.
#[verifier::external_body]
fn cache_map_insert(m: &mut CacheMap, k: String, v: Vec<(u32, usize)>)
    ensures
        cache_entries(*final(m)) == cache_entries(*old(m)).insert(k@, v@),
{
    m.insert(k, v);
}

/// Relies on HashMap::len (through AHashMap's Deref): the number of keys.
#[verifier::external_body]
fn cache_map_len(m: &CacheMap) -> (r: usize)
    ensures
        r == cache_entries(*m).dom().len(),
{
    m.len()
}

/// Relies on HashMap::clear (through AHashMap's DerefMut): no key is left.
#[verifier::external_body]
fn cache_map_clear(m: &mut CacheMap)
    ensures
        cache_entries(*final(m)) =~= Map::empty(),
{
    m.clear()
}

/// What a cached entry must be: the merged symbols of its key under fixed rules.
pub struct CacheInv {
    pub rules: EncodeRules,
    pub ids: Map<u32, Seq<char>>,
}

/// The symbols `w` are what merging `k` under `inv` gives, and `k` is short enough to be
/// kept.
pub open spec fn entry_ok(inv: CacheInv, k: Seq<char>, w: Seq<(u32, usize)>) -> bool {
    &&& encode_utf8(k).len() < MAX_LENGTH
    &&& !unk_missing(inv.rules, k)
    &&& w == greedy(initial_symbols(inv.rules, k), inv.rules.merges)
    &&& total(w) <= usize::MAX
    &&& nothing_dropped(inv.rules, k) ==> total(w) == encode_utf8(k).len()
    &&& forall|q: int| 0 <= q < w.len() ==> inv.ids.contains_key(#[trigger] w[q].0)
}

impl RwLockPredicate<CacheMap> for CacheInv {
    open spec fn inv(self, v: CacheMap) -> bool {
        forall|k: Seq<char>| #[trigger] cache_entries(v).contains_key(k) ==> entry_ok(self, k, cache_entries(v)[k])
    }
}

/// A bounded, thread-safe memo from input strings to merged symbols.
pub struct Cache {
    lock: RwLock<CacheMap, CacheInv>,
    capacity: usize,
}

impl Cache {
    /// The rules every entry was computed under.
    pub closed spec fn rules_inv(&self) -> CacheInv {
        self.lock.pred()
    }

    pub closed spec fn capacity_value(&self) -> usize {
        self.capacity
    }

    pub fn new(capacity: usize, inv: Ghost<CacheInv>) -> (r: Cache)
        ensures
            r.rules_inv() == inv@,
            r.capacity_value() == capacity,
    {
        let m = cache_map_new();
        Cache { lock: RwLock::new(m, inv), capacity }
    }

    /// An empty cache of the same capacity, for the same rules.
    pub fn fresh(&self) -> (r: Cache)
        ensures
            r.rules_inv() == self.rules_inv(),
            r.capacity_value() == self.capacity_value(),
    {
        Cache::new(self.capacity, Ghost(self.rules_inv()))
    }

    /// The merged symbols of `key`, when they are cached.
    pub fn get(&self, key: &str) -> (r: Option<Vec<(u32, usize)>>)
        ensures
            r matches Some(w) ==> entry_ok(self.rules_inv(), key@, w@),
    {
        let handle = self.lock.acquire_read();
        let m = handle.borrow();
        let r = cache_map_get(m, key);
        handle.release_read();
        r
    }

    /// Whether `key` has an entry now.
    pub fn contains(&self, key: &str) -> (r: bool) {
        let handle = self.lock.acquire_read();
        let m = handle.borrow();
        let r = cache_map_get(m, key).is_some();
        handle.release_read();
        r
    }

    /// Stores the merged symbols of `key`, unless the cache is full.
    pub fn set(&self, key: String, w: Vec<(u32, usize)>)
        requires
            entry_ok(self.rules_inv(), key@, w@),
    {
        let (mut m, handle) = self.lock.acquire_write();
        if cache_map_len(&m) < self.capacity {
            cache_map_insert(&mut m, key, w);
        }
        handle.release_write(m);
    }

    /// Removes every entry.
    pub fn clear(&self) {
        let (mut m, handle) = self.lock.acquire_write();
        cache_map_clear(&mut m);
        handle.release_write(m);
    }

    /// Changes the capacity and drops the entries.
    pub fn resize(&mut self, capacity: usize)
        ensures
            final(self).rules_inv() == old(self).rules_inv(),
            final(self).capacity_value() == capacity,
    {
        self.capacity = capacity;
        self.clear();
    }
}

} // verus!
