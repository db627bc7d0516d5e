use vstd::prelude::*;
use ahash::AHashMap;
use std::collections::HashMap;

verus! {

#[verifier::external_type_specification]
#[verifier::external_body]
#[verifier::reject_recursive_types(K)]
#[verifier::reject_recursive_types(V)]
#[verifier::reject_recursive_types(S)]
pub struct ExAHashMap<K, V, S>(AHashMap<K, V, S>);

#[verifier::external_type_specification]
#[verifier::external_body]
pub struct ExRandomState(ahash::RandomState);

/// A pair of adjacent token ids.
pub type Pair = (u32, u32);

/// Token string to id.
pub type Vocab = AHashMap<String, u32>;

/// Id to token string.
pub type VocabR = AHashMap<u32, String>;

/// Pair of ids to `(rank, new_id)`.
pub type MergeMap = AHashMap<Pair, (u32, u32)>;

/// What a vocabulary map holds, keyed by the token's characters.
pub uninterp spec fn vocab_entries(m: AHashMap<String, u32>) -> Map<Seq<char>, u32>;

/// What an inverse vocabulary map holds.
pub uninterp spec fn id_entries(m: AHashMap<u32, String>) -> Map<u32, Seq<char>>;

/// What a merge map holds.
pub uninterp spec fn merge_entries(m: AHashMap<(u32, u32), (u32, u32)>) -> Map<(u32, u32), (u32, u32)>;

/// Relies on AHashMap::new: a new map is empty.
#[verifier::external_body]
pub(crate) fn vocab_new() -> (r: Vocab)
    ensures
        vocab_entries(r) =~= Map::empty(),
{
    AHashMap::new()
}

/// Relies on AHashMap::get: the value stored under the key, if any.
#[verifier::external_body]
pub(crate) fn vocab_get(m: &Vocab, k: &str) -> (r: Option<u32>)
    ensures
        r == (if vocab_entries(*m).contains_key(k@) {
            Some(vocab_entries(*m)[k@])
        } else {
            None
        }),
{
    m.get(k).copied()
}

/// Relies on AHashMap::insert: the key now maps to the value, other keys are unchanged.
#[verifier::external_body]
pub(crate) fn vocab_insert(m: &mut Vocab, k: String, v: u32)
    ensures
        vocab_entries(*final(m)) == vocab_entries(*old(m)).insert(k@, v),
{
    m.insert(k, v);
}

/// Relies on HashMap::len (through AHashMap's Deref): the number of keys.
#[verifier::external_body]
pub(crate) fn vocab_len(m: &Vocab) -> (r: usize)
    ensures
        r == vocab_entries(*m).dom().len(),
{
    m.len()
}

/// Relies on HashMap::iter (through AHashMap's Deref): each entry once, in some order.
#[verifier::external_body]
pub(crate) fn vocab_items(m: &Vocab) -> (r: Vec<(String, u32)>)
    ensures
        forall|i: int| 0 <= i < r@.len() ==> #[trigger] vocab_entries(*m).contains_key(r@[i].0@)
            && vocab_entries(*m)[r@[i].0@] == r@[i].1,
        forall|s: Seq<char>| #[trigger] vocab_entries(*m).contains_key(s) ==> exists|i: int|
            0 <= i < r@.len() && (#[trigger] r@[i]).0@ == s,
        forall|i: int, j: int| 0 <= i < j < r@.len() ==> (#[trigger] r@[i]).0@ != (#[trigger] r@[j]).0@,
{
    m.iter().map(|(k, v)| (k.clone(), *v)).collect()
}

/// Relies on AHashMap's Clone: the copy holds the same entries.
#[verifier::external_body]
pub(crate) fn vocab_clone(m: &Vocab) -> (r: Vocab)
    ensures
        vocab_entries(r) == vocab_entries(*m),
{
    m.clone()
}

/// Relies on AHashMap's Clone: the copy holds the same entries.
#[verifier::external_body]
pub(crate) fn ids_clone(m: &VocabR) -> (r: VocabR)
    ensures
        id_entries(r) == id_entries(*m),
{
    m.clone()
}

/// Relies on AHashMap's Clone: the copy holds the same entries.
#[verifier::external_body]
pub(crate) fn merges_clone(m: &MergeMap) -> (r: MergeMap)
    ensures
        merge_entries(r) == merge_entries(*m),
{
    m.clone()
}

/// Relies on AHashMap's IntoIterator and HashMap's FromIterator: the same entries in a
/// std map.
#[verifier::external_body]
pub(crate) fn vocab_to_hash_map(m: &Vocab) -> (r: HashMap<String, u32>)
    ensures
        forall|k: String| #[trigger] r@.contains_key(k) ==> vocab_entries(*m).contains_key(k@)
            && vocab_entries(*m)[k@] == r@[k],
        r@.dom().map(|k: String| k@) == vocab_entries(*m).dom(),
{
    m.clone().into_iter().collect()
}

/// Relies on AHashMap::new: a new map is empty.
#[verifier::external_body]
pub(crate) fn ids_new() -> (r: VocabR)
    ensures
        id_entries(r) =~= Map::empty(),
{
    AHashMap::new()
}

/// Relies on AHashMap::get: the value stored under the key, if any (cloned).
#[verifier::external_body]
pub(crate) fn ids_get(m: &VocabR, k: u32) -> (r: Option<String>)
    ensures
        match r {
            Some(s) => id_entries(*m).contains_key(k) && id_entries(*m)[k] == s@,
            None => !id_entries(*m).contains_key(k),
        },
{
    m.get(&k).cloned()
}

/// Relies on AHashMap::insert: the key now maps to the value, other keys are unchanged.
#[verifier::external_body]
pub(crate) fn ids_insert(m: &mut VocabR, k: u32, v: String)
    ensures
        id_entries(*final(m)) == id_entries(*old(m)).insert(k, v@),
{
    m.insert(k, v);
}

/// Relies on AHashMap::new: a new map is empty.
#[verifier::external_body]
pub(crate) fn merges_new() -> (r: MergeMap)
    ensures
        merge_entries(r) =~= Map::empty(),
{
    AHashMap::new()
}

/// Relies on AHashMap::get: the value stored under the key, if any.
#[verifier::external_body]
pub(crate) fn merges_get(m: &MergeMap, k: (u32, u32)) -> (r: Option<(u32, u32)>)
    ensures
        r == (if merge_entries(*m).contains_key(k) {
            Some(merge_entries(*m)[k])
        } else {
            None
        }),
{
    m.get(&k).copied()
}

/// Relies on AHashMap::insert: the key now maps to the value, other keys are unchanged.
#[verifier::external_body]
pub(crate) fn merges_insert(m: &mut MergeMap, k: (u32, u32), v: (u32, u32))
    ensures
        merge_entries(*final(m)) == merge_entries(*old(m)).insert(k, v),
{
    m.insert(k, v);
}

/// Relies on HashMap::iter (through AHashMap's Deref): each entry once, in some order.
#[verifier::external_body]
pub(crate) fn merges_items(m: &MergeMap) -> (r: Vec<((u32, u32), (u32, u32))>)
    ensures
        forall|i: int| 0 <= i < r@.len() ==> #[trigger] merge_entries(*m).contains_key(r@[i].0)
            && merge_entries(*m)[r@[i].0] == r@[i].1,
        forall|p: (u32, u32)| #[trigger] merge_entries(*m).contains_key(p) ==> exists|i: int|
            0 <= i < r@.len() && (#[trigger] r@[i]).0 == p,
        forall|i: int, j: int| 0 <= i < j < r@.len() ==> (#[trigger] r@[i]).0 != (#[trigger] r@[j]).0,
{
    m.iter().map(|(k, v)| (*k, *v)).collect()
}

} // verus!
