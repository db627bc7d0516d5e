use vstd::prelude::*;
use crate::maps::{
    Vocab, vocab_entries, id_entries, merge_entries, vocab_new, vocab_get, vocab_items, ids_new,
    ids_insert, merges_new, merges_insert, vocab_insert,
};
use crate::model::{BPE, BpeError, opt_view};
use crate::text::{chars_of, push_char, char_byte_len, lemma_encode_at, lemma_encode_take_grows};
use vstd::utf8::encode_utf8;
use vstd::string::StringSliceAdditionalSpecFns;
use crate::word::DROPOUT_ONE;

verus! {

/// Merge rules as pairs of token strings, highest priority first.
pub type Merges = Vec<(String, String)>;

/// Cache capacity of a model built with the default configuration.
pub const DEFAULT_CACHE_CAPACITY: usize = 10000;

/// The number of characters of `b` that its first `plen` UTF-8 bytes hold, when that cut
/// falls between two characters (or at either end).
pub open spec fn char_cut(b: Seq<char>, plen: nat) -> Option<int> {
    if exists|k: int| 0 <= k <= b.len() && encode_utf8(b.take(k)).len() == plen {
        Some(choose|k: int| 0 <= k <= b.len() && encode_utf8(b.take(k)).len() == plen)
    } else {
        None
    }
}

/// The token that merging `a` and `b` gives: `a + b[plen..]`, where `b` loses its first
/// `plen` bytes, the continuing prefix, which the merged token carries only once. There is
/// none when that cut falls inside a character of `b` or beyond its end.
pub open spec fn merged_token(a: Seq<char>, b: Seq<char>, plen: nat) -> Option<Seq<char>> {
    match char_cut(b, plen) {
        Some(k) => Some(a + b.skip(k)),
        None => None,
    }
}

/// The first token of merge `m` that the vocabulary lacks, if any. A second token that
/// the prefix length cannot cut between characters counts as missing.
pub open spec fn missing_token(v: Map<Seq<char>, u32>, m: (Seq<char>, Seq<char>), plen: nat) -> Option<Seq<char>> {
    if !v.contains_key(m.0) {
        Some(m.0)
    } else if !v.contains_key(m.1) {
        Some(m.1)
    } else {
        match merged_token(m.0, m.1, plen) {
            None => Some(m.1),
            Some(t) => if !v.contains_key(t) {
                Some(t)
            } else {
                None
            },
        }
    }
}

/// The merge map of the first `n` merges: the pair of ids maps to (rank, merged id).
pub open spec fn merge_map_of(
    v: Map<Seq<char>, u32>,
    ms: Seq<(Seq<char>, Seq<char>)>,
    pc: nat,
    n: nat,
) -> Map<(u32, u32), (u32, u32)>
    decreases n,
{
    if n == 0 {
        Map::empty()
    } else {
        let m = ms[n - 1];
        merge_map_of(v, ms, pc, (n - 1) as nat).insert(
            (v[m.0], v[m.1]),
            (((n - 1) as usize) as u32, v[merged_token(m.0, m.1, pc)->0]),
        )
    }
}

/// Merge `i` is the first whose tokens the vocabulary lacks.
pub open spec fn first_bad_merge(v: Map<Seq<char>, u32>, ml: Seq<(Seq<char>, Seq<char>)>, pc: nat, i: int) -> bool {
    &&& 0 <= i < ml.len()
    &&& missing_token(v, ml[i], pc) is Some
    &&& forall|j: int| 0 <= j < i ==> missing_token(v, #[trigger] ml[j], pc) is None
}

pub open spec fn merges_view(ms: Seq<(String, String)>) -> Seq<(Seq<char>, Seq<char>)> {
    ms.map_values(|m: (String, String)| (m.0@, m.1@))
}

/// The vocabulary that inserting the first `n` pairs in order gives (a later pair with
/// the same token wins).
pub open spec fn vocab_of_pairs(ps: Seq<(Seq<char>, u32)>, n: nat) -> Map<Seq<char>, u32>
    decreases n,
{
    if n == 0 {
        Map::empty()
    } else {
        vocab_of_pairs(ps, (n - 1) as nat).insert(ps[n - 1].0, ps[n - 1].1)
    }
}

pub open spec fn pairs_view(ps: Seq<(String, u32)>) -> Seq<(Seq<char>, u32)> {
    ps.map_values(|p: (String, u32)| (p.0@, p.1))
}

/// A vocabulary holding the given tokens and ids.
pub fn vocab_from_pairs(pairs: Vec<(String, u32)>) -> (r: Vocab)
    ensures
        vocab_entries(r) == vocab_of_pairs(pairs_view(pairs@), pairs@.len()),
{
    let ghost ps = pairs_view(pairs@);
    let mut v = vocab_new();
    let mut k: usize = 0;
    while k < pairs.len()
        invariant
            ps == pairs_view(pairs@),
            k <= pairs@.len(),
            vocab_entries(v) == vocab_of_pairs(ps, k as nat),
        decreases pairs@.len() - k,
    {
        let token = pairs[k].0.clone();
        vocab_insert(&mut v, token, pairs[k].1);
        k = k + 1;
    }
    v
}

/// Builds a `BPE` model with a custom configuration.
pub struct BpeBuilder {
    vocab: Vocab,
    merges: Merges,
    cache_capacity: usize,
    dropout: Option<u64>,
    unk_token: Option<String>,
    continuing_subword_prefix: Option<String>,
    end_of_word_suffix: Option<String>,
    fuse_unk: bool,
    byte_fallback: bool,
    ignore_merges: bool,
}

impl BpeBuilder {
    pub closed spec fn vocab_map(&self) -> Map<Seq<char>, u32> {
        vocab_entries(self.vocab)
    }

    pub closed spec fn merge_list(&self) -> Seq<(Seq<char>, Seq<char>)> {
        merges_view(self.merges@)
    }

    /// Byte length of the continuing prefix, 0 without one.
    pub open spec fn prefix_bytes(&self) -> nat {
        match self.options().1 {
            Some(p) => encode_utf8(p).len(),
            None => 0,
        }
    }

    pub closed spec fn dropout_value(&self) -> Option<u64> {
        self.dropout
    }

    pub closed spec fn capacity(&self) -> usize {
        self.cache_capacity
    }

    pub closed spec fn options(&self) -> (Option<Seq<char>>, Option<Seq<char>>, Option<Seq<char>>, bool, bool, bool) {
        (
            opt_view(self.unk_token),
            opt_view(self.continuing_subword_prefix),
            opt_view(self.end_of_word_suffix),
            self.fuse_unk,
            self.byte_fallback,
            self.ignore_merges,
        )
    }

    /// Constructs a builder with an empty vocabulary and the default options.
    pub fn new() -> (r: BpeBuilder)
        ensures
            r.vocab_map() == Map::<Seq<char>, u32>::empty(),
            r.merge_list() == Seq::<(Seq<char>, Seq<char>)>::empty(),
            r.dropout_value() is None,
            r.capacity() == DEFAULT_CACHE_CAPACITY,
            r.options() == (None::<Seq<char>>, None::<Seq<char>>, None::<Seq<char>>, false, false, false),
    {
        let r = BpeBuilder {
            vocab: vocab_new(),
            merges: Vec::new(),
            cache_capacity: DEFAULT_CACHE_CAPACITY,
            dropout: None,
            unk_token: None,
            continuing_subword_prefix: None,
            end_of_word_suffix: None,
            fuse_unk: false,
            byte_fallback: false,
            ignore_merges: false,
        };
        assert(r.merge_list() =~= Seq::<(Seq<char>, Seq<char>)>::empty());
        r
    }

    /// Sets the vocabulary (token to id) and the merges.
    pub fn vocab_and_merges(self, vocab: Vocab, merges: Merges) -> (r: BpeBuilder)
        ensures
            r.vocab_map() == vocab_entries(vocab),
            r.merge_list() == merges_view(merges@),
            r.dropout_value() == self.dropout_value(),
            r.capacity() == self.capacity(),
            r.options() == self.options(),
    {
        BpeBuilder { vocab, merges, ..self }
    }

    /// Sets the cache's capacity; 0 disables caching.
    pub fn cache_capacity(self, capacity: usize) -> (r: BpeBuilder)
        ensures
            r.vocab_map() == self.vocab_map(),
            r.merge_list() == self.merge_list(),
            r.dropout_value() == self.dropout_value(),
            r.capacity() == capacity,
            r.options() == self.options(),
    {
        BpeBuilder { cache_capacity: capacity, ..self }
    }

    /// Sets the dropout, as a fraction of `DROPOUT_ONE`.
    pub fn dropout(self, dropout: u64) -> (r: BpeBuilder)
        ensures
            r.vocab_map() == self.vocab_map(),
            r.merge_list() == self.merge_list(),
            r.dropout_value() == Some(dropout),
            r.capacity() == self.capacity(),
            r.options() == self.options(),
    {
        BpeBuilder { dropout: Some(dropout), ..self }
    }

    /// Sets the unknown token.
    pub fn unk_token(self, unk_token: String) -> (r: BpeBuilder)
        ensures
            r.vocab_map() == self.vocab_map(),
            r.merge_list() == self.merge_list(),
            r.dropout_value() == self.dropout_value(),
            r.capacity() == self.capacity(),
            r.options() == (Some(unk_token@), self.options().1, self.options().2, self.options().3, self.options().4, self.options().5),
    {
        BpeBuilder { unk_token: Some(unk_token), ..self }
    }

    /// Sets the prefix of subwords that continue a word.
    pub fn continuing_subword_prefix(self, prefix: String) -> (r: BpeBuilder)
        ensures
            r.vocab_map() == self.vocab_map(),
            r.merge_list() == self.merge_list(),
            r.dropout_value() == self.dropout_value(),
            r.capacity() == self.capacity(),
            r.options() == (self.options().0, Some(prefix@), self.options().2, self.options().3, self.options().4, self.options().5),
    {
        BpeBuilder { continuing_subword_prefix: Some(prefix), ..self }
    }

    /// Sets the suffix of the last subword of a word.
    pub fn end_of_word_suffix(self, suffix: String) -> (r: BpeBuilder)
        ensures
            r.vocab_map() == self.vocab_map(),
            r.merge_list() == self.merge_list(),
            r.dropout_value() == self.dropout_value(),
            r.capacity() == self.capacity(),
            r.options() == (self.options().0, self.options().1, Some(suffix@), self.options().3, self.options().4, self.options().5),
    {
        BpeBuilder { end_of_word_suffix: Some(suffix), ..self }
    }

    /// Sets whether consecutive unknown characters give one unknown token.
    pub fn fuse_unk(self, fuse_unk: bool) -> (r: BpeBuilder)
        ensures
            r.vocab_map() == self.vocab_map(),
            r.merge_list() == self.merge_list(),
            r.dropout_value() == self.dropout_value(),
            r.capacity() == self.capacity(),
            r.options() == (self.options().0, self.options().1, self.options().2, fuse_unk, self.options().4, self.options().5),
    {
        BpeBuilder { fuse_unk, ..self }
    }

    /// Sets whether unknown characters fall back to `<0xNN>` byte tokens.
    pub fn byte_fallback(self, byte_fallback: bool) -> (r: BpeBuilder)
        ensures
            r.vocab_map() == self.vocab_map(),
            r.merge_list() == self.merge_list(),
            r.dropout_value() == self.dropout_value(),
            r.capacity() == self.capacity(),
            r.options() == (self.options().0, self.options().1, self.options().2, self.options().3, byte_fallback, self.options().5),
    {
        BpeBuilder { byte_fallback, ..self }
    }

    /// Sets whether an input found whole in the vocabulary skips merging.
    pub fn ignore_merges(self, ignore_merges: bool) -> (r: BpeBuilder)
        ensures
            r.vocab_map() == self.vocab_map(),
            r.merge_list() == self.merge_list(),
            r.dropout_value() == self.dropout_value(),
            r.capacity() == self.capacity(),
            r.options() == (self.options().0, self.options().1, self.options().2, self.options().3, self.options().4, ignore_merges),
    {
        BpeBuilder { ignore_merges, ..self }
    }

    /// Validates the configuration and builds the model. Ranks are 32-bit, which bounds
    /// the number of merges.
    pub fn build(self) -> (r: Result<BPE, BpeError>)
        requires
            self.merge_list().len() <= 0x1_0000_0000,
        ensures
            match r {
                Ok(bpe) => {
                    &&& !(self.dropout_value() matches Some(p) && p > DROPOUT_ONE)
                    &&& forall|i: int|
                        0 <= i < self.merge_list().len() ==> missing_token(
                            self.vocab_map(),
                            #[trigger] self.merge_list()[i],
                            self.prefix_bytes(),
                        ) is None
                    &&& bpe.wf()
                    &&& bpe.vocab_map() == self.vocab_map()
                    &&& bpe.merge_map() == merge_map_of(
                        self.vocab_map(),
                        self.merge_list(),
                        self.prefix_bytes(),
                        self.merge_list().len(),
                    )
                    &&& bpe.dropout_value() == self.dropout_value()
                    &&& bpe.options() == self.options()
                    &&& bpe.cache_capacity() == self.capacity()
                    &&& bpe.has_cache() == (self.capacity() > 0)
                },
                Err(e) => if self.dropout_value() matches Some(p) && p > DROPOUT_ONE {
                    e == BpeError::InvalidDropout
                } else {
                    exists|i: int|
                        #![trigger self.merge_list()[i]]
                        first_bad_merge(self.vocab_map(), self.merge_list(), self.prefix_bytes(), i) && (
                        e matches BpeError::MergeTokenOutOfVocabulary(s) && s@ == missing_token(
                            self.vocab_map(),
                            self.merge_list()[i],
                            self.prefix_bytes(),
                        )->0)
                },
            },
    {
        match self.dropout {
            Some(p) => {
                if p > DROPOUT_ONE {
                    return Err(BpeError::InvalidDropout);
                }
            },
            None => {},
        }
        let ghost v = vocab_entries(self.vocab);
        let items = vocab_items(&self.vocab);
        let mut vocab_r = ids_new();
        let mut t: usize = 0;
        while t < items.len()
            invariant
                v == vocab_entries(self.vocab),
                t <= items@.len(),
                forall|i: int| 0 <= i < items@.len() ==> #[trigger] v.contains_key(items@[i].0@) && v[items@[i].0@] == items@[i].1,
                forall|i: u32| #[trigger] id_entries(vocab_r).contains_key(i) ==> v.contains_key(id_entries(vocab_r)[i]) && v[id_entries(vocab_r)[i]] == i,
                forall|j: int| 0 <= j < t ==> id_entries(vocab_r).contains_key(#[trigger] items@[j].1),
            decreases items@.len() - t,
        {
            let (tok, id) = (items[t].0.clone(), items[t].1);
            ids_insert(&mut vocab_r, id, tok);
            t = t + 1;
        }
        proof {
            assert forall|s: Seq<char>| #[trigger] v.contains_key(s) implies id_entries(vocab_r).contains_key(v[s]) by {
                let j = choose|j: int| 0 <= j < items@.len() && (#[trigger] items@[j]).0@ == s;
                assert(v.contains_key(items@[j].0@));
            }
        }
        let pc: usize = match &self.continuing_subword_prefix {
            Some(p) => {
                let ps = p.as_str();
                proof {
                    assert(ps.spec_bytes() == encode_utf8(ps@));
                }
                ps.as_bytes().len()
            },
            None => 0,
        };
        let ghost ml = self.merge_list();
        let mut merges = merges_new();
        let mut i: usize = 0;
        while i < self.merges.len()
            invariant
                v == vocab_entries(self.vocab),
                ml == self.merge_list(),
                ml.len() == self.merges@.len(),
                !(self.dropout_value() matches Some(p) && p > DROPOUT_ONE),
                pc == self.prefix_bytes(),
                i <= ml.len(),
                forall|j: int| 0 <= j < i ==> missing_token(v, #[trigger] ml[j], pc as nat) is None,
                merge_entries(merges) == merge_map_of(v, ml, pc as nat, i as nat),
                forall|p: (u32, u32)| #[trigger] merge_entries(merges).contains_key(p) ==> id_entries(vocab_r).contains_key(merge_entries(merges)[p].1)
                    && id_entries(vocab_r).contains_key(p.0) && id_entries(vocab_r).contains_key(p.1)
                    && (merge_entries(merges)[p].0 as int) < i,
                forall|p: (u32, u32), q: (u32, u32)|
                    #[trigger] merge_entries(merges).contains_key(p) && #[trigger] merge_entries(merges).contains_key(q)
                    && merge_entries(merges)[p].0 == merge_entries(merges)[q].0 ==> p == q,
                ml.len() <= 0x1_0000_0000,
                forall|s: Seq<char>| #[trigger] v.contains_key(s) ==> id_entries(vocab_r).contains_key(v[s]),
            decreases ml.len() - i,
        {
            let a: &String = &self.merges[i].0;
            let b: &String = &self.merges[i].1;
            let ghost m = ml[i as int];
            proof {
                assert(m == (a@, b@));
            }
            let a_id = match vocab_get(&self.vocab, a.as_str()) {
                Some(x) => x,
                None => {
                    let e = BpeError::MergeTokenOutOfVocabulary(a.as_str().to_owned());
                    proof {
                        assert(missing_token(v, m, pc as nat) == Some(a@));
                        assert(first_bad_merge(v, ml, pc as nat, i as int));
                        assert(self.merge_list()[i as int] == m);
                    }
                    return Err(e);
                },
            };
            let b_id = match vocab_get(&self.vocab, b.as_str()) {
                Some(x) => x,
                None => {
                    let e = BpeError::MergeTokenOutOfVocabulary(b.as_str().to_owned());
                    proof {
                        assert(missing_token(v, m, pc as nat) == Some(b@));
                        assert(first_bad_merge(v, ml, pc as nat, i as int));
                        assert(self.merge_list()[i as int] == m);
                    }
                    return Err(e);
                },
            };
            let new_token = match merged_string(a, b, pc) {
                Some(t) => t,
                None => {
                    let e = BpeError::MergeTokenOutOfVocabulary(b.as_str().to_owned());
                    proof {
                        assert(missing_token(v, m, pc as nat) == Some(b@));
                        assert(first_bad_merge(v, ml, pc as nat, i as int));
                        assert(self.merge_list()[i as int] == m);
                    }
                    return Err(e);
                },
            };
            let new_id = match vocab_get(&self.vocab, new_token.as_str()) {
                Some(x) => x,
                None => {
                    proof {
                        assert(missing_token(v, m, pc as nat) == Some(new_token@));
                        assert(first_bad_merge(v, ml, pc as nat, i as int));
                        assert(self.merge_list()[i as int] == m);
                    }
                    return Err(BpeError::MergeTokenOutOfVocabulary(new_token));
                },
            };
            merges_insert(&mut merges, (a_id, b_id), (i as u32, new_id));
            i = i + 1;
        }
        let cache_capacity = self.cache_capacity;
        let bpe = BPE::assemble(
            self.vocab,
            vocab_r,
            merges,
            cache_capacity,
            self.dropout,
            self.unk_token,
            self.continuing_subword_prefix,
            self.end_of_word_suffix,
            self.fuse_unk,
            self.byte_fallback,
            self.ignore_merges,
        );
        Ok(bpe)
    }
}

impl BPE {
    /// A builder with the default configuration.
    pub fn builder() -> (r: BpeBuilder)
        ensures
            r.vocab_map() == Map::<Seq<char>, u32>::empty(),
            r.merge_list() == Seq::<(Seq<char>, Seq<char>)>::empty(),
            r.dropout_value() is None,
            r.capacity() == DEFAULT_CACHE_CAPACITY,
            r.options() == (None::<Seq<char>>, None::<Seq<char>>, None::<Seq<char>>, false, false, false),
    {
        BpeBuilder::new()
    }

    /// A model with the given vocabulary and merges and the default options; every
    /// token that a merge names must be in the vocabulary.
    pub fn new(vocab: Vocab, merges: Merges) -> (r: BPE)
        requires
            merges@.len() <= 0x1_0000_0000,
            forall|i: int|
                0 <= i < merges@.len() ==> missing_token(
                    vocab_entries(vocab),
                    #[trigger] merges_view(merges@)[i],
                    0,
                ) is None,
        ensures
            r.wf(),
            r.vocab_map() == vocab_entries(vocab),
            r.merge_map() == merge_map_of(vocab_entries(vocab), merges_view(merges@), 0, merges@.len()),
            r.dropout_value() is None,
            r.options() == (None::<Seq<char>>, None::<Seq<char>>, None::<Seq<char>>, false, false, false),
            r.has_cache(),
            r.cache_capacity() == DEFAULT_CACHE_CAPACITY,
    {
        let ghost mv = merges_view(merges@);
        let b = BpeBuilder::new().vocab_and_merges(vocab, merges);
        proof {
            assert(b.merge_list().len() == merges_view(merges@).len());
        }
        let r = b.build();
        proof {
            if r is Err {
                assert(b.prefix_bytes() == 0);
                let i = choose|i: int|
                    #![trigger b.merge_list()[i]]
                    first_bad_merge(b.vocab_map(), b.merge_list(), b.prefix_bytes(), i) && (
                    r->Err_0 matches BpeError::MergeTokenOutOfVocabulary(s) && s@ == missing_token(
                        b.vocab_map(),
                        b.merge_list()[i],
                        b.prefix_bytes(),
                    )->0);
                assert(mv[i] == b.merge_list()[i]);
            }
        }
        r.unwrap()
    }
}

impl Default for BpeBuilder {
    fn default() -> (r: BpeBuilder)
        ensures
            r.vocab_map() == Map::<Seq<char>, u32>::empty(),
            r.merge_list() == Seq::<(Seq<char>, Seq<char>)>::empty(),
            r.dropout_value() is None,
            r.capacity() == DEFAULT_CACHE_CAPACITY,
            r.options() == (None::<Seq<char>>, None::<Seq<char>>, None::<Seq<char>>, false, false, false),
    {
        BpeBuilder::new()
    }
}

/// The merged token `a + b[plen..]`, cutting `b` after `plen` bytes; `None` when that
/// cut falls inside a character of `b` or beyond its end.
fn merged_string(a: &String, b: &String, plen: usize) -> (r: Option<String>)
    ensures
        r matches Some(t) ==> merged_token(a@, b@, plen as nat) == Some(t@),
        r is None ==> merged_token(a@, b@, plen as nat) is None,
{
    let bs = b.as_str();
    let bc = chars_of(bs);
    // The byte length of `b` fits a `usize`.
    let _blen = bs.as_bytes().len();
    proof {
        assert(bs.spec_bytes() == encode_utf8(b@));
    }
    proof {
        assert(b@.take(0) =~= Seq::<char>::empty());
        assert(encode_utf8(Seq::<char>::empty()) =~= Seq::<u8>::empty());
        assert(b@.take(b@.len() as int) =~= b@);
    }
    let mut k: usize = 0;
    let mut pos: usize = 0;
    while k < bc.len() && pos < plen
        invariant
            bc@ == b@,
            k <= bc@.len(),
            pos == encode_utf8(b@.take(k as int)).len(),
            encode_utf8(b@).len() <= usize::MAX,
            forall|j: int| 0 <= j < k ==> encode_utf8(b@.take(j)).len() < plen,
        decreases bc@.len() - k,
    {
        proof {
            lemma_encode_at(b@, k as int);
        }
        pos = pos + char_byte_len(bc[k]);
        k = k + 1;
    }
    if pos != plen {
        proof {
            assert forall|j: int| 0 <= j <= b@.len() implies encode_utf8(b@.take(j)).len() != plen by {
                if j < k {
                } else if j > k {
                    lemma_encode_take_grows(b@, k as int, j);
                    if k < bc@.len() {
                    } else {
                        assert(false);
                    }
                }
            }
        }
        return None;
    }
    proof {
        let c = choose|j: int| 0 <= j <= b@.len() && encode_utf8(b@.take(j)).len() == plen;
        if c < k {
        } else if c > k {
            lemma_encode_take_grows(b@, k as int, c);
        }
        assert(c == k);
    }
    let mut r = a.clone();
    let mut q = k;
    while q < bc.len()
        invariant
            k <= q <= bc@.len(),
            bc@ == b@,
            r@ == a@ + b@.subrange(k as int, q as int),
        decreases bc@.len() - q,
    {
        push_char(&mut r, bc[q]);
        assert(r@ =~= a@ + b@.subrange(k as int, q + 1));
        q = q + 1;
    }
    assert(b@.subrange(k as int, bc@.len() as int) =~= b@.skip(k as int));
    Some(r)
}

} // verus!
