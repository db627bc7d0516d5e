use vstd::prelude::*;
use std::hash::BuildHasher;
use vstd::utf8::{encode_scalar, encode_utf8};
use vstd::string::StringSliceAdditionalSpecFns;
use crate::maps::{
    Vocab, VocabR, MergeMap, vocab_entries, id_entries, merge_entries, vocab_get, ids_get,
    merges_get, vocab_len, vocab_new, vocab_clone, ids_clone, merges_clone, vocab_to_hash_map,
};
use std::collections::HashMap;
use crate::cache::{Cache, CacheInv, MAX_LENGTH, entry_ok};
use crate::text::{char_len, byte_token, char_byte_len, push_char, byte_token_string, chars_of, lemma_encode_at};
use crate::word::{
    Word, total, greedy, is_best, dropout_merge, lemma_take_total, id_from, lemma_total_push, lemma_total_nonneg, lemma_total_concat, DROPOUT_ONE,
};

verus! {

/// A token produced by the model: its id, its string, and the byte span it covers.
#[derive(Debug, PartialEq, Eq)]
pub struct Token {
    pub id: u32,
    pub value: String,
    pub offsets: (usize, usize),
}

impl Token {
    pub fn new(id: u32, value: String, offsets: (usize, usize)) -> (r: Token)
        ensures
            r@ == (id, value@, offsets),
    {
        Token { id, value, offsets }
    }
}

impl Clone for Token {
    fn clone(&self) -> (r: Token)
        ensures
            r@ == self@,
    {
        Token { id: self.id, value: self.value.clone(), offsets: self.offsets }
    }
}

impl View for Token {
    type V = (u32, Seq<char>, (usize, usize));

    open spec fn view(&self) -> (u32, Seq<char>, (usize, usize)) {
        (self.id, self.value@, self.offsets)
    }
}

/// Errors of the model.
#[derive(Debug, PartialEq, Eq)]
pub enum BpeError {
    /// The dropout lies outside `[0, DROPOUT_ONE]`.
    InvalidDropout,
    /// The vocabulary is not a JSON object of unsigned integers.
    BadVocabulary,
    /// The vocabulary text is not JSON; the parser's message.
    BadJson(String),
    /// A merges line (1-based, counting every line but version headers) is not two tokens.
    BadMerges(usize),
    /// A merge names a token that the vocabulary lacks.
    MergeTokenOutOfVocabulary(String),
    /// An unknown token has to be emitted but is not in the vocabulary.
    UnkTokenOutOfVocabulary(String),
}

/// The parts of a model that decide how a string is split before merging.
pub struct EncodeRules {
    pub vocab: Map<Seq<char>, u32>,
    pub merges: Map<(u32, u32), (u32, u32)>,
    pub unk: Option<Seq<char>>,
    pub prefix: Option<Seq<char>>,
    pub suffix: Option<Seq<char>>,
    pub fuse_unk: bool,
    pub byte_fallback: bool,
}

/// Character `k` with the continuing prefix (when not first) and the end-of-word
/// suffix (when last).
pub open spec fn decorated(r: EncodeRules, cs: Seq<char>, k: int) -> Seq<char> {
    let pre = if k > 0 && r.prefix is Some {
        r.prefix->0
    } else {
        Seq::<char>::empty()
    };
    let suf = if k == cs.len() - 1 && r.suffix is Some {
        r.suffix->0
    } else {
        Seq::<char>::empty()
    };
    pre + seq![cs[k]] + suf
}

/// Every byte of the character has a `<0xNN>` entry and byte fallback is on.
pub open spec fn fallback_ok(r: EncodeRules, c: char) -> bool {
    &&& r.byte_fallback
    &&& forall|i: int|
        0 <= i < encode_scalar(c as u32).len() ==> #[trigger] r.vocab.contains_key(
            byte_token(encode_scalar(c as u32)[i]),
        )
}

/// Character `k` resolves neither directly nor through byte fallback.
pub open spec fn needs_unk(r: EncodeRules, cs: Seq<char>, k: int) -> bool {
    !r.vocab.contains_key(decorated(r, cs, k)) && !fallback_ok(r, cs[k])
}

pub open spec fn unk_id(r: EncodeRules) -> u32 {
    r.vocab[r.unk->0]
}

/// Emits the pending unknown span, if any.
pub open spec fn flush(r: EncodeRules, syms: Seq<(u32, usize)>, pend: Option<nat>) -> Seq<(u32, usize)> {
    match pend {
        Some(l) => syms.push((unk_id(r), l as usize)),
        None => syms,
    }
}

/// The symbols after the first `n` characters, with the length of a pending unknown span.
pub open spec fn scan(r: EncodeRules, cs: Seq<char>, n: nat) -> (Seq<(u32, usize)>, Option<nat>)
    decreases n,
{
    if n == 0 {
        (Seq::empty(), None)
    } else {
        let (syms, pend) = scan(r, cs, (n - 1) as nat);
        let k = n - 1;
        let c = cs[k];
        let bl = char_len(c);
        let d = decorated(r, cs, k);
        if r.vocab.contains_key(d) {
            (flush(r, syms, pend).push((r.vocab[d], bl as usize)), None)
        } else if fallback_ok(r, c) {
            (
                flush(r, syms, pend) + encode_scalar(c as u32).map_values(
                    |b: u8| (r.vocab[byte_token(b)], 1usize),
                ),
                None,
            )
        } else if r.unk is Some {
            if r.fuse_unk && pend is Some {
                (syms, Some(pend->0 + bl))
            } else {
                (flush(r, syms, pend), Some(bl))
            }
        } else {
            (syms, pend)
        }
    }
}

/// The symbols of a string before any merge.
pub open spec fn initial_symbols(r: EncodeRules, cs: Seq<char>) -> Seq<(u32, usize)> {
    flush(r, scan(r, cs, cs.len()).0, scan(r, cs, cs.len()).1)
}

/// Some character needs the unknown token, which the vocabulary lacks.
pub open spec fn unk_missing(r: EncodeRules, cs: Seq<char>) -> bool {
    &&& r.unk is Some
    &&& !r.vocab.contains_key(r.unk->0)
    &&& exists|k: int| 0 <= k < cs.len() && needs_unk(r, cs, k)
}

/// No character is silently left out: each resolves, or an unknown token is configured.
pub open spec fn nothing_dropped(r: EncodeRules, cs: Seq<char>) -> bool {
    r.unk is Some || forall|k: int| 0 <= k < cs.len() ==> !needs_unk(r, cs, k)
}

/// The token for position `k` of a symbol sequence.
pub open spec fn token_at(vr: Map<u32, Seq<char>>, w: Seq<(u32, usize)>, k: int) -> (
    u32,
    Seq<char>,
    (usize, usize),
) {
    (w[k].0, vr[w[k].0], (total(w.take(k)) as usize, (total(w.take(k)) + w[k].1) as usize))
}

/// The tokens of a symbol sequence: offsets are running sums of the byte lengths.
pub open spec fn tokens_of(vr: Map<u32, Seq<char>>, w: Seq<(u32, usize)>) -> Seq<
    (u32, Seq<char>, (usize, usize)),
> {
    Seq::new(w.len(), |k: int| token_at(vr, w, k))
}

pub open spec fn token_views(v: Seq<Token>) -> Seq<(u32, Seq<char>, (usize, usize))> {
    v.map_values(|t: Token| t@)
}

pub open spec fn opt_view(o: Option<String>) -> Option<Seq<char>> {
    match o {
        Some(s) => Some(s@),
        None => None,
    }
}

pub open spec fn pend_of(unk: Option<(u32, usize)>) -> Option<nat> {
    match unk {
        Some(u) => Some(u.1 as nat),
        None => None,
    }
}

pub open spec fn pend_len(unk: Option<(u32, usize)>) -> nat {
    match unk {
        Some(u) => u.1 as nat,
        None => 0,
    }
}

fn flush_unk(word: &mut Word, unk: &mut Option<(u32, usize)>)
    requires
        old(word).wf(),
        old(word).is_open(),
        old(word).size() + (if *old(unk) is Some { 1int } else { 0int }) <= usize::MAX,
        total(old(word)@) + pend_len(*old(unk)) <= usize::MAX,
    ensures
        final(word).wf(),
        final(word).is_open(),
        *final(unk) is None,
        final(word)@ == (match *old(unk) {
            Some(u) => old(word)@.push(u),
            None => old(word)@,
        }),
        final(word).size() == old(word).size() + (if *old(unk) is Some { 1int } else { 0int }),
        total(final(word)@) == total(old(word)@) + pend_len(*old(unk)),
{
    match *unk {
        Some(u) => {
            proof {
                lemma_total_push(word@, u);
            }
            word.add(u.0, u.1);
            *unk = None;
        },
        None => {},
    }
}

/// Offsets start at 0, follow one another without gap or overlap, and end at `len`.
pub open spec fn offsets_cover(v: Seq<(u32, Seq<char>, (usize, usize))>, len: nat) -> bool {
    &&& v.len() > 0 ==> v[0].2.0 == 0 && v[v.len() - 1].2.1 == len
    &&& v.len() == 0 ==> len == 0
    &&& forall|k: int| 0 <= k < v.len() - 1 ==> (#[trigger] v[k]).2.1 == v[k + 1].2.0
    &&& forall|k: int| 0 <= k < v.len() ==> (#[trigger] v[k]).2.0 <= v[k].2.1
}

/// The tokens of any symbol sequence tile the bytes it covers.
pub proof fn lemma_tokens_cover(vr: Map<u32, Seq<char>>, w: Seq<(u32, usize)>)
    requires
        total(w) <= usize::MAX,
    ensures
        offsets_cover(tokens_of(vr, w), total(w) as nat),
{
    let v = tokens_of(vr, w);
    if w.len() > 0 {
        lemma_take_total(w, 0);
        lemma_take_total(w, w.len() - 1);
        assert(w.take(0) =~= Seq::<(u32, usize)>::empty());
        assert(w.take(w.len() as int) =~= w);
    } else {
        assert(total(w) == 0);
    }
    assert forall|k: int| 0 <= k < v.len() - 1 implies (#[trigger] v[k]).2.1 == v[k + 1].2.0 by {
        lemma_take_total(w, k);
        lemma_take_total(w, k + 1);
    }
    assert forall|k: int| 0 <= k < v.len() implies (#[trigger] v[k]).2.0 <= v[k].2.1 by {
        lemma_take_total(w, k);
        lemma_take_total(w, k + 1);
    }
}

impl Default for BPE {
    /// A model with an empty vocabulary and the default options.
    fn default() -> (r: BPE)
        ensures
            r.wf(),
            r.vocab_map() == Map::<Seq<char>, u32>::empty(),
            r.merge_map() == Map::<(u32, u32), (u32, u32)>::empty(),
    {
        BPE::new(vocab_new(), Vec::new())
    }
}

impl Clone for BPE {
    /// A copy of the model with a fresh, empty cache of the same capacity.
    fn clone(&self) -> (r: BPE)
        ensures
            self.wf() ==> r.wf(),
            r.same_model(self),
            r.same_encoding(self),
            r.has_cache() == self.has_cache(),
            r.cache_capacity() == self.cache_capacity(),
    {
        let cache = match &self.cache {
            Some(c) => Some(c.fresh()),
            None => None,
        };
        BPE {
            vocab: vocab_clone(&self.vocab),
            vocab_r: ids_clone(&self.vocab_r),
            merges: merges_clone(&self.merges),
            cache,
            dropout: self.dropout,
            unk_token: self.unk_token.clone(),
            continuing_subword_prefix: self.continuing_subword_prefix.clone(),
            end_of_word_suffix: self.end_of_word_suffix.clone(),
            fuse_unk: self.fuse_unk,
            byte_fallback: self.byte_fallback,
            ignore_merges: self.ignore_merges,
        }
    }
}

/// Relies on ahash::RandomState::new, whose every instance has its own random keys:
/// hashing a constant with them gives a fresh, unpredictable seed for dropout.
#[verifier::external_body]
fn fresh_seed() -> u64 {
    ahash::RandomState::new().hash_one(0u8)
}

/// The bytes that the tokens' spans cover, in token order.
pub open spec fn spans_concat(bytes: Seq<u8>, v: Seq<(u32, Seq<char>, (usize, usize))>) -> Seq<u8>
    decreases v.len(),
{
    if v.len() == 0 {
        Seq::empty()
    } else {
        spans_concat(bytes, v.drop_last()) + bytes.subrange(
            v[v.len() - 1].2.0 as int,
            v[v.len() - 1].2.1 as int,
        )
    }
}

proof fn lemma_ends_bounded(v: Seq<(u32, Seq<char>, (usize, usize))>, len: nat, k: int)
    requires
        offsets_cover(v, len),
        0 <= k < v.len(),
    ensures
        v[k].2.1 <= len,
    decreases v.len() - k,
{
    if k + 1 < v.len() {
        lemma_ends_bounded(v, len, k + 1);
        assert(v[k].2.1 == v[k + 1].2.0);
        assert(v[k + 1].2.0 <= v[k + 1].2.1);
    }
}

proof fn lemma_spans_prefix(bytes: Seq<u8>, v: Seq<(u32, Seq<char>, (usize, usize))>, k: int)
    requires
        offsets_cover(v, bytes.len()),
        1 <= k <= v.len(),
    ensures
        spans_concat(bytes, v.take(k)) == bytes.subrange(0, v[k - 1].2.1 as int),
    decreases k,
{
    let t = v.take(k);
    assert(t.drop_last() =~= v.take(k - 1));
    lemma_ends_bounded(v, bytes.len(), k - 1);
    if k == 1 {
        assert(v.take(0) =~= Seq::<(u32, Seq<char>, (usize, usize))>::empty());
        assert(spans_concat(bytes, v.take(0)) =~= Seq::<u8>::empty());
        assert(bytes.subrange(0, v[0].2.1 as int) =~= Seq::<u8>::empty() + bytes.subrange(
            v[0].2.0 as int,
            v[0].2.1 as int,
        ));
    } else {
        lemma_spans_prefix(bytes, v, k - 1);
        assert(v[k - 2].2.1 == v[k - 1].2.0);
        assert(bytes.subrange(0, v[k - 1].2.1 as int) =~= bytes.subrange(0, v[k - 2].2.1 as int)
            + bytes.subrange(v[k - 1].2.0 as int, v[k - 1].2.1 as int));
    }
}

/// Concatenating the input bytes under each token's offsets, in order, gives back the
/// input exactly, for any tokens whose offsets tile it.
pub proof fn lemma_spans_rebuild(bytes: Seq<u8>, v: Seq<(u32, Seq<char>, (usize, usize))>)
    requires
        offsets_cover(v, bytes.len()),
    ensures
        spans_concat(bytes, v) == bytes,
{
    if v.len() == 0 {
        assert(bytes =~= Seq::<u8>::empty());
    } else {
        lemma_spans_prefix(bytes, v, v.len() as int);
        assert(v.take(v.len() as int) =~= v);
        assert(bytes.subrange(0, bytes.len() as int) =~= bytes);
    }
}

/// The pre-merge symbols do not depend on the merges.
proof fn lemma_scan_ignores_merges(r1: EncodeRules, r2: EncodeRules, cs: Seq<char>, n: nat)
    requires
        r1.vocab == r2.vocab,
        r1.unk == r2.unk,
        r1.prefix == r2.prefix,
        r1.suffix == r2.suffix,
        r1.fuse_unk == r2.fuse_unk,
        r1.byte_fallback == r2.byte_fallback,
    ensures
        scan(r1, cs, n) == scan(r2, cs, n),
        n == cs.len() ==> initial_symbols(r1, cs) == initial_symbols(r2, cs),
    decreases n,
{
    if n > 0 {
        lemma_scan_ignores_merges(r1, r2, cs, (n - 1) as nat);
        let k = n - 1;
        assert(decorated(r1, cs, k) == decorated(r2, cs, k));
        assert(fallback_ok(r1, cs[k]) == fallback_ok(r2, cs[k]));
        assert(unk_id(r1) == unk_id(r2));
    }
    assert(unk_id(r1) == unk_id(r2));
}

/// A Byte Pair Encoding model.
pub struct BPE {
    pub(crate) vocab: Vocab,
    pub(crate) vocab_r: VocabR,
    pub(crate) merges: MergeMap,
    pub(crate) cache: Option<Cache>,
    /// Dropout probability as a fraction of `DROPOUT_ONE`; `None` or `Some(0)` disables it.
    pub dropout: Option<u64>,
    pub(crate) unk_token: Option<String>,
    pub(crate) continuing_subword_prefix: Option<String>,
    pub(crate) end_of_word_suffix: Option<String>,
    pub(crate) fuse_unk: bool,
    pub(crate) byte_fallback: bool,
    /// Whether a whole input found in the vocabulary is returned as one token.
    pub ignore_merges: bool,
}

impl BPE {
    /// The parts of the model that decide how a string is split and merged.
    pub open spec fn rules(&self) -> EncodeRules {
        EncodeRules {
            vocab: self.vocab_map(),
            merges: self.merge_map(),
            unk: self.options().0,
            prefix: self.options().1,
            suffix: self.options().2,
            fuse_unk: self.options().3,
            byte_fallback: self.options().4,
        }
    }

    pub closed spec fn vocab_map(&self) -> Map<Seq<char>, u32> {
        vocab_entries(self.vocab)
    }

    pub closed spec fn ids_map(&self) -> Map<u32, Seq<char>> {
        id_entries(self.vocab_r)
    }

    pub closed spec fn merge_map(&self) -> Map<(u32, u32), (u32, u32)> {
        merge_entries(self.merges)
    }

    pub closed spec fn wf(&self) -> bool {
        let v = vocab_entries(self.vocab);
        let vr = id_entries(self.vocab_r);
        let ms = merge_entries(self.merges);
        &&& forall|s: Seq<char>| #[trigger] v.contains_key(s) ==> vr.contains_key(v[s])
        &&& forall|i: u32| #[trigger] vr.contains_key(i) ==> v.contains_key(vr[i]) && v[vr[i]] == i
        &&& forall|p: (u32, u32)| #[trigger] ms.contains_key(p) ==> vr.contains_key(ms[p].1)
            && vr.contains_key(p.0) && vr.contains_key(p.1)
        &&& forall|p: (u32, u32), q: (u32, u32)|
            #[trigger] ms.contains_key(p) && #[trigger] ms.contains_key(q) && ms[p].0 == ms[q].0 ==> p == q
        &&& self.cache matches Some(c) ==> c.rules_inv() == self.cache_inv()
    }

    pub closed spec fn cache_inv(&self) -> CacheInv {
        CacheInv { rules: self.rules(), ids: id_entries(self.vocab_r) }
    }

    /// The two models hold the same vocabulary, merges and options.
    pub open spec fn same_model(&self, other: &BPE) -> bool {
        &&& self.rules() == other.rules()
        &&& self.ids_map() == other.ids_map()
        &&& self.dropout_value() == other.dropout_value()
        &&& self.options().5 == other.options().5
    }

    /// Whether merges run without dropout.
    pub open spec fn deterministic(&self) -> bool {
        self.dropout_value() is None || self.dropout_value() == Some(0u64)
    }

    /// The merged symbols of `w`: resolve each character, then merge, with dropout `dropout`
    /// drawn from a source seeded with `seed`.
    fn merge_word(&self, w: &str, dropout: Option<u64>, seed: u64) -> (r: Result<Vec<(u32, usize)>, BpeError>)
        requires
            self.wf(),
        ensures
            match r {
                Ok(syms) => {
                    let init = initial_symbols(self.rules(), w@);
                    &&& !unk_missing(self.rules(), w@)
                    &&& syms@ == dropout_merge(
                        init,
                        Seq::new(init.len(), |i: int| false),
                        merge_entries(self.merges),
                        match dropout {
                            Some(p) => p,
                            None => 0,
                        },
                        seed,
                    )
                    &&& dropout is None || dropout == Some(0u64) ==> syms@ == greedy(init, merge_entries(self.merges))
                    &&& (dropout matches Some(p) && p >= DROPOUT_ONE) ==> syms@ == init
                    &&& total(syms@) <= encode_utf8(w@).len()
                    &&& total(syms@) <= usize::MAX
                    &&& nothing_dropped(self.rules(), w@) ==> total(syms@) == encode_utf8(w@).len()
                    &&& forall|q: int|
                        0 <= q < syms@.len() ==> self.ids_map().contains_key(#[trigger] syms@[q].0)
                },
                Err(e) => {
                    &&& unk_missing(self.rules(), w@)
                    &&& e matches BpeError::UnkTokenOutOfVocabulary(t) && t@ == self.rules().unk->0
                },
            },
    {
        // The byte length of `w` fits a `usize`.
        let _blen = w.as_bytes().len();
        let mut word = match self.initial_word(w) {
            Ok(word) => word,
            Err(e) => {
                return Err(e);
            },
        };
        let ghost init = word@;
        word.merge_all(&self.merges, dropout, seed);
        let syms = word.to_vec();
        proof {
            let ms = merge_entries(self.merges);
            assert forall|q: int| 0 <= q < syms@.len() implies self.ids_map().contains_key(#[trigger] syms@[q].0) by {
                assert(id_from(init, ms, syms@[q].0));
                if exists|j: int| 0 <= j < init.len() && init[j].0 == syms@[q].0 {
                    let j = choose|j: int| 0 <= j < init.len() && init[j].0 == syms@[q].0;
                    assert(self.ids_map().contains_key(init[j].0));
                } else {
                    let pr = choose|pr: (u32, u32)| ms.contains_key(pr) && ms[pr].1 == syms@[q].0;
                    assert(ms.contains_key(pr));
                }
            }
        }
        Ok(syms)
    }

    /// The symbols of `w` before merging.
    fn initial_word(&self, w: &str) -> (r: Result<Word, BpeError>)
        requires
            self.wf(),
        ensures
            match r {
                Ok(word) => {
                    &&& !unk_missing(self.rules(), w@)
                    &&& word.wf()
                    &&& word@ == initial_symbols(self.rules(), w@)
                    &&& total(word@) <= encode_utf8(w@).len()
                    &&& nothing_dropped(self.rules(), w@) ==> total(word@) == encode_utf8(w@).len()
                    &&& forall|q: int|
                        0 <= q < word@.len() ==> self.ids_map().contains_key(#[trigger] word@[q].0)
                },
                Err(e) => {
                    &&& unk_missing(self.rules(), w@)
                    &&& e matches BpeError::UnkTokenOutOfVocabulary(t) && t@ == self.rules().unk->0
                },
            },
    {
        let cs = chars_of(w);
        let bytes = w.as_bytes();
        // The byte length of `w` fits a `usize`.
        let _blen = bytes.len();
        let n = cs.len();
        let mut word = Word::with_capacity(w.len());
        let mut unk: Option<(u32, usize)> = None;
        let mut pos: usize = 0;
        let mut k: usize = 0;
        let ghost r = self.rules();
        proof {
            assert(cs@.take(0) =~= Seq::<char>::empty());
            assert(encode_utf8(Seq::<char>::empty()) =~= Seq::<u8>::empty());
        }
        while k < n
            invariant
                self.wf(),
                r == self.rules(),
                cs@ == w@,
                n == cs@.len(),
                bytes@ == encode_utf8(w@),
                0 <= k <= n,
                pos == encode_utf8(cs@.take(k as int)).len(),
                pos <= bytes@.len(),
                bytes@.len() <= usize::MAX,
                word.wf(),
                word.is_open(),
                (word@, pend_of(unk)) == scan(r, cs@, k as nat),
                unk matches Some(u) ==> u.0 == unk_id(r) && r.unk is Some && r.vocab.contains_key(
                    r.unk->0,
                ) && u.1 >= 1,
                word.size() + (if unk is Some { 1int } else { 0int }) <= pos,
                total(word@) + pend_len(unk) <= pos,
                (r.unk is Some || forall|j: int| 0 <= j < k ==> !needs_unk(r, cs@, j)) ==> total(
                    word@,
                ) + pend_len(unk) == pos,
                r.unk is Some && !r.vocab.contains_key(r.unk->0) ==> forall|j: int|
                    0 <= j < k ==> !needs_unk(r, cs@, j),
                forall|q: int|
                    0 <= q < word@.len() ==> self.ids_map().contains_key(#[trigger] word@[q].0),
            decreases n - k,
        {
            let c = cs[k];
            let bl = char_byte_len(c);
            proof {
                lemma_encode_at(cs@, k as int);
                assert(cs@ =~= w@);
                assert(pos + bl <= bytes@.len());
            }
            let ghost prev_word = word@;
            let ghost prev_unk = unk;
            proof {
                lemma_total_nonneg(word@);
            }
            let mut key = String::new();
            if k > 0 {
                match &self.continuing_subword_prefix {
                    Some(p) => key.append(p.as_str()),
                    None => {},
                }
            }
            push_char(&mut key, c);
            if k + 1 == n {
                match &self.end_of_word_suffix {
                    Some(sf) => key.append(sf.as_str()),
                    None => {},
                }
            }
            proof {
                assert(key@ =~= decorated(r, cs@, k as int));
            }
            match vocab_get(&self.vocab, key.as_str()) {
                Some(id) => {
                    flush_unk(&mut word, &mut unk);
                    proof {
                        lemma_total_push(word@, (id, bl));
                    }
                    word.add(id, bl);
                    proof {
                        assert(word@ == flush(r, prev_word, pend_of(prev_unk)).push((r.vocab[key@], bl)));
                    }
                },
                None => {
                    let fb = if self.byte_fallback {
                        self.byte_fallback_ids(bytes, pos, pos + bl)
                    } else {
                        None
                    };
                    match fb {
                        Some(ids) => {
                            proof {
                                assert(bytes@.subrange(pos as int, pos + bl) == encode_scalar(c as u32));
                                assert(fallback_ok(r, c)) by {
                                    assert forall|i: int| 0 <= i < encode_scalar(c as u32).len() implies #[trigger] r.vocab.contains_key(
                                        byte_token(encode_scalar(c as u32)[i])) by {
                                        assert(encode_scalar(c as u32)[i] == bytes@[pos + i]);
                                    }
                                }
                            }
                            proof {
                                assert forall|q: int| 0 <= q < ids@.len() implies self.ids_map().contains_key(#[trigger] ids@[q]) by {
                                    assert(self.vocab_map().contains_key(byte_token(bytes@[pos + q])));
                                }
                            }
                            flush_unk(&mut word, &mut unk);
                            let ghost base = word@;
                            let mut t: usize = 0;
                            while t < ids.len()
                                invariant
                                    self.wf(),
                                    t <= ids@.len(),
                                    ids@.len() == bl,
                                    word.wf(),
                                    word.is_open(),
                                    word@ == base + ids@.take(t as int).map_values(|x: u32| (x, 1usize)),
                                    word.size() + (ids@.len() - t) <= pos + bl,
                                    total(word@) == total(base) + t,
                                    total(base) + bl <= pos + bl,
                                    pos + bl <= usize::MAX,
                                    forall|q: int|
                                        0 <= q < word@.len() ==> self.ids_map().contains_key(#[trigger] word@[q].0),
                                    forall|q: int| 0 <= q < ids@.len() ==> self.ids_map().contains_key(#[trigger] ids@[q]),
                                decreases ids@.len() - t,
                            {
                                proof {
                                    lemma_total_push(word@, (ids@[t as int], 1usize));
                                    assert(base + ids@.take(t + 1).map_values(|x: u32| (x, 1usize)) =~= (base
                                        + ids@.take(t as int).map_values(|x: u32| (x, 1usize))).push((ids@[t as int], 1usize)));
                                }
                                word.add(ids[t], 1);
                                t = t + 1;
                            }
                            proof {
                                assert(ids@.take(bl as int) =~= ids@);
                                assert(ids@.map_values(|x: u32| (x, 1usize)) =~= encode_scalar(c as u32).map_values(
                                    |b: u8| (r.vocab[byte_token(b)], 1usize)));
                            }
                        },
                        None => {
                            proof {
                                if fallback_ok(r, c) {
                                    assert(bytes@.subrange(pos as int, pos + bl) == encode_scalar(c as u32));
                                    let i = choose|i: int| pos <= i < pos + bl && !#[trigger] self.vocab_map().contains_key(byte_token(bytes@[i]));
                                    assert(bytes@[i] == encode_scalar(c as u32)[i - pos]);
                                }
                            }
                            match &self.unk_token {
                                Some(ut) => {
                                    let fused = match unk {
                                        Some(u) => {
                                            if self.fuse_unk {
                                                unk = Some((u.0, u.1 + bl));
                                                true
                                            } else {
                                                false
                                            }
                                        },
                                        None => false,
                                    };
                                    if !fused {
                                        flush_unk(&mut word, &mut unk);
                                        match vocab_get(&self.vocab, ut.as_str()) {
                                            Some(uid) => {
                                                unk = Some((uid, bl));
                                            },
                                            None => {
                                                proof {
                                                    assert(needs_unk(r, cs@, k as int));
                                                    assert(cs@ == w@);
                                                }
                                                return Err(BpeError::UnkTokenOutOfVocabulary(ut.clone()));
                                            },
                                        }
                                    }
                                },
                                None => {},
                            }
                        },
                    }
                },
            }
            proof {
                assert(total(word@) + pend_len(unk) == total(prev_word) + pend_len(prev_unk) + bl || (
                    r.unk is None && needs_unk(r, cs@, k as int)));
            }
            pos = pos + bl;
            k = k + 1;
            proof {
                assert(cs@.take(k as int) =~= cs@.take(k - 1).push(cs@[k - 1]));
            }
        }
        proof {
            assert(cs@.take(n as int) =~= cs@);
        }
        flush_unk(&mut word, &mut unk);
        Ok(word)
    }

    pub closed spec fn options(&self) -> (Option<Seq<char>>, Option<Seq<char>>, Option<Seq<char>>, bool, bool, bool) {
        (
            opt_view(self.unk_token),
            opt_view(self.continuing_subword_prefix),
            opt_view(self.end_of_word_suffix),
            self.fuse_unk,
            self.byte_fallback,
            self.ignore_merges,
        )
    }

    pub closed spec fn dropout_value(&self) -> Option<u64> {
        self.dropout
    }

    pub closed spec fn has_cache(&self) -> bool {
        self.cache is Some
    }

    pub closed spec fn cache_capacity(&self) -> usize {
        match self.cache {
            Some(c) => c.capacity_value(),
            None => 0,
        }
    }

    /// Puts a model together from checked parts.
    pub(crate) fn assemble(
        vocab: Vocab,
        vocab_r: VocabR,
        merges: MergeMap,
        cache_capacity: usize,
        dropout: Option<u64>,
        unk_token: Option<String>,
        continuing_subword_prefix: Option<String>,
        end_of_word_suffix: Option<String>,
        fuse_unk: bool,
        byte_fallback: bool,
        ignore_merges: bool,
    ) -> (r: BPE)
        requires
            forall|s: Seq<char>| #[trigger] vocab_entries(vocab).contains_key(s) ==> id_entries(vocab_r).contains_key(vocab_entries(vocab)[s]),
            forall|i: u32| #[trigger] id_entries(vocab_r).contains_key(i) ==> vocab_entries(vocab).contains_key(id_entries(vocab_r)[i])
                && vocab_entries(vocab)[id_entries(vocab_r)[i]] == i,
            forall|p: (u32, u32)| #[trigger] merge_entries(merges).contains_key(p) ==> id_entries(vocab_r).contains_key(merge_entries(merges)[p].1)
                && id_entries(vocab_r).contains_key(p.0) && id_entries(vocab_r).contains_key(p.1),
            forall|p: (u32, u32), q: (u32, u32)|
                #[trigger] merge_entries(merges).contains_key(p) && #[trigger] merge_entries(merges).contains_key(q)
                && merge_entries(merges)[p].0 == merge_entries(merges)[q].0 ==> p == q,
        ensures
            r.wf(),
            r.vocab_map() == vocab_entries(vocab),
            r.ids_map() == id_entries(vocab_r),
            r.merge_map() == merge_entries(merges),
            r.dropout_value() == dropout,
            r.options() == (opt_view(unk_token), opt_view(continuing_subword_prefix), opt_view(end_of_word_suffix), fuse_unk, byte_fallback, ignore_merges),
            r.cache_capacity() == cache_capacity,
            r.has_cache() == (cache_capacity > 0),
    {
        let ghost inv = CacheInv {
            rules: EncodeRules {
                vocab: vocab_entries(vocab),
                merges: merge_entries(merges),
                unk: opt_view(unk_token),
                prefix: opt_view(continuing_subword_prefix),
                suffix: opt_view(end_of_word_suffix),
                fuse_unk,
                byte_fallback,
            },
            ids: id_entries(vocab_r),
        };
        let cache = if cache_capacity == 0 {
            None
        } else {
            Some(Cache::new(cache_capacity, Ghost(inv)))
        };
        BPE {
            vocab,
            vocab_r,
            merges,
            cache,
            dropout,
            unk_token,
            continuing_subword_prefix,
            end_of_word_suffix,
            fuse_unk,
            byte_fallback,
            ignore_merges,
        }
    }

    /// Dropout skips every merge.
    pub open spec fn skips_all_merges(&self) -> bool {
        self.dropout_value() matches Some(p) && p >= DROPOUT_ONE
    }

    /// The whole input is returned as one token.
    pub open spec fn whole_match(&self, cs: Seq<char>) -> bool {
        cs.len() > 0 && self.options().5 && self.vocab_map().contains_key(cs)
    }

    /// Tokenizing fails: an unknown token is needed and the vocabulary lacks it.
    pub open spec fn tokenize_fails(&self, cs: Seq<char>) -> bool {
        cs.len() > 0 && !self.whole_match(cs) && unk_missing(self.rules(), cs)
    }

    /// The tokens of a non-empty input when merging runs to the end.
    pub open spec fn expected_tokens(&self, cs: Seq<char>) -> Seq<(u32, Seq<char>, (usize, usize))> {
        if cs.len() == 0 {
            Seq::empty()
        } else if self.whole_match(cs) {
            seq![(self.vocab_map()[cs], cs, (0usize, encode_utf8(cs).len() as usize))]
        } else {
            tokens_of(
                self.ids_map(),
                greedy(initial_symbols(self.rules(), cs), self.merge_map()),
            )
        }
    }

    /// The tokens of a non-empty input when no merge is applied.
    pub open spec fn unmerged_tokens(&self, cs: Seq<char>) -> Seq<(u32, Seq<char>, (usize, usize))> {
        if cs.len() == 0 {
            Seq::empty()
        } else if self.whole_match(cs) {
            seq![(self.vocab_map()[cs], cs, (0usize, encode_utf8(cs).len() as usize))]
        } else {
            tokens_of(self.ids_map(), initial_symbols(self.rules(), cs))
        }
    }

    /// The tokens of a run whose dropout decisions come from a source seeded with `seed`.
    pub open spec fn seeded_tokens(&self, cs: Seq<char>, seed: u64) -> Seq<(u32, Seq<char>, (usize, usize))> {
        if cs.len() == 0 {
            Seq::empty()
        } else if self.whole_match(cs) {
            seq![(self.vocab_map()[cs], cs, (0usize, encode_utf8(cs).len() as usize))]
        } else {
            let w = initial_symbols(self.rules(), cs);
            tokens_of(
                self.ids_map(),
                dropout_merge(
                    w,
                    Seq::new(w.len(), |i: int| false),
                    self.merge_map(),
                    match self.dropout_value() {
                        Some(p) => p,
                        None => 0,
                    },
                    seed,
                ),
            )
        }
    }

    /// What holds of the tokens of any run, whatever dropout decided.
    pub open spec fn sound_tokens(&self, cs: Seq<char>, v: Seq<(u32, Seq<char>, (usize, usize))>) -> bool {
        &&& nothing_dropped(self.rules(), cs) ==> offsets_cover(v, encode_utf8(cs).len())
        &&& forall|k: int|
            0 <= k < v.len() ==> self.ids_map().contains_key((#[trigger] v[k]).0) && (
            v[k].1 == self.ids_map()[v[k].0] || (self.whole_match(cs) && v[k].1 == cs
                && self.vocab_map()[cs] == v[k].0))
    }

    /// What `tokenize` guarantees of a successful call.
    pub open spec fn tokenize_ok(&self, s: Seq<char>, v: Seq<(u32, Seq<char>, (usize, usize))>) -> bool {
        &&& !self.tokenize_fails(s)
        &&& self.sound_tokens(s, v)
        &&& self.deterministic() ==> v == self.expected_tokens(s)
        &&& self.skips_all_merges() ==> v == self.unmerged_tokens(s)
    }

    /// Determinism without dropout: two successful tokenizations of the same input agree,
    /// whether or not the cache answered either of them.
    pub proof fn lemma_repeat_agrees(
        &self,
        s: Seq<char>,
        v1: Seq<(u32, Seq<char>, (usize, usize))>,
        v2: Seq<(u32, Seq<char>, (usize, usize))>,
    )
        requires
            self.deterministic(),
            self.tokenize_ok(s, v1),
            self.tokenize_ok(s, v2),
        ensures
            v1 == v2,
    {
    }

    /// Monotone offsets: when no character is dropped, the first token starts at 0, each
    /// token ends where the next starts, and the last ends at the input's byte length.
    pub proof fn lemma_monotone_offsets(&self, s: Seq<char>, v: Seq<(u32, Seq<char>, (usize, usize))>)
        requires
            self.tokenize_ok(s, v),
            nothing_dropped(self.rules(), s),
        ensures
            encode_utf8(s).len() > 0 ==> v.len() > 0,
            v.len() > 0 ==> v[0].2.0 == 0 && v[v.len() - 1].2.1 == encode_utf8(s).len(),
            forall|k: int| 0 <= k < v.len() - 1 ==> (#[trigger] v[k]).2.1 == v[k + 1].2.0,
    {
    }

    /// No two tokens of the vocabulary share an id.
    pub open spec fn ids_distinct(&self) -> bool {
        forall|s1: Seq<char>, s2: Seq<char>|
            #[trigger] self.vocab_map().contains_key(s1) && #[trigger] self.vocab_map().contains_key(s2) && self.vocab_map()[s1] == self.vocab_map()[s2]
                ==> s1 == s2
    }

    /// Value fidelity: every token's value is the inverse vocabulary's entry for its id, and
    /// the vocabulary gives that id back. Through the whole-input shortcut the value is the
    /// input itself, so there this needs ids that no two tokens share.
    pub proof fn lemma_value_fidelity(&self, s: Seq<char>, v: Seq<(u32, Seq<char>, (usize, usize))>)
        requires
            self.wf(),
            self.tokenize_ok(s, v),
            self.whole_match(s) ==> self.ids_distinct(),
        ensures
            forall|k: int|
                0 <= k < v.len() ==> {
                    &&& self.ids_map().contains_key((#[trigger] v[k]).0)
                    &&& v[k].1 == self.ids_map()[v[k].0]
                    &&& self.vocab_map().contains_key(v[k].1)
                    &&& self.vocab_map()[v[k].1] == v[k].0
                },
    {
        let vm = vocab_entries(self.vocab);
        let vr = id_entries(self.vocab_r);
        assert forall|k: int| 0 <= k < v.len() implies {
            &&& self.ids_map().contains_key((#[trigger] v[k]).0)
            &&& v[k].1 == self.ids_map()[v[k].0]
            &&& self.vocab_map().contains_key(v[k].1)
            &&& self.vocab_map()[v[k].1] == v[k].0
        } by {
            assert(vr.contains_key(v[k].0));
            assert(vm.contains_key(vr[v[k].0]) && vm[vr[v[k].0]] == v[k].0);
            if self.whole_match(s) && v[k].1 != vr[v[k].0] {
                assert(vm.contains_key(s));
                assert(vm.contains_key(v[k].1));
            }
        }
    }

    /// The two models split and merge every input alike.
    pub open spec fn same_encoding(&self, other: &BPE) -> bool {
        &&& self.rules() == other.rules()
        &&& self.ids_map() == other.ids_map()
        &&& self.options().5 == other.options().5
    }

    /// Two models with the same vocabulary, merges and options fail on the same inputs,
    /// naming the same unknown token; a clone is such a model.
    pub proof fn lemma_same_failures(&self, other: &BPE, s: Seq<char>)
        requires
            self.same_encoding(other),
        ensures
            self.tokenize_fails(s) == other.tokenize_fails(s),
            self.rules().unk == other.rules().unk,
    {
    }

    /// Determinism without dropout: two models with the same vocabulary, merges and options,
    /// each without dropout (none, or zero), return the same tokens for the same input.
    pub proof fn lemma_models_agree(
        &self,
        other: &BPE,
        s: Seq<char>,
        v1: Seq<(u32, Seq<char>, (usize, usize))>,
        v2: Seq<(u32, Seq<char>, (usize, usize))>,
    )
        requires
            self.same_encoding(other),
            self.deterministic(),
            other.deterministic(),
            self.tokenize_ok(s, v1),
            other.tokenize_ok(s, v2),
        ensures
            v1 == v2,
    {
    }

    /// The two models differ at most in their merges: same vocabulary, unknown token,
    /// prefix, suffix and flags.
    pub open spec fn same_except_merges(&self, other: &BPE) -> bool {
        &&& self.rules().vocab == other.rules().vocab
        &&& self.rules().unk == other.rules().unk
        &&& self.rules().prefix == other.rules().prefix
        &&& self.rules().suffix == other.rules().suffix
        &&& self.rules().fuse_unk == other.rules().fuse_unk
        &&& self.rules().byte_fallback == other.rules().byte_fallback
        &&& self.ids_map() == other.ids_map()
        &&& self.options().5 == other.options().5
    }

    /// A model and one that differs from it only in its merges fail on the same inputs,
    /// naming the same unknown token.
    pub proof fn lemma_failures_ignore_merges(&self, other: &BPE, s: Seq<char>)
        requires
            self.same_except_merges(other),
        ensures
            self.tokenize_fails(s) == other.tokenize_fails(s),
            self.rules().unk == other.rules().unk,
    {
        let r1 = self.rules();
        let r2 = other.rules();
        assert forall|k: int| 0 <= k < s.len() implies needs_unk(r1, s, k) == needs_unk(r2, s, k) by {
            assert(decorated(r1, s, k) == decorated(r2, s, k));
            assert(fallback_ok(r1, s[k]) == fallback_ok(r2, s[k]));
        }
        assert(unk_missing(r1, s) == unk_missing(r2, s));
    }

    /// Dropout of one gives what a model without any merge (and without dropout) gives.
    pub proof fn lemma_full_dropout_is_no_merge(
        &self,
        plain: &BPE,
        s: Seq<char>,
        v1: Seq<(u32, Seq<char>, (usize, usize))>,
        v2: Seq<(u32, Seq<char>, (usize, usize))>,
    )
        requires
            self.same_except_merges(plain),
            plain.merge_map() == Map::<(u32, u32), (u32, u32)>::empty(),
            self.skips_all_merges(),
            plain.deterministic(),
            self.tokenize_ok(s, v1),
            plain.tokenize_ok(s, v2),
        ensures
            v1 == v2,
    {
        if s.len() > 0 && !self.whole_match(s) {
            let r1 = self.rules();
            let r2 = plain.rules();
            lemma_scan_ignores_merges(r1, r2, s, s.len());
            let w = initial_symbols(r2, s);
            assert(initial_symbols(r1, s) == w);
            assert(!exists|k: int| is_best(w, r2.merges, k)) by {
                assert forall|k: int| !is_best(w, r2.merges, k) by {
                    assert(!r2.merges.contains_key((w[k].0, w[k + 1].0)));
                }
            }
            assert(greedy(w, r2.merges) == w);
        }
    }

    /// Dropout of one: the tokens are the decorated, resolved symbols with no merge applied.
    pub proof fn lemma_full_dropout_unmerged(&self, s: Seq<char>, v: Seq<(u32, Seq<char>, (usize, usize))>)
        requires
            self.skips_all_merges(),
            self.tokenize_ok(s, v),
            s.len() > 0,
            !self.whole_match(s),
        ensures
            v == tokens_of(self.ids_map(), initial_symbols(self.rules(), s)),
    {
    }

    /// Offset coverage: when no character of `s` is silently dropped, the input bytes under
    /// the offsets of the tokens that tokenizing `s` returns, concatenated in order, are
    /// the bytes of `s`.
    pub proof fn lemma_tokenize_rebuilds_input(&self, s: Seq<char>, v: Seq<(u32, Seq<char>, (usize, usize))>)
        requires
            self.tokenize_ok(s, v),
            nothing_dropped(self.rules(), s),
        ensures
            spans_concat(encode_utf8(s), v) == encode_utf8(s),
    {
        lemma_spans_rebuild(encode_utf8(s), v);
    }

    /// Every id of the inverse vocabulary is the value of some token.
    pub proof fn lemma_id_is_value(&self, i: u32)
        requires
            self.wf(),
            self.ids_map().contains_key(i),
        ensures
            self.vocab_map().contains_key(self.ids_map()[i]),
            self.vocab_map()[self.ids_map()[i]] == i,
    {
    }

    /// The model's maps are the contents of its hash maps.
    pub(crate) proof fn lemma_maps(&self)
        ensures
            self.ids_map() == id_entries(self.vocab_r),
            self.vocab_map() == vocab_entries(self.vocab),
            self.merge_map() == merge_entries(self.merges),
    {
    }

    /// A merge's pair has both ids in the inverse vocabulary, and no two merges share a rank.
    pub(crate) proof fn lemma_merge_facts(&self, p: (u32, u32), q: (u32, u32))
        requires
            self.wf(),
            merge_entries(self.merges).contains_key(p),
        ensures
            id_entries(self.vocab_r).contains_key(p.0),
            id_entries(self.vocab_r).contains_key(p.1),
            merge_entries(self.merges).contains_key(q) && merge_entries(self.merges)[p].0
                == merge_entries(self.merges)[q].0 ==> p == q,
    {
    }

    fn word_to_tokens(&self, syms: &Vec<(u32, usize)>) -> (r: Vec<Token>)
        requires
            self.wf(),
            total(syms@) <= usize::MAX,
            forall|q: int| 0 <= q < syms@.len() ==> self.ids_map().contains_key(#[trigger] syms@[q].0),
        ensures
            token_views(r@) == tokens_of(self.ids_map(), syms@),
            forall|k: int|
                0 <= k < r@.len() ==> id_entries(self.vocab_r).contains_key(
                    (#[trigger] token_views(r@)[k]).0,
                ) && token_views(r@)[k].1 == id_entries(self.vocab_r)[token_views(r@)[k].0],
    {
        let ghost w = syms@;
        let mut r: Vec<Token> = Vec::new();
        let mut start: usize = 0;
        let mut k: usize = 0;
        while k < syms.len()
            invariant
                self.wf(),
                w == syms@,
                total(w) <= usize::MAX,
                forall|q: int| 0 <= q < w.len() ==> self.ids_map().contains_key(#[trigger] w[q].0),
                k <= w.len(),
                r@.len() == k,
                start == total(w.take(k as int)),
                token_views(r@) == tokens_of(self.ids_map(), w.take(k as int)),
            decreases w.len() - k,
        {
            let (id, len) = syms[k];
            proof {
                lemma_take_total(w, k as int);
                lemma_take_total(w, k + 1);
            }
            let value = match ids_get(&self.vocab_r, id) {
                Some(v) => v,
                None => String::new(),
            };
            let end = start + len;
            let ghost old_r = r@;
            r.push(Token::new(id, value, (start, end)));
            proof {
                let vr = self.ids_map();
                assert forall|q: int| 0 <= q <= k implies #[trigger] token_views(r@)[q] == tokens_of(vr, w.take(k + 1))[q] by {
                    if q < k {
                        assert(w.take(k + 1).take(q) =~= w.take(k as int).take(q));
                        assert(r@[q] == old_r[q]);
                        assert(token_views(old_r)[q] == tokens_of(vr, w.take(k as int))[q]);
                        assert(w.take(k + 1)[q] == w.take(k as int)[q]);
                    } else {
                        assert(w.take(k + 1).take(q) =~= w.take(k as int));
                    }
                }
                assert(token_views(r@) =~= tokens_of(vr, w.take(k + 1)));
            }
            start = end;
            k = k + 1;
        }
        proof {
            assert(w.take(k as int) =~= w);
            assert forall|q: int| 0 <= q < r@.len() implies id_entries(self.vocab_r).contains_key(
                (#[trigger] token_views(r@)[q]).0,
            ) && token_views(r@)[q].1 == id_entries(self.vocab_r)[token_views(r@)[q].0] by {
                assert(self.ids_map().contains_key(w[q].0));
            }
        }
        r
    }

    /// Tokenizes `sequence`, drawing dropout decisions from a source seeded with `seed`.
    pub fn tokenize_with_seed(&self, sequence: &str, seed: u64) -> (r: Result<Vec<Token>, BpeError>)
        requires
            self.wf(),
        ensures
            match r {
                Ok(v) => {
                    &&& !self.tokenize_fails(sequence@)
                    &&& self.sound_tokens(sequence@, token_views(v@))
                    &&& self.deterministic() ==> token_views(v@) == self.expected_tokens(sequence@)
                    &&& self.skips_all_merges() ==> token_views(v@)
                        == self.unmerged_tokens(sequence@)
                    &&& self.tokenize_ok(sequence@, token_views(v@))
                    &&& token_views(v@) == self.seeded_tokens(sequence@, seed)
                },
                Err(e) => {
                    &&& self.tokenize_fails(sequence@)
                    &&& e matches BpeError::UnkTokenOutOfVocabulary(t) && t@ == self.rules().unk->0
                },
            },
    {
        // The byte length of `sequence` fits a `usize`.
        let _blen = sequence.as_bytes().len();
        proof {
            assert(sequence.spec_bytes() == encode_utf8(sequence@));
        }
        if sequence.is_empty() {
            let v: Vec<Token> = Vec::new();
            proof {
                assert(token_views(v@) =~= Seq::<(u32, Seq<char>, (usize, usize))>::empty());
                assert(encode_utf8(sequence@) =~= Seq::<u8>::empty());
            }
            return Ok(v);
        }
        if self.ignore_merges {
            match vocab_get(&self.vocab, sequence) {
                Some(id) => {
                    let len = sequence.len();
                    let mut v: Vec<Token> = Vec::new();
                    v.push(Token::new(id, sequence.to_owned(), (0, len)));
                    proof {
                        assert(self.whole_match(sequence@));
                        assert(token_views(v@) =~= self.expected_tokens(sequence@));
                        assert(token_views(v@) =~= self.unmerged_tokens(sequence@));
                        assert(self.ids_map().contains_key(id));
                        assert(offsets_cover(token_views(v@), encode_utf8(sequence@).len()));
                    }
                    return Ok(v);
                },
                None => {},
            }
        }
        let syms = match self.merge_word(sequence, self.dropout, seed) {
            Ok(syms) => syms,
            Err(e) => {
                return Err(e);
            },
        };
        proof {
            lemma_tokens_cover(id_entries(self.vocab_r), syms@);
        }
        let v = self.word_to_tokens(&syms);
        Ok(v)
    }

    /// Tokenizes `sequence`. Without dropout the result is a function of the model and
    /// the input, and is memoized for short inputs; with dropout each call draws fresh
    /// random decisions.
    pub fn tokenize(&self, sequence: &str) -> (r: Result<Vec<Token>, BpeError>)
        requires
            self.wf(),
        ensures
            match r {
                Ok(v) => {
                    &&& !self.tokenize_fails(sequence@)
                    &&& self.sound_tokens(sequence@, token_views(v@))
                    &&& self.deterministic() ==> token_views(v@) == self.expected_tokens(sequence@)
                    &&& self.skips_all_merges() ==> token_views(v@) == self.unmerged_tokens(sequence@)
                    &&& self.tokenize_ok(sequence@, token_views(v@))
                    &&& !self.deterministic() ==> exists|seed: u64| token_views(v@) == self.seeded_tokens(sequence@, seed)
                },
                Err(e) => {
                    &&& self.tokenize_fails(sequence@)
                    &&& e matches BpeError::UnkTokenOutOfVocabulary(t) && t@ == self.rules().unk->0
                },
            },
    {
        let deterministic = match self.dropout {
            None => true,
            Some(p) => p == 0,
        };
        if deterministic {
            self.tokenize_with_cache(sequence)
        } else {
            let seed = fresh_seed();
            let r = self.tokenize_with_seed(sequence, seed);
            proof {
                if r is Ok {
                    assert(token_views(r->Ok_0@) == self.seeded_tokens(sequence@, seed));
                }
            }
            r
        }
    }

    fn tokenize_with_cache(&self, sequence: &str) -> (r: Result<Vec<Token>, BpeError>)
        requires
            self.wf(),
            self.deterministic(),
        ensures
            match r {
                Ok(v) => {
                    &&& !self.tokenize_fails(sequence@)
                    &&& self.sound_tokens(sequence@, token_views(v@))
                    &&& token_views(v@) == self.expected_tokens(sequence@)
                    &&& !self.skips_all_merges()
                },
                Err(e) => {
                    &&& self.tokenize_fails(sequence@)
                    &&& e matches BpeError::UnkTokenOutOfVocabulary(t) && t@ == self.rules().unk->0
                },
            },
    {
        let blen = sequence.as_bytes().len();
        proof {
            assert(sequence.spec_bytes() == encode_utf8(sequence@));
        }
        let whole = self.ignore_merges && vocab_get(&self.vocab, sequence).is_some();
        if blen == 0 || whole || self.cache.is_none() {
            return self.tokenize_with_seed(sequence, 0);
        }
        proof {
            assert(sequence@.len() > 0) by {
                if sequence@.len() == 0 {
                    assert(encode_utf8(sequence@) =~= Seq::<u8>::empty());
                }
            }
            assert(!self.whole_match(sequence@));
        }
        let cache = match &self.cache {
            Some(c) => c,
            None => {
                return self.tokenize_with_seed(sequence, 0);
            },
        };
        match cache.get(sequence) {
            Some(hit) => {
                proof {
                    lemma_tokens_cover(id_entries(self.vocab_r), hit@);
                }
                let v = self.word_to_tokens(&hit);
                return Ok(v);
            },
            None => {},
        }
        let syms = match self.merge_word(sequence, None, 0) {
            Ok(syms) => syms,
            Err(e) => {
                return Err(e);
            },
        };
        proof {
            lemma_tokens_cover(id_entries(self.vocab_r), syms@);
        }
        let v = self.word_to_tokens(&syms);
        if blen < MAX_LENGTH {
            proof {
                assert(entry_ok(cache.rules_inv(), sequence@, syms@));
            }
            cache.set(sequence.to_owned(), syms);
        }
        Ok(v)
    }

    /// Whether the cache holds the result for `sequence`.
    pub fn is_cached(&self, sequence: &str) -> (r: bool)
        ensures
            r ==> self.has_cache(),
    {
        match &self.cache {
            Some(c) => c.contains(sequence),
            None => false,
        }
    }

    /// Empties the cache.
    pub fn clear_cache(&self) {
        match &self.cache {
            Some(c) => c.clear(),
            None => {},
        }
    }

    /// Changes the cache's capacity (and empties it); a model built without a cache keeps none.
    pub fn resize_cache(&mut self, capacity: usize)
        requires
            old(self).wf(),
        ensures
            final(self).wf(),
            final(self).same_model(old(self)),
            final(self).has_cache() == old(self).has_cache(),
            final(self).has_cache() ==> final(self).cache_capacity() == capacity,
    {
        match &mut self.cache {
            Some(c) => c.resize(capacity),
            None => {},
        }
    }

    /// The id of a token, if the vocabulary has it.
    pub fn token_to_id(&self, token: &str) -> (r: Option<u32>)
        ensures
            r == (if self.vocab_map().contains_key(token@) {
                Some(self.vocab_map()[token@])
            } else {
                None
            }),
    {
        vocab_get(&self.vocab, token)
    }

    /// The token of an id, if the vocabulary has it.
    pub fn id_to_token(&self, id: u32) -> (r: Option<String>)
        ensures
            match r {
                Some(s) => self.ids_map().contains_key(id) && self.ids_map()[id] == s@,
                None => !self.ids_map().contains_key(id),
            },
    {
        ids_get(&self.vocab_r, id)
    }

    /// The merge rule of a pair of ids: its rank and the merged id.
    pub fn merge_of(&self, pair: (u32, u32)) -> (r: Option<(u32, u32)>)
        ensures
            r == (if self.merge_map().contains_key(pair) {
                Some(self.merge_map()[pair])
            } else {
                None
            }),
    {
        merges_get(&self.merges, pair)
    }

    /// A copy of the vocabulary.
    pub fn get_vocab(&self) -> (r: HashMap<String, u32>)
        ensures
            forall|k: String| #[trigger] r@.contains_key(k) ==> self.vocab_map().contains_key(k@)
                && self.vocab_map()[k@] == r@[k],
            r@.dom().map(|k: String| k@) == self.vocab_map().dom(),
    {
        vocab_to_hash_map(&self.vocab)
    }

    /// Number of tokens in the vocabulary.
    pub fn get_vocab_size(&self) -> (r: usize)
        ensures
            r == self.vocab_map().dom().len(),
    {
        vocab_len(&self.vocab)
    }

    pub fn get_unk_token(&self) -> (r: &Option<String>)
        ensures
            opt_view(*r) == self.rules().unk,
    {
        &self.unk_token
    }

    pub fn get_continuing_subword_prefix(&self) -> (r: &Option<String>)
        ensures
            opt_view(*r) == self.rules().prefix,
    {
        &self.continuing_subword_prefix
    }

    pub fn get_end_of_word_suffix(&self) -> (r: &Option<String>)
        ensures
            opt_view(*r) == self.rules().suffix,
    {
        &self.end_of_word_suffix
    }

    fn byte_fallback_ids(&self, bytes: &[u8], start: usize, end: usize) -> (r: Option<Vec<u32>>)
        requires
            start <= end <= bytes@.len(),
        ensures
            r matches Some(v) ==> {
                &&& forall|i: int|
                    start <= i < end ==> #[trigger] self.vocab_map().contains_key(
                        byte_token(bytes@[i]),
                    )
                &&& v@ == bytes@.subrange(start as int, end as int).map_values(
                    |b: u8| self.vocab_map()[byte_token(b)],
                )
            },
            r is None ==> exists|i: int|
                start <= i < end && !#[trigger] self.vocab_map().contains_key(
                    byte_token(bytes@[i]),
                ),
    {
        let mut ids: Vec<u32> = Vec::new();
        let mut i = start;
        while i < end
            invariant
                start <= i <= end <= bytes@.len(),
                forall|j: int|
                    start <= j < i ==> #[trigger] self.vocab_map().contains_key(
                        byte_token(bytes@[j]),
                    ),
                ids@ == bytes@.subrange(start as int, i as int).map_values(
                    |b: u8| self.vocab_map()[byte_token(b)],
                ),
            decreases end - i,
        {
            let name = byte_token_string(bytes[i]);
            match vocab_get(&self.vocab, name.as_str()) {
                Some(id) => {
                    ids.push(id);
                    assert(ids@ =~= bytes@.subrange(start as int, i + 1).map_values(
                        |b: u8| self.vocab_map()[byte_token(b)],
                    ));
                },
                None => {
                    return None;
                },
            }
            i = i + 1;
        }
        Some(ids)
    }
}

} // verus!
