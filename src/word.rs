use vstd::prelude::*;
use crate::maps::{MergeMap, merge_entries, merges_get};

verus! {

/// Index that links to no symbol.
pub const NONE: usize = usize::MAX;

/// Dropout probability that skips every merge: a dropout `p` skips a merge when a
/// uniform draw in `[0, DROPOUT_ONE)` falls below `p`.
pub const DROPOUT_ONE: u64 = 4294967296;

/// One symbol of a word: a token id, the bytes of input it covers, and its links.
#[derive(Clone, Copy, Debug, PartialEq, Eq)]
pub struct Symbol {
    pub c: u32,
    pub prev: usize,
    pub next: usize,
    pub len: usize,
}

/// A word under merging: a doubly linked list laid over an array, so that indices
/// stay stable while symbols are merged away.
pub struct Word {
    symbols: Vec<Symbol>,
    /// Array indices of the live symbols, in order.
    order: Ghost<Seq<int>>,
}

/// Sum of the byte lengths of a symbol sequence.
pub open spec fn total(w: Seq<(u32, usize)>) -> int
    decreases w.len(),
{
    if w.len() == 0 {
        0
    } else {
        total(w.drop_last()) + w.last().1
    }
}

/// Whether the merge map has a rule for the pair starting at position `k`.
pub open spec fn has_merge(w: Seq<(u32, usize)>, ms: Map<(u32, u32), (u32, u32)>, k: int) -> bool {
    0 <= k < w.len() - 1 && ms.contains_key((w[k].0, w[k + 1].0))
}

/// Rank of the merge of the pair starting at position `k`.
pub open spec fn rank_at(w: Seq<(u32, usize)>, ms: Map<(u32, u32), (u32, u32)>, k: int) -> u32 {
    ms[(w[k].0, w[k + 1].0)].0
}

/// The pair at `k` has the lowest rank, and is the leftmost among those of that rank.
pub open spec fn is_best(w: Seq<(u32, usize)>, ms: Map<(u32, u32), (u32, u32)>, k: int) -> bool {
    &&& has_merge(w, ms, k)
    &&& forall|j: int|
        #![trigger has_merge(w, ms, j)]
        has_merge(w, ms, j) ==> rank_at(w, ms, k) < rank_at(w, ms, j) || (rank_at(w, ms, k)
            == rank_at(w, ms, j) && k <= j)
}

/// The sequence after merging the symbols at `k` and `k + 1` into one with id `id`.
pub open spec fn merge_at(w: Seq<(u32, usize)>, k: int, id: u32) -> Seq<(u32, usize)> {
    w.take(k).push((id, (w[k].1 + w[k + 1].1) as usize)) + w.skip(k + 2)
}

/// Greedy merging: apply the best merge until none applies.
pub open spec fn greedy(w: Seq<(u32, usize)>, ms: Map<(u32, u32), (u32, u32)>) -> Seq<(u32, usize)>
    decreases w.len(),
{
    if exists|k: int| is_best(w, ms, k) {
        let k = choose|k: int| is_best(w, ms, k);
        greedy(merge_at(w, k, ms[(w[k].0, w[k + 1].0)].1), ms)
    } else {
        w
    }
}

/// The id comes from the word or is the result of some merge.
pub open spec fn id_from(w: Seq<(u32, usize)>, ms: Map<(u32, u32), (u32, u32)>, id: u32) -> bool {
    (exists|j: int| 0 <= j < w.len() && w[j].0 == id) || (exists|p: (u32, u32)|
        ms.contains_key(p) && ms[p].1 == id)
}

pub proof fn lemma_total_nonneg(w: Seq<(u32, usize)>)
    ensures
        total(w) >= 0,
    decreases w.len(),
{
    if w.len() > 0 {
        lemma_total_nonneg(w.drop_last());
    }
}

pub proof fn lemma_total_concat(a: Seq<(u32, usize)>, b: Seq<(u32, usize)>)
    ensures
        total(a + b) == total(a) + total(b),
    decreases b.len(),
{
    if b.len() > 0 {
        lemma_total_concat(a, b.drop_last());
        assert((a + b).drop_last() =~= a + b.drop_last());
    } else {
        assert(a + b =~= a);
    }
}

/// The running sum up to `k` lies within the total, and grows by the length at `k`.
pub proof fn lemma_take_total(w: Seq<(u32, usize)>, k: int)
    requires
        0 <= k <= w.len(),
    ensures
        0 <= total(w.take(k)) <= total(w),
        k < w.len() ==> total(w.take(k + 1)) == total(w.take(k)) + w[k].1,
{
    lemma_total_concat(w.take(k), w.skip(k));
    assert(w =~= w.take(k) + w.skip(k));
    lemma_total_nonneg(w.skip(k));
    lemma_total_nonneg(w.take(k));
    if k < w.len() {
        lemma_total_push(w.take(k), w[k]);
        assert(w.take(k).push(w[k]) =~= w.take(k + 1));
    }
}

pub proof fn lemma_total_split(w: Seq<(u32, usize)>, k: int)
    requires
        0 <= k < w.len(),
    ensures
        total(w) == total(w.take(k)) + w[k].1 + total(w.skip(k + 1)),
{
    lemma_total_concat(w.take(k), w.skip(k));
    assert(w =~= w.take(k) + w.skip(k));
    assert(w.skip(k) =~= seq![w[k]] + w.skip(k + 1));
    lemma_total_concat(seq![w[k]], w.skip(k + 1));
    lemma_total_single(w[k]);
}

pub proof fn lemma_total_push(w: Seq<(u32, usize)>, x: (u32, usize))
    ensures
        total(w.push(x)) == total(w) + x.1,
{
    assert(w.push(x).drop_last() =~= w);
}

proof fn lemma_total_single(x: (u32, usize))
    ensures
        total(seq![x]) == x.1,
{
    assert(seq![x].drop_last() =~= Seq::<(u32, usize)>::empty());
    assert(total(Seq::<(u32, usize)>::empty()) == 0);
}

/// Merging keeps the total length, as long as the merged length fits.
pub proof fn lemma_merge_total(w: Seq<(u32, usize)>, k: int, id: u32)
    requires
        0 <= k < w.len() - 1,
        total(w) <= usize::MAX,
    ensures
        total(merge_at(w, k, id)) == total(w),
        w[k].1 + w[k + 1].1 <= total(w),
{
    lemma_total_split(w, k);
    let r = w.skip(k + 1);
    lemma_total_split(r, 0);
    assert(r.skip(1) =~= w.skip(k + 2));
    assert(r.take(0) =~= Seq::<(u32, usize)>::empty());
    lemma_total_nonneg(w.take(k));
    lemma_total_nonneg(w.skip(k + 2));
    let m = w.take(k).push((id, (w[k].1 + w[k + 1].1) as usize));
    lemma_total_concat(m, w.skip(k + 2));
    assert(m.drop_last() =~= w.take(k));
}

pub proof fn lemma_best_unique(w: Seq<(u32, usize)>, ms: Map<(u32, u32), (u32, u32)>, a: int, b: int)
    requires
        is_best(w, ms, a),
        is_best(w, ms, b),
    ensures
        a == b,
{
    assert(has_merge(w, ms, a));
    assert(has_merge(w, ms, b));
}

/// Next state of the random source that drives dropout.
pub open spec fn rng_next(x: u64) -> u64 {
    x.wrapping_mul(6364136223846793005u64).wrapping_add(1442695040888963407u64)
}

/// The pair at `k` has a merge and was not skipped by dropout.
pub open spec fn open_at(w: Seq<(u32, usize)>, fl: Seq<bool>, ms: Map<(u32, u32), (u32, u32)>, k: int) -> bool {
    has_merge(w, ms, k) && !fl[k]
}

/// Among the pairs not skipped, the one at `k` has the lowest rank, leftmost on ties.
pub open spec fn is_best_open(w: Seq<(u32, usize)>, fl: Seq<bool>, ms: Map<(u32, u32), (u32, u32)>, k: int) -> bool {
    &&& open_at(w, fl, ms, k)
    &&& forall|j: int|
        #![trigger open_at(w, fl, ms, j)]
        open_at(w, fl, ms, j) ==> rank_at(w, ms, k) < rank_at(w, ms, j) || (rank_at(w, ms, k)
            == rank_at(w, ms, j) && k <= j)
}

/// Skip flags after merging at `k`: the pairs next to the new symbol are new, hence open.
pub open spec fn merge_flags(fl: Seq<bool>, k: int) -> Seq<bool> {
    Seq::new(
        (fl.len() - 1) as nat,
        |i: int|
            if i == k || i == k - 1 {
                false
            } else if i < k {
                fl[i]
            } else {
                fl[i + 1]
            },
    )
}

pub open spec fn count_false(fl: Seq<bool>) -> nat
    decreases fl.len(),
{
    if fl.len() == 0 {
        0
    } else {
        count_false(fl.drop_last()) + (if fl.last() {
            0nat
        } else {
            1nat
        })
    }
}

pub proof fn lemma_best_open_unique(
    w: Seq<(u32, usize)>,
    fl: Seq<bool>,
    ms: Map<(u32, u32), (u32, u32)>,
    a: int,
    b: int,
)
    requires
        is_best_open(w, fl, ms, a),
        is_best_open(w, fl, ms, b),
    ensures
        a == b,
{
    assert(open_at(w, fl, ms, a));
    assert(open_at(w, fl, ms, b));
}

proof fn lemma_count_false_update(fl: Seq<bool>, k: int)
    requires
        0 <= k < fl.len(),
        !fl[k],
    ensures
        count_false(fl.update(k, true)) < count_false(fl),
    decreases fl.len(),
{
    let g = fl.update(k, true);
    if k == fl.len() - 1 {
        assert(g.drop_last() =~= fl.drop_last());
    } else {
        lemma_count_false_update(fl.drop_last(), k);
        assert(g.drop_last() =~= fl.drop_last().update(k, true));
    }
}

/// Greedy merging under dropout: the best pair not yet skipped is merged unless a draw
/// of the random source (advanced once per decision when `p > 0`) falls below `p`, in
/// which case that pair is skipped for good.
pub open spec fn dropout_merge(
    w: Seq<(u32, usize)>,
    fl: Seq<bool>,
    ms: Map<(u32, u32), (u32, u32)>,
    p: u64,
    rng: u64,
) -> Seq<(u32, usize)>
    decreases w.len(), count_false(fl),
    via dropout_merge_decreases
{
    if fl.len() == w.len() && exists|k: int| is_best_open(w, fl, ms, k) {
        let k = choose|k: int| is_best_open(w, fl, ms, k);
        let r2 = if p > 0 {
            rng_next(rng)
        } else {
            rng
        };
        if p > 0 && (r2 >> 32u64) < p {
            dropout_merge(w, fl.update(k, true), ms, p, r2)
        } else {
            dropout_merge(
                merge_at(w, k, ms[(w[k].0, w[k + 1].0)].1),
                merge_flags(fl, k),
                ms,
                p,
                r2,
            )
        }
    } else {
        w
    }
}

#[via_fn]
proof fn dropout_merge_decreases(
    w: Seq<(u32, usize)>,
    fl: Seq<bool>,
    ms: Map<(u32, u32), (u32, u32)>,
    p: u64,
    rng: u64,
) {
    if fl.len() == w.len() && exists|k: int| is_best_open(w, fl, ms, k) {
        let k = choose|k: int| is_best_open(w, fl, ms, k);
        let r2 = if p > 0 {
            rng_next(rng)
        } else {
            rng
        };
        if p > 0 && (r2 >> 32u64) < p {
            lemma_count_false_update(fl, k);
        }
    }
}

/// Number of live positions whose pair has not been skipped.
pub open spec fn count_open(o: Seq<int>, sk: Seq<bool>) -> nat
    decreases o.len(),
{
    if o.len() == 0 {
        0
    } else {
        count_open(o.drop_last(), sk) + (if sk[o.last()] {
            0nat
        } else {
            1nat
        })
    }
}

proof fn lemma_count_other(o: Seq<int>, sk: Seq<bool>, i: int, b: bool)
    requires
        forall|k: int| 0 <= k < o.len() ==> #[trigger] o[k] != i && 0 <= o[k] < sk.len(),
        0 <= i < sk.len(),
    ensures
        count_open(o, sk.update(i, b)) == count_open(o, sk),
    decreases o.len(),
{
    if o.len() > 0 {
        let d = o.drop_last();
        assert forall|k: int| 0 <= k < d.len() implies #[trigger] d[k] != i && 0 <= d[k] < sk.len() by {
            assert(d[k] == o[k]);
        }
        lemma_count_other(d, sk, i, b);
        assert(o[o.len() - 1] != i);
    }
}

proof fn lemma_count_skip(o: Seq<int>, sk: Seq<bool>, kb: int)
    requires
        0 <= kb < o.len(),
        forall|a: int, b: int| 0 <= a < b < o.len() ==> #[trigger] o[a] < #[trigger] o[b],
        forall|k: int| 0 <= k < o.len() ==> 0 <= #[trigger] o[k] < sk.len(),
        !sk[o[kb]],
    ensures
        count_open(o, sk.update(o[kb], true)) < count_open(o, sk),
    decreases o.len(),
{
    let i = o[kb];
    let sk2 = sk.update(i, true);
    let d = o.drop_last();
    if kb == o.len() - 1 {
        assert forall|k: int| 0 <= k < d.len() implies #[trigger] d[k] != i && 0 <= d[k] < sk.len() by {
            assert(o[k] < o[kb]);
        }
        lemma_count_other(d, sk, i, true);
    } else {
        lemma_count_skip(d, sk, kb);
        assert(o[kb] < o[o.len() - 1]);
    }
}

/// The links of the live symbol at position `k` point to its neighbours.
pub open spec fn linked(s: Seq<Symbol>, o: Seq<int>, k: int) -> bool {
    &&& s[o[k]].prev == (if k == 0 {
        NONE as int
    } else {
        o[k - 1]
    })
    &&& s[o[k]].next == (if k + 1 == o.len() {
        NONE as int
    } else {
        o[k + 1]
    })
}

impl Word {
    /// The live symbols in order, as (id, byte length).
    pub closed spec fn view(&self) -> Seq<(u32, usize)> {
        self.order@.map_values(|i: int| (self.symbols@[i].c, self.symbols@[i].len))
    }

    pub closed spec fn wf(&self) -> bool {
        let o = self.order@;
        let s = self.symbols@;
        &&& forall|k: int| 0 <= k < o.len() ==> 0 <= #[trigger] o[k] < s.len()
        &&& forall|a: int, b: int| 0 <= a < b < o.len() ==> #[trigger] o[a] < #[trigger] o[b]
        &&& s.len() > 0 ==> o.len() > 0 && o[0] == 0
        &&& forall|k: int| 0 <= k < o.len() ==> #[trigger] linked(s, o, k)
        &&& total(self@) <= usize::MAX
    }

    /// No merge has happened yet: the last array slot is the last live symbol.
    pub closed spec fn is_open(&self) -> bool {
        self.order@.len() == self.symbols@.len()
    }

    /// Number of array slots used, live or merged away.
    pub closed spec fn size(&self) -> nat {
        self.symbols@.len()
    }

    pub fn with_capacity(capacity: usize) -> (r: Word)
        ensures
            r.wf(),
            r.is_open(),
            r@ == Seq::<(u32, usize)>::empty(),
            r.size() == 0,
    {
        let r = Word { symbols: Vec::with_capacity(capacity), order: Ghost(Seq::empty()) };
        assert(r@ =~= Seq::<(u32, usize)>::empty());
        r
    }

    /// Appends a symbol at the tail.
    pub fn add(&mut self, c: u32, byte_len: usize)
        requires
            old(self).wf(),
            old(self).is_open(),
            old(self).size() < usize::MAX,
            total(old(self)@) + byte_len <= usize::MAX,
        ensures
            final(self).wf(),
            final(self).is_open(),
            final(self)@ == old(self)@.push((c, byte_len)),
            final(self).size() == old(self).size() + 1,
    {
        let n = self.symbols.len();
        let ghost o = self.order@;
        assert(forall|k: int| 0 <= k < o.len() ==> o[k] == k) by {
            assert forall|k: int| 0 <= k < o.len() implies o[k] == k by {
                self.lemma_open_identity(k);
            }
        }
        let prev = if n > 0 {
            let mut last = self.symbols[n - 1];
            last.next = n;
            self.symbols.set(n - 1, last);
            n - 1
        } else {
            NONE
        };
        self.symbols.push(Symbol { c, prev, next: NONE, len: byte_len });
        self.order = Ghost(o.push(n as int));
        proof {
            let o2 = self.order@;
            let s2 = self.symbols@;
            assert forall|k: int| 0 <= k < o2.len() implies #[trigger] linked(s2, o2, k) by {
                if k + 1 < o2.len() {
                    assert(linked(old(self).symbols@, o, k));
                }
            }
            let w = self@;
            assert(w.drop_last() =~= old(self)@);
            assert(w =~= old(self)@.push((c, byte_len)));
        }
    }

    spec fn flags(&self, sk: Seq<bool>) -> Seq<bool> {
        self.order@.map_values(|i: int| sk[i])
    }

    spec fn candidate(&self, ms: Map<(u32, u32), (u32, u32)>, sk: Seq<bool>, k: int) -> bool {
        has_merge(self@, ms, k) && !sk[self.order@[k]]
    }

    /// Merges greedily: the lowest-ranked applicable pair first, the leftmost among
    /// equal ranks. With a dropout `p`, each chosen merge is skipped for good when a
    /// draw of the random source seeded with `seed` falls below `p`.
    #[verifier::rlimit(50)]
    pub fn merge_all(&mut self, merges: &MergeMap, dropout: Option<u64>, seed: u64)
        requires
            old(self).wf(),
        ensures
            final(self).wf(),
            total(final(self)@) == total(old(self)@),
            dropout is None || dropout == Some(0u64) ==> final(self)@ == greedy(
                old(self)@,
                merge_entries(*merges),
            ),
            dropout matches Some(p) && p >= DROPOUT_ONE ==> final(self)@ == old(self)@,
            final(self)@ == dropout_merge(
                old(self)@,
                Seq::new(old(self)@.len(), |i: int| false),
                merge_entries(*merges),
                match dropout {
                    Some(p) => p,
                    None => 0,
                },
                seed,
            ),
            forall|k: int|
                0 <= k < final(self)@.len() ==> id_from(
                    old(self)@,
                    merge_entries(*merges),
                    #[trigger] final(self)@[k].0,
                ),
    {
        let ghost ms = merge_entries(*merges);
        let ghost init = self@;
        let p: u64 = match dropout {
            Some(p) => p,
            None => 0,
        };
        let n = self.symbols.len();
        let mut skipped: Vec<bool> = Vec::with_capacity(n);
        let mut t: usize = 0;
        while t < n
            invariant
                t <= n,
                skipped@.len() == t,
                forall|i: int| 0 <= i < t ==> !skipped@[i],
            decreases n - t,
        {
            skipped.push(false);
            t = t + 1;
        }
        let mut rng: u64 = seed;
        let ghost start = Seq::new(init.len(), |i: int| false);
        proof {
            assert(self.flags(skipped@) =~= start);
            assert forall|k: int| 0 <= k < self@.len() implies id_from(init, ms, #[trigger] self@[k].0) by {
                assert(init[k].0 == self@[k].0);
            }
        }
        loop
            invariant
                self.wf(),
                self.symbols@.len() == n,
                skipped@.len() == n,
                total(self@) == total(init),
                p == 0 ==> forall|i: int| 0 <= i < n ==> !skipped@[i],
                p == 0 ==> greedy(self@, ms) == greedy(init, ms),
                p >= DROPOUT_ONE ==> self@ == init,
                forall|k: int| 0 <= k < self@.len() ==> id_from(init, ms, #[trigger] self@[k].0),
                ms == merge_entries(*merges),
                dropout is None || dropout == Some(0u64) ==> p == 0,
                dropout matches Some(q) ==> p == q,
                dropout_merge(self@, self.flags(skipped@), ms, p, rng) == dropout_merge(
                    init,
                    start,
                    ms,
                    p,
                    seed,
                ),
            ensures
                p == 0 ==> self@ == greedy(init, ms),
                self@ == dropout_merge(init, start, ms, p, seed),
            decreases self@.len(), count_open(self.order@, skipped@),
        {
            if n == 0 {
                proof {
                    assert(self@.len() == 0);
                    assert(!exists|k: int| is_best(self@, ms, k));
                    assert(greedy(self@, ms) == self@);
                    assert(p == 0 ==> self@ == greedy(init, ms));
                    assert(!exists|k: int| is_best_open(self@, self.flags(skipped@), ms, k));
                }
                break;
            }
            let (best, Ghost(kb)) = self.find_best(merges, &skipped);
            match best {
                None => {
                    proof {
                        let fl = self.flags(skipped@);
                        assert forall|j: int| !is_best_open(self@, fl, ms, j) by {
                            if is_best_open(self@, fl, ms, j) {
                                assert(self.candidate(ms, skipped@, j));
                            }
                        }
                        if p == 0 {
                            assert forall|j: int| !is_best(self@, ms, j) by {
                                if is_best(self@, ms, j) {
                                    assert(self.candidate(ms, skipped@, j));
                                }
                            }
                            assert(greedy(self@, ms) == self@);
                            assert(self@ == greedy(init, ms));
                        }
                    }
                    break;
                },
                Some(b) => {
                    let i = b.1;
                    let new_id = b.2;
                    let ghost fl = self.flags(skipped@);
                    let ghost rng0 = rng;
                    proof {
                        assert(open_at(self@, fl, ms, kb));
                        assert forall|j: int| open_at(self@, fl, ms, j) implies rank_at(self@, ms, kb)
                            < rank_at(self@, ms, j) || (rank_at(self@, ms, kb) == rank_at(self@, ms, j)
                            && kb <= j) by {
                            assert(self.candidate(ms, skipped@, j));
                        }
                        assert(is_best_open(self@, fl, ms, kb));
                        let kc = choose|kk: int| is_best_open(self@, fl, ms, kk);
                        lemma_best_open_unique(self@, fl, ms, kb, kc);
                    }
                    if p > 0 {
                        rng = rng.wrapping_mul(6364136223846793005).wrapping_add(
                            1442695040888963407,
                        );
                        let draw = rng >> 32u64;
                        proof {
                            assert(rng >> 32u64 < 0x1_0000_0000u64) by (bit_vector);
                        }
                        if draw < p {
                            proof {
                                lemma_count_skip(self.order@, skipped@, kb);
                            }
                            skipped.set(i, true);
                            proof {
                                let o = self.order@;
                                assert forall|q: int| 0 <= q < o.len() implies #[trigger] self.flags(skipped@)[q]
                                    == fl.update(kb, true)[q] by {
                                    if q < kb {
                                        assert(o[q] < o[kb]);
                                    } else if q > kb {
                                        assert(o[kb] < o[q]);
                                    }
                                }
                                assert(self.flags(skipped@) =~= fl.update(kb, true));
                            }
                            continue;
                        }
                    }
                    let ghost w = self@;
                    let ghost o = self.order@;
                    proof {
                        if p == 0 {
                            assert forall|jj: int| has_merge(w, ms, jj) implies rank_at(w, ms, kb)
                                < rank_at(w, ms, jj) || (rank_at(w, ms, kb) == rank_at(w, ms, jj)
                                && kb <= jj) by {
                                assert(self.candidate(ms, skipped@, jj));
                            }
                            assert(is_best(w, ms, kb));
                        }
                    }
                    let prev = self.merge_pair(Ghost(kb), i, new_id);
                    skipped.set(i, false);
                    if prev != NONE {
                        skipped.set(prev, false);
                    }
                    proof {
                        let o2 = self.order@;
                        assert forall|q: int| 0 <= q < o2.len() implies #[trigger] self.flags(skipped@)[q]
                            == merge_flags(fl, kb)[q] by {
                            if q < kb - 1 {
                                assert(o[q] < o[kb - 1]);
                                assert(o[q] < o[kb]);
                            } else if q > kb {
                                assert(o[kb] < o[q + 1]);
                                if kb > 0 {
                                    assert(o[kb - 1] < o[q + 1]);
                                }
                            }
                        }
                        assert(self.flags(skipped@) =~= merge_flags(fl, kb));
                        if p == 0 {
                            let kc = choose|kk: int| is_best(w, ms, kk);
                            lemma_best_unique(w, ms, kb, kc);
                        }
                        assert forall|q: int| 0 <= q < self@.len() implies id_from(
                            init,
                            ms,
                            #[trigger] self@[q].0,
                        ) by {
                            if q == kb {
                                assert(ms.contains_key((w[kb].0, w[kb + 1].0)));
                            } else if q < kb {
                                assert(self@[q] == w[q]);
                            } else {
                                assert(self@[q] == w[q + 1]);
                            }
                        }
                        if p == 0 {
                            assert forall|x: int| 0 <= x < n implies !skipped@[x] by {}
                        }
                    }
                },
            }
        }
        proof {
            assert(p == 0 ==> self@ == greedy(init, ms));
            assert(dropout is None || dropout == Some(0u64) ==> p == 0);
        }
    }

    #[verifier::rlimit(40)]
    fn merge_pair(&mut self, kb: Ghost<int>, i: usize, new_id: u32) -> (prev: usize)
        requires
            old(self).wf(),
            0 <= kb@ < old(self)@.len() - 1,
            i == old(self).order@[kb@],
        ensures
            final(self).wf(),
            final(self).symbols@.len() == old(self).symbols@.len(),
            final(self)@ == merge_at(old(self)@, kb@, new_id),
            total(final(self)@) == total(old(self)@),
            final(self).order@ == old(self).order@.remove(kb@ + 1),
            prev == (if kb@ == 0 {
                NONE as int
            } else {
                old(self).order@[kb@ - 1]
            }),
    {
        // Array indices stay below `NONE`.
        let _len = self.symbols.len();
        let ghost kb = kb@;
        let ghost w = self@;
        let ghost o = self.order@;
        proof {
            lemma_merge_total(w, kb, new_id);
            assert(o[kb] < o[kb + 1]);
        }
        let ghost s0 = self.symbols@;
        proof {
            assert(linked(s0, o, kb));
            assert(linked(s0, o, kb + 1));
        }
        let j = self.symbols[i].next;
        let mut si = self.symbols[i];
        let sj = self.symbols[j];
        si.c = new_id;
        si.len = si.len + sj.len;
        si.next = sj.next;
        self.symbols.set(i, si);
        self.symbols.set(j, Symbol { c: sj.c, prev: NONE, next: NONE, len: 0 });
        if sj.next != NONE {
            proof {
                assert(o[kb + 1] < o[kb + 2]);
            }
            let mut sn = self.symbols[sj.next];
            sn.prev = i;
            self.symbols.set(sj.next, sn);
        }
        self.order = Ghost(o.remove(kb + 1));
        proof {
            let o2 = self.order@;
            let s2 = self.symbols@;
            let nx = sj.next as int;
            assert forall|a: int, c: int| 0 <= a < c < o2.len() implies #[trigger] o2[a]
                < #[trigger] o2[c] by {
                if a <= kb && c > kb {
                    assert(o[a] < o[c + 1]);
                } else if c <= kb {
                    assert(o[a] < o[c]);
                } else {
                    assert(o[a + 1] < o[c + 1]);
                }
            }
            assert forall|q: int| 0 <= q < o2.len() implies linked(s2, o2, q) by {
                assert(linked(s0, o, if q <= kb { q } else { q + 1 }));
                if q < kb {
                    assert(o[q] < o[kb]);
                    if q + 1 < kb {
                        assert(o[q] < o[q + 1]);
                    }
                    assert(s2[o2[q]] == s0[o[q]]);
                } else if q == kb {
                } else {
                    assert(o[kb + 1] < o[q + 1]);
                    if q == kb + 1 {
                        assert(o2[q] == nx);
                    } else {
                        assert(o[kb + 2] < o[q + 1]);
                        assert(s2[o2[q]] == s0[o[q + 1]]);
                    }
                }
            }
            assert forall|q: int| 0 <= q < o2.len() implies #[trigger] self@[q] == merge_at(w, kb, new_id)[q] by {
                if q < kb {
                    assert(o[q] < o[kb]);
                } else if q > kb {
                    assert(o[kb + 1] < o[q + 1]);
                    if q > kb + 1 {
                        assert(o[kb + 2] < o[q + 1]);
                    }
                }
            }
            assert(self@ =~= merge_at(w, kb, new_id));
        }
        si.prev
    }

    fn find_best(&self, merges: &MergeMap, skipped: &Vec<bool>) -> (r: (Option<(u32, usize, u32)>, Ghost<int>))
        requires
            self.wf(),
            self.symbols@.len() > 0,
            skipped@.len() == self.symbols@.len(),
        ensures
            r.0 matches Some(b) ==> {
                let kb = r.1@;
                let ms = merge_entries(*merges);
                &&& 0 <= kb < self@.len() - 1
                &&& self.candidate(ms, skipped@, kb)
                &&& b == (rank_at(self@, ms, kb), self.order@[kb] as usize, ms[(self@[kb].0, self@[kb + 1].0)].1)
                &&& forall|j: int|
                    #![trigger self.candidate(ms, skipped@, j)]
                    self.candidate(ms, skipped@, j) ==> rank_at(self@, ms, kb) < rank_at(self@, ms, j)
                        || (rank_at(self@, ms, kb) == rank_at(self@, ms, j) && kb <= j)
            },
            r.0 is None ==> forall|j: int|
                #![trigger self.candidate(merge_entries(*merges), skipped@, j)]
                !self.candidate(merge_entries(*merges), skipped@, j),
    {
        let ghost ms = merge_entries(*merges);
        let n = self.symbols.len();
            let mut cur: usize = 0;
            let ghost mut k: int = 0;
            let ghost mut kb: int = 0;
            let mut best: Option<(u32, usize, u32)> = None;
            while self.symbols[cur].next != NONE
                invariant
                    self.wf(),
                    n > 0,
                    self.symbols@.len() == n,
                    skipped@.len() == n,
                    0 <= k < self@.len(),
                    cur == self.order@[k],
                    ms == merge_entries(*merges),
                    best matches Some(b) ==> 0 <= kb < k && self.candidate(ms, skipped@, kb) && b
                        == (rank_at(self@, ms, kb), self.order@[kb] as usize, ms[(
                        self@[kb].0,
                        self@[kb + 1].0,
                    )].1),
                    best is Some ==> forall|j: int|
                        #![trigger self.candidate(ms, skipped@, j)]
                        0 <= j < k && self.candidate(ms, skipped@, j) ==> rank_at(self@, ms, kb)
                            < rank_at(self@, ms, j) || (rank_at(self@, ms, kb) == rank_at(
                            self@,
                            ms,
                            j,
                        ) && kb <= j),
                    best is None ==> forall|j: int|
                        #![trigger self.candidate(ms, skipped@, j)]
                        0 <= j < k ==> !self.candidate(ms, skipped@, j),
                decreases self@.len() - k,
            {
                proof {
                    assert(linked(self.symbols@, self.order@, k));
                }
                let nx = self.symbols[cur].next;
                proof {
                    assert(k + 1 < self@.len());
                }
                if !skipped[cur] {
                    match merges_get(merges, (self.symbols[cur].c, self.symbols[nx].c)) {
                        Some(m) => {
                            let better = match best {
                                None => true,
                                Some(b) => m.0 < b.0,
                            };
                            if better {
                                best = Some((m.0, cur, m.1));
                                proof {
                                    kb = k;
                                }
                            }
                        },
                        None => {},
                    }
                }
                cur = nx;
                proof {
                    k = k + 1;
                }
            }
        proof {
            assert(linked(self.symbols@, self.order@, k));
            assert(self.symbols@[cur as int].next == NONE);
            assert(self.order@.len() == self@.len());
            if k + 1 < self@.len() {
                assert(self.order@[k + 1] < self.symbols@.len());
            }
            assert(k == self@.len() - 1);
        }
        (best, Ghost(kb))
    }

    /// The live symbols in order, as (id, byte length).
    pub fn to_vec(&self) -> (r: Vec<(u32, usize)>)
        requires
            self.wf(),
        ensures
            r@ == self@,
    {
        let mut r: Vec<(u32, usize)> = Vec::new();
        let n = self.symbols.len();
        if n == 0 {
            assert(self@ =~= r@);
            return r;
        }
        let mut cur: usize = 0;
        let ghost mut k: int = 0;
        loop
            invariant_except_break
                r@ == self@.take(k),
            invariant
                self.wf(),
                n == self.symbols@.len(),
                n > 0,
                0 <= k < self@.len(),
                cur == self.order@[k],
            ensures
                r@ == self@,
            decreases self@.len() - k,
        {
            proof {
                assert(linked(self.symbols@, self.order@, k));
            }
            let s = self.symbols[cur];
            r.push((s.c, s.len));
            proof {
                assert(r@ =~= self@.take(k + 1));
            }
            if s.next == NONE {
                proof {
                    if k + 1 < self@.len() {
                        assert(self.order@[k + 1] < self.symbols@.len());
                    }
                    assert(self@.take(k + 1) =~= self@);
                }
                break;
            }
            cur = s.next;
            proof {
                k = k + 1;
            }
        }
        r
    }

    /// The ids of the live symbols, in order.
    pub fn get_chars(&self) -> (r: Vec<u32>)
        requires
            self.wf(),
        ensures
            r@ == self@.map_values(|s: (u32, usize)| s.0),
    {
        let syms = self.to_vec();
        let mut r: Vec<u32> = Vec::new();
        let mut k: usize = 0;
        while k < syms.len()
            invariant
                syms@ == self@,
                k <= syms@.len(),
                r@ == self@.take(k as int).map_values(|s: (u32, usize)| s.0),
            decreases syms@.len() - k,
        {
            r.push(syms[k].0);
            k = k + 1;
            assert(r@ =~= self@.take(k as int).map_values(|s: (u32, usize)| s.0));
        }
        assert(self@.take(k as int) =~= self@);
        r
    }

    /// The byte span of each live symbol, in order: each starts where the previous ends.
    pub fn get_offsets(&self) -> (r: Vec<(usize, usize)>)
        requires
            self.wf(),
        ensures
            r@.len() == self@.len(),
            forall|k: int|
                0 <= k < r@.len() ==> #[trigger] r@[k] == (
                    total(self@.take(k)) as usize,
                    (total(self@.take(k)) + self@[k].1) as usize,
                ),
    {
        let syms = self.to_vec();
        let ghost w = self@;
        let mut r: Vec<(usize, usize)> = Vec::new();
        let mut start: usize = 0;
        let mut k: usize = 0;
        while k < syms.len()
            invariant
                syms@ == w,
                w == self@,
                total(w) <= usize::MAX,
                k <= w.len(),
                start == total(w.take(k as int)),
                r@.len() == k,
                forall|q: int|
                    0 <= q < k ==> #[trigger] r@[q] == (
                        total(w.take(q)) as usize,
                        (total(w.take(q)) + w[q].1) as usize,
                    ),
            decreases w.len() - k,
        {
            proof {
                lemma_take_total(w, k as int);
                lemma_take_total(w, k + 1);
            }
            let end = start + syms[k].1;
            r.push((start, end));
            start = end;
            k = k + 1;
        }
        r
    }

    proof fn lemma_open_identity(&self, k: int)
        requires
            self.wf(),
            self.is_open(),
            0 <= k < self.order@.len(),
        ensures
            self.order@[k] == k,
        decreases self.order@.len() - k,
    {
        let o = self.order@;
        if k + 1 < o.len() {
            self.lemma_open_identity(k + 1);
            assert(o[k] < o[k + 1]);
        } else {
            assert(o[k] < self.symbols@.len());
        }
        assert(o[k] >= k) by {
            self.lemma_order_lower(k);
        }
    }

    proof fn lemma_order_lower(&self, k: int)
        requires
            self.wf(),
            0 <= k < self.order@.len(),
        ensures
            self.order@[k] >= k,
        decreases k,
    {
        if k > 0 {
            self.lemma_order_lower(k - 1);
            assert(self.order@[k - 1] < self.order@[k]);
        }
    }
}

} // verus!
