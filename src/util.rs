//! Shared primitives: adjacent-pair statistics, pair merging and the
//! rendering of tokens as text.
use std::collections::HashMap;
use vstd::prelude::*;

verus! {

broadcast use vstd::std_specs::hash::group_hash_axioms;

/// Number of positions `i` with `(ids[i], ids[i + 1]) == pair`.
pub open spec fn pair_count(ids: Seq<u32>, pair: (u32, u32)) -> nat
    decreases ids.len(),
{
    if ids.len() < 2 {
        0
    } else {
        (if ids[0] == pair.0 && ids[1] == pair.1 {
            1nat
        } else {
            0nat
        }) + pair_count(ids.subrange(1, ids.len() as int), pair)
    }
}

/// Occurrences of `pair` summed over independent sequences; no pair spans two
/// of them.
pub open spec fn chunks_pair_count(chunks: Seq<Seq<u32>>, pair: (u32, u32)) -> nat
    decreases chunks.len(),
{
    if chunks.len() == 0 {
        0
    } else {
        chunks_pair_count(chunks.drop_last(), pair) + pair_count(chunks.last(), pair)
    }
}

/// Total number of symbols held by `chunks`.
pub open spec fn total_len(chunks: Seq<Seq<u32>>) -> nat
    decreases chunks.len(),
{
    if chunks.len() == 0 {
        0
    } else {
        total_len(chunks.drop_last()) + chunks.last().len()
    }
}

/// `entries` lists, without repetition, exactly the pairs that occur in
/// `chunks`, each with its number of occurrences.
pub open spec fn counts_of(entries: Seq<((u32, u32), usize)>, chunks: Seq<Seq<u32>>) -> bool {
    &&& forall|i: int, j: int|
        0 <= i < j < entries.len() ==> #[trigger] entries[i].0 != #[trigger] entries[j].0
    &&& forall|i: int|
        0 <= i < entries.len() ==> #[trigger] entries[i].1 == chunks_pair_count(chunks, entries[i].0)
            && entries[i].1 > 0
    &&& forall|p: (u32, u32)|
        #[trigger] chunks_pair_count(chunks, p) > 0 ==> exists|i: int|
            0 <= i < entries.len() && #[trigger] entries[i].0 == p
}

/// The 64-bit key under which a pair is indexed.
pub open spec fn pack(p: (u32, u32)) -> u64 {
    ((p.0 as u64) << 32u64) | (p.1 as u64)
}

pub proof fn lemma_pack_injective(p: (u32, u32), q: (u32, u32))
    ensures
        pack(p) == pack(q) <==> p == q,
{
    let (a, b) = p;
    let (c, d) = q;
    assert((((a as u64) << 32u64) | (b as u64)) == (((c as u64) << 32u64) | (d as u64)) ==> a == c
        && b == d) by (bit_vector);
}

pub fn pack_pair(p: (u32, u32)) -> (r: u64)
    ensures
        r == pack(p),
{
    ((p.0 as u64) << 32u64) | (p.1 as u64)
}

pub proof fn lemma_pair_count_bound(ids: Seq<u32>, pair: (u32, u32))
    ensures
        pair_count(ids, pair) <= ids.len(),
    decreases ids.len(),
{
    if ids.len() >= 2 {
        lemma_pair_count_bound(ids.subrange(1, ids.len() as int), pair);
    }
}

pub proof fn lemma_chunks_pair_count_bound(chunks: Seq<Seq<u32>>, pair: (u32, u32))
    ensures
        chunks_pair_count(chunks, pair) <= total_len(chunks),
    decreases chunks.len(),
{
    if chunks.len() > 0 {
        lemma_chunks_pair_count_bound(chunks.drop_last(), pair);
        lemma_pair_count_bound(chunks.last(), pair);
    }
}

/// A pair occurs exactly when it stands at some position.
pub proof fn lemma_pair_count_pos(ids: Seq<u32>, pair: (u32, u32))
    ensures
        pair_count(ids, pair) > 0 <==> exists|i: int|
            0 <= i < ids.len() - 1 && #[trigger] ids[i] == pair.0 && ids[i + 1] == pair.1,
    decreases ids.len(),
{
    if ids.len() >= 2 {
        let rest = ids.subrange(1, ids.len() as int);
        lemma_pair_count_pos(rest, pair);
        if pair_count(ids, pair) > 0 && !(ids[0] == pair.0 && ids[1] == pair.1) {
            let i = choose|i: int| 0 <= i < rest.len() - 1 && #[trigger] rest[i] == pair.0 && rest[i + 1] == pair.1;
            assert(ids[i + 1] == pair.0 && ids[i + 2] == pair.1);
        }
        if exists|i: int| 0 <= i < ids.len() - 1 && #[trigger] ids[i] == pair.0 && ids[i + 1] == pair.1 {
            let i = choose|i: int| 0 <= i < ids.len() - 1 && #[trigger] ids[i] == pair.0 && ids[i + 1] == pair.1;
            if i > 0 {
                assert(rest[i - 1] == pair.0 && rest[i] == pair.1);
            }
        }
    }
}

/// A pair is absent from all chunks together exactly when it is absent from
/// each of them.
pub proof fn lemma_chunks_count_zero(chunks: Seq<Seq<u32>>, pair: (u32, u32))
    ensures
        chunks_pair_count(chunks, pair) == 0 <==> forall|j: int|
            0 <= j < chunks.len() ==> pair_count(#[trigger] chunks[j], pair) == 0,
    decreases chunks.len(),
{
    if chunks.len() > 0 {
        let init = chunks.drop_last();
        lemma_chunks_count_zero(init, pair);
        assert forall|j: int| 0 <= j < init.len() implies init[j] == chunks[j] by {}
    }
}

pub proof fn lemma_total_len_prefix(chunks: Seq<Seq<u32>>, j: int)
    requires
        0 <= j < chunks.len(),
    ensures
        total_len(chunks.subrange(0, j + 1)) == total_len(chunks.subrange(0, j)) + chunks[j].len(),
        total_len(chunks.subrange(0, j + 1)) <= total_len(chunks),
    decreases chunks.len(),
{
    assert(chunks.subrange(0, j + 1).drop_last() =~= chunks.subrange(0, j));
    if j + 1 < chunks.len() {
        lemma_total_len_prefix(chunks.drop_last(), j);
        assert(chunks.drop_last().subrange(0, j + 1) =~= chunks.subrange(0, j + 1));
    } else {
        assert(chunks.subrange(0, j + 1) =~= chunks);
    }
}

/// Counts of adjacent symbol pairs, in the order in which the pairs were first
/// seen.
pub struct PairStats {
    entries: Vec<((u32, u32), usize)>,
    index: HashMap<u64, usize>,
}

impl View for PairStats {
    type V = Seq<((u32, u32), usize)>;

    closed spec fn view(&self) -> Seq<((u32, u32), usize)> {
        self.entries@
    }
}

impl PairStats {
    /// The index maps the key of each listed pair to its position.
    pub closed spec fn wf(&self) -> bool {
        &&& forall|i: int|
            0 <= i < self.entries@.len() ==> #[trigger] self.index@.contains_key(
                pack(self.entries@[i].0),
            ) && self.index@[pack(self.entries@[i].0)] == i
        &&& forall|k: u64|
            #[trigger] self.index@.contains_key(k) ==> self.index@[k] < self.entries@.len() && pack(
                self.entries@[self.index@[k] as int].0,
            ) == k
    }

    /// Statistics of no sequence at all.
    pub fn new() -> (r: PairStats)
        ensures
            r.wf(),
            r@ == Seq::<((u32, u32), usize)>::empty(),
    {
        PairStats { entries: Vec::new(), index: HashMap::new() }
    }

    /// Number of distinct pairs.
    pub fn len(&self) -> (r: usize)
        ensures
            r == self@.len(),
    {
        self.entries.len()
    }

    /// The `i`-th pair, in order of first occurrence, with its count.
    pub fn entry(&self, i: usize) -> (r: ((u32, u32), usize))
        requires
            i < self@.len(),
        ensures
            r == self@[i as int],
    {
        self.entries[i]
    }

    /// The count of `pair`, if it occurs.
    pub fn get(&self, pair: &(u32, u32)) -> (r: Option<&usize>)
        requires
            self.wf(),
        ensures
            r matches Some(c) ==> exists|i: int|
                0 <= i < self@.len() && self@[i] == (*pair, *c),
            r is None ==> forall|i: int| 0 <= i < self@.len() ==> self@[i].0 != *pair,
    {
        let key = pack_pair(*pair);
        match self.index.get(&key) {
            Some(i) => {
                proof {
                    lemma_pack_injective(self.entries@[*i as int].0, *pair);
                }
                assert(self@[*i as int] == (*pair, self.entries@[*i as int].1));
                Some(&self.entries[*i].1)
            },
            None => {
                assert forall|i: int| 0 <= i < self@.len() implies self@[i].0 != *pair by {
                    assert(self.index@.contains_key(pack(self.entries@[i].0)));
                }
                None
            },
        }
    }

    /// Adds the adjacent pairs of one more sequence to the counts.
    pub fn add_sequence(&mut self, ids: &[u32], Ghost(chunks): Ghost<Seq<Seq<u32>>>)
        requires
            old(self).wf(),
            counts_of(old(self)@, chunks),
            total_len(chunks) + ids@.len() <= usize::MAX,
        ensures
            final(self).wf(),
            counts_of(final(self)@, chunks.push(ids@)),
    {
        let ghost all = chunks.push(ids@);
        assert(all.drop_last() =~= chunks);
        if ids.len() < 2 {
            assert forall|p: (u32, u32)| chunks_pair_count(all, p) == chunks_pair_count(chunks, p) by {}
            return;
        }
        let mut i: usize = ids.len() - 1;
        let ghost last = ids@.subrange(i as int, ids.len() as int);
        assert(last.len() < 2);
        assert(chunks.push(last).drop_last() =~= chunks);
        assert forall|p: (u32, u32)| #[trigger] chunks_pair_count(chunks.push(last), p)
            == chunks_pair_count(chunks, p) by {}
        while i > 0
            invariant
                i < ids.len(),
                self.wf(),
                counts_of(self@, chunks.push(ids@.subrange(i as int, ids.len() as int))),
                total_len(chunks) + ids@.len() <= usize::MAX,
            decreases i,
        {
            let pair = (ids[i - 1], ids[i]);
            let ghost prev = chunks.push(ids@.subrange(i as int, ids.len() as int));
            let ghost next = chunks.push(ids@.subrange(i - 1, ids.len() as int));
            assert(next.drop_last() =~= chunks);
            assert(prev.drop_last() =~= chunks);
            assert(ids@.subrange(i - 1, ids.len() as int).subrange(1, ids.len() - i + 1)
                =~= ids@.subrange(i as int, ids.len() as int));
            assert forall|p: (u32, u32)| #[trigger] chunks_pair_count(next, p)
                == chunks_pair_count(prev, p) + if p == pair { 1nat } else { 0nat } by {}
            proof {
                lemma_chunks_pair_count_bound(next, pair);
                assert(total_len(next) == total_len(chunks) + ids.len() - i + 1);
            }
            let ghost before = self@;
            let key = pack_pair(pair);
            let found = self.index.get(&key);
            match found {
                Some(j) => {
                    let j = *j;
                    proof {
                        lemma_pack_injective(self.entries@[j as int].0, pair);
                    }
                    let (q, c) = self.entries[j];
                    self.entries.set(j, (q, c + 1));
                    assert forall|p: (u32, u32)| #[trigger] chunks_pair_count(next, p) > 0 implies exists|
                        k: int,
                    | 0 <= k < self@.len() && #[trigger] self@[k].0 == p by {
                        if p != pair {
                            assert(chunks_pair_count(prev, p) > 0);
                            let k = choose|k: int| 0 <= k < before.len() && before[k].0 == p;
                            assert(self@[k].0 == p);
                        } else {
                            assert(self@[j as int].0 == p);
                        }
                    }
                },
                None => {
                    assert forall|k: int| 0 <= k < self@.len() implies self@[k].0 != pair by {
                        assert(self.index@.contains_key(pack(self.entries@[k].0)));
                    }
                    let n = self.entries.len();
                    self.entries.push((pair, 1));
                    self.index.insert(key, n);
                    assert forall|k: u64| #[trigger] self.index@.contains_key(k) implies self.index@[k]
                        < self.entries@.len() && pack(self.entries@[self.index@[k] as int].0) == k by {}
                    assert forall|p: (u32, u32)| #[trigger] chunks_pair_count(next, p) > 0 implies exists|
                        k: int,
                    | 0 <= k < self@.len() && #[trigger] self@[k].0 == p by {
                        if p == pair {
                            assert(self@[n as int].0 == p);
                        } else {
                            assert(chunks_pair_count(prev, p) > 0);
                            let k = choose|k: int| 0 <= k < before.len() && before[k].0 == p;
                            assert(self@[k].0 == p);
                        }
                    }
                    proof {
                        assert forall|k1: int| 0 <= k1 < self.entries@.len()
                            implies #[trigger] self.index@.contains_key(pack(self.entries@[k1].0))
                            && self.index@[pack(self.entries@[k1].0)] == k1 by {
                            if k1 < n {
                                lemma_pack_injective(self.entries@[k1].0, pair);
                            }
                        }
                    }
                },
            }
            i = i - 1;
        }
        assert(ids@.subrange(0, ids.len() as int) =~= ids@);
    }
}

/// Counts the adjacent pairs of `ids`.
pub fn get_stats(ids: &[u32]) -> (r: PairStats)
    ensures
        r.wf(),
        counts_of(r@, seq![ids@]),
{
    let mut stats = PairStats::new();
    let n: usize = ids.len();
    assert(total_len(Seq::<Seq<u32>>::empty()) == 0);
    assert(Seq::<Seq<u32>>::empty().push(ids@) =~= seq![ids@] && n == ids@.len());
    stats.add_sequence(ids, Ghost(Seq::empty()));
    stats
}

/// The sequence obtained from `ids` by replacing, left to right and without
/// overlap, every occurrence of `pair` with `idx`.
pub open spec fn merge_spec(ids: Seq<u32>, pair: (u32, u32), idx: u32) -> Seq<u32>
    decreases ids.len(),
{
    if ids.len() == 0 {
        ids
    } else if ids.len() >= 2 && ids[0] == pair.0 && ids[1] == pair.1 {
        seq![idx] + merge_spec(ids.subrange(2, ids.len() as int), pair, idx)
    } else {
        seq![ids[0]] + merge_spec(ids.subrange(1, ids.len() as int), pair, idx)
    }
}

/// Merging never makes a sequence longer, and makes it shorter where the
/// pair occurs.
pub proof fn lemma_merge_len(ids: Seq<u32>, pair: (u32, u32), idx: u32)
    ensures
        merge_spec(ids, pair, idx).len() <= ids.len(),
        pair_count(ids, pair) > 0 ==> merge_spec(ids, pair, idx).len() < ids.len(),
        ids.len() > 0 ==> merge_spec(ids, pair, idx).len() > 0,
    decreases ids.len(),
{
    if ids.len() >= 2 && ids[0] == pair.0 && ids[1] == pair.1 {
        lemma_merge_len(ids.subrange(2, ids.len() as int), pair, idx);
    } else if ids.len() > 0 {
        let rest = ids.subrange(1, ids.len() as int);
        lemma_merge_len(rest, pair, idx);
    }
}

/// The first symbol of a merged sequence.
pub proof fn lemma_merge_first(ids: Seq<u32>, pair: (u32, u32), idx: u32)
    requires
        ids.len() > 0,
    ensures
        merge_spec(ids, pair, idx).len() > 0,
        merge_spec(ids, pair, idx)[0] == if ids.len() >= 2 && ids[0] == pair.0 && ids[1] == pair.1 {
            idx
        } else {
            ids[0]
        },
{
    lemma_merge_len(ids, pair, idx);
}

/// A pair that does not occur, and does not involve the new symbol, does not
/// occur after a merge either.
pub proof fn lemma_merge_keeps_absent(ids: Seq<u32>, pair: (u32, u32), idx: u32, q: (u32, u32))
    requires
        pair_count(ids, q) == 0,
        q.0 != idx,
        q.1 != idx,
    ensures
        pair_count(merge_spec(ids, pair, idx), q) == 0,
    decreases ids.len(),
{
    let m = merge_spec(ids, pair, idx);
    if ids.len() >= 2 && ids[0] == pair.0 && ids[1] == pair.1 {
        let rest = ids.subrange(2, ids.len() as int);
        let rest1 = ids.subrange(1, ids.len() as int);
        assert(rest1.subrange(1, rest1.len() as int) =~= rest);
        if rest1.len() >= 2 {
            assert(pair_count(rest1, q) == 0);
            assert(pair_count(rest, q) == 0);
        } else {
            assert(rest.len() == 0);
        }
        lemma_merge_keeps_absent(rest, pair, idx, q);
        assert(m.subrange(1, m.len() as int) =~= merge_spec(rest, pair, idx));
    } else if ids.len() > 0 {
        let rest = ids.subrange(1, ids.len() as int);
        if ids.len() >= 2 {
            assert(pair_count(rest, q) == 0);
        }
        lemma_merge_keeps_absent(rest, pair, idx, q);
        assert(m.subrange(1, m.len() as int) =~= merge_spec(rest, pair, idx));
        if rest.len() > 0 {
            lemma_merge_first(rest, pair, idx);
        }
    }
}

/// After a merge the merged pair itself no longer occurs.
pub proof fn lemma_merge_removes_pair(ids: Seq<u32>, pair: (u32, u32), idx: u32)
    requires
        pair.0 != idx,
        pair.1 != idx,
    ensures
        pair_count(merge_spec(ids, pair, idx), pair) == 0,
    decreases ids.len(),
{
    let m = merge_spec(ids, pair, idx);
    if ids.len() >= 2 && ids[0] == pair.0 && ids[1] == pair.1 {
        let rest = ids.subrange(2, ids.len() as int);
        lemma_merge_removes_pair(rest, pair, idx);
        assert(m.subrange(1, m.len() as int) =~= merge_spec(rest, pair, idx));
    } else if ids.len() > 0 {
        let rest = ids.subrange(1, ids.len() as int);
        lemma_merge_removes_pair(rest, pair, idx);
        assert(m.subrange(1, m.len() as int) =~= merge_spec(rest, pair, idx));
        if rest.len() > 0 {
            lemma_merge_first(rest, pair, idx);
        }
    }
}

/// Every symbol of `ids` is below `bound`.
pub open spec fn all_below(ids: Seq<u32>, bound: nat) -> bool {
    forall|i: int| 0 <= i < ids.len() ==> #[trigger] ids[i] < bound
}

pub proof fn lemma_merge_below(ids: Seq<u32>, pair: (u32, u32), idx: u32, bound: nat)
    requires
        all_below(ids, bound),
        idx < bound,
    ensures
        all_below(merge_spec(ids, pair, idx), bound),
    decreases ids.len(),
{
    let m = merge_spec(ids, pair, idx);
    if ids.len() >= 2 && ids[0] == pair.0 && ids[1] == pair.1 {
        let rest = ids.subrange(2, ids.len() as int);
        lemma_merge_below(rest, pair, idx, bound);
        assert(m =~= seq![idx] + merge_spec(rest, pair, idx));
    } else if ids.len() > 0 {
        let rest = ids.subrange(1, ids.len() as int);
        lemma_merge_below(rest, pair, idx, bound);
        assert(m =~= seq![ids[0]] + merge_spec(rest, pair, idx));
    }
}

/// The bytes of one symbol; an unknown symbol contributes none.
pub open spec fn token_bytes(vocab: Seq<Seq<u8>>, id: u32) -> Seq<u8> {
    if id < vocab.len() {
        vocab[id as int]
    } else {
        Seq::empty()
    }
}

/// The bytes of a symbol sequence: the concatenation of its symbols' bytes.
pub open spec fn decode_bytes(vocab: Seq<Seq<u8>>, ids: Seq<u32>) -> Seq<u8>
    decreases ids.len(),
{
    if ids.len() == 0 {
        Seq::empty()
    } else {
        token_bytes(vocab, ids[0]) + decode_bytes(vocab, ids.subrange(1, ids.len() as int))
    }
}

pub proof fn lemma_decode_concat(vocab: Seq<Seq<u8>>, a: Seq<u32>, b: Seq<u32>)
    ensures
        decode_bytes(vocab, a + b) == decode_bytes(vocab, a) + decode_bytes(vocab, b),
    decreases a.len(),
{
    if a.len() == 0 {
        assert(a + b =~= b);
        assert(decode_bytes(vocab, a) + decode_bytes(vocab, b) =~= decode_bytes(vocab, b));
    } else {
        let rest = a.subrange(1, a.len() as int);
        lemma_decode_concat(vocab, rest, b);
        assert((a + b).subrange(1, (a + b).len() as int) =~= rest + b);
        assert(decode_bytes(vocab, a + b) =~= decode_bytes(vocab, a) + decode_bytes(vocab, b));
    }
}

/// Merging a pair into a symbol whose bytes are those of the pair keeps the
/// bytes of the sequence.
pub proof fn lemma_merge_decode(vocab: Seq<Seq<u8>>, ids: Seq<u32>, pair: (u32, u32), idx: u32)
    requires
        pair.0 < vocab.len(),
        pair.1 < vocab.len(),
        idx < vocab.len(),
        vocab[idx as int] == vocab[pair.0 as int] + vocab[pair.1 as int],
    ensures
        decode_bytes(vocab, merge_spec(ids, pair, idx)) == decode_bytes(vocab, ids),
    decreases ids.len(),
{
    let m = merge_spec(ids, pair, idx);
    if ids.len() >= 2 && ids[0] == pair.0 && ids[1] == pair.1 {
        let rest = ids.subrange(2, ids.len() as int);
        let rest1 = ids.subrange(1, ids.len() as int);
        lemma_merge_decode(vocab, rest, pair, idx);
        assert(m.subrange(1, m.len() as int) =~= merge_spec(rest, pair, idx));
        assert(rest1.subrange(1, rest1.len() as int) =~= rest);
        assert(decode_bytes(vocab, rest1) == vocab[pair.1 as int] + decode_bytes(vocab, rest));
        assert(decode_bytes(vocab, ids) == vocab[pair.0 as int] + decode_bytes(vocab, rest1));
        assert(decode_bytes(vocab, m) == vocab[idx as int] + decode_bytes(vocab, merge_spec(rest, pair, idx)));
        assert(decode_bytes(vocab, m) =~= decode_bytes(vocab, ids));
    } else if ids.len() > 0 {
        let rest = ids.subrange(1, ids.len() as int);
        lemma_merge_decode(vocab, rest, pair, idx);
        assert(m.subrange(1, m.len() as int) =~= merge_spec(rest, pair, idx));
    }
}

/// Replaces every non-overlapping occurrence of `pair` in `ids`, scanning
/// left to right, with `idx`.
pub fn merge(ids: Vec<u32>, pair: (u32, u32), idx: u32) -> (r: Vec<u32>)
    ensures
        r@ == merge_spec(ids@, pair, idx),
{
    let mut new_ids: Vec<u32> = Vec::new();
    let mut i: usize = 0;
    assert(ids@.subrange(0, ids.len() as int) =~= ids@);
    assert(new_ids@ + merge_spec(ids@, pair, idx) =~= merge_spec(ids@, pair, idx));
    while i < ids.len()
        invariant
            i <= ids.len(),
            new_ids@ + merge_spec(ids@.subrange(i as int, ids.len() as int), pair, idx)
                == merge_spec(ids@, pair, idx),
        decreases ids.len() - i,
    {
        let ghost rest = ids@.subrange(i as int, ids.len() as int);
        if i + 1 < ids.len() && ids[i] == pair.0 && ids[i + 1] == pair.1 {
            assert(rest.subrange(2, rest.len() as int) =~= ids@.subrange(i + 2, ids.len() as int));
            new_ids.push(idx);
            i = i + 2;
        } else {
            assert(rest.subrange(1, rest.len() as int) =~= ids@.subrange(i + 1, ids.len() as int));
            new_ids.push(ids[i]);
            i = i + 1;
        }
        assert(new_ids@ + merge_spec(ids@.subrange(i as int, ids.len() as int), pair, idx)
            =~= merge_spec(ids@, pair, idx));
    }
    assert(new_ids@ =~= new_ids@ + merge_spec(ids@.subrange(i as int, ids.len() as int), pair, idx));
    new_ids
}

} // verus!

verus! {

/// The symbol sequences held by a vector of vectors.
pub open spec fn chunks_view(v: Seq<Vec<u32>>) -> Seq<Seq<u32>> {
    v.map_values(|c: Vec<u32>| c@)
}

/// Every chunk merged on its own.
pub open spec fn merge_all(chunks: Seq<Seq<u32>>, pair: (u32, u32), idx: u32) -> Seq<Seq<u32>> {
    chunks.map_values(|c: Seq<u32>| merge_spec(c, pair, idx))
}

pub proof fn lemma_total_len_merge_all(chunks: Seq<Seq<u32>>, pair: (u32, u32), idx: u32)
    ensures
        total_len(merge_all(chunks, pair, idx)) <= total_len(chunks),
    decreases chunks.len(),
{
    if chunks.len() > 0 {
        let m = merge_all(chunks, pair, idx);
        assert(m.drop_last() =~= merge_all(chunks.drop_last(), pair, idx));
        lemma_total_len_merge_all(chunks.drop_last(), pair, idx);
        lemma_merge_len(chunks.last(), pair, idx);
    }
}

/// Counts the adjacent pairs of several independent sequences together.
pub fn get_stats_chunks(chunks: &Vec<Vec<u32>>) -> (r: PairStats)
    requires
        total_len(chunks_view(chunks@)) <= usize::MAX,
    ensures
        r.wf(),
        counts_of(r@, chunks_view(chunks@)),
{
    let ghost cv = chunks_view(chunks@);
    let mut stats = PairStats::new();
    let mut j: usize = 0;
    assert(cv.subrange(0, 0).len() == 0);
    while j < chunks.len()
        invariant
            j <= chunks.len(),
            cv == chunks_view(chunks@),
            total_len(cv) <= usize::MAX,
            stats.wf(),
            counts_of(stats@, cv.subrange(0, j as int)),
        decreases chunks.len() - j,
    {
        proof {
            lemma_total_len_prefix(cv, j as int);
            assert(cv.subrange(0, j as int).push(chunks@[j as int]@) =~= cv.subrange(0, j + 1));
        }
        stats.add_sequence(chunks[j].as_slice(), Ghost(cv.subrange(0, j as int)));
        j = j + 1;
    }
    assert(cv.subrange(0, j as int) =~= cv);
    stats
}

/// A copy of a symbol sequence.
pub fn copy_ids(ids: &Vec<u32>) -> (r: Vec<u32>)
    ensures
        r@ == ids@,
{
    let mut r: Vec<u32> = Vec::new();
    let mut i: usize = 0;
    while i < ids.len()
        invariant
            i <= ids.len(),
            r@ == ids@.subrange(0, i as int),
        decreases ids.len() - i,
    {
        r.push(ids[i]);
        i = i + 1;
        assert(r@ =~= ids@.subrange(0, i as int));
    }
    assert(ids@.subrange(0, i as int) =~= ids@);
    r
}

/// Merges `pair` into `idx` in every chunk.
pub fn merge_chunks(chunks: &Vec<Vec<u32>>, pair: (u32, u32), idx: u32) -> (r: Vec<Vec<u32>>)
    ensures
        chunks_view(r@) == merge_all(chunks_view(chunks@), pair, idx),
{
    let ghost cv = chunks_view(chunks@);
    let mut r: Vec<Vec<u32>> = Vec::new();
    let mut j: usize = 0;
    while j < chunks.len()
        invariant
            j <= chunks.len(),
            cv == chunks_view(chunks@),
            chunks_view(r@) == merge_all(cv.subrange(0, j as int), pair, idx),
        decreases chunks.len() - j,
    {
        let c = copy_ids(&chunks[j]);
        assert(cv[j as int] == c@);
        let merged = merge(c, pair, idx);
        let ghost prev = r@;
        r.push(merged);
        assert(r@ == prev.push(merged));
        assert(chunks_view(prev).len() == prev.len());
        assert(merge_all(cv.subrange(0, j as int), pair, idx).len() == j);
        assert(chunks_view(r@).len() == j + 1);
        assert forall|i: int| 0 <= i < j + 1 implies #[trigger] chunks_view(r@)[i] == merge_all(
            cv.subrange(0, j + 1),
            pair,
            idx,
        )[i] by {
            if i < j {
                assert(chunks_view(prev)[i] == merge_all(cv.subrange(0, j as int), pair, idx)[i]);
                assert(r@[i] == prev[i]);
            } else {
                assert(r@[i] == merged);
            }
        }
        assert(chunks_view(r@) =~= merge_all(cv.subrange(0, j + 1), pair, idx));
        j = j + 1;
    }
    assert(cv.subrange(0, j as int) =~= cv);
    r
}

/// The symbols of all chunks, in order.
pub open spec fn concat_chunks(chunks: Seq<Seq<u32>>) -> Seq<u32>
    decreases chunks.len(),
{
    if chunks.len() == 0 {
        Seq::empty()
    } else {
        concat_chunks(chunks.drop_last()) + chunks.last()
    }
}

/// Match spans are byte ranges of a text of `len` bytes, in order and
/// without overlap.
pub open spec fn spans_wf(spans: Seq<(usize, usize)>, len: nat) -> bool {
    &&& forall|i: int| 0 <= i < spans.len() ==> (#[trigger] spans[i]).0 <= spans[i].1 <= len
    &&& forall|i: int| 0 < i < spans.len() ==> spans[i - 1].1 <= (#[trigger] spans[i]).0
}

/// `ids[from..to]` as a chunk, or no chunk where it is empty.
pub open spec fn range_chunk(ids: Seq<u32>, from: int, to: int) -> Seq<Seq<u32>> {
    if from < to {
        seq![ids.subrange(from, to)]
    } else {
        Seq::empty()
    }
}

/// Where the `k`-th span ends; 0 before the first.
pub open spec fn span_end(spans: Seq<(usize, usize)>, k: int) -> int {
    if k <= 0 {
        0
    } else {
        spans[k - 1].1 as int
    }
}

/// The chunks that the first `k` spans give: for each span, the non-empty
/// stretch before it, then the span itself if non-empty.
pub open spec fn split_prefix(ids: Seq<u32>, spans: Seq<(usize, usize)>, k: int) -> Seq<Seq<u32>>
    decreases k,
{
    if k <= 0 {
        Seq::empty()
    } else {
        split_prefix(ids, spans, k - 1) + range_chunk(ids, span_end(spans, k - 1), spans[k - 1].0 as int)
            + range_chunk(ids, spans[k - 1].0 as int, spans[k - 1].1 as int)
    }
}

/// The chunks that `split_at_spans` produces: those of all spans, then the
/// non-empty stretch after the last span.
pub open spec fn split_spec(ids: Seq<u32>, spans: Seq<(usize, usize)>) -> Seq<Seq<u32>> {
    split_prefix(ids, spans, spans.len() as int) + range_chunk(
        ids,
        span_end(spans, spans.len() as int),
        ids.len() as int,
    )
}

/// Appends `ids[from..to]` as a new chunk, unless it is empty.
fn push_range(r: &mut Vec<Vec<u32>>, ids: &Vec<u32>, from: usize, to: usize)
    requires
        from <= to <= ids@.len(),
        concat_chunks(chunks_view(old(r)@)) == ids@.subrange(0, from as int),
        forall|j: int| 0 <= j < old(r)@.len() ==> (#[trigger] old(r)@[j])@.len() > 0,
    ensures
        concat_chunks(chunks_view(final(r)@)) == ids@.subrange(0, to as int),
        forall|j: int| 0 <= j < final(r)@.len() ==> (#[trigger] final(r)@[j])@.len() > 0,
        chunks_view(final(r)@) == chunks_view(old(r)@) + range_chunk(ids@, from as int, to as int),
{
    if from < to {
        let mut piece: Vec<u32> = Vec::new();
        let mut q: usize = from;
        while q < to
            invariant
                from <= q <= to <= ids@.len(),
                piece@ == ids@.subrange(from as int, q as int),
            decreases to - q,
        {
            piece.push(ids[q]);
            q = q + 1;
            assert(piece@ =~= ids@.subrange(from as int, q as int));
        }
        let ghost prev = r@;
        r.push(piece);
        proof {
            assert(r@ == prev.push(piece));
            assert(chunks_view(r@).drop_last() =~= chunks_view(prev));
            assert(chunks_view(r@) =~= chunks_view(prev) + range_chunk(ids@, from as int, to as int));
            assert(ids@.subrange(0, to as int) =~= ids@.subrange(0, from as int) + ids@.subrange(
                from as int,
                to as int,
            ));
        }
    }
}

/// Splits `ids` into chunks: each non-empty span is a chunk, and so is each
/// non-empty stretch between spans, before the first or after the last.
pub fn split_at_spans(ids: &Vec<u32>, spans: &Vec<(usize, usize)>) -> (r: Vec<Vec<u32>>)
    requires
        spans_wf(spans@, ids@.len()),
    ensures
        chunks_view(r@) == split_spec(ids@, spans@),
        concat_chunks(chunks_view(r@)) == ids@,
        forall|j: int| 0 <= j < r@.len() ==> (#[trigger] r@[j])@.len() > 0,
{
    let mut r: Vec<Vec<u32>> = Vec::new();
    assert(chunks_view(r@) =~= split_prefix(ids@, spans@, 0));
    let mut pos: usize = 0;
    let mut i: usize = 0;
    assert(concat_chunks(chunks_view(r@)) =~= ids@.subrange(0, 0));
    while i < spans.len()
        invariant
            spans_wf(spans@, ids@.len()),
            i <= spans.len(),
            pos <= ids@.len(),
            i < spans.len() ==> pos <= spans@[i as int].0,
            concat_chunks(chunks_view(r@)) == ids@.subrange(0, pos as int),
            forall|j: int| 0 <= j < r@.len() ==> (#[trigger] r@[j])@.len() > 0,
            chunks_view(r@) == split_prefix(ids@, spans@, i as int),
            pos == span_end(spans@, i as int),
        decreases spans.len() - i,
    {
        let (start, end) = spans[i];
        let ghost before = chunks_view(r@);
        push_range(&mut r, ids, pos, start);
        push_range(&mut r, ids, start, end);
        assert(chunks_view(r@) =~= split_prefix(ids@, spans@, i + 1));
        pos = end;
        i = i + 1;
    }
    push_range(&mut r, ids, pos, ids.len());
    assert(ids@.subrange(0, ids@.len() as int) =~= ids@);
    r
}

pub proof fn lemma_concat_chunks_push(chunks: Seq<Seq<u32>>, c: Seq<u32>)
    ensures
        concat_chunks(chunks.push(c)) == concat_chunks(chunks) + c,
        total_len(chunks.push(c)) == total_len(chunks) + c.len(),
        forall|p: (u32, u32)| #[trigger] chunks_pair_count(chunks.push(c), p) == chunks_pair_count(chunks, p) + pair_count(c, p),
{
    assert(chunks.push(c).drop_last() =~= chunks);
}

/// A bound on every symbol of the concatenation bounds every chunk.
pub proof fn lemma_concat_chunks_below(chunks: Seq<Seq<u32>>, bound: nat)
    requires
        all_below(concat_chunks(chunks), bound),
    ensures
        forall|j: int| 0 <= j < chunks.len() ==> all_below(#[trigger] chunks[j], bound),
        total_len(chunks) == concat_chunks(chunks).len(),
    decreases chunks.len(),
{
    if chunks.len() > 0 {
        let init = chunks.drop_last();
        let c = concat_chunks(init);
        assert forall|i: int| 0 <= i < c.len() implies #[trigger] c[i] < bound by {
            assert(concat_chunks(chunks)[i] == c[i]);
        }
        lemma_concat_chunks_below(init, bound);
        assert forall|j: int| 0 <= j < chunks.len() implies all_below(#[trigger] chunks[j], bound) by {
            if j < init.len() {
                assert(chunks[j] == init[j]);
            } else {
                assert forall|i: int| 0 <= i < chunks[j].len() implies #[trigger] chunks[j][i] < bound by {
                    assert(concat_chunks(chunks)[c.len() + i] == chunks[j][i]);
                }
            }
        }
    }
}

/// The lowercase hexadecimal digit of `n < 16`.
pub open spec fn hex_digit(n: u32) -> char {
    if n < 10 {
        (48 + n) as char
    } else {
        (87 + n) as char
    }
}

fn hex_digit_char(n: u32) -> (r: char)
    requires
        n < 16,
    ensures
        r == hex_digit(n),
{
    if n < 10 {
        ((48 + n) as u8) as char
    } else {
        ((87 + n) as u8) as char
    }
}

/// How a byte of a token is shown: a control byte (`0x00..=0x1F` or `0x7F`)
/// as `\xHH` with two lowercase hex digits, any other byte as the character
/// with that code point.
pub open spec fn render_byte(b: u8) -> Seq<char> {
    if b <= 0x1f || b == 0x7f {
        seq!['\\', 'x', hex_digit((b / 16) as u32), hex_digit((b % 16) as u32)]
    } else {
        seq![b as char]
    }
}

/// A token's bytes shown one after the other.
pub open spec fn render_spec(token: Seq<u8>) -> Seq<char>
    decreases token.len(),
{
    if token.len() == 0 {
        Seq::empty()
    } else {
        render_spec(token.drop_last()) + render_byte(token.last())
    }
}

/// Relies on `FromIterator<&char>` for `String`: the string holds the
/// characters in order.
#[verifier::external_body]
pub(crate) fn string_from_chars(chars: &Vec<char>) -> (r: String)
    ensures
        r@ == chars@,
{
    chars.iter().collect()
}

/// Relies on `str::chars`: the characters of the string in order.
#[verifier::external_body]
pub(crate) fn chars_of(s: &str) -> (r: Vec<char>)
    ensures
        r@ == s@,
{
    s.chars().collect()
}

/// Appends the characters of `extra` to `out`.
pub(crate) fn push_chars(out: &mut Vec<char>, extra: &Vec<char>)
    ensures
        final(out)@ == old(out)@ + extra@,
{
    let mut i: usize = 0;
    while i < extra.len()
        invariant
            i <= extra.len(),
            out@ == old(out)@ + extra@.subrange(0, i as int),
        decreases extra.len() - i,
    {
        out.push(extra[i]);
        i = i + 1;
        assert(out@ =~= old(out)@ + extra@.subrange(0, i as int));
    }
    assert(extra@.subrange(0, i as int) =~= extra@);
}

/// Renders a token's bytes as text: control bytes as `\xHH`, every other
/// byte as the character with that code point.
pub fn render_token(token: &[u8]) -> (r: String)
    ensures
        r@ == render_spec(token@),
{
    let out = render_token_chars(token);
    string_from_chars(&out)
}

/// The characters of `render_token`'s result.
pub(crate) fn render_token_chars(token: &[u8]) -> (r: Vec<char>)
    ensures
        r@ == render_spec(token@),
{
    let mut out: Vec<char> = Vec::new();
    let mut i: usize = 0;
    while i < token.len()
        invariant
            i <= token.len(),
            out@ == render_spec(token@.subrange(0, i as int)),
        decreases token.len() - i,
    {
        let b = token[i];
        let piece: Vec<char> = if b <= 0x1f || b == 0x7f {
            vec!['\\', 'x', hex_digit_char((b / 16) as u32), hex_digit_char((b % 16) as u32)]
        } else {
            vec![b as char]
        };
        assert(piece@ =~= render_byte(b));
        push_chars(&mut out, &piece);
        assert(token@.subrange(0, i + 1).drop_last() =~= token@.subrange(0, i as int));
        i = i + 1;
    }
    assert(token@.subrange(0, i as int) =~= token@);
    out
}

/// A control character in the sense of Unicode's general category Cc:
/// `U+0000..=U+001F` and `U+007F..=U+009F`.
pub open spec fn is_control(c: char) -> bool {
    (c as u32) <= 0x1f || (0x7f <= (c as u32) && (c as u32) <= 0x9f)
}

/// How a character is shown: a control character as `\u` and four lowercase
/// hex digits of its code point, any other character as itself.
pub open spec fn escape_char(c: char) -> Seq<char> {
    if is_control(c) {
        seq!['\\', 'u', '0', '0', hex_digit((c as u32) / 16), hex_digit((c as u32) % 16)]
    } else {
        seq![c]
    }
}

/// The characters of `s`, each shown as `escape_char` does.
pub open spec fn escape_spec(s: Seq<char>) -> Seq<char>
    decreases s.len(),
{
    if s.len() == 0 {
        Seq::empty()
    } else {
        escape_spec(s.drop_last()) + escape_char(s.last())
    }
}

/// Replaces each control character of `s` with its `\uXXXX` escape.
pub fn replace_control_characters(s: &str) -> (r: String)
    ensures
        r@ == escape_spec(s@),
{
    let chars = chars_of(s);
    let mut out: Vec<char> = Vec::new();
    let mut i: usize = 0;
    while i < chars.len()
        invariant
            i <= chars.len(),
            out@ == escape_spec(chars@.subrange(0, i as int)),
        decreases chars.len() - i,
    {
        let c = chars[i];
        let v = c as u32;
        let piece: Vec<char> = if v <= 0x1f || (0x7f <= v && v <= 0x9f) {
            vec!['\\', 'u', '0', '0', hex_digit_char(v / 16), hex_digit_char(v % 16)]
        } else {
            vec![c]
        };
        assert(piece@ =~= escape_char(c));
        push_chars(&mut out, &piece);
        assert(chars@.subrange(0, i + 1).drop_last() =~= chars@.subrange(0, i as int));
        i = i + 1;
    }
    assert(chars@.subrange(0, i as int) =~= chars@);
    string_from_chars(&out)
}

} // verus!
