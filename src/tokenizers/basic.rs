//! The tokenizer state (merge table and vocabulary) and the byte-level
//! tokenizer built on it.
use std::collections::HashMap;
use vstd::prelude::*;
use vstd::string::StringSliceAdditionalSpecFns;
use vstd::utf8::{decode_utf8, encode_utf8, valid_utf8};

use crate::util::{
    all_below, chunks_pair_count, chunks_view, counts_of, decode_bytes, get_stats_chunks,
    lemma_chunks_count_zero, lemma_merge_below, lemma_merge_decode, lemma_merge_keeps_absent,
    lemma_merge_len, lemma_merge_removes_pair, lemma_pack_injective, lemma_pair_count_pos,
    lemma_total_len_merge_all, merge, merge_all, merge_chunks, merge_spec, pack, pack_pair,
    pair_count, total_len, PairStats,
};

verus! {

broadcast use vstd::std_specs::hash::group_hash_axioms;

/// Number of single-byte symbols; merged symbols are numbered from here on.
pub const BYTE_SYMBOLS: u32 = 256;

/// A merge table is well formed when the `k`-th merge only combines symbols
/// below its own ID `256 + k`, no pair is listed twice, and every ID fits in
/// a `u32`.
pub open spec fn merges_wf(m: Seq<(u32, u32)>) -> bool {
    &&& 256 + m.len() <= u32::MAX
    &&& forall|k: int| 0 <= k < m.len() ==> (#[trigger] m[k]).0 < 256 + k && m[k].1 < 256 + k
    &&& forall|i: int, j: int| 0 <= i < j < m.len() ==> #[trigger] m[i] != #[trigger] m[j]
}

/// The vocabulary that a merge table determines: IDs `0..256` are the single
/// bytes, ID `256 + k` the bytes of the `k`-th merge's two operands.
pub open spec fn vocab_of(m: Seq<(u32, u32)>) -> Seq<Seq<u8>>
    decreases m.len(),
{
    if m.len() == 0 {
        Seq::new(256, |i: int| seq![i as u8])
    } else {
        let v = vocab_of(m.drop_last());
        v.push(v[m.last().0 as int] + v[m.last().1 as int])
    }
}

pub proof fn lemma_vocab_of(m: Seq<(u32, u32)>)
    requires
        merges_wf(m),
    ensures
        vocab_of(m).len() == 256 + m.len(),
        forall|i: int| 0 <= i < 256 ==> #[trigger] vocab_of(m)[i] == seq![i as u8],
        forall|k: int|
            0 <= k < m.len() ==> #[trigger] vocab_of(m)[256 + k] == vocab_of(m)[m[k].0 as int]
                + vocab_of(m)[m[k].1 as int],
    decreases m.len(),
{
    if m.len() > 0 {
        let init = m.drop_last();
        assert(merges_wf(init)) by {
            assert forall|k: int| 0 <= k < init.len() implies (#[trigger] init[k]).0 < 256 + k
                && init[k].1 < 256 + k by {
                assert(init[k] == m[k]);
            }
            assert forall|i: int, j: int| 0 <= i < j < init.len() implies #[trigger] init[i]
                != #[trigger] init[j] by {
                assert(init[i] == m[i] && init[j] == m[j]);
            }
        }
        lemma_vocab_of(init);
        let v = vocab_of(init);
        assert forall|k: int| 0 <= k < m.len() implies #[trigger] vocab_of(m)[256 + k]
            == vocab_of(m)[m[k].0 as int] + vocab_of(m)[m[k].1 as int] by {
            assert(m[k].0 < 256 + k && m[k].1 < 256 + k);
            if k < init.len() {
                assert(init[k] == m[k]);
            }
        }
    }
}

/// The merge of lowest index whose pair occurs in `ids`.
pub open spec fn applicable(m: Seq<(u32, u32)>, ids: Seq<u32>, k: int) -> bool {
    &&& 0 <= k < m.len()
    &&& pair_count(ids, m[k]) > 0
    &&& forall|j: int| 0 <= j < k ==> pair_count(ids, #[trigger] m[j]) == 0
}

/// Encoding by priority: while some merge of the table applies, apply the one
/// learned first.
pub open spec fn encode_spec(m: Seq<(u32, u32)>, ids: Seq<u32>) -> Seq<u32>
    decreases ids.len(),
{
    if exists|k: int| applicable(m, ids, k) {
        let k = choose|k: int| applicable(m, ids, k);
        let next = merge_spec(ids, m[k], (256 + k) as u32);
        if next.len() < ids.len() {
            encode_spec(m, next)
        } else {
            ids
        }
    } else {
        ids
    }
}

pub proof fn lemma_applicable_unique(m: Seq<(u32, u32)>, ids: Seq<u32>, k1: int, k2: int)
    requires
        applicable(m, ids, k1),
        applicable(m, ids, k2),
    ensures
        k1 == k2,
{
    if k1 < k2 {
        assert(pair_count(ids, m[k1]) == 0);
    } else if k2 < k1 {
        assert(pair_count(ids, m[k2]) == 0);
    }
}

/// The bytes of `b`, each as a symbol.
pub open spec fn byte_symbols(b: Seq<u8>) -> Seq<u32> {
    b.map_values(|x: u8| x as u32)
}

pub proof fn lemma_decode_byte_symbols(m: Seq<(u32, u32)>, b: Seq<u8>)
    requires
        merges_wf(m),
    ensures
        decode_bytes(vocab_of(m), byte_symbols(b)) == b,
        all_below(byte_symbols(b), 256 + m.len()),
    decreases b.len(),
{
    lemma_vocab_of(m);
    if b.len() > 0 {
        let rest = b.subrange(1, b.len() as int);
        lemma_decode_byte_symbols(m, rest);
        assert(byte_symbols(b).subrange(1, b.len() as int) =~= byte_symbols(rest));
        assert(vocab_of(m)[b[0] as int] == seq![b[0] as int as u8]);
        assert(b =~= seq![b[0]] + rest);
    }
}

/// Copies the bytes of `b` into symbols.
pub fn bytes_to_symbols(b: &[u8]) -> (r: Vec<u32>)
    ensures
        r@ == byte_symbols(b@),
{
    let mut r: Vec<u32> = Vec::new();
    let mut i: usize = 0;
    while i < b.len()
        invariant
            i <= b.len(),
            r@ == byte_symbols(b@.subrange(0, i as int)),
        decreases b.len() - i,
    {
        r.push(b[i] as u32);
        i = i + 1;
        assert(r@ =~= byte_symbols(b@.subrange(0, i as int)));
    }
    assert(b@.subrange(0, i as int) =~= b@);
    r
}

/// The concatenation of two byte strings.
pub fn concat_bytes(a: &Vec<u8>, b: &Vec<u8>) -> (r: Vec<u8>)
    ensures
        r@ == a@ + b@,
{
    let mut r: Vec<u8> = Vec::new();
    let mut i: usize = 0;
    while i < a.len()
        invariant
            i <= a.len(),
            r@ == a@.subrange(0, i as int),
        decreases a.len() - i,
    {
        r.push(a[i]);
        i = i + 1;
        assert(r@ =~= a@.subrange(0, i as int));
    }
    let mut j: usize = 0;
    while j < b.len()
        invariant
            i == a.len(),
            j <= b.len(),
            r@ == a@ + b@.subrange(0, j as int),
        decreases b.len() - j,
    {
        r.push(b[j]);
        j = j + 1;
        assert(r@ =~= a@ + b@.subrange(0, j as int));
    }
    assert(b@.subrange(0, j as int) =~= b@);
    r
}

/// `p` comes before `q` in lexicographic order, or equals it.
pub open spec fn lex_le(p: (u32, u32), q: (u32, u32)) -> bool {
    p.0 < q.0 || (p.0 == q.0 && p.1 <= q.1)
}

/// `p` is the pair that training selects in `chunks`: it occurs, no pair
/// occurs more often, and of the pairs that occur as often it is the
/// lexicographically smallest.
pub open spec fn is_best(chunks: Seq<Seq<u32>>, p: (u32, u32)) -> bool {
    &&& chunks_pair_count(chunks, p) > 0
    &&& forall|q: (u32, u32)|
        #[trigger] chunks_pair_count(chunks, q) < chunks_pair_count(chunks, p) || (chunks_pair_count(
            chunks,
            q,
        ) == chunks_pair_count(chunks, p) && lex_le(p, q))
}

pub proof fn lemma_best_unique(chunks: Seq<Seq<u32>>, p: (u32, u32), q: (u32, u32))
    requires
        is_best(chunks, p),
        is_best(chunks, q),
    ensures
        p == q,
{
    assert(chunks_pair_count(chunks, q) <= chunks_pair_count(chunks, p));
    assert(chunks_pair_count(chunks, p) <= chunks_pair_count(chunks, q));
}

/// The merges that training learns from `chunks` in at most `n` steps, the
/// first of them receiving ID `next`: each step selects the best pair and
/// merges it in every chunk; training ends early once no pair is left.
pub open spec fn learn_spec(chunks: Seq<Seq<u32>>, next: nat, n: nat) -> Seq<(u32, u32)>
    decreases n,
{
    if n == 0 || !(exists|p: (u32, u32)| is_best(chunks, p)) {
        Seq::empty()
    } else {
        let p = choose|p: (u32, u32)| is_best(chunks, p);
        seq![p] + learn_spec(merge_all(chunks, p, next as u32), next + 1, (n - 1) as nat)
    }
}

/// How often each pair that `learn_spec` selects occurs at the step that
/// selects it.
pub open spec fn learn_counts(chunks: Seq<Seq<u32>>, next: nat, n: nat) -> Seq<nat>
    decreases n,
{
    if n == 0 || !(exists|p: (u32, u32)| is_best(chunks, p)) {
        Seq::empty()
    } else {
        let p = choose|p: (u32, u32)| is_best(chunks, p);
        seq![chunks_pair_count(chunks, p)] + learn_counts(
            merge_all(chunks, p, next as u32),
            next + 1,
            (n - 1) as nat,
        )
    }
}

/// Counts as natural numbers.
pub open spec fn counts_view(v: Seq<usize>) -> Seq<nat> {
    v.map_values(|c: usize| c as nat)
}

pub proof fn lemma_learn_len(chunks: Seq<Seq<u32>>, next: nat, n: nat)
    ensures
        learn_spec(chunks, next, n).len() <= n,
    decreases n,
{
    if n > 0 && exists|p: (u32, u32)| is_best(chunks, p) {
        let p = choose|p: (u32, u32)| is_best(chunks, p);
        lemma_learn_len(merge_all(chunks, p, next as u32), next + 1, (n - 1) as nat);
    }
}

/// Bytes are decoded as UTF-8 where they are valid; otherwise decoding
/// reports the failure in a message that begins with this text.
pub const DECODE_ERROR_PREFIX: &'static str = "Error decoding text: ";

/// Relies on `String::from_utf8`: it succeeds exactly on valid UTF-8, and the
/// string it returns then holds those bytes. The error's debug rendering is
/// returned as text.
#[verifier::external_body]
fn string_from_utf8(bytes: Vec<u8>) -> (r: Result<String, String>)
    ensures
        r is Ok <==> valid_utf8(bytes@),
        r matches Ok(s) ==> encode_utf8(s@) == bytes@,
{
    match String::from_utf8(bytes) {
        Ok(s) => Ok(s),
        Err(e) => Err(format!("{:?}", e)),
    }
}

pub proof fn lemma_encode_spec_decode(m: Seq<(u32, u32)>, ids: Seq<u32>)
    requires
        merges_wf(m),
    ensures
        decode_bytes(vocab_of(m), encode_spec(m, ids)) == decode_bytes(vocab_of(m), ids),
    decreases ids.len(),
{
    if exists|k: int| applicable(m, ids, k) {
        let k = choose|k: int| applicable(m, ids, k);
        let next = merge_spec(ids, m[k], (256 + k) as u32);
        if next.len() < ids.len() {
            lemma_vocab_of(m);
            lemma_merge_decode(vocab_of(m), ids, m[k], (256 + k) as u32);
            lemma_encode_spec_decode(m, next);
        }
    }
}

/// Decoding what encoding produced gives back the text, for every text and
/// every well-formed merge table.
pub proof fn lemma_round_trip(m: Seq<(u32, u32)>, text: Seq<char>)
    requires
        merges_wf(m),
    ensures
        valid_utf8(decode_bytes(vocab_of(m), encode_spec(m, byte_symbols(encode_utf8(text))))),
        decode_utf8(decode_bytes(vocab_of(m), encode_spec(m, byte_symbols(encode_utf8(text)))))
            == text,
{
    lemma_encode_spec_decode(m, byte_symbols(encode_utf8(text)));
    lemma_decode_byte_symbols(m, encode_utf8(text));
    vstd::utf8::encode_utf8_valid_utf8(text);
    vstd::utf8::encode_utf8_decode_utf8(text);
}

/// Why a list of pairs cannot serve as a merge table.
#[derive(Debug, PartialEq, Eq, Structural, Clone, Copy)]
pub enum TableError {
    /// The merge at this position names a symbol that no earlier merge or
    /// byte defines.
    UnknownOperand(usize),
    /// The merge at this position repeats the pair of an earlier one.
    DuplicatePair(usize),
    /// More merges than IDs that fit in a `u32`.
    TooManyMerges,
}

/// The tokenizer state: the merge table in the order the merges were
/// learned, an index from pair to assigned ID, the vocabulary, and the
/// splitting pattern (empty for the byte-level tokenizer).
pub struct Tokenizer {
    merges: Vec<(u32, u32)>,
    merge_ids: HashMap<u64, u32>,
    vocab: Vec<Vec<u8>>,
    pattern: String,
}

impl View for Tokenizer {
    type V = Seq<(u32, u32)>;

    /// The merge table: entry `k` is the pair that ID `256 + k` stands for.
    closed spec fn view(&self) -> Seq<(u32, u32)> {
        self.merges@
    }
}

impl Tokenizer {
    /// The merge table is well formed and the index agrees with it.
    pub closed spec fn table_wf(&self) -> bool {
        &&& merges_wf(self.merges@)
        &&& forall|k: int|
            0 <= k < self.merges@.len() ==> #[trigger] self.merge_ids@.contains_key(
                pack(self.merges@[k]),
            ) && self.merge_ids@[pack(self.merges@[k])] == 256 + k
        &&& forall|key: u64|
            #[trigger] self.merge_ids@.contains_key(key) ==> 256 <= self.merge_ids@[key] < 256
                + self.merges@.len() && pack(self.merges@[self.merge_ids@[key] - 256]) == key
    }

    /// The table is well formed and the vocabulary is the one it determines.
    pub closed spec fn wf(&self) -> bool {
        &&& self.table_wf()
        &&& self.vocab@.len() == vocab_of(self.merges@).len()
        &&& forall|i: int|
            0 <= i < self.vocab@.len() ==> (#[trigger] self.vocab@[i])@ == vocab_of(self.merges@)[i]
    }

    /// The vocabulary, as byte sequences indexed by ID.
    pub closed spec fn vocab_view(&self) -> Seq<Seq<u8>> {
        self.vocab@.map_values(|v: Vec<u8>| v@)
    }

    /// The splitting pattern.
    pub closed spec fn pattern_view(&self) -> Seq<char> {
        self.pattern@
    }

    pub proof fn lemma_wf(&self)
        requires
            self.wf(),
        ensures
            merges_wf(self@),
            self.vocab_view() == vocab_of(self@),
    {
        assert(self.vocab_view() =~= vocab_of(self@));
    }

    /// An empty merge table, the 256 single-byte tokens and an empty pattern.
    pub fn new() -> (r: Tokenizer)
        ensures
            r.wf(),
            r@ == Seq::<(u32, u32)>::empty(),
            r.vocab_view() == vocab_of(Seq::<(u32, u32)>::empty()),
            r.pattern_view() == Seq::<char>::empty(),
    {
        let mut vocab: Vec<Vec<u8>> = Vec::new();
        let mut i: u32 = 0;
        while i < BYTE_SYMBOLS
            invariant
                i <= 256,
                vocab@.len() == i,
                forall|j: int| 0 <= j < i ==> (#[trigger] vocab@[j])@ == seq![j as u8],
            decreases 256 - i,
        {
            vocab.push(vec![i as u8]);
            i = i + 1;
        }
        let r = Tokenizer {
            merges: Vec::new(),
            merge_ids: HashMap::new(),
            vocab,
            pattern: String::new(),
        };
        assert(vocab_of(r.merges@).len() == 256);
        proof {
            r.lemma_wf();
        }
        r
    }

    /// The merge table, in the order the merges were learned.
    pub fn merges(&self) -> (r: &Vec<(u32, u32)>)
        ensures
            r@ == self@,
    {
        &self.merges
    }

    /// The vocabulary: the bytes of each ID, indexed by ID.
    pub fn vocab(&self) -> (r: &Vec<Vec<u8>>)
        ensures
            r@.map_values(|v: Vec<u8>| v@) == self.vocab_view(),
    {
        &self.vocab
    }

    /// The splitting pattern; empty for the byte-level tokenizer.
    pub fn pattern(&self) -> (r: &String)
        ensures
            r@ == self.pattern_view(),
    {
        &self.pattern
    }

    /// Replaces the splitting pattern.
    pub fn set_pattern(&mut self, pattern: String)
        ensures
            final(self)@ == old(self)@,
            final(self).pattern_view() == pattern@,
            old(self).wf() ==> final(self).wf(),
    {
        self.pattern = pattern;
    }

    /// Rebuilds the vocabulary from the merge table: IDs `0..256` are single
    /// bytes, then each merge, in order, joins the bytes of its two operands.
    /// The result depends on the merge table alone.
    pub fn build_vocab(&mut self)
        requires
            old(self).wf(),
        ensures
            final(self).wf(),
            final(self)@ == old(self)@,
            final(self).pattern_view() == old(self).pattern_view(),
            final(self).vocab_view() == vocab_of(final(self)@),
            final(self).vocab_view().len() == 256 + final(self)@.len(),
    {
        self.rebuild_vocab();
        proof {
            lemma_vocab_of(self@);
        }
    }

    /// `build_vocab` for a table whose vocabulary may be out of date.
    fn rebuild_vocab(&mut self)
        requires
            old(self).table_wf(),
        ensures
            final(self).wf(),
            final(self)@ == old(self)@,
            final(self).pattern_view() == old(self).pattern_view(),
            final(self).vocab_view() == vocab_of(final(self)@),
    {
        proof {
            lemma_vocab_of(self@);
        }
        let mut vocab: Vec<Vec<u8>> = Vec::new();
        let mut i: u32 = 0;
        while i < BYTE_SYMBOLS
            invariant
                i <= 256,
                vocab@.len() == i,
                forall|j: int| 0 <= j < i ==> (#[trigger] vocab@[j])@ == seq![j as u8],
            decreases 256 - i,
        {
            vocab.push(vec![i as u8]);
            i = i + 1;
        }
        let mut k: usize = 0;
        while k < self.merges.len()
            invariant
                self.table_wf(),
                k <= self@.len(),
                vocab@.len() == 256 + k,
                vocab_of(self@).len() == 256 + self@.len(),
                forall|j: int| 0 <= j < 256 + k ==> (#[trigger] vocab@[j])@ == vocab_of(self@)[j],
                forall|i: int| 0 <= i < 256 ==> #[trigger] vocab_of(self@)[i] == seq![i as u8],
                forall|k: int|
                    0 <= k < self@.len() ==> #[trigger] vocab_of(self@)[256 + k] == vocab_of(self@)[self@[k].0 as int]
                        + vocab_of(self@)[self@[k].1 as int],
            decreases self@.len() - k,
        {
            let (a, b) = self.merges[k];
            let t = concat_bytes(&vocab[a as usize], &vocab[b as usize]);
            vocab.push(t);
            k = k + 1;
        }
        self.vocab = vocab;
        proof {
            self.lemma_wf();
        }
    }

    /// The pair with the highest count in `stats`; of pairs with equal
    /// counts, the lexicographically smallest.
    pub fn find_most_frequent_pair(&self, stats: &PairStats) -> (r: Option<(u32, u32)>)
        ensures
            r is None <==> stats@.len() == 0,
            r matches Some(p) ==> exists|i: int|
                0 <= i < stats@.len() && #[trigger] stats@[i].0 == p && forall|j: int|
                    0 <= j < stats@.len() ==> #[trigger] stats@[j].1 < stats@[i].1 || (stats@[j].1
                        == stats@[i].1 && lex_le(p, stats@[j].0)),
    {
        if stats.len() == 0 {
            return None;
        }
        let mut bi: usize = 0;
        let mut i: usize = 1;
        while i < stats.len()
            invariant
                1 <= i <= stats@.len(),
                bi < i,
                forall|j: int|
                    0 <= j < i ==> #[trigger] stats@[j].1 < stats@[bi as int].1 || (stats@[j].1
                        == stats@[bi as int].1 && lex_le(stats@[bi as int].0, stats@[j].0)),
            decreases stats@.len() - i,
        {
            let (p, c) = stats.entry(i);
            let (q, d) = stats.entry(bi);
            if c > d || (c == d && (p.0 < q.0 || (p.0 == q.0 && p.1 < q.1))) {
                bi = i;
            }
            i = i + 1;
        }
        let (p, _) = stats.entry(bi);
        Some(p)
    }

    /// The ID assigned to `pair`, if the table holds it.
    pub fn lookup(&self, pair: (u32, u32)) -> (r: Option<u32>)
        requires
            self.wf(),
        ensures
            r matches Some(id) ==> 256 <= id < 256 + self@.len() && self@[id - 256] == pair,
            r is None ==> forall|k: int| 0 <= k < self@.len() ==> self@[k] != pair,
    {
        match self.merge_ids.get(&pack_pair(pair)) {
            Some(id) => {
                proof {
                    lemma_pack_injective(self.merges@[*id - 256], pair);
                }
                Some(*id)
            },
            None => {
                assert forall|k: int| 0 <= k < self@.len() implies self@[k] != pair by {
                    assert(self.merge_ids@.contains_key(pack(self.merges@[k])));
                }
                None
            },
        }
    }

    /// The index of the earliest-learned merge whose pair occurs in `ids`.
    pub fn find_applicable(&self, ids: &Vec<u32>) -> (r: Option<usize>)
        requires
            self.wf(),
        ensures
            r matches Some(k) ==> applicable(self@, ids@, k as int),
            r is None ==> forall|k: int| 0 <= k < self@.len() ==> pair_count(ids@, #[trigger] self@[k]) == 0,
    {
        let mut best: Option<usize> = None;
        let mut i: usize = 0;
        while i + 1 < ids.len()
            invariant
                self.wf(),
                ids.len() < 2 ==> i == 0,
                ids.len() >= 2 ==> i < ids.len(),
                best matches Some(b) ==> b < self@.len() && exists|w: int|
                    0 <= w < ids@.len() - 1 && #[trigger] ids@[w] == self@[b as int].0 && ids@[w + 1]
                        == self@[b as int].1,
                forall|w: int, k: int|
                    0 <= w < i && 0 <= k < self@.len() && #[trigger] ids@[w] == #[trigger] self@[k].0
                        && ids@[w + 1] == self@[k].1 ==> (best matches Some(b) && b <= k),
            decreases ids.len() - i,
        {
            let pair = (ids[i], ids[i + 1]);
            let found = self.lookup(pair);
            if let Some(id) = found {
                let k = (id - 256) as usize;
                let better = match best {
                    Some(b) => k < b,
                    None => true,
                };
                if better {
                    best = Some(k);
                }
                proof {
                    assert(ids@[i as int] == self@[k as int].0);
                }
            }
            i = i + 1;
        }
        match best {
            Some(b) => {
                proof {
                    lemma_pair_count_pos(ids@, self@[b as int]);
                    assert forall|j: int| 0 <= j < b implies pair_count(ids@, #[trigger] self@[j]) == 0 by {
                        lemma_pair_count_pos(ids@, self@[j]);
                    }
                }
            },
            None => {
                assert forall|k: int| 0 <= k < self@.len() implies pair_count(ids@, #[trigger] self@[k]) == 0 by {
                    lemma_pair_count_pos(ids@, self@[k]);
                }
            },
        }
        best
    }

    /// Applies the merges of the table to `ids` in priority order, until none
    /// applies.
    pub fn encode_ids(&self, ids: Vec<u32>) -> (r: Vec<u32>)
        requires
            self.wf(),
        ensures
            r@ == encode_spec(self@, ids@),
            decode_bytes(vocab_of(self@), r@) == decode_bytes(vocab_of(self@), ids@),
            forall|k: int| 0 <= k < self@.len() ==> pair_count(r@, #[trigger] self@[k]) == 0,
            all_below(ids@, 256 + self@.len()) ==> all_below(r@, 256 + self@.len()),
    {
        let ghost orig = ids@;
        let mut ids = ids;
        let mut done = false;
        proof {
            lemma_vocab_of(self@);
        }
        while !done
            invariant
                self.wf(),
                encode_spec(self@, ids@) == encode_spec(self@, orig),
                decode_bytes(vocab_of(self@), ids@) == decode_bytes(vocab_of(self@), orig),
                all_below(orig, 256 + self@.len()) ==> all_below(ids@, 256 + self@.len()),
                done ==> forall|k: int| 0 <= k < self@.len() ==> pair_count(ids@, #[trigger] self@[k]) == 0,
                done ==> encode_spec(self@, ids@) == ids@,
                vocab_of(self@).len() == 256 + self@.len(),
                forall|k: int|
                    0 <= k < self@.len() ==> #[trigger] vocab_of(self@)[256 + k] == vocab_of(self@)[self@[k].0 as int]
                        + vocab_of(self@)[self@[k].1 as int],
            decreases ids@.len() + if done { 0int } else { 1int },
        {
            match self.find_applicable(&ids) {
                Some(k) => {
                    let pair = self.merges[k];
                    let idx = BYTE_SYMBOLS + k as u32;
                    let ghost before = ids@;
                    proof {
                        assert(applicable(self@, before, k as int));
                        let k2 = choose|k2: int| applicable(self@, before, k2);
                        lemma_applicable_unique(self@, before, k as int, k2);
                        lemma_merge_len(before, pair, idx);
                        lemma_merge_decode(vocab_of(self@), before, pair, idx);
                        if all_below(orig, 256 + self@.len()) {
                            lemma_merge_below(before, pair, idx, 256 + self@.len());
                        }
                    }
                    ids = merge(ids, pair, idx);
                },
                None => {
                    proof {
                        assert(!exists|k: int| applicable(self@, ids@, k));
                    }
                    done = true;
                },
            }
        }
        ids
    }

    /// Learns up to `num_merges` merges from independent symbol sequences,
    /// appending them to the table, and returns the number of occurrences of
    /// each learned pair at the step that learned it.
    pub(crate) fn train_on_chunks(&mut self, chunks: Vec<Vec<u32>>, num_merges: u32) -> (counts: Vec<usize>)
        requires
            old(self).wf(),
            old(self)@.len() + num_merges + 256 <= u32::MAX,
            total_len(chunks_view(chunks@)) <= usize::MAX,
            forall|k: int| 0 <= k < old(self)@.len() ==> chunks_pair_count(chunks_view(chunks@), #[trigger] old(self)@[k]) == 0,
            forall|j: int| 0 <= j < chunks@.len() ==> all_below(#[trigger] chunks@[j]@, 256 + old(self)@.len()),
        ensures
            final(self).wf(),
            final(self).pattern_view() == old(self).pattern_view(),
            final(self)@ == old(self)@ + learn_spec(chunks_view(chunks@), 256 + old(self)@.len(), num_merges as nat),
            counts@.len() == final(self)@.len() - old(self)@.len(),
            counts_view(counts@) == learn_counts(chunks_view(chunks@), 256 + old(self)@.len(), num_merges as nat),
    {
        let ghost cv0 = chunks_view(chunks@);
        let ghost start = self@;
        let ghost mut learned: Seq<(u32, u32)> = Seq::empty();
        let mut chunks = chunks;
        let mut counts: Vec<usize> = Vec::new();
        let mut i: u32 = 0;
        while i < num_merges
            invariant
                self.wf(),
                self.pattern_view() == old(self).pattern_view(),
                start == old(self)@,
                i <= num_merges,
                start.len() + num_merges + 256 <= u32::MAX,
                self@ == start + learned,
                learned.len() <= i,
                counts@.len() == learned.len(),
                counts_view(counts@) + learn_counts(chunks_view(chunks@), 256 + self@.len(), (num_merges - i) as nat)
                    == learn_counts(cv0, 256 + start.len(), num_merges as nat),
                learned + learn_spec(chunks_view(chunks@), 256 + self@.len(), (num_merges - i) as nat)
                    == learn_spec(cv0, 256 + start.len(), num_merges as nat),
                total_len(chunks_view(chunks@)) <= usize::MAX,
                forall|k: int| 0 <= k < self@.len() ==> chunks_pair_count(chunks_view(chunks@), #[trigger] self@[k]) == 0,
                forall|j: int| 0 <= j < chunks@.len() ==> all_below(#[trigger] chunks@[j]@, 256 + self@.len()),
            decreases num_merges - i,
        {
            let ghost cv = chunks_view(chunks@);
            let ghost rest = (num_merges - i) as nat;
            let stats = get_stats_chunks(&chunks);
            match self.find_most_frequent_pair(&stats) {
                None => {
                    assert forall|p: (u32, u32)| !is_best(cv, p) by {
                        if chunks_pair_count(cv, p) > 0 {
                            let k = choose|k: int| 0 <= k < stats@.len() && #[trigger] stats@[k].0 == p;
                        }
                    }
                    assert(learn_spec(cv, 256 + self@.len(), rest) == Seq::<(u32, u32)>::empty());
                    assert(learned + Seq::<(u32, u32)>::empty() =~= learned);
                    assert(learn_counts(cv, 256 + self@.len(), rest) == Seq::<nat>::empty());
                    assert(counts_view(counts@) + Seq::<nat>::empty() =~= counts_view(counts@));
                    i = num_merges;
                },
                Some(p) => {
                    let ghost bi = choose|bi: int| 0 <= bi < stats@.len() && #[trigger] stats@[bi].0 == p
                        && forall|j: int| 0 <= j < stats@.len() ==> #[trigger] stats@[j].1 < stats@[bi].1
                            || (stats@[j].1 == stats@[bi].1 && lex_le(p, stats@[j].0));
                    let ghost len = self@.len();
                    proof {
                        assert forall|q: (u32, u32)| #[trigger] chunks_pair_count(cv, q) < chunks_pair_count(cv, p)
                            || (chunks_pair_count(cv, q) == chunks_pair_count(cv, p) && lex_le(p, q)) by {
                            if chunks_pair_count(cv, q) > 0 {
                                let k = choose|k: int| 0 <= k < stats@.len() && #[trigger] stats@[k].0 == q;
                                assert(stats@[k].1 == chunks_pair_count(cv, q));
                            }
                        }
                        assert(is_best(cv, p));
                        let p2 = choose|p2: (u32, u32)| is_best(cv, p2);
                        lemma_best_unique(cv, p, p2);
                        // the selected pair is new, and its operands are known symbols
                        lemma_chunks_count_zero(cv, p);
                        let j = choose|j: int| 0 <= j < cv.len() && pair_count(#[trigger] cv[j], p) != 0;
                        lemma_pair_count_pos(cv[j], p);
                        let w = choose|w: int| 0 <= w < cv[j].len() - 1 && #[trigger] cv[j][w] == p.0 && cv[j][w + 1] == p.1;
                        assert(all_below(chunks@[j]@, 256 + len));
                        assert(cv[j][w + 1] < 256 + len);
                        assert forall|k: int| 0 <= k < len implies self@[k] != p by {
                            assert(chunks_pair_count(cv, self@[k]) == 0);
                        }
                    }
                    let c = match stats.get(&p) {
                        Some(c) => {
                            proof {
                                let k = choose|k: int| 0 <= k < stats@.len() && stats@[k] == (p, *c);
                                assert(stats@[k].1 > 0);
                                assert(stats@[k].1 == chunks_pair_count(cv, p));
                            }
                            *c
                        },
                        None => {
                            proof {
                                assert(stats@[bi].0 == p);
                                assert(false);
                            }
                            0
                        },
                    };
                    let idx = BYTE_SYMBOLS + self.merges.len() as u32;
                    let new_chunks = merge_chunks(&chunks, p, idx);
                    let ghost ncv = merge_all(cv, p, idx);
                    proof {
                        lemma_total_len_merge_all(cv, p, idx);
                        assert forall|k: int| 0 <= k < len implies chunks_pair_count(ncv, #[trigger] self@[k]) == 0 by {
                            let q = self@[k];
                            lemma_chunks_count_zero(cv, q);
                            lemma_chunks_count_zero(ncv, q);
                            assert forall|j: int| 0 <= j < ncv.len() implies pair_count(#[trigger] ncv[j], q) == 0 by {
                                assert(pair_count(cv[j], q) == 0);
                                lemma_merge_keeps_absent(cv[j], p, idx, q);
                            }
                        }
                        lemma_chunks_count_zero(ncv, p);
                        assert forall|j: int| 0 <= j < ncv.len() implies pair_count(#[trigger] ncv[j], p) == 0 by {
                            lemma_merge_removes_pair(cv[j], p, idx);
                        }
                        assert forall|j: int| 0 <= j < new_chunks@.len() implies all_below(#[trigger] new_chunks@[j]@, 256 + len + 1) by {
                            assert(all_below(chunks@[j]@, 256 + len));
                            assert(all_below(cv[j], 256 + len + 1));
                            lemma_merge_below(cv[j], p, idx, 256 + len + 1);
                            assert(new_chunks@[j]@ == ncv[j]);
                        }
                        lemma_vocab_of(self@);
                    }
                    chunks = new_chunks;
                    let ghost prev_counts = counts_view(counts@);
                    counts.push(c);
                    proof {
                        assert(counts_view(counts@) =~= prev_counts.push(c as nat));
                        assert(seq![c as nat] + learn_counts(ncv, 256 + len + 1, (rest - 1) as nat)
                            == learn_counts(cv, 256 + len, rest));
                        assert(counts_view(counts@) + learn_counts(ncv, 256 + len + 1, (rest - 1) as nat)
                            =~= prev_counts + (seq![c as nat] + learn_counts(ncv, 256 + len + 1, (rest - 1) as nat)));
                    }
                    let ghost prev_m = self@;
                    let t = concat_bytes(&self.vocab[p.0 as usize], &self.vocab[p.1 as usize]);
                    self.vocab.push(t);
                    self.merges.push(p);
                    self.merge_ids.insert(pack_pair(p), idx);
                    proof {
                        learned = learned.push(p);
                        let m = self@;
                        assert(m == start + learned);
                        assert(m.drop_last() =~= prev_m);
                        assert(merges_wf(m)) by {
                            assert forall|a: int, b: int| 0 <= a < b < m.len() implies #[trigger] m[a] != #[trigger] m[b] by {
                                if b == len {
                                    assert(m[a] == self.merges@[a]);
                                }
                            }
                        }
                        assert forall|k: int| 0 <= k < self@.len() implies #[trigger] self.merge_ids@.contains_key(pack(self@[k]))
                            && self.merge_ids@[pack(self@[k])] == 256 + k by {
                            if k < len {
                                lemma_pack_injective(self@[k], p);
                            }
                        }
                        assert(seq![p] + learn_spec(ncv, 256 + len + 1, (rest - 1) as nat) == learn_spec(cv, 256 + len, rest));
                        assert(learned + learn_spec(ncv, 256 + len + 1, (rest - 1) as nat)
                            =~= learned.drop_last() + (seq![p] + learn_spec(ncv, 256 + len + 1, (rest - 1) as nat)));
                    }
                    i = i + 1;
                },
            }
        }
        proof {
            assert(learn_spec(chunks_view(chunks@), 256 + self@.len(), 0) == Seq::<(u32, u32)>::empty());
            assert(learned + Seq::<(u32, u32)>::empty() =~= learned);
            assert(learn_counts(chunks_view(chunks@), 256 + self@.len(), 0) == Seq::<nat>::empty());
            assert(counts_view(counts@) + Seq::<nat>::empty() =~= counts_view(counts@));
        }
        counts
    }

    /// Trains on `text`: its bytes, encoded with the merges already in the
    /// table, form one symbol sequence, from which up to `vocab_size - 256`
    /// new merges are learned. Returns the occurrence count of each learned
    /// pair.
    pub fn train(&mut self, text: &str, vocab_size: u32) -> (counts: Vec<usize>)
        requires
            old(self).wf(),
            vocab_size >= 256,
            old(self)@.len() + vocab_size <= u32::MAX,
        ensures
            final(self).wf(),
            final(self).pattern_view() == old(self).pattern_view(),
            final(self)@ == old(self)@ + learn_spec(
                seq![encode_spec(old(self)@, byte_symbols(text.spec_bytes()))],
                256 + old(self)@.len(),
                (vocab_size - 256) as nat,
            ),
            final(self)@.len() - old(self)@.len() <= vocab_size - 256,
            final(self).vocab_view().len() == 256 + final(self)@.len(),
            counts@.len() == final(self)@.len() - old(self)@.len(),
            counts_view(counts@) == learn_counts(
                seq![encode_spec(old(self)@, byte_symbols(text.spec_bytes()))],
                256 + old(self)@.len(),
                (vocab_size - 256) as nat,
            ),
    {
        let bytes = text.as_bytes();
        let n: usize = bytes.len();
        let ids = bytes_to_symbols(bytes);
        proof {
            lemma_decode_byte_symbols(self@, bytes@);
        }
        assert(ids@.len() == n);
        let ids = self.encode_ids(ids);
        let ghost e = ids@;
        let chunks: Vec<Vec<u32>> = vec![ids];
        proof {
            assert(chunks_view(chunks@) =~= seq![e]);
            let cv = chunks_view(chunks@);
            assert(cv.drop_last() =~= Seq::<Seq<u32>>::empty());
            assert(total_len(Seq::<Seq<u32>>::empty()) == 0);
            assert(total_len(cv) == e.len());
            lemma_encode_len(self@, byte_symbols(bytes@));
            assert forall|k: int| 0 <= k < self@.len() implies chunks_pair_count(cv, #[trigger] self@[k]) == 0 by {
                assert(pair_count(e, self@[k]) == 0);
                assert(chunks_pair_count(Seq::<Seq<u32>>::empty(), self@[k]) == 0);
            }
            assert forall|j: int| 0 <= j < chunks@.len() implies all_below(#[trigger] chunks@[j]@, 256 + self@.len()) by {
                assert(j == 0);
            }
        }
        let counts = self.train_on_chunks(chunks, vocab_size - BYTE_SYMBOLS);
        proof {
            lemma_learn_len(seq![e], 256 + old(self)@.len(), (vocab_size - 256) as nat);
            self.lemma_wf();
            lemma_vocab_of(self@);
        }
        counts
    }

    /// The token IDs of `text`: its bytes, merged by priority.
    pub fn encode(&self, text: &str) -> (r: Vec<u32>)
        requires
            self.wf(),
        ensures
            r@ == encode_spec(self@, byte_symbols(text.spec_bytes())),
            decode_bytes(vocab_of(self@), r@) == text.spec_bytes(),
            all_below(r@, 256 + self@.len()),
    {
        let ids = bytes_to_symbols(text.as_bytes());
        proof {
            lemma_decode_byte_symbols(self@, text.spec_bytes());
        }
        self.encode_ids(ids)
    }

    /// The bytes of `ids`, each ID looked up in the vocabulary; IDs outside
    /// it contribute nothing.
    pub fn decode_to_bytes(&self, ids: &[u32]) -> (r: Vec<u8>)
        requires
            self.wf(),
        ensures
            r@ == decode_bytes(vocab_of(self@), ids@),
    {
        let mut r: Vec<u8> = Vec::new();
        let mut i: usize = 0;
        proof {
            self.lemma_wf();
        }
        while i < ids.len()
            invariant
                self.wf(),
                self.vocab_view() == vocab_of(self@),
                i <= ids.len(),
                r@ == decode_bytes(vocab_of(self@), ids@.subrange(0, i as int)),
            decreases ids.len() - i,
        {
            let id = ids[i];
            proof {
                crate::util::lemma_decode_concat(vocab_of(self@), ids@.subrange(0, i as int), seq![id]);
                assert(ids@.subrange(0, i + 1) =~= ids@.subrange(0, i as int) + seq![id]);
                assert(seq![id].subrange(1, 1) =~= Seq::<u32>::empty());
                assert(decode_bytes(vocab_of(self@), Seq::<u32>::empty()) == Seq::<u8>::empty());
                assert(decode_bytes(vocab_of(self@), seq![id]) =~= crate::util::token_bytes(vocab_of(self@), id));
            }
            if (id as usize) < self.vocab.len() {
                assert(self.vocab@[id as int]@ == vocab_of(self@)[id as int]);
                r = concat_bytes(&r, &self.vocab[id as usize]);
            } else {
                assert(decode_bytes(vocab_of(self@), seq![id]) =~= Seq::<u8>::empty());
                assert(r@ + Seq::<u8>::empty() =~= r@);
            }
            i = i + 1;
        }
        assert(ids@.subrange(0, i as int) =~= ids@);
        r
    }

    /// The text of `ids`: their bytes decoded as UTF-8, or, where the bytes
    /// are not valid UTF-8, a message describing the failure.
    pub fn decode(&self, ids: &[u32]) -> (r: String)
        requires
            self.wf(),
        ensures
            valid_utf8(decode_bytes(vocab_of(self@), ids@)) ==> r@ == decode_utf8(
                decode_bytes(vocab_of(self@), ids@),
            ),
            !valid_utf8(decode_bytes(vocab_of(self@), ids@)) ==> r@.len() >= DECODE_ERROR_PREFIX@.len()
                && r@.subrange(0, DECODE_ERROR_PREFIX@.len() as int) == DECODE_ERROR_PREFIX@,
    {
        let bytes = self.decode_to_bytes(ids);
        let ghost b = bytes@;
        match string_from_utf8(bytes) {
            Ok(s) => {
                proof {
                    vstd::utf8::encode_utf8_decode_utf8(s@);
                }
                s
            },
            Err(e) => {
                let mut msg = DECODE_ERROR_PREFIX.to_string();
                msg.append(e.as_str());
                assert(msg@.subrange(0, DECODE_ERROR_PREFIX@.len() as int) =~= DECODE_ERROR_PREFIX@);
                msg
            },
        }
    }
}

pub proof fn lemma_encode_len(m: Seq<(u32, u32)>, ids: Seq<u32>)
    ensures
        encode_spec(m, ids).len() <= ids.len(),
    decreases ids.len(),
{
    if exists|k: int| applicable(m, ids, k) {
        let k = choose|k: int| applicable(m, ids, k);
        let next = merge_spec(ids, m[k], (256 + k) as u32);
        if next.len() < ids.len() {
            lemma_encode_len(m, next);
        }
    }
}

impl Tokenizer {
    /// Replaces the merge table with `pairs`, in order (the `k`-th pair
    /// receives ID `256 + k`), and rebuilds the vocabulary. Fails, leaving
    /// the state as it was, unless every pair names only bytes and earlier
    /// merges and no pair repeats.
    pub fn set_merges(&mut self, pairs: Vec<(u32, u32)>) -> (r: Result<(), TableError>)
        requires
            old(self).wf(),
        ensures
            r is Ok <==> merges_wf(pairs@),
            r is Ok ==> final(self)@ == pairs@,
            r is Err ==> final(self)@ == old(self)@,
            final(self).wf(),
            final(self).pattern_view() == old(self).pattern_view(),
    {
        if pairs.len() > 0xffff_feff {
            return Err(TableError::TooManyMerges);
        }
        let mut index: HashMap<u64, u32> = HashMap::new();
        let mut k: usize = 0;
        while k < pairs.len()
            invariant
                self.wf(),
                self@ == old(self)@,
                self.pattern_view() == old(self).pattern_view(),
                pairs@.len() <= 0xffff_feff,
                k <= pairs@.len(),
                merges_wf(pairs@.subrange(0, k as int)),
                forall|j: int|
                    0 <= j < k ==> #[trigger] index@.contains_key(pack(pairs@[j])) && index@[pack(
                        pairs@[j],
                    )] == 256 + j,
                forall|key: u64|
                    #[trigger] index@.contains_key(key) ==> 256 <= index@[key] < 256 + k && pack(
                        pairs@[index@[key] - 256],
                    ) == key,
            decreases pairs@.len() - k,
        {
            let (a, b) = pairs[k];
            let id = BYTE_SYMBOLS + k as u32;
            if a >= id || b >= id {
                assert(!(pairs@[k as int].0 < 256 + k && pairs@[k as int].1 < 256 + k));
                return Err(TableError::UnknownOperand(k));
            }
            let key = pack_pair((a, b));
            if index.contains_key(&key) {
                proof {
                    let j = index@[key] - 256;
                    lemma_pack_injective(pairs@[j], (a, b));
                    assert(pairs@[j] == pairs@[k as int]);
                }
                return Err(TableError::DuplicatePair(k));
            }
            index.insert(key, id);
            proof {
                let sub = pairs@.subrange(0, k + 1);
                assert(sub.drop_last() =~= pairs@.subrange(0, k as int));
                assert forall|i: int, j: int| 0 <= i < j < sub.len() implies #[trigger] sub[i] != #[trigger] sub[j] by {
                    if j == k {
                        assert(index@.contains_key(pack(pairs@[i])) || i == k);
                        if pairs@[i] == pairs@[k as int] {
                            assert(old(self).wf());
                        }
                    } else {
                        assert(pairs@.subrange(0, k as int)[i] == sub[i]);
                        assert(pairs@.subrange(0, k as int)[j] == sub[j]);
                    }
                }
                assert forall|j: int| 0 <= j < sub.len() implies (#[trigger] sub[j]).0 < 256 + j && sub[j].1 < 256 + j by {
                    if j < k {
                        assert(pairs@.subrange(0, k as int)[j] == sub[j]);
                    }
                }
                assert forall|j: int| 0 <= j < k + 1 implies #[trigger] index@.contains_key(pack(pairs@[j]))
                    && index@[pack(pairs@[j])] == 256 + j by {
                    if j < k {
                        lemma_pack_injective(pairs@[j], (a, b));
                    }
                }
            }
            k = k + 1;
        }
        assert(pairs@.subrange(0, k as int) =~= pairs@);
        self.merges = pairs;
        self.merge_ids = index;
        self.rebuild_vocab();
        Ok(())
    }
}

} // verus!
