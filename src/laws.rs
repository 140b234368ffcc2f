//! Properties that relate several operations of the tokenizers.
use vstd::prelude::*;
use vstd::utf8::{decode_utf8, encode_utf8, valid_utf8};

use crate::tokenizers::regex::{encode_all, split_text, RegexTokenizer};
use crate::tokenizers::basic::{
    lex_le,
    byte_symbols, encode_spec, is_best, lemma_encode_spec_decode, lemma_vocab_of, learn_spec,
    merges_wf, vocab_of, Tokenizer,
};
use crate::model::{law_model_round_trip, model_pairs, model_pattern, model_spec, trim_end, trim_start};
use crate::util::{
    all_below, lemma_decode_concat, lemma_merge_below, lemma_pair_count_pos, merge_spec,
    token_bytes,
};
use crate::util::{
    chunks_pair_count, decode_bytes, lemma_chunks_count_zero, lemma_merge_decode, merge_all,
    pair_count,
};

verus! {

/// Round trip: whenever token IDs decode to the bytes of a text, as the IDs
/// that either tokenizer's `encode` returns do for every text and every
/// well-formed state, decoding them gives back exactly that text.
pub proof fn law_round_trip(m: Seq<(u32, u32)>, text: Seq<char>, ids: Seq<u32>)
    requires
        decode_bytes(vocab_of(m), ids) == encode_utf8(text),
    ensures
        valid_utf8(decode_bytes(vocab_of(m), ids)),
        decode_utf8(decode_bytes(vocab_of(m), ids)) == text,
{
    vstd::utf8::encode_utf8_valid_utf8(text);
    vstd::utf8::encode_utf8_decode_utf8(text);
}

/// Determinism: two tokenizers with the same merge table have the same
/// vocabulary. Training fixes the new table as a function of the old table,
/// the text and the target size (`learn_spec`), so training twice on the same
/// input yields the same table and the same vocabulary.
pub proof fn law_same_table_same_vocab(a: Tokenizer, b: Tokenizer)
    requires
        a.wf(),
        b.wf(),
        a@ == b@,
    ensures
        a.vocab_view() == b.vocab_view(),
{
    a.lemma_wf();
    b.lemma_wf();
}

/// Determinism: two trainings of equal tokenizers on the same text with the
/// same target size, each related to its result as `Tokenizer::train`
/// guarantees, end with equal merge tables and equal vocabularies.
pub proof fn law_training_deterministic(
    a0: Tokenizer,
    b0: Tokenizer,
    a1: Tokenizer,
    b1: Tokenizer,
    text: Seq<u8>,
    vocab_size: u32,
)
    requires
        a0@ == b0@,
        a1.wf(),
        b1.wf(),
        a1@ == a0@ + learn_spec(
            seq![encode_spec(a0@, byte_symbols(text))],
            256 + a0@.len(),
            (vocab_size - 256) as nat,
        ),
        b1@ == b0@ + learn_spec(
            seq![encode_spec(b0@, byte_symbols(text))],
            256 + b0@.len(),
            (vocab_size - 256) as nat,
        ),
    ensures
        a1@ == b1@,
        a1.vocab_view() == b1.vocab_view(),
{
    law_same_table_same_vocab(a1, b1);
}

/// Determinism of the pattern-splitting tokenizer: two trainings of equal
/// tokenizers with the same splitting pattern on the same text with the same
/// target size, each related to its result as `RegexTokenizer::train`
/// guarantees, end with equal merge tables and equal vocabularies. Two
/// tokenizers from `RegexTokenizer::new` have the same splitting pattern.
pub proof fn law_regex_training_deterministic(
    a0: RegexTokenizer,
    b0: RegexTokenizer,
    a1: RegexTokenizer,
    b1: RegexTokenizer,
    text: Seq<char>,
    vocab_size: u32,
)
    requires
        a0@ == b0@,
        a0.splitter() == b0.splitter(),
        a1.wf(),
        b1.wf(),
        a1@ == a0@ + learn_spec(
            encode_all(a0@, split_text(a0.splitter(), text)),
            256 + a0@.len(),
            (vocab_size - 256) as nat,
        ),
        b1@ == b0@ + learn_spec(
            encode_all(b0@, split_text(b0.splitter(), text)),
            256 + b0@.len(),
            (vocab_size - 256) as nat,
        ),
    ensures
        a1@ == b1@,
        a1.state().vocab_view() == b1.state().vocab_view(),
{
    a1.lemma_state();
    b1.lemma_state();
    law_same_table_same_vocab(a1.state(), b1.state());
}

/// Monotonic IDs: the merge at position `k` has ID `256 + k`, so each merge
/// that extends `before` has an ID above 255 and above every earlier ID; it
/// is a pair no earlier merge holds, and it combines only symbols with
/// smaller IDs.
pub proof fn law_ids_increase(before: Seq<(u32, u32)>, after: Seq<(u32, u32)>)
    requires
        merges_wf(after),
        before.len() <= after.len(),
        after.subrange(0, before.len() as int) == before,
    ensures
        forall|k: int, j: int|
            before.len() <= k < after.len() && 0 <= j < k ==> #[trigger] after[j] != #[trigger] after[k],
        forall|k: int|
            before.len() <= k < after.len() ==> (#[trigger] after[k]).0 < 256 + k && after[k].1 < 256 + k,
{
}

/// Chunk isolation, for training: the pair that a training step selects
/// stands inside one chunk, and merging it keeps the bytes of every chunk, so
/// no learned symbol ever spans two chunks.
pub proof fn law_selected_pair_within_chunk(
    m: Seq<(u32, u32)>,
    chunks: Seq<Seq<u32>>,
    p: (u32, u32),
)
    requires
        merges_wf(m.push(p)),
        is_best(chunks, p),
    ensures
        exists|j: int| 0 <= j < chunks.len() && pair_count(#[trigger] chunks[j], p) > 0,
        forall|j: int|
            0 <= j < chunks.len() ==> decode_bytes(vocab_of(m.push(p)), #[trigger] merge_all(
                chunks,
                p,
                (256 + m.len()) as u32,
            )[j]) == decode_bytes(vocab_of(m.push(p)), chunks[j]),
{
    lemma_chunks_count_zero(chunks, p);
    let mp = m.push(p);
    lemma_vocab_of(mp);
    assert(mp[m.len() as int] == p);
    assert forall|j: int| 0 <= j < chunks.len() implies decode_bytes(vocab_of(mp), #[trigger] merge_all(
        chunks,
        p,
        (256 + m.len()) as u32,
    )[j]) == decode_bytes(vocab_of(mp), chunks[j]) by {
        lemma_merge_decode(vocab_of(mp), chunks[j], p, (256 + m.len()) as u32);
    }
}

/// Chunk isolation, for encoding: a chunk encoded on its own decodes to
/// exactly the bytes of that chunk.
pub proof fn law_chunk_encoding_isolated(m: Seq<(u32, u32)>, chunk: Seq<u32>)
    requires
        merges_wf(m),
    ensures
        decode_bytes(vocab_of(m), crate::tokenizers::basic::encode_spec(m, chunk)) == decode_bytes(
            vocab_of(m),
            chunk,
        ),
{
    lemma_encode_spec_decode(m, chunk);
}

/// Persistence round trip: the model text that `model_text` writes for a
/// tokenizer, read back by `load_model_text`, states the same pattern and
/// the same merges in the same order; since that table is well formed the
/// load succeeds, and the same table gives the same vocabulary
/// (`law_same_table_same_vocab`). The pattern must be one line without
/// surrounding whitespace, as the first line of the text is read trimmed.
pub proof fn law_save_load_round_trip(t: Tokenizer)
    requires
        t.wf(),
        forall|i: int| 0 <= i < t.pattern_view().len() ==> t.pattern_view()[i] != '\n',
        trim_end(trim_start(t.pattern_view())) == t.pattern_view(),
    ensures
        model_pairs(model_spec(t.pattern_view(), t@)) == t@,
        merges_wf(model_pairs(model_spec(t.pattern_view(), t@))),
        model_pattern(model_spec(t.pattern_view(), t@)) == t.pattern_view(),
{
    t.lemma_wf();
    law_model_round_trip(t.pattern_view(), t@);
}

/// `piece` stands at some position of `whole`.
pub open spec fn is_within(piece: Seq<u8>, whole: Seq<u8>) -> bool {
    exists|a: int| 0 <= a && a + piece.len() <= whole.len() && #[trigger] whole.subrange(a, a + piece.len()) == piece
}

/// The bytes of two adjacent symbols stand in the bytes of the sequence.
proof fn lemma_adjacent_within(vocab: Seq<Seq<u8>>, s: Seq<u32>, w: int)
    requires
        0 <= w < s.len() - 1,
    ensures
        is_within(token_bytes(vocab, s[w]) + token_bytes(vocab, s[w + 1]), decode_bytes(vocab, s)),
{
    let pre = s.subrange(0, w);
    let mid = s.subrange(w, w + 2);
    let post = s.subrange(w + 2, s.len() as int);
    assert(s =~= pre + mid + post);
    lemma_decode_concat(vocab, pre, mid);
    lemma_decode_concat(vocab, pre + mid, post);
    let piece = token_bytes(vocab, s[w]) + token_bytes(vocab, s[w + 1]);
    assert(mid.subrange(1, 2) =~= seq![s[w + 1]]);
    assert(seq![s[w + 1]].subrange(1, 1) =~= Seq::<u32>::empty());
    assert(decode_bytes(vocab, Seq::<u32>::empty()) == Seq::<u8>::empty());
    assert(decode_bytes(vocab, seq![s[w + 1]]) =~= token_bytes(vocab, s[w + 1]));
    assert(decode_bytes(vocab, mid) =~= piece);
    let whole = decode_bytes(vocab, s);
    let a = decode_bytes(vocab, pre).len() as int;
    assert(whole =~= decode_bytes(vocab, pre) + piece + decode_bytes(vocab, post));
    assert(whole.subrange(a, a + piece.len()) =~= piece);
}

/// Chunk isolation, for all of training: every symbol that training learns
/// from independent chunks stands for bytes that lie inside a single one of
/// the chunks given to training. Here `full` is the table after training.
pub proof fn law_learned_tokens_within_chunks(
    m: Seq<(u32, u32)>,
    chunks: Seq<Seq<u32>>,
    n: nat,
    full: Seq<(u32, u32)>,
)
    requires
        full == m + learn_spec(chunks, 256 + m.len(), n),
        merges_wf(full),
    ensures
        forall|k: int|
            m.len() <= k < full.len() ==> exists|j: int|
                0 <= j < chunks.len() && is_within(
                    #[trigger] vocab_of(full)[256 + k],
                    decode_bytes(vocab_of(full), chunks[j]),
                ),
    decreases n,
{
    let v = vocab_of(full);
    lemma_vocab_of(full);
    if n > 0 && exists|p: (u32, u32)| is_best(chunks, p) {
        let p = choose|p: (u32, u32)| is_best(chunks, p);
        let idx = (256 + m.len()) as u32;
        let next = merge_all(chunks, p, idx);
        let m1 = m.push(p);
        assert(full == m1 + learn_spec(next, 256 + m1.len(), (n - 1) as nat)) by {
            assert(m + (seq![p] + learn_spec(next, 256 + m1.len(), (n - 1) as nat)) =~= m1 + learn_spec(
                next,
                256 + m1.len(),
                (n - 1) as nat,
            ));
        }
        law_learned_tokens_within_chunks(m1, next, (n - 1) as nat, full);
        assert(full[m.len() as int] == p);
        assert forall|j: int| 0 <= j < chunks.len() implies decode_bytes(v, #[trigger] next[j])
            == decode_bytes(v, chunks[j]) by {
            lemma_merge_decode(v, chunks[j], p, idx);
        }
        assert forall|k: int| m.len() <= k < full.len() implies exists|j: int|
            0 <= j < chunks.len() && is_within(#[trigger] v[256 + k], decode_bytes(v, chunks[j])) by {
            if k == m.len() {
                lemma_chunks_count_zero(chunks, p);
                let j = choose|j: int| 0 <= j < chunks.len() && pair_count(#[trigger] chunks[j], p) != 0;
                lemma_pair_count_pos(chunks[j], p);
                let w = choose|w: int|
                    0 <= w < chunks[j].len() - 1 && #[trigger] chunks[j][w] == p.0 && chunks[j][w + 1] == p.1;
                lemma_adjacent_within(v, chunks[j], w);
                assert(v[256 + k] == v[p.0 as int] + v[p.1 as int]);
            } else {
                let j = choose|j: int| 0 <= j < next.len() && is_within(#[trigger] v[256 + k], decode_bytes(v, next[j]));
                assert(decode_bytes(v, next[j]) == decode_bytes(v, chunks[j]));
            }
        }
    } else {
        assert(full =~= m);
    }
}

/// The adjacent pairs of a sequence, position by position.
pub open spec fn seq_pairs(s: Seq<u32>) -> Seq<(u32, u32)>
    decreases s.len(),
{
    if s.len() < 2 {
        Seq::empty()
    } else {
        seq![(s[0], s[1])] + seq_pairs(s.subrange(1, s.len() as int))
    }
}

/// The adjacent pairs of all chunks.
pub open spec fn chunk_pairs(chunks: Seq<Seq<u32>>) -> Seq<(u32, u32)>
    decreases chunks.len(),
{
    if chunks.len() == 0 {
        Seq::empty()
    } else {
        chunk_pairs(chunks.drop_last()) + seq_pairs(chunks.last())
    }
}

proof fn lemma_seq_pairs_contains(s: Seq<u32>, p: (u32, u32))
    requires
        pair_count(s, p) > 0,
    ensures
        seq_pairs(s).contains(p),
    decreases s.len(),
{
    let rest = s.subrange(1, s.len() as int);
    if s[0] == p.0 && s[1] == p.1 {
        assert(seq_pairs(s)[0] == p);
    } else {
        lemma_seq_pairs_contains(rest, p);
        let i = choose|i: int| 0 <= i < seq_pairs(rest).len() && seq_pairs(rest)[i] == p;
        assert(seq_pairs(s)[i + 1] == p);
    }
}

proof fn lemma_chunk_pairs_contains(chunks: Seq<Seq<u32>>, p: (u32, u32))
    requires
        chunks_pair_count(chunks, p) > 0,
    ensures
        chunk_pairs(chunks).contains(p),
    decreases chunks.len(),
{
    let init = chunks.drop_last();
    let a = chunk_pairs(init);
    if pair_count(chunks.last(), p) > 0 {
        lemma_seq_pairs_contains(chunks.last(), p);
        let i = choose|i: int| 0 <= i < seq_pairs(chunks.last()).len() && seq_pairs(chunks.last())[i] == p;
        assert(chunk_pairs(chunks)[a.len() + i] == p);
    } else {
        lemma_chunk_pairs_contains(init, p);
        let i = choose|i: int| 0 <= i < a.len() && a[i] == p;
        assert(chunk_pairs(chunks)[i] == p);
    }
}

/// `p` is selected over `q`: it occurs more often, or as often and is not
/// lexicographically greater.
pub open spec fn dominates(chunks: Seq<Seq<u32>>, p: (u32, u32), q: (u32, u32)) -> bool {
    chunks_pair_count(chunks, q) < chunks_pair_count(chunks, p) || (chunks_pair_count(chunks, q)
        == chunks_pair_count(chunks, p) && lex_le(p, q))
}

/// The pair of `l` that dominates all others.
pub open spec fn best_in(chunks: Seq<Seq<u32>>, l: Seq<(u32, u32)>) -> (u32, u32)
    decreases l.len(),
{
    if l.len() <= 1 {
        l[0]
    } else {
        let b = best_in(chunks, l.drop_last());
        if dominates(chunks, b, l.last()) {
            b
        } else {
            l.last()
        }
    }
}

proof fn lemma_best_in(chunks: Seq<Seq<u32>>, l: Seq<(u32, u32)>)
    requires
        l.len() > 0,
    ensures
        forall|i: int| 0 <= i < l.len() ==> dominates(chunks, best_in(chunks, l), #[trigger] l[i]),
    decreases l.len(),
{
    if l.len() > 1 {
        let init = l.drop_last();
        lemma_best_in(chunks, init);
        assert forall|i: int| 0 <= i < l.len() implies dominates(chunks, best_in(chunks, l), #[trigger] l[i]) by {
            if i < init.len() {
                assert(l[i] == init[i]);
                assert(dominates(chunks, best_in(chunks, init), init[i]));
            }
        }
    }
}

/// Where some pair occurs, training has a pair to select.
pub proof fn lemma_best_exists(chunks: Seq<Seq<u32>>, q: (u32, u32))
    requires
        chunks_pair_count(chunks, q) > 0,
    ensures
        exists|p: (u32, u32)| is_best(chunks, p),
{
    lemma_chunk_pairs_contains(chunks, q);
    let l = chunk_pairs(chunks);
    lemma_best_in(chunks, l);
    let b = best_in(chunks, l);
    let i = choose|i: int| 0 <= i < l.len() && l[i] == q;
    assert(dominates(chunks, b, l[i]));
    assert forall|r: (u32, u32)| #[trigger] chunks_pair_count(chunks, r) < chunks_pair_count(chunks, b)
        || (chunks_pair_count(chunks, r) == chunks_pair_count(chunks, b) && lex_le(b, r)) by {
        if chunks_pair_count(chunks, r) > 0 {
            lemma_chunk_pairs_contains(chunks, r);
            let k = choose|k: int| 0 <= k < l.len() && l[k] == r;
            assert(dominates(chunks, b, l[k]));
        }
    }
    assert(is_best(chunks, b));
}

/// The chunks once training has learned its merges.
pub open spec fn learn_state(chunks: Seq<Seq<u32>>, next: nat, n: nat) -> Seq<Seq<u32>>
    decreases n,
{
    if n == 0 || !(exists|p: (u32, u32)| is_best(chunks, p)) {
        chunks
    } else {
        let p = choose|p: (u32, u32)| is_best(chunks, p);
        learn_state(merge_all(chunks, p, next as u32), next + 1, (n - 1) as nat)
    }
}

/// Vocabulary size: training learns exactly `n` merges unless it stops
/// early, and it stops early only once every chunk has fewer than two
/// symbols left, so that no pair remains. (The vocabulary then has `256 + m`
/// entries for the `m` merges of the table, as `train` states.)
pub proof fn law_training_stops_only_without_pairs(chunks: Seq<Seq<u32>>, next: nat, n: nat)
    ensures
        learn_spec(chunks, next, n).len() <= n,
        learn_spec(chunks, next, n).len() == n || forall|j: int|
            0 <= j < learn_state(chunks, next, n).len() ==> (#[trigger] learn_state(chunks, next, n)[j]).len() < 2,
    decreases n,
{
    crate::tokenizers::basic::lemma_learn_len(chunks, next, n);
    if n > 0 {
        if exists|p: (u32, u32)| is_best(chunks, p) {
            let p = choose|p: (u32, u32)| is_best(chunks, p);
            let nc = merge_all(chunks, p, next as u32);
            law_training_stops_only_without_pairs(nc, next + 1, (n - 1) as nat);
            assert(learn_spec(chunks, next, n) == seq![p] + learn_spec(nc, next + 1, (n - 1) as nat));
            assert(learn_state(chunks, next, n) == learn_state(nc, next + 1, (n - 1) as nat));
        } else {
            assert(learn_state(chunks, next, n) == chunks);
            assert forall|j: int| 0 <= j < chunks.len() implies (#[trigger] chunks[j]).len() < 2 by {
                if chunks[j].len() >= 2 {
                    let q = (chunks[j][0], chunks[j][1]);
                    assert(pair_count(chunks[j], q) > 0);
                    lemma_chunks_count_zero(chunks, q);
                    lemma_best_exists(chunks, q);
                }
            }
        }
    }
}

} // verus!
