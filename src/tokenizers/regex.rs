//! The tokenizer that cuts text into chunks with a splitting pattern before
//! merging, so that no merge ever joins symbols of two chunks.
use vstd::prelude::*;
use vstd::string::StringSliceAdditionalSpecFns;
use vstd::utf8::{decode_utf8, encode_utf8, valid_utf8};

use crate::model::{model_pairs, model_pattern};
use crate::tokenizers::basic::{
    byte_symbols, bytes_to_symbols, encode_spec, lemma_decode_byte_symbols, lemma_encode_len,
    counts_view, lemma_learn_len, learn_counts, learn_spec, merges_wf, vocab_of, TableError, Tokenizer, BYTE_SYMBOLS,
    DECODE_ERROR_PREFIX,
};
use crate::util::{
    all_below, chunks_pair_count, chunks_view, concat_chunks, copy_ids, decode_bytes,
    lemma_concat_chunks_below, lemma_concat_chunks_push, lemma_decode_concat, spans_wf,
    split_at_spans, split_spec, total_len,
};

verus! {

/// The default splitting pattern: contractions, runs of letters, runs of one
/// to three digits, runs of punctuation, and runs of whitespace.
pub const GPT4_SPLIT_PATTERN: &'static str =
    r"'(?i:[sdmt]|ll|ve|re)|[^\r\n\p{L}\p{N}]?\p{L}+|\p{N}{1,3}| ?[^\s\p{L}\p{N}]+[\r\n]*|\s*[\r\n]|\s+";

#[verifier::external_type_specification]
#[verifier::external_body]
pub struct ExRegex(::regex::Regex);

#[verifier::external_type_specification]
#[verifier::external_body]
pub struct ExRegexError(::regex::Error);

/// Whether `regex::Regex::new` accepts `pattern`; this depends on the
/// pattern alone.
pub uninterp spec fn pattern_compiles(pattern: Seq<char>) -> bool;

/// The byte ranges of the successive non-overlapping matches that
/// `regex::Regex::find_iter` reports for `pattern` in `text`; they depend on
/// the pattern and the text alone.
pub uninterp spec fn pattern_spans(pattern: Seq<char>, text: Seq<char>) -> Seq<(usize, usize)>;

/// A compiled pattern together with the pattern it was compiled from. Only
/// `compile_pattern` builds one.
pub struct CompiledPattern {
    regex: ::regex::Regex,
    source: String,
}

impl View for CompiledPattern {
    type V = Seq<char>;

    /// The pattern the regex was compiled from.
    closed spec fn view(&self) -> Seq<char> {
        self.source@
    }
}

/// Relies on `regex::Regex::new`: it compiles `pattern` exactly when the
/// pattern is valid, which depends on the pattern alone.
#[verifier::external_body]
fn compile_pattern(pattern: &str) -> (r: Option<CompiledPattern>)
    ensures
        r is Some <==> pattern_compiles(pattern@),
        r matches Some(c) ==> c@ == pattern@,
{
    match ::regex::Regex::new(pattern) {
        Ok(regex) => Some(CompiledPattern { regex, source: pattern.to_string() }),
        Err(_) => None,
    }
}

/// Relies on `regex::Regex::find_iter` and `regex::Match::{start, end}`:
/// successive non-overlapping matches, each a byte range of the text with
/// `start <= end`, determined by the pattern and the text.
#[verifier::external_body]
fn match_spans(p: &CompiledPattern, text: &str) -> (r: Vec<(usize, usize)>)
    ensures
        r@ == pattern_spans(p@, text@),
        spans_wf(r@, text.spec_bytes().len()),
{
    p.regex.find_iter(text).map(|m| (m.start(), m.end())).collect()
}

/// The chunks of `text`: with a compiled pattern, the pattern's matches and
/// the stretches between them; without one, the whole text.
pub open spec fn split_text(splitter: Option<Seq<char>>, text: Seq<char>) -> Seq<Seq<u32>> {
    match splitter {
        Some(p) => split_spec(byte_symbols(encode_utf8(text)), pattern_spans(p, text)),
        None => seq![byte_symbols(encode_utf8(text))],
    }
}

/// Each chunk encoded on its own.
pub open spec fn encode_all(m: Seq<(u32, u32)>, chunks: Seq<Seq<u32>>) -> Seq<Seq<u32>> {
    chunks.map_values(|c: Seq<u32>| encode_spec(m, c))
}

/// A tokenizer state together with the compiled splitting pattern.
pub struct RegexTokenizer {
    tokenizer: Tokenizer,
    compiled_pattern: Option<CompiledPattern>,
}

impl View for RegexTokenizer {
    type V = Seq<(u32, u32)>;

    closed spec fn view(&self) -> Seq<(u32, u32)> {
        self.tokenizer@
    }
}

impl RegexTokenizer {
    pub closed spec fn wf(&self) -> bool {
        self.tokenizer.wf()
    }

    /// The wrapped tokenizer state.
    pub closed spec fn state(&self) -> Tokenizer {
        self.tokenizer
    }

    /// The pattern that text is split with: the one compiled at
    /// construction, if it compiled.
    pub closed spec fn splitter(&self) -> Option<Seq<char>> {
        match self.compiled_pattern {
            Some(c) => Some(c@),
            None => None,
        }
    }

    pub proof fn lemma_state(&self)
        ensures
            self.state()@ == self@,
            self.wf() ==> self.state().wf(),
    {
    }

    /// An empty merge table and the default splitting pattern, compiled.
    pub fn new() -> (r: RegexTokenizer)
        ensures
            r.splitter() == if pattern_compiles(GPT4_SPLIT_PATTERN@) {
                Some(GPT4_SPLIT_PATTERN@)
            } else {
                None
            },
            r.wf(),
            r@ == Seq::<(u32, u32)>::empty(),
            r.state()@ == r@,
            r.state().wf(),
            r.state().pattern_view() == GPT4_SPLIT_PATTERN@,
    {
        let mut tokenizer = Tokenizer::new();
        tokenizer.set_pattern(GPT4_SPLIT_PATTERN.to_string());
        let compiled_pattern = compile_pattern(GPT4_SPLIT_PATTERN);
        RegexTokenizer { tokenizer, compiled_pattern }
    }

    /// The wrapped tokenizer state: merge table, vocabulary and pattern.
    pub fn tokenizer(&self) -> (r: &Tokenizer)
        ensures
            *r == self.state(),
    {
        &self.tokenizer
    }

    /// The bytes of `text` as symbols, cut into the chunks that the splitting
    /// pattern matches and the stretches between them; a pattern that failed
    /// to compile leaves the text whole.
    fn split(&self, text: &str) -> (r: Vec<Vec<u32>>)
        ensures
            chunks_view(r@) == split_text(self.splitter(), text@),
            concat_chunks(chunks_view(r@)) == byte_symbols(text.spec_bytes()),
    {
        let ids = bytes_to_symbols(text.as_bytes());
        match &self.compiled_pattern {
            Some(re) => {
                let spans = match_spans(re, text);
                split_at_spans(&ids, &spans)
            },
            None => {
                let ghost v = ids@;
                let r: Vec<Vec<u32>> = vec![ids];
                proof {
                    assert(chunks_view(r@) =~= seq![v]);
                    assert(chunks_view(r@).drop_last() =~= Seq::<Seq<u32>>::empty());
                    assert(concat_chunks(Seq::<Seq<u32>>::empty()) == Seq::<u32>::empty());
                    assert(Seq::<u32>::empty() + v =~= v);
                }
                r
            },
        }
    }

    /// The token IDs of one chunk: its bytes, merged by priority.
    pub fn encode_chunk(&self, chunk: &str) -> (r: Vec<u32>)
        requires
            self.wf(),
        ensures
            r@ == encode_spec(self@, byte_symbols(chunk.spec_bytes())),
            decode_bytes(vocab_of(self@), r@) == chunk.spec_bytes(),
    {
        self.tokenizer.encode(chunk)
    }

    /// Encodes the chunks of `chunks` each on its own.
    fn encode_chunks(&self, chunks: &Vec<Vec<u32>>) -> (r: Vec<Vec<u32>>)
        requires
            self.wf(),
            all_below(concat_chunks(chunks_view(chunks@)), 256 + self@.len()),
        ensures
            chunks_view(r@) == encode_all(self@, chunks_view(chunks@)),
            total_len(chunks_view(r@)) <= concat_chunks(chunks_view(chunks@)).len(),
            forall|k: int| 0 <= k < self@.len() ==> chunks_pair_count(chunks_view(r@), #[trigger] self@[k]) == 0,
            forall|j: int| 0 <= j < r@.len() ==> all_below(#[trigger] r@[j]@, 256 + self@.len()),
            decode_bytes(vocab_of(self@), concat_chunks(chunks_view(r@))) == decode_bytes(
                vocab_of(self@),
                concat_chunks(chunks_view(chunks@)),
            ),
    {
        let ghost cv = chunks_view(chunks@);
        let ghost m = self@;
        proof {
            lemma_concat_chunks_below(cv, 256 + m.len());
        }
        let mut r: Vec<Vec<u32>> = Vec::new();
        let mut j: usize = 0;
        while j < chunks.len()
            invariant
                self.wf(),
                m == self@,
                cv == chunks_view(chunks@),
                j <= chunks@.len(),
                total_len(cv) == concat_chunks(cv).len(),
                forall|i: int| 0 <= i < cv.len() ==> all_below(#[trigger] cv[i], 256 + m.len()),
                chunks_view(r@) == encode_all(m, cv.subrange(0, j as int)),
                total_len(chunks_view(r@)) <= total_len(cv.subrange(0, j as int)),
                forall|k: int| 0 <= k < m.len() ==> chunks_pair_count(chunks_view(r@), #[trigger] m[k]) == 0,
                forall|i: int| 0 <= i < r@.len() ==> all_below(#[trigger] r@[i]@, 256 + m.len()),
                decode_bytes(vocab_of(m), concat_chunks(chunks_view(r@))) == decode_bytes(
                    vocab_of(m),
                    concat_chunks(cv.subrange(0, j as int)),
                ),
            decreases chunks@.len() - j,
        {
            let c = copy_ids(&chunks[j]);
            assert(c@ == cv[j as int]);
            let e = self.tokenizer.encode_ids(c);
            let ghost prev = r@;
            r.push(e);
            proof {
                lemma_encode_len(m, cv[j as int]);
                crate::util::lemma_total_len_prefix(cv, j as int);
                assert(r@ == prev.push(e));
                assert(chunks_view(r@) =~= chunks_view(prev).push(e@));
                assert(cv.subrange(0, j + 1) =~= cv.subrange(0, j as int).push(cv[j as int]));
                lemma_concat_chunks_push(chunks_view(prev), e@);
                lemma_concat_chunks_push(cv.subrange(0, j as int), cv[j as int]);
                lemma_decode_concat(vocab_of(m), concat_chunks(chunks_view(prev)), e@);
                lemma_decode_concat(vocab_of(m), concat_chunks(cv.subrange(0, j as int)), cv[j as int]);
                assert(encode_all(m, cv.subrange(0, j + 1)) =~= encode_all(m, cv.subrange(0, j as int)).push(e@));
                assert forall|i: int| 0 <= i < r@.len() implies all_below(#[trigger] r@[i]@, 256 + m.len()) by {
                    if i < j {
                        assert(r@[i] == prev[i]);
                    }
                }
            }
            j = j + 1;
        }
        assert(cv.subrange(0, j as int) =~= cv);
        r
    }

    /// The token IDs of `text`: each chunk encoded on its own, the results
    /// concatenated in order.
    pub fn encode(&self, text: &str) -> (r: Vec<u32>)
        requires
            self.wf(),
        ensures
            decode_bytes(vocab_of(self@), r@) == text.spec_bytes(),
            all_below(r@, 256 + self@.len()),
            r@ == concat_chunks(encode_all(self@, split_text(self.splitter(), text@))),
    {
        let chunks = self.split(text);
        proof {
            self.tokenizer.lemma_wf();
            lemma_decode_byte_symbols(self@, text.spec_bytes());
        }
        let encoded = self.encode_chunks(&chunks);
        let mut r: Vec<u32> = Vec::new();
        let mut j: usize = 0;
        let ghost ev = chunks_view(encoded@);
        while j < encoded.len()
            invariant
                ev == chunks_view(encoded@),
                j <= encoded@.len(),
                r@ == concat_chunks(ev.subrange(0, j as int)),
                forall|i: int| 0 <= i < encoded@.len() ==> all_below(#[trigger] encoded@[i]@, 256 + self@.len()),
                all_below(r@, 256 + self@.len()),
            decreases encoded@.len() - j,
        {
            let mut e = copy_ids(&encoded[j]);
            let ghost prev = r@;
            r.append(&mut e);
            proof {
                assert(ev.subrange(0, j + 1) =~= ev.subrange(0, j as int).push(ev[j as int]));
                lemma_concat_chunks_push(ev.subrange(0, j as int), ev[j as int]);
                assert(all_below(encoded@[j as int]@, 256 + self@.len()));
                assert forall|i: int| 0 <= i < r@.len() implies #[trigger] r@[i] < 256 + self@.len() by {
                    if i >= prev.len() {
                        assert(r@[i] == ev[j as int][i - prev.len()]);
                    }
                }
            }
            j = j + 1;
        }
        assert(ev.subrange(0, j as int) =~= ev);
        r
    }

    /// Trains on `text`: each chunk, encoded with the merges already in the
    /// table, is a symbol sequence of its own; pairs are counted over all
    /// chunks together and never across two of them. Returns the occurrence
    /// count of each learned pair.
    pub fn train(&mut self, text: &str, vocab_size: u32) -> (counts: Vec<usize>)
        requires
            old(self).wf(),
            vocab_size >= 256,
            old(self)@.len() + vocab_size <= u32::MAX,
        ensures
            final(self).wf(),
            final(self).state().pattern_view() == old(self).state().pattern_view(),
            final(self).splitter() == old(self).splitter(),
            final(self).state().wf(),
            final(self).state()@ == final(self)@,
            final(self)@ == old(self)@ + learn_spec(
                encode_all(old(self)@, split_text(old(self).splitter(), text@)),
                256 + old(self)@.len(),
                (vocab_size - 256) as nat,
            ),
            final(self)@.len() - old(self)@.len() <= vocab_size - 256,
            final(self).state().vocab_view().len() == 256 + final(self)@.len(),
            counts@.len() == final(self)@.len() - old(self)@.len(),
            counts_view(counts@) == learn_counts(
                encode_all(old(self)@, split_text(old(self).splitter(), text@)),
                256 + old(self)@.len(),
                (vocab_size - 256) as nat,
            ),
    {
        let n: usize = text.as_bytes().len();
        let chunks = self.split(text);
        proof {
            self.tokenizer.lemma_wf();
            lemma_decode_byte_symbols(self@, text.spec_bytes());
        }
        let encoded = self.encode_chunks(&chunks);
        let ghost cs = chunks_view(chunks@);
        let counts = self.tokenizer.train_on_chunks(encoded, vocab_size - BYTE_SYMBOLS);
        proof {
            lemma_learn_len(encode_all(old(self)@, cs), 256 + old(self)@.len(), (vocab_size - 256) as nat);
            self.tokenizer.lemma_wf();
            crate::tokenizers::basic::lemma_vocab_of(self@);
        }
        counts
    }

    /// The text of `ids`, as the wrapped tokenizer decodes it.
    pub fn decode(&self, ids: &[u32]) -> (r: String)
        requires
            self.wf(),
        ensures
            valid_utf8(decode_bytes(vocab_of(self@), ids@)) ==> r@ == decode_utf8(
                decode_bytes(vocab_of(self@), ids@),
            ),
            !valid_utf8(decode_bytes(vocab_of(self@), ids@)) ==> r@.len() >= DECODE_ERROR_PREFIX@.len()
                && r@.subrange(0, DECODE_ERROR_PREFIX@.len() as int) == DECODE_ERROR_PREFIX@,
    {
        self.tokenizer.decode(ids)
    }

    /// Loads a model text into the wrapped state, as
    /// `Tokenizer::load_model_text` does.
    pub fn load_model_text(&mut self, text: &str) -> (r: Result<(), TableError>)
        requires
            old(self).wf(),
        ensures
            final(self).wf(),
            r is Ok <==> merges_wf(model_pairs(text@)),
            r is Ok ==> final(self)@ == model_pairs(text@) && final(self).state().pattern_view()
                == model_pattern(text@),
            r is Err ==> final(self)@ == old(self)@ && final(self).state().pattern_view() == old(
                self,
            ).state().pattern_view(),
            final(self).splitter() == old(self).splitter(),
            final(self).state().wf(),
            final(self).state()@ == final(self)@,
            r is Ok ==> final(self).state().vocab_view() == vocab_of(model_pairs(text@)),
    {
        let r = self.tokenizer.load_model_text(text);
        proof {
            self.tokenizer.lemma_wf();
        }
        r
    }
}

} // verus!
