//! Byte-pair-encoding tokenizer: training, encoding, decoding and the text
//! form of a learned model, with contracts proved by Verus.
use vstd::prelude::*;
use vstd::string::StringSliceAdditionalSpecFns;
use vstd::utf8::{decode_utf8, encode_utf8, valid_utf8};

pub mod laws;
pub mod model;
pub mod tokenizers;
pub mod util;

use crate::tokenizers::basic::{byte_symbols, encode_spec, learn_spec, vocab_of, Tokenizer};
use crate::tokenizers::regex::{encode_all, split_text, RegexTokenizer};
use crate::util::{concat_chunks, decode_bytes};

verus! {

/// What both tokenizer variants offer: training that extends the merge
/// table, encoding whose IDs decode to the text's bytes, and decoding.
pub trait TokenizerTrait: Sized {
    /// The state's invariant holds.
    spec fn well_formed(&self) -> bool;

    /// The merge table, in the order the merges were learned.
    spec fn table(&self) -> Seq<(u32, u32)>;

    /// The merges that training on `text` with target size `vocab_size`
    /// appends to the table.
    spec fn learned(&self, text: Seq<char>, vocab_size: u32) -> Seq<(u32, u32)>;

    /// The token IDs that encoding `text` gives.
    spec fn encoded(&self, text: Seq<char>) -> Seq<u32>;

    fn train(&mut self, text: &str, vocab_size: u32) -> (counts: Vec<usize>)
        requires
            old(self).well_formed(),
            vocab_size >= 256,
            old(self).table().len() + vocab_size <= u32::MAX,
        ensures
            final(self).well_formed(),
            final(self).table().len() - old(self).table().len() <= vocab_size - 256,
            final(self).table().subrange(0, old(self).table().len() as int) == old(self).table(),
            final(self).table() == old(self).table() + old(self).learned(text@, vocab_size),
            counts@.len() == final(self).table().len() - old(self).table().len(),
    ;

    fn encode(&self, text: &str) -> (r: Vec<u32>)
        requires
            self.well_formed(),
        ensures
            r@ == self.encoded(text@),
            decode_bytes(vocab_of(self.table()), r@) == text.spec_bytes(),
    ;

    fn decode(&self, ids: &[u32]) -> (r: String)
        requires
            self.well_formed(),
        ensures
            valid_utf8(decode_bytes(vocab_of(self.table()), ids@)) ==> r@ == decode_utf8(
                decode_bytes(vocab_of(self.table()), ids@),
            ),
    ;
}

impl TokenizerTrait for Tokenizer {
    open spec fn well_formed(&self) -> bool {
        self.wf()
    }

    open spec fn table(&self) -> Seq<(u32, u32)> {
        self@
    }

    open spec fn learned(&self, text: Seq<char>, vocab_size: u32) -> Seq<(u32, u32)> {
        learn_spec(
            seq![encode_spec(self@, byte_symbols(encode_utf8(text)))],
            256 + self@.len(),
            (vocab_size - 256) as nat,
        )
    }

    open spec fn encoded(&self, text: Seq<char>) -> Seq<u32> {
        encode_spec(self@, byte_symbols(encode_utf8(text)))
    }

    fn train(&mut self, text: &str, vocab_size: u32) -> (counts: Vec<usize>) {
        let counts = Tokenizer::train(self, text, vocab_size);
        assert(self@.subrange(0, old(self)@.len() as int) =~= old(self)@);
        counts
    }

    fn encode(&self, text: &str) -> (r: Vec<u32>) {
        Tokenizer::encode(self, text)
    }

    fn decode(&self, ids: &[u32]) -> (r: String) {
        Tokenizer::decode(self, ids)
    }
}

impl TokenizerTrait for RegexTokenizer {
    open spec fn well_formed(&self) -> bool {
        self.wf()
    }

    open spec fn table(&self) -> Seq<(u32, u32)> {
        self@
    }

    open spec fn learned(&self, text: Seq<char>, vocab_size: u32) -> Seq<(u32, u32)> {
        learn_spec(
            encode_all(self@, split_text(self.splitter(), text)),
            256 + self@.len(),
            (vocab_size - 256) as nat,
        )
    }

    open spec fn encoded(&self, text: Seq<char>) -> Seq<u32> {
        concat_chunks(encode_all(self@, split_text(self.splitter(), text)))
    }

    fn train(&mut self, text: &str, vocab_size: u32) -> (counts: Vec<usize>) {
        let counts = RegexTokenizer::train(self, text, vocab_size);
        assert(self@.subrange(0, old(self)@.len() as int) =~= old(self)@);
        counts
    }

    fn encode(&self, text: &str) -> (r: Vec<u32>) {
        RegexTokenizer::encode(self, text)
    }

    fn decode(&self, ids: &[u32]) -> (r: String) {
        RegexTokenizer::decode(self, ids)
    }
}

} // verus!
