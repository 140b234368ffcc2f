use rbpe::tokenizers::basic::Tokenizer;
use rbpe::tokenizers::regex::RegexTokenizer;
use rbpe::util::get_stats;
use rbpe::TokenizerTrait;

#[test]
fn test_new_tokenizer() {
    let tokenizer = Tokenizer::new();
    assert!(tokenizer.merges().is_empty());
    assert_eq!(tokenizer.vocab().len(), 256);
    assert!(tokenizer.pattern().is_empty());
}

#[test]
fn test_build_vocab_basic() {
    let mut tokenizer = Tokenizer::new();
    tokenizer.build_vocab();
    assert_eq!(tokenizer.vocab().len(), 256);
}

#[test]
fn basic_test_encode_decode() {
    let test_strings = ["", "?", "hello world!!!? (안녕하세요!) lol123 😉"];
    let tokenizer = Tokenizer::new();
    for test_string in test_strings {
        let ids = tokenizer.encode(test_string);
        let decoded = tokenizer.decode(&ids);
        assert_eq!(test_string, decoded);
    }
}

#[test]
fn training_learns_most_frequent_pair_first() {
    let mut tokenizer = Tokenizer::new();
    let counts = tokenizer.train("aaabdaaabac", 258);
    assert_eq!(tokenizer.merges()[0], (97, 97));
    assert_eq!(counts[0], 4);
    assert_eq!(tokenizer.merges().len(), 2);
    assert_eq!(tokenizer.vocab().len(), 258);
    assert_eq!(tokenizer.vocab()[256], b"aa".to_vec());
    let ids = tokenizer.encode("aaabdaaabac");
    assert_eq!(tokenizer.decode(&ids), "aaabdaaabac");
    assert!(ids.len() < 11);
}

#[test]
fn training_breaks_ties_lexicographically() {
    let mut tokenizer = Tokenizer::new();
    tokenizer.train("abcd", 257);
    assert_eq!(tokenizer.merges(), &vec![(97, 98)]);
    assert_eq!(tokenizer.encode("abcd"), vec![256, 99, 100]);
}

#[test]
fn training_stops_when_no_pair_is_left() {
    let mut tokenizer = Tokenizer::new();
    let counts = tokenizer.train("ab", 300);
    assert_eq!(tokenizer.merges(), &vec![(97, 98)]);
    assert_eq!(counts, vec![1]);
    assert_eq!(tokenizer.vocab().len(), 257);
    let mut empty = Tokenizer::new();
    empty.train("", 300);
    assert!(empty.merges().is_empty());
}

#[test]
fn training_with_target_256_learns_nothing() {
    let mut tokenizer = Tokenizer::new();
    tokenizer.train("hello hello", 256);
    assert!(tokenizer.merges().is_empty());
    assert_eq!(tokenizer.vocab().len(), 256);
}

#[test]
fn training_twice_gives_same_table() {
    let text = "the cat sat on the mat with the hat";
    let mut a = Tokenizer::new();
    let mut b = Tokenizer::new();
    a.train(text, 270);
    b.train(text, 270);
    assert_eq!(a.merges(), b.merges());
    assert_eq!(a.vocab(), b.vocab());
}

#[test]
fn learned_ids_increase() {
    let mut tokenizer = Tokenizer::new();
    tokenizer.train("abababcbcbcbdede", 262);
    for (k, &(a, b)) in tokenizer.merges().iter().enumerate() {
        let id = 256 + k as u32;
        assert!(a < id && b < id);
        let mut bytes = tokenizer.vocab()[a as usize].clone();
        bytes.extend_from_slice(&tokenizer.vocab()[b as usize]);
        assert_eq!(tokenizer.vocab()[id as usize], bytes);
    }
}

#[test]
fn second_training_extends_table() {
    let mut tokenizer = Tokenizer::new();
    tokenizer.train("aaaa", 257);
    assert_eq!(tokenizer.merges(), &vec![(97, 97)]);
    tokenizer.train("aaaa", 257);
    assert_eq!(tokenizer.merges(), &vec![(97, 97), (256, 256)]);
    assert_eq!(tokenizer.encode("aaaa"), vec![257]);
    assert_eq!(tokenizer.vocab()[257], b"aaaa".to_vec());
}

#[test]
fn encode_applies_earliest_merge_first() {
    let mut tokenizer = Tokenizer::new();
    tokenizer.train("abcabcabc", 258);
    assert_eq!(tokenizer.merges(), &vec![(97, 98), (256, 99)]);
    assert_eq!(tokenizer.encode("abcab"), vec![257, 256]);
}

#[test]
fn decode_skips_unknown_ids_and_reports_invalid_utf8() {
    let tokenizer = Tokenizer::new();
    assert_eq!(tokenizer.decode(&[104, 999, 105]), "hi");
    let message = tokenizer.decode(&[0xff]);
    assert!(message.starts_with("Error decoding text: "));
}

#[test]
fn round_trip_after_training() {
    let mut tokenizer = Tokenizer::new();
    tokenizer.train("hello world!!!? (안녕하세요!) lol123 😉 hello hello", 300);
    for text in ["", "?", "hello world!!!? (안녕하세요!) lol123 😉", "ééé", "new text"] {
        let ids = tokenizer.encode(text);
        assert_eq!(tokenizer.decode(&ids), text);
    }
}

#[test]
fn stats_count_pairs_of_training_bytes() {
    let ids: Vec<u32> = "aaabdaaabac".bytes().map(|b| b as u32).collect();
    let stats = get_stats(&ids);
    assert_eq!(stats.get(&(97, 97)), Some(&4));
    assert_eq!(Tokenizer::new().find_most_frequent_pair(&stats), Some((97, 97)));
}

#[test]
fn both_variants_serve_the_shared_interface() {
    let mut basic = Tokenizer::new();
    let mut regex = RegexTokenizer::new();
    let text = "to be or not to be";
    assert_eq!(TokenizerTrait::train(&mut basic, text, 260).len(), 4);
    assert_eq!(TokenizerTrait::train(&mut regex, text, 260).len(), 4);
    for t in [text, "bee"] {
        assert_eq!(TokenizerTrait::decode(&basic, &TokenizerTrait::encode(&basic, t)), t);
        assert_eq!(TokenizerTrait::decode(&regex, &TokenizerTrait::encode(&regex, t)), t);
    }
}
