use rbpe::tokenizers::regex::RegexTokenizer;

#[test]
fn regex_test_encode_decode() {
    let test_strings = ["", "?", "hello world!!!? (안녕하세요!) lol123 😉"];
    let tokenizer = RegexTokenizer::new();
    for test_string in test_strings {
        let ids = tokenizer.encode(test_string);
        let decoded = tokenizer.decode(&ids);
        assert_eq!(test_string, decoded);
    }
}

#[test]
fn regex_tokenizer_starts_with_default_pattern() {
    let tokenizer = RegexTokenizer::new();
    assert!(tokenizer.tokenizer().merges().is_empty());
    assert_eq!(tokenizer.tokenizer().vocab().len(), 256);
    assert!(!tokenizer.tokenizer().pattern().is_empty());
}

#[test]
fn regex_training_never_merges_across_chunks() {
    let mut tokenizer = RegexTokenizer::new();
    tokenizer.train("ab cd ab cd", 270);
    for &(a, b) in tokenizer.tokenizer().merges() {
        let mut bytes = tokenizer.tokenizer().vocab()[a as usize].clone();
        bytes.extend_from_slice(&tokenizer.tokenizer().vocab()[b as usize]);
        // a chunk is a letter run with at most one leading space
        assert!(!bytes[1..].contains(&b' '));
    }
}

#[test]
fn regex_round_trip_after_training() {
    let mut tokenizer = RegexTokenizer::new();
    let text = "hello world!!!? (안녕하세요!) lol123 😉 hello world don't 12345";
    let counts = tokenizer.train(text, 280);
    assert_eq!(counts.len(), tokenizer.tokenizer().merges().len());
    assert_eq!(tokenizer.tokenizer().vocab().len(), 256 + counts.len());
    for t in ["", "?", text, "worlds hello\n\n  x"] {
        let ids = tokenizer.encode(t);
        assert_eq!(tokenizer.decode(&ids), t);
    }
}

#[test]
fn regex_encode_chunk_uses_priority() {
    let mut tokenizer = RegexTokenizer::new();
    tokenizer.train("aaaa aaaa", 258);
    assert_eq!(tokenizer.tokenizer().merges()[0], (97, 97));
    assert_eq!(tokenizer.encode_chunk("aaaa"), vec![257]);
    assert_eq!(tokenizer.encode("aaaa aaaa").len(), 3);
}

#[test]
fn regex_training_on_two_chunks_stops_early() {
    let mut tokenizer = RegexTokenizer::new();
    let counts = tokenizer.train("ab cd", 300);
    let state = tokenizer.tokenizer();
    assert_eq!(state.merges().len(), 3);
    assert_eq!(counts, vec![1, 1, 1]);
    assert!(!state.merges().contains(&(98, 32)));
    for id in 256..259 {
        let token = state.vocab()[id].clone();
        assert!([b"ab".to_vec(), b" c".to_vec(), b"cd".to_vec(), b" cd".to_vec()].contains(&token));
    }
}

#[test]
fn regex_training_twice_gives_same_table() {
    let text = "the cat sat on the mat, the cat sat";
    let mut a = RegexTokenizer::new();
    let mut b = RegexTokenizer::new();
    a.train(text, 270);
    b.train(text, 270);
    assert_eq!(a.tokenizer().merges(), b.tokenizer().merges());
    assert_eq!(a.tokenizer().vocab(), b.tokenizer().vocab());
}
