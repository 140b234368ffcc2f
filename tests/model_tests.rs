use rbpe::tokenizers::basic::{TableError, Tokenizer};
use rbpe::tokenizers::regex::RegexTokenizer;

fn create_temp_tokenizer() -> Tokenizer {
    let mut tokenizer = Tokenizer::new();
    tokenizer.set_merges(vec![(1, 2)]).unwrap();
    tokenizer.set_pattern("some pattern".to_string());
    tokenizer
}

#[test]
fn test_save_and_load() {
    let tokenizer = create_temp_tokenizer();
    let text = tokenizer.model_text();

    let mut load_tokenizer = Tokenizer::new();
    load_tokenizer.load_model_text(&text).unwrap();
    assert_eq!(load_tokenizer.merges(), tokenizer.merges());
    assert_eq!(load_tokenizer.pattern(), tokenizer.pattern());
}

#[test]
fn model_text_lists_pattern_then_merges() {
    assert_eq!(create_temp_tokenizer().model_text(), "some pattern\n1 2\n");
    assert_eq!(Tokenizer::new().model_text(), "\n");
}

#[test]
fn load_skips_malformed_lines() {
    let mut tokenizer = Tokenizer::new();
    tokenizer.load_model_text("  p  \n1 2\nx y\n1 2 3\n\n  97   97 \n+5 6\n4294967296 1\n").unwrap();
    assert_eq!(tokenizer.pattern(), "p");
    assert_eq!(tokenizer.merges(), &vec![(1, 2), (97, 97), (5, 6)]);
    assert_eq!(tokenizer.vocab().len(), 259);
    assert_eq!(tokenizer.vocab()[257], b"aa".to_vec());
}

#[test]
fn load_accepts_crlf_lines() {
    let mut tokenizer = Tokenizer::new();
    tokenizer.load_model_text("p\r\n1 2\r\n").unwrap();
    assert_eq!(tokenizer.pattern(), "p");
    assert_eq!(tokenizer.merges(), &vec![(1, 2)]);
}

#[test]
fn load_rejects_unknown_operand() {
    let mut tokenizer = Tokenizer::new();
    tokenizer.train("aaaa", 257);
    assert_eq!(tokenizer.load_model_text("p\n300 1\n"), Err(TableError::UnknownOperand(0)));
    assert_eq!(tokenizer.merges(), &vec![(97, 97)]);
    assert_eq!(tokenizer.pattern(), "");
}

#[test]
fn load_rejects_duplicate_pair() {
    let mut tokenizer = Tokenizer::new();
    assert_eq!(tokenizer.load_model_text("p\n1 2\n1 2\n"), Err(TableError::DuplicatePair(1)));
    assert!(tokenizer.merges().is_empty());
}

#[test]
fn set_merges_rejects_unknown_operand() {
    let mut tokenizer = Tokenizer::new();
    assert_eq!(tokenizer.set_merges(vec![(1, 256)]), Err(TableError::UnknownOperand(0)));
    assert_eq!(tokenizer.set_merges(vec![(1, 2), (256, 256)]), Ok(()));
    assert_eq!(tokenizer.vocab()[257], vec![1, 2, 1, 2]);
}

#[test]
fn trained_model_round_trips() {
    let mut tokenizer = Tokenizer::new();
    tokenizer.train("the quick brown fox jumps over the lazy dog the end", 280);
    let mut loaded = Tokenizer::new();
    loaded.load_model_text(&tokenizer.model_text()).unwrap();
    assert_eq!(loaded.merges(), tokenizer.merges());
    assert_eq!(loaded.vocab(), tokenizer.vocab());
    assert_eq!(loaded.encode("the fox"), tokenizer.encode("the fox"));
}

#[test]
fn regex_model_keeps_pattern() {
    let mut tokenizer = RegexTokenizer::new();
    tokenizer.train("hello hello world", 260);
    let text = tokenizer.tokenizer().model_text();
    let mut loaded = Tokenizer::new();
    loaded.load_model_text(&text).unwrap();
    assert_eq!(loaded.pattern(), tokenizer.tokenizer().pattern());
    assert_eq!(loaded.merges(), tokenizer.tokenizer().merges());
}

#[test]
fn vocab_text_renders_each_id() {
    let tokenizer = create_temp_tokenizer();
    let listing = tokenizer.vocab_text();
    assert!(listing.starts_with("0 [\\x00]\n1 [\\x01]\n"));
    assert!(listing.contains("\n65 [A]\n"));
    assert!(listing.contains("\n127 [\\x7f]\n"));
    assert!(listing.ends_with("\n256 [\\x01\\x02]\n"));
    assert_eq!(listing.lines().count(), 257);
}

#[test]
fn regex_tokenizer_loads_model_text() {
    let mut tokenizer = RegexTokenizer::new();
    tokenizer.load_model_text("p\n104 105\n").unwrap();
    assert_eq!(tokenizer.tokenizer().pattern(), "p");
    assert_eq!(tokenizer.encode("hi hi"), vec![256, 32, 256]);
}
