use rbpe::util::{get_stats, merge, render_token, replace_control_characters};

#[test]
fn test_get_stats() {
    let ids = vec![1, 2, 1, 2, 3, 1, 2];
    let stats = get_stats(&ids);
    assert_eq!(stats.get(&(1, 2)), Some(&3)); // Appears 3 times
    assert_eq!(stats.get(&(2, 1)), Some(&1)); // Appears 1 time
    assert_eq!(stats.get(&(2, 3)), Some(&1)); // Appears 1 time
    assert_eq!(stats.get(&(3, 1)), Some(&1)); // Appears 1 time
    assert_eq!(stats.len(), 4); // Only 4 unique pairs
}

#[test]
fn test_merge() {
    let ids = vec![1, 2, 1, 2, 3, 1, 2];
    let pair = (1, 2);
    let new_id = 256;
    let merged_ids = merge(ids, pair, new_id);
    assert_eq!(merged_ids, vec![256, 256, 3, 256]); // Pair (1, 2) replaced by 256
}

#[test]
fn test_replace_control_characters() {
    let input = "\u{0007}Hello, \u{0009}world!\u{000A}";
    let expected = "\\u0007Hello, \\u0009world!\\u000a";
    assert_eq!(replace_control_characters(input), expected);

    let input = "Hello, world!";
    let expected = "Hello, world!";
    assert_eq!(replace_control_characters(input), expected);

    let input = "";
    let expected = "";
    assert_eq!(replace_control_characters(input), expected);

    let input = "\u{0000}\u{001F}";
    let expected = "\\u0000\\u001f";
    assert_eq!(replace_control_characters(input), expected);
}

#[test]
fn test_render_token() {
    let token = &[0x00, 0x1F, 0x20, 0x7F];
    assert_eq!(render_token(token), "\\x00\\x1f \\x7f");

    let token = b"Hello, world!";
    assert_eq!(render_token(token), "Hello, world!");

    let token = &[0x00, b'H', b'e', b'l', b'l', b'o', 0x7F];
    assert_eq!(render_token(token), "\\x00Hello\\x7f");

    let token: &[u8] = &[];
    assert_eq!(render_token(token), "");
}

#[test]
fn merge_overlapping_pair_is_greedy() {
    assert_eq!(merge(vec![5, 5, 5], (5, 5), 300), vec![300, 5]);
    assert_eq!(merge(vec![5, 5, 5, 5], (5, 5), 300), vec![300, 300]);
    assert_eq!(merge(vec![], (5, 5), 300), Vec::<u32>::new());
}

#[test]
fn stats_of_short_sequences_are_empty() {
    assert_eq!(get_stats(&[]).len(), 0);
    assert_eq!(get_stats(&[7]).len(), 0);
    assert_eq!(get_stats(&[7, 7]).get(&(7, 7)), Some(&1));
    assert_eq!(get_stats(&[7, 7]).get(&(7, 8)), None);
}

#[test]
fn render_token_shows_high_bytes_as_latin1() {
    assert_eq!(render_token(&[0xE9, 0x0A]), "\u{e9}\\x0a");
}

#[test]
fn replace_control_characters_escapes_c1_controls() {
    assert_eq!(replace_control_characters("a\u{0085}b\u{00a0}"), "a\\u0085b\u{00a0}");
    assert_eq!(replace_control_characters("\u{007f}"), "\\u007f");
}
