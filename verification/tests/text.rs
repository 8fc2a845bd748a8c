use fff::text::{is_blank, is_space_char, join_with_spaces, trim_of, utf8_len_below, utf8_width, words_of};

fn all_chars() -> impl Iterator<Item = char> {
    (0u32..=0x10FFFF).filter_map(char::from_u32)
}

#[test]
fn blanks_are_the_unicode_white_space_set() {
    for c in all_chars() {
        assert_eq!(is_space_char(c), c.is_whitespace(), "{:?}", c);
    }
}

#[test]
fn utf8_width_matches_len_utf8() {
    for c in all_chars() {
        assert_eq!(utf8_width(c), c.len_utf8());
    }
}

#[test]
fn utf8_len_below_counts_bytes() {
    let s: Vec<char> = "a\u{e9}\u{20ac}\u{1f600}".chars().collect();
    // 1 + 2 + 3 + 4 bytes.
    assert!(utf8_len_below(&s, 11));
    assert!(!utf8_len_below(&s, 10));
    assert!(!utf8_len_below(&Vec::new(), 0));
    assert!(utf8_len_below(&Vec::new(), 1));
}

#[test]
fn words_and_trim_match_std() {
    for s in ["", "  ", " a  b\tc\n", "\u{3000}x\u{a0}y ", "one", "a\u{85}b"] {
        let cs: Vec<char> = s.chars().collect();
        let words: Vec<String> = words_of(&cs).into_iter().map(|w| w.into_iter().collect()).collect();
        let std_words: Vec<String> = s.split_whitespace().map(|w| w.to_string()).collect();
        assert_eq!(words, std_words);
        let joined: String = join_with_spaces(&words_of(&cs)).into_iter().collect();
        assert_eq!(joined, std_words.join(" "));
        let trimmed: String = trim_of(&cs).into_iter().collect();
        assert_eq!(trimmed, s.trim());
        assert_eq!(is_blank(s), s.trim().is_empty());
    }
}
