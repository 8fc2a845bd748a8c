use fff::tagging::{build_prompt, image_tag_request, parse_tags, text_tag_request};

const INTRO: &str = "You are a file tagging assistant. Given the filename and optional content preview, output ONLY a comma-separated list of 3-8 short, lowercase, one-or-two-word tags. No explanations, no numbering, no quotes, no brackets \u{2014} just the tags.\n\nFilename: ";

#[test]
fn parse_tags_splits_on_commas() {
    assert_eq!(parse_tags("cat, pet, indoor"), vec!["cat", "pet", "indoor"]);
}

#[test]
fn parse_tags_strips_list_punctuation_and_newlines() {
    let raw = "['Cat', \"Dog\"]\nBig  Fluffy \t Animal";
    assert_eq!(parse_tags(raw), vec!["cat", "dog", "big fluffy animal"]);
}

#[test]
fn parse_tags_drops_run_on_phrases() {
    assert_eq!(parse_tags("one two three four, ok"), vec!["ok"]);
    assert_eq!(parse_tags("one two three"), vec!["one two three"]);
}

#[test]
fn parse_tags_drops_tags_of_fifty_bytes_or_more() {
    let long = "a".repeat(50);
    let shorter = "b".repeat(49);
    let raw = format!("{},{}", long, shorter);
    assert_eq!(parse_tags(&raw), vec![shorter]);
}

#[test]
fn parse_tags_counts_bytes_not_characters() {
    // 25 two-byte characters make 50 bytes: dropped; 24 make 48: kept.
    let long = "\u{e9}".repeat(25);
    let shorter = "\u{e9}".repeat(24);
    let raw = format!("{}\n{}", long, shorter);
    assert_eq!(parse_tags(&raw), vec![shorter]);
}

#[test]
fn parse_tags_drops_empty_pieces() {
    assert!(parse_tags(",, \n,'' ,[]").is_empty());
    assert!(parse_tags("").is_empty());
}

#[test]
fn parse_tags_collapses_unicode_blanks_and_lowercases() {
    assert_eq!(parse_tags("NEW\u{a0}\u{3000}YORK"), vec!["new york"]);
    assert_eq!(parse_tags("\u{c9}COLE"), vec!["\u{e9}cole"]);
}

#[test]
fn build_prompt_without_preview() {
    let p = build_prompt("notes.txt", "txt", None);
    assert_eq!(p, format!("{}notes.txt\nExtension: txt", INTRO));
}

#[test]
fn build_prompt_ignores_blank_preview() {
    let p = build_prompt("notes.txt", "txt", Some(" \n\t "));
    assert_eq!(p, format!("{}notes.txt\nExtension: txt", INTRO));
}

#[test]
fn build_prompt_with_preview() {
    let p = build_prompt("a.md", "md", Some("hello"));
    assert_eq!(
        p,
        format!(
            "{}a.md\nExtension: md\n\nFirst 2000 characters of file content:\n```\nhello\n```",
            INTRO
        )
    );
}

#[test]
fn build_prompt_cuts_preview_at_2000_bytes() {
    let preview = "x".repeat(2500);
    let p = build_prompt("a.txt", "txt", Some(&preview));
    let expected = format!(
        "{}a.txt\nExtension: txt\n\nFirst 2000 characters of file content:\n```\n{}\n```",
        INTRO,
        "x".repeat(2000)
    );
    assert_eq!(p, expected);
    // Two-byte characters: byte 2000 starts the 1001st character.
    let wide = "\u{e9}".repeat(1500);
    let p = build_prompt("b.txt", "txt", Some(&wide));
    assert!(p.ends_with(&format!("```\n{}\n```", "\u{e9}".repeat(1000))));
}

#[test]
fn text_tag_request_uses_text_model() {
    let r = text_tag_request("a.rs", "rs", None);
    assert_eq!(r.model, "llama3.2");
    assert!(!r.stream);
    assert_eq!(r.prompt, build_prompt("a.rs", "rs", None));
}

#[test]
fn image_tag_request_attaches_base64() {
    let r = image_tag_request("cat.jpg", b"hi");
    assert_eq!(r.model, "moondream");
    assert!(!r.stream);
    assert_eq!(r.images, vec!["aGk=".to_string()]);
    assert_eq!(
        r.prompt,
        "You are a file tagging assistant. The image filename is 'cat.jpg'. Output ONLY a comma-separated list of 3-6 short, lowercase, one-or-two-word tags. Describe what the main subject IS and its context (e.g. cat, pet, indoor, portrait). Focus on subjects and categories \u{2014} not body parts or low-level details. No quotes, no brackets, no explanations \u{2014} just the tags."
    );
    let r = image_tag_request("x.png", b"");
    assert_eq!(r.images, vec![String::new()]);
    let r = image_tag_request("x.png", &[0xff, 0x00, 0x10, 0x20]);
    assert_eq!(r.images, vec!["/wAQIA==".to_string()]);
}
