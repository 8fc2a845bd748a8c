use fff::store::{alternate_path, normalize_tags, retry_delete_path, search_pattern, TagSource};

#[test]
fn normalize_tags_trims_lowercases_and_drops_empty() {
    let tags = vec![
        "  Rust ".to_string(),
        "".to_string(),
        " \t\u{3000}".to_string(),
        "PDF".to_string(),
        "Two Words".to_string(),
    ];
    assert_eq!(normalize_tags(&tags), vec!["rust", "pdf", "two words"]);
}

#[test]
fn stored_tags_are_never_empty() {
    let tags = vec![" ".to_string(), "\n".to_string(), "x".to_string()];
    let stored = normalize_tags(&tags);
    assert!(stored.iter().all(|t| !t.is_empty()));
    assert_eq!(stored, vec!["x"]);
}

#[test]
fn search_pattern_lowercases_and_wraps() {
    assert_eq!(search_pattern("Cat"), "%cat%");
    assert_eq!(search_pattern(""), "%%");
}

#[test]
fn alternate_path_strips_or_adds_private() {
    assert_eq!(alternate_path("/private/Users/me/a.txt"), "/Users/me/a.txt");
    assert_eq!(alternate_path("/Users/me/a.txt"), "/private/Users/me/a.txt");
    assert_eq!(alternate_path("/private"), "");
    assert_eq!(alternate_path("/priv"), "/private/priv");
}

#[test]
fn alternate_path_round_trips() {
    for p in ["/Users/a", "/private/Users/a", "", "/privateer"] {
        assert_eq!(alternate_path(&alternate_path(p)), p);
    }
    // The one kind of path that does not come back.
    assert_eq!(alternate_path(&alternate_path("/private/private/x")), "/x");
}

#[test]
fn retry_delete_only_when_nothing_deleted() {
    assert_eq!(retry_delete_path("/a", 0), Some("/private/a".to_string()));
    assert_eq!(retry_delete_path("/private/a", 0), Some("/a".to_string()));
    assert_eq!(retry_delete_path("/a", 1), None);
}

#[test]
fn tag_sources_are_spelled_as_in_the_table() {
    assert_eq!(TagSource::Auto.as_string(), "auto");
    assert_eq!(TagSource::Ai.as_string(), "ai");
}
