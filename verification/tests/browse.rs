use fff::browse::{check_index_request, sort_listing, AppError, DirEntry};
use fff::indexing::IndexStatus;

fn entry(name: &str, path: &str, is_dir: bool) -> DirEntry {
    DirEntry {
        name: name.to_string(),
        path: path.to_string(),
        is_dir,
        size: None,
        modified: None,
        tags: Vec::new(),
    }
}

#[test]
fn listing_puts_directories_first_then_names() {
    let sorted = sort_listing(vec![
        entry("b.txt", "/b.txt", false),
        entry("zeta", "/zeta", true),
        entry("A.txt", "/A.txt", false),
        entry("alpha", "/alpha", true),
        entry("a.txt", "/a.txt", false),
    ]);
    let names: Vec<&str> = sorted.iter().map(|e| e.name.as_str()).collect();
    assert_eq!(names, vec!["alpha", "zeta", "A.txt", "a.txt", "b.txt"]);
}

#[test]
fn listing_sort_is_stable() {
    let sorted = sort_listing(vec![
        entry("same", "/first", false),
        entry("other", "/o", false),
        entry("same", "/second", false),
    ]);
    let paths: Vec<&str> = sorted.iter().map(|e| e.path.as_str()).collect();
    assert_eq!(paths, vec!["/o", "/first", "/second"]);
}

#[test]
fn listing_orders_like_string_comparison() {
    let names = ["\u{e9}t\u{e9}", "ete", "Z", "", "et", "\u{1f600}", "a\u{0}"];
    let sorted = sort_listing(names.iter().map(|n| entry(n, n, false)).collect());
    let got: Vec<String> = sorted.into_iter().map(|e| e.name).collect();
    let mut expected: Vec<String> = names.iter().map(|n| n.to_string()).collect();
    expected.sort();
    assert_eq!(got, expected);
    assert!(sort_listing(Vec::new()).is_empty());
}

#[test]
fn index_request_refused_while_running() {
    let mut s = IndexStatus::default();
    s.begin(1);
    match check_index_request(&s, "/x", true) {
        Err(AppError::Other(m)) => assert_eq!(m, "Indexing already in progress"),
        _ => panic!("expected a refusal"),
    }
}

#[test]
fn index_request_refused_for_non_directory() {
    let s = IndexStatus::default();
    match check_index_request(&s, "/x.txt", false) {
        Err(AppError::Other(m)) => assert_eq!(m, "Not a directory: /x.txt"),
        _ => panic!("expected a refusal"),
    }
    assert!(check_index_request(&s, "/x", true).is_ok());
}
