use fff::indexing::{
    decimal_of, is_image_ext, is_text_ext, plan_index, preview_text, previewable, tag_batches,
    IndexStatus, TaggingKind,
};
use fff::store::TagSource;

#[test]
fn status_run_from_start_to_finish() {
    let mut s = IndexStatus::default();
    assert_eq!((s.total, s.indexed, s.is_running), (0, 0, false));
    assert_eq!(s.current_file, "");
    s.begin(3);
    assert_eq!((s.total, s.indexed, s.is_running), (3, 0, true));
    assert_eq!(s.current_file, "Found 3 files\u{2026}");
    s.progress(0, Some("a.txt".to_string()));
    assert_eq!((s.indexed, s.current_file.as_str()), (0, "a.txt"));
    s.progress(2, None);
    assert_eq!((s.indexed, s.current_file.as_str()), (2, ""));
    assert!(s.indexed <= s.total);
    s.finish();
    assert_eq!((s.total, s.indexed, s.is_running), (3, 3, false));
    assert_eq!(s.current_file, "Indexing complete");
}

#[test]
fn status_counts_large_totals() {
    let mut s = IndexStatus::default();
    s.begin(1_234_567);
    assert_eq!(s.current_file, "Found 1234567 files\u{2026}");
    s.begin(0);
    assert_eq!(s.current_file, "Found 0 files\u{2026}");
}

#[test]
fn decimal_matches_display() {
    for n in [0usize, 7, 10, 99, 100, 4096, usize::MAX] {
        let s: String = decimal_of(n).into_iter().collect();
        assert_eq!(s, n.to_string());
    }
}

#[test]
fn plan_index_image_and_text() {
    let p = plan_index(Some("Photo.JPG".to_string()), Some("JPG".to_string())).unwrap();
    assert_eq!(p.name, "Photo.JPG");
    assert_eq!(p.ext.as_deref(), Some("jpg"));
    assert!(matches!(p.kind, TaggingKind::Image));
    let p = plan_index(Some("notes.md".to_string()), Some("md".to_string())).unwrap();
    assert!(matches!(p.kind, TaggingKind::Text));
    let p = plan_index(Some("Makefile".to_string()), None).unwrap();
    assert_eq!(p.ext, None);
    assert!(matches!(p.kind, TaggingKind::Text));
    assert!(plan_index(None, Some("png".to_string())).is_none());
}

#[test]
fn extension_lists() {
    for e in ["jpg", "jpeg", "png", "gif", "webp", "bmp"] {
        assert!(is_image_ext(e));
    }
    assert!(!is_image_ext("JPG"));
    assert!(!is_image_ext("svg"));
    assert!(!is_image_ext(""));
    assert!(is_text_ext("swift"));
    assert!(is_text_ext("c"));
    assert!(!is_text_ext("pdf"));
}

#[test]
fn previewable_lowercases_extension() {
    assert!(previewable(Some("RS")));
    assert!(previewable(Some("toml")));
    assert!(!previewable(Some("exe")));
    assert!(!previewable(None));
}

#[test]
fn preview_text_requires_whole_utf8() {
    assert_eq!(preview_text(b"hello".to_vec()), Some("hello".to_string()));
    let mut cut = "h\u{e9}".as_bytes().to_vec();
    cut.pop();
    assert_eq!(preview_text(cut), None);
    assert_eq!(preview_text(Vec::new()), Some(String::new()));
}

#[test]
fn tag_batches_extension_then_model_tags() {
    let b = tag_batches(Some("txt".to_string()), Some(vec!["notes".to_string()]));
    assert_eq!(b.len(), 2);
    assert_eq!(b[0].tags, vec!["txt".to_string()]);
    assert!(matches!(b[0].source, TagSource::Auto));
    assert_eq!(b[1].tags, vec!["notes".to_string()]);
    assert!(matches!(b[1].source, TagSource::Ai));
    let b = tag_batches(None, Some(Vec::new()));
    assert!(b.is_empty());
    let b = tag_batches(None, Some(vec!["x".to_string()]));
    assert_eq!(b.len(), 1);
    assert!(matches!(b[0].source, TagSource::Ai));
    let b = tag_batches(Some("rs".to_string()), None);
    assert_eq!(b.len(), 1);
    assert!(matches!(b[0].source, TagSource::Auto));
}
