use std::path::{Path, PathBuf};

use expr_front::text::Document;

#[test]
fn document_keeps_path_and_content() {
    let doc = Document::new(PathBuf::from("main.k"), "a\nb".to_string());
    assert_eq!(Path::new("main.k"), doc.path().as_path());
    assert_eq!("a\nb", doc.content());
}

#[test]
fn document_line_map_is_parsed_once_and_kept() {
    let doc = Document::new(PathBuf::from("main.k"), "a\rb\nc".to_string());
    assert_eq!(&[1, 3], doc.line_map().line_breaks());
    assert_eq!(&[1, 3], doc.line_map().line_breaks());
    assert!(std::ptr::eq(doc.line_map(), doc.line_map()));
}
