use local_rag::document::{
    file_fingerprint, is_supported_document, kind_from_path, preview_entry, preview_status,
    select_documents, sort_previews, DocumentKind, PreviewStatus,
};

#[test]
fn kinds_by_extension() {
    assert_eq!(kind_from_path("/a/b/report.PDF"), Some(DocumentKind::Pdf));
    assert_eq!(kind_from_path("notes.markdown"), Some(DocumentKind::Md));
    assert_eq!(kind_from_path("notes.md"), Some(DocumentKind::Md));
    assert_eq!(kind_from_path("x.Docx"), Some(DocumentKind::Docx));
    assert_eq!(kind_from_path("x.txt"), Some(DocumentKind::Txt));
    assert_eq!(kind_from_path("x.doc"), None);
    assert_eq!(kind_from_path("README"), None);
    assert_eq!(kind_from_path(".pdf"), None);
    assert!(is_supported_document("/tmp/a.txt"));
    assert!(!is_supported_document("/tmp/a.rs"));
    assert_eq!(DocumentKind::Docx.as_str(), "docx");
    assert_eq!(DocumentKind::Md.as_str(), "md");
}

#[test]
fn documents_selected_once() {
    let found = vec![
        "/d/a.txt".to_string(),
        "/d/b.exe".to_string(),
        "/d/c.pdf".to_string(),
        "/d/a.txt".to_string(),
    ];
    let docs = select_documents(&found);
    assert_eq!(docs.len(), 2);
    assert_eq!(docs[0].path, "/d/a.txt");
    assert_eq!(docs[0].kind, DocumentKind::Txt);
    assert_eq!(docs[1].path, "/d/c.pdf");
    assert_eq!(docs[1].kind, DocumentKind::Pdf);
}

#[test]
fn fingerprint_is_sha256_of_path_size_mtime() {
    assert_eq!(
        file_fingerprint("/docs/doc.txt", 16, 1700000000),
        "208a9464bdee3322dc66aae2b718162e8e83155ba1edc402137d1edd761a4ec4"
    );
    assert_eq!(
        file_fingerprint("/docs/doc.txt", 5, 1700000100),
        "c561a82c9dbdd7010acc51f963e78264ab6f0d5ffd835c2b85259b5814db3cfe"
    );
}

#[test]
fn preview_statuses() {
    let fp = file_fingerprint("/docs/doc.txt", 16, 1700000000);
    let other = file_fingerprint("/docs/doc.txt", 5, 1700000100);
    assert_eq!(preview_status(true, Some(&fp), &fp), PreviewStatus::Indexed);
    assert_eq!(preview_status(true, Some(&other), &fp), PreviewStatus::Changed);
    assert_eq!(preview_status(true, None, &fp), PreviewStatus::New);
    assert_eq!(preview_status(false, Some(&fp), &fp), PreviewStatus::Missing);
}

#[test]
fn preview_entry_of_missing_file() {
    let fp = String::new();
    let e = preview_entry("/d/gone.pdf".to_string(), DocumentKind::Pdf, false, None, &fp, 10, 20);
    assert_eq!(e.path, "/d/gone.pdf");
    assert_eq!(e.kind, "pdf");
    assert_eq!(e.status, "missing");
    assert_eq!((e.size, e.mtime), (0, 0));
    let e = preview_entry("/d/a.txt".to_string(), DocumentKind::Txt, true, None, &fp, 10, 20);
    assert_eq!(e.status, "new");
    assert_eq!((e.size, e.mtime), (10, 20));
}

#[test]
fn previews_sorted_by_path() {
    let fp = String::new();
    let mk = |p: &str| preview_entry(p.to_string(), DocumentKind::Txt, false, None, &fp, 0, 0);
    let sorted = sort_previews(vec![mk("/d/b.txt"), mk("/d/a.txt"), mk("/c/z.txt"), mk("/d/ą.txt"), mk("/d/B.txt")]);
    let paths: Vec<&str> = sorted.iter().map(|e| e.path.as_str()).collect();
    assert_eq!(paths, vec!["/c/z.txt", "/d/B.txt", "/d/a.txt", "/d/b.txt", "/d/ą.txt"]);
    assert!(sort_previews(vec![]).is_empty());
}
