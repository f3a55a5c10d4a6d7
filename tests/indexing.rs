use local_rag::document::file_fingerprint;
use local_rag::embedding::{
    batch_ranges, fallback_plan, fallback_strategy, positive_setting, reply_covers_batch,
    retry_action, FailureKind, FallbackPlan, FallbackStrategy, RetryAction,
};
use local_rag::indexer::{
    commit_plan, document_step, ocr_arguments, pdf_needs_ocr, plan_chunks, prepend_search_path,
    schema_reset_needed, tesseract_base_dir, vectors_match_dimension, commit_status, step_status,
    CommitDecision, DocumentStep, IndexProgress,
    IndexSettings, ProgressStatus, StoredMeta,
};

fn settings(size: usize, overlap: usize) -> IndexSettings {
    IndexSettings {
        chunk_size: size,
        chunk_overlap: overlap,
        ocr_enabled: true,
        ocr_lang: "pol+eng".into(),
        ocr_min_chars: 120,
        ocr_dpi: 300,
    }
}

#[test]
fn index_one_text_file_plan() {
    let pages = vec!["alpha beta gamma".to_string()];
    let plan = plan_chunks(&pages, &settings(10, 0));
    let texts: Vec<&str> = plan.iter().map(|c| c.text.as_str()).collect();
    assert_eq!(texts, vec!["alpha", "beta", "gamma"]);
    assert!(plan.iter().all(|c| c.page == 0));
    assert_eq!(plan.iter().map(|c| c.chunk_index).collect::<Vec<_>>(), vec![0, 1, 2]);
    let (d, rows) = commit_plan(&vec![true, true, true]);
    assert_eq!(d, CommitDecision::Write);
    assert_eq!(rows, vec![0, 1, 2]);
    let p = IndexProgress::new(0, 1, String::new(), ProgressStatus::Start);
    assert_eq!((p.current, p.total, p.status.as_str()), (0, 1, "start"));
}

#[test]
fn plan_numbers_chunks_per_page() {
    let pages = vec!["one two".to_string(), "three".to_string()];
    let plan = plan_chunks(&pages, &settings(4, 0));
    let v: Vec<(usize, usize, &str)> =
        plan.iter().map(|c| (c.page, c.chunk_index, c.text.as_str())).collect();
    assert_eq!(v, vec![(0, 0, "one"), (0, 1, "two"), (1, 0, "thre"), (1, 1, "e")]);
}

#[test]
fn plan_detects_language() {
    let pages = vec!["The quick brown fox jumps over the lazy dog near the river bank.".to_string()];
    let plan = plan_chunks(&pages, &settings(1000, 0));
    assert_eq!(plan.len(), 1);
    assert_eq!(plan[0].lang.as_deref(), Some("eng"));
}

#[test]
fn skip_unchanged_file() {
    let fp = file_fingerprint("/docs/doc.txt", 16, 1700000000);
    let stored = fp.clone();
    assert_eq!(document_step(true, Some(&stored), &fp), DocumentStep::Skip);
}

#[test]
fn replace_on_change() {
    let stored = file_fingerprint("/docs/doc.txt", 16, 1700000000);
    let now = file_fingerprint("/docs/doc.txt", 5, 1700000100);
    assert_eq!(document_step(true, Some(&stored), &now), DocumentStep::Index);
    let plan = plan_chunks(&vec!["hello".to_string()], &settings(10, 0));
    assert_eq!(plan.len(), 1);
    assert_eq!(document_step(false, Some(&stored), &now), DocumentStep::Missing);
    assert_eq!(document_step(true, None, &now), DocumentStep::Index);
}

#[test]
fn commit_decisions() {
    assert_eq!(commit_plan(&vec![false, true, false, true]), (CommitDecision::Write, vec![1, 3]));
    assert_eq!(commit_plan(&vec![false, false]), (CommitDecision::AllSkipped, vec![]));
    assert_eq!(commit_plan(&vec![]), (CommitDecision::NoChunks, vec![]));
}

#[test]
fn schema_reset_on_changed_parameters() {
    let s = settings(1400, 250);
    let same = StoredMeta { embedding_dim: Some(768), chunk_size: Some(1400), chunk_overlap: Some(250) };
    assert!(!schema_reset_needed(&same, 768, &s));
    assert!(schema_reset_needed(&same, 1024, &s));
    let fresh = StoredMeta { embedding_dim: None, chunk_size: None, chunk_overlap: None };
    assert!(!schema_reset_needed(&fresh, 1024, &s));
    let other = StoredMeta { embedding_dim: Some(768), chunk_size: Some(1000), chunk_overlap: None };
    assert!(schema_reset_needed(&other, 768, &s));
    let negative = StoredMeta { embedding_dim: Some(-1), chunk_size: None, chunk_overlap: None };
    assert!(schema_reset_needed(&negative, 768, &s));
}

#[test]
fn default_settings() {
    let d = IndexSettings::default();
    assert_eq!((d.chunk_size, d.chunk_overlap, d.ocr_min_chars, d.ocr_dpi), (1400, 250, 120, 300));
    assert!(d.ocr_enabled);
    assert_eq!(d.ocr_lang, "pol+eng");
}

#[test]
fn ocr_decisions_and_arguments() {
    let s = settings(10, 0);
    assert!(pdf_needs_ocr("short", &s));
    assert!(!pdf_needs_ocr(&"x".repeat(120), &s));
    let mut off = settings(10, 0);
    off.ocr_enabled = false;
    assert!(!pdf_needs_ocr("", &off));
    assert_eq!(
        ocr_arguments("/d/a.pdf", &s, Some("/t/tessdata")),
        vec!["/d/a.pdf", "stdout", "-l", "pol+eng", "--dpi", "300", "--tessdata-dir", "/t/tessdata"]
    );
    assert_eq!(ocr_arguments("/d/a.pdf", &s, None).len(), 6);
}

#[test]
fn ocr_install_folder() {
    assert_eq!(tesseract_base_dir("/opt/tess/bin/tesseract"), Some("/opt/tess".to_string()));
    assert_eq!(tesseract_base_dir("/opt/tess/tesseract"), Some("/opt/tess".to_string()));
    assert_eq!(prepend_search_path("/opt/tess/lib", ""), "/opt/tess/lib");
    assert_eq!(prepend_search_path("/opt/tess/lib", "/usr/lib"), "/opt/tess/lib:/usr/lib");
}

#[test]
fn batches_cover_all_texts() {
    assert_eq!(batch_ranges(10, 4), vec![(0, 4), (4, 8), (8, 10)]);
    assert_eq!(batch_ranges(4, 4), vec![(0, 4)]);
    assert!(batch_ranges(0, 4).is_empty());
}

#[test]
fn retry_policy() {
    assert_eq!(retry_action(FailureKind::Timeout, 4, 1), RetryAction::Split(2));
    assert_eq!(retry_action(FailureKind::Timeout, 3, 1), RetryAction::Split(1));
    assert_eq!(retry_action(FailureKind::Timeout, 1, 1), RetryAction::Retry);
    assert_eq!(retry_action(FailureKind::Timeout, 1, 2), RetryAction::PerChunk);
    assert_eq!(retry_action(FailureKind::TooLong, 4, 1), RetryAction::PerChunk);
    assert_eq!(retry_action(FailureKind::Other, 4, 1), RetryAction::Fail);
    assert!(reply_covers_batch(3, 3));
    assert!(!reply_covers_batch(3, 2));
}

#[test]
fn fallback_for_refused_texts() {
    assert!(matches!(fallback_plan("short text", 800), FallbackPlan::Skip));
    match fallback_plan(&"word ".repeat(10), 20) {
        FallbackPlan::Pieces(ps) => {
            assert!(ps.len() > 1);
            assert!(ps.iter().all(|p| p.chars().count() <= 20));
        }
        FallbackPlan::Skip => panic!("expected pieces"),
    }
}

#[test]
fn settings_from_environment_values() {
    assert_eq!(positive_setting(None, 4), 4);
    assert_eq!(positive_setting(Some("8"), 4), 8);
    assert_eq!(positive_setting(Some("0"), 4), 4);
    assert_eq!(positive_setting(Some("x"), 800), 800);
    assert_eq!(fallback_strategy(None), FallbackStrategy::Average);
    assert_eq!(fallback_strategy(Some(" First ")), FallbackStrategy::First);
    assert_eq!(fallback_strategy(Some("average")), FallbackStrategy::Average);
}

#[test]
fn vector_dimension_check() {
    assert!(vectors_match_dimension(&vec![768, 768], 768));
    assert!(!vectors_match_dimension(&vec![768, 512], 768));
    assert!(vectors_match_dimension(&vec![], 768));
}

#[test]
fn event_sequence_of_a_first_index() {
    let fp = file_fingerprint("/docs/doc.txt", 16, 1700000000);
    let step = document_step(true, None, &fp);
    let (decision, _) = commit_plan(&vec![true, true, true]);
    let statuses = vec![ProgressStatus::Start, step_status(step), commit_status(decision)];
    let names: Vec<&str> = statuses.iter().map(|s| s.as_str()).collect();
    assert_eq!(names, vec!["start", "extract", "done"]);
}

#[test]
fn event_of_an_unchanged_file() {
    let fp = file_fingerprint("/docs/doc.txt", 16, 1700000000);
    assert_eq!(step_status(document_step(true, Some(&fp), &fp)).as_str(), "skip");
    assert_eq!(step_status(document_step(false, None, &fp)).as_str(), "missing");
}

#[test]
fn all_chunks_skipped_is_an_error() {
    let (decision, rows) = commit_plan(&vec![false, false, false]);
    assert!(rows.is_empty());
    assert_eq!(commit_status(decision), ProgressStatus::Error);
    assert_eq!(commit_status(CommitDecision::NoChunks), ProgressStatus::Done);
}
