use local_rag::fts::build_fts_query;
use local_rag::retrieval::{candidate_k, effective_top_k, fuse_ranks, language_filter, snippet};

#[test]
fn candidate_count_rules() {
    assert_eq!(candidate_k(5, false, 8), 5);
    assert_eq!(candidate_k(2, true, 8), 8);
    assert_eq!(candidate_k(2, true, 100), 8);
    assert_eq!(candidate_k(20, true, 100), 64);
    assert_eq!(candidate_k(3, true, 0), 3);
    assert_eq!(candidate_k(0, false, 0), 1);
    assert_eq!(candidate_k(-4, true, 10), 1);
    assert_eq!(effective_top_k(0), 1);
    assert_eq!(effective_top_k(7), 7);
}

#[test]
fn language_preference_keeps_matches() {
    let langs = vec![Some("eng".to_string()), Some("pol".to_string()), None, Some("eng".to_string())];
    assert_eq!(language_filter(&langs, &Some("eng".to_string())), vec![0, 3]);
    assert_eq!(language_filter(&langs, &None), vec![0, 1, 2, 3]);
    assert_eq!(language_filter(&langs, &Some("deu".to_string())), vec![0, 1, 2, 3]);
    assert!(language_filter(&vec![], &Some("eng".to_string())).is_empty());
}

#[test]
fn fusion_promotes_lexical_hits() {
    // ids in vector order; full-text search returned only chunk 30
    assert_eq!(fuse_ranks(&vec![10, 20, 30], &vec![30]), vec![2, 0, 1]);
    // no lexical hits: order unchanged
    assert_eq!(fuse_ranks(&vec![10, 20, 30], &vec![]), vec![0, 1, 2]);
}

#[test]
fn fusion_ties_keep_prior_order() {
    // 1/61 + 1/62 for both candidates: equal scores stay in order
    assert_eq!(fuse_ranks(&vec![5, 6], &vec![6, 5]), vec![0, 1]);
}

#[test]
fn hybrid_retrieval_finds_quick_fox() {
    let texts = ["alpha beta gamma", "the quick brown fox"];
    let ids = vec![1i64, 2];
    let query = build_fts_query("quick fox").unwrap();
    assert_eq!(query, "quick* fox*");
    // the vector search ranked the unrelated chunk first; the lexical search found chunk 2
    let order = fuse_ranks(&ids, &vec![2]);
    let top = effective_top_k(1);
    let best: Vec<&str> = order.iter().take(top).map(|&i| texts[i]).collect();
    assert_eq!(best.len(), 1);
    assert!(best[0].contains("quick brown fox"));
}

#[test]
fn snippet_is_600_characters() {
    let t = "ą".repeat(700);
    assert_eq!(snippet(&t).chars().count(), 600);
    assert_eq!(snippet("short"), "short");
}
