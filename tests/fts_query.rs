use local_rag::fts::{build_fts_query, sanitize_fts_token};

#[test]
fn fts_query_drops_single_letters() {
    assert_eq!(build_fts_query("a b cd"), Some("cd*".to_string()));
}

#[test]
fn fts_query_none_when_nothing_left() {
    assert_eq!(build_fts_query("a"), None);
    assert_eq!(build_fts_query(""), None);
    assert_eq!(build_fts_query("  ! ? -- "), None);
}

#[test]
fn fts_query_keeps_only_alphanumerics() {
    assert_eq!(build_fts_query("quick fox?"), Some("quick* fox*".to_string()));
    assert_eq!(build_fts_query("wo-rld, (hi)"), Some("world* hi*".to_string()));
}

#[test]
fn fts_query_counts_bytes_of_a_single_letter() {
    // one non-ASCII letter is two bytes long and is kept
    assert_eq!(build_fts_query("é x"), Some("é*".to_string()));
}

#[test]
fn sanitize_token_filters_characters() {
    assert_eq!(sanitize_fts_token("a-b!c9"), "abc9");
    assert_eq!(sanitize_fts_token("***"), "");
}
