use local_rag::chunker::chunk_text;
use local_rag::text::{clean_text, parse_unsigned, single_page_text, split_pages};

#[test]
fn chunk_hard_cuts_with_overlap() {
    assert_eq!(chunk_text("abcdefgh", 3, 1), vec!["abc", "cde", "efg", "gh"]);
}

#[test]
fn chunk_snaps_to_word_boundaries() {
    assert_eq!(chunk_text("alpha beta gamma", 10, 0), vec!["alpha", "beta", "gamma"]);
}

#[test]
fn chunk_empty_and_zero_size() {
    assert!(chunk_text("", 10, 0).is_empty());
    assert!(chunk_text("   \n\t ", 10, 0).is_empty());
    assert!(chunk_text("abc", 0, 0).is_empty());
}

#[test]
fn chunk_short_text_is_one_chunk() {
    assert_eq!(chunk_text("  hello  ", 100, 10), vec!["hello"]);
}

#[test]
fn chunk_overlap_is_clamped_below_size() {
    // overlap 5 with size 3 acts as overlap 2
    assert_eq!(chunk_text("abcdef", 3, 5), vec!["abc", "bcd", "cde", "def"]);
}

#[test]
fn chunk_counts_characters_not_bytes() {
    let text = "zażółć gęślą jaźń żółw źdźbło";
    let chunks = chunk_text(text, 7, 2);
    assert!(!chunks.is_empty());
    for c in &chunks {
        assert!(!c.contains('\u{FFFD}'));
        assert!(c.chars().count() <= 7);
        assert!(text.contains(c.as_str()));
    }
}

#[test]
fn chunk_covers_every_word() {
    let text = "one two three four five six seven eight nine ten";
    let chunks = chunk_text(text, 12, 3);
    for w in text.split_whitespace() {
        assert!(chunks.iter().any(|c| c.contains(w)), "missing {w}");
    }
}

#[test]
fn chunk_prefers_punctuation_boundary() {
    assert_eq!(chunk_text("abc,defghijk", 8, 0), vec!["abc,", "defghijk"]);
}

#[test]
fn clean_text_replaces_nul_and_trims() {
    assert_eq!(clean_text("\n a\u{0}b \t"), "a b");
    assert_eq!(clean_text("\u{0}\u{0}"), "");
}

#[test]
fn split_pages_on_form_feed() {
    assert_eq!(split_pages("one\x0C two \x0C\x0Cthree\u{0}"), vec!["one", "two", "three"]);
    assert_eq!(split_pages("single page"), vec!["single page"]);
    assert!(split_pages("  \x0C ").is_empty());
}

#[test]
fn single_page_drops_blank_documents() {
    assert_eq!(single_page_text(" text "), vec!["text"]);
    assert!(single_page_text("\u{0} \n").is_empty());
}

#[test]
fn parse_unsigned_reads_plain_numbers() {
    assert_eq!(parse_unsigned("42"), Some(42));
    assert_eq!(parse_unsigned("+7"), Some(7));
    assert_eq!(parse_unsigned("18446744073709551615"), Some(u64::MAX));
    assert_eq!(parse_unsigned("18446744073709551616"), None);
    assert_eq!(parse_unsigned(""), None);
    assert_eq!(parse_unsigned("+"), None);
    assert_eq!(parse_unsigned("-3"), None);
    assert_eq!(parse_unsigned(" 3"), None);
    assert_eq!(parse_unsigned("3x"), None);
}
