use local_rag::model_server::{
    chat_messages, choose_base_url, classify_stream_line, is_length_error, normalize_base_url,
    truncate_error_body, ChatStream, EmbedInput, PromptSource, StreamLine, StreamStep,
    DEFAULT_BASE_URL, SYSTEM_PROMPT,
};

#[test]
fn base_url_gets_scheme_and_api() {
    assert_eq!(normalize_base_url("localhost:11434"), "http://localhost:11434/api");
}

#[test]
fn base_url_trailing_slash_removed() {
    assert_eq!(normalize_base_url("http://localhost:11434/"), "http://localhost:11434/api");
    assert_eq!(normalize_base_url(" https://host:1/api/ "), "https://host:1/api");
    assert_eq!(normalize_base_url("http://h///"), "http://h/api");
}

#[test]
fn base_url_blank_is_default() {
    assert_eq!(normalize_base_url(" "), DEFAULT_BASE_URL);
    assert_eq!(normalize_base_url(""), "http://127.0.0.1:11434/api");
}

#[test]
fn base_url_precedence() {
    assert_eq!(choose_base_url(Some("a:1"), Some("b:2")), "http://a:1/api");
    assert_eq!(choose_base_url(Some("  "), Some("b:2")), "http://b:2/api");
    assert_eq!(choose_base_url(None, Some("b:2")), "http://b:2/api");
    assert_eq!(choose_base_url(None, None), DEFAULT_BASE_URL);
}

#[test]
fn error_body_cut_at_4096_bytes() {
    let long = "a".repeat(5000);
    assert_eq!(truncate_error_body(&long).len(), 4096);
    let wide = "ż".repeat(3000);
    let cut = truncate_error_body(&wide);
    assert_eq!(cut.len(), 4096);
    assert_eq!(cut.chars().count(), 2048);
    let odd = format!("a{}", "ż".repeat(3000));
    let cut = truncate_error_body(&odd);
    assert_eq!(cut.len(), 4095);
    assert_eq!(truncate_error_body("short"), "short");
}

#[test]
fn length_errors_recognised() {
    assert!(is_length_error(413, "Input is too long for the model"));
    assert!(is_length_error(400, "the CONTEXT length was exceeded"));
    assert!(is_length_error(422, "input exceeds token limit"));
    assert!(is_length_error(400, "input has too many tokens"));
    assert!(!is_length_error(500, "input is too long"));
    assert!(!is_length_error(400, "bad request"));
    assert!(!is_length_error(400, "context ................................................ length"));
}

#[test]
fn stream_lines_classified() {
    assert!(matches!(classify_stream_line(""), StreamLine::Blank));
    assert!(matches!(classify_stream_line("data: [DONE]"), StreamLine::Finished));
    assert!(matches!(classify_stream_line("[DONE]"), StreamLine::Finished));
    match classify_stream_line("data: {\"done\":false}") {
        StreamLine::Record(j) => assert_eq!(j, "{\"done\":false}"),
        _ => panic!("expected a record"),
    }
    match classify_stream_line("  {\"a\":1}  ") {
        StreamLine::Record(j) => assert_eq!(j, "{\"a\":1}"),
        _ => panic!("expected a record"),
    }
}

#[test]
fn chat_stream_accumulates_deltas() {
    let mut s = ChatStream::new();
    assert!(matches!(s.on_record(None, Some("Hel".into()), false), StreamStep::Delta(_, false)));
    assert!(matches!(s.on_record(None, Some("".into()), false), StreamStep::Quiet(false)));
    assert!(matches!(s.on_record(None, Some("lo".into()), true), StreamStep::Delta(_, true)));
    assert_eq!(s.answer, "Hello");
    match s.on_record(Some("boom".into()), Some("x".into()), false) {
        StreamStep::Fail(e) => assert_eq!(e, "boom"),
        _ => panic!("expected failure"),
    }
    assert_eq!(s.answer, "Hello");
}

#[test]
fn embed_input_from_values() {
    assert_eq!(EmbedInput::from("x".to_string()).count(), 1);
    assert_eq!(EmbedInput::from(vec!["a".to_string(), "b".to_string()]).count(), 2);
}

#[test]
fn prompt_numbers_sources() {
    let sources = vec![
        PromptSource { file_path: "/d/a.pdf".into(), page: 0, snippet: "alpha".into() },
        PromptSource { file_path: "/d/b.txt".into(), page: 4, snippet: "beta".into() },
    ];
    let m = chat_messages("Why?", &sources);
    assert_eq!(m.len(), 2);
    assert_eq!(m[0].role, "system");
    assert_eq!(m[0].content, SYSTEM_PROMPT);
    assert_eq!(m[1].role, "user");
    assert_eq!(
        m[1].content,
        "Question:\nWhy?\n\nSources:\n\n[1] /d/a.pdf (page 1)\nalpha\n\n[2] /d/b.txt (page 5)\nbeta\n\n\nAnswer with citations [1], [2]:"
    );
}
