use local_rag::docx::{docx_text, XmlEvent};
use local_rag::indexer::language_of;
use local_rag::retrieval::{mmr_select, SIM_SCALE};

fn sim(x: f64) -> i64 {
    (x * SIM_SCALE as f64).round() as i64
}

#[test]
fn mmr_spreads_over_clusters() {
    // three near-duplicates (0, 1, 2) and one unrelated chunk (3)
    let query = vec![sim(0.9), sim(0.89), sim(0.88), sim(0.5)];
    let mut pair = vec![vec![sim(0.99); 4]; 4];
    for i in 0..4 {
        pair[i][i] = SIM_SCALE;
        pair[i][3] = sim(0.1);
        pair[3][i] = sim(0.1);
    }
    pair[3][3] = SIM_SCALE;
    let chosen = mmr_select(&query, &pair, 2, 200);
    assert_eq!(chosen, vec![0, 3]);
    let from_cluster = chosen.iter().filter(|&&i| i < 3).count();
    assert!(from_cluster < 2);
}

#[test]
fn mmr_with_full_relevance_weight_follows_query() {
    let query = vec![sim(0.2), sim(0.9), sim(0.5)];
    let pair = vec![vec![SIM_SCALE; 3]; 3];
    assert_eq!(mmr_select(&query, &pair, 3, 1000), vec![1, 2, 0]);
}

#[test]
fn mmr_stops_when_candidates_run_out() {
    let query = vec![sim(0.3), sim(0.3)];
    let pair = vec![vec![0; 2]; 2];
    // equal scores: the first candidate wins
    assert_eq!(mmr_select(&query, &pair, 5, 500), vec![0, 1]);
    assert!(mmr_select(&vec![], &vec![], 3, 500).is_empty());
    assert!(mmr_select(&query, &pair, 0, 500).is_empty());
}

#[test]
fn docx_paragraphs_become_lines() {
    let events = vec![
        XmlEvent::Other,
        XmlEvent::Text("Hello".into()),
        XmlEvent::Text(" world".into()),
        XmlEvent::End("w:t".into()),
        XmlEvent::End("w:p".into()),
        XmlEvent::Text("Second & last".into()),
        XmlEvent::End("w:p".into()),
    ];
    assert_eq!(docx_text(&events), "Hello world\nSecond & last\n");
    assert_eq!(docx_text(&vec![]), "");
}

#[test]
fn language_codes_have_three_letters() {
    let eng = language_of("This is a sentence written in plain English for the detector.");
    assert_eq!(eng.as_deref(), Some("eng"));
    let pol = language_of("To jest zdanie napisane po polsku, żeby wykrywacz języka je rozpoznał.");
    assert_eq!(pol.as_deref(), Some("pol"));
    assert_eq!(language_of(""), None);
}
