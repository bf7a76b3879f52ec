use scratch_notes::search::{
    fallback_needed, fallback_score, fallback_search, rank_hits, score_folded, search_query,
    IndexOutcome, NoteMetadata, SearchHit,
};

fn meta(id: &str, title: &str) -> NoteMetadata {
    NoteMetadata { id: id.to_string(), title: title.to_string(), preview: String::new(), modified: 1 }
}

#[test]
fn scores_by_band() {
    assert_eq!(fallback_score("needle", "Needle notes", Some("a NEEDLE")), 55);
    assert_eq!(fallback_score("needle", "Needle notes", Some("hay")), 50);
    assert_eq!(fallback_score("needle", "Other", Some("has needle")), 10);
    assert_eq!(fallback_score("needle", "Other", None), 0);
    assert_eq!(score_folded("ab", "xaby", None), 50);
}

#[test]
fn fallback_finds_body_match_and_ranks_title_higher() {
    let notes = vec![meta("body", "Plain"), meta("title", "Needle here"), meta("none", "Nothing")];
    let contents = vec![
        Some("only the needle in body".to_string()),
        Some("nothing else".to_string()),
        Some("empty".to_string()),
    ];
    let r = fallback_search("needle", &notes, &contents);
    assert_eq!(r.len(), 2);
    assert_eq!(r[0].id, "title");
    assert_eq!(r[0].score, 50);
    assert_eq!(r[1].id, "body");
    assert_eq!(r[1].score, 10);
}

#[test]
fn ranking_is_stable_and_truncated() {
    let hits: Vec<SearchHit> = (0..30)
        .map(|i| SearchHit {
            id: format!("n{}", i),
            title: String::new(),
            preview: String::new(),
            modified: 0,
            score: if i % 3 == 0 { 55 } else { 5 },
        })
        .collect();
    let r = rank_hits(&hits);
    assert_eq!(r.len(), 20);
    assert_eq!(r[0].id, "n0");
    assert_eq!(r[1].id, "n3");
    assert_eq!(r[9].id, "n27");
    assert_eq!(r[10].id, "n1");
    assert_eq!(r[10].score, 5);
}

#[test]
fn queries_are_trimmed() {
    assert_eq!(search_query("  q  "), Some("q".to_string()));
    assert_eq!(search_query(" \t "), None);
}

#[test]
fn index_answers_decide_fallback() {
    assert!(fallback_needed(&IndexOutcome::NotLoaded));
    assert!(fallback_needed(&IndexOutcome::Failed));
    assert!(fallback_needed(&IndexOutcome::Found(0)));
    assert!(!fallback_needed(&IndexOutcome::Found(3)));
}
