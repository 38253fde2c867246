use corpus::bm25::{split_terms, tokenize, Bm25};

fn corpus() -> Vec<String> {
    vec![
        "Minimum obstacle clearance inside the holding pattern is 300 m.".to_string(),
        "The holding pattern protection area depends on obstacle height.".to_string(),
        "Runway pavement bearing strength uses the Pavement Classification Number.".to_string(),
    ]
}

fn postings(index: &Bm25, query: &str) -> Vec<Vec<(usize, usize)>> {
    index.query_postings(query).into_iter().cloned().collect()
}

#[test]
fn unrelated_documents_have_no_postings() {
    let lists = postings(&Bm25::new(&corpus()), "obstacle clearance");
    assert_eq!(lists, vec![vec![(0, 1), (1, 1)], vec![(0, 1)]]);
}

#[test]
fn rare_terms_have_shorter_postings_than_common_ones() {
    let lists = postings(&Bm25::new(&corpus()), "pavement classification holding");
    assert_eq!(lists, vec![vec![(2, 2)], vec![(2, 1)], vec![(0, 1), (1, 1)]]);
}

#[test]
fn documents_with_the_same_hits_differ_in_length() {
    let short = "obstacle clearance.";
    let long = "obstacle clearance is defined separately from the runway strip, \
               the holding protective area, and the missed ascent gradient.";
    let index = Bm25::new(&[short.to_string(), long.to_string()]);
    let lists = postings(&index, "obstacle clearance");
    assert_eq!(lists, vec![vec![(0, 1), (1, 1)], vec![(0, 1), (1, 1)]]);
    assert_eq!(index.document_length(0), 2);
    assert_eq!(index.document_length(1), 18);
}

#[test]
fn tokenize_splits_punctuation_and_case() {
    assert_eq!(tokenize("OCH-300 m."), vec!["och", "300", "m"]);
}

#[test]
fn an_empty_corpus_has_no_postings() {
    let index = Bm25::new(&[]);
    assert_eq!(index.document_count(), 0);
    assert!(postings(&index, "obstacle").is_empty());
}

#[test]
fn splitting_again_changes_nothing() {
    for text in ["OCH-300 m.", "ÉTUDE—Nº5", " .,;", "A  b\tC"] {
        let terms = tokenize(text);
        assert_eq!(tokenize(&terms.join(" ")), terms);
        assert_eq!(tokenize(&text.to_lowercase()), terms);
        assert!(terms.iter().all(|term| !term.is_empty()));
        let kept: String = text.to_lowercase().chars().filter(|c| c.is_alphanumeric()).collect();
        assert_eq!(terms.concat(), kept);
    }
}

#[test]
fn letters_beyond_ascii_are_lowered_and_kept() {
    assert_eq!(tokenize("ÉTUDE—Nº5"), vec!["étude", "nº5"]);
    assert_eq!(split_terms("a b--c"), vec!["a", "b", "c"]);
    assert!(tokenize(" .,;").is_empty());
}

#[test]
fn postings_name_documents_upwards_with_their_counts() {
    let index = Bm25::new(&corpus());
    assert_eq!(index.document_count(), 3);
    assert_eq!(index.document_length(0), 10);
    let lists = postings(&index, "pavement HOLDING unknown");
    assert_eq!(lists, vec![vec![(2, 2)], vec![(0, 1), (1, 1)]]);
}
