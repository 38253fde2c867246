use corpus::server::{SearchParams, ServerState};

#[test]
fn a_question_without_a_number_gets_six_passages() {
    let bare = SearchParams { query: "q".to_string(), k: None, filename: None };
    assert_eq!(bare.wanted(), 6);
    assert!(bare.scope().is_none());
    let narrow =
        SearchParams { query: "q".to_string(), k: Some(2), filename: Some("a.pdf".to_string()) };
    assert_eq!(narrow.wanted(), 2);
    assert_eq!(narrow.scope(), Some(vec!["a.pdf".to_string()]));
}

#[test]
fn the_index_is_opened_again_when_it_was_written_again() {
    let mut state = ServerState::new(Some((10, 5)));
    assert!(!state.index_moved(Some((10, 5))));
    assert!(state.index_moved(Some((10, 6))));
    assert!(state.index_moved(None));
    // A store that cannot be opened is tried again with the next request.
    state.reopened(Some((10, 6)), false);
    assert!(state.index_moved(Some((10, 6))));
    state.reopened(Some((10, 6)), true);
    assert!(!state.index_moved(Some((10, 6))));
    assert!(ServerState::new(None).index_moved(Some((1, 0))));
    assert!(!ServerState::new(None).index_moved(None));
}

#[test]
fn a_broken_reranker_is_not_tried_again() {
    let mut broken = ServerState::new(None);
    assert!(broken.wants_reranker());
    broken.reranker_tried(false);
    assert!(!broken.wants_reranker());
    assert!(broken.reranker_unavailable);
    broken.reopened(Some((1, 1)), true);
    assert!(!broken.wants_reranker());
    let mut working = ServerState::new(None);
    working.reranker_tried(true);
    assert!(!working.wants_reranker());
    assert!(!working.reranker_unavailable);
}
