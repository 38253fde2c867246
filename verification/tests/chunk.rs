use corpus::chunk::{chunk_text, ends_sentence, sentences, word_count};
use corpus::config::{CHUNK_MAX_WORDS, CHUNK_OVERLAP_WORDS, CHUNK_WORDS};

/// `words` filler words ending in a traceable marker sentence.
fn sentence(words: usize, marker: usize) -> String {
    format!("{} s{marker}.\n", "word ".repeat(words))
}

#[test]
fn short_text_is_one_chunk() {
    let chunks = chunk_text("Holding is a flight maneuver in which aircraft remain over a fix.\n");
    assert_eq!(chunks.len(), 1);
}

#[test]
fn long_text_reaches_configured_size_and_overlaps() {
    let text: String = (0..40).map(|i| sentence(25, i)).collect();
    let chunks = chunk_text(&text);
    assert!(chunks.len() > 2, "expected several chunks, got {}", chunks.len());
    assert!(
        chunks[0].split_whitespace().count() >= CHUNK_WORDS,
        "first chunk is only {} words",
        chunks[0].split_whitespace().count()
    );

    // A sentence from the tail of chunk 0 must reappear in chunk 1, otherwise
    // a clause spanning the boundary becomes unretrievable.
    let last_marker = chunks[0]
        .split_whitespace()
        .rev()
        .find(|token| token.starts_with('s') && token.ends_with('.'))
        .expect("marker sentence in chunk tail");
    assert!(
        chunks[1].contains(last_marker),
        "chunk 1 does not carry the overlapping sentence {last_marker}"
    );
}

#[test]
fn run_on_text_without_periods_is_windowed() {
    // Form fields and extracted tables produce this: thousands of words and
    // no sentence boundary anywhere.
    let text: String = (0..3000).map(|i| format!("w{i}")).collect::<Vec<_>>().join(" ");
    let chunks = chunk_text(&text);
    assert!(chunks.len() > 3, "expected several windows, got {}", chunks.len());
    for chunk in &chunks {
        assert!(
            word_count(chunk) <= CHUNK_MAX_WORDS,
            "chunk of {} words exceeds the model context",
            word_count(chunk)
        );
    }
    // Every window after the first must overlap its predecessor, otherwise
    // the truncation limit hides text between windows.
    let second = chunks[1].split_whitespace().next().unwrap();
    assert!(chunks[0].contains(second), "windows do not overlap");
}

#[test]
fn no_chunk_exceeds_the_model_context() {
    let text: String = (0..200)
        .map(|i| format!("Clause {i} requires obstacle clearance of {i}00 m above the fix.\n"))
        .collect();
    for chunk in chunk_text(&text) {
        assert!(
            word_count(&chunk) <= CHUNK_MAX_WORDS,
            "chunk of {} words exceeds the model context",
            word_count(&chunk)
        );
    }
}

#[test]
fn oversized_single_sentence_terminates() {
    let text: String = (0..3000).map(|i| format!("w{i}")).collect::<Vec<_>>().join(" ") + ".";
    assert!(!chunk_text(&text).is_empty());
}

#[test]
fn wrapped_lines_still_split_into_sentences() {
    let text = "Clearance is 300 m inside the fix and applies to Cat A. \nIt rises to 400 m \nfor Cat E aircraft.";
    let found = sentences(text);
    assert_eq!(found.len(), 2, "got {found:?}");
}

#[test]
fn volume_abbreviation_stays_inside_its_sentence() {
    let found = sentences("Applies to Annex vol. 2 of the document. Runway length is 1800 m.");
    assert_eq!(found.len(), 2, "got {found:?}");
    assert!(found[0].trim_end().ends_with("document."), "got {:?}", found[0]);
}

#[test]
fn blank_line_breaks_a_sentence() {
    let found = sentences("First clause about obstacles.\n\nSecond clause about runways.");
    assert_eq!(found.len(), 2, "got {found:?}");
}

#[test]
fn empty_text_has_no_chunks() {
    assert!(chunk_text("   \n\n  ").is_empty());
}

#[test]
fn run_on_windows_have_the_full_size_and_the_set_overlap() {
    let words: Vec<String> = (0..1000).map(|i| format!("w{i}")).collect();
    let chunks = chunk_text(&words.join(" "));
    assert_eq!(word_count(&chunks[0]), CHUNK_MAX_WORDS);
    let first: Vec<&str> = chunks[0].split_whitespace().collect();
    let second: Vec<&str> = chunks[1].split_whitespace().collect();
    assert_eq!(first[CHUNK_MAX_WORDS - CHUNK_OVERLAP_WORDS..], second[..CHUNK_OVERLAP_WORDS]);
    // Nothing is lost: every word stands in a window.
    for word in &words {
        assert!(chunks.iter().any(|chunk| chunk.split_whitespace().any(|w| w == word)));
    }
}

#[test]
fn sentences_end_at_marks_and_not_at_abbreviations() {
    let chars = |word: &str| word.chars().collect::<Vec<char>>();
    assert!(ends_sentence(&chars("fix.")));
    assert!(ends_sentence(&chars("fix.)")));
    assert!(ends_sentence(&chars("why?\"")));
    assert!(!ends_sentence(&chars("fix")));
    assert!(!ends_sentence(&chars("vol.")));
    assert!(!ends_sentence(&chars(")")));
}

#[test]
fn words_are_counted_between_white_space() {
    assert_eq!(word_count(""), 0);
    assert_eq!(word_count("  one\ttwo\nthree "), 3);
    assert_eq!(word_count("a\u{a0}b"), 2);
}

#[test]
fn words_are_kept() {
    assert_eq!(chunk_text("alpha\n\nbeta"), vec!["alpha beta"]);
    assert_eq!(chunk_text("alpha\n\n\n\nbeta \n gamma"), vec!["alpha beta gamma"]);
    // A sentence that ends in a space is followed by the next as it is.
    let text = "One two three four five six. Seven eight.\n\nNine.";
    assert_eq!(chunk_text(text), vec!["One two three four five six. Seven eight. Nine."]);
}

#[test]
fn no_words_are_made_up() {
    // The last window of a run shares its chunk with the paragraph behind it.
    let run: Vec<String> = (0..700).map(|i| format!("w{i}")).collect();
    let text = format!("{}\n\nend", run.join(" "));
    let chunks = chunk_text(&text);
    let known: Vec<&str> = text.split_whitespace().collect();
    for chunk in &chunks {
        for word in chunk.split_whitespace() {
            assert!(known.contains(&word), "{word}");
        }
    }
    assert!(chunks.last().unwrap().ends_with("w699 end"));
    for word in known {
        assert!(chunks.iter().any(|chunk| chunk.split_whitespace().any(|w| w == word)), "{word}");
    }
}

#[test]
fn a_sentence_follows_the_last_window_of_a_run_at_once() {
    let run: Vec<String> = (0..700).map(|i| format!("w{i}")).collect();
    let chunks = chunk_text(&format!("{}. Then more.", run.join(" ")));
    assert!(chunks.last().unwrap().ends_with("w698 w699.Then more."));
}

#[test]
fn chunks_inside_a_paragraph_are_sentences_one_after_the_other() {
    let text: String = (0..40).map(|i| sentence(25, i)).collect();
    let found = sentences(&text);
    let chunks = chunk_text(&text);
    assert!(chunks[0].starts_with(&found[0]));
    for chunk in &chunks {
        let start = found.iter().position(|s| chunk.starts_with(s.as_str())).unwrap();
        let end = (start..found.len()).find(|e| found[start..=*e].concat() == *chunk).unwrap();
        assert!(end >= start);
    }
}
