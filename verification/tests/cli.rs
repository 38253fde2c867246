use corpus::cli::{parse, progress_line, report_lines, Command, USAGE};
use corpus::ingest::{IngestProgress, IngestReport, Stage};

fn args(list: &[&str]) -> Vec<String> {
    list.iter().map(|arg| arg.to_string()).collect()
}

#[test]
fn commands_are_told_apart() {
    assert!(matches!(parse(&args(&[])), Ok(Command::Usage)));
    for word in ["help", "-h", "--help"] {
        assert!(matches!(parse(&args(&[word])), Ok(Command::Usage)));
    }
    assert!(matches!(parse(&args(&["probe"])), Ok(Command::Probe)));
    assert!(matches!(parse(&args(&["list", "more"])), Ok(Command::List)));
    assert_eq!(
        parse(&args(&["frob"])).unwrap_err(),
        format!("unknown command: frob\n\n{USAGE}")
    );
}

#[test]
fn indexing_needs_a_directory() {
    match parse(&args(&["index", "docs", "--vision"])).unwrap() {
        Command::Index { source, vision } => {
            assert_eq!(source, "docs");
            assert!(vision);
        }
        other => panic!("{other:?}"),
    }
    assert!(matches!(
        parse(&args(&["index", "docs"])),
        Ok(Command::Index { vision: false, .. })
    ));
    // A name that begins with dashes is a name; only `--` alone is none.
    for name in ["--docs", "--docs/a", "-", "./--"] {
        match parse(&args(&["index", name])).unwrap() {
            Command::Index { source, vision } => assert_eq!((source.as_str(), vision), (name, false)),
            other => panic!("{other:?}"),
        }
    }
    for wrong in [vec!["index"], vec!["index", "--"], vec!["index", "--/docs"]] {
        assert_eq!(parse(&args(&wrong)).unwrap_err(), "index needs a documents directory");
    }
}

#[test]
fn searches_take_their_options() {
    match parse(&args(&["search", "a question", "-k", "3", "--file", "a.pdf", "--no-rerank"])).unwrap() {
        Command::Search { query, k, file, rerank } => {
            assert_eq!(query, "a question");
            assert_eq!(k, 3);
            assert_eq!(file.as_deref(), Some("a.pdf"));
            assert!(!rerank);
        }
        other => panic!("{other:?}"),
    }
    match parse(&args(&["search", "q", "junk", "-k", "1", "-k", "2", "--file"])).unwrap() {
        Command::Search { k, file, rerank, .. } => {
            assert_eq!(k, 2);
            assert!(file.is_none());
            assert!(rerank);
        }
        other => panic!("{other:?}"),
    }
    assert!(matches!(parse(&args(&["search", "q"])), Ok(Command::Search { k: 6, .. })));
    assert_eq!(parse(&args(&["search"])).unwrap_err(), "search needs a query");
    assert_eq!(parse(&args(&["search", "-k"])).unwrap_err(), "search needs a query");
    assert_eq!(parse(&args(&["search", "q", "-k"])).unwrap_err(), "-k expects a number");
    assert_eq!(parse(&args(&["search", "q", "-k", "many"])).unwrap_err(), "-k expects a number");
}

#[test]
fn progress_is_told_in_lines() {
    let at = |stage| IngestProgress { stage, done: 2, total: 5, current: "a.pdf".to_string() };
    assert_eq!(progress_line(&at(Stage::Extracting)).unwrap(), "extracting 2/5 — a.pdf");
    assert_eq!(progress_line(&at(Stage::Captioning)).unwrap(), "captioning 2/5 figures — a.pdf");
    assert_eq!(progress_line(&at(Stage::Embedding)).unwrap(), "embedded 2/5 chunks");
    assert_eq!(progress_line(&at(Stage::Saving)).unwrap(), "saving index");
    assert!(progress_line(&at(Stage::Done)).is_none());
}

#[test]
fn reports_name_what_was_indexed() {
    let report = IngestReport {
        indexed_files: args(&["a.pdf", "b.md"]),
        skipped_files: args(&["c.txt"]),
        new_chunks: 9,
        total_chunks: 12,
        total_documents: 3,
        figures_found: 4,
        captions_made: 3,
        caption_failures: 1,
    };
    assert_eq!(
        report_lines(&report, true),
        "\n2 file(s) indexed, 1 unchanged, 9 new chunks\n4 figure page(s): 3 captioned, 1 failed\n  + a.pdf\n  + b.md\nindex now holds 12 chunks across 3 documents"
    );
    assert_eq!(
        report_lines(&IngestReport::default(), false),
        "\n0 file(s) indexed, 0 unchanged, 0 new chunks\nindex now holds 0 chunks across 0 documents"
    );
}
