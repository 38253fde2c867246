use corpus::config::{EMBED_BATCH, EMBED_DIM};
use corpus::ingest::{finish_ingest, CaptionOutcome, IngestOutcome, Stage};
use corpus::pipeline::{IngestAction, Pipeline, SourceFile};
use corpus::Index;

fn file(filename: &str) -> SourceFile {
    SourceFile {
        filename: filename.to_string(),
        path: format!("/docs/{filename}"),
        is_pdf: filename.ends_with(".pdf"),
    }
}

fn page(text: &str) -> Vec<String> {
    vec![text.to_string()]
}

/// An index that holds `a.md` with the hash `h1`.
fn small_index() -> Index {
    let mut pipeline = Pipeline::new(&Index::empty(), vec![file("a.md")], false);
    pipeline.hashed("h1".to_string());
    pipeline.extracted(&page("A note."));
    pipeline.captions_kept();
    pipeline.batch_embedded();
    match finish_ingest(pipeline.run, Index::empty(), vec![vec![0; EMBED_DIM]]) {
        IngestOutcome::Save { index, .. } => index,
        IngestOutcome::Unchanged(_) => panic!("there is something to save"),
    }
}

#[test]
fn no_files_finish_at_once() {
    let mut pipeline = Pipeline::new(&Index::empty(), Vec::new(), true);
    assert_eq!(pipeline.next(), IngestAction::Keep);
    assert!(pipeline.progress().is_none());
    pipeline.captions_kept();
    assert_eq!(pipeline.next(), IngestAction::Finish);
    let told = pipeline.progress().unwrap();
    assert_eq!((told.stage, told.done, told.total), (Stage::Done, 0, 0));
    assert_eq!(told.current, "");
    assert!(pipeline.embedding_progress().is_none());
}

#[test]
fn known_files_are_left_and_changed_ones_read() {
    let index = small_index();
    let mut pipeline = Pipeline::new(&index, vec![file("a.md"), file("a.md"), file("b.md")], true);
    assert_eq!(pipeline.next(), IngestAction::Hash(0));
    let told = pipeline.progress().unwrap();
    assert_eq!((told.stage, told.done, told.total), (Stage::Extracting, 1, 3));
    assert_eq!(told.current, "a.md");
    pipeline.hashed("h1".to_string());
    assert_eq!(pipeline.next(), IngestAction::Hash(1));
    pipeline.hashed("h2".to_string());
    assert_eq!(pipeline.next(), IngestAction::Pages(1));
    assert!(pipeline.progress().is_none());
    pipeline.extracted(&page("Another note."));
    assert_eq!(pipeline.next(), IngestAction::Hash(2));
    pipeline.hashed("h3".to_string());
    pipeline.extracted(&page("  "));
    assert_eq!(pipeline.next(), IngestAction::Keep);
    assert_eq!(pipeline.run.report.skipped_files, vec!["a.md"]);
    assert_eq!(pipeline.run.report.indexed_files, vec!["a.md", "b.md"]);
    assert_eq!(pipeline.run.pending.len(), 1);
    assert_eq!(pipeline.run.pending[0].page, -1);
    assert_eq!(pipeline.run.pending[0].path, "/docs/a.md");
}

#[test]
fn nothing_is_left_at_the_end() {
    let mut pipeline = Pipeline::new(&Index::empty(), vec![file("long.md")], false);
    pipeline.hashed("h".to_string());
    let text = "One word after another makes a passage that is long enough. ".repeat(800);
    let pages: Vec<String> = (0..20).map(|_| text.clone()).collect();
    pipeline.extracted(&pages);
    let total = pipeline.run.pending.len();
    assert!(total > EMBED_BATCH);
    pipeline.captions_kept();
    assert_eq!(pipeline.next(), IngestAction::Embed(0, EMBED_BATCH));
    pipeline.batch_embedded();
    let told = pipeline.embedding_progress().unwrap();
    assert_eq!((told.stage, told.done, told.total), (Stage::Embedding, EMBED_BATCH, total));
    assert_eq!(told.current, "long.md");
    while let IngestAction::Embed(start, end) = pipeline.next() {
        assert!(start < end && end <= total);
        pipeline.batch_embedded();
    }
    assert_eq!(pipeline.next(), IngestAction::Finish);
    assert_eq!(pipeline.embedded, total);
    let told = pipeline.progress().unwrap();
    assert_eq!((told.stage, told.done, told.total), (Stage::Saving, total, total));
}

#[test]
fn only_figures_of_pdfs_are_captioned() {
    let files = || vec![file("a.md"), file("b.pdf")];
    let mut without = Pipeline::new(&Index::empty(), files(), false);
    without.hashed("h1".to_string());
    without.extracted(&page("A."));
    without.hashed("h2".to_string());
    without.extracted(&page("B."));
    assert_eq!(without.next(), IngestAction::Keep);

    let mut with = Pipeline::new(&Index::empty(), files(), true);
    with.hashed("h1".to_string());
    with.extracted(&page("A."));
    assert_eq!(with.next(), IngestAction::Hash(1));
    with.hashed("h2".to_string());
    with.extracted(&page("B."));
    assert_eq!(with.next(), IngestAction::Figures(1));
    with.scanned(vec![3, 7]);
    assert_eq!(with.next(), IngestAction::Caption(1, 3));
    with.captioned(CaptionOutcome::Known("A chart.".to_string()));
    assert_eq!(with.next(), IngestAction::Caption(1, 7));
    let told = with.progress().unwrap();
    assert_eq!((told.stage, told.done, told.total), (Stage::Captioning, 2, 2));
    assert_eq!(told.current, "b.pdf");
    with.captioned(CaptionOutcome::Made("A plan.".to_string()));
    assert_eq!(with.next(), IngestAction::Keep);
    assert_eq!(with.run.report.figures_found, 2);
    assert_eq!(with.run.report.captions_made, 1);
    let last = with.run.pending.last().unwrap();
    assert_eq!((last.page, last.text.as_str(), last.figure), (8, "A plan.", true));
    assert_eq!(last.fhash, "h2");
}

#[test]
fn a_pdf_without_figures_is_left() {
    let mut pipeline = Pipeline::new(&Index::empty(), vec![file("a.pdf"), file("b.pdf")], true);
    pipeline.hashed("h".to_string());
    pipeline.extracted(&page("A."));
    pipeline.scanned(Vec::new());
    assert_eq!(pipeline.next(), IngestAction::Hash(1));
    assert_eq!(pipeline.run.report.figures_found, 0);
}

#[test]
fn a_document_is_left_after_failures_in_a_row() {
    let mut pipeline = Pipeline::new(&Index::empty(), vec![file("a.pdf")], true);
    pipeline.hashed("h".to_string());
    pipeline.extracted(&page("A."));
    pipeline.scanned((0..10).collect());
    let mut asked = 0;
    while let IngestAction::Caption(_, page) = pipeline.next() {
        assert_eq!(page, asked);
        asked += 1;
        pipeline.captioned(CaptionOutcome::Failed);
    }
    assert_eq!(asked, corpus::ingest::MAX_CONSECUTIVE_CAPTION_FAILURES);
    assert_eq!(pipeline.next(), IngestAction::Keep);
    assert_eq!(pipeline.run.report.caption_failures, 10);
    assert_eq!(pipeline.run.report.figures_found, 10);
}

#[test]
fn a_second_run_changes_nothing() {
    let files = || vec![file("a.md"), file("b.pdf")];
    let mut first = Pipeline::new(&Index::empty(), files(), false);
    first.hashed("h1".to_string());
    first.extracted(&page("A note."));
    first.hashed("h2".to_string());
    first.extracted(&page("A page."));
    let count = first.run.pending.len();
    let (index, report) =
        match finish_ingest(first.run, Index::empty(), vec![vec![0; EMBED_DIM]; count]) {
            IngestOutcome::Save { index, report } => (index, report),
            IngestOutcome::Unchanged(_) => panic!("there is something to save"),
        };

    let mut second = Pipeline::new(&index, files(), true);
    second.hashed("h1".to_string());
    second.hashed("h2".to_string());
    assert_eq!(second.next(), IngestAction::Keep);
    second.captions_kept();
    assert_eq!(second.next(), IngestAction::Finish);
    match finish_ingest(second.run, index, Vec::new()) {
        IngestOutcome::Unchanged(again) => {
            assert!(again.indexed_files.is_empty());
            assert_eq!(again.skipped_files, vec!["a.md", "b.pdf"]);
            assert_eq!(again.new_chunks, 0);
            assert_eq!(again.total_chunks, report.total_chunks);
            assert_eq!(again.total_documents, report.total_documents);
            assert_eq!((report.total_chunks, report.total_documents), (2, 2));
        }
        IngestOutcome::Save { .. } => panic!("nothing has changed"),
    }
}
