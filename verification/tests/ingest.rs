use corpus::caption_cache::CaptionCache;
use corpus::config::{EMBED_BATCH, EMBED_DIM};
use corpus::ingest::{
    content_hash, finish_ingest, is_document_extension, is_pdf_extension, known_caption,
    number_chunks, page_hint, record_documents, remove_document, take_caption, CaptionOutcome, CaptionTally, IngestOutcome, IngestProgress,
    IngestRun, PendingChunk, Stage,
};
use corpus::store::{DocumentRecord, Index};
use corpus::text_map::TextMap;

#[test]
fn content_hash_is_16_hex_chars_and_stable() {
    let hash = content_hash(b"Doc 8168 Vol 2");
    assert_eq!(hash.len(), 16);
    assert_eq!(hash, content_hash(b"Doc 8168 Vol 2"));
    assert_ne!(hash, content_hash(b"different"));
}

#[test]
fn content_hashes_begin_the_digest() {
    assert_eq!(content_hash(b"abc"), "ba7816bf8f01cfea");
}

#[test]
fn pdfs_and_texts_are_documents() {
    for extension in ["pdf", "PDF", "md", "markdown", "txt"] {
        assert!(is_document_extension(extension), "{extension}");
    }
    for extension in ["png", "", "pdfx"] {
        assert!(!is_document_extension(extension), "{extension}");
    }
    assert!(is_pdf_extension("Pdf"));
    assert!(!is_pdf_extension("md"));
}

fn vectors(count: usize) -> Vec<Vec<u32>> {
    (0..count).map(|i| vec![i as u32; EMBED_DIM]).collect()
}

fn add(run: &mut IngestRun, filename: &str, hash: &str, pages: &[&str]) {
    assert!(run.needs_indexing(filename, hash));
    let pages: Vec<String> = pages.iter().map(|page| page.to_string()).collect();
    let pdf = filename.ends_with(".pdf");
    run.add_pages(filename, &format!("/docs/{filename}"), hash, &pages, pdf);
}

fn saved(run: IngestRun, existing: Index) -> (Index, corpus::IngestReport) {
    let count = run.pending.len();
    match finish_ingest(run, existing, vectors(count)) {
        IngestOutcome::Save { index, report } => (index, report),
        IngestOutcome::Unchanged(_) => panic!("there is something to save"),
    }
}

#[test]
fn a_second_run_skips_what_did_not_change() {
    let mut run = IngestRun::new(&Index::empty());
    add(&mut run, "a.pdf", "h1", &["Page one.", "Page two."]);
    add(&mut run, "b.md", "h2", &["Note."]);
    let (index, report) = saved(run, Index::empty());
    assert_eq!(report.indexed_files, vec!["a.pdf", "b.md"]);
    assert_eq!((report.new_chunks, report.total_chunks, report.total_documents), (3, 3, 2));
    assert_eq!(index.chunks[0].id, "h1:1:0");
    assert_eq!(index.chunks[1].id, "h1:2:0");
    assert_eq!(index.chunks[2].id, "h2:-1:0");

    let mut again = IngestRun::new(&index);
    assert!(!again.needs_indexing("a.pdf", "h1"));
    assert!(!again.needs_indexing("b.md", "h2"));
    match finish_ingest(again, index, Vec::new()) {
        IngestOutcome::Unchanged(report) => {
            assert_eq!(report.skipped_files, vec!["a.pdf", "b.md"]);
            assert_eq!((report.new_chunks, report.total_chunks, report.total_documents), (0, 3, 2));
        }
        IngestOutcome::Save { .. } => panic!("there is nothing to save"),
    }
}

#[test]
fn a_changed_file_gives_way_to_its_new_text() {
    let mut run = IngestRun::new(&Index::empty());
    add(&mut run, "a.pdf", "h1", &["Old."]);
    add(&mut run, "b.md", "h2", &["Kept."]);
    let (index, _) = saved(run, Index::empty());
    let mut second = IngestRun::new(&index);
    add(&mut second, "a.pdf", "h3", &["New."]);
    let (index, report) = saved(second, index);
    let texts: Vec<String> = index.texts();
    assert_eq!(texts, vec!["Kept.", "New."]);
    assert_eq!(index.vectors[0][0], 1);
    assert_eq!(index.vectors[1][0], 0);
    assert_eq!((report.new_chunks, report.total_chunks, report.total_documents), (1, 2, 2));
}

#[test]
fn chunks_of_one_page_are_numbered() {
    let piece = |page: i32| PendingChunk {
        filename: "a.pdf".to_string(),
        path: "/docs/a.pdf".to_string(),
        fhash: "h".to_string(),
        page,
        text: "t".to_string(),
        figure: false,
    };
    let ids: Vec<String> = number_chunks(&[piece(1), piece(2), piece(1), piece(-1)])
        .into_iter()
        .map(|chunk| chunk.id)
        .collect();
    assert_eq!(ids, vec!["h:1:0", "h:2:0", "h:1:1", "h:-1:0"]);
}

#[test]
fn captions_become_chunks_and_failures_are_counted() {
    let mut run = IngestRun::new(&Index::empty());
    assert!(run.needs_indexing("a.pdf", "h"));
    run.found_figures(6);
    let mut tally = CaptionTally::new(6);
    let outcomes = vec![
        CaptionOutcome::Made("A chart.".to_string()),
        CaptionOutcome::Failed,
        CaptionOutcome::Known("A map.".to_string()),
        CaptionOutcome::Failed,
        CaptionOutcome::Failed,
    ];
    for (page, outcome) in outcomes.into_iter().enumerate() {
        assert!(tally.goes_on());
        run.caption(&mut tally, "a.pdf", "/docs/a.pdf", "h", page, outcome);
    }
    // Three failures in a row give up on the rest, which counts as failed too.
    assert!(!tally.goes_on());
    assert_eq!((tally.known, tally.made, tally.failed), (1, 1, 4));
    assert_eq!(run.report.figures_found, 6);
    assert_eq!(run.report.captions_made, 1);
    assert_eq!(run.report.caption_failures, 4);
    assert_eq!(run.pending.len(), 2);
    assert_eq!(run.pending[1].page, 3);
    assert!(run.pending[1].figure);
}

#[test]
fn pieces_are_embedded_in_batches() {
    let mut run = IngestRun::new(&Index::empty());
    let pages: Vec<&str> = vec!["One page."; EMBED_BATCH + 3];
    add(&mut run, "a.pdf", "h", &pages);
    assert_eq!(run.next_batch(0), Some((0, EMBED_BATCH)));
    assert_eq!(run.next_batch(EMBED_BATCH), Some((EMBED_BATCH, EMBED_BATCH + 3)));
    assert_eq!(run.next_batch(EMBED_BATCH + 3), None);
}

#[test]
fn documents_are_recorded_and_removed() {
    let mut run = IngestRun::new(&Index::empty());
    add(&mut run, "a.pdf", "h1", &["One.", "Two."]);
    add(&mut run, "b.md", "h2", &["Note."]);
    let mut records: TextMap<DocumentRecord> = TextMap::new();
    let pending = run.pending.clone();
    let (index, _) = saved(run, Index::empty());
    record_documents(&mut records, &pending, &index);
    let record = records.get("a.pdf").unwrap();
    assert_eq!((record.path.as_str(), record.chunks, record.pages), ("/docs/a.pdf", 2, 2));
    assert_eq!(records.get("b.md").unwrap().pages, 0);

    let (removed, rest) = remove_document(index, "a.pdf").unwrap();
    assert_eq!(removed, 2);
    assert_eq!(rest.texts(), vec!["Note."]);
    assert_eq!(rest.vectors[0][0], 2);
    assert_eq!((rest.metadata.chunks, rest.metadata.documents), (1, 1));
    assert!(remove_document(rest, "a.pdf").is_none());
}

#[test]
fn progress_lines_tell_the_stage() {
    let at = |stage| IngestProgress { stage, done: 1, total: 2, current: "a.pdf".to_string() };
    assert_eq!(at(Stage::Extracting).line().unwrap(), "extracting 1/2 files — a.pdf");
    assert_eq!(at(Stage::Captioning).line().unwrap(), "captioning 1/2 figures — a.pdf");
    assert_eq!(at(Stage::Embedding).line().unwrap(), "embedded 1/2 new chunks");
    assert_eq!(at(Stage::Saving).line().unwrap(), "saving index");
    assert!(at(Stage::Done).line().is_none());
}

#[test]
fn hints_are_the_flowing_text_of_a_page() {
    let pages = vec!["Figure 1\n  shows a\thold".to_string()];
    let hint = page_hint(&pages, 0);
    assert_eq!(hint, "Figure 1 shows a hold");
    let words = "word ".repeat(500);
    assert_eq!(page_hint(&[words.clone()], 0), format!("{}…", &words[..300]));
    assert_eq!(page_hint(&pages, 5), "");
}

#[test]
fn the_model_is_asked_once_for_a_page() {
    let mut cache = CaptionCache::load(Vec::new());
    assert!(known_caption(&cache, b"page", "m1").is_none());
    assert!(matches!(take_caption(&mut cache, b"page", "m1", None), CaptionOutcome::Failed));
    assert!(cache.is_empty() && cache.save().is_none());

    let written = Some("A chart.".to_string());
    let made = take_caption(&mut cache, b"page", "m1", written);
    assert!(matches!(made, CaptionOutcome::Made(text) if text == "A chart."));
    assert_eq!(cache.get(b"page", "m1", corpus::vision::PROMPT_VERSION), Some("A chart."));

    let known = known_caption(&cache, b"page", "m1").unwrap();
    assert!(matches!(known, CaptionOutcome::Known(text) if text == "A chart."));
    assert!(known_caption(&cache, b"page", "m2").is_none());
    assert!(known_caption(&cache, b"other", "m1").is_none());
}
