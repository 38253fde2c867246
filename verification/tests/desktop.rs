use corpus::chat::{ChatEvent, ChatSession};
use corpus::config::EMBED_DIM;
use corpus::desktop::{
    add_step, browse, chat_id, document_rows, idle_summary, mcp_config_json, needs_copy,
    open_command, pending_ingest, question_of, source_path, stage_name, status, summary_of,
    update_settings, vision_for, vision_status, AddStep, BrowseRequest, Estimate, Exchange,
    Platform, Surroundings,
};
use corpus::figures::{FigurePage, FigureReason, FigureScan};
use corpus::ingest::{IngestReport, Stage};
use corpus::store::{Chunk, DocumentRecord, Index};
use corpus::text_map::TextMap;
use corpus::vision::{Environment, VisionSettings};

fn chunk(id: usize, filename: &str, page: i32, figure: bool) -> Chunk {
    Chunk {
        id: format!("c{id}"),
        text: format!("text of chunk {id}"),
        filename: filename.to_string(),
        page,
        fhash: "h".to_string(),
        figure,
    }
}

fn sample() -> Index {
    let chunks = vec![
        chunk(0, "b.md", -1, false),
        chunk(1, "a.pdf", 1, false),
        chunk(2, "a.pdf", 2, true),
        chunk(3, "c.txt", -1, false),
    ];
    let vectors = chunks.iter().map(|_| vec![0u32; EMBED_DIM]).collect();
    Index::save(chunks, vectors)
}

fn records() -> TextMap<DocumentRecord> {
    let mut records = TextMap::new();
    for (name, path) in [("a.pdf", "/docs/a.pdf"), ("b.md", "/gone/b.md")] {
        records.insert(
            name.to_string(),
            DocumentRecord {
                filename: name.to_string(),
                path: path.to_string(),
                fhash: "h".to_string(),
                chunks: 1,
                pages: 0,
            },
        );
    }
    records
}

fn settings() -> VisionSettings {
    VisionSettings {
        enabled: false,
        base_url: "http://localhost:1/v1".to_string(),
        api_key: "secret".to_string(),
        model: "m".to_string(),
    }
}

#[test]
fn the_mcp_config_json_carries_the_installed_path() {
    let json = mcp_config_json("/tmp/data/bin/corpus-mcp");
    assert!(
        json.contains("\"command\": \"/tmp/data/bin/corpus-mcp\""),
        "the real path must appear as the command: {json}"
    );
    assert!(json.contains("\"enabled\": true"), "pi-style schema: {json}");
    assert!(json.contains("\"timeout\": 180"), "pi-style schema: {json}");
    assert!(json.contains("\"transport\": \"stdio\""), "pi-style schema: {json}");
}

#[test]
fn the_mcp_config_is_json_for_every_path() {
    let json = mcp_config_json("C:\\Users\\\"me\"\\bin\\corpus-mcp.exe");
    let value: serde_json::Value = serde_json::from_str(&json).unwrap();
    let server = &value["mcpServers"]["corpus"];
    assert_eq!(server["command"], "C:\\Users\\\"me\"\\bin\\corpus-mcp.exe");
    assert_eq!(server["args"].as_array().unwrap().len(), 0);
    assert_eq!(server["enabled"], true);
    assert_eq!(
        mcp_config_json("/x"),
        "{\n  \"mcpServers\": {\n    \"corpus\": {\n      \"transport\": \"stdio\",\n      \"command\": \"/x\",\n      \"args\": [],\n      \"enabled\": true,\n      \"timeout\": 180\n    }\n  }\n}"
    );
}

#[test]
fn documents_with_more_chunks_come_first() {
    let index = sample();
    let present = vec!["/docs/a.pdf".to_string()];
    let rows = document_rows(&index, &records(), &present);
    let names: Vec<&str> = rows.iter().map(|row| row.filename.as_str()).collect();
    assert_eq!(names, vec!["a.pdf", "b.md", "c.txt"]);
    assert_eq!((rows[0].chunks, rows[0].pages, rows[0].figures), (2, 2, 1));
    assert!(rows[0].source_available);
    assert_eq!(rows[1].path, "/gone/b.md");
    assert!(!rows[1].source_available);
    assert_eq!(rows[2].path, "");
    assert!(!rows[2].source_available);
}

#[test]
fn a_page_of_chunks_is_shown() {
    let index = sample();
    let records = records();
    let around = Surroundings {
        records: &records,
        present: &[],
        index_path: "/data/index",
        models_path: "/data/models",
    };
    let request = BrowseRequest {
        document: Some("a.pdf".to_string()),
        filter: None,
        page: None,
        offset: Some(1),
        limit: Some(0),
    };
    let page = browse(Some(&index), &request, &around);
    assert_eq!((page.total, page.offset, page.items.len()), (2, 1, 1));
    assert_eq!(page.items[0].id, "c2");
    assert_eq!(page.items[0].words, 4);
    assert!(page.items[0].figure);
    assert_eq!(page.documents.len(), 3);
    assert!(page.status.index_present);
    let list = BrowseRequest { document: None, filter: None, page: None, offset: None, limit: None };
    let none = browse(Some(&index), &list, &around);
    assert_eq!((none.total, none.items.len(), none.documents.len()), (0, 0, 3));
    assert_eq!(none.document, "");
    let empty = browse(None, &request, &around);
    assert_eq!((empty.total, empty.offset, empty.documents.len()), (0, 0, 0));
    assert_eq!(empty.document, "a.pdf");
    assert!(!empty.status.index_present);
}

#[test]
fn the_status_tells_of_the_index_or_of_the_build() {
    let index = sample();
    let shown = status(Some(&index), "/i", "/m");
    assert_eq!((shown.chunks, shown.documents), (4, 3));
    let bare = status(None, "/i", "/m");
    assert_eq!((bare.chunks, bare.documents, bare.dimension), (0, 0, 768));
    assert_eq!(bare.model, "BAAI/bge-base-en-v1.5");
    assert_eq!(bare.chunker_version, "3");
    assert_eq!((bare.index_path.as_str(), bare.models_path.as_str()), ("/i", "/m"));
}

#[test]
fn only_recorded_paths_are_opened() {
    assert_eq!(source_path(&records(), "a.pdf").unwrap(), "/docs/a.pdf");
    assert_eq!(source_path(&records(), "x").unwrap_err(), "no indexed document named x");
    let (program, args) = open_command(Platform::Windows, "/docs/a.pdf", true).unwrap();
    assert_eq!(program, "cmd");
    assert_eq!(args, vec!["/C", "start", "/docs/a.pdf"]);
    assert_eq!(open_command(Platform::MacOs, "p", true).unwrap().0, "open");
    assert_eq!(open_command(Platform::Other, "p", true).unwrap(), ("xdg-open", vec!["p".to_string()]));
    assert_eq!(open_command(Platform::Other, "p", false).unwrap_err(), "p no longer exists");
}

#[test]
fn summaries_carry_the_counts() {
    let report = IngestReport {
        indexed_files: vec!["a".to_string()],
        skipped_files: vec![],
        new_chunks: 1,
        total_chunks: 2,
        total_documents: 3,
        figures_found: 4,
        captions_made: 5,
        caption_failures: 6,
    };
    let summary = summary_of(report);
    assert!(!summary.cancelled);
    assert_eq!(summary.indexed, vec!["a"]);
    assert_eq!((summary.figures, summary.captions_made, summary.caption_failures), (4, 5, 6));
    let idle = idle_summary(Some(&sample()));
    assert!(idle.cancelled);
    assert_eq!((idle.total_chunks, idle.total_documents), (4, 3));
    assert_eq!(idle_summary(None).total_chunks, 0);
    assert_eq!(stage_name(Stage::Captioning), "captioning");
    assert_eq!(stage_name(Stage::Done), "done");
}

#[test]
fn captioning_is_asked_about_with_its_cost() {
    assert_eq!(add_step(0, 0), AddStep::Idle);
    assert_eq!(add_step(2, 0), AddStep::IndexText);
    assert_eq!(add_step(2, 1), AddStep::Ask);
    let mut estimate = Estimate::new();
    let page = FigurePage { page: 1, reason: FigureReason::Raster, images: 1 };
    for _ in 0..31 {
        estimate.add_scan(&FigureScan { pages: 10, figure_pages: vec![page] });
    }
    assert_eq!((estimate.figures, estimate.pages), (31, 310));
    let pending = pending_ingest("t".to_string(), 2, estimate, &settings(), true);
    assert_eq!((pending.documents, pending.pages, pending.figures), (2, 310, 31));
    for figures in 0..500usize {
        let pending = pending_ingest(
            String::new(),
            1,
            Estimate { figures, pages: 0 },
            &settings(),
            false,
        );
        let low = (figures as f64 * 4.0 / 60.0 * 10.0).round() / 10.0;
        let high = (figures as f64 * 15.0 / 60.0 * 10.0).round() / 10.0;
        assert_eq!(pending.caption_tenths_low as f64 / 10.0, low, "{figures}");
        assert_eq!(pending.caption_tenths_high as f64 / 10.0, high, "{figures}");
    }
}

#[test]
fn an_empty_box_does_not_blank_the_key() {
    let kept = update_settings(
        settings(),
        Some(true),
        Some("  http://localhost:2/v1 ".to_string()),
        Some("  ".to_string()),
        None,
    );
    assert!(kept.enabled);
    assert_eq!(kept.base_url, "http://localhost:2/v1");
    assert_eq!(kept.api_key, "secret");
    assert_eq!(kept.model, "m");
    let shown = vision_status(&kept, false);
    assert!(shown.api_key_set);
    assert!(!shown.pdfium);
    let changed = update_settings(kept, None, None, Some("new".to_string()), Some("v".to_string()));
    assert!(changed.enabled);
    assert_eq!((changed.api_key.as_str(), changed.model.as_str()), ("new", "v"));
}

#[test]
fn the_answer_beats_the_setting() {
    let env = Environment { url: None, key: None, model: None, timeout: Some("5".to_string()) };
    assert!(vision_for(&settings(), None, true, &env).unwrap().is_none());
    let config = vision_for(&settings(), Some(true), true, &env).unwrap().unwrap();
    assert_eq!((config.model.as_str(), config.timeout_secs), ("m", 5));
    let mut on = settings();
    on.enabled = true;
    assert!(vision_for(&on, Some(false), false, &env).unwrap().is_none());
    assert_eq!(
        vision_for(&on, None, false, &env).unwrap_err(),
        "captioning figures needs the PDFium runtime library in the data dir (or set RAG_PDFIUM_PATH); documents can still be indexed as text"
    );
}

#[test]
fn questions_are_trimmed_and_chats_are_named() {
    assert_eq!(question_of("  why? \n").unwrap(), "why?");
    assert_eq!(question_of(" \n").unwrap_err(), "ask a question first");
    assert_eq!(chat_id(1700000000000, 3), "1700000000000-3");
    assert_ne!(chat_id(1, 11), chat_id(11, 1));
}

#[test]
fn a_stopped_exchange_is_never_written() {
    let done = ChatEvent::Done { answer: "yes".to_string(), sources: Vec::new() };
    let mut session = ChatSession::begin("c".to_string(), "m", "t".to_string());
    let mut stopped = Exchange::new();
    assert!(stopped.take(&ChatEvent::Token { token: "y".to_string() }, false));
    assert!(!stopped.take(&done, true));
    assert!(!stopped.take(&done, false));
    assert!(stopped.answer.is_none());
    stopped.record(&mut session, "q", serde_json::Value::Null);
    assert!(session.turns.is_empty());
    assert_eq!(session.title, "New chat");

    let mut answered = Exchange::new();
    assert!(answered.take(&done, false));
    answered.record(&mut session, "q", serde_json::Value::Null);
    assert_eq!(session.turns.len(), 2);
    assert_eq!(session.turns[1].content, "yes");
    assert_eq!(session.sources.len(), 1);

    let mut failed = Exchange::new();
    assert!(failed.take(&ChatEvent::Error { message: "no".to_string() }, false));
    failed.record(&mut session, "again", serde_json::Value::Null);
    assert_eq!(session.turns.len(), 3);
    assert_eq!(session.sources.len(), 1);
}

#[test]
fn a_fresh_copy_is_left_alone() {
    assert!(!needs_copy(Some((5, 1)), Some((5, 1))));
    assert!(!needs_copy(Some((6, 0)), Some((5, 1))));
    assert!(needs_copy(Some((5, 0)), Some((5, 1))));
    assert!(needs_copy(Some((4, 9)), Some((5, 1))));
    assert!(needs_copy(None, Some((5, 1))));
    assert!(needs_copy(Some((5, 1)), None));
}

#[test]
fn a_stop_before_the_request_ends_the_exchange() {
    let mut exchange = Exchange::new();
    assert!(exchange.checkpoint(false));
    assert!(!exchange.stopped);
    assert!(!exchange.checkpoint(true));
    assert!(exchange.stopped);
    assert!(!exchange.checkpoint(false));
    assert!(exchange.answer.is_none());
}
