use corpus::config::EMBED_DIM;
use corpus::score::Score;
use corpus::store::{read_vectors, record_lines, vector_bytes, Chunk, Index, IndexMetadata, OpenError};

fn chunk(id: &str, filename: &str, page: i32, text: &str) -> Chunk {
    Chunk {
        id: id.to_string(),
        text: text.to_string(),
        filename: filename.to_string(),
        page,
        fhash: format!("hash of {filename}"),
        figure: false,
    }
}

fn sample() -> Index {
    let chunks = vec![
        chunk("0", "a.pdf", 1, "Minimum obstacle clearance"),
        chunk("1", "a.pdf", 2, "Holding pattern"),
        chunk("2", "b.md", -1, "Runway pavement"),
        chunk("3", "a.pdf", 2, "Obstacle height"),
    ];
    let vectors = (0..4).map(|_| vec![0u32; EMBED_DIM]).collect();
    Index::save(chunks, vectors)
}

fn score(value: f32) -> Score {
    Score { bits: value.to_bits() }
}

#[test]
fn vectors_are_read_back_as_they_were_written() {
    let rows: Vec<Vec<u32>> = vec![
        vec![1.5f32.to_bits(), (-0.25f32).to_bits()],
        vec![f32::MAX.to_bits(), 0x0102_0304],
        vec![u32::MAX, 0],
    ];
    let bytes = vector_bytes(&rows);
    assert_eq!(bytes.len(), 24);
    assert_eq!(bytes[..4], 1.5f32.to_le_bytes());
    assert_eq!(bytes[12..16], [4, 3, 2, 1]);
    assert_eq!(read_vectors(&bytes, 2, 3).unwrap(), rows);
}

#[test]
fn vectors_of_the_wrong_size_are_refused() {
    let error = read_vectors(&[0; 23], 2, 3).unwrap_err();
    assert_eq!(
        error.message("vectors.bin"),
        "vectors.bin holds 23 bytes, expected 24 for 3 chunks at 2 dims"
    );
    assert!(read_vectors(&[0; 28], 2, 3).is_err());
    assert!(read_vectors(&[], 2, 0).unwrap().is_empty());
}

#[test]
fn an_index_of_this_build_is_opened() {
    let index = sample();
    assert_eq!(index.metadata.chunks, 4);
    assert_eq!(index.metadata.documents, 2);
    let bytes = vector_bytes(&index.vectors);
    let opened = Index::open(index.metadata.clone(), index.chunks.clone(), &bytes).unwrap();
    assert_eq!(opened.vectors, index.vectors);
    assert_eq!(opened.texts(), index.texts());
    assert_eq!(opened.files().get("b.md").unwrap(), "hash of b.md");
    match Index::open(index.metadata.clone(), index.chunks.clone(), &bytes[4..]) {
        Err(OpenError::Vectors(error)) => assert_eq!(error.chunks, 4),
        _ => panic!("short vectors must be refused"),
    }
}

#[test]
fn an_index_of_another_build_is_refused() {
    let reason = |change: fn(&mut IndexMetadata)| {
        let mut metadata = IndexMetadata::current();
        change(&mut metadata);
        match Index::open(metadata, Vec::new(), &[]) {
            Err(OpenError::OtherBuild(reason)) => reason,
            _ => panic!("another build must be refused"),
        }
    };
    assert_eq!(
        reason(|metadata| metadata.model = "other".to_string()),
        "index was built with other but this app is pinned to BAAI/bge-base-en-v1.5"
    );
    assert_eq!(
        reason(|metadata| metadata.dim = 384),
        "index stores 384-dim vectors, this app embeds 768-dim"
    );
    assert_eq!(
        reason(|metadata| metadata.chunker_version = "2".to_string()),
        "index was chunked with version 2 , this app uses 3"
    );
    assert_eq!(
        reason(|metadata| metadata.normalization = "none".to_string()),
        "index vectors were normalized with none , this app uses l2"
    );
    assert!(IndexMetadata::current().matches_current_build().is_ok());
    assert!(Index::empty().chunks.is_empty());
}

#[test]
fn records_are_the_lines_that_are_not_blank() {
    assert_eq!(record_lines("a\r\n\n  \nb\r\nc\r"), vec!["a", "b", "c\r"]);
    assert!(record_lines("").is_empty());
}

#[test]
fn documents_are_counted_with_their_pages() {
    let stats = sample().document_stats();
    assert_eq!(stats.len(), 2);
    assert_eq!(stats.get("a.pdf"), Some(&(3, 2)));
    assert_eq!(stats.get("b.md"), Some(&(1, 0)));
    assert!(stats.get("c").is_none());
}

#[test]
fn browsing_filters_and_pages() {
    let index = sample();
    let ids = |found: (usize, Vec<Chunk>)| -> (usize, Vec<String>) {
        (found.0, found.1.into_iter().map(|chunk| chunk.id).collect())
    };
    let list = |ids: &[&str]| ids.iter().map(|id| id.to_string()).collect::<Vec<String>>();
    assert_eq!(ids(index.page_of_document("a.pdf", None, None, 0, 2)), (3, list(&["0", "1"])));
    assert_eq!(ids(index.page_of_document("a.pdf", None, None, 2, 2)), (3, list(&["3"])));
    assert_eq!(ids(index.page_of_document("a.pdf", Some("OBSTACLE"), None, 0, 9)), (2, list(&["0", "3"])));
    assert_eq!(ids(index.page_of_document("a.pdf", Some("obstacle"), Some(2), 0, 9)), (1, list(&["3"])));
    assert_eq!(ids(index.page_of_document("a.pdf", None, None, 9, 2)), (3, list(&[])));
    assert_eq!(ids(index.page_of_document("c", None, None, 0, 2)), (0, list(&[])));
}

#[test]
fn candidates_stay_in_scope() {
    let index = sample();
    let scores = [score(0.1), score(0.0), score(0.9), score(0.5)];
    let dense: Vec<usize> =
        index.dense_search(&scores, 9, None).iter().map(|item| item.0).collect();
    assert_eq!(dense, vec![2, 3, 0, 1]);
    let lexical: Vec<usize> =
        index.lexical_search(&scores, 2, None).iter().map(|item| item.0).collect();
    assert_eq!(lexical, vec![2, 3]);
    let scope = vec!["a.pdf".to_string()];
    let scoped: Vec<usize> =
        index.lexical_search(&scores, 9, Some(&scope)).iter().map(|item| item.0).collect();
    assert_eq!(scoped, vec![3, 0]);
    assert!(index.dense_search(&scores, 9, Some(&[])).is_empty());
}
