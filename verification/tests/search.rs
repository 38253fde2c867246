use corpus::config::EMBED_DIM;
use corpus::score::{fuse_one, fuse_two, Score};
use corpus::search::{finish_search, fuse, SearchStep};
use corpus::store::{Chunk, Index};
use corpus::{format_documents, format_results, format_results_numbered, search, SearchResult};

fn index_of(files: &[(&str, i32)]) -> Index {
    let chunks: Vec<Chunk> = files
        .iter()
        .enumerate()
        .map(|(i, (filename, page))| Chunk {
            id: format!("c{i}"),
            text: format!(" text {i} "),
            filename: filename.to_string(),
            page: *page,
            fhash: "h".to_string(),
            figure: i == 1,
        })
        .collect();
    let vectors = chunks.iter().map(|_| vec![0u32; EMBED_DIM]).collect();
    Index::save(chunks, vectors)
}

fn scores(values: &[f32]) -> Vec<Score> {
    values.iter().map(|value| Score { bits: value.to_bits() }).collect()
}

fn ids(results: &[SearchResult]) -> Vec<&str> {
    results.iter().map(|result| result.id.as_str()).collect()
}

#[test]
fn fused_ranks_reward_agreement() {
    let s = Score { bits: 0 };
    let pool = fuse(&[(4, s), (7, s)], &[(7, s), (9, s)]);
    assert_eq!(pool, vec![(7, fuse_two(1, 0)), (4, fuse_one(0)), (9, fuse_one(1))]);
}

#[test]
fn a_search_without_reranking_ends_in_fused_ranks() {
    let index = index_of(&[("a.pdf", 1), ("a.pdf", 2), ("b.md", -1)]);
    let dense = scores(&[0.2, 0.9, 0.5]);
    let lexical = scores(&[0.0, 0.0, 3.0]);
    match search(&index, &dense, &lexical, false, 2, None) {
        SearchStep::Finished(results) => {
            assert_eq!(ids(&results), vec!["c2", "c1"]);
            assert_eq!(results[0].score_kind, "rrf");
            assert_eq!(results[0].score, fuse_two(1, 0));
            assert!(results[1].figure);
        }
        SearchStep::Rerank(_) => panic!("nothing reranks"),
    }
}

#[test]
fn a_reranked_search_is_ordered_by_the_new_scores() {
    let index = index_of(&[("a.pdf", 1), ("a.pdf", 2), ("b.md", -1)]);
    let dense = scores(&[0.2, 0.9, 0.5]);
    let lexical = scores(&[0.0, 0.0, 3.0]);
    let pool = match search(&index, &dense, &lexical, true, 2, None) {
        SearchStep::Rerank(pool) => pool,
        SearchStep::Finished(_) => panic!("the pool is reranked"),
    };
    assert_eq!(pool, vec![2, 1, 0]);
    let results = finish_search(&index, &pool, &scores(&[0.1, 0.2, 0.9]), 2);
    assert_eq!(ids(&results), vec!["c0", "c1"]);
    assert_eq!(results[0].score_kind, "rerank");
}

#[test]
fn an_empty_scope_grounds_against_nothing() {
    let index = index_of(&[("a.pdf", 1), ("b.md", -1)]);
    let flat = scores(&[1.0, 1.0]);
    match search(&index, &flat, &flat, true, 6, Some(&[])) {
        SearchStep::Finished(results) => assert!(results.is_empty()),
        SearchStep::Rerank(_) => panic!("there is nothing to rerank"),
    }
    // A part of a name is not the name.
    let part = vec!["b".to_string()];
    match search(&index, &flat, &flat, false, 6, Some(&part)) {
        SearchStep::Finished(results) => assert!(results.is_empty()),
        SearchStep::Rerank(_) => panic!("nothing reranks"),
    }
    let scope = vec!["b.md".to_string()];
    match search(&index, &flat, &flat, false, 6, Some(&scope)) {
        SearchStep::Finished(results) => assert_eq!(ids(&results), vec!["c1"]),
        SearchStep::Rerank(_) => panic!("nothing reranks"),
    }
}

#[test]
fn scoped_questions_get_their_passages() {
    // Thirty chunks, of which every third is in scope and scores lowest of all.
    let files: Vec<(&str, i32)> =
        (0..30).map(|i| (if i % 3 == 0 { "b.md" } else { "a.pdf" }, 1)).collect();
    let index = index_of(&files);
    let values: Vec<f32> = (0..30).map(|i| if i % 3 == 0 { 0.1 } else { 0.9 }).collect();
    let (dense, lexical) = (scores(&values), scores(&[0.0; 30]));
    let scope = vec!["b.md".to_string()];
    for (k, wanted) in [(0, 0), (6, 6), (10, 10), (15, 10)] {
        match search(&index, &dense, &lexical, false, k, Some(&scope)) {
            SearchStep::Finished(results) => {
                assert_eq!(results.len(), wanted);
                assert!(results.iter().all(|result| result.filename == "b.md"));
            }
            SearchStep::Rerank(_) => panic!("nothing reranks"),
        }
    }
    let pool = match search(&index, &dense, &lexical, true, 6, Some(&scope)) {
        SearchStep::Rerank(pool) => pool,
        SearchStep::Finished(_) => panic!("the pool is reranked"),
    };
    assert_eq!(pool.len(), 10);
    assert_eq!(finish_search(&index, &pool, &scores(&[0.5; 10]), 6).len(), 6);
    match search(&index, &dense, &lexical, false, 20, None) {
        SearchStep::Finished(results) => assert_eq!(results.len(), 20),
        SearchStep::Rerank(_) => panic!("nothing reranks"),
    }
}

#[test]
fn passages_are_printed_with_their_citations() {
    let index = index_of(&[("a.pdf", 1), ("a.pdf", 2), ("b.md", -1)]);
    let results = finish_search(&index, &[1, 2], &scores(&[0.9, 0.125]), 6);
    assert_eq!(
        format_results(&results),
        "[a.pdf p.2 · figure | rerank 0.90]\ntext 1\n\n---\n\n[b.md | rerank 0.12]\ntext 2"
    );
    assert_eq!(
        format_results_numbered(&results),
        "[1] [a.pdf p.2 · figure | rerank 0.90]\ntext 1\n\n---\n\n[2] [b.md | rerank 0.12]\ntext 2"
    );
    assert_eq!(format_results(&[]), "No relevant passages found in the indexed documents.");
}

#[test]
fn documents_are_listed_by_name() {
    let index = index_of(&[("b.md", -1), ("a.pdf", 1), ("a.pdf", 2)]);
    assert_eq!(
        format_documents(&index),
        "2 document(s) indexed:\n\n  a.pdf  —  2 chunks, 2 pages\n  b.md  —  1 chunks, no pages tracked\n\n3 chunks total."
    );
    assert_eq!(
        format_documents(&Index::empty()),
        "No documents indexed. Run `rag index <documents dir>` first."
    );
}
