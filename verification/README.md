# Corpus

A local engine for questions over one's own documents: PDF and text files are cut into passages,
indexed by meaning and by words, searched with both, and cited by page. Figures can be captioned by a
vision model, and answers come from a model on this machine or its own network.

The library in `src/` holds the rules, and Verus proves them:

- `chunk`, `split`, `text`: texts, words, sentences, and the passages cut from them
- `bm25`, `score`, `search`: term statistics, the ranking of scores, and the fusion of both searches
- `store`, `text_map`: the index, its vectors on disk, and browsing
- `ingest`, `pipeline`, `figures`, `render`, `caption_cache`: what indexing decides and in which
  order, from the pages of a PDF to the captions of its figures
- `endpoint`, `vision`, `json`: the requests to the engine, and the rule that they stay local
- `chat`, `salvage`, `session`: conversations, and reading a model's answer
- `embed`, `cli`, `server`, `desktop`: what the programs around the library decide

Scores and vectors are single-precision numbers, which the library holds as their bit patterns. Calls
into other crates stand behind small functions marked `external_body`, each with a comment that says
what is taken on trust.

`app/` is ordinary Rust: files, network, models, the command line (`main.rs`), the tool server
(`mcp.rs`) and the desktop window (`gui.rs`, whose shell is tauri).
