//! What the desktop window shows and decides.

use vstd::prelude::*;

use crate::bm25::lowercase;
use crate::chat::{answer_turn, question_turn, turn_data, ChatEvent, ChatSession};
use crate::config::{CHUNKER_VERSION, EMBED_DIM, EMBED_MODEL};
use crate::figures::FigureScan;
use crate::ingest::{record_values, IngestReport, Stage};
use crate::json::{json_quote, json_string};
use crate::server::Stamp;
use crate::session::title_text;
use crate::split::{count_words, words};
use crate::store::{
    chunk_data, file_names, files_are_those_of_the_chunks, page_of, shown_chunks, stats_of, Chunk, ChunkData, DocumentRecord,
    Index, RecordData,
};
use crate::text::{
    chars_of, contains_text, decimal, is_digit, lemma_decimal, lemma_mark_splits, optional, owned, push_decimal,
    string_of, strings, trim, trim_slice, trimmed,
};
use crate::text_map::{
    ascending, key_position, lemma_before_irreflexive, lemma_before_total, lemma_before_transitive,
    lemma_map_of, side, text_before, Side, TextMap,
};
use crate::vision::{configured, Environment, SettingsData, VisionConfig, VisionSettings};

verus! {

// ---------------------------------------------------------------------------------------------
// The state of the index

/// The state of the index, for the window.
#[derive(Debug)]
pub struct IndexStatus {
    pub chunks: usize,
    pub documents: usize,
    pub model: String,
    pub dimension: usize,
    pub chunker_version: String,
    pub index_path: String,
    pub models_path: String,
    pub index_present: bool,
}

impl IndexStatus {
    /// The status tells of the index, or of this build where there is none.
    pub open spec fn tells_of(
        &self,
        index: Option<&Index>,
        index_path: Seq<char>,
        models_path: Seq<char>,
    ) -> bool {
        &&& self.index_path@ == index_path
        &&& self.models_path@ == models_path
        &&& self.index_present == (index is Some)
        &&& match index {
            Some(index) => {
                &&& self.chunks == index.metadata.chunks
                &&& self.documents == index.metadata.documents
                &&& self.model@ == index.metadata.model@
                &&& self.dimension == index.metadata.dim
                &&& self.chunker_version@ == index.metadata.chunker_version@
            },
            None => {
                &&& self.chunks == 0
                &&& self.documents == 0
                &&& self.model@ == EMBED_MODEL@
                &&& self.dimension == EMBED_DIM
                &&& self.chunker_version@ == CHUNKER_VERSION@
            },
        }
    }
}

/// The state of the index, where there is one.
pub fn status(index: Option<&Index>, index_path: &str, models_path: &str) -> (r: IndexStatus)
    ensures
        r.tells_of(index, index_path@, models_path@),
        r.index_path@ == index_path@,
        r.models_path@ == models_path@,
        r.index_present == (index is Some),
        index matches Some(index) ==> {
            &&& r.chunks == index.metadata.chunks
            &&& r.documents == index.metadata.documents
            &&& r.model@ == index.metadata.model@
            &&& r.dimension == index.metadata.dim
            &&& r.chunker_version@ == index.metadata.chunker_version@
        },
        index is None ==> {
            &&& r.chunks == 0
            &&& r.documents == 0
            &&& r.model@ == "BAAI/bge-base-en-v1.5"@
            &&& r.dimension == 768
            &&& r.chunker_version@ == "3"@
        },
{
    match index {
        Some(index) => IndexStatus {
            chunks: index.metadata.chunks,
            documents: index.metadata.documents,
            model: index.metadata.model.clone(),
            dimension: index.metadata.dim,
            chunker_version: index.metadata.chunker_version.clone(),
            index_path: owned(index_path),
            models_path: owned(models_path),
            index_present: true,
        },
        None => IndexStatus {
            chunks: 0,
            documents: 0,
            model: owned(EMBED_MODEL),
            dimension: EMBED_DIM,
            chunker_version: owned(CHUNKER_VERSION),
            index_path: owned(index_path),
            models_path: owned(models_path),
            index_present: false,
        },
    }
}

// ---------------------------------------------------------------------------------------------
// Documents

/// A document in the window's list.
#[derive(Debug)]
pub struct DocumentRow {
    pub filename: String,
    pub path: String,
    pub chunks: usize,
    pub pages: usize,
    /// The captions among the document's chunks: the drawings that the index can see.
    pub figures: usize,
    /// The file is still where it was indexed from.
    pub source_available: bool,
}

#[verifier::ext_equal]
pub struct RowData {
    pub filename: Seq<char>,
    pub path: Seq<char>,
    pub chunks: nat,
    pub pages: nat,
    pub figures: nat,
    pub source_available: bool,
}

impl View for DocumentRow {
    type V = RowData;

    open spec fn view(&self) -> RowData {
        RowData {
            filename: self.filename@,
            path: self.path@,
            chunks: self.chunks as nat,
            pages: self.pages as nat,
            figures: self.figures as nat,
            source_available: self.source_available,
        }
    }
}

/// Two rows with the same contents agree in every field.
pub proof fn contents_tell_rows_apart(a: DocumentRow, b: DocumentRow)
    requires
        a@ == b@,
    ensures
        a.filename@ == b.filename@,
        a.path@ == b.path@,
        a.chunks == b.chunks,
        a.pages == b.pages,
        a.figures == b.figures,
        a.source_available == b.source_available,
{
}

/// The contents of rows.
pub open spec fn row_data(rows: Seq<DocumentRow>) -> Seq<RowData> {
    Seq::new(rows.len(), |i: int| rows[i]@)
}

/// How many of the chunks before `end` describe a figure of a file.
pub open spec fn caption_count(chunks: Seq<ChunkData>, name: Seq<char>, end: int) -> nat
    decreases end,
{
    if end <= 0 {
        0
    } else {
        caption_count(chunks, name, end - 1) + (if chunks[end - 1].figure
            && chunks[end - 1].filename == name {
            1nat
        } else {
            0nat
        })
    }
}

/// The captions of a file are counted chunk by chunk: a chunk counts where it describes a figure and
/// is of the file.
pub proof fn captions_count_for_their_file(chunks: Seq<ChunkData>, name: Seq<char>, end: int)
    requires
        0 <= end < chunks.len(),
    ensures
        caption_count(chunks, name, 0) == 0,
        chunks[end].figure && chunks[end].filename == name ==> caption_count(chunks, name, end + 1)
            == caption_count(chunks, name, end) + 1,
        !chunks[end].figure || chunks[end].filename != name ==> caption_count(chunks, name, end + 1)
            == caption_count(chunks, name, end),
{
}

/// The recorded path of a file, or nothing where none is recorded.
pub open spec fn recorded_path(records: Map<Seq<char>, RecordData>, name: Seq<char>) -> Seq<char> {
    if records.contains_key(name) {
        records[name].path
    } else {
        Seq::empty()
    }
}

/// The row of a file, given which paths exist.
pub open spec fn row_of(
    chunks: Seq<ChunkData>,
    records: Map<Seq<char>, RecordData>,
    present: Seq<Seq<char>>,
    name: Seq<char>,
) -> RowData {
    let path = recorded_path(records, name);
    RowData {
        filename: name,
        path,
        chunks: stats_of(chunks, name).0,
        pages: stats_of(chunks, name).1,
        figures: caption_count(chunks, name, chunks.len() as int),
        source_available: path.len() > 0 && present.contains(path),
    }
}

/// The document with more chunks stands first; among equals, the one whose name does.
pub open spec fn row_before(a: RowData, b: RowData) -> bool {
    a.chunks > b.chunks || (a.chunks == b.chunks && text_before(a.filename, b.filename))
}

/// The rows stand in the order of the window's list.
pub open spec fn rows_in_order(rows: Seq<RowData>) -> bool {
    forall|i: int, j: int|
        0 <= i < j < rows.len() ==> row_before(#[trigger] rows[i], #[trigger] rows[j])
}

pub open spec fn names_row(rows: Seq<RowData>, name: Seq<char>) -> bool {
    exists|i: int| 0 <= i < rows.len() && (#[trigger] rows[i]).filename == name
}

/// The rows are those of the index: one for each file, in order.
pub open spec fn lists_documents(
    rows: Seq<RowData>,
    chunks: Seq<ChunkData>,
    records: Map<Seq<char>, RecordData>,
    present: Seq<Seq<char>>,
) -> bool {
    &&& rows_in_order(rows)
    &&& forall|i: int|
        0 <= i < rows.len() ==> (#[trigger] rows[i]) == row_of(
            chunks,
            records,
            present,
            rows[i].filename,
        )
    &&& forall|name: Seq<char>| #[trigger]
        names_row(rows, name) <==> file_names(chunks).contains(name)
}

/// A list of documents tells of each how many chunks, pages and captions it has, the path that is
/// recorded for it, and whether that exists; documents with more chunks stand first, and equal ones
/// in the order of their names.
pub proof fn document_lists_tell_every_field(
    rows: Seq<RowData>,
    chunks: Seq<ChunkData>,
    records: Map<Seq<char>, RecordData>,
    present: Seq<Seq<char>>,
    i: int,
    j: int,
)
    requires
        lists_documents(rows, chunks, records, present),
        0 <= i < rows.len(),
    ensures
        ({
            let name = rows[i].filename;
            &&& rows[i].chunks == stats_of(chunks, name).0
            &&& rows[i].pages == stats_of(chunks, name).1
            &&& rows[i].figures == caption_count(chunks, name, chunks.len() as int)
            &&& records.contains_key(name) ==> rows[i].path == records[name].path
            &&& !records.contains_key(name) ==> rows[i].path.len() == 0
            &&& rows[i].source_available <==> rows[i].path.len() > 0 && present.contains(
                rows[i].path,
            )
            &&& file_names(chunks).contains(name)
            &&& i < j < rows.len() ==> rows[i].chunks > rows[j].chunks || (rows[i].chunks
                == rows[j].chunks && text_before(rows[i].filename, rows[j].filename))
        }),
{
    assert(rows[i] == row_of(chunks, records, present, rows[i].filename));
    assert(names_row(rows, rows[i].filename));
    if i < j < rows.len() {
        assert(row_before(rows[i], rows[j]));
    }
}

proof fn lemma_row_before_transitive(a: RowData, b: RowData, c: RowData)
    requires
        row_before(a, b),
        row_before(b, c),
    ensures
        row_before(a, c),
{
    if a.chunks == b.chunks && b.chunks == c.chunks {
        lemma_before_transitive(a.filename, b.filename, c.filename);
    }
}

proof fn lemma_row_before_irreflexive(a: RowData)
    ensures
        !row_before(a, a),
{
    lemma_before_irreflexive(a.filename);
}

/// An index has one list of rows.
pub proof fn document_lists_are_unique(
    a: Seq<RowData>,
    b: Seq<RowData>,
    chunks: Seq<ChunkData>,
    records: Map<Seq<char>, RecordData>,
    present: Seq<Seq<char>>,
)
    requires
        lists_documents(a, chunks, records, present),
        lists_documents(b, chunks, records, present),
    ensures
        a == b,
{
    lemma_same_rows(a, b, chunks, records, present, 0);
    lemma_same_rows(b, a, chunks, records, present, 0);
    lemma_aligned(a, b, chunks, records, present, a.len() as int);
}

proof fn lemma_same_rows(
    a: Seq<RowData>,
    b: Seq<RowData>,
    chunks: Seq<ChunkData>,
    records: Map<Seq<char>, RecordData>,
    present: Seq<Seq<char>>,
    i: int,
)
    requires
        lists_documents(a, chunks, records, present),
        lists_documents(b, chunks, records, present),
    ensures
        0 <= i < a.len() ==> exists|j: int| 0 <= j < b.len() && #[trigger] b[j] == a[i],
{
    if 0 <= i < a.len() {
        assert(names_row(a, a[i].filename));
        assert(names_row(b, a[i].filename));
        let j = choose|j: int| 0 <= j < b.len() && (#[trigger] b[j]).filename == a[i].filename;
        assert(b[j] == a[i]);
    }
}

proof fn lemma_aligned(
    a: Seq<RowData>,
    b: Seq<RowData>,
    chunks: Seq<ChunkData>,
    records: Map<Seq<char>, RecordData>,
    present: Seq<Seq<char>>,
    end: int,
)
    requires
        lists_documents(a, chunks, records, present),
        lists_documents(b, chunks, records, present),
        0 <= end <= a.len(),
    ensures
        end <= b.len(),
        forall|i: int| 0 <= i < end ==> a[i] == b[i],
        end == a.len() ==> a == b,
    decreases end,
{
    if end > 0 {
        lemma_aligned(a, b, chunks, records, present, end - 1);
        let k = end - 1;
        lemma_same_rows(a, b, chunks, records, present, k);
        let j = choose|j: int| 0 <= j < b.len() && #[trigger] b[j] == a[k];
        if j < k {
            assert(a[j] == b[j]);
            assert(row_before(a[j], a[k]));
            lemma_row_before_irreflexive(a[k]);
        }
        if j > k {
            lemma_same_rows(b, a, chunks, records, present, k);
            let m = choose|m: int| 0 <= m < a.len() && #[trigger] a[m] == b[k];
            assert(row_before(b[k], b[j]));
            if m < k {
                assert(a[m] == b[m]);
                assert(row_before(b[m], b[k]));
                lemma_row_before_irreflexive(b[k]);
            } else if m == k {
                lemma_row_before_irreflexive(b[k]);
            } else {
                assert(row_before(a[k], a[m]));
                lemma_row_before_transitive(a[k], a[m], a[k]);
                lemma_row_before_irreflexive(a[k]);
            }
        }
    }
    if end == a.len() {
        if b.len() > a.len() {
            let k = a.len() as int;
            lemma_same_rows(b, a, chunks, records, present, k);
            let m = choose|m: int| 0 <= m < a.len() && #[trigger] a[m] == b[k];
            assert(a[m] == b[m]);
            assert(row_before(b[m], b[k]));
            lemma_row_before_irreflexive(b[k]);
        }
        assert(a =~= b);
    }
}

fn count_captions(chunks: &[Chunk], name: &String) -> (n: usize)
    ensures
        n == caption_count(chunk_data(chunks@), name@, chunks@.len() as int),
{
    let ghost all = chunk_data(chunks@);
    let mut n: usize = 0;
    let mut i: usize = 0;
    while i < chunks.len()
        invariant
            n <= i <= chunks@.len(),
            all == chunk_data(chunks@),
            n == caption_count(all, name@, i as int),
        decreases chunks.len() - i,
    {
        if chunks[i].figure && chunks[i].filename == *name {
            n += 1;
        }
        i += 1;
    }
    n
}

fn is_listed(paths: &[String], path: &String) -> (r: bool)
    ensures
        r == strings(paths@).contains(path@),
{
    let mut i: usize = 0;
    while i < paths.len()
        invariant
            i <= paths@.len(),
            forall|j: int| 0 <= j < i ==> strings(paths@)[j] != path@,
        decreases paths.len() - i,
    {
        if paths[i] == *path {
            assert(strings(paths@)[i as int] == path@);
            return true;
        }
        i += 1;
    }
    false
}

fn stands_before(a: &DocumentRow, b: &DocumentRow) -> (r: bool)
    ensures
        r == row_before(a@, b@),
{
    proof {
        lemma_before_irreflexive(a.filename@);
        if text_before(b.filename@, a.filename@) && text_before(a.filename@, b.filename@) {
            lemma_before_transitive(a.filename@, b.filename@, a.filename@);
        }
    }
    a.chunks > b.chunks || (a.chunks == b.chunks && side(a.filename.as_str(), b.filename.as_str())
        == Side::Before)
}

/// Puts a row at its place.
fn place_row(rows: &mut Vec<DocumentRow>, row: DocumentRow)
    requires
        rows_in_order(row_data(old(rows)@)),
        forall|i: int| 0 <= i < old(rows)@.len() ==> (#[trigger] old(rows)@[i])@.filename != row@.filename,
    ensures
        rows_in_order(row_data(final(rows)@)),
        exists|at: int|
            0 <= at <= old(rows)@.len() && row_data(final(rows)@) == #[trigger] row_data(
                old(rows)@,
            ).insert(at, row@),
{
    let ghost before = row_data(rows@);
    let mut at: usize = rows.len();
    while at > 0 && stands_before(&row, &rows[at - 1])
        invariant
            at <= rows@.len(),
            before == row_data(rows@),
            rows_in_order(before),
            forall|i: int| at <= i < before.len() ==> row_before(row@, #[trigger] before[i]),
        decreases at,
    {
        assert(before[at - 1] == rows@[at - 1]@);
        at -= 1;
    }
    proof {
        if at > 0 {
            assert(before[at - 1] == rows@[at - 1]@);
            lemma_before_total(row@.filename, before[at - 1].filename);
            assert(row_before(before[at - 1], row@));
        }
    }
    let ghost placed = row@;
    rows.insert(at, row);
    let ghost after = before.insert(at as int, placed);
    assert(row_data(rows@) =~= after);
    proof {
        assert forall|i: int, j: int| 0 <= i < j < after.len() implies row_before(
            #[trigger] after[i],
            #[trigger] after[j],
        ) by {
            let a = if i < at {
                i
            } else {
                i - 1
            };
            let b = if j < at {
                j
            } else {
                j - 1
            };
            if i != at && j != at {
                assert(after[i] == before[a] && after[j] == before[b]);
            } else if i == at {
                assert(after[j] == before[b]);
            } else {
                assert(after[i] == before[i]);
                if i < at - 1 {
                    assert(row_before(before[i], before[at - 1]));
                    lemma_row_before_transitive(before[i], before[at - 1], placed);
                }
            }
        }
    }
}

/// The documents of the index with the paths that are recorded for them, given which paths exist.
pub fn document_rows(
    index: &Index,
    records: &TextMap<DocumentRecord>,
    present: &[String],
) -> (r: Vec<DocumentRow>)
    ensures
        lists_documents(
            row_data(r@),
            chunk_data(index.chunks@),
            record_values(records@),
            strings(present@),
        ),
        forall|i: int, j: int|
            0 <= i < j < r@.len() ==> (#[trigger] r@[i]).chunks > (#[trigger] r@[j]).chunks || (
            r@[i].chunks == r@[j].chunks && text_before(r@[i].filename@, r@[j].filename@)),
        forall|i: int|
            0 <= i < r@.len() ==> {
                let name = (#[trigger] r@[i]).filename@;
                let recorded = record_values(records@);
                &&& r@[i].chunks == stats_of(chunk_data(index.chunks@), name).0
                &&& r@[i].pages == stats_of(chunk_data(index.chunks@), name).1
                &&& r@[i].figures == caption_count(
                    chunk_data(index.chunks@),
                    name,
                    index.chunks@.len() as int,
                )
                &&& recorded.contains_key(name) ==> r@[i].path@ == recorded[name].path
                &&& !recorded.contains_key(name) ==> r@[i].path@.len() == 0
                &&& r@[i].source_available <==> r@[i].path@.len() > 0 && strings(
                    present@,
                ).contains(r@[i].path@)
                &&& exists|k: int|
                    0 <= k < index.chunks@.len() && (#[trigger] index.chunks@[k]).filename@ == name
            },
        forall|k: int|
            0 <= k < index.chunks@.len() ==> exists|i: int|
                0 <= i < r@.len() && (#[trigger] r@[i]).filename@ == (
                #[trigger] index.chunks@[k]).filename@,
{
    let ghost all = chunk_data(index.chunks@);
    let ghost known = record_values(records@);
    let ghost paths = strings(present@);
    let stats = index.document_stats();
    let total: usize = stats.len();
    let ghost list = stats.list();
    let mut rows: Vec<DocumentRow> = Vec::new();
    let mut k: usize = 0;
    while k < total
        invariant
            k <= total,
            total == list.len(),
            list == stats.list(),
            ascending(list),
            all == chunk_data(index.chunks@),
            known == record_values(records@),
            paths == strings(present@),
            stats@.dom() == file_names(all),
            forall|name: Seq<char>| #[trigger]
                stats@.contains_key(name) ==> (stats@[name].0 as nat, stats@[name].1 as nat)
                    == stats_of(all, name),
            rows_in_order(row_data(rows@)),
            forall|i: int|
                0 <= i < rows@.len() ==> (#[trigger] row_data(rows@)[i]) == row_of(
                    all,
                    known,
                    paths,
                    row_data(rows@)[i].filename,
                ),
            forall|i: int|
                0 <= i < rows@.len() ==> file_names(all).contains(
                    (#[trigger] row_data(rows@)[i]).filename,
                ),
            forall|i: int, j: int|
                0 <= i < rows@.len() && k <= j < list.len() ==> (#[trigger] row_data(
                    rows@,
                )[i]).filename != (#[trigger] list[j]).0,
            forall|j: int|
                0 <= j < k ==> names_row(row_data(rows@), (#[trigger] list[j]).0),
        decreases total - k,
    {
        let ghost before = row_data(rows@);
        let name = stats.key_at(k).clone();
        let counts = stats.value_at(k);
        proof {
            lemma_map_of(list, k as int);
            assert(stats@.contains_key(name@));
        }
        let path: String = match records.get(name.as_str()) {
            Some(record) => record.path.clone(),
            None => String::new(),
        };
        assert(path@ =~= recorded_path(known, name@));
        let source_available: bool = path.as_str().as_bytes().len() > 0 && is_listed(
            present,
            &path,
        );
        let row = DocumentRow {
            chunks: counts.0,
            pages: counts.1,
            figures: count_captions(index.chunks.as_slice(), &name),
            filename: name,
            path,
            source_available,
        };
        let ghost placed = row@;
        assert(placed == row_of(all, known, paths, list[k as int].0));
        assert forall|i: int| 0 <= i < rows@.len() implies (#[trigger] rows@[i])@.filename
            != row@.filename by {
            assert(before[i] == rows@[i]@);
            assert(before[i].filename != list[k as int].0);
        }
        place_row(&mut rows, row);
        proof {
            let at = choose|at: int|
                0 <= at <= before.len() && row_data(rows@) == #[trigger] before.insert(at, placed);
            let after = before.insert(at, placed);
            assert(after == row_data(rows@));
            assert forall|i: int| 0 <= i < after.len() implies (#[trigger] after[i]) == row_of(
                all,
                known,
                paths,
                after[i].filename,
            ) && file_names(all).contains(after[i].filename) by {
                let a = if i < at {
                    i
                } else {
                    i - 1
                };
                if i != at {
                    assert(after[i] == before[a]);
                }
            }
            assert forall|i: int, j: int| 0 <= i < after.len() && k + 1 <= j < list.len() implies (
            #[trigger] after[i]).filename != (#[trigger] list[j]).0 by {
                let a = if i < at {
                    i
                } else {
                    i - 1
                };
                if i != at {
                    assert(after[i] == before[a]);
                } else {
                    assert(text_before(list[k as int].0, list[j].0));
                    lemma_before_irreflexive(list[j].0);
                }
            }
            assert forall|j: int| 0 <= j < k + 1 implies names_row(after, (#[trigger] list[j]).0) by {
                if j == k {
                    assert(after[at].filename == list[j].0);
                } else {
                    assert(names_row(before, list[j].0));
                    let i = choose|i: int|
                        0 <= i < before.len() && (#[trigger] before[i]).filename == list[j].0;
                    let b = if i < at {
                        i
                    } else {
                        i + 1
                    };
                    assert(after[b] == before[i]);
                }
            }
        }
        k += 1;
    }
    proof {
        let done = row_data(rows@);
        assert forall|name: Seq<char>| #[trigger] names_row(done, name) <==> file_names(
            all,
        ).contains(name) by {
            if names_row(done, name) {
                let i = choose|i: int| 0 <= i < done.len() && (#[trigger] done[i]).filename == name;
                assert(file_names(all).contains(done[i].filename));
            }
            if file_names(all).contains(name) {
                assert(stats@.contains_key(name));
                let j = key_position(list, name);
                assert(list[j].0 == name);
            }
        }
        assert forall|i: int, j: int| 0 <= i < j < rows@.len() implies (#[trigger] rows@[i]).chunks
            > (#[trigger] rows@[j]).chunks || (rows@[i].chunks == rows@[j].chunks && text_before(
            rows@[i].filename@,
            rows@[j].filename@,
        )) by {
            assert(row_before(done[i], done[j]));
        }
        assert forall|i: int| 0 <= i < rows@.len() implies {
            let name = (#[trigger] rows@[i]).filename@;
            &&& rows@[i]@ == row_of(all, known, paths, name)
            &&& exists|k: int|
                0 <= k < index.chunks@.len() && (#[trigger] index.chunks@[k]).filename@ == name
        } by {
            let name = rows@[i].filename@;
            assert(done[i] == row_of(all, known, paths, done[i].filename));
            assert(file_names(all).contains(done[i].filename));
            files_are_those_of_the_chunks(all, all.len() as int, name);
            let k = choose|k: int| 0 <= k < all.len() && (#[trigger] all[k]).filename == name;
            assert(index.chunks@[k].filename@ == name);
        }
        assert forall|k: int| 0 <= k < index.chunks@.len() implies exists|i: int|
            0 <= i < rows@.len() && (#[trigger] rows@[i]).filename@ == (
            #[trigger] index.chunks@[k]).filename@ by {
            let name = index.chunks@[k].filename@;
            assert(all[k].filename == name);
            files_are_those_of_the_chunks(all, all.len() as int, name);
            assert(names_row(done, name));
            let i = choose|i: int| 0 <= i < done.len() && (#[trigger] done[i]).filename == name;
            assert(rows@[i].filename@ == name);
        }
    }
    rows
}

// ---------------------------------------------------------------------------------------------
// Browsing

/// A chunk in the window's list.
#[derive(Debug)]
pub struct ChunkRow {
    pub id: String,
    pub page: i32,
    pub words: usize,
    pub text: String,
    /// The text describes a figure and is not printed in the document.
    pub figure: bool,
}

impl ChunkRow {
    pub open spec fn shows(&self, chunk: ChunkData) -> bool {
        &&& self.id@ == chunk.id
        &&& self.page == chunk.page
        &&& self.words == words(chunk.text).len()
        &&& self.text@ == chunk.text
        &&& self.figure == chunk.figure
    }
}

/// A row that shows a chunk has its number, its page, its text with the number of its words, and
/// tells whether it describes a figure.
pub proof fn rows_show_every_field(row: ChunkRow, chunk: ChunkData)
    requires
        row.shows(chunk),
    ensures
        row.id@ == chunk.id,
        row.page == chunk.page,
        row.words == words(chunk.text).len(),
        row.text@ == chunk.text,
        row.figure == chunk.figure,
{
}

/// The rows show these chunks.
pub open spec fn rows_show(rows: Seq<ChunkRow>, chunks: Seq<ChunkData>) -> bool {
    &&& rows.len() == chunks.len()
    &&& forall|i: int| 0 <= i < rows.len() ==> (#[trigger] rows[i]).shows(chunks[i])
}

/// One page of a document's chunks, beside the list of all documents.
#[derive(Debug)]
pub struct BrowsePage {
    pub document: String,
    pub total: usize,
    pub offset: usize,
    pub items: Vec<ChunkRow>,
    pub documents: Vec<DocumentRow>,
    pub status: IndexStatus,
}

/// What the window asks for.
#[derive(Debug)]
pub struct BrowseRequest {
    pub document: Option<String>,
    pub filter: Option<String>,
    pub page: Option<i32>,
    pub offset: Option<usize>,
    pub limit: Option<usize>,
}

/// What is known outside the index when a page is shown.
pub struct Surroundings<'a> {
    pub records: &'a TextMap<DocumentRecord>,
    /// The recorded paths that exist.
    pub present: &'a [String],
    pub index_path: &'a str,
    pub models_path: &'a str,
}

/// The number of chunks on a page: 40 where none is asked for, and between 1 and 200.
pub open spec fn page_size(limit: Option<usize>) -> int {
    match limit {
        Some(n) => if n < 1 {
            1
        } else if n > 200 {
            200
        } else {
            n as int
        },
        None => 40,
    }
}

/// A page has at least one chunk and at most 200, as many as asked for between those, and 40 where
/// nothing is asked for.
pub proof fn page_sizes_are_bounded(limit: Option<usize>)
    ensures
        1 <= page_size(limit) <= 200,
        limit is None ==> page_size(limit) == 40,
        limit matches Some(n) ==> (1 <= n <= 200 ==> page_size(limit) == n) && (n > 200
            ==> page_size(limit) == 200) && (n < 1 ==> page_size(limit) == 1),
{
}

/// The name in the request, or nothing.
pub open spec fn named(document: Option<Seq<char>>) -> Seq<char> {
    match document {
        Some(name) => name,
        None => Seq::empty(),
    }
}

/// The chunks of a document that the request asks for.
pub open spec fn requested(request: BrowseRequest, chunks: Seq<ChunkData>) -> Seq<ChunkData> {
    match optional(request.document) {
        Some(name) => shown_chunks(
            chunks,
            name,
            match optional(request.filter) {
                Some(text) => Some(lowercase(text)),
                None => None,
            },
            request.page,
            chunks.len() as int,
        ),
        None => Seq::empty(),
    }
}

fn chunk_rows(chunks: &[Chunk]) -> (r: Vec<ChunkRow>)
    ensures
        rows_show(r@, chunk_data(chunks@)),
{
    let mut out: Vec<ChunkRow> = Vec::new();
    let mut i: usize = 0;
    while i < chunks.len()
        invariant
            i <= chunks@.len(),
            out@.len() == i,
            forall|j: int| 0 <= j < i ==> (#[trigger] out@[j]).shows(chunk_data(chunks@)[j]),
        decreases chunks.len() - i,
    {
        let chunk = &chunks[i];
        out.push(
            ChunkRow {
                id: chunk.id.clone(),
                page: chunk.page,
                words: count_words(chunk.text.as_str()),
                text: chunk.text.clone(),
                figure: chunk.figure,
            },
        );
        i += 1;
    }
    out
}

/// The row shows one of the chunks: one of the document, and of the page where one is asked for,
/// with every field of it.
pub open spec fn shown_from(
    row: ChunkRow,
    chunks: Seq<Chunk>,
    document: Seq<char>,
    page: Option<i32>,
) -> bool {
    exists|c: int|
        0 <= c < chunks.len() && {
            &&& (#[trigger] chunks[c]).filename@ == document
            &&& row.id@ == chunks[c].id@
            &&& row.page == chunks[c].page
            &&& row.text@ == chunks[c].text@
            &&& row.words == words(chunks[c].text@).len()
            &&& row.figure == chunks[c].figure
            &&& page matches Some(p) ==> row.page == p
        }
}

/// One page of a document's chunks and the list of all documents; without a document only the list,
/// and without an index an empty page.
pub fn browse(index: Option<&Index>, request: &BrowseRequest, around: &Surroundings) -> (r: BrowsePage)
    ensures
        r.document@ == named(optional(request.document)),
        r.status.tells_of(index, around.index_path@, around.models_path@),
        match index {
            Some(index) => {
                let chunks = chunk_data(index.chunks@);
                let wanted = requested(*request, chunks);
                let offset: usize = match request.offset {
                    Some(n) => n,
                    None => 0,
                };
                &&& r.total == wanted.len()
                &&& r.offset == offset
                &&& rows_show(r.items@, page_of(wanted, offset as int, page_size(request.limit)))
                &&& lists_documents(
                    row_data(r.documents@),
                    chunks,
                    record_values(around.records@),
                    strings(around.present@),
                )
            },
            None => {
                &&& r.total == 0
                &&& r.offset == 0
                &&& r.items@.len() == 0
                &&& r.documents@.len() == 0
            },
        },
        request.document matches Some(name) ==> r.document@ == name@,
        request.document is None ==> r.document@.len() == 0 && r.total == 0 && r.items@.len() == 0,
        forall|k: int|
            0 <= k < r.items@.len() ==> index is Some && shown_from(
                #[trigger] r.items@[k],
                index->0.chunks@,
                r.document@,
                request.page,
            ),
        request.filter matches Some(text) ==> forall|k: int|
            0 <= k < r.items@.len() ==> contains_text(
                lowercase((#[trigger] r.items@[k]).text@),
                lowercase(text@),
            ),
        index is Some && request.document is Some ==> r.total == Set::new(
            |i: int|
                0 <= i < index->0.chunks@.len() && index->0.chunks@[i].filename@
                    == request.document->0@ && (request.page matches Some(p)
                    ==> index->0.chunks@[i].page == p) && (request.filter matches Some(q)
                    ==> contains_text(lowercase(index->0.chunks@[i].text@), lowercase(q@))),
        ).len(),
        r.items@.len() == (if r.offset >= r.total {
            0int
        } else if page_size(request.limit) < r.total - r.offset {
            page_size(request.limit)
        } else {
            r.total - r.offset
        }),
        index is Some ==> (request.offset matches Some(n) ==> r.offset == n),
        request.offset is None ==> r.offset == 0,
{
    let document: String = match &request.document {
        Some(name) => name.clone(),
        None => String::new(),
    };
    assert(document@ =~= named(optional(request.document)));
    let status = status(index, around.index_path, around.models_path);
    let index = match index {
        Some(index) => index,
        None => {
            return BrowsePage {
                document,
                total: 0,
                offset: 0,
                items: Vec::new(),
                documents: Vec::new(),
                status,
            };
        },
    };
    let offset: usize = match request.offset {
        Some(n) => n,
        None => 0,
    };
    let limit: usize = match request.limit {
        Some(n) => if n < 1 {
            1
        } else if n > 200 {
            200
        } else {
            n
        },
        None => 40,
    };
    let found: (usize, Vec<Chunk>) = match &request.document {
        Some(name) => {
            let filter: Option<&str> = match &request.filter {
                Some(text) => Some(text.as_str()),
                None => None,
            };
            let found = index.page_of_document(name.as_str(), filter, request.page, offset, limit);
            proof {
                let counted = Set::new(
                    |i: int|
                        0 <= i < index.chunks@.len() && index.chunks@[i].filename@ == name@ && (
                        request.page matches Some(p) ==> index.chunks@[i].page == p) && (
                        filter matches Some(q) ==> contains_text(
                            lowercase(index.chunks@[i].text@),
                            lowercase(q@),
                        )),
                );
                let asked = Set::new(
                    |i: int|
                        0 <= i < index.chunks@.len() && index.chunks@[i].filename@
                            == request.document->0@ && (request.page matches Some(p)
                            ==> index.chunks@[i].page == p) && (request.filter matches Some(q)
                            ==> contains_text(
                            lowercase(index.chunks@[i].text@),
                            lowercase(q@),
                        )),
                );
                assert(counted =~= asked);
            }
            found
        },
        None => (0, Vec::new()),
    };
    assert(chunk_data(found.1@) =~= page_of(
        requested(*request, chunk_data(index.chunks@)),
        offset as int,
        limit as int,
    ));
    let items = chunk_rows(found.1.as_slice());
    proof {
        if let Some(text) = &request.filter {
            assert forall|k: int| 0 <= k < items@.len() implies contains_text(
                lowercase((#[trigger] items@[k]).text@),
                lowercase(text@),
            ) by {
                let data = chunk_data(found.1@);
                assert(items@[k].shows(data[k]));
                assert(data[k] == found.1@[k]@);
                assert(found.1@[k].text@ == items@[k].text@);
            }
        }
        assert forall|k: int| 0 <= k < items@.len() implies shown_from(
            #[trigger] items@[k],
            index.chunks@,
            document@,
            request.page,
        ) by {
            let data = chunk_data(found.1@);
            assert(items@[k].shows(data[k]));
            assert(data[k] == found.1@[k]@);
            assert(found.1@[k].filename@ == document@);
            let c = choose|i: int|
                #![trigger index.chunks@[i]]
                0 <= i < index.chunks@.len() && found.1@[k].id@ == index.chunks@[i].id@
                    && found.1@[k].text@ == index.chunks@[i].text@ && found.1@[k].page
                    == index.chunks@[i].page && found.1@[k].figure == index.chunks@[i].figure
                    && found.1@[k].filename@ == index.chunks@[i].filename@
                    && found.1@[k].fhash@ == index.chunks@[i].fhash@;
            assert(index.chunks@[c].filename@ == document@);
        }
    }
    BrowsePage {
        document,
        total: found.0,
        offset,
        items,
        documents: document_rows(index, around.records, around.present),
        status,
    }
}

// ---------------------------------------------------------------------------------------------
// Opening a source

/// The system that the window runs on.
#[derive(Clone, Copy, Debug, PartialEq, Eq, Structural)]
pub enum Platform {
    MacOs,
    Windows,
    Other,
}

/// The recorded path of a document. Only recorded paths can be opened, so that the window cannot ask
/// for any file on the machine.
pub fn source_path(records: &TextMap<DocumentRecord>, filename: &str) -> (r: Result<String, String>)
    ensures
        match r {
            Ok(path) => record_values(records@).contains_key(filename@) && path@ == record_values(
                records@,
            )[filename@].path,
            Err(reason) => !record_values(records@).contains_key(filename@) && reason@
                == "no indexed document named "@ + filename@,
        },
{
    match records.get(filename) {
        Some(record) => Ok(record.path.clone()),
        None => {
            let mut reason = owned("no indexed document named ");
            reason.push_str(filename);
            Err(reason)
        },
    }
}

/// The arguments that open a file.
pub open spec fn opener_args(platform: Platform, path: Seq<char>) -> Seq<Seq<char>> {
    match platform {
        Platform::Windows => seq!["/C"@, "start"@, path],
        _ => seq![path],
    }
}

/// The program that opens a file with what the system has for it, and its arguments; nothing but the
/// reason where the file no longer exists.
pub fn open_command(platform: Platform, path: &str, exists: bool) -> (r: Result<
    (&'static str, Vec<String>),
    String,
>)
    ensures
        match r {
            Ok((program, args)) => {
                &&& exists
                &&& program@ == (match platform {
                    Platform::MacOs => "open"@,
                    Platform::Windows => "cmd"@,
                    Platform::Other => "xdg-open"@,
                })
                &&& strings(args@) == opener_args(platform, path@)
            },
            Err(reason) => !exists && reason@ == path@ + " no longer exists"@,
        },
        r matches Ok((program, args)) ==> {
            &&& args@.len() > 0
            &&& args@.last()@ == path@
            &&& platform is Windows ==> args@.len() == 3 && args@[0]@ == "/C"@ && args@[1]@
                == "start"@
            &&& !(platform is Windows) ==> args@.len() == 1
        },
{
    if !exists {
        let mut reason = owned(path);
        reason.push_str(" no longer exists");
        return Err(reason);
    }
    let mut args: Vec<String> = Vec::new();
    let program: &'static str = match platform {
        Platform::MacOs => "open",
        Platform::Windows => {
            args.push(owned("/C"));
            args.push(owned("start"));
            "cmd"
        },
        Platform::Other => "xdg-open",
    };
    args.push(owned(path));
    assert(strings(args@) =~= opener_args(platform, path@));
    Ok((program, args))
}

// ---------------------------------------------------------------------------------------------
// Adding documents

/// The name of a stage, as the window knows it.
pub fn stage_name(stage: Stage) -> (r: &'static str)
    ensures
        r@ == (match stage {
            Stage::Extracting => "extracting"@,
            Stage::Captioning => "captioning"@,
            Stage::Embedding => "embedding"@,
            Stage::Saving => "saving"@,
            Stage::Done => "done"@,
        }),
{
    match stage {
        Stage::Extracting => "extracting",
        Stage::Captioning => "captioning",
        Stage::Embedding => "embedding",
        Stage::Saving => "saving",
        Stage::Done => "done",
    }
}

/// What an ingest did, for the window.
#[derive(Debug)]
pub struct IngestSummary {
    pub indexed: Vec<String>,
    pub unchanged: Vec<String>,
    pub new_chunks: usize,
    pub total_chunks: usize,
    pub total_documents: usize,
    pub cancelled: bool,
    /// The figure pages that were found. Figures without captions mean that only text was indexed,
    /// and the window says so.
    pub figures: usize,
    pub captions_made: usize,
    pub caption_failures: usize,
}

/// What an ingest did.
pub fn summary_of(report: IngestReport) -> (r: IngestSummary)
    ensures
        r == (IngestSummary {
            indexed: report.indexed_files,
            unchanged: report.skipped_files,
            new_chunks: report.new_chunks,
            total_chunks: report.total_chunks,
            total_documents: report.total_documents,
            cancelled: false,
            figures: report.figures_found,
            captions_made: report.captions_made,
            caption_failures: report.caption_failures,
        }),
        r.indexed == report.indexed_files,
        r.unchanged == report.skipped_files,
        r.new_chunks == report.new_chunks,
        r.total_chunks == report.total_chunks,
        r.total_documents == report.total_documents,
        !r.cancelled,
        r.figures == report.figures_found,
        r.captions_made == report.captions_made,
        r.caption_failures == report.caption_failures,
{
    IngestSummary {
        indexed: report.indexed_files,
        unchanged: report.skipped_files,
        new_chunks: report.new_chunks,
        total_chunks: report.total_chunks,
        total_documents: report.total_documents,
        cancelled: false,
        figures: report.figures_found,
        captions_made: report.captions_made,
        caption_failures: report.caption_failures,
    }
}

/// What is told where nothing was chosen: the index as it is.
pub fn idle_summary(index: Option<&Index>) -> (r: IngestSummary)
    ensures
        r.indexed@.len() == 0,
        r.unchanged@.len() == 0,
        r.new_chunks == 0,
        r.cancelled,
        r.figures == 0,
        r.captions_made == 0,
        r.caption_failures == 0,
        match index {
            Some(index) => r.total_chunks == index.metadata.chunks && r.total_documents
                == index.metadata.documents,
            None => r.total_chunks == 0 && r.total_documents == 0,
        },
{
    let (total_chunks, total_documents): (usize, usize) = match index {
        Some(index) => (index.metadata.chunks, index.metadata.documents),
        None => (0, 0),
    };
    IngestSummary {
        indexed: Vec::new(),
        unchanged: Vec::new(),
        new_chunks: 0,
        total_chunks,
        total_documents,
        cancelled: true,
        figures: 0,
        captions_made: 0,
        caption_failures: 0,
    }
}

/// The figures and pages of the documents that were chosen.
#[derive(Clone, Copy, Debug, PartialEq, Eq, Structural)]
pub struct Estimate {
    pub figures: usize,
    pub pages: usize,
}

impl Estimate {
    pub fn new() -> (r: Self)
        ensures
            r == (Estimate { figures: 0, pages: 0 }),
    {
        Estimate { figures: 0, pages: 0 }
    }

    /// Counts one more document.
    pub fn add_scan(&mut self, scan: &FigureScan)
        requires
            old(self).figures + scan.figure_pages@.len() <= usize::MAX,
            old(self).pages + scan.pages <= usize::MAX,
        ensures
            final(self).figures == old(self).figures + scan.figure_pages@.len(),
            final(self).pages == old(self).pages + scan.pages,
    {
        self.figures = self.figures + scan.figure_pages.len();
        self.pages = self.pages + scan.pages;
    }
}

/// What happens to the documents that were chosen.
#[derive(Clone, Copy, Debug, PartialEq, Eq, Structural)]
pub enum AddStep {
    /// Nothing was chosen.
    Idle,
    /// There are no figures, so there is nothing to ask.
    IndexText,
    /// Captioning the figures takes long, so the user is asked.
    Ask,
}

/// What happens next, given how many documents were chosen and how many figures they have.
pub fn add_step(documents: usize, figures: usize) -> (r: AddStep)
    ensures
        r == (if documents == 0 {
            AddStep::Idle
        } else if figures == 0 {
            AddStep::IndexText
        } else {
            AddStep::Ask
        }),
{
    if documents == 0 {
        AddStep::Idle
    } else if figures == 0 {
        AddStep::IndexText
    } else {
        AddStep::Ask
    }
}

/// A selection that waits for the user's answer. Minutes are counted in tenths.
#[derive(Debug)]
pub struct PendingIngest {
    /// What the window hands back to start the ingest; the paths stay here.
    pub token: String,
    pub documents: usize,
    pub pages: usize,
    pub figures: usize,
    /// The model that would write the captions.
    pub model: String,
    pub caption_tenths_low: u128,
    pub caption_tenths_high: u128,
    /// Captioning cannot run without the PDFium library.
    pub pdfium: bool,
    /// What the user chose last.
    pub caption_default: bool,
}

/// The nearest number of tenths of a minute in so many seconds, halves upwards.
pub open spec fn minute_tenths(seconds: nat) -> nat {
    (seconds + 3) / 6
}

/// Tenths of a minute are six seconds each, and the nearest number of them is taken.
pub proof fn tenths_are_six_seconds(seconds: nat)
    ensures
        minute_tenths(6 * seconds) == seconds,
        6 * minute_tenths(seconds) <= seconds + 3,
        seconds < 6 * minute_tenths(seconds) + 3,
{
}

/// The question that is put before figures are captioned: a figure takes four to fifteen seconds.
pub fn pending_ingest(
    token: String,
    documents: usize,
    estimate: Estimate,
    settings: &VisionSettings,
    pdfium: bool,
) -> (r: PendingIngest)
    ensures
        r.token@ == token@,
        r.documents == documents,
        r.pages == estimate.pages,
        r.figures == estimate.figures,
        r.model@ == settings.model@,
        r.caption_tenths_low == minute_tenths(estimate.figures as nat * 4),
        r.caption_tenths_high == minute_tenths(estimate.figures as nat * 15),
        r.pdfium == pdfium,
        r.caption_default == settings.enabled,
{
    let figures: u128 = estimate.figures as u128;
    PendingIngest {
        token,
        documents,
        pages: estimate.pages,
        figures: estimate.figures,
        model: settings.model.clone(),
        caption_tenths_low: (figures * 4 + 3) / 6,
        caption_tenths_high: (figures * 15 + 3) / 6,
        pdfium,
        caption_default: settings.enabled,
    }
}

/// The estimate does not end before it begins, and more figures do not take less.
pub proof fn estimates_are_ordered(figures: nat, more: nat)
    requires
        figures <= more,
    ensures
        minute_tenths(figures * 4) <= minute_tenths(figures * 15),
        minute_tenths(figures * 4) <= minute_tenths(more * 4),
        minute_tenths(figures * 15) <= minute_tenths(more * 15),
{
}

// ---------------------------------------------------------------------------------------------
// Vision settings

/// How captioning is configured, without the key itself.
#[derive(Debug)]
pub struct VisionStatus {
    pub enabled: bool,
    pub base_url: String,
    pub model: String,
    pub api_key_set: bool,
    pub pdfium: bool,
}

/// How captioning is configured.
pub fn vision_status(settings: &VisionSettings, pdfium: bool) -> (r: VisionStatus)
    ensures
        r.enabled == settings.enabled,
        r.base_url@ == settings.base_url@,
        r.model@ == settings.model@,
        r.api_key_set == (settings.api_key@.len() > 0),
        r.pdfium == pdfium,
{
    VisionStatus {
        enabled: settings.enabled,
        base_url: settings.base_url.clone(),
        model: settings.model.clone(),
        api_key_set: settings.api_key.as_str().as_bytes().len() > 0,
        pdfium,
    }
}

/// The value that a form leaves in a field: what was there, where the form has only blanks.
pub open spec fn filled_in(before: Seq<char>, given: Option<Seq<char>>) -> Seq<char> {
    match given {
        Some(text) => if trim(text).len() > 0 {
            trim(text)
        } else {
            before
        },
        None => before,
    }
}

/// The settings after a form was submitted.
pub open spec fn updated_settings(
    before: SettingsData,
    enabled: Option<bool>,
    base_url: Option<Seq<char>>,
    api_key: Option<Seq<char>>,
    model: Option<Seq<char>>,
) -> SettingsData {
    SettingsData {
        enabled: match enabled {
            Some(value) => value,
            None => before.enabled,
        },
        base_url: filled_in(before.base_url, base_url),
        api_key: filled_in(before.api_key, api_key),
        model: filled_in(before.model, model),
    }
}

fn fill_in(field: String, given: Option<String>) -> (r: String)
    ensures
        r@ == filled_in(field@, optional(given)),
{
    match given {
        Some(text) => {
            let chars = chars_of(text.as_str());
            let value = trim_slice(chars.as_slice());
            if value.len() > 0 {
                string_of(value)
            } else {
                field
            }
        },
        None => field,
    }
}

/// Takes over what a form has. Fields are taken one by one, so that a form that does not know the
/// key cannot blank it with an empty box.
pub fn update_settings(
    settings: VisionSettings,
    enabled: Option<bool>,
    base_url: Option<String>,
    api_key: Option<String>,
    model: Option<String>,
) -> (r: VisionSettings)
    ensures
        r@ == updated_settings(
            settings@,
            enabled,
            optional(base_url),
            optional(api_key),
            optional(model),
        ),
        enabled matches Some(value) ==> r.enabled == value,
        enabled is None ==> r.enabled == settings.enabled,
        base_url matches Some(text) ==> (trim(text@).len() > 0 ==> r.base_url@ == trim(text@)) && (
        trim(text@).len() == 0 ==> r.base_url@ == settings.base_url@),
        base_url is None ==> r.base_url@ == settings.base_url@,
        api_key matches Some(text) ==> (trim(text@).len() > 0 ==> r.api_key@ == trim(text@)) && (
        trim(text@).len() == 0 ==> r.api_key@ == settings.api_key@),
        api_key is None ==> r.api_key@ == settings.api_key@,
        model matches Some(text) ==> (trim(text@).len() > 0 ==> r.model@ == trim(text@)) && (trim(
            text@,
        ).len() == 0 ==> r.model@ == settings.model@),
        model is None ==> r.model@ == settings.model@,
{
    let on: bool = match enabled {
        Some(value) => value,
        None => settings.enabled,
    };
    VisionSettings {
        enabled: on,
        base_url: fill_in(settings.base_url, base_url),
        api_key: fill_in(settings.api_key, api_key),
        model: fill_in(settings.model, model),
    }
}

/// A blank box keeps the key, and so does a form without the box.
pub proof fn blank_boxes_keep_the_key(
    before: SettingsData,
    enabled: Option<bool>,
    base_url: Option<Seq<char>>,
    api_key: Option<Seq<char>>,
    model: Option<Seq<char>>,
)
    requires
        api_key matches Some(text) ==> trim(text).len() == 0,
    ensures
        updated_settings(before, enabled, base_url, api_key, model).api_key == before.api_key,
{
}

/// What is told where captions are wanted and the library is missing.
pub const NO_PDFIUM: &'static str = "captioning figures needs the PDFium runtime library in the data dir (or set RAG_PDFIUM_PATH); documents can still be indexed as text";

/// How this run captions figures, where it does: the user's answer beats the stored setting.
pub fn vision_for(
    settings: &VisionSettings,
    caption: Option<bool>,
    pdfium: bool,
    env: &Environment,
) -> (r: Result<Option<VisionConfig>, String>)
    ensures
        ({
            let wanted = match caption {
                Some(answer) => answer,
                None => settings.enabled,
            };
            match r {
                Ok(None) => !wanted,
                Ok(Some(config)) => wanted && pdfium && config@ == configured(
                    *env,
                    settings.base_url@,
                    settings.api_key@,
                    settings.model@,
                ),
                Err(reason) => wanted && !pdfium && reason@ == NO_PDFIUM@,
            }
        }),
        r matches Ok(Some(config)) ==> {
            &&& env.url is None ==> config.base_url@ == settings.base_url@
            &&& env.key is None ==> config.api_key@ == settings.api_key@
            &&& env.model is None ==> config.model@ == settings.model@
            &&& env.url matches Some(text) ==> config.base_url@ == text@
            &&& env.key matches Some(text) ==> config.api_key@ == text@
            &&& env.model matches Some(text) ==> config.model@ == text@
        },
        caption == Some(false) || (caption is None && !settings.enabled) ==> r matches Ok(None),
        caption == Some(true) && !pdfium ==> r is Err,
{
    let wanted: bool = match caption {
        Some(answer) => answer,
        None => settings.enabled,
    };
    if !wanted {
        return Ok(None);
    }
    if !pdfium {
        return Err(owned(NO_PDFIUM));
    }
    Ok(Some(settings.config(env)))
}

// ---------------------------------------------------------------------------------------------
// Chat

/// The question as it is asked, without blanks around it.
pub fn question_of(text: &str) -> (r: Result<String, String>)
    ensures
        match r {
            Ok(question) => trim(text@).len() > 0 && question@ == trim(text@),
            Err(reason) => trim(text@).len() == 0 && reason@ == "ask a question first"@,
        },
{
    let question = trimmed(text);
    if question.as_str().as_bytes().len() == 0 {
        return Err(owned("ask a question first"));
    }
    Ok(question)
}

/// The name of a new chat.
pub open spec fn chat_name(millis: nat, seq: nat) -> Seq<char> {
    decimal(millis) + seq!['-'] + decimal(seq)
}

/// The name of a new chat, from the time and the number of chats begun so far.
pub fn chat_id(millis: u128, seq: u64) -> (r: String)
    ensures
        r@ == chat_name(millis as nat, seq as nat),
        r@ == decimal(millis as nat) + seq!['-'] + decimal(seq as nat),
{
    let mut out = String::new();
    push_decimal(&mut out, millis);
    out.push('-');
    push_decimal(&mut out, seq as u128);
    assert(out@ =~= chat_name(millis as nat, seq as nat));
    out
}

/// Two chats have different names, also where they are begun in the same millisecond.
pub proof fn chat_names_differ(millis: nat, seq: nat, other_millis: nat, other_seq: nat)
    requires
        seq != other_seq || millis != other_millis,
    ensures
        chat_name(millis, seq) != chat_name(other_millis, other_seq),
{
    let a = decimal(millis);
    let b = decimal(other_millis);
    lemma_decimal(millis);
    lemma_decimal(seq);
    lemma_decimal(other_millis);
    lemma_decimal(other_seq);
    if chat_name(millis, seq) == chat_name(other_millis, other_seq) {
        assert forall|i: int| 0 <= i < a.len() implies (#[trigger] a[i]) != '-' by {
            assert(is_digit(a[i]));
        }
        assert forall|i: int| 0 <= i < b.len() implies (#[trigger] b[i]) != '-' by {
            assert(is_digit(b[i]));
        }
        lemma_mark_splits('-', a, decimal(seq), b, decimal(other_seq));
    }
}

/// What has come of a question so far.
#[derive(Debug)]
pub struct Exchange {
    /// The answer, once it is there.
    pub answer: Option<String>,
    /// The user stopped the exchange.
    pub stopped: bool,
}

impl Exchange {
    /// A question that was just asked.
    pub fn new() -> (r: Self)
        ensures
            r.answer is None,
            !r.stopped,
    {
        Exchange { answer: None, stopped: false }
    }

    /// Notes whether the user has stopped the exchange, and tells whether it goes on. The request
    /// to the model is made only where it does.
    pub fn checkpoint(&mut self, cancelled: bool) -> (go_on: bool)
        ensures
            go_on == (!old(self).stopped && !cancelled),
            final(self).stopped == !go_on,
            final(self).answer == old(self).answer,
    {
        if cancelled {
            self.stopped = true;
        }
        !self.stopped
    }

    /// Takes in the next event, and tells whether it is shown. Where the user has stopped the
    /// exchange it is not, and nothing that follows is taken in.
    pub fn take(&mut self, event: &ChatEvent, cancelled: bool) -> (shown: bool)
        ensures
            shown == (!old(self).stopped && !cancelled),
            final(self).stopped == (old(self).stopped || cancelled),
            optional(final(self).answer) == (match event {
                ChatEvent::Done { answer, .. } => if shown {
                    Some(answer@)
                } else {
                    optional(old(self).answer)
                },
                _ => optional(old(self).answer),
            }),
    {
        if self.stopped || cancelled {
            self.stopped = true;
            return false;
        }
        if let ChatEvent::Done { answer, .. } = event {
            self.answer = Some(answer.clone());
        }
        true
    }

    /// Writes the exchange into its session: the question, and the answer with its citations where
    /// there is one. An exchange that was stopped is not written.
    pub fn record(self, session: &mut ChatSession, question: &str, sources: serde_json::Value)
        ensures
            self.stopped ==> *final(session) == *old(session),
            !self.stopped ==> {
                &&& final(session).same_record(*old(session))
                &&& final(session).title@ == (if old(session).turns@.len() == 0 {
                    title_text(question@)
                } else {
                    old(session).title@
                })
                &&& match optional(self.answer) {
                    Some(answer) => {
                        &&& turn_data(final(session).turns@) == turn_data(old(session).turns@).push(
                            question_turn(question@),
                        ).push(answer_turn(answer))
                        &&& final(session).sources@ == old(session).sources@.push(sources)
                    },
                    None => {
                        &&& turn_data(final(session).turns@) == turn_data(old(session).turns@).push(
                            question_turn(question@),
                        )
                        &&& final(session).sources == old(session).sources
                    },
                }
            },
            !self.stopped ==> {
                let n = old(session).turns@.len() as int;
                let turns = final(session).turns@;
                &&& turns.len() == n + (if self.answer is Some {
                    2int
                } else {
                    1int
                })
                &&& forall|i: int| 0 <= i < n ==> (#[trigger] turns[i]) == old(session).turns@[i]
                &&& turns[n].role@ == "user"@
                &&& turns[n].content@ == question@
                &&& self.answer matches Some(answer) ==> turns[n + 1].role@ == "assistant"@
                    && turns[n + 1].content@ == answer@
            },
    {
        if self.stopped {
            return;
        }
        session.push_question(question);
        if let Some(answer) = &self.answer {
            session.push_answer(answer.as_str(), sources);
        }
    }
}

// ---------------------------------------------------------------------------------------------
// The tool server

/// The first time is before the second.
pub open spec fn stamp_before(a: Stamp, b: Stamp) -> bool {
    a.0 < b.0 || (a.0 == b.0 && a.1 < b.1)
}

/// Whether the server's program has to be copied, given when the copy and its source were written.
/// A copy that is as fresh as its source is left alone.
pub fn needs_copy(copy: Option<Stamp>, source: Option<Stamp>) -> (r: bool)
    ensures
        r == (match (copy, source) {
            (Some(c), Some(s)) => stamp_before(c, s),
            _ => true,
        }),
        copy is None || source is None ==> r,
        copy matches Some(c) ==> (source matches Some(s) ==> (r <==> c.0 < s.0 || (c.0 == s.0 && c.1
            < s.1))),
{
    match (copy, source) {
        (Some(c), Some(s)) => c.0 < s.0 || (c.0 == s.0 && c.1 < s.1),
        _ => true,
    }
}

pub const MCP_HEAD: &'static str = "{\n  \"mcpServers\": {\n    \"corpus\": {\n      \"transport\": \"stdio\",\n      \"command\": ";

pub const MCP_TAIL: &'static str = ",\n      \"args\": [],\n      \"enabled\": true,\n      \"timeout\": 180\n    }\n  }\n}";

/// The configuration that a client needs, ready to paste, with the path of this installation's
/// server.
pub fn mcp_config_json(command: &str) -> (r: String)
    ensures
        r@ == MCP_HEAD@ + json_string(command@) + MCP_TAIL@,
{
    let mut out = owned(MCP_HEAD);
    let path = json_quote(command);
    out.push_str(path.as_str());
    out.push_str(MCP_TAIL);
    out
}

} // verus!
