//! Adding documents to the index and taking them out.
//!
//! Reading files, rendering pages and running models happen elsewhere; what is decided about their
//! results is decided here.

use vstd::hash_map::StringHashMap;
use vstd::prelude::*;
use vstd::slice::slice_subrange;

use crate::caption_cache::{cached, key_of, sha256, sha256_of, with_caption, CaptionCache};
use crate::chunk::{chunk_text, text_chunks};
use crate::config::EMBED_BATCH;
use crate::split::{split_words, words};
use crate::store::{
    build_metadata, chunk_count, chunk_data, file_hashes, file_names, lemma_unlisted, stats_of,
    text_values, Chunk, ChunkData, DocumentRecord, Index, RecordData,
};
use crate::text::{
    ascii_lower, ascii_lowered, chars_of, decimal, hex_string, hex_text, joined,
    lemma_mark_splits, lemma_signed_decimal, lists, owned, push_decimal, push_signed,
    same_chars, same_text, signed_decimal, string_of, strings,
};
use crate::text_map::TextMap;
use crate::vision::PROMPT_VERSION;

verus! {

/// Rendering density of figure pages: small printed numbers stay legible, and the image small.
pub const FIGURE_DPI: u32 = 150;

/// Captioning a document stops after this many failures in a row. An engine that is down fails
/// every page the same way, and waiting for each would turn minutes into an hour.
pub const MAX_CONSECUTIVE_CAPTION_FAILURES: usize = 3;

// ---------------------------------------------------------------------------------------------
// Files

/// The content hash of a file: the first eight bytes of its digest, in hexadecimal notation.
pub open spec fn file_hash(bytes: Seq<u8>) -> Seq<char> {
    hex_text(sha256_of(bytes).take(8))
}

/// The content hash of a file, of 16 characters.
pub fn content_hash(bytes: &[u8]) -> (r: String)
    ensures
        r@ == file_hash(bytes@),
        r@.len() == 16,
{
    let digest = sha256(bytes);
    let part = slice_subrange(digest.as_slice(), 0, 8);
    assert(part@ =~= sha256_of(bytes@).take(8));
    let r = hex_string(part);
    assert(hex_text(part@).len() == 16);
    r
}

/// The extension of a PDF file.
pub open spec fn pdf_extension(extension: Seq<char>) -> bool {
    ascii_lower(extension) == "pdf"@
}

/// The extension of a file that is indexed.
pub open spec fn document_extension(extension: Seq<char>) -> bool {
    let lowered = ascii_lower(extension);
    ||| lowered == "pdf"@
    ||| lowered == "md"@
    ||| lowered == "markdown"@
    ||| lowered == "txt"@
}

/// Files are told apart by their extensions without regard to case: a PDF is a document, and so are
/// Markdown and plain text; nothing else is.
pub proof fn documents_are_pdfs_and_texts(extension: Seq<char>)
    ensures
        pdf_extension(extension) ==> document_extension(extension),
        pdf_extension(extension) == pdf_extension(ascii_lower(extension)),
        document_extension(extension) == document_extension(ascii_lower(extension)),
        pdf_extension("pdf"@),
        document_extension("md"@) && document_extension("markdown"@) && document_extension("txt"@),
        !pdf_extension("md"@) && !pdf_extension("markdown"@) && !pdf_extension("txt"@),
        document_extension(extension) ==> seq!["pdf"@, "md"@, "markdown"@, "txt"@].contains(
            ascii_lower(extension),
        ),
{
    assert(ascii_lower(ascii_lower(extension)) =~= ascii_lower(extension));
    reveal_strlit("pdf");
    reveal_strlit("md");
    reveal_strlit("markdown");
    reveal_strlit("txt");
    assert(ascii_lower("pdf"@) =~= "pdf"@);
    assert(ascii_lower("md"@) =~= "md"@);
    assert(ascii_lower("markdown"@) =~= "markdown"@);
    assert(ascii_lower("txt"@) =~= "txt"@);
    assert("txt"@[0] != "pdf"@[0]);
    let all = seq!["pdf"@, "md"@, "markdown"@, "txt"@];
    assert(all[0] == "pdf"@ && all[1] == "md"@ && all[2] == "markdown"@ && all[3] == "txt"@);
}

/// The hash of a file is the beginning of its digest: files with the same digest have the same hash,
/// and it is 16 characters of the digest in hexadecimal notation.
pub proof fn hashes_begin_the_digest(bytes: Seq<u8>)
    requires
        sha256_of(bytes).len() == 32,
    ensures
        file_hash(bytes).len() == 16,
        file_hash(bytes) == hex_text(sha256_of(bytes)).take(16),
{
    assert(file_hash(bytes) =~= hex_text(sha256_of(bytes)).take(16));
}

fn lowered_is(lowered: &[char], name: &str) -> (r: bool)
    ensures
        r == (lowered@ == name@),
{
    let chars = chars_of(name);
    same_chars(lowered, chars.as_slice())
}

/// Whether a file with this extension is a PDF.
pub fn is_pdf_extension(extension: &str) -> (r: bool)
    ensures
        r == pdf_extension(extension@),
{
    let chars = chars_of(extension);
    let lowered = ascii_lowered(chars.as_slice());
    lowered_is(lowered.as_slice(), "pdf")
}

/// Whether a file with this extension is indexed.
pub fn is_document_extension(extension: &str) -> (r: bool)
    ensures
        r == document_extension(extension@),
{
    let chars = chars_of(extension);
    let lowered = ascii_lowered(chars.as_slice());
    lowered_is(lowered.as_slice(), "pdf") || lowered_is(lowered.as_slice(), "md") || lowered_is(
        lowered.as_slice(),
        "markdown",
    ) || lowered_is(lowered.as_slice(), "txt")
}

/// The words of a page with single spaces between them.
pub open spec fn flowing(text: Seq<char>) -> Seq<char> {
    joined(words(text), seq![' '])
}

/// The hint for a page: the beginning of its text.
pub open spec fn hint_text(text: Seq<char>) -> Seq<char> {
    let line = flowing(text);
    if line.len() > 300 {
        line.take(300).push('…')
    } else {
        line
    }
}

/// A hint is the beginning of the page's words: all of them where they are few, and never more than
/// 300 characters and the mark that says so.
pub proof fn hints_begin_the_page(text: Seq<char>)
    ensures
        hint_text(text).len() <= 301,
        joined(words(text), seq![' ']).len() <= 300 ==> words(hint_text(text)) == words(text),
        joined(words(text), seq![' ']).len() > 300 ==> hint_text(text).len() == 301 && hint_text(
            text,
        ).last() == '…' && hint_text(text).take(300) == joined(words(text), seq![' ']).take(300),
{
    crate::split::lemma_words_proper(text);
    crate::split::lemma_words_of_joined(words(text));
    let line = joined(words(text), seq![' ']);
    if line.len() > 300 {
        assert(hint_text(text).take(300) =~= line.take(300));
    }
}

/// The text of a page, or nothing where there is no such page.
pub open spec fn page_text(pages: Seq<Seq<char>>, index: int) -> Seq<char> {
    if 0 <= index < pages.len() {
        pages[index]
    } else {
        Seq::empty()
    }
}

fn flow(text: &str) -> (r: Vec<char>)
    ensures
        r@ == flowing(text@),
{
    let chars = chars_of(text);
    let list = split_words(chars.as_slice());
    let ghost all = lists(list@);
    let mut out: Vec<char> = Vec::new();
    let mut i: usize = 0;
    while i < list.len()
        invariant
            i <= list.len(),
            all == lists(list@),
            out@ == joined(all.take(i as int), seq![' ']),
        decreases list.len() - i,
    {
        let ghost before = out@;
        if i > 0 {
            out.push(' ');
        }
        let ghost led = out@;
        let word = list[i].as_slice();
        let mut j: usize = 0;
        while j < word.len()
            invariant
                j <= word.len(),
                out@ == led + word@.take(j as int),
            decreases word.len() - j,
        {
            out.push(word[j]);
            assert(out@ =~= led + word@.take(j + 1));
            j += 1;
        }
        proof {
            assert(word@.take(word@.len() as int) =~= word@);
            let next = all.take(i + 1);
            assert(next.drop_last() =~= all.take(i as int));
            assert(next.last() == word@);
            if i == 0 {
                assert(out@ =~= next[0]);
            } else {
                assert(out@ =~= before + seq![' '] + next.last());
            }
        }
        i += 1;
    }
    assert(all.take(list.len() as int) =~= all);
    out
}

/// A few words of a page's own text, so that the model knows which document and subject a drawing
/// belongs to.
pub fn page_hint(pages: &[String], page_index: usize) -> (r: String)
    ensures
        r@ == hint_text(page_text(strings(pages@), page_index as int)),
{
    let line = if page_index < pages.len() {
        flow(pages[page_index].as_str())
    } else {
        flow("")
    };
    proof {
        reveal_strlit("");
        assert(""@ =~= Seq::<char>::empty());
    }
    if line.len() > 300 {
        let head = slice_subrange(line.as_slice(), 0, 300);
        assert(head@ =~= line@.take(300));
        let mut out = string_of(head);
        out.push('…');
        out
    } else {
        string_of(line.as_slice())
    }
}

// ---------------------------------------------------------------------------------------------
// Progress

/// What an ingest is doing.
#[derive(Clone, Copy, Debug, PartialEq, Eq, Structural)]
pub enum Stage {
    Extracting,
    Captioning,
    Embedding,
    Saving,
    Done,
}

/// How far an ingest is. Extraction counts files and embedding counts chunks.
#[derive(Debug)]
pub struct IngestProgress {
    pub stage: Stage,
    pub done: usize,
    pub total: usize,
    pub current: String,
}

/// What an ingest did.
#[derive(Debug)]
pub struct IngestReport {
    pub indexed_files: Vec<String>,
    pub skipped_files: Vec<String>,
    pub new_chunks: usize,
    pub total_chunks: usize,
    pub total_documents: usize,
    /// The figure pages of the PDFs that were indexed.
    pub figures_found: usize,
    /// The captions that the vision model wrote on this run.
    pub captions_made: usize,
    /// The figures that got no caption. The text of their pages is indexed all the same.
    pub caption_failures: usize,
}

impl Default for IngestReport {
    fn default() -> (r: Self)
        ensures
            r.indexed_files@.len() == 0,
            r.skipped_files@.len() == 0,
            r.new_chunks == 0,
            r.total_chunks == 0,
            r.total_documents == 0,
            r.figures_found == 0,
            r.captions_made == 0,
            r.caption_failures == 0,
    {
        IngestReport {
            indexed_files: Vec::new(),
            skipped_files: Vec::new(),
            new_chunks: 0,
            total_chunks: 0,
            total_documents: 0,
            figures_found: 0,
            captions_made: 0,
            caption_failures: 0,
        }
    }
}

/// How far an ingest is, in a line; nothing where it is over.
pub open spec fn progress_text(
    stage: Stage,
    done: nat,
    total: nat,
    current: Seq<char>,
) -> Option<Seq<char>> {
    match stage {
        Stage::Extracting => Some(
            "extracting "@ + decimal(done) + seq!['/'] + decimal(total) + " files — "@ + current,
        ),
        Stage::Captioning => Some(
            "captioning "@ + decimal(done) + seq!['/'] + decimal(total) + " figures — "@ + current,
        ),
        Stage::Embedding => Some(
            "embedded "@ + decimal(done) + seq!['/'] + decimal(total) + " new chunks"@,
        ),
        Stage::Saving => Some("saving index"@),
        Stage::Done => None,
    }
}

/// A count between two texts.
pub fn counted(head: &str, done: usize, total: usize, tail: &str) -> (r: String)
    ensures
        r@ == head@ + decimal(done as nat) + seq!['/'] + decimal(total as nat) + tail@,
{
    let mut out = owned(head);
    push_decimal(&mut out, done as u128);
    out.push('/');
    push_decimal(&mut out, total as u128);
    out.push_str(tail);
    assert(out@ =~= head@ + decimal(done as nat) + seq!['/'] + decimal(total as nat) + tail@);
    out
}

impl IngestProgress {
    /// The line that tells how far the ingest is.
    pub fn line(&self) -> (r: Option<String>)
        ensures
            crate::text::optional(r) == progress_text(
                self.stage,
                self.done as nat,
                self.total as nat,
                self.current@,
            ),
            self.stage is Done <==> r is None,
            self.stage is Extracting ==> crate::text::optional(r) == Some(
                "extracting "@ + decimal(self.done as nat) + seq!['/'] + decimal(self.total as nat)
                    + " files — "@ + self.current@,
            ),
            self.stage is Captioning ==> crate::text::optional(r) == Some(
                "captioning "@ + decimal(self.done as nat) + seq!['/'] + decimal(self.total as nat)
                    + " figures — "@ + self.current@,
            ),
            self.stage is Embedding ==> crate::text::optional(r) == Some(
                "embedded "@ + decimal(self.done as nat) + seq!['/'] + decimal(self.total as nat)
                    + " new chunks"@,
            ),
            self.stage is Saving ==> crate::text::optional(r) == Some("saving index"@),
    {
        match self.stage {
            Stage::Extracting => {
                let mut out = counted("extracting ", self.done, self.total, " files — ");
                out.push_str(self.current.as_str());
                Some(out)
            },
            Stage::Captioning => {
                let mut out = counted("captioning ", self.done, self.total, " figures — ");
                out.push_str(self.current.as_str());
                Some(out)
            },
            Stage::Embedding => Some(counted("embedded ", self.done, self.total, " new chunks")),
            Stage::Saving => Some(owned("saving index")),
            Stage::Done => None,
        }
    }
}

// ---------------------------------------------------------------------------------------------
// A run

/// A piece of text that waits for its vector.
#[derive(Debug)]
pub struct PendingChunk {
    pub filename: String,
    /// The path of the file that the text came from.
    pub path: String,
    pub fhash: String,
    pub page: i32,
    pub text: String,
    pub figure: bool,
}

#[verifier::ext_equal]
pub struct PendingData {
    pub filename: Seq<char>,
    pub path: Seq<char>,
    pub fhash: Seq<char>,
    pub page: i32,
    pub text: Seq<char>,
    pub figure: bool,
}

impl View for PendingChunk {
    type V = PendingData;

    open spec fn view(&self) -> PendingData {
        PendingData {
            filename: self.filename@,
            path: self.path@,
            fhash: self.fhash@,
            page: self.page,
            text: self.text@,
            figure: self.figure,
        }
    }
}

impl Clone for PendingChunk {
    fn clone(&self) -> (r: Self)
        ensures
            r@ == self@,
    {
        PendingChunk {
            filename: self.filename.clone(),
            path: self.path.clone(),
            fhash: self.fhash.clone(),
            page: self.page,
            text: self.text.clone(),
            figure: self.figure,
        }
    }
}

/// Waiting pieces have the same contents exactly when all their parts are the same.
pub proof fn contents_tell_pieces_apart(a: PendingChunk, b: PendingChunk)
    ensures
        a@ == b@ <==> a.filename@ == b.filename@ && a.path@ == b.path@ && a.fhash@ == b.fhash@
            && a.page == b.page && a.text@ == b.text@ && a.figure == b.figure,
{
}

/// The contents of waiting pieces.
pub open spec fn pending_data(pending: Seq<PendingChunk>) -> Seq<PendingData> {
    Seq::new(pending.len(), |i: int| pending[i]@)
}

/// The pieces that the texts of one page become.
pub open spec fn queued_texts(
    filename: Seq<char>,
    path: Seq<char>,
    fhash: Seq<char>,
    page: i32,
    texts: Seq<Seq<char>>,
) -> Seq<PendingData> {
    Seq::new(
        texts.len(),
        |i: int| PendingData { filename, path, fhash, page, text: texts[i], figure: false },
    )
}

/// The number of a page of a document: from one on in a PDF, and -1 where there are no pages.
pub open spec fn page_number(index: int, is_pdf: bool) -> i32 {
    if is_pdf {
        (index + 1) as i32
    } else {
        -1i32
    }
}

/// The pieces that the first `end` pages of a document become, in reading order.
pub open spec fn queued_pages(
    filename: Seq<char>,
    path: Seq<char>,
    fhash: Seq<char>,
    pages: Seq<Seq<char>>,
    is_pdf: bool,
    end: int,
) -> Seq<PendingData>
    decreases end,
{
    if end <= 0 {
        Seq::empty()
    } else {
        queued_pages(filename, path, fhash, pages, is_pdf, end - 1) + queued_texts(
            filename,
            path,
            fhash,
            page_number(end - 1, is_pdf),
            text_chunks(pages[end - 1]),
        )
    }
}

/// The pages of a document are queued one after the other, each as its own chunks in order. Every
/// piece bears the file and the number of its page, counted from one in a PDF, and is no figure.
pub proof fn pages_are_queued_in_order(
    filename: Seq<char>,
    path: Seq<char>,
    fhash: Seq<char>,
    pages: Seq<Seq<char>>,
    is_pdf: bool,
    k: int,
)
    requires
        0 <= k < pages.len() <= i32::MAX,
    ensures
        ({
            let before = queued_pages(filename, path, fhash, pages, is_pdf, k);
            let after = queued_pages(filename, path, fhash, pages, is_pdf, k + 1);
            let texts = text_chunks(pages[k]);
            &&& queued_pages(filename, path, fhash, pages, is_pdf, 0).len() == 0
            &&& after.len() == before.len() + texts.len()
            &&& forall|i: int| 0 <= i < before.len() ==> #[trigger] after[i] == before[i]
            &&& forall|i: int|
                #![trigger texts[i]]
                0 <= i < texts.len() ==> {
                    let piece = after[before.len() + i];
                    &&& piece.text == texts[i]
                    &&& piece.filename == filename
                    &&& piece.path == path
                    &&& piece.fhash == fhash
                    &&& is_pdf ==> piece.page == k + 1
                    &&& !is_pdf ==> piece.page == -1
                    &&& !piece.figure
                }
        }),
{
}

/// An ingest on its way.
pub struct IngestRun {
    /// The files of the index with their content hashes.
    pub known: TextMap<String>,
    pub report: IngestReport,
    /// The files whose old chunks give way to new ones.
    pub changed: Vec<String>,
    pub pending: Vec<PendingChunk>,
}

impl IngestRun {
    /// Every waiting piece belongs to a file whose old chunks give way.
    pub open spec fn well_formed(&self) -> bool {
        forall|i: int|
            0 <= i < self.pending@.len() ==> strings(self.changed@).contains(
                (#[trigger] pending_data(self.pending@)[i]).filename,
            )
    }
}

/// The file is in the index with this content.
pub open spec fn is_known(
    known: Map<Seq<char>, Seq<char>>,
    filename: Seq<char>,
    fhash: Seq<char>,
) -> bool {
    known.contains_key(filename) && known[filename] == fhash
}

/// What was not touched by a step on one file.
pub open spec fn same_counts(a: IngestReport, b: IngestReport) -> bool {
    &&& a.new_chunks == b.new_chunks
    &&& a.total_chunks == b.total_chunks
    &&& a.total_documents == b.total_documents
    &&& a.figures_found == b.figures_found
    &&& a.captions_made == b.captions_made
    &&& a.caption_failures == b.caption_failures
}

proof fn lemma_still_named(names: Seq<Seq<char>>, name: Seq<char>, pending: Seq<PendingData>)
    requires
        forall|i: int|
            0 <= i < pending.len() ==> names.contains((#[trigger] pending[i]).filename),
    ensures
        forall|i: int|
            0 <= i < pending.len() ==> names.push(name).contains((#[trigger] pending[i]).filename),
{
    assert forall|i: int| 0 <= i < pending.len() implies names.push(name).contains(
        (#[trigger] pending[i]).filename,
    ) by {
        assert(names.contains(pending[i].filename));
        let k = choose|k: int| 0 <= k < names.len() && names[k] == pending[i].filename;
        assert(names.push(name)[k] == pending[i].filename);
    }
}

proof fn lemma_queued_names(
    filename: Seq<char>,
    path: Seq<char>,
    fhash: Seq<char>,
    pages: Seq<Seq<char>>,
    is_pdf: bool,
    end: int,
)
    ensures
        ({
            let queued = queued_pages(filename, path, fhash, pages, is_pdf, end);
            forall|i: int| 0 <= i < queued.len() ==> (#[trigger] queued[i]).filename == filename
        }),
    decreases end,
{
    if end > 0 {
        lemma_queued_names(filename, path, fhash, pages, is_pdf, end - 1);
        let front = queued_pages(filename, path, fhash, pages, is_pdf, end - 1);
        let queued = queued_pages(filename, path, fhash, pages, is_pdf, end);
        assert forall|i: int| 0 <= i < queued.len() implies (#[trigger] queued[i]).filename
            == filename by {
            if i < front.len() {
                assert(queued[i] == front[i]);
            }
        }
    }
}

impl IngestRun {
    /// A run on top of an index.
    pub fn new(existing: &Index) -> (r: Self)
        ensures
            text_values(r.known@) == file_hashes(
                chunk_data(existing.chunks@),
                existing.chunks@.len() as int,
            ),
            r.report.indexed_files@.len() == 0,
            r.report.skipped_files@.len() == 0,
            r.report.figures_found == 0,
            r.report.captions_made == 0,
            r.report.caption_failures == 0,
            r.changed@.len() == 0,
            r.pending@.len() == 0,
            r.well_formed(),
    {
        IngestRun {
            known: existing.files(),
            report: IngestReport::default(),
            changed: Vec::new(),
            pending: Vec::new(),
        }
    }

    /// Looks at a file: one whose content is already indexed is noted as skipped and needs no more
    /// work, so that running again only pays for what changed. Of another one the old chunks give
    /// way.
    pub fn needs_indexing(&mut self, filename: &str, fhash: &str) -> (r: bool)
        requires
            old(self).well_formed(),
        ensures
            final(self).well_formed(),
            r == !is_known(text_values(old(self).known@), filename@, fhash@),
            r <==> !(text_values(old(self).known@).contains_key(filename@) && text_values(
                old(self).known@,
            )[filename@] == fhash@),
            final(self).report.new_chunks == old(self).report.new_chunks,
            final(self).report.total_chunks == old(self).report.total_chunks,
            final(self).report.total_documents == old(self).report.total_documents,
            final(self).report.figures_found == old(self).report.figures_found,
            final(self).report.captions_made == old(self).report.captions_made,
            final(self).report.caption_failures == old(self).report.caption_failures,
            final(self).known == old(self).known,
            final(self).pending == old(self).pending,
            same_counts(final(self).report, old(self).report),
            strings(final(self).changed@) == (if r {
                strings(old(self).changed@).push(filename@)
            } else {
                strings(old(self).changed@)
            }),
            strings(final(self).report.indexed_files@) == (if r {
                strings(old(self).report.indexed_files@).push(filename@)
            } else {
                strings(old(self).report.indexed_files@)
            }),
            strings(final(self).report.skipped_files@) == (if r {
                strings(old(self).report.skipped_files@)
            } else {
                strings(old(self).report.skipped_files@).push(filename@)
            }),
    {
        let known: bool = match self.known.get(filename) {
            Some(hash) => same_text(hash.as_str(), fhash),
            None => false,
        };
        let ghost names = strings(self.changed@);
        let ghost indexed = strings(self.report.indexed_files@);
        let ghost skipped = strings(self.report.skipped_files@);
        if known {
            self.report.skipped_files.push(owned(filename));
            assert(strings(self.report.skipped_files@) =~= skipped.push(filename@));
        } else {
            self.changed.push(owned(filename));
            self.report.indexed_files.push(owned(filename));
            assert(strings(self.changed@) =~= names.push(filename@));
            assert(strings(self.report.indexed_files@) =~= indexed.push(filename@));
            proof {
                lemma_still_named(names, filename@, pending_data(self.pending@));
            }
        }
        !known
    }

    /// Queues the text of a document, page by page.
    pub fn add_pages(
        &mut self,
        filename: &str,
        path: &str,
        fhash: &str,
        pages: &[String],
        is_pdf: bool,
    )
        requires
            old(self).well_formed(),
            strings(old(self).changed@).contains(filename@),
            pages@.len() <= i32::MAX,
        ensures
            final(self).well_formed(),
            final(self).known == old(self).known,
            final(self).changed == old(self).changed,
            final(self).report == old(self).report,
            pending_data(final(self).pending@) == pending_data(old(self).pending@) + queued_pages(
                filename@,
                path@,
                fhash@,
                strings(pages@),
                is_pdf,
                pages@.len() as int,
            ),
    {
        let ghost before = pending_data(self.pending@);
        let ghost all = strings(pages@);
        let mut i: usize = 0;
        assert(before + queued_pages(filename@, path@, fhash@, all, is_pdf, 0) =~= before);
        while i < pages.len()
            invariant
                i <= pages@.len() <= i32::MAX,
                all == strings(pages@),
                before == pending_data(old(self).pending@),
                self.known == old(self).known,
                self.changed == old(self).changed,
                self.report == old(self).report,
                pending_data(self.pending@) == before + queued_pages(
                    filename@,
                    path@,
                    fhash@,
                    all,
                    is_pdf,
                    i as int,
                ),
            decreases pages.len() - i,
        {
            let page: i32 = if is_pdf {
                i as i32 + 1
            } else {
                -1
            };
            let texts = chunk_text(pages[i].as_str());
            let ghost list = strings(texts@);
            let ghost earlier = pending_data(self.pending@);
            let ghost added = queued_texts(filename@, path@, fhash@, page, list);
            let mut j: usize = 0;
            assert(earlier + added.take(0) =~= earlier);
            while j < texts.len()
                invariant
                    j <= texts@.len(),
                    list == strings(texts@),
                    added == queued_texts(filename@, path@, fhash@, page, list),
                    self.known == old(self).known,
                    self.changed == old(self).changed,
                    self.report == old(self).report,
                    pending_data(self.pending@) == earlier + added.take(j as int),
                decreases texts.len() - j,
            {
                let ghost so_far = pending_data(self.pending@);
                let piece = PendingChunk {
                    filename: owned(filename),
                    path: owned(path),
                    fhash: owned(fhash),
                    page,
                    text: texts[j].clone(),
                    figure: false,
                };
                self.pending.push(piece);
                assert(pending_data(self.pending@) =~= so_far.push(piece@));
                assert(piece@ == added[j as int]);
                assert(pending_data(self.pending@) =~= earlier + added.take(j + 1));
                j += 1;
            }
            assert(added.take(texts@.len() as int) =~= added);
            assert(pending_data(self.pending@) =~= before + queued_pages(
                filename@,
                path@,
                fhash@,
                all,
                is_pdf,
                i + 1,
            ));
            i += 1;
        }
        proof {
            lemma_queued_names(filename@, path@, fhash@, all, is_pdf, all.len() as int);
            let added = queued_pages(filename@, path@, fhash@, all, is_pdf, all.len() as int);
            assert forall|k: int| 0 <= k < self.pending@.len() implies strings(
                self.changed@,
            ).contains((#[trigger] pending_data(self.pending@)[k]).filename) by {
                if k < before.len() {
                    assert(pending_data(self.pending@)[k] == before[k]);
                } else {
                    assert(pending_data(self.pending@)[k] == added[k - before.len()]);
                }
            }
        }
    }
}

// ---------------------------------------------------------------------------------------------
// Captions

/// What came of a figure page.
#[derive(Debug)]
pub enum CaptionOutcome {
    /// Its caption was known.
    Known(String),
    /// The vision model wrote its caption.
    Made(String),
    /// The vision model failed.
    Failed,
}

/// Whether a figure page got a caption, and from where.
#[derive(Clone, Copy, Debug, PartialEq, Eq, Structural)]
pub enum CaptionKind {
    Known,
    Made,
    Failed,
}

impl CaptionOutcome {
    pub open spec fn kind(&self) -> CaptionKind {
        match self {
            CaptionOutcome::Known(_) => CaptionKind::Known,
            CaptionOutcome::Made(_) => CaptionKind::Made,
            CaptionOutcome::Failed => CaptionKind::Failed,
        }
    }
}

/// What the cache knows of a figure page: where it has the page's caption, the model is not asked.
pub fn known_caption(cache: &CaptionCache, png: &[u8], model: &str) -> (r: Option<CaptionOutcome>)
    ensures
        match cached(cache@, png@, model@, PROMPT_VERSION@) {
            Some(caption) => r matches Some(CaptionOutcome::Known(text)) && text@ == caption,
            None => r is None,
        },
        r matches Some(outcome) ==> outcome matches CaptionOutcome::Known(text) && cache@.contains_key(
            key_of(png@),
        ) && cache@[key_of(png@)].caption == text@,
        r is Some <==> cache@.contains_key(key_of(png@)) && cache@[key_of(png@)].model == model@
            && cache@[key_of(png@)].prompt_version == "v1"@,
{
    match cache.get(png, model, PROMPT_VERSION) {
        Some(caption) => Some(CaptionOutcome::Known(owned(caption))),
        None => None,
    }
}

/// Takes in what the model wrote about a figure page: a caption is kept in the cache, and where
/// there is none the cache stays as it is.
pub fn take_caption(
    cache: &mut CaptionCache,
    png: &[u8],
    model: &str,
    written: Option<String>,
) -> (r: CaptionOutcome)
    ensures
        match written {
            Some(caption) => {
                &&& r matches CaptionOutcome::Made(text) && text@ == caption@
                &&& final(cache)@ == with_caption(
                    old(cache)@,
                    png@,
                    model@,
                    PROMPT_VERSION@,
                    caption@,
                )
                &&& final(cache).unsaved()
            },
            None => r is Failed && *final(cache) == *old(cache),
        },
        written matches Some(caption) ==> final(cache)@.contains_key(key_of(png@)) && final(cache)@[key_of(png@)].caption == caption@ && final(cache)@[key_of(png@)].model == model@
            && final(cache)@[key_of(png@)].prompt_version == "v1"@,
{
    match written {
        Some(caption) => {
            cache.put(png, model, PROMPT_VERSION, caption.as_str());
            CaptionOutcome::Made(caption)
        },
        None => CaptionOutcome::Failed,
    }
}

/// Captioning the figures of one document.
#[derive(Clone, Copy, Debug, PartialEq, Eq, Structural)]
pub struct CaptionTally {
    /// How many figure pages the document has.
    pub figures: usize,
    /// How many of them were looked at.
    pub done: usize,
    pub known: usize,
    pub made: usize,
    /// How many got no caption, those that were given up on included.
    pub failed: usize,
    /// How many failures came in a row.
    pub in_a_row: usize,
    /// The rest of the document was given up on.
    pub stopped: bool,
}

impl CaptionTally {
    /// Every figure that was looked at is counted once; giving up counts the rest as failures.
    pub open spec fn balanced(&self) -> bool {
        &&& self.done <= self.figures
        &&& self.in_a_row <= self.failed
        &&& self.known + self.made + self.failed == (if self.stopped {
            self.figures
        } else {
            self.done
        })
        &&& self.stopped <==> self.in_a_row >= MAX_CONSECUTIVE_CAPTION_FAILURES
    }

    /// The tally after one more figure. A caption that was known does not end a row of failures,
    /// as it says nothing about the engine.
    pub open spec fn after(&self, kind: CaptionKind) -> CaptionTally {
        match kind {
            CaptionKind::Known => CaptionTally {
                done: (self.done + 1) as usize,
                known: (self.known + 1) as usize,
                ..*self
            },
            CaptionKind::Made => CaptionTally {
                done: (self.done + 1) as usize,
                made: (self.made + 1) as usize,
                in_a_row: 0,
                ..*self
            },
            CaptionKind::Failed => {
                let row = self.in_a_row + 1;
                if row >= MAX_CONSECUTIVE_CAPTION_FAILURES {
                    CaptionTally {
                        done: (self.done + 1) as usize,
                        failed: (self.failed + self.figures - self.done) as usize,
                        in_a_row: row as usize,
                        stopped: true,
                        ..*self
                    }
                } else {
                    CaptionTally {
                        done: (self.done + 1) as usize,
                        failed: (self.failed + 1) as usize,
                        in_a_row: row as usize,
                        ..*self
                    }
                }
            },
        }
    }

    /// The tally of a document with so many figure pages, before the first.
    pub fn new(figures: usize) -> (r: Self)
        ensures
            r == (CaptionTally {
                figures,
                done: 0,
                known: 0,
                made: 0,
                failed: 0,
                in_a_row: 0,
                stopped: false,
            }),
            r.balanced(),
    {
        CaptionTally {
            figures,
            done: 0,
            known: 0,
            made: 0,
            failed: 0,
            in_a_row: 0,
            stopped: false,
        }
    }

    /// Whether there is another figure to look at.
    pub fn goes_on(&self) -> (r: bool)
        ensures
            r == (!self.stopped && self.done < self.figures),
    {
        !self.stopped && self.done < self.figures
    }
}

/// A tally stays balanced with every figure.
pub proof fn tallies_stay_balanced(tally: CaptionTally, kind: CaptionKind)
    requires
        tally.balanced(),
        !tally.stopped,
        tally.done < tally.figures,
    ensures
        tally.after(kind).balanced(),
        tally.after(kind).figures == tally.figures,
{
}

/// When captioning a document ends, every figure page either has a caption or is counted as a
/// failure.
pub proof fn every_figure_is_accounted_for(tally: CaptionTally)
    requires
        tally.balanced(),
        tally.stopped || tally.done == tally.figures,
    ensures
        tally.known + tally.made + tally.failed == tally.figures,
{
}

/// What one figure adds to the report.
pub open spec fn counts_caption(
    after: IngestReport,
    before: IngestReport,
    tally: CaptionTally,
    kind: CaptionKind,
) -> bool {
    &&& after.indexed_files == before.indexed_files
    &&& after.skipped_files == before.skipped_files
    &&& after.new_chunks == before.new_chunks
    &&& after.total_chunks == before.total_chunks
    &&& after.total_documents == before.total_documents
    &&& after.figures_found == before.figures_found
    &&& after.captions_made == before.captions_made + (tally.after(kind).made - tally.made)
    &&& after.caption_failures == before.caption_failures + (tally.after(kind).failed
        - tally.failed)
}

/// The piece that a caption becomes.
pub open spec fn caption_piece(
    filename: Seq<char>,
    path: Seq<char>,
    fhash: Seq<char>,
    page_index: int,
    caption: Seq<char>,
) -> PendingData {
    PendingData {
        filename,
        path,
        fhash,
        page: (page_index + 1) as i32,
        text: caption,
        figure: true,
    }
}

/// A caption is queued as a figure of its page, counted from one, with the file that it belongs to.
pub proof fn captions_are_queued_as_figures(
    filename: Seq<char>,
    path: Seq<char>,
    fhash: Seq<char>,
    page_index: int,
    caption: Seq<char>,
)
    requires
        0 <= page_index < i32::MAX,
    ensures
        ({
            let piece = caption_piece(filename, path, fhash, page_index, caption);
            &&& piece.figure
            &&& piece.text == caption
            &&& piece.page == page_index + 1
            &&& piece.filename == filename
            &&& piece.path == path
            &&& piece.fhash == fhash
        }),
{
}

/// Looking at a figure counts it under what came of it. A caption that the model wrote ends a row of
/// failures and a known one does not; the third failure in a row gives up the rest of the document,
/// which counts as failed.
pub proof fn figures_count_under_their_outcome(tally: CaptionTally)
    requires
        tally.balanced(),
        !tally.stopped,
        tally.done < tally.figures,
    ensures
        ({
            let known = tally.after(CaptionKind::Known);
            let made = tally.after(CaptionKind::Made);
            let failed = tally.after(CaptionKind::Failed);
            &&& known.known == tally.known + 1 && known.made == tally.made && known.failed
                == tally.failed && known.in_a_row == tally.in_a_row && !known.stopped
            &&& made.made == tally.made + 1 && made.known == tally.known && made.failed
                == tally.failed && made.in_a_row == 0 && !made.stopped
            &&& failed.known == tally.known && failed.made == tally.made && failed.in_a_row
                == tally.in_a_row + 1
            &&& failed.stopped <==> tally.in_a_row + 1 >= 3
            &&& !failed.stopped ==> failed.failed == tally.failed + 1
            &&& failed.stopped ==> failed.failed == tally.failed + (tally.figures - tally.done)
            &&& known.done == tally.done + 1 && made.done == tally.done + 1 && failed.done
                == tally.done + 1
        }),
{
}

impl IngestRun {
    /// Counts the figure pages of a document that is about to be captioned.
    pub fn found_figures(&mut self, count: usize)
        requires
            old(self).well_formed(),
            old(self).report.figures_found + count <= usize::MAX,
        ensures
            final(self).well_formed(),
            final(self).known == old(self).known,
            final(self).changed == old(self).changed,
            final(self).pending == old(self).pending,
            final(self).report == (IngestReport {
                figures_found: (old(self).report.figures_found + count) as usize,
                ..old(self).report
            }),
    {
        self.report.figures_found = self.report.figures_found + count;
    }

    /// Takes in what came of one figure page: a caption is queued as a piece of its own, and a
    /// failure is counted; after some failures in a row the rest of the document is given up on.
    pub fn caption(
        &mut self,
        tally: &mut CaptionTally,
        filename: &str,
        path: &str,
        fhash: &str,
        page_index: usize,
        outcome: CaptionOutcome,
    )
        requires
            old(self).well_formed(),
            strings(old(self).changed@).contains(filename@),
            old(tally).balanced(),
            !old(tally).stopped,
            old(tally).done < old(tally).figures,
            page_index < i32::MAX,
            old(self).report.captions_made < usize::MAX,
            old(self).report.caption_failures + (old(tally).figures - old(tally).done) <= usize::MAX,
        ensures
            final(self).well_formed(),
            *final(tally) == old(tally).after(outcome.kind()),
            final(tally).balanced(),
            final(self).known == old(self).known,
            final(self).changed == old(self).changed,
            counts_caption(final(self).report, old(self).report, *old(tally), outcome.kind()),
            pending_data(final(self).pending@) == (match outcome {
                CaptionOutcome::Known(text) | CaptionOutcome::Made(text) => pending_data(
                    old(self).pending@,
                ).push(caption_piece(filename@, path@, fhash@, page_index as int, text@)),
                CaptionOutcome::Failed => pending_data(old(self).pending@),
            }),
            outcome is Failed ==> final(self).pending@ == old(self).pending@,
            !(outcome is Failed) ==> {
                let piece = final(self).pending@.last();
                &&& final(self).pending@.len() == old(self).pending@.len() + 1
                &&& final(self).pending@.drop_last() == old(self).pending@
                &&& piece.filename@ == filename@
                &&& piece.path@ == path@
                &&& piece.fhash@ == fhash@
                &&& piece.page == page_index + 1
                &&& piece.figure
                &&& outcome matches CaptionOutcome::Known(text) ==> piece.text@ == text@
                &&& outcome matches CaptionOutcome::Made(text) ==> piece.text@ == text@
            },
            final(self).report.figures_found == old(self).report.figures_found,
            final(self).report.captions_made == old(self).report.captions_made + (if outcome is Made {
                1int
            } else {
                0int
            }),
            !(outcome is Failed) ==> final(self).report.caption_failures
                == old(self).report.caption_failures,
            outcome is Failed && old(tally).in_a_row + 1 < 3 ==> final(self).report.caption_failures
                == old(self).report.caption_failures + 1,
            outcome is Failed && old(tally).in_a_row + 1 >= 3 ==> final(self).report.caption_failures == old(self).report.caption_failures + (old(tally).figures
                - old(tally).done),
    {
        let ghost before = pending_data(self.pending@);
        let figures: usize = tally.figures;
        let done: usize = tally.done;
        match outcome {
            CaptionOutcome::Known(text) => {
                tally.done = done + 1;
                tally.known = tally.known + 1;
                let piece = PendingChunk {
                    filename: owned(filename),
                    path: owned(path),
                    fhash: owned(fhash),
                    page: page_index as i32 + 1,
                    text,
                    figure: true,
                };
                self.pending.push(piece);
                assert(pending_data(self.pending@) =~= before.push(piece@));
            },
            CaptionOutcome::Made(text) => {
                tally.done = done + 1;
                tally.made = tally.made + 1;
                tally.in_a_row = 0;
                self.report.captions_made = self.report.captions_made + 1;
                let piece = PendingChunk {
                    filename: owned(filename),
                    path: owned(path),
                    fhash: owned(fhash),
                    page: page_index as i32 + 1,
                    text,
                    figure: true,
                };
                self.pending.push(piece);
                assert(pending_data(self.pending@) =~= before.push(piece@));
            },
            CaptionOutcome::Failed => {
                let row: usize = tally.in_a_row + 1;
                let lost: usize = if row >= MAX_CONSECUTIVE_CAPTION_FAILURES {
                    figures - done
                } else {
                    1
                };
                tally.done = done + 1;
                tally.failed = tally.failed + lost;
                tally.in_a_row = row;
                tally.stopped = row >= MAX_CONSECUTIVE_CAPTION_FAILURES;
                self.report.caption_failures = self.report.caption_failures + lost;
            },
        }
    }

    /// The next batch of waiting pieces to embed, behind the first `done`.
    pub fn next_batch(&self, done: usize) -> (r: Option<(usize, usize)>)
        requires
            done <= self.pending@.len(),
        ensures
            match r {
                Some((start, end)) => start == done && start < end && end == (if self.pending@.len()
                    - done <= EMBED_BATCH {
                    self.pending@.len() as int
                } else {
                    done + EMBED_BATCH
                }),
                None => done == self.pending@.len(),
            },
            r matches Some((start, end)) ==> end - start <= 32 && end <= self.pending@.len() && (end
                < self.pending@.len() ==> end - start == 32),
    {
        if done >= self.pending.len() {
            return None;
        }
        if self.pending.len() - done <= EMBED_BATCH {
            Some((done, self.pending.len()))
        } else {
            Some((done, done + EMBED_BATCH))
        }
    }
}

// ---------------------------------------------------------------------------------------------
// Chunk ids

/// How many of the first `end` pieces stand on a page of a document.
pub open spec fn pieces_on(
    pending: Seq<PendingData>,
    filename: Seq<char>,
    page: i32,
    end: int,
) -> nat
    decreases end,
{
    if end <= 0 {
        0
    } else {
        pieces_on(pending, filename, page, end - 1) + (if pending[end - 1].filename == filename
            && pending[end - 1].page == page {
            1nat
        } else {
            0nat
        })
    }
}

/// The id of a chunk: the hash of its file, its page, and its place on the page.
pub open spec fn chunk_id(fhash: Seq<char>, page: i32, place: nat) -> Seq<char> {
    fhash + seq![':'] + (signed_decimal(page as int) + seq![':'] + decimal(place))
}

/// The chunks that the waiting pieces become.
pub open spec fn numbered(pending: Seq<PendingData>) -> Seq<ChunkData> {
    Seq::new(
        pending.len(),
        |i: int|
            ChunkData {
                id: chunk_id(
                    pending[i].fhash,
                    pending[i].page,
                    pieces_on(pending, pending[i].filename, pending[i].page, i),
                ),
                text: pending[i].text,
                filename: pending[i].filename,
                page: pending[i].page,
                fhash: pending[i].fhash,
                figure: pending[i].figure,
            },
    )
}

/// The id of a chunk holds the hash of its file, its page and its place: the first piece of a page
/// has the place zero, and each further one of the same page the next.
pub proof fn ids_count_the_pieces_of_a_page(pending: Seq<PendingData>, i: int)
    requires
        0 <= i < pending.len(),
    ensures
        exists|place: nat|
            #![trigger decimal(place)]
            numbered(pending)[i].id == pending[i].fhash + seq![':'] + (signed_decimal(
                pending[i].page as int,
            ) + seq![':'] + decimal(place)) && place == pieces_on(
                pending,
                pending[i].filename,
                pending[i].page,
                i,
            ),
        forall|f: Seq<char>, p: i32|
            #![trigger pieces_on(pending, f, p, i + 1)]
            pieces_on(pending, f, p, i + 1) == pieces_on(pending, f, p, i) + (if pending[i].filename
                == f && pending[i].page == p {
                1int
            } else {
                0int
            }),
        forall|f: Seq<char>, p: i32| #[trigger] pieces_on(pending, f, p, 0) == 0,
{
    let place = pieces_on(pending, pending[i].filename, pending[i].page, i);
    assert(numbered(pending)[i].id == pending[i].fhash + seq![':'] + (signed_decimal(
        pending[i].page as int,
    ) + seq![':'] + decimal(place)));
}

/// A page of a document as one text.
spec fn place_key(filename: Seq<char>, page: i32) -> Seq<char> {
    signed_decimal(page as int) + seq![':'] + filename
}

proof fn lemma_place_key(f: Seq<char>, p: i32, g: Seq<char>, q: i32)
    ensures
        place_key(f, p) == place_key(g, q) <==> f == g && p == q,
{
    lemma_signed_decimal(p as int, q as int);
    lemma_signed_decimal(q as int, p as int);
    if place_key(f, p) == place_key(g, q) {
        lemma_mark_splits(':', signed_decimal(p as int), f, signed_decimal(q as int), g);
    }
}

proof fn lemma_pieces_on_bound(pending: Seq<PendingData>, f: Seq<char>, p: i32, end: int)
    requires
        0 <= end,
    ensures
        pieces_on(pending, f, p, end) <= end,
    decreases end,
{
    if end > 0 {
        lemma_pieces_on_bound(pending, f, p, end - 1);
    }
}

/// The numbers under the keys are those of the pieces read so far.
spec fn counts_pieces(
    counts: Map<Seq<char>, usize>,
    pending: Seq<PendingData>,
    end: int,
) -> bool {
    forall|f: Seq<char>, p: i32|
        #![trigger place_key(f, p)]
        pieces_on(pending, f, p, end) == (if counts.contains_key(place_key(f, p)) {
            counts[place_key(f, p)] as nat
        } else {
            0nat
        })
}

/// Gives the waiting pieces their ids.
pub fn number_chunks(pending: &[PendingChunk]) -> (r: Vec<Chunk>)
    ensures
        chunk_data(r@) == numbered(pending_data(pending@)),
        r@.len() == pending@.len(),
        forall|i: int|
            0 <= i < pending@.len() ==> (#[trigger] r@[i]).text@ == pending@[i].text@
                && r@[i].filename@ == pending@[i].filename@ && r@[i].page == pending@[i].page
                && r@[i].fhash@ == pending@[i].fhash@ && r@[i].figure == pending@[i].figure,
{
    let ghost all = pending_data(pending@);
    let mut counts: StringHashMap<usize> = StringHashMap::new();
    let mut out: Vec<Chunk> = Vec::new();
    let mut i: usize = 0;
    assert(counts_pieces(counts@, all, 0));
    while i < pending.len()
        invariant
            i <= pending@.len(),
            all == pending_data(pending@),
            counts_pieces(counts@, all, i as int),
            chunk_data(out@) == numbered(all).take(i as int),
            out@.len() == i,
            forall|j: int|
                0 <= j < i ==> (#[trigger] out@[j]).text@ == pending@[j].text@ && out@[j].filename@
                    == pending@[j].filename@ && out@[j].page == pending@[j].page && out@[j].fhash@
                    == pending@[j].fhash@ && out@[j].figure == pending@[j].figure,
        decreases pending.len() - i,
    {
        let piece = &pending[i];
        let ghost f = piece.filename@;
        let ghost p = piece.page;
        assert(all[i as int] == piece@);
        let mut key = String::new();
        push_signed(&mut key, piece.page);
        key.push(':');
        key.push_str(piece.filename.as_str());
        assert(key@ =~= place_key(f, p));
        let place: usize = match counts.get(key.as_str()) {
            Some(n) => *n,
            None => 0,
        };
        proof {
            lemma_pieces_on_bound(all, f, p, i as int);
            assert(pieces_on(all, f, p, i as int) == place);
        }
        let mut id = piece.fhash.clone();
        id.push(':');
        push_signed(&mut id, piece.page);
        id.push(':');
        push_decimal(&mut id, place as u128);
        assert(id@ =~= chunk_id(piece.fhash@, p, place as nat));
        let ghost before = counts@;
        counts.insert(key, place + 1);
        assert(counts_pieces(counts@, all, i + 1)) by {
            assert forall|g: Seq<char>, q: i32|
                #![trigger place_key(g, q)]
                pieces_on(all, g, q, i + 1) == (if counts@.contains_key(place_key(g, q)) {
                    counts@[place_key(g, q)] as nat
                } else {
                    0nat
                }) by {
                lemma_place_key(f, p, g, q);
                assert(pieces_on(all, g, q, i as int) == (if before.contains_key(place_key(g, q)) {
                    before[place_key(g, q)] as nat
                } else {
                    0nat
                }));
            }
        }
        let chunk = Chunk {
            id,
            text: piece.text.clone(),
            filename: piece.filename.clone(),
            page: piece.page,
            fhash: piece.fhash.clone(),
            figure: piece.figure,
        };
        let ghost listed = chunk_data(out@);
        out.push(chunk);
        assert(chunk_data(out@) =~= listed.push(chunk@));
        assert(chunk@ == numbered(all)[i as int]);
        assert(chunk_data(out@) =~= numbered(all).take(i + 1));
        i += 1;
    }
    assert(chunk_data(out@) =~= numbered(all));
    out
}

proof fn lemma_pieces_on_grows(pending: Seq<PendingData>, f: Seq<char>, p: i32, a: int, b: int)
    requires
        0 <= a < b,
        pending[a].filename == f,
        pending[a].page == p,
    ensures
        pieces_on(pending, f, p, a) < pieces_on(pending, f, p, b),
    decreases b,
{
    if b > a + 1 {
        lemma_pieces_on_grows(pending, f, p, a, b - 1);
    }
}

/// The new chunks of one file have different ids.
pub proof fn ids_are_distinct(pending: Seq<PendingData>, i: int, j: int)
    requires
        0 <= i < j < pending.len(),
        pending[i].filename == pending[j].filename,
        pending[i].fhash == pending[j].fhash,
    ensures
        numbered(pending)[i].id != numbered(pending)[j].id,
{
    let a = pending[i];
    let b = pending[j];
    let m = pieces_on(pending, a.filename, a.page, i);
    let n = pieces_on(pending, b.filename, b.page, j);
    let left = signed_decimal(a.page as int) + seq![':'] + decimal(m);
    let right = signed_decimal(b.page as int) + seq![':'] + decimal(n);
    if chunk_id(a.fhash, a.page, m) == chunk_id(b.fhash, b.page, n) {
        let h = a.fhash + seq![':'];
        assert((h + left).skip(h.len() as int) =~= left);
        assert((h + right).skip(h.len() as int) =~= right);
        lemma_signed_decimal(a.page as int, b.page as int);
        lemma_signed_decimal(b.page as int, a.page as int);
        lemma_mark_splits(
            ':',
            signed_decimal(a.page as int),
            decimal(m),
            signed_decimal(b.page as int),
            decimal(n),
        );
        crate::text::lemma_decimal(m);
        crate::text::lemma_decimal(n);
        lemma_pieces_on_grows(pending, a.filename, a.page, i, j);
    }
}

// ---------------------------------------------------------------------------------------------
// Finishing a run

/// The positions of the first `end` chunks whose files are not among the names.
pub open spec fn kept_positions(
    chunks: Seq<ChunkData>,
    names: Seq<Seq<char>>,
    end: int,
) -> Seq<int>
    decreases end,
{
    if end <= 0 {
        Seq::empty()
    } else {
        let front = kept_positions(chunks, names, end - 1);
        if names.contains(chunks[end - 1].filename) {
            front
        } else {
            front.push(end - 1)
        }
    }
}

/// The items at the given positions.
pub open spec fn at_positions<T>(list: Seq<T>, positions: Seq<int>) -> Seq<T> {
    Seq::new(positions.len(), |i: int| list[positions[i]])
}

/// Positions that are kept lie in the list and run upwards, and none of them has a file that gives
/// way; every other chunk is kept.
pub proof fn kept_positions_are_right(chunks: Seq<ChunkData>, names: Seq<Seq<char>>, end: int)
    requires
        0 <= end <= chunks.len(),
    ensures
        ({
            let kept = kept_positions(chunks, names, end);
            &&& kept.len() <= end
            &&& forall|i: int|
                0 <= i < kept.len() ==> 0 <= #[trigger] kept[i] < end && !names.contains(
                    chunks[kept[i]].filename,
                )
            &&& forall|i: int, j: int|
                0 <= i < j < kept.len() ==> #[trigger] kept[i] < #[trigger] kept[j]
            &&& forall|k: int|
                0 <= k < end && !names.contains((#[trigger] chunks[k]).filename) ==> kept.contains(k)
        }),
    decreases end,
{
    if end > 0 {
        kept_positions_are_right(chunks, names, end - 1);
        let front = kept_positions(chunks, names, end - 1);
        let kept = kept_positions(chunks, names, end);
        assert forall|k: int|
            0 <= k < end && !names.contains((#[trigger] chunks[k]).filename) implies kept.contains(
            k,
        ) by {
            if k < end - 1 {
                let i = choose|i: int| 0 <= i < front.len() && front[i] == k;
                assert(kept[i] == k);
            } else {
                assert(kept[kept.len() - 1] == k);
            }
        }
    }
}

fn is_among(names: &[String], name: &String) -> (r: bool)
    ensures
        r == strings(names@).contains(name@),
{
    let mut i: usize = 0;
    while i < names.len()
        invariant
            i <= names@.len(),
            forall|j: int| 0 <= j < i ==> strings(names@)[j] != name@,
        decreases names.len() - i,
    {
        if names[i] == *name {
            assert(strings(names@)[i as int] == name@);
            return true;
        }
        i += 1;
    }
    false
}

/// The chunks whose files are not among the names, and their vectors. Chunks and vectors travel
/// together, so that a dropped file cannot leave a vector behind.
fn retain(chunks: Vec<Chunk>, vectors: Vec<Vec<u32>>, names: &[String]) -> (r: (
    Vec<Chunk>,
    Vec<Vec<u32>>,
))
    requires
        chunks@.len() == vectors@.len(),
    ensures
        ({
            let kept = kept_positions(
                chunk_data(chunks@),
                strings(names@),
                chunks@.len() as int,
            );
            &&& chunk_data(r.0@) == at_positions(chunk_data(chunks@), kept)
            &&& lists(r.1@) == at_positions(lists(vectors@), kept)
        }),
        r.0@.len() == r.1@.len(),
{
    let ghost all = chunk_data(chunks@);
    let ghost rows = lists(vectors@);
    let ghost dropped = strings(names@);
    let mut left: Vec<Chunk> = Vec::new();
    let mut right: Vec<Vec<u32>> = Vec::new();
    let mut i: usize = 0;
    assert(chunk_data(left@) =~= at_positions(all, kept_positions(all, dropped, 0)));
    assert(lists(right@) =~= at_positions(rows, kept_positions(all, dropped, 0)));
    while i < chunks.len()
        invariant
            i <= chunks@.len(),
            chunks@.len() == vectors@.len(),
            all == chunk_data(chunks@),
            rows == lists(vectors@),
            dropped == strings(names@),
            left@.len() == right@.len(),
            chunk_data(left@) == at_positions(all, kept_positions(all, dropped, i as int)),
            lists(right@) == at_positions(rows, kept_positions(all, dropped, i as int)),
        decreases chunks.len() - i,
    {
        let ghost kept = kept_positions(all, dropped, i as int);
        if !is_among(names, &chunks[i].filename) {
            let ghost a = chunk_data(left@);
            let ghost b = lists(right@);
            let chunk = chunks[i].clone();
            let row = vectors[i].clone();
            assert(row@ =~= vectors@[i as int]@);
            left.push(chunk);
            right.push(row);
            assert(chunk_data(left@) =~= a.push(chunk@));
            assert(lists(right@) =~= b.push(row@));
            assert(chunk_data(left@) =~= at_positions(all, kept.push(i as int)));
            assert(lists(right@) =~= at_positions(rows, kept.push(i as int)));
        }
        i += 1;
    }
    (left, right)
}

/// What a run comes to.
pub enum IngestOutcome {
    /// There is nothing new, and nothing to save.
    Unchanged(IngestReport),
    /// The new index, to be saved.
    Save { index: Index, report: IngestReport },
}

/// The report of a run with its totals.
pub open spec fn completes(
    after: IngestReport,
    before: IngestReport,
    new_chunks: nat,
    chunks: usize,
    documents: usize,
) -> bool {
    &&& after.indexed_files == before.indexed_files
    &&& after.skipped_files == before.skipped_files
    &&& after.new_chunks == new_chunks
    &&& after.total_chunks == chunks
    &&& after.total_documents == documents
    &&& after.figures_found == before.figures_found
    &&& after.captions_made == before.captions_made
    &&& after.caption_failures == before.caption_failures
}

/// What finishing a run gives.
pub open spec fn finishes(
    run: IngestRun,
    existing: Index,
    vectors: Seq<Vec<u32>>,
    outcome: IngestOutcome,
) -> bool {
    match outcome {
        IngestOutcome::Unchanged(report) => {
            &&& run.pending@.len() == 0
            &&& completes(
                report,
                run.report,
                0,
                existing.metadata.chunks,
                existing.metadata.documents,
            )
        },
        IngestOutcome::Save { index, report } => {
            let kept = kept_positions(
                chunk_data(existing.chunks@),
                strings(run.changed@),
                existing.chunks@.len() as int,
            );
            &&& run.pending@.len() > 0
            &&& index.well_formed()
            &&& chunk_data(index.chunks@) == at_positions(chunk_data(existing.chunks@), kept)
                + numbered(pending_data(run.pending@))
            &&& lists(index.vectors@) == at_positions(lists(existing.vectors@), kept) + lists(
                vectors,
            )
            &&& index.metadata@ == build_metadata(
                index.chunks@.len() as usize,
                file_names(chunk_data(index.chunks@)).len() as usize,
            )
            &&& completes(
                report,
                run.report,
                run.pending@.len(),
                index.metadata.chunks,
                index.metadata.documents,
            )
        },
    }
}

/// Finishes a run, given the index that it began with and the vectors of its pieces: the chunks of
/// files that were not touched stay, those of changed files give way, and the new ones come behind.
/// A run without new pieces leaves the index as it is.
pub fn finish_ingest(run: IngestRun, existing: Index, vectors: Vec<Vec<u32>>) -> (r: IngestOutcome)
    requires
        run.well_formed(),
        existing.well_formed(),
        vectors@.len() == run.pending@.len(),
        existing.chunks@.len() + run.pending@.len() <= usize::MAX,
    ensures
        finishes(run, existing, vectors@, r),
        r is Unchanged <==> run.pending@.len() == 0,
        match r {
            IngestOutcome::Unchanged(report) => {
                &&& report.new_chunks == 0
                &&& report.total_chunks == existing.metadata.chunks
                &&& report.total_documents == existing.metadata.documents
                &&& report.indexed_files == run.report.indexed_files
                &&& report.skipped_files == run.report.skipped_files
                &&& report.figures_found == run.report.figures_found
                &&& report.captions_made == run.report.captions_made
                &&& report.caption_failures == run.report.caption_failures
            },
            IngestOutcome::Save { index, report } => {
                let n = index.chunks@.len() - run.pending@.len();
                &&& report.new_chunks == run.pending@.len()
                &&& report.total_chunks == index.chunks@.len()
                &&& report.indexed_files == run.report.indexed_files
                &&& report.skipped_files == run.report.skipped_files
                &&& report.figures_found == run.report.figures_found
                &&& report.captions_made == run.report.captions_made
                &&& report.caption_failures == run.report.caption_failures
                &&& 0 <= n <= existing.chunks@.len()
                &&& index.vectors@.len() == index.chunks@.len()
                &&& forall|i: int|
                    #![trigger run.pending@[i]]
                    0 <= i < run.pending@.len() ==> {
                        let c = index.chunks@[n + i];
                        let piece = run.pending@[i];
                        &&& c.text@ == piece.text@
                        &&& c.filename@ == piece.filename@
                        &&& c.page == piece.page
                        &&& c.fhash@ == piece.fhash@
                        &&& c.figure == piece.figure
                        &&& index.vectors@[n + i]@ == vectors@[i]@
                    }
                &&& forall|i: int|
                    0 <= i < n ==> !strings(run.changed@).contains(
                        (#[trigger] index.chunks@[i]).filename@,
                    )
                &&& forall|k: int|
                    #![trigger existing.chunks@[k]]
                    0 <= k < existing.chunks@.len() && !strings(run.changed@).contains(
                        existing.chunks@[k].filename@,
                    ) ==> exists|i: int|
                        #![trigger index.chunks@[i]]
                        0 <= i < n && ({
                            let a = index.chunks@[i];
                            let b = existing.chunks@[k];
                            &&& a.id@ == b.id@
                            &&& a.text@ == b.text@
                            &&& a.filename@ == b.filename@
                            &&& a.page == b.page
                            &&& a.fhash@ == b.fhash@
                            &&& a.figure == b.figure
                            &&& index.vectors@[i]@ == existing.vectors@[k]@
                        })
            },
        },
{
    let mut report = run.report;
    report.new_chunks = run.pending.len();
    if run.pending.len() == 0 {
        report.total_chunks = existing.metadata.chunks;
        report.total_documents = existing.metadata.documents;
        return IngestOutcome::Unchanged(report);
    }
    let ghost olds = chunk_data(existing.chunks@);
    let ghost rows = lists(existing.vectors@);
    let (mut chunks, mut all_vectors) = retain(
        existing.chunks,
        existing.vectors,
        run.changed.as_slice(),
    );
    let mut fresh = number_chunks(run.pending.as_slice());
    let mut fresh_vectors = vectors;
    let ghost a = chunks@;
    let ghost b = fresh@;
    let ghost c = all_vectors@;
    let ghost d = fresh_vectors@;
    proof {
        kept_positions_are_right(olds, strings(run.changed@), olds.len() as int);
        assert(chunk_data(a).len() == a.len());
        assert(chunk_data(b).len() == b.len());
    }
    chunks.append(&mut fresh);
    all_vectors.append(&mut fresh_vectors);
    assert(chunk_data(chunks@) =~= chunk_data(a) + chunk_data(b));
    assert(lists(all_vectors@) =~= lists(c) + lists(d));
    let index = Index::save(chunks, all_vectors);
    report.total_chunks = index.metadata.chunks;
    report.total_documents = index.metadata.documents;
    proof {
        let changed = strings(run.changed@);
        let kept = kept_positions(olds, changed, olds.len() as int);
        let data = chunk_data(index.chunks@);
        let stored = lists(index.vectors@);
        let n = index.chunks@.len() - run.pending@.len();
        assert(n == kept.len());
        assert forall|i: int|
            #![trigger run.pending@[i]]
            0 <= i < run.pending@.len() implies {
            let c = index.chunks@[n + i];
            let piece = run.pending@[i];
            &&& c.text@ == piece.text@
            &&& c.filename@ == piece.filename@
            &&& c.page == piece.page
            &&& c.fhash@ == piece.fhash@
            &&& c.figure == piece.figure
            &&& index.vectors@[n + i]@ == vectors@[i]@
        } by {
            assert(data[n + i] == chunk_data(b)[i]);
            assert(b[i]@ == data[n + i]);
            assert(stored[n + i] == lists(vectors@)[i]);
        }
        assert forall|i: int| 0 <= i < n implies !changed.contains(
            (#[trigger] index.chunks@[i]).filename@,
        ) by {
            assert(data[i] == olds[kept[i]]);
        }
        assert forall|k: int|
            #![trigger existing.chunks@[k]]
            0 <= k < existing.chunks@.len() && !changed.contains(
                existing.chunks@[k].filename@,
            ) implies exists|i: int|
            #![trigger index.chunks@[i]]
            0 <= i < n && ({
                let a = index.chunks@[i];
                let b = existing.chunks@[k];
                &&& a.id@ == b.id@
                &&& a.text@ == b.text@
                &&& a.filename@ == b.filename@
                &&& a.page == b.page
                &&& a.fhash@ == b.fhash@
                &&& a.figure == b.figure
                &&& index.vectors@[i]@ == existing.vectors@[k]@
            }) by {
            assert(olds[k] == existing.chunks@[k]@);
            let i = choose|i: int| 0 <= i < kept.len() && kept[i] == k;
            assert(data[i] == olds[k]);
            assert(index.chunks@[i]@ == data[i]);
            assert(stored[i] == rows[k]);
        }
    }
    IngestOutcome::Save { index, report }
}

/// The chunks of a file that was not touched stay as they were, with their vectors, and those of a
/// changed file are all new.
pub proof fn untouched_files_stay(
    olds: Seq<ChunkData>,
    rows: Seq<Seq<u32>>,
    changed: Seq<Seq<char>>,
    k: int,
)
    requires
        0 <= k < olds.len(),
        rows.len() == olds.len(),
    ensures
        ({
            let kept = kept_positions(olds, changed, olds.len() as int);
            let chunks = at_positions(olds, kept);
            let vectors = at_positions(rows, kept);
            &&& chunks.len() == vectors.len()
            &&& !changed.contains(olds[k].filename) ==> exists|i: int|
                0 <= i < chunks.len() && (#[trigger] chunks[i]) == olds[k] && vectors[i] == rows[k]
            &&& forall|i: int|
                0 <= i < chunks.len() ==> !changed.contains((#[trigger] chunks[i]).filename)
        }),
{
    kept_positions_are_right(olds, changed, olds.len() as int);
    let kept = kept_positions(olds, changed, olds.len() as int);
    let chunks = at_positions(olds, kept);
    if !changed.contains(olds[k].filename) {
        let i = choose|i: int| 0 <= i < kept.len() && kept[i] == k;
        assert(chunks[i] == olds[k]);
    }
    assert forall|i: int| 0 <= i < chunks.len() implies !changed.contains(
        (#[trigger] chunks[i]).filename,
    ) by {
        assert(chunks[i] == olds[kept[i]]);
    }
}

/// A file that was indexed again has its new chunks, and none of those that it had before.
pub proof fn new_text_replaces_the_old(
    olds: Seq<ChunkData>,
    changed: Seq<Seq<char>>,
    pending: Seq<PendingData>,
    k: int,
)
    requires
        forall|i: int|
            0 <= i < pending.len() ==> changed.contains((#[trigger] pending[i]).filename),
    ensures
        ({
            let kept = at_positions(olds, kept_positions(olds, changed, olds.len() as int));
            let all = kept + numbered(pending);
            0 <= k < all.len() && changed.contains(all[k].filename) ==> k >= kept.len() && all[k]
                == numbered(pending)[k - kept.len()]
        }),
{
    kept_positions_are_right(olds, changed, olds.len() as int);
    let positions = kept_positions(olds, changed, olds.len() as int);
    let kept = at_positions(olds, positions);
    let all = kept + numbered(pending);
    if 0 <= k < kept.len() {
        assert(all[k] == olds[positions[k]]);
    }
}

proof fn lemma_hash_of_kept(
    olds: Seq<ChunkData>,
    changed: Seq<Seq<char>>,
    end: int,
    f: Seq<char>,
)
    requires
        0 <= end <= olds.len(),
        !changed.contains(f),
    ensures
        ({
            let kept = at_positions(olds, kept_positions(olds, changed, end));
            let hashes = file_hashes(kept, kept.len() as int);
            &&& hashes.contains_key(f) == file_hashes(olds, end).contains_key(f)
            &&& hashes.contains_key(f) ==> hashes[f] == file_hashes(olds, end)[f]
        }),
    decreases end,
{
    if end > 0 {
        lemma_hash_of_kept(olds, changed, end - 1, f);
        let before = at_positions(olds, kept_positions(olds, changed, end - 1));
        let kept = at_positions(olds, kept_positions(olds, changed, end));
        if !changed.contains(olds[end - 1].filename) {
            assert(kept =~= before.push(olds[end - 1]));
            lemma_hashes_prefix(before, kept, before.len() as int);
        }
    }
}

proof fn lemma_hashes_prefix(a: Seq<ChunkData>, b: Seq<ChunkData>, end: int)
    requires
        0 <= end <= a.len(),
        end <= b.len(),
        forall|i: int| 0 <= i < end ==> a[i] == b[i],
    ensures
        file_hashes(a, end) == file_hashes(b, end),
    decreases end,
{
    if end > 0 {
        lemma_hashes_prefix(a, b, end - 1);
    }
}

proof fn lemma_hash_behind(
    front: Seq<ChunkData>,
    pending: Seq<PendingData>,
    f: Seq<char>,
    h: Seq<char>,
    n: int,
)
    requires
        0 <= n <= pending.len(),
        forall|i: int|
            0 <= i < pending.len() && (#[trigger] pending[i]).filename == f ==> pending[i].fhash
                == h,
    ensures
        ({
            let all = front + numbered(pending);
            let hashes = file_hashes(all, front.len() + n);
            if exists|i: int| 0 <= i < n && (#[trigger] pending[i]).filename == f {
                is_known(hashes, f, h)
            } else {
                &&& hashes.contains_key(f) == file_hashes(front, front.len() as int).contains_key(f)
                &&& hashes.contains_key(f) ==> hashes[f] == file_hashes(
                    front,
                    front.len() as int,
                )[f]
            }
        }),
    decreases n,
{
    let all = front + numbered(pending);
    if n == 0 {
        lemma_hashes_prefix(front, all, front.len() as int);
    } else {
        lemma_hash_behind(front, pending, f, h, n - 1);
        assert(all[front.len() + n - 1] == numbered(pending)[n - 1]);
        assert(pending[n - 1].filename == f ==> pending[n - 1].fhash == h);
    }
}

/// Running again skips every file that a run has indexed, and every file that it found indexed.
pub proof fn a_second_run_skips_what_is_indexed(
    olds: Seq<ChunkData>,
    changed: Seq<Seq<char>>,
    pending: Seq<PendingData>,
    f: Seq<char>,
    h: Seq<char>,
)
    requires
        forall|i: int|
            0 <= i < pending.len() && (#[trigger] pending[i]).filename == f ==> pending[i].fhash
                == h,
        (exists|i: int| 0 <= i < pending.len() && (#[trigger] pending[i]).filename == f) || (
        !changed.contains(f) && is_known(file_hashes(olds, olds.len() as int), f, h)),
    ensures
        ({
            let all = at_positions(olds, kept_positions(olds, changed, olds.len() as int))
                + numbered(pending);
            is_known(file_hashes(all, all.len() as int), f, h)
        }),
{
    let front = at_positions(olds, kept_positions(olds, changed, olds.len() as int));
    lemma_hash_behind(front, pending, f, h, pending.len() as int);
    if !changed.contains(f) {
        lemma_hash_of_kept(olds, changed, olds.len() as int, f);
    }
}

// ---------------------------------------------------------------------------------------------
// Document records

/// Records by their contents.
pub open spec fn record_values(m: Map<Seq<char>, DocumentRecord>) -> Map<Seq<char>, RecordData> {
    m.map_values(|d: DocumentRecord| d@)
}

/// The record of the document that a piece belongs to.
pub open spec fn record_of(piece: PendingData, chunks: Seq<ChunkData>) -> RecordData {
    let stats = stats_of(chunks, piece.filename);
    RecordData {
        filename: piece.filename,
        path: piece.path,
        fhash: piece.fhash,
        chunks: stats.0 as usize,
        pages: stats.1 as usize,
    }
}

/// The records with those of the documents of the first `end` pieces.
pub open spec fn recorded_documents(
    base: Map<Seq<char>, RecordData>,
    pending: Seq<PendingData>,
    chunks: Seq<ChunkData>,
    end: int,
) -> Map<Seq<char>, RecordData>
    decreases end,
{
    if end <= 0 {
        base
    } else {
        recorded_documents(base, pending, chunks, end - 1).insert(
            pending[end - 1].filename,
            record_of(pending[end - 1], chunks),
        )
    }
}

/// The record of a document names its file, where it came from and its content, and counts what the
/// index holds of it; documents without new pieces keep their records.
pub proof fn records_tell_where_documents_came_from(
    base: Map<Seq<char>, RecordData>,
    pending: Seq<PendingData>,
    chunks: Seq<ChunkData>,
    end: int,
    name: Seq<char>,
)
    requires
        0 <= end <= pending.len(),
    ensures
        ({
            let records = recorded_documents(base, pending, chunks, end);
            &&& (forall|i: int| 0 <= i < end ==> (#[trigger] pending[i]).filename != name) ==> {
                &&& records.contains_key(name) == base.contains_key(name)
                &&& base.contains_key(name) ==> records[name] == base[name]
            }
            &&& (exists|i: int| 0 <= i < end && (#[trigger] pending[i]).filename == name) ==> {
                &&& records.contains_key(name)
                &&& records[name].filename == name
                &&& records[name].chunks == chunk_count(
                    chunks,
                    name,
                    chunks.len() as int,
                ) as usize
                &&& records[name].pages == stats_of(chunks, name).1 as usize
                &&& exists|i: int|
                    0 <= i < end && (#[trigger] pending[i]).filename == name && records[name].path
                        == pending[i].path && records[name].fhash == pending[i].fhash
            }
        }),
    decreases end,
{
    if end > 0 {
        records_tell_where_documents_came_from(base, pending, chunks, end - 1, name);
        let records = recorded_documents(base, pending, chunks, end);
        if pending[end - 1].filename == name {
            assert(records[name].path == pending[end - 1].path);
        } else if exists|i: int| 0 <= i < end && (#[trigger] pending[i]).filename == name {
            let i = choose|i: int| 0 <= i < end && (#[trigger] pending[i]).filename == name;
            assert(i < end - 1);
            let k = choose|k: int|
                0 <= k < end - 1 && (#[trigger] pending[k]).filename == name && recorded_documents(
                    base,
                    pending,
                    chunks,
                    end - 1,
                )[name].path == pending[k].path && recorded_documents(
                    base,
                    pending,
                    chunks,
                    end - 1,
                )[name].fhash == pending[k].fhash;
            assert(pending[k].filename == name);
        }
    }
}

/// Records where each document came from that has new pieces, so that the original can be opened.
pub fn record_documents(
    documents: &mut TextMap<DocumentRecord>,
    pending: &[PendingChunk],
    index: &Index,
)
    ensures
        record_values(final(documents)@) == recorded_documents(
            record_values(old(documents)@),
            pending_data(pending@),
            chunk_data(index.chunks@),
            pending@.len() as int,
        ),
{
    let ghost all = pending_data(pending@);
    let ghost chunks = chunk_data(index.chunks@);
    let ghost base = record_values(documents@);
    let stats = index.document_stats();
    let mut i: usize = 0;
    while i < pending.len()
        invariant
            i <= pending@.len(),
            all == pending_data(pending@),
            chunks == chunk_data(index.chunks@),
            base == record_values(old(documents)@),
            stats@.dom() == file_names(chunks),
            forall|name: Seq<char>| #[trigger]
                stats@.contains_key(name) ==> (stats@[name].0 as nat, stats@[name].1 as nat)
                    == stats_of(chunks, name),
            record_values(documents@) == recorded_documents(base, all, chunks, i as int),
        decreases pending.len() - i,
    {
        let piece = &pending[i];
        assert(all[i as int] == piece@);
        let counts: (usize, usize) = match stats.get(piece.filename.as_str()) {
            Some(found) => *found,
            None => {
                proof {
                    lemma_unlisted(chunks, piece.filename@, chunks.len() as int);
                }
                (0, 0)
            },
        };
        let record = DocumentRecord {
            filename: piece.filename.clone(),
            path: piece.path.clone(),
            fhash: piece.fhash.clone(),
            chunks: counts.0,
            pages: counts.1,
        };
        let ghost before = documents@;
        assert(record@ == record_of(all[i as int], chunks));
        documents.insert(piece.filename.clone(), record);
        assert(record_values(documents@) =~= record_values(before).insert(
            piece.filename@,
            record@,
        ));
        i += 1;
    }
}

// ---------------------------------------------------------------------------------------------
// Removing

/// Takes a document out of an index: how many chunks went, and the index without them. Nothing comes
/// back where no document has that name.
#[verifier::spinoff_prover]
#[verifier::rlimit(40)]
pub fn remove_document(index: Index, filename: &str) -> (r: Option<(usize, Index)>)
    requires
        index.well_formed(),
    ensures
        ({
            let chunks = chunk_data(index.chunks@);
            let kept = kept_positions(chunks, seq![filename@], chunks.len() as int);
            match r {
                Some((removed, rest)) => {
                    &&& removed == chunk_count(chunks, filename@, chunks.len() as int)
                    &&& removed > 0
                    &&& rest.well_formed()
                    &&& chunk_data(rest.chunks@) == at_positions(chunks, kept)
                    &&& lists(rest.vectors@) == at_positions(lists(index.vectors@), kept)
                    &&& rest.metadata@ == build_metadata(
                        rest.chunks@.len() as usize,
                        file_names(chunk_data(rest.chunks@)).len() as usize,
                    )
                },
                None => chunk_count(chunks, filename@, chunks.len() as int) == 0,
            }
        }),
        r is Some <==> exists|i: int|
            0 <= i < index.chunks@.len() && (#[trigger] index.chunks@[i]).filename@ == filename@,
        r matches Some((removed, rest)) ==> {
            &&& removed + rest.chunks@.len() == index.chunks@.len()
            &&& rest.vectors@.len() == rest.chunks@.len()
            &&& forall|i: int|
                0 <= i < rest.chunks@.len() ==> (#[trigger] rest.chunks@[i]).filename@ != filename@
            &&& forall|k: int|
                #![trigger index.chunks@[k]]
                0 <= k < index.chunks@.len() && index.chunks@[k].filename@ != filename@
                    ==> exists|i: int|
                    #![trigger rest.chunks@[i]]
                    0 <= i < rest.chunks@.len() && ({
                        let a = rest.chunks@[i];
                        let b = index.chunks@[k];
                        &&& a.id@ == b.id@
                        &&& a.text@ == b.text@
                        &&& a.filename@ == b.filename@
                        &&& a.page == b.page
                        &&& a.fhash@ == b.fhash@
                        &&& a.figure == b.figure
                        &&& rest.vectors@[i]@ == index.vectors@[k]@
                    })
        },
{
    let ghost all = chunk_data(index.chunks@);
    let name = owned(filename);
    let mut removed: usize = 0;
    let mut i: usize = 0;
    while i < index.chunks.len()
        invariant
            i <= index.chunks@.len(),
            all == chunk_data(index.chunks@),
            name@ == filename@,
            removed <= i,
            removed == chunk_count(all, filename@, i as int),
        decreases index.chunks.len() - i,
    {
        if index.chunks[i].filename == name {
            removed += 1;
        }
        i += 1;
    }
    proof {
        lemma_counted(all, filename@, all.len() as int);
        if exists|i: int| 0 <= i < index.chunks@.len() && (#[trigger] index.chunks@[i]).filename@
            == filename@ {
            let i = choose|i: int|
                0 <= i < index.chunks@.len() && (#[trigger] index.chunks@[i]).filename@
                    == filename@;
            assert(all[i].filename == filename@);
        }
        if exists|i: int| 0 <= i < all.len() && (#[trigger] all[i]).filename == filename@ {
            let i = choose|i: int| 0 <= i < all.len() && (#[trigger] all[i]).filename == filename@;
            assert(index.chunks@[i].filename@ == filename@);
        }
    }
    if removed == 0 {
        return None;
    }
    let mut names: Vec<String> = Vec::new();
    names.push(name);
    assert(strings(names@) =~= seq![filename@]);
    let (chunks, vectors) = retain(index.chunks, index.vectors, names.as_slice());
    let rest = Index::save(chunks, vectors);
    proof {
        let kept = kept_positions(all, seq![filename@], all.len() as int);
        let data = chunk_data(rest.chunks@);
        let rows = lists(index.vectors@);
        let stored = lists(rest.vectors@);
        removal_takes_one_document(all, filename@);
        kept_positions_are_right(all, seq![filename@], all.len() as int);
        assert(data.len() == rest.chunks@.len());
        assert(all.len() == index.chunks@.len());
        assert(at_positions(all, kept).len() == kept.len());
        assert(removed + rest.chunks@.len() == index.chunks@.len());
        assert(rest.vectors@.len() == rest.chunks@.len());
        assert forall|i: int| 0 <= i < rest.chunks@.len() implies (
        #[trigger] rest.chunks@[i]).filename@ != filename@ by {
            assert(data[i].filename != filename@);
        }
        assert forall|k: int|
            #![trigger index.chunks@[k]]
            0 <= k < index.chunks@.len() && index.chunks@[k].filename@ != filename@ implies exists|
            i: int,
        |
            #![trigger rest.chunks@[i]]
            0 <= i < rest.chunks@.len() && ({
                let a = rest.chunks@[i];
                let b = index.chunks@[k];
                &&& a.id@ == b.id@
                &&& a.text@ == b.text@
                &&& a.filename@ == b.filename@
                &&& a.page == b.page
                &&& a.fhash@ == b.fhash@
                &&& a.figure == b.figure
                &&& rest.vectors@[i]@ == index.vectors@[k]@
            }) by {
            assert(all[k] == index.chunks@[k]@);
            assert(!seq![filename@].contains(all[k].filename));
            let i = choose|i: int| 0 <= i < kept.len() && kept[i] == k;
            assert(data[i] == all[k]);
            assert(rest.chunks@[i]@ == data[i]);
            assert(stored[i] == rows[k]);
        }
    }
    Some((removed, rest))
}

proof fn lemma_counted(chunks: Seq<ChunkData>, name: Seq<char>, end: int)
    requires
        0 <= end <= chunks.len(),
    ensures
        chunk_count(chunks, name, end) > 0 <==> exists|i: int|
            0 <= i < end && (#[trigger] chunks[i]).filename == name,
    decreases end,
{
    if end > 0 {
        lemma_counted(chunks, name, end - 1);
        if chunks[end - 1].filename == name {
            assert(chunks[end - 1].filename == name);
        }
    }
}

proof fn lemma_removed_count(chunks: Seq<ChunkData>, name: Seq<char>, end: int)
    requires
        0 <= end <= chunks.len(),
    ensures
        kept_positions(chunks, seq![name], end).len() + chunk_count(chunks, name, end) == end,
    decreases end,
{
    if end > 0 {
        lemma_removed_count(chunks, name, end - 1);
        assert(seq![name].contains(chunks[end - 1].filename) <==> chunks[end - 1].filename == name) by {
            assert(seq![name][0] == name);
        }
    }
}

/// Removing a document takes out its chunks and nothing else: what is left and what went make up
/// what there was, and nothing of the document is left.
pub proof fn removal_takes_one_document(chunks: Seq<ChunkData>, name: Seq<char>)
    ensures
        ({
            let kept = kept_positions(chunks, seq![name], chunks.len() as int);
            let rest = at_positions(chunks, kept);
            &&& rest.len() + chunk_count(chunks, name, chunks.len() as int) == chunks.len()
            &&& forall|i: int| 0 <= i < rest.len() ==> (#[trigger] rest[i]).filename != name
        }),
{
    lemma_removed_count(chunks, name, chunks.len() as int);
    kept_positions_are_right(chunks, seq![name], chunks.len() as int);
    let kept = kept_positions(chunks, seq![name], chunks.len() as int);
    let rest = at_positions(chunks, kept);
    assert forall|i: int| 0 <= i < rest.len() implies (#[trigger] rest[i]).filename != name by {
        assert(rest[i] == chunks[kept[i]]);
        assert(seq![name][0] == name);
    }
}

} // verus!
