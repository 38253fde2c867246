//! The index: the chunks of all documents with their vectors and term statistics.

use vstd::prelude::*;
use vstd::slice::slice_subrange;

use crate::bm25::{lowercase, Bm25};
use crate::config::{CHUNKER_VERSION, EMBED_DIM, EMBED_MODEL, NORMALIZATION};
use crate::score::{best, take_best, Score};
use crate::split::{only, pieces, split_char};
use crate::text::{
    chars_of, contains_text, decimal, has_text, lists, owned, push_decimal, string_of, strings,
    trim, trim_slice,
};
use crate::text_map::TextMap;

verus! {

// ---------------------------------------------------------------------------------------------
// Records

/// A piece of a document's text, as it is searched and cited.
#[derive(Debug)]
pub struct Chunk {
    pub id: String,
    pub text: String,
    pub filename: String,
    /// The page, counted from one, or -1 where the document has no pages.
    pub page: i32,
    /// The content hash of the file that the chunk came from.
    pub fhash: String,
    /// The text is a vision model's description of a figure and not printed on the page. Citations
    /// say so, since a caption can state a number that is not in the drawing.
    pub figure: bool,
}

#[verifier::ext_equal]
pub struct ChunkData {
    pub id: Seq<char>,
    pub text: Seq<char>,
    pub filename: Seq<char>,
    pub page: i32,
    pub fhash: Seq<char>,
    pub figure: bool,
}

impl View for Chunk {
    type V = ChunkData;

    open spec fn view(&self) -> ChunkData {
        ChunkData {
            id: self.id@,
            text: self.text@,
            filename: self.filename@,
            page: self.page,
            fhash: self.fhash@,
            figure: self.figure,
        }
    }
}

impl Clone for Chunk {
    fn clone(&self) -> (r: Self)
        ensures
            r@ == self@,
    {
        Chunk {
            id: self.id.clone(),
            text: self.text.clone(),
            filename: self.filename.clone(),
            page: self.page,
            fhash: self.fhash.clone(),
            figure: self.figure,
        }
    }
}

/// A chunk's contents are all that it holds: chunks have the same contents exactly when all their
/// parts are the same.
pub proof fn contents_tell_chunks_apart(a: Chunk, b: Chunk)
    ensures
        a@ == b@ <==> a.id@ == b.id@ && a.text@ == b.text@ && a.filename@ == b.filename@ && a.page
            == b.page && a.fhash@ == b.fhash@ && a.figure == b.figure,
{
}

/// The contents of a list of chunks.
pub open spec fn chunk_data(chunks: Seq<Chunk>) -> Seq<ChunkData> {
    Seq::new(chunks.len(), |i: int| chunks[i]@)
}

/// The texts of the chunks.
pub open spec fn chunk_texts(chunks: Seq<ChunkData>) -> Seq<Seq<char>> {
    Seq::new(chunks.len(), |i: int| chunks[i].text)
}

/// Everything that invalidates stored vectors, recorded so that a mismatch is an error on opening
/// and not a silent loss of quality.
#[derive(Debug)]
pub struct IndexMetadata {
    pub model: String,
    pub dim: usize,
    pub chunker_version: String,
    pub normalization: String,
    pub chunks: usize,
    pub documents: usize,
}

#[verifier::ext_equal]
pub struct MetadataData {
    pub model: Seq<char>,
    pub dim: usize,
    pub chunker_version: Seq<char>,
    pub normalization: Seq<char>,
    pub chunks: usize,
    pub documents: usize,
}

impl View for IndexMetadata {
    type V = MetadataData;

    open spec fn view(&self) -> MetadataData {
        MetadataData {
            model: self.model@,
            dim: self.dim,
            chunker_version: self.chunker_version@,
            normalization: self.normalization@,
            chunks: self.chunks,
            documents: self.documents,
        }
    }
}

impl Clone for IndexMetadata {
    fn clone(&self) -> (r: Self)
        ensures
            r@ == self@,
    {
        IndexMetadata {
            model: self.model.clone(),
            dim: self.dim,
            chunker_version: self.chunker_version.clone(),
            normalization: self.normalization.clone(),
            chunks: self.chunks,
            documents: self.documents,
        }
    }
}

/// What this build writes into the metadata of an index with so many chunks and documents.
pub open spec fn build_metadata(chunks: usize, documents: usize) -> MetadataData {
    MetadataData {
        model: EMBED_MODEL@,
        dim: EMBED_DIM,
        chunker_version: CHUNKER_VERSION@,
        normalization: NORMALIZATION@,
        chunks,
        documents,
    }
}

/// Why an index with this metadata cannot be used by this build.
pub open spec fn mismatch(metadata: MetadataData) -> Option<Seq<char>> {
    if metadata.model != EMBED_MODEL@ {
        Some(
            "index was built with "@ + metadata.model + " but this app is pinned to "@
                + EMBED_MODEL@,
        )
    } else if metadata.dim != EMBED_DIM {
        Some(
            "index stores "@ + decimal(metadata.dim as nat) + "-dim vectors, this app embeds "@
                + decimal(EMBED_DIM as nat) + "-dim"@,
        )
    } else if metadata.chunker_version != CHUNKER_VERSION@ {
        Some(
            "index was chunked with version "@ + metadata.chunker_version + " , this app uses "@
                + CHUNKER_VERSION@,
        )
    } else if metadata.normalization != NORMALIZATION@ {
        Some(
            "index vectors were normalized with "@ + metadata.normalization
                + " , this app uses "@ + NORMALIZATION@,
        )
    } else {
        None
    }
}

impl IndexMetadata {
    /// The metadata of an empty index of this build.
    pub fn current() -> (r: Self)
        ensures
            r@ == build_metadata(0, 0),
            r.model@ == EMBED_MODEL@,
            r.dim == EMBED_DIM,
            r.chunker_version@ == CHUNKER_VERSION@,
            r.normalization@ == NORMALIZATION@,
            r.chunks == 0,
            r.documents == 0,
    {
        IndexMetadata {
            model: owned(EMBED_MODEL),
            dim: EMBED_DIM,
            chunker_version: owned(CHUNKER_VERSION),
            normalization: owned(NORMALIZATION),
            chunks: 0,
            documents: 0,
        }
    }

    /// Whether the vectors of the index are those that this build would make, and if not, why.
    pub fn matches_current_build(&self) -> (r: Result<(), String>)
        ensures
            match r {
                Ok(()) => mismatch(self@) is None,
                Err(reason) => mismatch(self@) == Some(reason@),
            },
            r is Ok <==> self.model@ == EMBED_MODEL@ && self.dim == EMBED_DIM
                && self.chunker_version@ == CHUNKER_VERSION@ && self.normalization@
                == NORMALIZATION@,
    {
        if self.model != owned(EMBED_MODEL) {
            let mut reason = owned("index was built with ");
            reason.push_str(self.model.as_str());
            reason.push_str(" but this app is pinned to ");
            reason.push_str(EMBED_MODEL);
            return Err(reason);
        }
        if self.dim != EMBED_DIM {
            let mut reason = owned("index stores ");
            push_decimal(&mut reason, self.dim as u128);
            reason.push_str("-dim vectors, this app embeds ");
            push_decimal(&mut reason, EMBED_DIM as u128);
            reason.push_str("-dim");
            return Err(reason);
        }
        if self.chunker_version != owned(CHUNKER_VERSION) {
            let mut reason = owned("index was chunked with version ");
            reason.push_str(self.chunker_version.as_str());
            reason.push_str(" , this app uses ");
            reason.push_str(CHUNKER_VERSION);
            return Err(reason);
        }
        if self.normalization != owned(NORMALIZATION) {
            let mut reason = owned("index vectors were normalized with ");
            reason.push_str(self.normalization.as_str());
            reason.push_str(" , this app uses ");
            reason.push_str(NORMALIZATION);
            return Err(reason);
        }
        Ok(())
    }
}

/// Metadata have the same contents exactly when all their parts are the same.
pub proof fn contents_tell_metadata_apart(a: IndexMetadata, b: IndexMetadata)
    ensures
        a@ == b@ <==> a.model@ == b.model@ && a.dim == b.dim && a.chunker_version@
            == b.chunker_version@ && a.normalization@ == b.normalization@ && a.chunks == b.chunks
            && a.documents == b.documents,
{
}

/// Records have the same contents exactly when all their parts are the same.
pub proof fn contents_tell_records_apart(a: DocumentRecord, b: DocumentRecord)
    ensures
        a@ == b@ <==> a.filename@ == b.filename@ && a.path@ == b.path@ && a.fhash@ == b.fhash@
            && a.chunks == b.chunks && a.pages == b.pages,
{
}

/// An index of this build is accepted by this build, whatever it holds.
pub proof fn own_metadata_matches(chunks: usize, documents: usize)
    ensures
        mismatch(build_metadata(chunks, documents)) is None,
{
}

/// Where a document came from, kept beside the vectors so that the original file can be shown and
/// opened without another scan.
#[derive(Debug)]
pub struct DocumentRecord {
    pub filename: String,
    /// The absolute path of the file that produced the chunks.
    pub path: String,
    pub fhash: String,
    pub chunks: usize,
    pub pages: usize,
}

#[verifier::ext_equal]
pub struct RecordData {
    pub filename: Seq<char>,
    pub path: Seq<char>,
    pub fhash: Seq<char>,
    pub chunks: usize,
    pub pages: usize,
}

impl View for DocumentRecord {
    type V = RecordData;

    open spec fn view(&self) -> RecordData {
        RecordData {
            filename: self.filename@,
            path: self.path@,
            fhash: self.fhash@,
            chunks: self.chunks,
            pages: self.pages,
        }
    }
}

impl Clone for DocumentRecord {
    fn clone(&self) -> (r: Self)
        ensures
            r@ == self@,
    {
        DocumentRecord {
            filename: self.filename.clone(),
            path: self.path.clone(),
            fhash: self.fhash.clone(),
            chunks: self.chunks,
            pages: self.pages,
        }
    }
}

// ---------------------------------------------------------------------------------------------
// Vectors on disk

/// The four bytes of a number, the lowest first.
pub open spec fn number_bytes(v: u32) -> Seq<u8> {
    seq![
        (v % 256) as u8,
        ((v / 256) % 256) as u8,
        ((v / 65536) % 256) as u8,
        (v / 16777216) as u8,
    ]
}

/// The number that four bytes hold from a position on.
pub open spec fn number_at(bytes: Seq<u8>, at: int) -> int {
    bytes[at] + 256 * bytes[at + 1] + 65536 * bytes[at + 2] + 16777216 * bytes[at + 3]
}

/// The bytes of a row of numbers.
pub open spec fn row_bytes(row: Seq<u32>) -> Seq<u8>
    decreases row.len(),
{
    if row.len() == 0 {
        Seq::empty()
    } else {
        row_bytes(row.drop_last()) + number_bytes(row.last())
    }
}

/// The bytes of all rows, one after the other.
pub open spec fn rows_bytes(rows: Seq<Seq<u32>>) -> Seq<u8>
    decreases rows.len(),
{
    if rows.len() == 0 {
        Seq::empty()
    } else {
        rows_bytes(rows.drop_last()) + row_bytes(rows.last())
    }
}

/// A number takes four bytes, the lowest first, and is read back from them.
pub proof fn numbers_are_stored_lowest_byte_first(v: u32)
    ensures
        number_bytes(v).len() == 4,
        v == number_bytes(v)[0] + 0x100 * number_bytes(v)[1] + 0x1_0000 * number_bytes(v)[2]
            + 0x100_0000 * number_bytes(v)[3],
        number_at(number_bytes(v), 0) == v,
{
    let a = v % 256;
    let b = (v / 256) % 256;
    let c = (v / 65536) % 256;
    let d = v / 16777216;
    assert(v == a + 256 * b + 65536 * c + 16777216 * d);
    assert(d < 256);
}

/// Rows are stored one after the other, and so are the numbers of a row.
pub proof fn rows_are_stored_in_order(
    a: Seq<Seq<u32>>,
    b: Seq<Seq<u32>>,
    row: Seq<u32>,
    more: Seq<u32>,
)
    ensures
        rows_bytes(a + b) == rows_bytes(a) + rows_bytes(b),
        rows_bytes(seq![row]) == row_bytes(row),
        row_bytes(row + more) == row_bytes(row) + row_bytes(more),
{
    lemma_rows_parted(a, b);
    lemma_row_parted(row, more);
    let one = seq![row];
    assert(rows_bytes(one.drop_last()) =~= Seq::<u8>::empty());
    assert(rows_bytes(one) =~= row_bytes(row));
}

proof fn lemma_rows_parted(a: Seq<Seq<u32>>, b: Seq<Seq<u32>>)
    ensures
        rows_bytes(a + b) == rows_bytes(a) + rows_bytes(b),
    decreases b.len(),
{
    if b.len() == 0 {
        assert(a + b =~= a);
        assert(rows_bytes(a) + rows_bytes(b) =~= rows_bytes(a));
    } else {
        assert((a + b).drop_last() =~= a + b.drop_last());
        assert((a + b).last() == b.last());
        lemma_rows_parted(a, b.drop_last());
        assert(rows_bytes(a + b) =~= rows_bytes(a) + rows_bytes(b));
    }
}

proof fn lemma_row_parted(a: Seq<u32>, b: Seq<u32>)
    ensures
        row_bytes(a + b) == row_bytes(a) + row_bytes(b),
    decreases b.len(),
{
    if b.len() == 0 {
        assert(a + b =~= a);
        assert(row_bytes(a) + row_bytes(b) =~= row_bytes(a));
    } else {
        assert((a + b).drop_last() =~= a + b.drop_last());
        assert((a + b).last() == b.last());
        lemma_row_parted(a, b.drop_last());
        assert(row_bytes(a + b) =~= row_bytes(a) + row_bytes(b));
    }
}

/// The bytes hold these rows of `dim` numbers each.
pub open spec fn bytes_hold(bytes: Seq<u8>, rows: Seq<Seq<u32>>, dim: nat) -> bool {
    &&& bytes.len() == rows.len() * dim * 4
    &&& forall|i: int| 0 <= i < rows.len() ==> (#[trigger] rows[i]).len() == dim
    &&& forall|i: int, j: int|
        0 <= i < rows.len() && 0 <= j < dim ==> #[trigger] rows[i][j] == number_at(
            bytes,
            (i * dim + j) * 4,
        )
}

/// The bytes that store the vectors.
pub fn vector_bytes(vectors: &[Vec<u32>]) -> (r: Vec<u8>)
    ensures
        r@ == rows_bytes(lists(vectors@)),
{
    let mut out: Vec<u8> = Vec::new();
    let ghost rows = lists(vectors@);
    let mut i: usize = 0;
    assert(rows.take(0) =~= Seq::<Seq<u32>>::empty());
    while i < vectors.len()
        invariant
            i <= vectors.len(),
            rows == lists(vectors@),
            out@ == rows_bytes(rows.take(i as int)),
        decreases vectors.len() - i,
    {
        let ghost before = out@;
        let row = &vectors[i];
        let mut j: usize = 0;
        assert(before + row_bytes(row@.take(0)) =~= before);
        while j < row.len()
            invariant
                j <= row.len(),
                out@ == before + row_bytes(row@.take(j as int)),
            decreases row.len() - j,
        {
            let v: u32 = row[j];
            let ghost so_far = out@;
            out.push((v % 256) as u8);
            out.push(((v / 256) % 256) as u8);
            out.push(((v / 65536) % 256) as u8);
            out.push((v / 16777216) as u8);
            assert(out@ =~= so_far + number_bytes(v));
            assert(row@.take(j + 1).drop_last() =~= row@.take(j as int));
            assert(out@ =~= before + row_bytes(row@.take(j + 1)));
            j += 1;
        }
        assert(row@.take(row.len() as int) =~= row@);
        assert(rows.take(i + 1).drop_last() =~= rows.take(i as int));
        assert(rows.take(i + 1).last() == row@);
        i += 1;
    }
    assert(rows.take(vectors.len() as int) =~= rows);
    out
}

/// The stored vectors do not have the size that the index asks for.
#[derive(Debug, Clone, Copy, PartialEq, Eq, Structural)]
pub struct SizeMismatch {
    pub bytes: usize,
    pub chunks: usize,
    pub dim: usize,
}

impl SizeMismatch {
    /// The message for the file at `path`.
    pub fn message(&self, path: &str) -> (r: String)
        requires
            self.chunks * self.dim * 4 <= u128::MAX,
        ensures
            r@ == path@ + " holds "@ + decimal(self.bytes as nat) + " bytes, expected "@ + decimal(
                self.chunks as nat * self.dim as nat * 4,
            ) + " for "@ + decimal(self.chunks as nat) + " chunks at "@ + decimal(self.dim as nat)
                + " dims"@,
    {
        let mut out = owned(path);
        out.push_str(" holds ");
        push_decimal(&mut out, self.bytes as u128);
        out.push_str(" bytes, expected ");
        assert(0 <= self.chunks * self.dim) by (nonlinear_arith)
            requires
                0 <= self.chunks,
                0 <= self.dim,
        ;
        push_decimal(&mut out, self.chunks as u128 * self.dim as u128 * 4);
        out.push_str(" for ");
        push_decimal(&mut out, self.chunks as u128);
        out.push_str(" chunks at ");
        push_decimal(&mut out, self.dim as u128);
        out.push_str(" dims");
        out
    }
}

/// Reads `expected` vectors of `dim` numbers each out of their bytes.
pub fn read_vectors(bytes: &[u8], dim: usize, expected: usize) -> (r: Result<
    Vec<Vec<u32>>,
    SizeMismatch,
>)
    requires
        dim > 0,
    ensures
        match r {
            Ok(rows) => rows@.len() == expected && bytes_hold(bytes@, lists(rows@), dim as nat),
            Err(error) => bytes@.len() != expected * dim * 4 && error == (SizeMismatch {
                bytes: bytes@.len() as usize,
                chunks: expected,
                dim,
            }),
        },
{
    assert(0 <= expected * dim <= usize::MAX * usize::MAX) by (nonlinear_arith)
        requires
            0 <= expected <= usize::MAX,
            0 <= dim <= usize::MAX,
    ;
    let wanted: u128 = expected as u128 * dim as u128;
    if bytes.len() % 4 != 0 || (bytes.len() / 4) as u128 != wanted {
        return Err(SizeMismatch { bytes: bytes.len(), chunks: expected, dim });
    }
    assert(bytes@.len() == expected * dim * 4);
    let mut rows: Vec<Vec<u32>> = Vec::new();
    let mut at: usize = 0;
    let mut i: usize = 0;
    while i < expected
        invariant
            i <= expected,
            dim > 0,
            bytes@.len() == expected * dim * 4,
            bytes@.len() <= usize::MAX,
            at == i * dim * 4,
            rows@.len() == i,
            forall|a: int| 0 <= a < i ==> (#[trigger] lists(rows@)[a]).len() == dim,
            forall|a: int, b: int|
                0 <= a < i && 0 <= b < dim ==> #[trigger] lists(rows@)[a][b] == number_at(
                    bytes@,
                    (a * dim + b) * 4,
                ),
        decreases expected - i,
    {
        let mut row: Vec<u32> = Vec::new();
        let mut j: usize = 0;
        assert(i * dim * 4 + dim * 4 <= expected * dim * 4) by (nonlinear_arith)
            requires
                i < expected,
                dim > 0,
        ;
        while j < dim
            invariant
                j <= dim,
                row@.len() == j,
                at == (i * dim + j) * 4,
                i * dim * 4 + dim * 4 <= bytes@.len(),
                bytes@.len() <= usize::MAX,
                forall|b: int|
                    0 <= b < j ==> #[trigger] row@[b] == number_at(bytes@, (i * dim + b) * 4),
            decreases dim - j,
        {
            let v: u32 = bytes[at] as u32 + 256 * (bytes[at + 1] as u32) + 65536 * (bytes[at + 2] as u32)
                + 16777216 * (bytes[at + 3] as u32);
            row.push(v);
            at += 4;
            j += 1;
        }
        assert((i + 1) * dim * 4 == (i * dim + dim) * 4) by (nonlinear_arith);
        let ghost before = lists(rows@);
        rows.push(row);
        assert(lists(rows@) =~= before.push(row@));
        assert forall|a: int, b: int| 0 <= a < i + 1 && 0 <= b < dim implies #[trigger] lists(
            rows@,
        )[a][b] == number_at(bytes@, (a * dim + b) * 4) by {
            if a < i {
                assert(before[a][b] == number_at(bytes@, (a * dim + b) * 4));
            } else {
                assert(row@[b] == number_at(bytes@, (i * dim + b) * 4));
            }
        }
        i += 1;
    }
    Ok(rows)
}

proof fn lemma_number_round_trip(v: u32, bytes: Seq<u8>, at: int)
    requires
        0 <= at,
        at + 4 <= bytes.len(),
        bytes.subrange(at, at + 4) == number_bytes(v),
    ensures
        number_at(bytes, at) == v,
{
    let part = bytes.subrange(at, at + 4);
    assert(part[0] == bytes[at] && part[1] == bytes[at + 1] && part[2] == bytes[at + 2] && part[3]
        == bytes[at + 3]);
    assert(v == v % 256 + 256 * ((v / 256) % 256) + 65536 * ((v / 65536) % 256) + 16777216 * (v
        / 16777216)) by {
        assert(v / 65536 == (v / 256) / 256);
        assert(v / 16777216 == (v / 65536) / 256);
    }
}

proof fn lemma_row_bytes(row: Seq<u32>, j: int)
    requires
        0 <= j < row.len(),
    ensures
        row_bytes(row).len() == row.len() * 4,
        row_bytes(row).subrange(j * 4, j * 4 + 4) == number_bytes(row[j]),
    decreases row.len(),
{
    let front = row.drop_last();
    let head = row_bytes(front);
    if front.len() > 0 {
        lemma_row_bytes(front, 0);
    }
    assert(head.len() == front.len() * 4);
    let all = head + number_bytes(row.last());
    if j < front.len() {
        lemma_row_bytes(front, j);
        assert(all.subrange(j * 4, j * 4 + 4) =~= head.subrange(j * 4, j * 4 + 4));
    } else {
        assert(all.subrange(j * 4, j * 4 + 4) =~= number_bytes(row.last()));
    }
}

/// Stored vectors are read back as they were written.
pub proof fn vectors_round_trip(rows: Seq<Seq<u32>>, dim: nat)
    requires
        dim > 0,
        forall|i: int| 0 <= i < rows.len() ==> (#[trigger] rows[i]).len() == dim,
    ensures
        bytes_hold(rows_bytes(rows), rows, dim),
    decreases rows.len(),
{
    if rows.len() > 0 {
        let front = rows.drop_last();
        let last = rows.last();
        assert forall|i: int| 0 <= i < front.len() implies (#[trigger] front[i]).len() == dim by {
            assert(rows[i].len() == dim);
        }
        vectors_round_trip(front, dim);
        assert(rows[rows.len() - 1].len() == dim);
        lemma_row_bytes(last, 0);
        let head = rows_bytes(front);
        let tail = row_bytes(last);
        let all = rows_bytes(rows);
        assert(all == head + tail);
        let n = front.len();
        assert(n * dim * 4 + dim * 4 == (n + 1) * dim * 4) by (nonlinear_arith);
        assert forall|i: int, j: int| 0 <= i < rows.len() && 0 <= j < dim implies #[trigger] rows[i][j]
            == number_at(all, (i * dim + j) * 4) by {
            let at = (i * dim + j) * 4;
            if i < n {
                assert(front[i][j] == number_at(head, at));
                assert(0 <= at && at + 4 <= n * dim * 4) by (nonlinear_arith)
                    requires
                        0 <= i < n,
                        0 <= j < dim,
                        at == (i * dim + j) * 4,
                ;
            } else {
                assert(at == n * dim * 4 + j * 4) by (nonlinear_arith)
                    requires
                        i == n,
                        at == (i * dim + j) * 4,
                ;
                lemma_row_bytes(last, j);
                assert(all.subrange(at, at + 4) =~= tail.subrange(j * 4, j * 4 + 4));
                lemma_number_round_trip(last[j], all, at);
            }
        }
    }
}

/// Bytes hold at most one list of vectors, so that what reading gives back is what was written.
pub proof fn stored_vectors_are_unique(
    bytes: Seq<u8>,
    a: Seq<Seq<u32>>,
    b: Seq<Seq<u32>>,
    dim: nat,
)
    requires
        a.len() == b.len(),
        bytes_hold(bytes, a, dim),
        bytes_hold(bytes, b, dim),
    ensures
        a == b,
{
    assert forall|i: int| 0 <= i < a.len() implies a[i] == b[i] by {
        assert forall|j: int| 0 <= j < dim implies a[i][j] == b[i][j] by {
            assert(a[i][j] == number_at(bytes, (i * dim + j) * 4));
            assert(b[i][j] == number_at(bytes, (i * dim + j) * 4));
        }
        assert(a[i] =~= b[i]);
    }
    assert(a =~= b);
}

// ---------------------------------------------------------------------------------------------
// Record lines

/// A piece between line feeds without the carriage return before its line feed.
pub open spec fn line_text(piece: Seq<char>, last: bool) -> Seq<char> {
    if !last && piece.len() > 0 && piece.last() == '\r' {
        piece.drop_last()
    } else {
        piece
    }
}

/// The lines of the pieces before `end` that are not blank.
pub open spec fn filled_lines(parts: Seq<Seq<char>>, end: int) -> Seq<Seq<char>>
    decreases end,
{
    if end <= 0 {
        Seq::empty()
    } else {
        let front = filled_lines(parts, end - 1);
        let line = line_text(parts[end - 1], end == parts.len());
        if trim(line).len() > 0 {
            front.push(line)
        } else {
            front
        }
    }
}

/// The lines of a text that are not blank: one record each.
pub open spec fn record_texts(contents: Seq<char>) -> Seq<Seq<char>> {
    let parts = pieces(contents, only('\n'));
    filled_lines(parts, parts.len() as int)
}

/// Records stand one in a line, in order: a line that is not blank is a record, without the carriage
/// return before its line feed, and a blank line is none.
pub proof fn lines_are_records(line: Seq<char>, rest: Seq<char>)
    requires
        forall|i: int| 0 <= i < line.len() ==> (#[trigger] line[i]) != '\n',
        line.len() > 0 ==> line.last() != '\r',
    ensures
        trim(line).len() > 0 ==> record_texts(line + "\n"@ + rest) == seq![line] + record_texts(rest),
        trim(line).len() > 0 ==> record_texts(line + "\r\n"@ + rest) == seq![line] + record_texts(
            rest,
        ),
        trim(line).len() == 0 ==> record_texts(line + "\n"@ + rest) == record_texts(rest),
        trim(line).len() > 0 ==> record_texts(line) == seq![line],
{
    reveal_strlit("\n");
    reveal_strlit("\r\n");
    let sep = only('\n');
    assert forall|i: int| 0 <= i < line.len() implies !sep(#[trigger] line[i]) by {
        assert(line[i] != '\n');
    }
    crate::split::lemma_one_piece(line, sep);
    let turned = line.push('\r');
    assert forall|i: int| 0 <= i < turned.len() implies !sep(#[trigger] turned[i]) by {
        if i < line.len() {
            assert(turned[i] == line[i]);
        }
    }
    crate::split::lemma_one_piece(turned, sep);
    crate::split::lemma_pieces_parted(line, '\n', rest, sep);
    crate::split::lemma_pieces_parted(turned, '\n', rest, sep);
    crate::split::lemma_pieces_some(rest, sep);
    assert(line + "\n"@ + rest =~= line.push('\n') + rest);
    assert(line + "\r\n"@ + rest =~= turned.push('\n') + rest);
    let parts = pieces(rest, sep);
    lemma_first_line(line, parts, parts.len() as int);
    lemma_first_line(turned, parts, parts.len() as int);
    assert(turned.drop_last() =~= line);
    let one = seq![line];
    assert(filled_lines(one, 0) =~= Seq::<Seq<char>>::empty());
    if trim(line).len() > 0 {
        assert(record_texts(line) =~= seq![line]);
    }
    assert(Seq::<Seq<char>>::empty() + record_texts(rest) =~= record_texts(rest));
}

/// A text without a line feed is one record, with the carriage return that it may end in.
pub proof fn a_last_line_is_kept_whole(line: Seq<char>)
    requires
        forall|i: int| 0 <= i < line.len() ==> (#[trigger] line[i]) != '\n',
        trim(line).len() > 0,
    ensures
        record_texts(line) == seq![line],
{
    let sep = only('\n');
    assert forall|i: int| 0 <= i < line.len() implies !sep(#[trigger] line[i]) by {
        assert(line[i] != '\n');
    }
    crate::split::lemma_one_piece(line, sep);
    let one = seq![line];
    assert(filled_lines(one, 0) =~= Seq::<Seq<char>>::empty());
    assert(record_texts(line) =~= seq![line]);
}

proof fn lemma_first_line(piece: Seq<char>, parts: Seq<Seq<char>>, n: int)
    requires
        0 <= n <= parts.len(),
        parts.len() > 0,
    ensures
        filled_lines(seq![piece] + parts, n + 1) == (if trim(line_text(piece, false)).len() > 0 {
            seq![line_text(piece, false)]
        } else {
            Seq::<Seq<char>>::empty()
        }) + filled_lines(parts, n),
    decreases n,
{
    let all = seq![piece] + parts;
    let head = if trim(line_text(piece, false)).len() > 0 {
        seq![line_text(piece, false)]
    } else {
        Seq::<Seq<char>>::empty()
    };
    if n == 0 {
        assert(all[0] == piece);
        assert(filled_lines(all, 0) =~= Seq::<Seq<char>>::empty());
        assert(filled_lines(all, 1) =~= head + filled_lines(parts, 0));
    } else {
        lemma_first_line(piece, parts, n - 1);
        assert(all[n] == parts[n - 1]);
        assert(filled_lines(all, n + 1) =~= head + filled_lines(parts, n));
    }
}

/// The lines of a text that are not blank.
pub fn record_lines(contents: &str) -> (r: Vec<String>)
    ensures
        strings(r@) == record_texts(contents@),
{
    let chars = chars_of(contents);
    let parts = split_char(chars.as_slice(), '\n');
    let ghost all = lists(parts@);
    let mut out: Vec<String> = Vec::new();
    let mut i: usize = 0;
    assert(strings(out@) =~= filled_lines(all, 0));
    while i < parts.len()
        invariant
            i <= parts.len(),
            all == lists(parts@),
            all.len() == parts@.len(),
            strings(out@) == filled_lines(all, i as int),
        decreases parts.len() - i,
    {
        let part = parts[i].as_slice();
        let n: usize = part.len();
        let line = if i + 1 < parts.len() && n > 0 && part[n - 1] == '\r' {
            slice_subrange(part, 0, n - 1)
        } else {
            part
        };
        assert(line@ =~= line_text(all[i as int], i + 1 == all.len()));
        let ghost before = strings(out@);
        if trim_slice(line).len() > 0 {
            out.push(string_of(line));
            assert(strings(out@) =~= before.push(line@));
        }
        i += 1;
    }
    out
}

// ---------------------------------------------------------------------------------------------
// The index

/// The chunks of all documents, with what searching them needs.
pub struct Index {
    pub metadata: IndexMetadata,
    pub chunks: Vec<Chunk>,
    /// The bit patterns of the vectors, parallel to `chunks`.
    pub vectors: Vec<Vec<u32>>,
    pub bm25: Bm25,
}

/// Why stored data make no index.
#[derive(Debug)]
pub enum OpenError {
    /// The index was made by another build; the reason says how they differ.
    OtherBuild(String),
    /// The stored vectors do not fit the chunks.
    Vectors(SizeMismatch),
}

/// The files of the chunks before `end`, each with the hash of its last chunk.
pub open spec fn file_hashes(chunks: Seq<ChunkData>, end: int) -> Map<Seq<char>, Seq<char>>
    decreases end,
{
    if end <= 0 {
        Map::empty()
    } else {
        file_hashes(chunks, end - 1).insert(chunks[end - 1].filename, chunks[end - 1].fhash)
    }
}

/// The names of the files that the chunks came from.
pub open spec fn file_names(chunks: Seq<ChunkData>) -> Set<Seq<char>> {
    file_hashes(chunks, chunks.len() as int).dom()
}

/// A map of strings by their contents.
pub open spec fn text_values(m: Map<Seq<char>, String>) -> Map<Seq<char>, Seq<char>> {
    m.map_values(|s: String| s@)
}

impl Index {
    /// The parts of the index fit together.
    pub open spec fn well_formed(&self) -> bool {
        &&& self.vectors@.len() == self.chunks@.len()
        &&& self.bm25@ == chunk_texts(chunk_data(self.chunks@))
    }
}

fn texts_of(chunks: &[Chunk]) -> (r: Vec<String>)
    ensures
        strings(r@) == chunk_texts(chunk_data(chunks@)),
        r@.len() == chunks@.len(),
        forall|i: int| 0 <= i < r@.len() ==> (#[trigger] r@[i])@ == chunks@[i].text@,
{
    let mut out: Vec<String> = Vec::new();
    let mut i: usize = 0;
    while i < chunks.len()
        invariant
            i <= chunks.len(),
            strings(out@) == chunk_texts(chunk_data(chunks@)).take(i as int),
            out@.len() == i,
            forall|j: int| 0 <= j < i ==> (#[trigger] out@[j])@ == chunks@[j].text@,
        decreases chunks.len() - i,
    {
        let ghost before = strings(out@);
        let text = chunks[i].text.clone();
        out.push(text);
        assert(strings(out@) =~= before.push(text@));
        assert(strings(out@) =~= chunk_texts(chunk_data(chunks@)).take(i + 1));
        i += 1;
    }
    assert(strings(out@) =~= chunk_texts(chunk_data(chunks@)));
    out
}

fn files_of(chunks: &[Chunk]) -> (r: TextMap<String>)
    ensures
        text_values(r@) == file_hashes(chunk_data(chunks@), chunks@.len() as int),
{
    let ghost all = chunk_data(chunks@);
    let mut out: TextMap<String> = TextMap::new();
    let mut i: usize = 0;
    assert(text_values(out@) =~= file_hashes(all, 0));
    while i < chunks.len()
        invariant
            i <= chunks.len(),
            all == chunk_data(chunks@),
            text_values(out@) == file_hashes(all, i as int),
        decreases chunks.len() - i,
    {
        let ghost before = out@;
        let name = chunks[i].filename.clone();
        let hash = chunks[i].fhash.clone();
        out.insert(name, hash);
        assert(text_values(out@) =~= text_values(before).insert(name@, hash@));
        i += 1;
    }
    out
}

impl Index {
    /// An index without documents.
    pub fn empty() -> (r: Self)
        ensures
            r.well_formed(),
            r.metadata@ == build_metadata(0, 0),
            r.chunks@.len() == 0,
            r.vectors@.len() == 0,
    {
        let none: Vec<String> = Vec::new();
        let bm25 = Bm25::new(none.as_slice());
        let chunks: Vec<Chunk> = Vec::new();
        assert(strings(none@) =~= chunk_texts(chunk_data(chunks@)));
        Index { metadata: IndexMetadata::current(), chunks, vectors: Vec::new(), bm25 }
    }

    /// The index that stored data make: its metadata, its chunks and the bytes of its vectors.
    pub fn open(metadata: IndexMetadata, chunks: Vec<Chunk>, bytes: &[u8]) -> (r: Result<
        Self,
        OpenError,
    >)
        ensures
            match r {
                Ok(index) => {
                    &&& index.well_formed()
                    &&& mismatch(metadata@) is None
                    &&& index.metadata@ == metadata@
                    &&& chunk_data(index.chunks@) == chunk_data(chunks@)
                    &&& bytes_hold(bytes@, lists(index.vectors@), EMBED_DIM as nat)
                    &&& index.chunks == chunks
                    &&& index.vectors@.len() == chunks@.len()
                    &&& bytes@.len() == chunks@.len() * EMBED_DIM * 4
                },
                Err(OpenError::OtherBuild(reason)) => mismatch(metadata@) == Some(reason@),
                Err(OpenError::Vectors(error)) => {
                    &&& mismatch(metadata@) is None
                    &&& bytes@.len() != chunks@.len() * EMBED_DIM * 4
                    &&& error == (SizeMismatch {
                        bytes: bytes@.len() as usize,
                        chunks: chunks@.len() as usize,
                        dim: EMBED_DIM,
                    })
                },
            },
            r is Err && r->Err_0 is OtherBuild <==> !(metadata.model@ == EMBED_MODEL@
                && metadata.dim == EMBED_DIM && metadata.chunker_version@ == CHUNKER_VERSION@
                && metadata.normalization@ == NORMALIZATION@),
    {
        if let Err(reason) = metadata.matches_current_build() {
            return Err(OpenError::OtherBuild(reason));
        }
        match read_vectors(bytes, metadata.dim, chunks.len()) {
            Ok(vectors) => {
                let texts = texts_of(chunks.as_slice());
                Ok(Index { bm25: Bm25::new(texts.as_slice()), metadata, chunks, vectors })
            },
            Err(error) => Err(OpenError::Vectors(error)),
        }
    }

    /// The index of the given chunks and their vectors, with its metadata.
    pub fn save(chunks: Vec<Chunk>, vectors: Vec<Vec<u32>>) -> (r: Self)
        requires
            chunks@.len() == vectors@.len(),
        ensures
            r.well_formed(),
            r.chunks == chunks,
            r.vectors == vectors,
            r.metadata@ == build_metadata(
                chunks@.len() as usize,
                file_names(chunk_data(chunks@)).len() as usize,
            ),
            file_names(chunk_data(chunks@)).len() <= usize::MAX,
            r.metadata.chunks == chunks@.len(),
            r.metadata.model@ == EMBED_MODEL@,
            r.metadata.dim == EMBED_DIM,
            r.metadata.chunker_version@ == CHUNKER_VERSION@,
            r.metadata.normalization@ == NORMALIZATION@,
    {
        let files = files_of(chunks.as_slice());
        let documents: usize = files.len();
        proof {
            let names = file_names(chunk_data(chunks@));
            assert(names =~= files@.dom());
            crate::text_map::lemma_map_size(files.list());
        }
        let metadata = IndexMetadata {
            model: owned(EMBED_MODEL),
            dim: EMBED_DIM,
            chunker_version: owned(CHUNKER_VERSION),
            normalization: owned(NORMALIZATION),
            chunks: chunks.len(),
            documents,
        };
        let texts = texts_of(chunks.as_slice());
        Index { bm25: Bm25::new(texts.as_slice()), metadata, chunks, vectors }
    }

    /// The texts of all chunks.
    pub fn texts(&self) -> (r: Vec<String>)
        ensures
            strings(r@) == chunk_texts(chunk_data(self.chunks@)),
            r@.len() == self.chunks@.len(),
            forall|i: int| 0 <= i < r@.len() ==> (#[trigger] r@[i])@ == self.chunks@[i].text@,
    {
        texts_of(self.chunks.as_slice())
    }

    /// The files of the index with their content hashes.
    pub fn files(&self) -> (r: TextMap<String>)
        ensures
            text_values(r@) == file_hashes(chunk_data(self.chunks@), self.chunks@.len() as int),
    {
        files_of(self.chunks.as_slice())
    }
}

/// The files of an index are those that its chunks name, each with the hash of its last chunk.
pub proof fn files_are_those_of_the_chunks(chunks: Seq<ChunkData>, end: int, name: Seq<char>)
    requires
        0 <= end <= chunks.len(),
    ensures
        file_hashes(chunks, end).contains_key(name) <==> exists|k: int|
            0 <= k < end && (#[trigger] chunks[k]).filename == name,
        file_hashes(chunks, end).contains_key(name) ==> exists|k: int|
            0 <= k < end && (#[trigger] chunks[k]).filename == name && chunks[k].fhash
                == file_hashes(chunks, end)[name] && forall|m: int|
                k < m < end ==> (#[trigger] chunks[m]).filename != name,
    decreases end,
{
    if end > 0 {
        files_are_those_of_the_chunks(chunks, end - 1, name);
        let last = chunks[end - 1];
        if last.filename == name {
            assert(chunks[end - 1].filename == name);
        } else if file_hashes(chunks, end).contains_key(name) {
            let k = choose|k: int|
                0 <= k < end - 1 && (#[trigger] chunks[k]).filename == name && chunks[k].fhash
                    == file_hashes(chunks, end - 1)[name] && forall|m: int|
                    k < m < end - 1 ==> (#[trigger] chunks[m]).filename != name;
            assert(chunks[k].filename == name);
        }
    }
}

/// An index that was saved is opened as it was: its metadata are accepted, its vectors have the size
/// that is asked for, and what is read are the vectors that were written.
pub proof fn a_saved_index_opens_as_it_was(
    rows: Seq<Seq<u32>>,
    read: Seq<Seq<u32>>,
    chunks: usize,
    documents: usize,
)
    requires
        forall|i: int| 0 <= i < rows.len() ==> (#[trigger] rows[i]).len() == EMBED_DIM,
    ensures
        mismatch(build_metadata(chunks, documents)) is None,
        rows_bytes(rows).len() == rows.len() * EMBED_DIM * 4,
        read.len() == rows.len() && bytes_hold(rows_bytes(rows), read, EMBED_DIM as nat) ==> read
            == rows,
{
    own_metadata_matches(chunks, documents);
    vectors_round_trip(rows, EMBED_DIM as nat);
    if read.len() == rows.len() && bytes_hold(rows_bytes(rows), read, EMBED_DIM as nat) {
        stored_vectors_are_unique(rows_bytes(rows), read, rows, EMBED_DIM as nat);
    }
}

// ---------------------------------------------------------------------------------------------
// Candidates

/// Every file is in scope, or the named ones are.
pub open spec fn in_scope(filename: Seq<char>, scope: Option<Seq<Seq<char>>>) -> bool {
    match scope {
        None => true,
        Some(names) => names.contains(filename),
    }
}

/// The contents of an optional list of names.
pub open spec fn scope_names(scope: Option<&[String]>) -> Option<Seq<Seq<char>>> {
    match scope {
        None => None,
        Some(names) => Some(strings(names@)),
    }
}

/// The chunks before `end` that are in scope, and have a score over zero where that is asked, in
/// order and with their scores.
pub open spec fn candidates(
    chunks: Seq<ChunkData>,
    scores: Seq<Score>,
    scope: Option<Seq<Seq<char>>>,
    positive: bool,
    end: int,
) -> Seq<(usize, Score)>
    decreases end,
{
    if end <= 0 {
        Seq::empty()
    } else {
        let front = candidates(chunks, scores, scope, positive, end - 1);
        let i = end - 1;
        if in_scope(chunks[i].filename, scope) && (positive ==> scores[i].above_zero()) {
            front.push((i as usize, scores[i]))
        } else {
            front
        }
    }
}

/// Every candidate is a chunk in scope with its own score; candidates are numbered upwards.
pub proof fn candidates_are_in_scope(
    chunks: Seq<ChunkData>,
    scores: Seq<Score>,
    scope: Option<Seq<Seq<char>>>,
    positive: bool,
    end: int,
)
    requires
        0 <= end <= chunks.len() <= usize::MAX,
        scores.len() == chunks.len(),
    ensures
        ({
            let list = candidates(chunks, scores, scope, positive, end);
            &&& list.len() <= end
            &&& forall|k: int|
                #![trigger list[k]]
                0 <= k < list.len() ==> list[k].0 < end && list[k].1 == scores[list[k].0 as int]
                    && in_scope(chunks[list[k].0 as int].filename, scope) && (positive
                    ==> list[k].1.above_zero())
            &&& forall|i: int, j: int|
                0 <= i < j < list.len() ==> (#[trigger] list[i]).0 < (#[trigger] list[j]).0
        }),
    decreases end,
{
    if end > 0 {
        candidates_are_in_scope(chunks, scores, scope, positive, end - 1);
    }
}

/// Every chunk in scope is a candidate, as long as it has a score over zero where that is asked;
/// without a scope all chunks are, and with one those whose file it names.
pub proof fn chunks_in_scope_are_candidates(
    chunks: Seq<ChunkData>,
    scores: Seq<Score>,
    scope: Option<Seq<Seq<char>>>,
    positive: bool,
    end: int,
    c: int,
)
    requires
        0 <= c < end <= chunks.len() <= usize::MAX,
        scores.len() == chunks.len(),
    ensures
        ({
            let list = candidates(chunks, scores, scope, positive, end);
            list.contains((c as usize, scores[c])) <==> (match scope {
                None => true,
                Some(names) => names.contains(chunks[c].filename),
            }) && (!positive || 0 < scores[c].bits <= 0x7f80_0000)
        }),
    decreases end,
{
    let list = candidates(chunks, scores, scope, positive, end);
    let front = candidates(chunks, scores, scope, positive, end - 1);
    let x = (c as usize, scores[c]);
    if c == end - 1 {
        candidates_are_in_scope(chunks, scores, scope, positive, end - 1);
        if list.len() > front.len() {
            assert(list[list.len() - 1] == x);
        }
        if list.contains(x) {
            let i = choose|i: int| 0 <= i < list.len() && list[i] == x;
            if i < front.len() {
                assert(front[i] == x);
            }
        }
    } else {
        chunks_in_scope_are_candidates(chunks, scores, scope, positive, end - 1, c);
        if front.contains(x) {
            let i = choose|i: int| 0 <= i < front.len() && front[i] == x;
            assert(list[i] == x);
        }
        if list.contains(x) {
            let i = choose|i: int| 0 <= i < list.len() && list[i] == x;
            if i < front.len() {
                assert(front[i] == x);
            }
        }
    }
}

/// A scope that names none of the documents leaves nothing to search.
pub proof fn strange_scope_has_no_candidates(
    chunks: Seq<ChunkData>,
    scores: Seq<Score>,
    names: Seq<Seq<char>>,
    positive: bool,
    end: int,
)
    requires
        end <= chunks.len(),
        forall|i: int| 0 <= i < chunks.len() ==> !names.contains((#[trigger] chunks[i]).filename),
    ensures
        candidates(chunks, scores, Some(names), positive, end).len() == 0,
    decreases end,
{
    if end > 0 {
        strange_scope_has_no_candidates(chunks, scores, names, positive, end - 1);
        assert(!names.contains(chunks[end - 1].filename));
    }
}

fn is_named(names: &[String], filename: &String) -> (r: bool)
    ensures
        r == strings(names@).contains(filename@),
{
    let mut i: usize = 0;
    while i < names.len()
        invariant
            i <= names.len(),
            forall|j: int| 0 <= j < i ==> strings(names@)[j] != filename@,
        decreases names.len() - i,
    {
        if names[i] == *filename {
            assert(strings(names@)[i as int] == filename@);
            return true;
        }
        i += 1;
    }
    false
}

impl Index {
    fn candidates(&self, scores: &[Score], scope: Option<&[String]>, positive: bool) -> (r: Vec<
        (usize, Score),
    >)
        requires
            scores@.len() == self.chunks@.len(),
        ensures
            r@ == candidates(
                chunk_data(self.chunks@),
                scores@,
                scope_names(scope),
                positive,
                self.chunks@.len() as int,
            ),
    {
        let mut out: Vec<(usize, Score)> = Vec::new();
        let mut i: usize = 0;
        while i < self.chunks.len()
            invariant
                i <= self.chunks.len(),
                scores@.len() == self.chunks@.len(),
                out@ == candidates(
                    chunk_data(self.chunks@),
                    scores@,
                    scope_names(scope),
                    positive,
                    i as int,
                ),
            decreases self.chunks.len() - i,
        {
            let kept: bool = match scope {
                None => true,
                Some(names) => is_named(names, &self.chunks[i].filename),
            };
            if kept && (!positive || scores[i].is_positive()) {
                out.push((i, scores[i]));
            }
            i += 1;
        }
        out
    }

    /// The chunks in scope whose vectors are most similar to a question, given the similarity of
    /// each chunk.
    pub fn dense_search(
        &self,
        similarities: &[Score],
        limit: usize,
        scope: Option<&[String]>,
    ) -> (r: Vec<(usize, Score)>)
        requires
            similarities@.len() == self.chunks@.len(),
        ensures
            r@ == best(
                candidates(
                    chunk_data(self.chunks@),
                    similarities@,
                    scope_names(scope),
                    false,
                    self.chunks@.len() as int,
                ),
                limit as int,
            ),
    {
        let found = self.candidates(similarities, scope, false);
        take_best(found.as_slice(), limit)
    }

    /// The chunks in scope that match the words of a question best, given the lexical score of each
    /// chunk. A chunk that has none of the words is no match.
    pub fn lexical_search(&self, scores: &[Score], limit: usize, scope: Option<&[String]>) -> (r:
        Vec<(usize, Score)>)
        requires
            scores@.len() == self.chunks@.len(),
        ensures
            r@ == best(
                candidates(
                    chunk_data(self.chunks@),
                    scores@,
                    scope_names(scope),
                    true,
                    self.chunks@.len() as int,
                ),
                limit as int,
            ),
    {
        let found = self.candidates(scores, scope, true);
        take_best(found.as_slice(), limit)
    }
}

// ---------------------------------------------------------------------------------------------
// Browsing

/// How many of the chunks before `end` belong to a file.
pub open spec fn chunk_count(chunks: Seq<ChunkData>, name: Seq<char>, end: int) -> nat
    decreases end,
{
    if end <= 0 {
        0
    } else {
        chunk_count(chunks, name, end - 1) + (if chunks[end - 1].filename == name {
            1nat
        } else {
            0nat
        })
    }
}

/// The pages that the chunks before `end` of a file stand on.
pub open spec fn tracked_pages(chunks: Seq<ChunkData>, name: Seq<char>, end: int) -> Set<i32>
    decreases end,
{
    if end <= 0 {
        Set::empty()
    } else {
        let front = tracked_pages(chunks, name, end - 1);
        let c = chunks[end - 1];
        if c.filename == name && c.page != -1 {
            front.insert(c.page)
        } else {
            front
        }
    }
}

/// What is counted of a file: its chunks and the pages they stand on.
pub open spec fn stats_of(chunks: Seq<ChunkData>, name: Seq<char>) -> (nat, nat) {
    (
        chunk_count(chunks, name, chunks.len() as int),
        tracked_pages(chunks, name, chunks.len() as int).len(),
    )
}

/// The counts of a file while the chunks are read: how many chunks, and its pages without
/// repetition.
spec fn tallied(
    m: Map<Seq<char>, (usize, Vec<i32>)>,
    chunks: Seq<ChunkData>,
    end: int,
) -> bool {
    &&& m.dom() == file_hashes(chunks, end).dom()
    &&& forall|name: Seq<char>| #[trigger]
        m.contains_key(name) ==> m[name].0 == chunk_count(chunks, name, end)
            && m[name].1@.no_duplicates() && m[name].1@.to_set() == tracked_pages(chunks, name, end)
}

/// Chunks are counted one by one, and pages once each: a page is counted exactly when a chunk of the
/// file stands on it, and a chunk without a page counts none.
pub proof fn statistics_count_chunks_and_pages(
    chunks: Seq<ChunkData>,
    name: Seq<char>,
    end: int,
    page: i32,
)
    requires
        0 <= end <= chunks.len(),
    ensures
        end < chunks.len() ==> chunk_count(chunks, name, end + 1) == chunk_count(chunks, name, end)
            + (if chunks[end].filename == name {
            1int
        } else {
            0int
        }),
        chunk_count(chunks, name, 0) == 0,
        tracked_pages(chunks, name, end).contains(page) <==> page != -1 && exists|k: int|
            0 <= k < end && (#[trigger] chunks[k]).filename == name && chunks[k].page == page,
        tracked_pages(chunks, name, end).finite(),
        stats_of(chunks, name).0 == chunk_count(chunks, name, chunks.len() as int),
        stats_of(chunks, name).1 == tracked_pages(chunks, name, chunks.len() as int).len(),
    decreases end,
{
    if end > 0 {
        statistics_count_chunks_and_pages(chunks, name, end - 1, page);
        if chunks[end - 1].filename == name && chunks[end - 1].page == page {
            assert(chunks[end - 1].page == page);
        }
    }
}

/// Nothing is counted of a file that has no chunks.
pub proof fn lemma_unlisted(chunks: Seq<ChunkData>, name: Seq<char>, end: int)
    requires
        0 <= end <= chunks.len(),
        !file_hashes(chunks, end).contains_key(name),
    ensures
        chunk_count(chunks, name, end) == 0,
        tracked_pages(chunks, name, end) == Set::<i32>::empty(),
    decreases end,
{
    if end > 0 {
        lemma_unlisted(chunks, name, end - 1);
    }
}

proof fn lemma_chunk_count_bound(chunks: Seq<ChunkData>, name: Seq<char>, end: int)
    requires
        0 <= end,
    ensures
        chunk_count(chunks, name, end) <= end,
    decreases end,
{
    if end > 0 {
        lemma_chunk_count_bound(chunks, name, end - 1);
    }
}

fn holds_page(pages: &[i32], page: i32) -> (r: bool)
    ensures
        r == pages@.contains(page),
{
    let mut i: usize = 0;
    while i < pages.len()
        invariant
            i <= pages.len(),
            forall|j: int| 0 <= j < i ==> pages@[j] != page,
        decreases pages.len() - i,
    {
        if pages[i] == page {
            return true;
        }
        i += 1;
    }
    false
}

/// Counts one more chunk.
fn tally(m: &mut TextMap<(usize, Vec<i32>)>, chunks: &[Chunk], i: usize)
    requires
        i < chunks@.len(),
        tallied(old(m)@, chunk_data(chunks@), i as int),
    ensures
        tallied(final(m)@, chunk_data(chunks@), i + 1),
{
    let ghost all = chunk_data(chunks@);
    let ghost before = m@;
    let chunk = &chunks[i];
    let ghost name = chunk.filename@;
    assert(all[i as int].filename == name);
    let mut entry: (usize, Vec<i32>) = (0, Vec::new());
    let found = m.find(chunk.filename.as_str());
    proof {
        lemma_chunk_count_bound(all, name, i as int);
    }
    if let Some(k) = found {
        m.exchange(k, &mut entry);
    } else {
        proof {
            lemma_unlisted(all, name, i as int);
            assert(entry.1@.to_set() =~= Set::<i32>::empty());
        }
    }
    assert(entry.0 == chunk_count(all, name, i as int));
    assert(entry.1@.no_duplicates());
    assert(entry.1@.to_set() == tracked_pages(all, name, i as int));
    let ghost listed = entry.1@;
    entry.0 = entry.0 + 1;
    if chunk.page != -1 {
        if !holds_page(entry.1.as_slice(), chunk.page) {
            entry.1.push(chunk.page);
            proof {
                assert(entry.1@.to_set() =~= listed.to_set().insert(chunk.page)) by {
                    assert forall|p: i32| entry.1@.contains(p) == (listed.contains(p) || p
                        == chunk.page) by {
                        if listed.contains(p) {
                            let q = choose|q: int| 0 <= q < listed.len() && listed[q] == p;
                            assert(entry.1@[q] == p);
                        }
                        assert(entry.1@[listed.len() as int] == chunk.page);
                    }
                }
            }
        } else {
            assert(listed.to_set().contains(chunk.page));
            assert(listed.to_set() =~= listed.to_set().insert(chunk.page));
        }
    }
    m.insert(chunk.filename.clone(), entry);
    assert(m@.dom() =~= file_hashes(all, i + 1).dom());
}

impl Index {
    /// The files of the index, each with the number of its chunks and of the pages they stand on.
    pub fn document_stats(&self) -> (r: TextMap<(usize, usize)>)
        ensures
            r@.dom() == file_names(chunk_data(self.chunks@)),
            forall|name: Seq<char>| #[trigger]
                r@.contains_key(name) ==> (r@[name].0 as nat, r@[name].1 as nat) == stats_of(
                    chunk_data(self.chunks@),
                    name,
                ),
    {
        let ghost all = chunk_data(self.chunks@);
        let mut counts: TextMap<(usize, Vec<i32>)> = TextMap::new();
        let mut i: usize = 0;
        assert(counts@.dom() =~= file_hashes(all, 0).dom());
        while i < self.chunks.len()
            invariant
                i <= self.chunks.len(),
                all == chunk_data(self.chunks@),
                tallied(counts@, all, i as int),
            decreases self.chunks.len() - i,
        {
            tally(&mut counts, self.chunks.as_slice(), i);
            i += 1;
        }
        let total: usize = counts.len();
        let ghost list = counts.list();
        let mut out: TextMap<(usize, usize)> = TextMap::new();
        let mut k: usize = 0;
        while k < total
            invariant
                k <= total,
                total == list.len(),
                list == counts.list(),
                crate::text_map::ascending(list),
                all == chunk_data(self.chunks@),
                tallied(counts@, all, all.len() as int),
                forall|name: Seq<char>| #[trigger]
                    out@.contains_key(name) ==> (out@[name].0 as nat, out@[name].1 as nat)
                        == stats_of(all, name),
                forall|name: Seq<char>| #[trigger]
                    out@.contains_key(name) ==> counts@.contains_key(name),
                forall|j: int| 0 <= j < k ==> out@.contains_key((#[trigger] list[j]).0),
            decreases total - k,
        {
            let entry = counts.value_at(k);
            let name = counts.key_at(k).clone();
            proof {
                crate::text_map::lemma_map_of(list, k as int);
                assert(counts@.contains_key(name@));
                entry.1@.unique_seq_to_set();
            }
            let ghost before = out@;
            out.insert(name, (entry.0, entry.1.len()));
            k += 1;
        }
        proof {
            assert forall|name: Seq<char>| out@.dom().contains(name)
                == #[trigger] counts@.dom().contains(name) by {
                if counts@.contains_key(name) {
                    let j = crate::text_map::key_position(list, name);
                    assert(list[j].0 == name);
                }
            }
            assert(out@.dom() =~= counts@.dom());
        }
        out
    }
}

/// The chunk belongs to the file, stands on the page where one is asked for, and has the lower-case
/// text in its own where one is asked for.
pub open spec fn is_shown(
    chunk: ChunkData,
    filename: Seq<char>,
    needle: Option<Seq<char>>,
    page: Option<i32>,
) -> bool {
    &&& chunk.filename == filename
    &&& page matches Some(p) ==> chunk.page == p
    &&& needle matches Some(n) ==> contains_text(lowercase(chunk.text), n)
}

/// The chunks before `end` that are shown, in reading order.
pub open spec fn shown_chunks(
    chunks: Seq<ChunkData>,
    filename: Seq<char>,
    needle: Option<Seq<char>>,
    page: Option<i32>,
    end: int,
) -> Seq<ChunkData>
    decreases end,
{
    if end <= 0 {
        Seq::empty()
    } else {
        let front = shown_chunks(chunks, filename, needle, page, end - 1);
        if is_shown(chunks[end - 1], filename, needle, page) {
            front.push(chunks[end - 1])
        } else {
            front
        }
    }
}

/// What is shown are the chunks of the file, of the page where one is asked for, and with the text
/// where one is asked for: all of them, and nothing else.
pub proof fn shown_chunks_are_those_asked_for(
    chunks: Seq<ChunkData>,
    filename: Seq<char>,
    needle: Option<Seq<char>>,
    page: Option<i32>,
    end: int,
)
    requires
        0 <= end <= chunks.len(),
    ensures
        ({
            let shown = shown_chunks(chunks, filename, needle, page, end);
            let asked = Set::new(
                |i: int|
                    0 <= i < end && chunks[i].filename == filename && (page matches Some(p)
                        ==> chunks[i].page == p) && (needle matches Some(n) ==> contains_text(
                        lowercase(chunks[i].text),
                        n,
                    )),
            );
            &&& asked.finite()
            &&& shown.len() == asked.len()
            &&& forall|j: int|
                #![trigger shown[j]]
                0 <= j < shown.len() ==> shown[j].filename == filename && (page matches Some(p)
                    ==> shown[j].page == p) && (needle matches Some(n) ==> contains_text(
                    lowercase(shown[j].text),
                    n,
                ))
            &&& forall|i: int| #[trigger] asked.contains(i) ==> shown.contains(chunks[i])
        }),
    decreases end,
{
    let asked = Set::new(
        |i: int|
            0 <= i < end && chunks[i].filename == filename && (page matches Some(p)
                ==> chunks[i].page == p) && (needle matches Some(n) ==> contains_text(
                lowercase(chunks[i].text),
                n,
            )),
    );
    let shown = shown_chunks(chunks, filename, needle, page, end);
    if end == 0 {
        assert(asked =~= Set::<int>::empty());
    } else {
        shown_chunks_are_those_asked_for(chunks, filename, needle, page, end - 1);
        let before = Set::new(
            |i: int|
                0 <= i < end - 1 && chunks[i].filename == filename && (page matches Some(p)
                    ==> chunks[i].page == p) && (needle matches Some(n) ==> contains_text(
                    lowercase(chunks[i].text),
                    n,
                )),
        );
        let front = shown_chunks(chunks, filename, needle, page, end - 1);
        if asked.contains(end - 1) {
            assert(asked =~= before.insert(end - 1));
            assert(shown[shown.len() - 1] == chunks[end - 1]);
        } else {
            assert(asked =~= before);
        }
        assert forall|i: int| #[trigger] asked.contains(i) implies shown.contains(chunks[i]) by {
            if i < end - 1 {
                assert(before.contains(i));
                let j = choose|j: int| 0 <= j < front.len() && front[j] == chunks[i];
                assert(shown[j] == chunks[i]);
            }
        }
    }
}

/// Chunks are shown in the order of the index: what one stretch shows comes before what the next
/// one does.
pub proof fn shown_chunks_keep_their_order(
    chunks: Seq<ChunkData>,
    filename: Seq<char>,
    needle: Option<Seq<char>>,
    page: Option<i32>,
    middle: int,
)
    requires
        0 <= middle <= chunks.len(),
    ensures
        shown_chunks(chunks, filename, needle, page, chunks.len() as int) == shown_chunks(
            chunks.take(middle),
            filename,
            needle,
            page,
            middle,
        ) + shown_chunks(
            chunks.skip(middle),
            filename,
            needle,
            page,
            chunks.len() - middle,
        ),
{
    lemma_shown_front(chunks, chunks.take(middle), filename, needle, page, middle);
    lemma_shown_behind(chunks, filename, needle, page, middle, chunks.len() - middle);
}

proof fn lemma_shown_front(
    a: Seq<ChunkData>,
    b: Seq<ChunkData>,
    filename: Seq<char>,
    needle: Option<Seq<char>>,
    page: Option<i32>,
    end: int,
)
    requires
        end <= a.len(),
        end <= b.len(),
        forall|i: int| 0 <= i < end ==> a[i] == b[i],
    ensures
        shown_chunks(a, filename, needle, page, end) == shown_chunks(
            b,
            filename,
            needle,
            page,
            end,
        ),
    decreases end,
{
    if end > 0 {
        lemma_shown_front(a, b, filename, needle, page, end - 1);
    }
}

proof fn lemma_shown_behind(
    chunks: Seq<ChunkData>,
    filename: Seq<char>,
    needle: Option<Seq<char>>,
    page: Option<i32>,
    middle: int,
    n: int,
)
    requires
        0 <= middle,
        0 <= n,
        middle + n <= chunks.len(),
    ensures
        shown_chunks(chunks, filename, needle, page, middle + n) == shown_chunks(
            chunks,
            filename,
            needle,
            page,
            middle,
        ) + shown_chunks(chunks.skip(middle), filename, needle, page, n),
    decreases n,
{
    let left = shown_chunks(chunks, filename, needle, page, middle);
    if n > 0 {
        lemma_shown_behind(chunks, filename, needle, page, middle, n - 1);
        let c = chunks[middle + n - 1];
        assert(chunks.skip(middle)[n - 1] == c);
        let right = shown_chunks(chunks.skip(middle), filename, needle, page, n - 1);
        assert((left + right).push(c) =~= left + right.push(c));
    } else {
        assert(left + Seq::<ChunkData>::empty() =~= left);
    }
}

/// At most `limit` items of the list, from the position `offset` on.
pub open spec fn page_of<T>(list: Seq<T>, offset: int, limit: int) -> Seq<T> {
    let start = if offset < list.len() {
        offset
    } else {
        list.len() as int
    };
    let end = if limit < list.len() - start {
        start + limit
    } else {
        list.len() as int
    };
    list.subrange(start, end)
}

/// Pages that follow each other show what one longer page does, so that leafing through a document
/// shows every chunk once.
pub proof fn pages_follow_each_other<T>(list: Seq<T>, offset: int, limit: int, more: int)
    requires
        0 <= offset,
        0 <= limit,
        0 <= more,
    ensures
        page_of(list, offset, limit) + page_of(list, offset + limit, more) == page_of(
            list,
            offset,
            limit + more,
        ),
        page_of(list, 0, list.len() as int) == list,
{
    assert(page_of(list, offset, limit) + page_of(list, offset + limit, more) =~= page_of(
        list,
        offset,
        limit + more,
    ));
    assert(page_of(list, 0, list.len() as int) =~= list);
}

/// The lower-case form of an optional text.
pub open spec fn lowered_query(query: Option<&str>) -> Option<Seq<char>> {
    match query {
        Some(text) => Some(lowercase(text@)),
        None => None,
    }
}

fn text_holds(text: &String, needle: &[char]) -> (r: bool)
    ensures
        r == contains_text(lowercase(text@), needle@),
{
    let lowered = text.as_str().to_lowercase();
    let chars = chars_of(lowered.as_str());
    has_text(chars.as_slice(), needle)
}

impl Index {
    /// One page of a document's chunks in reading order, those that contain `query` where one is
    /// given, with the number of all such chunks. This is browsing and not retrieval: it does not
    /// depend on the embedding model.
    pub fn page_of_document(
        &self,
        filename: &str,
        query: Option<&str>,
        page: Option<i32>,
        offset: usize,
        limit: usize,
    ) -> (r: (usize, Vec<Chunk>))
        ensures
            ({
                let all = chunk_data(self.chunks@);
                let shown = shown_chunks(
                    all,
                    filename@,
                    lowered_query(query),
                    page,
                    all.len() as int,
                );
                &&& r.0 == shown.len()
                &&& chunk_data(r.1@) == page_of(shown, offset as int, limit as int)
            }),
            forall|j: int|
                #![trigger r.1@[j]]
                0 <= j < r.1@.len() ==> {
                    &&& r.1@[j].filename@ == filename@
                    &&& page matches Some(p) ==> r.1@[j].page == p
                    &&& query matches Some(q) ==> contains_text(
                        lowercase(r.1@[j].text@),
                        lowercase(q@),
                    )
                    &&& exists|i: int|
                        #![trigger self.chunks@[i]]
                        0 <= i < self.chunks@.len() && r.1@[j].id@ == self.chunks@[i].id@
                            && r.1@[j].text@ == self.chunks@[i].text@ && r.1@[j].page
                            == self.chunks@[i].page && r.1@[j].figure == self.chunks@[i].figure
                            && r.1@[j].filename@ == self.chunks@[i].filename@ && r.1@[j].fhash@
                            == self.chunks@[i].fhash@
                },
            r.0 == Set::new(
                |i: int|
                    0 <= i < self.chunks@.len() && self.chunks@[i].filename@ == filename@ && (
                    page matches Some(p) ==> self.chunks@[i].page == p) && (query matches Some(q)
                        ==> contains_text(lowercase(self.chunks@[i].text@), lowercase(q@))),
            ).len(),
            r.1@.len() == (if offset >= r.0 {
                0int
            } else if limit < r.0 - offset {
                limit as int
            } else {
                r.0 - offset
            }),
    {
        let needle: Option<Vec<char>> = match query {
            Some(text) => {
                let lowered = text.to_lowercase();
                Some(chars_of(lowered.as_str()))
            },
            None => None,
        };
        let ghost wanted = lowered_query(query);
        let ghost all = chunk_data(self.chunks@);
        let name = owned(filename);
        let mut total: usize = 0;
        let mut items: Vec<Chunk> = Vec::new();
        let mut i: usize = 0;
        assert(chunk_data(items@) =~= page_of(
            shown_chunks(all, filename@, wanted, page, 0),
            offset as int,
            limit as int,
        ));
        while i < self.chunks.len()
            invariant
                i <= self.chunks.len(),
                all == chunk_data(self.chunks@),
                name@ == filename@,
                match needle {
                    Some(n) => wanted == Some(n@),
                    None => wanted is None,
                },
                total <= i,
                total == shown_chunks(all, filename@, wanted, page, i as int).len(),
                chunk_data(items@) == page_of(
                    shown_chunks(all, filename@, wanted, page, i as int),
                    offset as int,
                    limit as int,
                ),
            decreases self.chunks.len() - i,
        {
            let chunk = &self.chunks[i];
            let on_page: bool = match page {
                Some(p) => chunk.page == p,
                None => true,
            };
            let holds: bool = match &needle {
                Some(n) => text_holds(&chunk.text, n.as_slice()),
                None => true,
            };
            let ghost before = shown_chunks(all, filename@, wanted, page, i as int);
            let ghost listed = chunk_data(items@);
            if chunk.filename == name && on_page && holds {
                if total >= offset && items.len() < limit {
                    let copy = chunk.clone();
                    items.push(copy);
                    assert(chunk_data(items@) =~= listed.push(all[i as int]));
                }
                total += 1;
                assert(chunk_data(items@) =~= page_of(
                    before.push(all[i as int]),
                    offset as int,
                    limit as int,
                ));
            }
            i += 1;
        }
        proof {
            let n = all.len() as int;
            let shown = shown_chunks(all, filename@, wanted, page, n);
            shown_chunks_are_those_asked_for(all, filename@, wanted, page, n);
            lemma_shown_from(all, filename@, wanted, page, n);
            let asked = Set::new(
                |i: int|
                    0 <= i < n && all[i].filename == filename@ && (page matches Some(p)
                        ==> all[i].page == p) && (wanted matches Some(m) ==> contains_text(
                        lowercase(all[i].text),
                        m,
                    )),
            );
            let raw = Set::new(
                |i: int|
                    0 <= i < self.chunks@.len() && self.chunks@[i].filename@ == filename@ && (
                    page matches Some(p) ==> self.chunks@[i].page == p) && (query matches Some(q)
                        ==> contains_text(lowercase(self.chunks@[i].text@), lowercase(q@))),
            );
            assert(asked =~= raw) by {
                assert forall|i: int| asked.contains(i) == raw.contains(i) by {
                    if 0 <= i < n {
                        assert(all[i] == self.chunks@[i]@);
                    }
                }
            }
            let start = if (offset as int) < shown.len() {
                offset as int
            } else {
                shown.len() as int
            };
            let data = chunk_data(items@);
            assert(data.len() == items@.len());
            assert forall|j: int|
                #![trigger items@[j]]
                0 <= j < items@.len() implies {
                &&& items@[j].filename@ == filename@
                &&& page matches Some(p) ==> items@[j].page == p
                &&& query matches Some(q) ==> contains_text(
                    lowercase(items@[j].text@),
                    lowercase(q@),
                )
                &&& exists|i: int|
                    #![trigger self.chunks@[i]]
                    0 <= i < self.chunks@.len() && items@[j].id@ == self.chunks@[i].id@
                        && items@[j].text@ == self.chunks@[i].text@ && items@[j].page
                        == self.chunks@[i].page && items@[j].figure == self.chunks@[i].figure
                        && items@[j].filename@ == self.chunks@[i].filename@ && items@[j].fhash@
                        == self.chunks@[i].fhash@
            } by {
                assert(data[j] == items@[j]@);
                assert(data[j] == shown[start + j]);
                let i = choose|i: int| 0 <= i < n && #[trigger] all[i] == shown[start + j];
                assert(all[i] == self.chunks@[i]@);
            }
        }
        (total, items)
    }
}

proof fn lemma_shown_from(
    chunks: Seq<ChunkData>,
    filename: Seq<char>,
    needle: Option<Seq<char>>,
    page: Option<i32>,
    end: int,
)
    ensures
        forall|j: int|
            0 <= j < shown_chunks(chunks, filename, needle, page, end).len() ==> exists|i: int|
                0 <= i < end && #[trigger] chunks[i] == #[trigger] shown_chunks(
                    chunks,
                    filename,
                    needle,
                    page,
                    end,
                )[j],
    decreases end,
{
    if end > 0 {
        lemma_shown_from(chunks, filename, needle, page, end - 1);
        let front = shown_chunks(chunks, filename, needle, page, end - 1);
        let shown = shown_chunks(chunks, filename, needle, page, end);
        assert forall|j: int| 0 <= j < shown.len() implies exists|i: int|
            0 <= i < end && #[trigger] chunks[i] == #[trigger] shown[j] by {
            if j < front.len() {
                let i = choose|i: int| 0 <= i < end - 1 && #[trigger] chunks[i] == front[j];
                assert(chunks[i] == shown[j]);
            } else {
                assert(chunks[end - 1] == shown[j]);
            }
        }
    }
}

} // verus!
