//! Finding the pages of a PDF that are worth showing to a vision model.

use vstd::prelude::*;
use vstd::slice::slice_subrange;

use crate::split::{lemma_one_piece, lemma_pieces_parted, pieces};
use crate::text::{chars_of, strings};

verus! {

/// Why a page is worth a caption.
#[derive(Clone, Copy, Debug, PartialEq, Eq, Structural)]
pub enum FigureReason {
    /// A raster large enough to be a photograph or a pasted chart, and no logo.
    Raster,
    /// A line drawing that carries little text: schematics, diagrams, charts.
    Drawing,
}

/// A page worth showing to a vision model.
#[derive(Clone, Copy, Debug, PartialEq, Eq, Structural)]
pub struct FigurePage {
    /// The page, counted from one.
    pub page: usize,
    pub reason: FigureReason,
    pub images: usize,
}

/// What indexing a document would cost in captions.
#[derive(Debug)]
pub struct FigureScan {
    pub pages: usize,
    pub figure_pages: Vec<FigurePage>,
}

impl Clone for FigureScan {
    fn clone(&self) -> (r: Self)
        ensures
            r.pages == self.pages,
            r.figure_pages@ == self.figure_pages@,
    {
        let pages = self.figure_pages.clone();
        assert(pages@ =~= self.figure_pages@);
        FigureScan { pages: self.pages, figure_pages: pages }
    }
}

impl Default for FigureScan {
    fn default() -> (r: Self)
        ensures
            r.pages == 0,
            r.figure_pages@.len() == 0,
    {
        FigureScan { pages: 0, figure_pages: Vec::new() }
    }
}

/// How many of the pages are there for a reason.
pub open spec fn reason_count(pages: Seq<FigurePage>, reason: FigureReason) -> nat
    decreases pages.len(),
{
    if pages.len() == 0 {
        0
    } else {
        reason_count(pages.drop_last(), reason) + (if pages.last().reason == reason {
            1nat
        } else {
            0nat
        })
    }
}

/// Every figure page is there for one of the two reasons.
pub proof fn reasons_add_up(pages: Seq<FigurePage>)
    ensures
        reason_count(pages, FigureReason::Raster) + reason_count(pages, FigureReason::Drawing)
            == pages.len(),
    decreases pages.len(),
{
    if pages.len() > 0 {
        reasons_add_up(pages.drop_last());
    }
}

/// The pages are counted one by one, each under its own reason.
pub proof fn pages_count_under_their_reason(
    a: Seq<FigurePage>,
    b: Seq<FigurePage>,
    page: FigurePage,
    reason: FigureReason,
)
    ensures
        reason_count(a + b, reason) == reason_count(a, reason) + reason_count(b, reason),
        reason_count(seq![page], page.reason) == 1,
        reason != page.reason ==> reason_count(seq![page], reason) == 0,
    decreases b.len(),
{
    let one = seq![page];
    assert(one.last() == page);
    assert(reason_count(one.drop_last(), reason) == 0);
    assert(reason_count(one.drop_last(), page.reason) == 0);
    if b.len() == 0 {
        assert(a + b =~= a);
    } else {
        assert((a + b).drop_last() =~= a + b.drop_last());
        assert((a + b).last() == b.last());
        pages_count_under_their_reason(a, b.drop_last(), page, reason);
    }
}

impl FigureScan {
    fn count(&self, reason: FigureReason) -> (n: usize)
        ensures
            n == reason_count(self.figure_pages@, reason),
    {
        let ghost all = self.figure_pages@;
        let mut n: usize = 0;
        let mut i: usize = 0;
        assert(all.take(0) =~= Seq::<FigurePage>::empty());
        while i < self.figure_pages.len()
            invariant
                i <= self.figure_pages@.len(),
                all == self.figure_pages@,
                n <= i,
                n == reason_count(all.take(i as int), reason),
            decreases self.figure_pages.len() - i,
        {
            assert(all.take(i + 1).drop_last() =~= all.take(i as int));
            if self.figure_pages[i].reason == reason {
                n += 1;
            }
            i += 1;
        }
        assert(all.take(all.len() as int) =~= all);
        n
    }

    /// How many pages have a raster.
    pub fn raster_pages(&self) -> (n: usize)
        ensures
            n == reason_count(self.figure_pages@, FigureReason::Raster),
    {
        self.count(FigureReason::Raster)
    }

    /// How many pages are drawings.
    pub fn drawing_pages(&self) -> (n: usize)
        ensures
            n == reason_count(self.figure_pages@, FigureReason::Drawing),
    {
        self.count(FigureReason::Drawing)
    }

    /// Whether there is anything to caption.
    pub fn needs_vision(&self) -> (r: bool)
        ensures
            r == (self.figure_pages@.len() > 0),
    {
        self.figure_pages.len() > 0
    }
}

// ---------------------------------------------------------------------------------------------
// Rules

/// The image is too large for page furniture. Height is the reliable axis: header bands are wide
/// and low, and counting pixels alone would let them through.
pub open spec fn substantial(width: int, height: int) -> bool {
    width >= 250 && height >= 250 && width * height >= 120_000
}

/// Whether an image is too large for page furniture.
pub fn is_substantial(width: u32, height: u32) -> (r: bool)
    ensures
        r == substantial(width as int, height as int),
        r <==> width >= 250 && height >= 250 && width * height >= 120_000,
{
    assert(0 <= width * height <= 0xffff_ffff * 0xffff_ffff) by (nonlinear_arith)
        requires
            0 <= width <= 0xffff_ffff,
            0 <= height <= 0xffff_ffff,
    ;
    width >= 250 && height >= 250 && (width as u64) * (height as u64) >= 120_000
}

/// The page paints many paths and says little, as a drawing does and prose does not.
pub open spec fn drawing(ops: int, text_chars: int) -> bool {
    ops >= 60 && text_chars <= 400
}

/// Whether a page with so many path operators and characters is a drawing.
pub fn is_drawing(ops: usize, text_chars: usize) -> (r: bool)
    ensures
        r == drawing(ops as int, text_chars as int),
        r <==> ops >= 60 && text_chars <= 400,
{
    ops >= 60 && text_chars <= 400
}

/// The operator paints or builds a path.
pub open spec fn path_operator(token: Seq<u8>) -> bool {
    ||| token == seq![114u8, 101u8]
    ||| token.len() == 1 && seq![109u8, 108, 99, 118, 121, 102, 70, 83, 66].contains(token[0])
}

/// The byte ends a token: white space, or the delimiter of a string, a list or a dictionary.
pub open spec fn ends_token(b: u8) -> bool {
    b == 32 || b == 9 || b == 10 || b == 12 || b == 13 || b == 40 || b == 41 || b == 91 || b == 93
        || b == 60 || b == 62 || b == 123 || b == 125
}

pub open spec fn token_ends() -> spec_fn(u8) -> bool {
    |b: u8| ends_token(b)
}

/// How many of the tokens are path operators.
pub open spec fn operator_count(tokens: Seq<Seq<u8>>) -> nat
    decreases tokens.len(),
{
    if tokens.len() == 0 {
        0
    } else {
        operator_count(tokens.drop_last()) + (if path_operator(tokens.last()) {
            1nat
        } else {
            0nat
        })
    }
}

/// Behind the parenthesis that closes a literal string, read from `i` on with `depth` parentheses
/// open. A backslash takes the byte behind it as it is.
pub open spec fn string_end(content: Seq<u8>, i: int, depth: nat, escaped: bool) -> Option<int>
    decreases content.len() - i,
{
    if i >= content.len() {
        None
    } else if escaped {
        string_end(content, i + 1, depth, false)
    } else if content[i] == 92 {
        string_end(content, i + 1, depth, true)
    } else if content[i] == 40 {
        string_end(content, i + 1, depth + 1, false)
    } else if content[i] == 41 {
        if depth <= 1 {
            Some(i + 1)
        } else {
            string_end(content, i + 1, (depth - 1) as nat, false)
        }
    } else {
        string_end(content, i + 1, depth, false)
    }
}

/// The content from `i` on without what stands in literal strings: of each string only the
/// parenthesis that opens it is kept. One that is never closed opens no string.
pub open spec fn outside_strings(content: Seq<u8>, i: int) -> Seq<u8>
    decreases content.len() - i,
{
    if i >= content.len() {
        Seq::empty()
    } else if content[i] == 40 {
        match string_end(content, i + 1, 1, false) {
            Some(end) => if i < end <= content.len() {
                seq![40u8] + outside_strings(content, end)
            } else {
                Seq::empty()
            },
            None => content.skip(i),
        }
    } else {
        seq![content[i]] + outside_strings(content, i + 1)
    }
}

/// How many path operators a page's content has. Leaving out literal strings and cutting at white
/// space and delimiters keeps the letters of a text from counting as operators.
pub open spec fn path_operators(content: Seq<u8>) -> nat {
    operator_count(pieces(outside_strings(content, 0), token_ends()))
}

proof fn lemma_string_end(content: Seq<u8>, i: int, depth: nat, escaped: bool)
    ensures
        string_end(content, i, depth, escaped) matches Some(end) ==> i < end <= content.len(),
    decreases content.len() - i,
{
    if i < content.len() {
        if escaped {
            lemma_string_end(content, i + 1, depth, false);
        } else if content[i] == 92 {
            lemma_string_end(content, i + 1, depth, true);
        } else if content[i] == 40 {
            lemma_string_end(content, i + 1, depth + 1, false);
        } else if content[i] == 41 {
            if depth > 1 {
                lemma_string_end(content, i + 1, (depth - 1) as nat, false);
            }
        } else {
            lemma_string_end(content, i + 1, depth, false);
        }
    }
}

/// Where a string ends is settled by its own bytes: what stands around them changes nothing.
proof fn lemma_string_end_within(
    inner: Seq<u8>,
    before: Seq<u8>,
    behind: Seq<u8>,
    i: int,
    depth: nat,
    escaped: bool,
)
    requires
        0 <= i,
        string_end(inner, i, depth, escaped) is Some,
    ensures
        string_end(before + inner + behind, before.len() + i, depth, escaped) == Some(
            before.len() + string_end(inner, i, depth, escaped)->0,
        ),
    decreases inner.len() - i,
{
    let content = before + inner + behind;
    assert(content[before.len() + i] == inner[i]);
    if escaped {
        lemma_string_end_within(inner, before, behind, i + 1, depth, false);
    } else if inner[i] == 92 {
        lemma_string_end_within(inner, before, behind, i + 1, depth, true);
    } else if inner[i] == 40 {
        lemma_string_end_within(inner, before, behind, i + 1, depth + 1, false);
    } else if inner[i] == 41 {
        if depth > 1 {
            lemma_string_end_within(inner, before, behind, i + 1, (depth - 1) as nat, false);
        }
    } else {
        lemma_string_end_within(inner, before, behind, i + 1, depth, false);
    }
}

proof fn lemma_string_end_behind(
    before: Seq<u8>,
    behind: Seq<u8>,
    i: int,
    depth: nat,
    escaped: bool,
)
    requires
        0 <= i,
    ensures
        string_end(before + behind, before.len() + i, depth, escaped) == (match string_end(
            behind,
            i,
            depth,
            escaped,
        ) {
            Some(end) => Some(before.len() + end),
            None => None,
        }),
    decreases behind.len() - i,
{
    if i < behind.len() {
        assert((before + behind)[before.len() + i] == behind[i]);
        if escaped {
            lemma_string_end_behind(before, behind, i + 1, depth, false);
        } else if behind[i] == 92 {
            lemma_string_end_behind(before, behind, i + 1, depth, true);
        } else if behind[i] == 40 {
            lemma_string_end_behind(before, behind, i + 1, depth + 1, false);
        } else if behind[i] == 41 {
            if depth > 1 {
                lemma_string_end_behind(before, behind, i + 1, (depth - 1) as nat, false);
            }
        } else {
            lemma_string_end_behind(before, behind, i + 1, depth, false);
        }
    }
}

proof fn lemma_outside_behind(before: Seq<u8>, behind: Seq<u8>, i: int)
    requires
        0 <= i,
    ensures
        outside_strings(before + behind, before.len() + i) == outside_strings(behind, i),
    decreases behind.len() - i,
{
    let content = before + behind;
    if i < behind.len() {
        assert(content[before.len() + i] == behind[i]);
        if behind[i] == 40 {
            lemma_string_end(behind, i + 1, 1, false);
            lemma_string_end_behind(before, behind, i + 1, 1, false);
            match string_end(behind, i + 1, 1, false) {
                Some(end) => {
                    lemma_outside_behind(before, behind, end);
                },
                None => {
                    assert(content.skip(before.len() + i) =~= behind.skip(i));
                },
            }
        } else {
            lemma_outside_behind(before, behind, i + 1);
        }
    }
}

proof fn lemma_outside_front(front: Seq<u8>, behind: Seq<u8>, i: int)
    requires
        0 <= i <= front.len(),
        forall|k: int| 0 <= k < front.len() ==> #[trigger] front[k] != 40,
    ensures
        outside_strings(front + behind, i) == front.skip(i) + outside_strings(behind, 0),
    decreases front.len() - i,
{
    let content = front + behind;
    if i == front.len() {
        lemma_outside_behind(front, behind, 0);
        assert(front.skip(i) + outside_strings(behind, 0) =~= outside_strings(behind, 0));
    } else {
        assert(content[i] == front[i]);
        lemma_outside_front(front, behind, i + 1);
        assert(seq![front[i]] + (front.skip(i + 1) + outside_strings(behind, 0)) =~= front.skip(i)
            + outside_strings(behind, 0));
    }
}

/// What a literal string says does not count: the operators of a content are the same whichever
/// text stands in its first string. A text is anything in which the parentheses match, as far as no
/// backslash stands in front of them.
pub proof fn strings_do_not_count(front: Seq<u8>, text: Seq<u8>, other: Seq<u8>, behind: Seq<u8>)
    requires
        forall|k: int| 0 <= k < front.len() ==> #[trigger] front[k] != 40,
        string_end(text.push(41), 0, 1, false) == Some(text.len() as int + 1),
        string_end(other.push(41), 0, 1, false) == Some(other.len() as int + 1),
    ensures
        path_operators(front.push(40) + text.push(41) + behind) == path_operators(
            front.push(40) + other.push(41) + behind,
        ),
{
    lemma_one_string(front, text, behind);
    lemma_one_string(front, other, behind);
}

proof fn lemma_one_string(front: Seq<u8>, text: Seq<u8>, behind: Seq<u8>)
    requires
        forall|k: int| 0 <= k < front.len() ==> #[trigger] front[k] != 40,
        string_end(text.push(41), 0, 1, false) == Some(text.len() as int + 1),
    ensures
        outside_strings(front.push(40) + text.push(41) + behind, 0) == front + (seq![40u8]
            + outside_strings(behind, 0)),
{
    let open = seq![40u8];
    let inner = text.push(41);
    let rest = open + inner + behind;
    assert(front.push(40) + inner + behind =~= front + rest);
    lemma_outside_front(front, rest, 0);
    assert(front.skip(0) =~= front);
    lemma_string_end_within(inner, open, behind, 0, 1, false);
    assert(rest =~= (open + inner) + behind);
    lemma_outside_behind(open + inner, behind, 0);
    assert(rest[0] == 40);
}

/// Behind the string that opens just before `start`.
fn close_string(content: &[u8], start: usize) -> (r: Option<usize>)
    requires
        start <= content@.len(),
    ensures
        match r {
            Some(end) => string_end(content@, start as int, 1, false) == Some(end as int),
            None => string_end(content@, start as int, 1, false) is None,
        },
{
    let mut i: usize = start;
    let mut nested: usize = 0;
    let mut escaped: bool = false;
    while i < content.len()
        invariant
            start <= i <= content@.len(),
            nested <= i - start,
            string_end(content@, start as int, 1, false) == string_end(
                content@,
                i as int,
                (nested + 1) as nat,
                escaped,
            ),
        decreases content.len() - i,
    {
        let b: u8 = content[i];
        if escaped {
            escaped = false;
        } else if b == 92 {
            escaped = true;
        } else if b == 40 {
            nested += 1;
        } else if b == 41 {
            if nested == 0 {
                return Some(i + 1);
            }
            nested -= 1;
        }
        i += 1;
    }
    None
}

/// A page's content without what stands in literal strings.
fn drop_strings(content: &[u8]) -> (r: Vec<u8>)
    ensures
        r@ == outside_strings(content@, 0),
{
    let mut out: Vec<u8> = Vec::new();
    let mut i: usize = 0;
    assert(out@ + outside_strings(content@, 0) =~= outside_strings(content@, 0));
    while i < content.len()
        invariant
            i <= content@.len(),
            out@ + outside_strings(content@, i as int) == outside_strings(content@, 0),
        decreases content.len() - i,
    {
        let b: u8 = content[i];
        let ghost before = out@;
        if b == 40 {
            proof {
                lemma_string_end(content@, i + 1, 1, false);
            }
            match close_string(content, i + 1) {
                Some(end) => {
                    out.push(b);
                    assert(out@ + outside_strings(content@, end as int) =~= before + (seq![40u8]
                        + outside_strings(content@, end as int)));
                    i = end;
                },
                None => {
                    push_rest(&mut out, content, i);
                    return out;
                },
            }
        } else {
            out.push(b);
            assert(out@ + outside_strings(content@, i + 1) =~= before + (seq![b]
                + outside_strings(content@, i + 1)));
            i += 1;
        }
    }
    assert(out@ + Seq::<u8>::empty() =~= out@);
    out
}

fn push_rest(out: &mut Vec<u8>, content: &[u8], start: usize)
    requires
        start <= content@.len(),
    ensures
        final(out)@ == old(out)@ + content@.skip(start as int),
{
    let mut i: usize = start;
    let ghost before = out@;
    assert(before + content@.subrange(start as int, start as int) =~= before);
    while i < content.len()
        invariant
            start <= i <= content@.len(),
            out@ == before + content@.subrange(start as int, i as int),
        decreases content.len() - i,
    {
        let ghost earlier = out@;
        out.push(content[i]);
        assert(out@ =~= before + content@.subrange(start as int, i + 1));
        i += 1;
    }
    assert(content@.subrange(start as int, i as int) =~= content@.skip(start as int));
}

fn is_path_operator(token: &[u8]) -> (r: bool)
    ensures
        r == path_operator(token@),
{
    let letters: [u8; 9] = [109, 108, 99, 118, 121, 102, 70, 83, 66];
    let ghost known = seq![109u8, 108, 99, 118, 121, 102, 70, 83, 66];
    assert(letters@ =~= known);
    if token.len() == 2 {
        let r: bool = token[0] == 114 && token[1] == 101;
        assert(r ==> token@ =~= seq![114u8, 101u8]);
        return r;
    }
    if token.len() != 1 {
        return false;
    }
    let mut i: usize = 0;
    while i < 9
        invariant
            i <= 9,
            token@.len() == 1,
            letters@ == known,
            known == seq![109u8, 108, 99, 118, 121, 102, 70, 83, 66],
            forall|j: int| 0 <= j < i ==> known[j] != token@[0],
        decreases 9 - i,
    {
        if letters[i] == token[0] {
            assert(known[i as int] == token@[0]);
            return true;
        }
        i += 1;
    }
    assert(!known.contains(token@[0]));
    false
}

fn token_end(b: u8) -> (r: bool)
    ensures
        r == ends_token(b),
{
    b == 32 || b == 9 || b == 10 || b == 12 || b == 13 || b == 40 || b == 41 || b == 91 || b == 93
        || b == 60 || b == 62 || b == 123 || b == 125
}

/// Counts the path operators of a page's content.
pub fn path_ops(content: &[u8]) -> (n: usize)
    ensures
        n == path_operators(content@),
{
    let outside = drop_strings(content);
    count_operators(outside.as_slice())
}

fn count_operators(content: &[u8]) -> (n: usize)
    ensures
        n == operator_count(pieces(content@, token_ends())),
{
    let mut n: usize = 0;
    let mut start: usize = 0;
    let mut i: usize = 0;
    let ghost done: Seq<Seq<u8>> = Seq::empty();
    assert(content@.subrange(0, 0) =~= Seq::<u8>::empty());
    assert(done.push(content@.subrange(0, 0)) =~= pieces(content@.take(0), token_ends()));
    while i < content.len()
        invariant
            start <= i <= content@.len(),
            pieces(content@.take(i as int), token_ends()) == done.push(
                content@.subrange(start as int, i as int),
            ),
            n == operator_count(done),
            n <= start,
        decreases content.len() - i,
    {
        let ghost piece = content@.subrange(start as int, i as int);
        assert(content@.take(i + 1).drop_last() =~= content@.take(i as int));
        assert(content@.take(i + 1).last() == content@[i as int]);
        assert(done.push(piece).drop_last() =~= done);
        if token_end(content[i]) {
            if is_path_operator(slice_subrange(content, start, i)) {
                n += 1;
            }
            proof {
                done = done.push(piece);
            }
            start = i + 1;
            assert(content@.subrange(start as int, i + 1) =~= Seq::<u8>::empty());
        } else {
            assert(content@.subrange(start as int, i + 1) =~= piece.push(content@[i as int]));
        }
        i += 1;
    }
    assert(content@.take(content@.len() as int) =~= content@);
    let ghost last = content@.subrange(start as int, content@.len() as int);
    assert(done.push(last).drop_last() =~= done);
    if is_path_operator(slice_subrange(content, start, content.len())) {
        assert(last.len() > 0);
        n += 1;
    }
    n
}

// ---------------------------------------------------------------------------------------------
// PDF objects

/// What the scan needs to know of a PDF object.
#[derive(Debug)]
pub enum PdfObject {
    Reference((u32, u16)),
    Dictionary(Vec<(Vec<u8>, PdfObject)>),
    /// A stream, by its dictionary.
    Stream(Vec<(Vec<u8>, PdfObject)>),
    Name(Vec<u8>),
    Integer(i64),
    Other,
}

/// A PDF document: what looking up the number of an object gives.
#[derive(Debug)]
pub struct PdfDocument {
    pub objects: Vec<((u32, u16), PdfObject)>,
}

/// The entries of a dictionary.
pub type Entries = Vec<(Vec<u8>, PdfObject)>;

/// The first entry from `i` on under a key.
pub open spec fn entry_from(entries: Seq<(Vec<u8>, PdfObject)>, key: Seq<u8>, i: int) -> Option<
    PdfObject,
>
    decreases entries.len() - i,
{
    if i >= entries.len() {
        None
    } else if entries[i].0@ == key {
        Some(entries[i].1)
    } else {
        entry_from(entries, key, i + 1)
    }
}

/// The entry under a key.
pub open spec fn entry(entries: Seq<(Vec<u8>, PdfObject)>, key: Seq<u8>) -> Option<PdfObject> {
    entry_from(entries, key, 0)
}

/// The first object from `i` on with a number.
pub open spec fn object_from(
    objects: Seq<((u32, u16), PdfObject)>,
    id: (u32, u16),
    i: int,
) -> Option<PdfObject>
    decreases objects.len() - i,
{
    if i >= objects.len() {
        None
    } else if objects[i].0 == id {
        Some(objects[i].1)
    } else {
        object_from(objects, id, i + 1)
    }
}

impl PdfDocument {
    /// The object with a number.
    pub open spec fn object(&self, id: (u32, u16)) -> Option<PdfObject> {
        object_from(self.objects@, id, 0)
    }

    /// The object itself, or what it refers to.
    pub open spec fn resolved(&self, object: PdfObject) -> Option<PdfObject> {
        match object {
            PdfObject::Reference(id) => self.object(id),
            other => Some(other),
        }
    }

    /// The object with a number.
    pub fn get_object(&self, id: (u32, u16)) -> (r: Option<&PdfObject>)
        ensures
            match r {
                Some(object) => self.object(id) == Some(*object),
                None => self.object(id) is None,
            },
    {
        let mut i: usize = 0;
        while i < self.objects.len()
            invariant
                i <= self.objects@.len(),
                object_from(self.objects@, id, i as int) == self.object(id),
            decreases self.objects.len() - i,
        {
            if self.objects[i].0.0 == id.0 && self.objects[i].0.1 == id.1 {
                return Some(&self.objects[i].1);
            }
            i += 1;
        }
        None
    }
}

/// Whether two byte strings are the same.
fn same_bytes(a: &[u8], b: &[u8]) -> (r: bool)
    ensures
        r == (a@ == b@),
{
    if a.len() != b.len() {
        return false;
    }
    let mut i: usize = 0;
    while i < a.len()
        invariant
            i <= a@.len(),
            a@.len() == b@.len(),
            forall|j: int| 0 <= j < i ==> a@[j] == b@[j],
        decreases a.len() - i,
    {
        if a[i] != b[i] {
            return false;
        }
        i += 1;
    }
    assert(a@ =~= b@);
    true
}

fn get_entry<'a>(entries: &'a Entries, key: &[u8]) -> (r: Option<&'a PdfObject>)
    ensures
        match r {
            Some(object) => entry(entries@, key@) == Some(*object),
            None => entry(entries@, key@) is None,
        },
{
    let mut i: usize = 0;
    while i < entries.len()
        invariant
            i <= entries@.len(),
            entry_from(entries@, key@, i as int) == entry(entries@, key@),
        decreases entries.len() - i,
    {
        if same_bytes(entries[i].0.as_slice(), key) {
            return Some(&entries[i].1);
        }
        i += 1;
    }
    None
}

/// The bytes of a key.
pub open spec fn key(name: Seq<char>) -> Seq<u8> {
    Seq::new(name.len(), |i: int| name[i] as u8)
}

/// The dictionary of a page object.
pub open spec fn page_entries(document: PdfDocument, page: PdfObject) -> Option<
    Seq<(Vec<u8>, PdfObject)>,
> {
    match document.resolved(page) {
        Some(PdfObject::Dictionary(entries)) => Some(entries@),
        _ => None,
    }
}

/// A side of an image: the low 32 bits of the number, where it is one and not below zero.
pub open spec fn side_length(object: Option<PdfObject>) -> int {
    match object {
        Some(PdfObject::Integer(n)) => if n < 0 {
            0
        } else {
            n as int % 0x1_0000_0000
        },
        _ => 0,
    }
}

/// The size of the image that an object is or refers to.
pub open spec fn image_dimensions(document: PdfDocument, object: PdfObject) -> Option<(int, int)> {
    match document.resolved(object) {
        Some(PdfObject::Stream(entries)) => match entry(entries@, key("Subtype"@)) {
            Some(PdfObject::Name(name)) => if name@ == key("Image"@) {
                Some(
                    (
                        side_length(entry(entries@, key("Width"@))),
                        side_length(entry(entries@, key("Height"@))),
                    ),
                )
            } else {
                None
            },
            _ => None,
        },
        _ => None,
    }
}

/// The parent of a node of the page tree.
pub open spec fn parent_entries(
    document: PdfDocument,
    entries: Seq<(Vec<u8>, PdfObject)>,
) -> Option<Seq<(Vec<u8>, PdfObject)>> {
    match entry(entries, key("Parent"@)) {
        Some(PdfObject::Reference(id)) => match document.object(id) {
            Some(PdfObject::Dictionary(parent)) => Some(parent@),
            _ => None,
        },
        _ => None,
    }
}

/// An entry of a page, which it may inherit: most producers put the resources on a shared parent.
/// So many levels are looked at.
pub open spec fn inherited_entry(
    document: PdfDocument,
    entries: Seq<(Vec<u8>, PdfObject)>,
    name: Seq<u8>,
    levels: nat,
) -> Option<PdfObject>
    decreases levels,
{
    if levels == 0 {
        None
    } else {
        match entry(entries, name) {
            Some(object) => document.resolved(object),
            None => match parent_entries(document, entries) {
                Some(parent) => inherited_entry(document, parent, name, (levels - 1) as nat),
                None => None,
            },
        }
    }
}

/// How many of the first `end` entries are large images.
pub open spec fn large_images(
    document: PdfDocument,
    entries: Seq<(Vec<u8>, PdfObject)>,
    end: int,
) -> nat
    decreases end,
{
    if end <= 0 {
        0
    } else {
        large_images(document, entries, end - 1) + (match image_dimensions(
            document,
            entries[end - 1].1,
        ) {
            Some((width, height)) => if substantial(width, height) {
                1nat
            } else {
                0nat
            },
            None => 0nat,
        })
    }
}

/// How many large images a page has.
pub open spec fn page_images(document: PdfDocument, page: PdfObject) -> nat {
    match page_entries(document, page) {
        Some(entries) => match inherited_entry(document, entries, key("Resources"@), 8) {
            Some(PdfObject::Dictionary(resources)) => match entry(
                resources@,
                key("XObject"@),
            ) {
                Some(PdfObject::Dictionary(images)) => large_images(
                    document,
                    images@,
                    images@.len() as int,
                ),
                _ => 0,
            },
            _ => 0,
        },
        None => 0,
    }
}

fn resolve<'a>(document: &'a PdfDocument, object: &'a PdfObject) -> (r: Option<&'a PdfObject>)
    ensures
        match r {
            Some(found) => document.resolved(*object) == Some(*found),
            None => document.resolved(*object) is None,
        },
{
    match object {
        PdfObject::Reference(id) => document.get_object(*id),
        _ => Some(object),
    }
}

fn bytes_of(name: &str) -> (r: Vec<u8>)
    requires
        forall|i: int| 0 <= i < name@.len() ==> (#[trigger] name@[i]) <= '\u{7f}',
    ensures
        r@ == key(name@),
{
    let chars = chars_of(name);
    let mut out: Vec<u8> = Vec::new();
    let mut i: usize = 0;
    while i < chars.len()
        invariant
            i <= chars@.len(),
            chars@ == name@,
            forall|i: int| 0 <= i < name@.len() ==> (#[trigger] name@[i]) <= '\u{7f}',
            out@ == key(name@).take(i as int),
        decreases chars.len() - i,
    {
        assert(name@[i as int] <= '\u{7f}');
        out.push(chars[i] as u8);
        assert(out@ =~= key(name@).take(i + 1));
        i += 1;
    }
    assert(out@ =~= key(name@));
    out
}

fn side_of(object: Option<&PdfObject>) -> (r: u32)
    ensures
        object matches Some(o) ==> r == side_length(Some(*o)),
        object is None ==> r == 0,
{
    match object {
        Some(PdfObject::Integer(n)) => {
            if *n < 0 {
                0
            } else {
                (*n % 0x1_0000_0000) as u32
            }
        },
        _ => 0,
    }
}

fn image_size(document: &PdfDocument, object: &PdfObject) -> (r: Option<(u32, u32)>)
    ensures
        match r {
            Some((width, height)) => image_dimensions(*document, *object) == Some(
                (width as int, height as int),
            ),
            None => image_dimensions(*document, *object) is None,
        },
{
    proof {
        reveal_strlit("Subtype");
        reveal_strlit("Image");
        reveal_strlit("Width");
        reveal_strlit("Height");
    }
    match resolve(document, object) {
        Some(PdfObject::Stream(entries)) => {
            let subtype = bytes_of("Subtype");
            match get_entry(entries, subtype.as_slice()) {
                Some(PdfObject::Name(name)) => {
                    let image = bytes_of("Image");
                    if same_bytes(name.as_slice(), image.as_slice()) {
                        let width = bytes_of("Width");
                        let height = bytes_of("Height");
                        Some(
                            (
                                side_of(get_entry(entries, width.as_slice())),
                                side_of(get_entry(entries, height.as_slice())),
                            ),
                        )
                    } else {
                        None
                    }
                },
                _ => None,
            }
        },
        _ => None,
    }
}

fn parent_of<'a>(document: &'a PdfDocument, entries: &'a Entries) -> (r: Option<&'a Entries>)
    ensures
        match r {
            Some(parent) => parent_entries(*document, entries@) == Some(parent@),
            None => parent_entries(*document, entries@) is None,
        },
{
    proof {
        reveal_strlit("Parent");
    }
    let name = bytes_of("Parent");
    match get_entry(entries, name.as_slice()) {
        Some(PdfObject::Reference(id)) => match document.get_object(*id) {
            Some(PdfObject::Dictionary(parent)) => Some(parent),
            _ => None,
        },
        _ => None,
    }
}

fn inherited<'a>(document: &'a PdfDocument, entries: &'a Entries, name: &[u8], levels: usize) -> (r:
    Option<&'a PdfObject>)
    ensures
        match r {
            Some(object) => inherited_entry(*document, entries@, name@, levels as nat) == Some(
                *object,
            ),
            None => inherited_entry(*document, entries@, name@, levels as nat) is None,
        },
    decreases levels,
{
    if levels == 0 {
        return None;
    }
    match get_entry(entries, name) {
        Some(object) => resolve(document, object),
        None => match parent_of(document, entries) {
            Some(parent) => inherited(document, parent, name, levels - 1),
            None => None,
        },
    }
}

/// How many large images a page has.
pub fn substantial_images(document: &PdfDocument, page: &PdfObject) -> (n: usize)
    ensures
        n == page_images(*document, *page),
{
    proof {
        reveal_strlit("Resources");
        reveal_strlit("XObject");
    }
    let entries: &Entries = match resolve(document, page) {
        Some(PdfObject::Dictionary(entries)) => entries,
        _ => {
            return 0;
        },
    };
    let resources_key = bytes_of("Resources");
    let resources: &Entries = match inherited(document, entries, resources_key.as_slice(), 8) {
        Some(PdfObject::Dictionary(resources)) => resources,
        _ => {
            return 0;
        },
    };
    let images_key = bytes_of("XObject");
    let images: &Entries = match get_entry(resources, images_key.as_slice()) {
        Some(PdfObject::Dictionary(images)) => images,
        _ => {
            return 0;
        },
    };
    let mut n: usize = 0;
    let mut i: usize = 0;
    while i < images.len()
        invariant
            i <= images@.len(),
            n <= i,
            n == large_images(*document, images@, i as int),
        decreases images.len() - i,
    {
        if let Some((width, height)) = image_size(document, &images[i].1) {
            if is_substantial(width, height) {
                n += 1;
            }
        }
        i += 1;
    }
    n
}

// ---------------------------------------------------------------------------------------------
// The scan

/// What the scan of a document is doing: extracting the text of all pages, which reports no
/// position, or reading the pages one by one.
#[derive(Clone, Copy, Debug, PartialEq, Eq, Structural)]
pub struct ScanProgress {
    pub text_phase: bool,
    pub page: usize,
    pub pages: usize,
}

/// How many pages lie between two reports: a document of a thousand pages need not report each.
pub const SCAN_REPORT_EVERY: usize = 16;

/// What is known of a page: whether its object could be read, how many large images it has, how
/// many path operators its content has, and how many characters its text has.
#[derive(Clone, Copy, Debug, PartialEq, Eq, Structural)]
pub struct PageFacts {
    pub readable: bool,
    pub images: usize,
    pub ops: usize,
    pub text_chars: usize,
}

/// Why a page is worth a caption, if it is: a large image, or else a drawing.
pub open spec fn page_reason(facts: PageFacts) -> Option<FigureReason> {
    if !facts.readable {
        None
    } else if facts.images > 0 {
        Some(FigureReason::Raster)
    } else if drawing(facts.ops as int, facts.text_chars as int) {
        Some(FigureReason::Drawing)
    } else {
        None
    }
}

/// The figure pages among the first `end` pages.
pub open spec fn figures_among(facts: Seq<PageFacts>, end: int) -> Seq<FigurePage>
    decreases end,
{
    if end <= 0 {
        Seq::empty()
    } else {
        let front = figures_among(facts, end - 1);
        match page_reason(facts[end - 1]) {
            Some(reason) => front.push(
                FigurePage { page: end as usize, reason, images: facts[end - 1].images },
            ),
            None => front,
        }
    }
}

/// The reports of the first `end` steps of reading `pages` pages: the page about to be read, every
/// so many pages.
pub open spec fn page_reports(pages: usize, end: int) -> Seq<ScanProgress>
    decreases end,
{
    if end <= 0 {
        Seq::empty()
    } else {
        let front = page_reports(pages, end - 1);
        if (end - 1) % (SCAN_REPORT_EVERY as int) == 0 {
            front.push(ScanProgress { text_phase: false, page: end as usize, pages })
        } else {
            front
        }
    }
}

/// All reports of a scan: extraction of the text is announced before it starts, then the pages are
/// read, and the last report is for the last page.
pub open spec fn scan_reports(pages: usize) -> Seq<ScanProgress> {
    let all = seq![ScanProgress { text_phase: true, page: 0, pages }] + page_reports(
        pages,
        pages as int,
    );
    if pages > 0 {
        all.push(ScanProgress { text_phase: false, page: pages, pages })
    } else {
        all
    }
}

/// A scan on its way through the pages of a document.
pub struct FigureWalk {
    pages: usize,
    facts: Ghost<Seq<PageFacts>>,
    found: Vec<FigurePage>,
    done: usize,
}

impl FigureWalk {
    #[verifier::type_invariant]
    spec fn consistent(self) -> bool {
        &&& self.done == self.facts@.len()
        &&& self.done <= self.pages
        &&& self.found@ == figures_among(self.facts@, self.facts@.len() as int)
    }

    /// How many pages the document has.
    pub closed spec fn pages(&self) -> usize {
        self.pages
    }

    /// What was learned of the pages that have been read.
    pub closed spec fn facts(&self) -> Seq<PageFacts> {
        self.facts@
    }

    /// A scan of a document with so many pages that has not begun, and its announcement.
    pub fn new(pages: usize) -> (r: (Self, ScanProgress))
        ensures
            r.0.pages() == pages,
            r.0.facts().len() == 0,
            r.1 == (ScanProgress { text_phase: true, page: 0, pages }),
    {
        let walk = FigureWalk { pages, facts: Ghost(Seq::empty()), found: Vec::new(), done: 0 };
        (walk, ScanProgress { text_phase: true, page: 0, pages })
    }

    /// The report that is due before the next page.
    pub fn report(&self) -> (r: Option<ScanProgress>)
        ensures
            ({
                let n = self.facts().len() as int;
                &&& n <= self.pages()
                &&& r == (if n < self.pages() && n % (SCAN_REPORT_EVERY as int) == 0 {
                    Some(
                        ScanProgress {
                            text_phase: false,
                            page: (n + 1) as usize,
                            pages: self.pages(),
                        },
                    )
                } else {
                    None
                })
            }),
    {
        proof {
            use_type_invariant(self);
        }
        if self.done < self.pages && self.done % SCAN_REPORT_EVERY == 0 {
            Some(ScanProgress { text_phase: false, page: self.done + 1, pages: self.pages })
        } else {
            None
        }
    }

    /// Takes in what was learned of the next page.
    pub fn step(&mut self, facts: PageFacts)
        requires
            old(self).facts().len() < old(self).pages(),
        ensures
            final(self).pages() == old(self).pages(),
            final(self).facts() == old(self).facts().push(facts),
    {
        proof {
            use_type_invariant(&*self);
        }
        let ghost seen = self.facts@;
        let mut prior = FigureWalk {
            pages: 0,
            facts: Ghost(Seq::empty()),
            found: Vec::new(),
            done: 0,
        };
        std::mem::swap(&mut prior, self);
        let pages: usize = prior.pages;
        let done: usize = prior.done;
        let mut found: Vec<FigurePage> = prior.found;
        let ghost grown = seen.push(facts);
        proof {
            lemma_figures_prefix(seen, grown, seen.len() as int);
        }
        let reason: Option<FigureReason> = if !facts.readable {
            None
        } else if facts.images > 0 {
            Some(FigureReason::Raster)
        } else if is_drawing(facts.ops, facts.text_chars) {
            Some(FigureReason::Drawing)
        } else {
            None
        };
        if let Some(reason) = reason {
            found.push(FigurePage { page: done + 1, reason, images: facts.images });
        }
        *self = FigureWalk { pages, facts: Ghost(grown), found, done: done + 1 };
    }

    /// Ends a scan, given how many pages the text extraction found: the last report, and what
    /// indexing the document would cost.
    pub fn finish(self, text_pages: usize) -> (r: (Option<ScanProgress>, FigureScan))
        ensures
            r.0 == (if self.pages() > 0 {
                Some(ScanProgress { text_phase: false, page: self.pages(), pages: self.pages() })
            } else {
                None
            }),
            r.1.pages == (if self.pages() < text_pages {
                text_pages
            } else {
                self.pages()
            }),
            r.1.figure_pages@ == figures_among(self.facts(), self.facts().len() as int),
    {
        proof {
            use_type_invariant(&self);
        }
        let pages: usize = self.pages;
        let last = if pages > 0 {
            Some(ScanProgress { text_phase: false, page: pages, pages })
        } else {
            None
        };
        let scan = FigureScan {
            pages: if pages < text_pages {
                text_pages
            } else {
                pages
            },
            figure_pages: self.found,
        };
        (last, scan)
    }
}

proof fn lemma_figures_prefix(a: Seq<PageFacts>, b: Seq<PageFacts>, end: int)
    requires
        0 <= end <= a.len(),
        a.len() <= b.len(),
        forall|i: int| 0 <= i < a.len() ==> a[i] == b[i],
    ensures
        figures_among(a, end) == figures_among(b, end),
    decreases end,
{
    if end > 0 {
        lemma_figures_prefix(a, b, end - 1);
    }
}

/// A page as the document gives it: its number among the objects, and its content where that could
/// be read.
#[derive(Debug)]
pub struct PageSource {
    pub id: (u32, u16),
    pub content: Option<Vec<u8>>,
}

/// What is known of a page of a document. The operators of a page with a large image are not
/// counted.
pub open spec fn page_facts(document: PdfDocument, source: PageSource, text: Option<Seq<char>>) -> (
    bool,
    nat,
    nat,
    nat,
) {
    let chars = match text {
        Some(t) => t.len(),
        None => 0,
    };
    match document.object(source.id) {
        Some(page) => {
            let images = page_images(document, page);
            let ops = match source.content {
                Some(content) => if images > 0 {
                    0
                } else {
                    path_operators(content@)
                },
                None => 0,
            };
            (true, images, ops, chars)
        },
        None => (false, 0, 0, chars),
    }
}

/// The text of a page, where the extraction found one.
pub open spec fn text_at(texts: Seq<Seq<char>>, i: int) -> Option<Seq<char>> {
    if 0 <= i < texts.len() {
        Some(texts[i])
    } else {
        None
    }
}

/// The facts are those of the pages of the document.
pub open spec fn describe(
    facts: Seq<PageFacts>,
    document: PdfDocument,
    sources: Seq<PageSource>,
    texts: Seq<Seq<char>>,
) -> bool {
    &&& facts.len() <= sources.len()
    &&& forall|i: int|
        0 <= i < facts.len() ==> (
            (#[trigger] facts[i]).readable,
            facts[i].images as nat,
            facts[i].ops as nat,
            facts[i].text_chars as nat,
        ) == page_facts(document, sources[i], text_at(texts, i))
}

/// Learns what there is to know of a page.
pub fn facts_of(document: &PdfDocument, source: &PageSource, text: Option<&String>) -> (r: PageFacts)
    ensures
        (r.readable, r.images as nat, r.ops as nat, r.text_chars as nat) == page_facts(
            *document,
            *source,
            match text {
                Some(t) => Some(t@),
                None => None,
            },
        ),
        r.readable == (document.object(source.id) is Some),
        text matches Some(t) ==> r.text_chars == t@.len(),
        text is None ==> r.text_chars == 0,
        document.object(source.id) matches Some(page) ==> r.images == page_images(*document, page),
        r.readable && r.images == 0 ==> (source.content matches Some(content) ==> r.ops
            == path_operators(content@)),
        !r.readable || r.images > 0 || source.content is None ==> r.ops == 0,
        !r.readable ==> r.images == 0,
{
    let text_chars: usize = match text {
        Some(t) => chars_of(t.as_str()).len(),
        None => 0,
    };
    match document.get_object(source.id) {
        Some(page) => {
            let images = substantial_images(document, page);
            let ops: usize = match &source.content {
                Some(content) => if images > 0 {
                    0
                } else {
                    path_ops(content.as_slice())
                },
                None => 0,
            };
            PageFacts { readable: true, images, ops, text_chars }
        },
        None => PageFacts { readable: false, images: 0, ops: 0, text_chars },
    }
}

/// What indexing a document would cost in captions, with the reports of the scan.
pub fn scan_pdf_with(document: &PdfDocument, sources: &[PageSource], texts: &[String]) -> (r: (
    FigureScan,
    Vec<ScanProgress>,
))
    ensures
        r.0.pages == (if sources@.len() < texts@.len() {
            texts@.len()
        } else {
            sources@.len()
        }),
        exists|facts: Seq<PageFacts>| #[trigger]
            describe(facts, *document, sources@, strings(texts@)) && facts.len() == sources@.len()
                && r.0.figure_pages@ == figures_among(facts, facts.len() as int),
        r.1@ == scan_reports(sources@.len() as usize),
{
    let pages: usize = sources.len();
    let mut reports: Vec<ScanProgress> = Vec::new();
    let (mut walk, first) = FigureWalk::new(pages);
    reports.push(first);
    let ghost opening = seq![ScanProgress { text_phase: true, page: 0, pages }];
    assert(reports@ =~= opening + page_reports(pages, 0));
    let mut i: usize = 0;
    while i < pages
        invariant
            i <= pages,
            pages == sources@.len(),
            walk.pages() == pages,
            walk.facts().len() == i,
            describe(walk.facts(), *document, sources@, strings(texts@)),
            reports@ == opening + page_reports(pages, i as int),
        decreases pages - i,
    {
        let ghost before = reports@;
        if let Some(report) = walk.report() {
            reports.push(report);
        }
        assert(reports@ =~= opening + page_reports(pages, i + 1));
        let text: Option<&String> = if i < texts.len() {
            Some(&texts[i])
        } else {
            None
        };
        let facts = facts_of(document, &sources[i], text);
        let ghost seen = walk.facts();
        walk.step(facts);
        assert forall|j: int| 0 <= j < walk.facts().len() implies (
            (#[trigger] walk.facts()[j]).readable,
            walk.facts()[j].images as nat,
            walk.facts()[j].ops as nat,
            walk.facts()[j].text_chars as nat,
        ) == page_facts(*document, sources@[j], text_at(strings(texts@), j)) by {
            if j < seen.len() {
                assert(walk.facts()[j] == seen[j]);
            }
        }
        i += 1;
    }
    let ghost facts = walk.facts();
    let (last, scan) = walk.finish(texts.len());
    if let Some(report) = last {
        reports.push(report);
    }
    assert(reports@ =~= scan_reports(pages));
    assert(describe(facts, *document, sources@, strings(texts@)));
    (scan, reports)
}

/// What indexing a document would cost in captions.
pub fn scan_pdf(document: &PdfDocument, sources: &[PageSource], texts: &[String]) -> (r: FigureScan)
    ensures
        r.pages == (if sources@.len() < texts@.len() {
            texts@.len()
        } else {
            sources@.len()
        }),
        exists|facts: Seq<PageFacts>| #[trigger]
            describe(facts, *document, sources@, strings(texts@)) && facts.len() == sources@.len()
                && r.figure_pages@ == figures_among(facts, facts.len() as int),
{
    scan_pdf_with(document, sources, texts).0
}

/// There is one description of a document's pages, so that a scan has one outcome.
pub proof fn descriptions_are_unique(
    a: Seq<PageFacts>,
    b: Seq<PageFacts>,
    document: PdfDocument,
    sources: Seq<PageSource>,
    texts: Seq<Seq<char>>,
)
    requires
        describe(a, document, sources, texts),
        describe(b, document, sources, texts),
        a.len() == b.len(),
    ensures
        a == b,
{
    assert forall|i: int| 0 <= i < a.len() implies a[i] == b[i] by {
        let fa = a[i];
        let fb = b[i];
        assert(fa.images as nat == fb.images as nat);
    }
    assert(a =~= b);
}

/// Figure pages are numbered upwards within the document, and each has a reason.
pub proof fn figure_pages_run_upwards(facts: Seq<PageFacts>, end: int)
    requires
        0 <= end <= facts.len() <= usize::MAX,
    ensures
        ({
            let list = figures_among(facts, end);
            &&& list.len() <= end
            &&& forall|i: int|
                0 <= i < list.len() ==> 1 <= (#[trigger] list[i]).page <= end && page_reason(
                    facts[list[i].page - 1],
                ) == Some(list[i].reason)
            &&& forall|i: int, j: int|
                0 <= i < j < list.len() ==> (#[trigger] list[i]).page < (#[trigger] list[j]).page
        }),
    decreases end,
{
    if end > 0 {
        figure_pages_run_upwards(facts, end - 1);
    }
}

proof fn lemma_page_reports(pages: usize, end: int)
    requires
        0 <= end <= pages,
    ensures
        ({
            let list = page_reports(pages, end);
            &&& forall|i: int|
                0 <= i < list.len() ==> !(#[trigger] list[i]).text_phase && list[i].pages == pages
                    && 1 <= list[i].page <= end
            &&& forall|i: int, j: int|
                0 <= i < j < list.len() ==> (#[trigger] list[i]).page < (#[trigger] list[j]).page
            &&& end > 0 ==> list.len() > 0 && list[0].page == 1
        }),
    decreases end,
{
    if end > 0 {
        lemma_page_reports(pages, end - 1);
        if end == 1 {
            assert(page_reports(pages, 0).len() == 0);
        }
    }
}

/// The reports of a scan: text extraction is announced first and says how many pages lie ahead; the
/// number of pages does not change; the page only moves forward, from the first to the last.
pub proof fn reports_move_forward(pages: usize)
    ensures
        ({
            let all = scan_reports(pages);
            &&& all.len() > 0
            &&& all[0].text_phase
            &&& all[0].pages == pages
            &&& forall|i: int|
                0 < i < all.len() ==> !(#[trigger] all[i]).text_phase && all[i].pages == pages
            &&& forall|i: int, j: int|
                0 <= i < j < all.len() ==> (#[trigger] all[i]).page <= (#[trigger] all[j]).page
            &&& pages > 0 ==> all.len() > 1 && all[1].page == 1 && all.last().page == pages
        }),
{
    let all = scan_reports(pages);
    let middle = page_reports(pages, pages as int);
    lemma_page_reports(pages, pages as int);
    assert forall|i: int| 0 < i < all.len() implies !(#[trigger] all[i]).text_phase && all[i].pages
        == pages by {
        if i <= middle.len() {
            assert(all[i] == middle[i - 1]);
        }
    }
    assert forall|i: int, j: int| 0 <= i < j < all.len() implies (#[trigger] all[i]).page <= (
    #[trigger] all[j]).page by {
        if i > 0 {
            assert(all[i] == middle[i - 1]);
        }
        if j <= middle.len() {
            assert(all[j] == middle[j - 1]);
        }
    }
    if pages > 0 {
        assert(all[1] == middle[0]);
    }
}

// ---------------------------------------------------------------------------------------------
// What the scan finds

/// The operators that count are those that build a path (m, l, c, v, y, re) and those that paint it
/// (f, F, S, B).
pub proof fn operators_build_and_paint_paths(token: Seq<u8>)
    ensures
        path_operator(token) <==> token == key("re"@) || (token.len() == 1 && (token[0] == 'm' as u8
            || token[0] == 'l' as u8 || token[0] == 'c' as u8 || token[0] == 'v' as u8 || token[0]
            == 'y' as u8 || token[0] == 'f' as u8 || token[0] == 'F' as u8 || token[0] == 'S' as u8
            || token[0] == 'B' as u8)),
{
    reveal_strlit("re");
    assert(key("re"@) =~= seq![114u8, 101u8]);
    let letters = seq![109u8, 108, 99, 118, 121, 102, 70, 83, 66];
    if token.len() == 1 {
        assert(letters[0] == 109 && letters[1] == 108 && letters[2] == 99 && letters[3] == 118
            && letters[4] == 121 && letters[5] == 102 && letters[6] == 70 && letters[7] == 83
            && letters[8] == 66);
        if letters.contains(token[0]) {
            let k = choose|k: int| 0 <= k < letters.len() && letters[k] == token[0];
            assert(0 <= k < 9);
        }
        assert(letters.contains(letters[0]) && letters.contains(letters[1]) && letters.contains(
            letters[2],
        ) && letters.contains(letters[3]) && letters.contains(letters[4]) && letters.contains(
            letters[5],
        ) && letters.contains(letters[6]) && letters.contains(letters[7]) && letters.contains(
            letters[8],
        ));
    }
}

proof fn lemma_operators_parted(a: Seq<Seq<u8>>, b: Seq<Seq<u8>>)
    ensures
        operator_count(a + b) == operator_count(a) + operator_count(b),
    decreases b.len(),
{
    if b.len() == 0 {
        assert(a + b =~= a);
    } else {
        assert((a + b).drop_last() =~= a + b.drop_last());
        assert((a + b).last() == b.last());
        lemma_operators_parted(a, b.drop_last());
    }
}

/// The operators of a content without strings are counted token by token: a space, a line end or a
/// bracket parts the tokens before it from those behind it, and a token counts once where it is an
/// operator.
pub proof fn operators_are_counted_token_by_token(
    a: Seq<u8>,
    mark: u8,
    b: Seq<u8>,
    token: Seq<u8>,
)
    requires
        forall|i: int| 0 <= i < a.len() ==> (#[trigger] a[i]) != 40,
        forall|i: int| 0 <= i < b.len() ==> (#[trigger] b[i]) != 40,
        mark == ' ' as u8 || mark == '\n' as u8 || mark == '\r' as u8 || mark == '\t' as u8 || mark
            == '[' as u8 || mark == ']' as u8 || mark == '<' as u8 || mark == '>' as u8,
        forall|i: int| 0 <= i < token.len() ==> !ends_token(#[trigger] token[i]),
    ensures
        path_operators(a.push(mark) + b) == path_operators(a) + path_operators(b),
        path_operators(token) == (if path_operator(token) {
            1nat
        } else {
            0nat
        }),
{
    let none = Seq::<u8>::empty();
    let all = a.push(mark) + b;
    assert forall|i: int| 0 <= i < all.len() implies (#[trigger] all[i]) != 40 by {
        if i < a.len() {
            assert(all[i] == a[i]);
        } else if i > a.len() {
            assert(all[i] == b[i - a.len() - 1]);
        }
    }
    lemma_outside_plain(all);
    lemma_outside_plain(a);
    lemma_outside_plain(b);
    assert forall|i: int| 0 <= i < token.len() implies (#[trigger] token[i]) != 40 by {
        assert(!ends_token(token[i]));
    }
    lemma_outside_plain(token);
    let sep = token_ends();
    assert(sep(mark));
    lemma_pieces_parted(a, mark, b, sep);
    lemma_operators_parted(pieces(a, sep), pieces(b, sep));
    assert forall|i: int| 0 <= i < token.len() implies !sep(#[trigger] token[i]) by {
        assert(!ends_token(token[i]));
    }
    lemma_one_piece(token, sep);
    let one = seq![token];
    assert(operator_count(one.drop_last()) == 0);
    assert(one.last() == token);
}

proof fn lemma_outside_plain(content: Seq<u8>)
    requires
        forall|i: int| 0 <= i < content.len() ==> (#[trigger] content[i]) != 40,
    ensures
        outside_strings(content, 0) == content,
{
    let none = Seq::<u8>::empty();
    lemma_outside_front(content, none, 0);
    assert(content + none =~= content);
    assert(content.skip(0) + outside_strings(none, 0) =~= content);
}

/// A page is found exactly where it could be read and has a large image, or else is a drawing; it is
/// found under its number, with its reason and its images.
pub proof fn figure_pages_are_those_with_figures(facts: Seq<PageFacts>, end: int, i: int)
    requires
        0 <= i < end <= facts.len() <= usize::MAX,
    ensures
        ({
            let found = figures_among(facts, end);
            let f = facts[i];
            &&& (exists|k: int| 0 <= k < found.len() && (#[trigger] found[k]).page == i + 1) <==> (
            f.readable && (f.images > 0 || (f.ops >= 60 && f.text_chars <= 400)))
            &&& forall|k: int|
                0 <= k < found.len() && (#[trigger] found[k]).page == i + 1 ==> {
                    &&& found[k].images == f.images
                    &&& (found[k].reason is Raster) == (f.images > 0)
                }
        }),
    decreases end,
{
    let front = figures_among(facts, end - 1);
    let found = figures_among(facts, end);
    lemma_pages_below(facts, end - 1);
    if i < end - 1 {
        figure_pages_are_those_with_figures(facts, end - 1, i);
        assert(forall|k: int| 0 <= k < front.len() ==> (#[trigger] found[k]) == front[k]);
        if exists|k: int| 0 <= k < front.len() && (#[trigger] front[k]).page == i + 1 {
            let k = choose|k: int| 0 <= k < front.len() && (#[trigger] front[k]).page == i + 1;
            assert(found[k].page == i + 1);
        }
        if exists|k: int| 0 <= k < found.len() && (#[trigger] found[k]).page == i + 1 {
            let k = choose|k: int| 0 <= k < found.len() && (#[trigger] found[k]).page == i + 1;
            assert(k < front.len());
            assert(front[k].page == i + 1);
        }
        assert forall|k: int| 0 <= k < found.len() && (#[trigger] found[k]).page == i + 1 implies {
            &&& found[k].images == facts[i].images
            &&& (found[k].reason is Raster) == (facts[i].images > 0)
        } by {
            assert(k < front.len());
            assert(front[k] == found[k]);
        }
    } else {
        if page_reason(facts[i]) is Some {
            assert(found[found.len() - 1].page == i + 1);
        }
        assert(forall|k: int| 0 <= k < front.len() ==> (#[trigger] found[k]) == front[k]);
    }
}

proof fn lemma_pages_below(facts: Seq<PageFacts>, end: int)
    requires
        0 <= end <= facts.len() <= usize::MAX,
    ensures
        forall|k: int|
            0 <= k < figures_among(facts, end).len() ==> 1 <= (#[trigger] figures_among(
                facts,
                end,
            )[k]).page <= end,
    decreases end,
{
    if end > 0 {
        lemma_pages_below(facts, end - 1);
        let front = figures_among(facts, end - 1);
        let found = figures_among(facts, end);
        assert forall|k: int| 0 <= k < found.len() implies 1 <= (#[trigger] found[k]).page
            <= end by {
            if k < front.len() {
                assert(found[k] == front[k]);
            }
        }
    }
}

/// Every sixteenth page is reported from the first one on, and no other before the end.
pub proof fn every_sixteenth_page_is_reported(pages: usize, end: int, k: int)
    requires
        0 <= end <= pages,
        0 <= k < page_reports(pages, end).len(),
    ensures
        page_reports(pages, end).len() == (end + 15) / 16,
        page_reports(pages, end)[k] == (ScanProgress {
            text_phase: false,
            page: (16 * k + 1) as usize,
            pages,
        }),
    decreases end,
{
    lemma_report_count(pages, end);
    lemma_report_count(pages, end - 1);
    let front = page_reports(pages, end - 1);
    if k < front.len() {
        every_sixteenth_page_is_reported(pages, end - 1, k);
    } else {
        assert((end - 1) % 16 == 0);
        assert(k == (end - 1 + 15) / 16);
        assert(16 * k + 1 == end);
    }
}

proof fn lemma_report_count(pages: usize, end: int)
    requires
        end <= pages,
    ensures
        end >= 0 ==> page_reports(pages, end).len() == (end + 15) / 16,
        end < 0 ==> page_reports(pages, end).len() == 0,
    decreases end,
{
    if end > 0 {
        lemma_report_count(pages, end - 1);
    }
}

/// An entry is the first one under its key.
pub proof fn entries_are_found_by_their_key(
    entries: Seq<(Vec<u8>, PdfObject)>,
    name: Seq<u8>,
    i: int,
    k: int,
)
    requires
        0 <= i <= k < entries.len(),
        entries[k].0@ == name,
        forall|j: int| i <= j < k ==> (#[trigger] entries[j]).0@ != name,
    ensures
        entry_from(entries, name, i) == Some(entries[k].1),
    decreases k - i,
{
    if i < k {
        assert(entries[i].0@ != name);
        entries_are_found_by_their_key(entries, name, i + 1, k);
    }
}

/// What no entry has for its key is not found.
pub proof fn missing_entries_are_not_found(
    entries: Seq<(Vec<u8>, PdfObject)>,
    name: Seq<u8>,
    i: int,
)
    requires
        0 <= i,
        forall|j: int| i <= j < entries.len() ==> (#[trigger] entries[j]).0@ != name,
    ensures
        entry_from(entries, name, i) is None,
    decreases entries.len() - i,
{
    if i < entries.len() {
        assert(entries[i].0@ != name);
        missing_entries_are_not_found(entries, name, i + 1);
    }
}

/// An object is the first one under its number.
pub proof fn objects_are_found_by_their_number(document: PdfDocument, i: int, k: int)
    requires
        0 <= i <= k < document.objects@.len(),
        forall|j: int|
            i <= j < k ==> (#[trigger] document.objects@[j]).0 != document.objects@[k].0,
    ensures
        object_from(document.objects@, document.objects@[k].0, i) == Some(document.objects@[k].1),
    decreases k - i,
{
    if i < k {
        assert(document.objects@[i].0 != document.objects@[k].0);
        objects_are_found_by_their_number(document, i + 1, k);
    }
}

/// The large images of a page are counted one by one: each image at least 250 pixels wide and high
/// with 120000 pixels in all counts, and nothing else does.
pub proof fn large_images_are_counted(
    document: PdfDocument,
    images: Seq<(Vec<u8>, PdfObject)>,
    end: int,
)
    requires
        0 <= end < images.len(),
    ensures
        large_images(document, images, 0) == 0,
        image_dimensions(document, images[end].1) matches Some((width, height)) ==> large_images(
            document,
            images,
            end + 1,
        ) - large_images(document, images, end) == (if width >= 250 && height >= 250 && width
            * height >= 120_000 {
            1int
        } else {
            0int
        }),
        image_dimensions(document, images[end].1) is None ==> large_images(document, images, end + 1)
            == large_images(document, images, end),
{
}

/// Resources of a page come before those of its parents, and those of the nearest parent before the
/// others.
pub proof fn own_entries_come_first(
    document: PdfDocument,
    entries: Seq<(Vec<u8>, PdfObject)>,
    name: Seq<u8>,
    levels: nat,
)
    ensures
        entry(entries, name) matches Some(object) ==> inherited_entry(
            document,
            entries,
            name,
            levels + 1,
        ) == document.resolved(object),
        entry(entries, name) is None ==> (parent_entries(document, entries) matches Some(parent)
            ==> inherited_entry(document, entries, name, levels + 1) == inherited_entry(
            document,
            parent,
            name,
            levels,
        )),
{
}

/// A side is the number that stands for it, and zero where there is none or one below zero.
pub proof fn sides_are_as_written(n: i64)
    ensures
        0 <= n < 0x1_0000_0000 ==> side_length(Some(PdfObject::Integer(n))) == n,
        n < 0 ==> side_length(Some(PdfObject::Integer(n))) == 0,
        side_length(None) == 0,
{
}

/// An object is an image where it is a stream whose subtype says so; its size is that of its width
/// and its height.
pub proof fn images_have_width_and_height(
    document: PdfDocument,
    entries: Entries,
    name: Vec<u8>,
    width: i64,
    height: i64,
)
    requires
        entry(entries@, key("Subtype"@)) == Some(PdfObject::Name(name)),
        entry(entries@, key("Width"@)) == Some(PdfObject::Integer(width)),
        entry(entries@, key("Height"@)) == Some(PdfObject::Integer(height)),
        0 <= width < 0x1_0000_0000,
        0 <= height < 0x1_0000_0000,
    ensures
        name@ == key("Image"@) ==> image_dimensions(document, PdfObject::Stream(entries)) == Some(
            (width as int, height as int),
        ),
        name@ != key("Image"@) ==> image_dimensions(document, PdfObject::Stream(entries)) is None,
        image_dimensions(document, PdfObject::Dictionary(entries)) is None,
{
}

/// The images of a page are those among its external objects, in its own resources or in those that
/// it inherits.
pub proof fn images_stand_in_the_resources(
    document: PdfDocument,
    entries: Entries,
    resources: Entries,
    images: Entries,
)
    requires
        inherited_entry(document, entries@, key("Resources"@), 8) == Some(
            PdfObject::Dictionary(resources),
        ),
        entry(resources@, key("XObject"@)) == Some(PdfObject::Dictionary(images)),
    ensures
        page_images(document, PdfObject::Dictionary(entries)) == large_images(
            document,
            images@,
            images@.len() as int,
        ),
{
}

/// A parenthesis that is never closed opens no string: what stands behind it is kept.
pub proof fn open_parentheses_hide_nothing(front: Seq<u8>, rest: Seq<u8>)
    requires
        forall|k: int| 0 <= k < front.len() ==> #[trigger] front[k] != 40,
        string_end(rest, 0, 1, false) is None,
    ensures
        outside_strings(front.push(40) + rest, 0) == front.push(40) + rest,
{
    let open = seq![40u8];
    let behind = open + rest;
    lemma_string_end_behind(open, rest, 0, 1, false);
    assert(behind[0] == 40);
    assert(outside_strings(behind, 0) == behind.skip(0));
    lemma_outside_front(front, behind, 0);
    assert(front + behind =~= front.push(40) + rest);
    assert(front.skip(0) + behind.skip(0) =~= front.push(40) + rest);
}

} // verus!
