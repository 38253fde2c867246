//! Splitting the text of a page into overlapping chunks at sentence boundaries.
//!
//! Sentence boundaries are preferred because a numbered clause often answers a question on its
//! own; a fixed window of words would cut clauses in half and leave passages without a subject.

use vstd::prelude::*;
use vstd::slice::slice_subrange;

use crate::config::{CHUNK_MAX_WORDS, CHUNK_OVERLAP_WORDS, CHUNK_WORDS};
use crate::split::{
    count_words, lemma_blank, lemma_word_occurs, lemma_words_behind_space, lemma_words_concat,
    lemma_words_of_joined, lemma_words_proper, lemma_words_push_space, proper_words, split_at_text,
    split_text, split_words, words, words_of,
};
use crate::text::{
    ascii_lower, ascii_lowered, chars_of, drop_trailing, is_space, joined, lists, occurs_at, one_of,
    push_chars, same_chars, string_of, strings, trim, trim_end_of, whitespace,
};

verus! {

/// A sentence boundary needs this many words, so that periods inside abbreviations and stray page
/// furniture do not cut a clause in half.
pub const MIN_SENTENCE_WORDS: usize = 6;

// ---------------------------------------------------------------------------------------------
// Sentences

/// The abbreviations whose period does not end a sentence.
pub open spec fn abbreviations() -> Seq<Seq<char>> {
    seq![
        "vol"@,
        "vols"@,
        "no"@,
        "nos"@,
        "fig"@,
        "para"@,
        "subpara"@,
        "ed"@,
        "rev"@,
        "approx"@,
        "sec"@,
    ]
}

/// The marks that may stand behind the end of a sentence.
pub open spec fn closing_marks() -> Seq<char> {
    seq![')', '"', '\'']
}

/// The word closes a sentence: behind closing marks it ends in a period, a question mark or an
/// exclamation mark, and it is none of the abbreviations.
pub open spec fn closes_sentence(word: Seq<char>) -> bool {
    let core = drop_trailing(word, one_of(closing_marks()));
    &&& core.len() > 0
    &&& core.last() == '.' || core.last() == '?' || core.last() == '!'
    &&& !abbreviations().contains(ascii_lower(drop_trailing(core, one_of(seq!['.']))))
}

/// The sentences that end before the end of the words, and the words behind the last of them.
pub open spec fn sentence_scan(ws: Seq<Seq<char>>) -> (Seq<Seq<char>>, Seq<Seq<char>>)
    decreases ws.len(),
{
    if ws.len() == 0 {
        (Seq::empty(), Seq::empty())
    } else {
        let (done, open) = sentence_scan(ws.drop_last());
        let grown = open.push(ws.last());
        if grown.len() >= MIN_SENTENCE_WORDS && closes_sentence(ws.last()) {
            (done.push(joined(grown, seq![' ']).push(' ')), Seq::empty())
        } else {
            (done, grown)
        }
    }
}

/// The sentences that the words of a paragraph make up.
pub open spec fn paragraph_sentences(ws: Seq<Seq<char>>) -> Seq<Seq<char>> {
    let (done, open) = sentence_scan(ws);
    if open.len() > 0 {
        done.push(joined(open, seq![' ']))
    } else {
        done
    }
}

/// The windows of at most `CHUNK_MAX_WORDS` words that cover the words from `start` on, each
/// beginning `CHUNK_OVERLAP_WORDS` words before the end of the one before it.
pub open spec fn windows(ws: Seq<Seq<char>>, start: int) -> Seq<Seq<char>>
    decreases ws.len() - start,
{
    if start + CHUNK_MAX_WORDS >= ws.len() {
        seq![joined(ws.subrange(start, ws.len() as int), seq![' '])]
    } else {
        seq![joined(ws.subrange(start, start + CHUNK_MAX_WORDS), seq![' '])] + windows(
            ws,
            start + CHUNK_MAX_WORDS - CHUNK_OVERLAP_WORDS,
        )
    }
}

/// A sentence as it enters chunking: itself where it fits into a chunk, else its windows.
pub open spec fn windowed(sentence: Seq<char>) -> Seq<Seq<char>> {
    if words(sentence).len() <= CHUNK_MAX_WORDS {
        seq![sentence]
    } else {
        windows(words(sentence), 0)
    }
}

/// Each of the sentences as it enters chunking, in order.
pub open spec fn all_windowed(list: Seq<Seq<char>>) -> Seq<Seq<char>>
    decreases list.len(),
{
    if list.len() == 0 {
        Seq::empty()
    } else {
        all_windowed(list.drop_last()) + windowed(list.last())
    }
}

/// The sentences of the given paragraphs, in order.
pub open spec fn paragraphs_sentences(paragraphs: Seq<Seq<char>>) -> Seq<Seq<char>>
    decreases paragraphs.len(),
{
    if paragraphs.len() == 0 {
        Seq::empty()
    } else {
        paragraphs_sentences(paragraphs.drop_last()) + all_windowed(
            paragraph_sentences(words(paragraphs.last())),
        )
    }
}

/// The paragraphs of a text: what its blank lines part.
pub open spec fn paragraphs_of(text: Seq<char>) -> Seq<Seq<char>> {
    split_at_text(text, seq!['\n', '\n'])
}

/// For each of so many sentences of a paragraph, whether it is the last.
pub open spec fn closing(count: nat) -> Seq<bool> {
    Seq::new(count, |i: int| i == count - 1)
}

/// For each sentence of the given paragraphs, whether it is the last of its paragraph.
pub open spec fn paragraphs_breaks(paragraphs: Seq<Seq<char>>) -> Seq<bool>
    decreases paragraphs.len(),
{
    if paragraphs.len() == 0 {
        Seq::empty()
    } else {
        paragraphs_breaks(paragraphs.drop_last()) + closing(
            all_windowed(paragraph_sentences(words(paragraphs.last()))).len(),
        )
    }
}

/// For each sentence of a text, whether a blank line or the end of the text stands behind it.
pub open spec fn text_breaks(text: Seq<char>) -> Seq<bool> {
    paragraphs_breaks(paragraphs_of(text))
}

/// The sentences of a text. Blank lines always end a sentence.
pub open spec fn text_sentences(text: Seq<char>) -> Seq<Seq<char>> {
    paragraphs_sentences(paragraphs_of(text))
}

fn is_abbreviation(stem: &[char]) -> (r: bool)
    ensures
        r == abbreviations().contains(stem@),
{
    let known: [&str; 11] = [
        "vol",
        "vols",
        "no",
        "nos",
        "fig",
        "para",
        "subpara",
        "ed",
        "rev",
        "approx",
        "sec",
    ];
    let ghost all = abbreviations();
    assert(forall|j: int| 0 <= j < 11 ==> #[trigger] known@[j]@ == all[j]);
    let mut i: usize = 0;
    while i < 11
        invariant
            i <= 11,
            all == abbreviations(),
            forall|j: int| 0 <= j < 11 ==> #[trigger] known@[j]@ == all[j],
            forall|j: int| 0 <= j < i ==> all[j] != stem@,
        decreases 11 - i,
    {
        let entry = chars_of(known[i]);
        if same_chars(entry.as_slice(), stem) {
            assert(all[i as int] == stem@);
            return true;
        }
        assert(all[i as int] != stem@) by {
            assert(known@[i as int]@ == all[i as int]);
        }
        i += 1;
    }
    false
}

/// Whether the word ends a sentence.
pub fn ends_sentence(word: &[char]) -> (r: bool)
    ensures
        r == closes_sentence(word@),
{
    let marks: [char; 3] = [')', '"', '\''];
    assert(marks@ =~= closing_marks());
    let core = trim_end_of(word, marks.as_slice());
    if core.len() == 0 {
        return false;
    }
    let last = core[core.len() - 1];
    if last != '.' && last != '?' && last != '!' {
        return false;
    }
    let period: [char; 1] = ['.'];
    assert(period@ =~= seq!['.']);
    let stem = ascii_lowered(trim_end_of(core, period.as_slice()));
    !is_abbreviation(stem.as_slice())
}

/// The words written with single spaces between them.
fn spaced(ws: &[Vec<char>]) -> (r: String)
    ensures
        r@ == joined(lists(ws@), seq![' ']),
{
    let mut out = String::new();
    let mut i: usize = 0;
    let ghost all = lists(ws@);
    while i < ws.len()
        invariant
            i <= ws.len(),
            all == lists(ws@),
            out@ == joined(all.take(i as int), seq![' ']),
        decreases ws.len() - i,
    {
        let ghost before = out@;
        if i > 0 {
            out.push(' ');
        }
        push_chars(&mut out, ws[i].as_slice());
        proof {
            let next = all.take(i + 1);
            assert(next.drop_last() =~= all.take(i as int));
            assert(next.last() == ws@[i as int]@);
            if i == 0 {
                assert(out@ =~= next[0]);
            } else {
                assert(out@ =~= before + seq![' '] + next.last());
            }
        }
        i += 1;
    }
    assert(all.take(ws.len() as int) =~= all);
    out
}

/// Adds a sentence to the list. Text without sentence marks (form fields, tables, diagrams) comes
/// as one unbroken run; such a run is cut into overlapping windows.
fn push_windowed(out: &mut Vec<String>, sentence: String)
    ensures
        strings(final(out)@) == strings(old(out)@) + windowed(sentence@),
{
    let ws = words_of(sentence.as_str());
    let ghost all = lists(ws@);
    assert(all.len() == ws@.len());
    if ws.len() <= CHUNK_MAX_WORDS {
        out.push(sentence);
        assert(strings(out@) =~= strings(old(out)@) + seq![sentence@]);
        return;
    }
    let mut start: usize = 0;
    let ghost before = strings(out@);
    assert(strings(out@) + windows(all, 0) =~= before + windows(all, 0));
    loop
        invariant
            start < ws.len(),
            all == lists(ws@),
            all.len() == ws@.len(),
            before == strings(old(out)@),
            all == words(sentence@),
            all.len() > CHUNK_MAX_WORDS,
            strings(out@) + windows(all, start as int) == before + windows(all, 0),
        decreases ws.len() - start,
    {
        let end: usize = if ws.len() - start <= CHUNK_MAX_WORDS {
            ws.len()
        } else {
            start + CHUNK_MAX_WORDS
        };
        let part = slice_subrange(ws.as_slice(), start, end);
        assert(lists(part@) =~= all.subrange(start as int, end as int));
        let ghost earlier = strings(out@);
        let window = spaced(part);
        out.push(window);
        assert(strings(out@) =~= earlier.push(window@));
        if end >= ws.len() {
            assert(earlier + windows(all, start as int) =~= strings(out@));
            return;
        }
        assert(strings(out@) + windows(all, end - CHUNK_OVERLAP_WORDS) =~= earlier + windows(
            all,
            start as int,
        ));
        start = end - CHUNK_OVERLAP_WORDS;
    }
}

/// Adds the sentences of one paragraph to the list.
fn push_paragraph(out: &mut Vec<String>, paragraph: &[char])
    ensures
        strings(final(out)@) == strings(old(out)@) + all_windowed(
            paragraph_sentences(words(paragraph@)),
        ),
{
    let ws = split_words(paragraph);
    let ghost all = lists(ws@);
    let ghost before = strings(out@);
    let mut current = String::new();
    let mut length: usize = 0;
    let mut i: usize = 0;
    assert(strings(out@) =~= before + all_windowed(Seq::<Seq<char>>::empty()));
    assert(all.take(0) =~= Seq::<Seq<char>>::empty());
    proof {
        lemma_words_proper(paragraph@);
    }
    while i < ws.len()
        invariant
            i <= ws.len(),
            all == lists(ws@),
            all.len() == ws@.len(),
            proper_words(all),
            before == strings(old(out)@),
            length == sentence_scan(all.take(i as int)).1.len(),
            length <= i,
            current@ == joined(sentence_scan(all.take(i as int)).1, seq![' ']),
            strings(out@) == before + all_windowed(sentence_scan(all.take(i as int)).0),
        decreases ws.len() - i,
    {
        let ghost (done, open) = sentence_scan(all.take(i as int));
        let ghost grown = open.push(all[i as int]);
        let ghost text = current@;
        assert(all.take(i + 1).drop_last() =~= all.take(i as int));
        assert(all.take(i + 1).last() == all[i as int]);
        assert(grown.drop_last() =~= open);
        if length > 0 {
            current.push(' ');
        }
        push_chars(&mut current, ws[i].as_slice());
        assert(current@ =~= joined(grown, seq![' '])) by {
            if length > 0 {
                assert(current@ =~= text + seq![' '] + all[i as int]);
            } else {
                assert(text =~= Seq::<char>::empty());
                assert(grown =~= seq![all[i as int]]);
            }
        }
        length += 1;
        if length >= MIN_SENTENCE_WORDS && ends_sentence(ws[i].as_slice()) {
            current.push(' ');
            let ghost sentence = current@;
            push_windowed(out, current);
            assert(done.push(sentence).drop_last() =~= done);
            assert(strings(out@) =~= before + all_windowed(done.push(sentence)));
            current = String::new();
            length = 0;
            assert(current@ =~= joined(Seq::<Seq<char>>::empty(), seq![' ']));
        }
        i += 1;
    }
    assert(all.take(ws.len() as int) =~= all);
    if length > 0 {
        let ghost (done, open) = sentence_scan(all);
        let ghost sentence = current@;
        push_windowed(out, current);
        assert(done.push(sentence).drop_last() =~= done);
        assert(strings(out@) =~= before + all_windowed(done.push(sentence)));
    }
}

/// Notes of so many sentences of a paragraph which is the last.
fn push_closing(breaks: &mut Vec<bool>, count: usize)
    ensures
        final(breaks)@ == old(breaks)@ + closing(count as nat),
{
    let ghost before = breaks@;
    let ghost all = closing(count as nat);
    let mut i: usize = 0;
    assert(before + all.take(0) =~= before);
    while i < count
        invariant
            i <= count,
            all == closing(count as nat),
            breaks@ == before + all.take(i as int),
        decreases count - i,
    {
        breaks.push(i == count - 1);
        assert(breaks@ =~= before + all.take(i + 1));
        i += 1;
    }
    assert(all.take(count as int) =~= all);
}

/// The sentences of a text, each with whether it is the last of its paragraph.
fn marked_sentences(text: &str) -> (r: (Vec<String>, Vec<bool>))
    ensures
        strings(r.0@) == text_sentences(text@),
        r.1@ == text_breaks(text@),
        r.0@.len() == r.1@.len(),
{
    let chars = chars_of(text);
    let blank_line: [char; 2] = ['\n', '\n'];
    assert(blank_line@ =~= seq!['\n', '\n']);
    let paragraphs = split_text(chars.as_slice(), blank_line.as_slice());
    let ghost all = lists(paragraphs@);
    let mut out: Vec<String> = Vec::new();
    let mut breaks: Vec<bool> = Vec::new();
    let mut i: usize = 0;
    assert(strings(out@) =~= paragraphs_sentences(all.take(0)));
    assert(breaks@ =~= paragraphs_breaks(all.take(0)));
    while i < paragraphs.len()
        invariant
            i <= paragraphs.len(),
            all == lists(paragraphs@),
            out@.len() == breaks@.len(),
            strings(out@) == paragraphs_sentences(all.take(i as int)),
            breaks@ == paragraphs_breaks(all.take(i as int)),
        decreases paragraphs.len() - i,
    {
        let earlier: usize = out.len();
        push_paragraph(&mut out, paragraphs[i].as_slice());
        assert(strings(out@).len() == out@.len());
        let added: usize = out.len() - earlier;
        push_closing(&mut breaks, added);
        assert(all.take(i + 1).drop_last() =~= all.take(i as int));
        assert(all.take(i + 1).last() == paragraphs@[i as int]@);
        i += 1;
    }
    assert(all.take(paragraphs.len() as int) =~= all);
    (out, breaks)
}

/// The sentences of a text.
pub fn sentences(text: &str) -> (r: Vec<String>)
    ensures
        strings(r@) == text_sentences(text@),
{
    marked_sentences(text).0
}

/// How many words a sentence has.
pub fn word_count(sentence: &str) -> (n: usize)
    ensures
        n == words(sentence@).len(),
{
    count_words(sentence)
}

// ---------------------------------------------------------------------------------------------
// What holds of sentences

/// Every sentence of the list has a word and fits into a chunk.
pub open spec fn fitting(list: Seq<Seq<char>>) -> bool {
    forall|i: int| 0 <= i < list.len() ==> 0 < words(#[trigger] list[i]).len() <= CHUNK_MAX_WORDS
}

proof fn lemma_windows_fit(ws: Seq<Seq<char>>, start: int)
    requires
        proper_words(ws),
        0 <= start < ws.len(),
    ensures
        fitting(windows(ws, start)),
    decreases ws.len() - start,
{
    let end = if start + CHUNK_MAX_WORDS >= ws.len() {
        ws.len() as int
    } else {
        start + CHUNK_MAX_WORDS
    };
    lemma_words_of_joined(ws.subrange(start, end));
    if end < ws.len() {
        lemma_windows_fit(ws, start + CHUNK_MAX_WORDS - CHUNK_OVERLAP_WORDS);
    }
}

proof fn lemma_windowed_fits(sentence: Seq<char>)
    requires
        words(sentence).len() > 0,
    ensures
        fitting(windowed(sentence)),
        windowed(sentence).len() > 0,
{
    lemma_words_proper(sentence);
    if words(sentence).len() > CHUNK_MAX_WORDS {
        lemma_windows_fit(words(sentence), 0);
    }
}

/// Every sentence of the list has a word.
spec fn worded(list: Seq<Seq<char>>) -> bool {
    forall|i: int| 0 <= i < list.len() ==> words(#[trigger] list[i]).len() > 0
}

proof fn lemma_scan_worded(ws: Seq<Seq<char>>)
    requires
        proper_words(ws),
    ensures
        worded(sentence_scan(ws).0),
        proper_words(sentence_scan(ws).1),
    decreases ws.len(),
{
    if ws.len() > 0 {
        lemma_scan_worded(ws.drop_last());
        let open = sentence_scan(ws.drop_last()).1;
        assert(proper_words(open.push(ws.last()))) by {
            assert(crate::split::proper_word(ws[ws.len() - 1]));
        }
        lemma_words_of_joined(open.push(ws.last()));
    }
}

proof fn lemma_paragraph_worded(ws: Seq<Seq<char>>)
    requires
        proper_words(ws),
    ensures
        worded(paragraph_sentences(ws)),
        paragraph_sentences(ws).len() == 0 <==> ws.len() == 0,
{
    lemma_scan_worded(ws);
    let (done, open) = sentence_scan(ws);
    lemma_words_of_joined(open);
}

proof fn lemma_all_windowed_fit(list: Seq<Seq<char>>)
    requires
        worded(list),
    ensures
        fitting(all_windowed(list)),
        all_windowed(list).len() == 0 <==> list.len() == 0,
    decreases list.len(),
{
    if list.len() > 0 {
        lemma_all_windowed_fit(list.drop_last());
        assert(words(list[list.len() - 1]).len() > 0);
        lemma_windowed_fits(list.last());
        let left = all_windowed(list.drop_last());
        let right = windowed(list.last());
        assert forall|i: int| 0 <= i < (left + right).len() implies 0 < words(
            #[trigger] (left + right)[i],
        ).len() <= CHUNK_MAX_WORDS by {
            if i < left.len() {
                assert((left + right)[i] == left[i]);
            } else {
                assert((left + right)[i] == right[i - left.len()]);
            }
        }
    }
}

proof fn lemma_paragraphs_fit(paragraphs: Seq<Seq<char>>)
    ensures
        fitting(paragraphs_sentences(paragraphs)),
        paragraphs_sentences(paragraphs).len() == 0 <==> (forall|i: int|
            0 <= i < paragraphs.len() ==> words(#[trigger] paragraphs[i]).len() == 0),
    decreases paragraphs.len(),
{
    if paragraphs.len() > 0 {
        let front = paragraphs.drop_last();
        lemma_paragraphs_fit(front);
        let ws = words(paragraphs.last());
        lemma_words_proper(paragraphs.last());
        lemma_paragraph_worded(ws);
        lemma_all_windowed_fit(paragraph_sentences(ws));
        let left = paragraphs_sentences(front);
        let right = all_windowed(paragraph_sentences(ws));
        assert forall|i: int| 0 <= i < (left + right).len() implies 0 < words(
            #[trigger] (left + right)[i],
        ).len() <= CHUNK_MAX_WORDS by {
            if i < left.len() {
                assert((left + right)[i] == left[i]);
            } else {
                assert((left + right)[i] == right[i - left.len()]);
            }
        }
        assert forall|i: int| 0 <= i < front.len() implies front[i] == #[trigger] paragraphs[i] by {}
        if forall|i: int| 0 <= i < front.len() ==> words(#[trigger] front[i]).len() == 0 {
            if ws.len() == 0 {
                assert forall|i: int| 0 <= i < paragraphs.len() implies words(
                    #[trigger] paragraphs[i],
                ).len() == 0 by {
                    if i < front.len() {
                        assert(words(front[i]).len() == 0);
                    }
                }
            }
        }
        if forall|i: int| 0 <= i < paragraphs.len() ==> words(#[trigger] paragraphs[i]).len() == 0 {
            assert(words(paragraphs[paragraphs.len() - 1]).len() == 0);
            assert forall|i: int| 0 <= i < front.len() implies words(#[trigger] front[i]).len()
                == 0 by {
                assert(words(paragraphs[i]).len() == 0);
            }
        }
    }
}

/// Every sentence of a text has at least one word, and fits into a chunk.
pub proof fn sentences_fit(text: Seq<char>)
    ensures
        fitting(text_sentences(text)),
{
    lemma_paragraphs_fit(paragraphs_of(text));
}

// ---------------------------------------------------------------------------------------------
// Chunks

/// How many words each sentence has.
pub open spec fn counts(list: Seq<Seq<char>>) -> Seq<nat> {
    Seq::new(list.len(), |i: int| words(list[i]).len())
}

/// How many words the sentences from `start` to before `end` have.
pub open spec fn words_between(lens: Seq<nat>, start: int, end: int) -> nat
    decreases end - start,
{
    if end <= start {
        0
    } else {
        words_between(lens, start, end - 1) + lens[end - 1]
    }
}

/// A chunk that holds the sentences from `start` to before `end` takes no more: there are none, it
/// has reached its size, or the next would pass the limit.
pub open spec fn chunk_full(lens: Seq<nat>, start: int, end: int) -> bool {
    ||| end >= lens.len()
    ||| words_between(lens, start, end) >= CHUNK_WORDS
    ||| words_between(lens, start, end) + lens[end] > CHUNK_MAX_WORDS
}

/// The first end, from `end` on, at which a chunk that begins at `start` is full.
pub open spec fn chunk_end(lens: Seq<nat>, start: int, end: int) -> int
    decreases lens.len() - end,
{
    if chunk_full(lens, start, end) {
        end
    } else {
        chunk_end(lens, start, end + 1)
    }
}

/// Where the chunk behind one from `start` to before `end` begins: the last position, from `at`
/// back, from which the words up to `end` make an overlap, or behind a sentence too long to
/// repeat; but always behind `start`.
pub open spec fn overlap_start(lens: Seq<nat>, start: int, at: int, end: int) -> int
    decreases at - start,
{
    if at <= start + 1 || words_between(lens, at, end) >= CHUNK_OVERLAP_WORDS || lens[at - 1]
        > CHUNK_WORDS {
        at
    } else {
        overlap_start(lens, start, at - 1, end)
    }
}

pub proof fn lemma_overlap_start(lens: Seq<nat>, start: int, at: int, end: int)
    requires
        start < at <= end,
    ensures
        start < overlap_start(lens, start, at, end) <= at,
    decreases at - start,
{
    if !(at <= start + 1 || words_between(lens, at, end) >= CHUNK_OVERLAP_WORDS || lens[at - 1]
        > CHUNK_WORDS) {
        lemma_overlap_start(lens, start, at - 1, end);
    }
}

pub proof fn lemma_chunk_end(lens: Seq<nat>, start: int, end: int)
    requires
        start < end <= lens.len(),
    ensures
        end <= chunk_end(lens, start, end) <= lens.len(),
        chunk_full(lens, start, chunk_end(lens, start, end)),
        forall|e: int|
            end <= e < chunk_end(lens, start, end) ==> !#[trigger] chunk_full(lens, start, e),
    decreases lens.len() - end,
{
    if !chunk_full(lens, start, end) {
        lemma_chunk_end(lens, start, end + 1);
    }
}

/// The ranges of sentences that the chunks from `start` on hold.
pub open spec fn chunk_ranges(lens: Seq<nat>, start: int) -> Seq<(int, int)>
    decreases lens.len() - start,
{
    if start >= lens.len() {
        Seq::empty()
    } else {
        proof {
            lemma_chunk_end(lens, start, start + 1);
            let end = chunk_end(lens, start, start + 1);
            lemma_overlap_start(lens, start, end, end);
        }
        let end = chunk_end(lens, start, start + 1);
        if end >= lens.len() {
            seq![(start, end)]
        } else {
            seq![(start, end)] + chunk_ranges(lens, overlap_start(lens, start, end, end))
        }
    }
}

/// The text, with a space behind it where it does not end in white space.
pub open spec fn parted(text: Seq<char>) -> Seq<char> {
    if text.len() > 0 && !is_space(text.last()) {
        text.push(' ')
    } else {
        text
    }
}

/// The sentences written one after the other. Behind the last sentence of a paragraph a space parts
/// it from the next, where it does not end in white space itself.
pub open spec fn flowed(list: Seq<Seq<char>>, breaks: Seq<bool>) -> Seq<char>
    decreases list.len(),
{
    if list.len() == 0 {
        Seq::empty()
    } else {
        let front = flowed(list.drop_last(), breaks);
        if list.len() > 1 && breaks[list.len() - 2] {
            parted(front) + list.last()
        } else {
            front + list.last()
        }
    }
}

/// The sentence stands in one of the ranges.
pub open spec fn is_covered(ranges: Seq<(int, int)>, s: int) -> bool {
    exists|i: int| 0 <= i < ranges.len() && (#[trigger] ranges[i]).0 <= s < ranges[i].1
}

/// The sentences of each range written one after the other.
pub open spec fn chunks_at(
    list: Seq<Seq<char>>,
    breaks: Seq<bool>,
    ranges: Seq<(int, int)>,
) -> Seq<Seq<char>> {
    Seq::new(
        ranges.len(),
        |i: int|
            flowed(
                list.subrange(ranges[i].0, ranges[i].1),
                breaks.subrange(ranges[i].0, ranges[i].1),
            ),
    )
}

/// The chunks of a text.
pub open spec fn text_chunks(text: Seq<char>) -> Seq<Seq<char>> {
    let list = text_sentences(text);
    chunks_at(list, text_breaks(text), chunk_ranges(counts(list), 0))
}

proof fn lemma_words_between_step(lens: Seq<nat>, start: int, end: int)
    requires
        start < end,
    ensures
        words_between(lens, start, end) == lens[start] + words_between(lens, start + 1, end),
    decreases end - start,
{
    if end > start + 1 {
        lemma_words_between_step(lens, start, end - 1);
    } else {
        assert(words_between(lens, start, start) == 0);
    }
}

/// Writes sentences one after the other, with the words of two paragraphs kept apart.
fn flow(list: &[String], breaks: &[bool]) -> (r: String)
    requires
        list@.len() == breaks@.len(),
    ensures
        r@ == flowed(strings(list@), breaks@),
{
    let mut out: Vec<char> = Vec::new();
    let mut i: usize = 0;
    let ghost all = strings(list@);
    assert(all.take(0) =~= Seq::<Seq<char>>::empty());
    while i < list.len()
        invariant
            i <= list.len(),
            list@.len() == breaks@.len(),
            all == strings(list@),
            out@ == flowed(all.take(i as int), breaks@),
        decreases list.len() - i,
    {
        let ghost before = out@;
        if i > 0 && breaks[i - 1] && out.len() > 0 && !whitespace(out[out.len() - 1]) {
            out.push(' ');
        }
        assert(out@ == (if i > 0 && breaks@[i - 1] {
            parted(before)
        } else {
            before
        }));
        let mut sentence = chars_of(list[i].as_str());
        out.append(&mut sentence);
        assert(all.take(i + 1).drop_last() =~= all.take(i as int));
        assert(all.take(i + 1).last() == list@[i as int]@);
        i += 1;
    }
    assert(all.take(list.len() as int) =~= all);
    string_of(out.as_slice())
}

fn count_all(list: &[String]) -> (r: Vec<usize>)
    ensures
        r@.len() == list@.len(),
        forall|i: int| 0 <= i < r@.len() ==> #[trigger] r@[i] == counts(strings(list@))[i],
{
    let mut out: Vec<usize> = Vec::new();
    let mut i: usize = 0;
    while i < list.len()
        invariant
            i <= list.len(),
            out@.len() == i,
            forall|j: int| 0 <= j < i ==> #[trigger] out@[j] == counts(strings(list@))[j],
        decreases list.len() - i,
    {
        out.push(word_count(list[i].as_str()));
        i += 1;
    }
    out
}

/// Where the chunk that begins at `start` ends.
fn full_at(lens: &[usize], start: usize, Ghost(all): Ghost<Seq<nat>>) -> (end: usize)
    requires
        start < lens@.len(),
        all.len() == lens@.len(),
        forall|i: int| 0 <= i < all.len() ==> #[trigger] lens@[i] == all[i],
        forall|i: int| 0 <= i < all.len() ==> #[trigger] all[i] <= CHUNK_MAX_WORDS,
    ensures
        end == chunk_end(all, start as int, start + 1),
        start < end <= lens@.len(),
{
    let count: usize = lens.len();
    let mut end: usize = start + 1;
    let mut total: usize = lens[start];
    assert(all[start as int] <= CHUNK_MAX_WORDS);
    assert(words_between(all, start as int, start as int) == 0);
    while end < count && total < CHUNK_WORDS && lens[end] <= CHUNK_MAX_WORDS - total
        invariant
            start < end <= lens@.len(),
            count == lens@.len(),
            all.len() == lens@.len(),
            forall|i: int| 0 <= i < all.len() ==> #[trigger] lens@[i] == all[i],
            forall|i: int| 0 <= i < all.len() ==> #[trigger] all[i] <= CHUNK_MAX_WORDS,
            total == words_between(all, start as int, end as int),
            total <= CHUNK_MAX_WORDS,
            chunk_end(all, start as int, end as int) == chunk_end(all, start as int, start + 1),
        decreases count - end,
    {
        assert(lens@[end as int] == all[end as int]);
        total += lens[end];
        end += 1;
    }
    proof {
        if end < lens@.len() {
            assert(lens@[end as int] == all[end as int]);
        }
    }
    end
}

/// Walks back from `end` to the sentence at which an overlap begins. The result always lies behind
/// `start`, so that chunking makes progress even where a chunk is one long sentence.
fn backtrack(lens: &[usize], start: usize, end: usize, Ghost(all): Ghost<Seq<nat>>) -> (r: usize)
    requires
        start < end <= lens@.len(),
        all.len() == lens@.len(),
        forall|i: int| 0 <= i < all.len() ==> #[trigger] lens@[i] == all[i],
    ensures
        r == overlap_start(all, start as int, end as int, end as int),
        start < r <= end,
{
    let mut at: usize = end;
    let mut total: usize = 0;
    while at > start + 1 && total < CHUNK_OVERLAP_WORDS && lens[at - 1] <= CHUNK_WORDS
        invariant
            start < at <= end <= lens@.len(),
            all.len() == lens@.len(),
            forall|i: int| 0 <= i < all.len() ==> #[trigger] lens@[i] == all[i],
            total == words_between(all, at as int, end as int),
            total < CHUNK_OVERLAP_WORDS + CHUNK_WORDS,
            overlap_start(all, start as int, at as int, end as int) == overlap_start(
                all,
                start as int,
                end as int,
                end as int,
            ),
        decreases at,
    {
        assert(lens@[at - 1] == all[at - 1]);
        proof {
            lemma_words_between_step(all, at - 1, end as int);
        }
        total += lens[at - 1];
        at -= 1;
    }
    assert(lens@[at - 1] == all[at - 1]);
    at
}

/// Splits a text into overlapping chunks at sentence boundaries.
pub fn chunk_text(text: &str) -> (r: Vec<String>)
    ensures
        strings(r@) == text_chunks(text@),
{
    let (list, breaks) = marked_sentences(text);
    let lens = count_all(list.as_slice());
    let ghost texts = strings(list@);
    let ghost all = counts(texts);
    proof {
        sentences_fit(text@);
        assert forall|i: int| 0 <= i < all.len() implies #[trigger] all[i] <= CHUNK_MAX_WORDS by {
            assert(words(texts[i]).len() <= CHUNK_MAX_WORDS);
        }
    }
    let mut out: Vec<String> = Vec::new();
    let mut start: usize = 0;
    let ghost ranges = chunk_ranges(all, 0);
    assert(ranges.skip(0) =~= ranges);
    while start < list.len()
        invariant
            start <= list.len(),
            texts == strings(list@),
            texts == text_sentences(text@),
            breaks@ == text_breaks(text@),
            breaks@.len() == list@.len(),
            all == counts(texts),
            lens@.len() == list@.len(),
            forall|i: int| 0 <= i < all.len() ==> #[trigger] lens@[i] == all[i],
            forall|i: int| 0 <= i < all.len() ==> #[trigger] all[i] <= CHUNK_MAX_WORDS,
            ranges == chunk_ranges(all, 0),
            out@.len() <= ranges.len(),
            ranges.skip(out@.len() as int) == chunk_ranges(all, start as int),
            strings(out@) == chunks_at(texts, breaks@, ranges).take(out@.len() as int),
        decreases list.len() - start,
    {
        let end = full_at(lens.as_slice(), start, Ghost(all));
        let part = slice_subrange(list.as_slice(), start, end);
        assert(strings(part@) =~= texts.subrange(start as int, end as int));
        let marks = slice_subrange(breaks.as_slice(), start, end);
        let chunk = flow(part, marks);
        let ghost k = out@.len() as int;
        proof {
            assert(chunk_ranges(all, start as int).len() > 0);
            assert(ranges.skip(k).len() == ranges.len() - k);
            assert(ranges.skip(k)[0] == ranges[k]);
            assert(ranges[k] == (start as int, end as int));
        }
        out.push(chunk);
        assert(strings(out@) =~= chunks_at(texts, breaks@, ranges).take(k + 1));
        if end >= list.len() {
            assert(ranges.skip(k).len() == 1);
            assert(strings(out@) =~= chunks_at(texts, breaks@, ranges));
            return out;
        }
        let next = backtrack(lens.as_slice(), start, end, Ghost(all));
        assert(ranges.skip(k + 1) =~= ranges.skip(k).skip(1));
        assert(ranges.skip(k).skip(1) =~= chunk_ranges(all, next as int));
        start = next;
    }
    assert(strings(out@) =~= chunks_at(texts, breaks@, ranges));
    out
}

// ---------------------------------------------------------------------------------------------
// Laws

proof fn lemma_ranges(lens: Seq<nat>, start: int)
    requires
        0 <= start < lens.len(),
    ensures
        ({
            let ranges = chunk_ranges(lens, start);
            &&& ranges.len() > 0
            &&& ranges[0].0 == start
            &&& ranges.last().1 == lens.len()
            &&& forall|i: int|
                0 <= i < ranges.len() ==> start <= (#[trigger] ranges[i]).0 < ranges[i].1
                    <= lens.len() && ranges[i].1 == chunk_end(lens, ranges[i].0, ranges[i].0 + 1)
            &&& forall|i: int, j: int|
                0 <= i && j == i + 1 && j < ranges.len() ==> (#[trigger] ranges[j]).0
                    == overlap_start(lens, (#[trigger] ranges[i]).0, ranges[i].1, ranges[i].1)
                    && ranges[i].1 < lens.len()
        }),
    decreases lens.len() - start,
{
    lemma_chunk_end(lens, start, start + 1);
    let end = chunk_end(lens, start, start + 1);
    lemma_overlap_start(lens, start, end, end);
    if end < lens.len() {
        let next = overlap_start(lens, start, end, end);
        lemma_ranges(lens, next);
        let rest = chunk_ranges(lens, next);
        let ranges = chunk_ranges(lens, start);
        assert(ranges =~= seq![(start, end)] + rest);
        assert forall|i: int| 0 <= i < ranges.len() implies start <= (#[trigger] ranges[i]).0
            < ranges[i].1 <= lens.len() && ranges[i].1 == chunk_end(
            lens,
            ranges[i].0,
            ranges[i].0 + 1,
        ) by {
            if i > 0 {
                assert(ranges[i] == rest[i - 1]);
            }
        }
        assert forall|i: int, j: int| 0 <= i && j == i + 1 && j < ranges.len() implies (
        #[trigger] ranges[j]).0 == overlap_start(
            lens,
            (#[trigger] ranges[i]).0,
            ranges[i].1,
            ranges[i].1,
        ) && ranges[i].1 < lens.len() by {
            assert(ranges[j] == rest[j - 1]);
            if i > 0 {
                assert(ranges[i] == rest[i - 1]);
            }
        }
        assert(ranges.last() == rest.last());
    }
}

/// Chunks leave no sentence out and run forward: the first begins with the first sentence, each
/// next one begins behind the beginning of the one before it and not behind its end, ends never go
/// back, the last one ends with the last sentence, and every sentence stands in one of them.
pub proof fn chunks_cover(lens: Seq<nat>)
    requires
        lens.len() > 0,
    ensures
        ({
            let ranges = chunk_ranges(lens, 0);
            &&& ranges.len() > 0
            &&& ranges[0].0 == 0
            &&& ranges.last().1 == lens.len()
            &&& forall|i: int, j: int|
                0 <= i && j == i + 1 && j < ranges.len() ==> (#[trigger] ranges[i]).0 < (
                #[trigger] ranges[j]).0 <= ranges[i].1 <= ranges[j].1
            &&& forall|s: int| 0 <= s < lens.len() ==> #[trigger] is_covered(ranges, s)
        }),
{
    lemma_ranges(lens, 0);
    let ranges = chunk_ranges(lens, 0);
    assert forall|i: int, j: int| 0 <= i && j == i + 1 && j < ranges.len() implies (
    #[trigger] ranges[i]).0 < (#[trigger] ranges[j]).0 <= ranges[i].1 <= ranges[j].1 by {
        lemma_overlap_start(lens, ranges[i].0, ranges[i].1, ranges[i].1);
        lemma_ends_grow(lens, ranges[i].0, ranges[j].0);
    }
    assert forall|s: int| 0 <= s < lens.len() implies #[trigger] is_covered(ranges, s) by {
        lemma_sentence_covered(lens, 0, s);
    }
}

proof fn lemma_words_between_shrinks(lens: Seq<nat>, start: int, later: int, end: int)
    requires
        start <= later,
    ensures
        words_between(lens, later, end) <= words_between(lens, start, end),
    decreases end - start,
{
    if end > later {
        lemma_words_between_shrinks(lens, start, later, end - 1);
    }
}

/// A chunk that begins later, within the chunk before it or right behind it, does not end earlier.
proof fn lemma_ends_grow(lens: Seq<nat>, start: int, later: int)
    requires
        0 <= start < later < lens.len(),
        later <= chunk_end(lens, start, start + 1),
    ensures
        chunk_end(lens, start, start + 1) <= chunk_end(lens, later, later + 1),
{
    let end = chunk_end(lens, start, start + 1);
    lemma_chunk_end(lens, start, start + 1);
    lemma_chunk_end(lens, later, later + 1);
    let other = chunk_end(lens, later, later + 1);
    if other < end {
        assert(!chunk_full(lens, start, other));
        lemma_words_between_shrinks(lens, start, later, other);
        assert(!chunk_full(lens, later, other));
    }
}

proof fn lemma_sentence_covered(lens: Seq<nat>, start: int, s: int)
    requires
        0 <= start <= s < lens.len(),
    ensures
        is_covered(chunk_ranges(lens, start), s),
    decreases lens.len() - start,
{
    let ranges = chunk_ranges(lens, start);
    lemma_chunk_end(lens, start, start + 1);
    let end = chunk_end(lens, start, start + 1);
    assert(ranges[0] == (start, end));
    if s >= end {
        lemma_overlap_start(lens, start, end, end);
        let next = overlap_start(lens, start, end, end);
        lemma_sentence_covered(lens, next, s);
        let rest = chunk_ranges(lens, next);
        let i = choose|i: int|
            0 <= i < rest.len() && (#[trigger] rest[i]).0 <= s < rest[i].1;
        assert(ranges[i + 1] == rest[i]);
    }
}

/// Neighbouring chunks share their boundary: where a chunk holds two sentences or more, and its
/// last one is not too long to repeat, the next chunk begins before its end.
pub proof fn chunks_overlap(lens: Seq<nat>, i: int)
    requires
        0 <= i,
        i + 1 < chunk_ranges(lens, 0).len(),
        chunk_ranges(lens, 0)[i].1 - chunk_ranges(lens, 0)[i].0 >= 2,
        lens[chunk_ranges(lens, 0)[i].1 - 1] <= CHUNK_WORDS,
    ensures
        chunk_ranges(lens, 0)[i + 1].0 < chunk_ranges(lens, 0)[i].1,
{
    let ranges = chunk_ranges(lens, 0);
    lemma_ranges(lens, 0);
    let (start, end) = ranges[i];
    let j = i + 1;
    assert(ranges[j].0 == overlap_start(lens, start, end, end));
    assert(words_between(lens, end, end) == 0);
    lemma_overlap_start(lens, start, end - 1, end);
}

proof fn lemma_overlap_words(lens: Seq<nat>, start: int, at: int, end: int)
    requires
        start < at <= end,
        at < end ==> words_between(lens, at + 1, end) < CHUNK_OVERLAP_WORDS,
    ensures
        ({
            let c = overlap_start(lens, start, at, end);
            &&& c < end ==> words_between(lens, c + 1, end) < CHUNK_OVERLAP_WORDS
            &&& words_between(lens, c, end) >= CHUNK_OVERLAP_WORDS || c == start + 1 || lens[c - 1]
                > CHUNK_WORDS
        }),
    decreases at - start,
{
    if !(at <= start + 1 || words_between(lens, at, end) >= CHUNK_OVERLAP_WORDS || lens[at - 1]
        > CHUNK_WORDS) {
        lemma_overlap_words(lens, start, at - 1, end);
    }
}

/// The overlap of neighbouring chunks has its size: it is as short as it can be with
/// `CHUNK_OVERLAP_WORDS` words, so that without its first sentence it would have fewer; and it has
/// that many words, unless it would reach back to the beginning of the chunk or a sentence too long
/// to repeat stands in front of it.
pub proof fn overlaps_have_their_size(lens: Seq<nat>, i: int)
    requires
        0 <= i,
        i + 1 < chunk_ranges(lens, 0).len(),
    ensures
        ({
            let (a, b) = chunk_ranges(lens, 0)[i];
            let (c, d) = chunk_ranges(lens, 0)[i + 1];
            &&& a < c <= b
            &&& c < b ==> words_between(lens, c + 1, b) < CHUNK_OVERLAP_WORDS
            &&& words_between(lens, c, b) >= CHUNK_OVERLAP_WORDS || c == a + 1 || lens[c - 1]
                > CHUNK_WORDS
        }),
{
    lemma_ranges(lens, 0);
    let ranges = chunk_ranges(lens, 0);
    let j = i + 1;
    assert(ranges[j].0 == overlap_start(lens, ranges[i].0, ranges[i].1, ranges[i].1));
    lemma_overlap_start(lens, ranges[i].0, ranges[i].1, ranges[i].1);
    lemma_overlap_words(lens, ranges[i].0, ranges[i].1, ranges[i].1);
}

/// A chunk takes no sentence once it has its size: without its last sentence it would be too short.
pub proof fn chunks_stop_at_their_size(lens: Seq<nat>, i: int)
    requires
        0 <= i < chunk_ranges(lens, 0).len(),
        chunk_ranges(lens, 0)[i].1 - chunk_ranges(lens, 0)[i].0 >= 2,
    ensures
        ({
            let (start, end) = chunk_ranges(lens, 0)[i];
            &&& words_between(lens, start, end - 1) < CHUNK_WORDS
            &&& words_between(lens, start, end) <= CHUNK_MAX_WORDS
        }),
{
    if lens.len() > 0 {
        lemma_ranges(lens, 0);
        let (start, end) = chunk_ranges(lens, 0)[i];
        lemma_chunk_end(lens, start, start + 1);
        assert(!chunk_full(lens, start, end - 1));
    }
}

/// Word counts add up: over one sentence to its own, and over neighbouring stretches to that of
/// both.
pub proof fn word_counts_add_up(lens: Seq<nat>, a: int, b: int, c: int)
    requires
        a <= b <= c,
    ensures
        words_between(lens, a, b) + words_between(lens, b, c) == words_between(lens, a, c),
        words_between(lens, a, a) == 0,
        words_between(lens, a, a + 1) == lens[a],
    decreases c - b,
{
    assert(words_between(lens, a, a) == 0);
    if b < c {
        word_counts_add_up(lens, a, b, c - 1);
    }
}

/// Every chunk but the last reaches its size, or the sentence behind it would take it past the
/// limit.
pub proof fn chunks_reach_their_size(lens: Seq<nat>, i: int)
    requires
        0 <= i,
        i + 1 < chunk_ranges(lens, 0).len(),
    ensures
        ({
            let (start, end) = chunk_ranges(lens, 0)[i];
            words_between(lens, start, end) >= CHUNK_WORDS || words_between(lens, start, end)
                + lens[end] > CHUNK_MAX_WORDS
        }),
{
    lemma_ranges(lens, 0);
    let ranges = chunk_ranges(lens, 0);
    let j = i + 1;
    assert(ranges[j].0 == overlap_start(lens, ranges[i].0, ranges[i].1, ranges[i].1));
    lemma_chunk_end(lens, ranges[i].0, ranges[i].0 + 1);
}

/// The words of the texts, one after the other.
pub open spec fn all_words(list: Seq<Seq<char>>) -> Seq<Seq<char>>
    decreases list.len(),
{
    if list.len() == 0 {
        Seq::empty()
    } else {
        all_words(list.drop_last()) + words(list.last())
    }
}

proof fn lemma_parted_words(a: Seq<char>, b: Seq<char>)
    ensures
        words(parted(a) + b) == words(a) + words(b),
{
    if a.len() == 0 {
        assert(parted(a) + b =~= b);
        assert(words(a) + words(b) =~= words(b));
    } else if is_space(a.last()) {
        lemma_words_behind_space(a, b);
    } else {
        lemma_words_push_space(a, ' ');
        lemma_words_behind_space(a.push(' '), b);
    }
}

/// The text ends in white space.
pub open spec fn ends_in_space(text: Seq<char>) -> bool {
    text.len() > 0 && is_space(text.last())
}

/// White space stands behind each of the sentences but the last: its own, or the blank line's.
pub open spec fn kept_apart(list: Seq<Seq<char>>, breaks: Seq<bool>) -> bool {
    forall|i: int| 0 <= i < list.len() - 1 ==> breaks[i] || ends_in_space(#[trigger] list[i])
}

/// Sentences that are kept apart keep their words when they are written one after the other: none
/// is cut, and no two become one.
pub proof fn sentences_keep_their_words(list: Seq<Seq<char>>, breaks: Seq<bool>)
    requires
        kept_apart(list, breaks),
    ensures
        words(flowed(list, breaks)) == all_words(list),
    decreases list.len(),
{
    if list.len() == 0 {
        assert(words(flowed(list, breaks)) =~= all_words(list));
    } else {
        let front = list.drop_last();
        assert(kept_apart(front, breaks)) by {
            assert forall|i: int| 0 <= i < front.len() - 1 implies breaks[i] || ends_in_space(
                #[trigger] front[i],
            ) by {
                assert(front[i] == list[i]);
            }
        }
        sentences_keep_their_words(front, breaks);
        let text = flowed(front, breaks);
        if list.len() == 1 {
            assert(text == Seq::<char>::empty());
            assert(text + list.last() =~= list.last());
            assert(all_words(list) =~= words(list.last()));
        } else {
            let k = list.len() - 2;
            if breaks[k] {
                lemma_parted_words(text, list.last());
            } else {
                assert(ends_in_space(list[k]));
                assert(front.last() == list[k]);
                assert(text.last() == list[k].last());
                lemma_words_behind_space(text, list.last());
            }
        }
    }
}

/// The sentences of a chunk stand in it unchanged: where each of them ends in white space or stands
/// inside its paragraph, the chunk is nothing but the sentences one after the other.
pub proof fn sentences_are_not_changed(list: Seq<Seq<char>>, breaks: Seq<bool>)
    requires
        forall|i: int|
            0 <= i < list.len() - 1 ==> !breaks[i] || ends_in_space(#[trigger] list[i]),
    ensures
        flowed(list, breaks) == joined(list, Seq::empty()),
    decreases list.len(),
{
    if list.len() == 1 {
        assert(flowed(list.drop_last(), breaks) == Seq::<char>::empty());
        assert(flowed(list, breaks) =~= list[0]);
    } else if list.len() > 1 {
        let front = list.drop_last();
        assert forall|i: int| 0 <= i < front.len() - 1 implies !breaks[i] || ends_in_space(
            #[trigger] front[i],
        ) by {
            assert(front[i] == list[i]);
        }
        sentences_are_not_changed(front, breaks);
        let k = list.len() - 2;
        assert(front.last() == list[k]);
        let text = flowed(front, breaks);
        if breaks[k] {
            assert(ends_in_space(list[k]));
            assert(text.last() == list[k].last());
        }
        assert(joined(front, Seq::empty()) + Seq::<char>::empty() =~= text);
    }
}

/// Each sentence of a chunk stands in it.
proof fn lemma_sentence_occurs(list: Seq<Seq<char>>, breaks: Seq<bool>, s: int)
    requires
        0 <= s < list.len(),
    ensures
        exists|p: int| occurs_at(flowed(list, breaks), list[s], p),
    decreases list.len(),
{
    let front = list.drop_last();
    let text = flowed(front, breaks);
    let head = if list.len() > 1 && breaks[list.len() - 2] {
        parted(text)
    } else {
        text
    };
    let whole = flowed(list, breaks);
    assert(whole =~= head + list.last());
    if s == list.len() - 1 {
        let p = head.len() as int;
        assert(whole.subrange(p, p + list[s].len()) =~= list[s]);
        assert(occurs_at(whole, list[s], p));
    } else {
        lemma_sentence_occurs(front, breaks, s);
        let p = choose|p: int| occurs_at(text, front[s], p);
        assert(whole.subrange(p, p + list[s].len()) =~= text.subrange(p, p + list[s].len()));
        assert(occurs_at(whole, list[s], p));
    }
}

/// A chunk has at most the words of its sentences, and at least those of its first.
proof fn lemma_flowed_words(list: Seq<Seq<char>>, breaks: Seq<bool>)
    requires
        list.len() > 0,
    ensures
        words(flowed(list, breaks)).len() <= all_words(list).len(),
        words(list[0]).len() <= words(flowed(list, breaks)).len(),
    decreases list.len(),
{
    let front = list.drop_last();
    let text = flowed(front, breaks);
    if list.len() == 1 {
        assert(text == Seq::<char>::empty());
        assert(text + list.last() =~= list[0]);
        assert(all_words(list) =~= words(list[0]));
    } else {
        lemma_flowed_words(front, breaks);
        assert(front[0] == list[0]);
        lemma_parted_words(text, list.last());
        lemma_words_concat(text, list.last());
    }
}

proof fn lemma_chunk_words(list: Seq<Seq<char>>, lens: Seq<nat>, start: int, end: int)
    requires
        0 <= start <= end <= list.len(),
        lens == counts(list),
    ensures
        all_words(list.subrange(start, end)).len() == words_between(lens, start, end),
    decreases end - start,
{
    let part = list.subrange(start, end);
    if start < end {
        lemma_chunk_words(list, lens, start, end - 1);
        assert(part.drop_last() =~= list.subrange(start, end - 1));
        assert(part.last() == list[end - 1]);
    }
}

/// No chunk passes the limit of the embedding model, and none is blank.
pub proof fn chunks_fit(text: Seq<char>, i: int)
    requires
        0 <= i < text_chunks(text).len(),
    ensures
        0 < words(text_chunks(text)[i]).len() <= CHUNK_MAX_WORDS,
        trim(text_chunks(text)[i]).len() > 0,
{
    let list = text_sentences(text);
    let lens = counts(list);
    sentences_fit(text);
    let ranges = chunk_ranges(lens, 0);
    lemma_ranges(lens, 0);
    let (start, end) = ranges[i];
    lemma_chunk_words(list, lens, start, end);
    let breaks = text_breaks(text).subrange(start, end);
    lemma_flowed_words(list.subrange(start, end), breaks);
    assert(list.subrange(start, end)[0] == list[start]);
    assert(words(list[start]).len() > 0);
    lemma_chunk_end(lens, start, start + 1);
    if end == start + 1 {
        assert(words_between(lens, start, start) == 0);
        assert(words(list[start]).len() <= CHUNK_MAX_WORDS);
    } else {
        assert(!chunk_full(lens, start, end - 1));
    }
    lemma_blank(text_chunks(text)[i]);
}

proof fn lemma_pieces_wordless(text: Seq<char>, pat: Seq<char>)
    requires
        pat == seq!['\n', '\n'],
    ensures
        words(text).len() == 0 <==> (forall|i: int|
            0 <= i < split_at_text(text, pat).len() ==> words(
                #[trigger] split_at_text(text, pat)[i],
            ).len() == 0),
    decreases text.len(),
{
    let pieces = split_at_text(text, pat);
    crate::text::lemma_find_from(text, pat, 0);
    match crate::text::find_from(text, pat, 0) {
        Some(k) => {
            let head = text.take(k);
            let rest = text.skip(k + 2);
            let tail = split_at_text(rest, pat);
            lemma_pieces_wordless(rest, pat);
            assert(pieces =~= seq![head] + tail);
            assert(text.subrange(k, k + 2) == pat);
            assert(text[k] == text.subrange(k, k + 2)[0]);
            assert(text[k + 1] == text.subrange(k, k + 2)[1]);
            crate::split::lemma_wordless(text);
            crate::split::lemma_wordless(head);
            crate::split::lemma_wordless(rest);
            assert forall|i: int| 0 <= i < text.len() implies #[trigger] text[i] == (if i < k {
                head[i]
            } else if i < k + 2 {
                '\n'
            } else {
                rest[i - k - 2]
            }) by {}
            if words(text).len() == 0 {
                assert forall|i: int| 0 <= i < head.len() implies crate::text::is_space(
                    #[trigger] head[i],
                ) by {
                    assert(crate::text::is_space(text[i]));
                }
                assert forall|i: int| 0 <= i < rest.len() implies crate::text::is_space(
                    #[trigger] rest[i],
                ) by {
                    assert(crate::text::is_space(text[i + k + 2]));
                }
                assert forall|i: int| 0 <= i < pieces.len() implies words(
                    #[trigger] pieces[i],
                ).len() == 0 by {
                    if i > 0 {
                        assert(pieces[i] == tail[i - 1]);
                    }
                }
            }
            if forall|i: int| 0 <= i < pieces.len() ==> words(#[trigger] pieces[i]).len() == 0 {
                assert(words(pieces[0]).len() == 0);
                assert forall|i: int| 0 <= i < tail.len() implies words(#[trigger] tail[i]).len()
                    == 0 by {
                    assert(pieces[i + 1] == tail[i]);
                }
                assert forall|i: int| 0 <= i < text.len() implies crate::text::is_space(
                    #[trigger] text[i],
                ) by {
                    if i < k {
                        assert(crate::text::is_space(head[i]));
                    } else if i >= k + 2 {
                        assert(crate::text::is_space(rest[i - k - 2]));
                    }
                }
            }
        },
        None => {
            assert(pieces =~= seq![text]);
            assert(pieces[0] == text);
        },
    }
}

/// A text has chunks exactly when it is not blank.
pub proof fn blank_text_has_no_chunks(text: Seq<char>)
    ensures
        text_chunks(text).len() == 0 <==> trim(text).len() == 0,
{
    let pat = seq!['\n', '\n'];
    lemma_blank(text);
    lemma_pieces_wordless(text, pat);
    lemma_paragraphs_fit(split_at_text(text, pat));
    let lens = counts(text_sentences(text));
    if lens.len() > 0 {
        lemma_ranges(lens, 0);
    }
}

/// The windows of a run without sentence marks follow each other in equal steps, so that each one
/// repeats the last `CHUNK_OVERLAP_WORDS` words of the one before it.
pub proof fn windows_overlap(ws: Seq<Seq<char>>, start: int, i: int)
    requires
        0 <= start < ws.len(),
        0 <= i < windows(ws, start).len(),
    ensures
        ({
            let from = start + i * (CHUNK_MAX_WORDS - CHUNK_OVERLAP_WORDS);
            let to = if from + CHUNK_MAX_WORDS >= ws.len() {
                ws.len() as int
            } else {
                from + CHUNK_MAX_WORDS
            };
            &&& from < to
            &&& windows(ws, start)[i] == joined(ws.subrange(from, to), seq![' '])
            &&& to == ws.len() <==> i == windows(ws, start).len() - 1
        }),
    decreases i,
{
    if i > 0 {
        let next = start + CHUNK_MAX_WORDS - CHUNK_OVERLAP_WORDS;
        windows_overlap(ws, next, i - 1);
        assert(windows(ws, start)[i] == windows(ws, next)[i - 1]);
    } else if start + CHUNK_MAX_WORDS < ws.len() {
        let next = start + CHUNK_MAX_WORDS - CHUNK_OVERLAP_WORDS;
        assert(windows(ws, next).len() > 0);
    }
}

/// Some text of the list has the word `w`.
pub open spec fn some_has_word(list: Seq<Seq<char>>, w: Seq<char>) -> bool {
    exists|i: int| 0 <= i < list.len() && words(#[trigger] list[i]).contains(w)
}

proof fn lemma_some_has_word_left(a: Seq<Seq<char>>, b: Seq<Seq<char>>, w: Seq<char>)
    ensures
        some_has_word(a, w) ==> some_has_word(a + b, w),
        some_has_word(b, w) ==> some_has_word(a + b, w),
{
    if some_has_word(a, w) {
        let i = choose|i: int| 0 <= i < a.len() && words(#[trigger] a[i]).contains(w);
        assert((a + b)[i] == a[i]);
    }
    if some_has_word(b, w) {
        let i = choose|i: int| 0 <= i < b.len() && words(#[trigger] b[i]).contains(w);
        assert((a + b)[i + a.len()] == b[i]);
    }
}

proof fn lemma_windows_have(ws: Seq<Seq<char>>, start: int, at: int)
    requires
        proper_words(ws),
        0 <= start <= at < ws.len(),
    ensures
        some_has_word(windows(ws, start), ws[at]),
    decreases ws.len() - start,
{
    let end = if start + CHUNK_MAX_WORDS >= ws.len() {
        ws.len() as int
    } else {
        start + CHUNK_MAX_WORDS
    };
    let part = ws.subrange(start, end);
    let next = start + CHUNK_MAX_WORDS - CHUNK_OVERLAP_WORDS;
    if at < end {
        lemma_words_of_joined(part);
        assert(part[at - start] == ws[at]);
        assert(windows(ws, start)[0] == joined(part, seq![' ']));
    } else {
        lemma_windows_have(ws, next, at);
        lemma_some_has_word_left(
            seq![joined(part, seq![' '])],
            windows(ws, next),
            ws[at],
        );
    }
}

proof fn lemma_windowed_has(sentence: Seq<char>, w: Seq<char>)
    requires
        words(sentence).contains(w),
    ensures
        some_has_word(windowed(sentence), w),
{
    let ws = words(sentence);
    lemma_words_proper(sentence);
    if ws.len() > CHUNK_MAX_WORDS {
        let at = choose|at: int| 0 <= at < ws.len() && ws[at] == w;
        lemma_windows_have(ws, 0, at);
    } else {
        assert(windowed(sentence)[0] == sentence);
    }
}

proof fn lemma_all_windowed_have(list: Seq<Seq<char>>, w: Seq<char>)
    requires
        some_has_word(list, w),
    ensures
        some_has_word(all_windowed(list), w),
    decreases list.len(),
{
    let i = choose|i: int| 0 <= i < list.len() && words(#[trigger] list[i]).contains(w);
    let front = list.drop_last();
    lemma_some_has_word_left(all_windowed(front), windowed(list.last()), w);
    if i == list.len() - 1 {
        lemma_windowed_has(list.last(), w);
    } else {
        assert(front[i] == list[i]);
        lemma_all_windowed_have(front, w);
    }
}

proof fn lemma_sentence_scan_has(ws: Seq<Seq<char>>, w: Seq<char>)
    requires
        proper_words(ws),
        ws.contains(w),
    ensures
        some_has_word(sentence_scan(ws).0, w) || sentence_scan(ws).1.contains(w),
    decreases ws.len(),
{
    let front = ws.drop_last();
    let (done, open) = sentence_scan(front);
    let grown = open.push(ws.last());
    lemma_scan_worded(front);
    assert(proper_words(grown)) by {
        assert(crate::split::proper_word(ws[ws.len() - 1]));
    }
    lemma_words_of_joined(grown);
    let sentence = joined(grown, seq![' ']).push(' ');
    lemma_some_has_word_left(done, seq![sentence], w);
    assert(done + seq![sentence] =~= done.push(sentence));
    let at = choose|at: int| 0 <= at < ws.len() && ws[at] == w;
    if at == ws.len() - 1 {
        assert(grown[grown.len() - 1] == w);
    } else {
        assert(front[at] == w);
        lemma_sentence_scan_has(front, w);
        if open.contains(w) {
            let k = choose|k: int| 0 <= k < open.len() && open[k] == w;
            assert(grown[k] == w);
        }
    }
    if grown.contains(w) {
        assert(seq![sentence][0] == sentence);
        assert(some_has_word(seq![sentence], w));
    }
}

proof fn lemma_paragraph_has(paragraph: Seq<char>, w: Seq<char>)
    requires
        words(paragraph).contains(w),
    ensures
        some_has_word(all_windowed(paragraph_sentences(words(paragraph))), w),
{
    let ws = words(paragraph);
    lemma_words_proper(paragraph);
    lemma_sentence_scan_has(ws, w);
    lemma_scan_worded(ws);
    let (done, open) = sentence_scan(ws);
    lemma_words_of_joined(open);
    let last = joined(open, seq![' ']);
    lemma_some_has_word_left(done, seq![last], w);
    assert(done + seq![last] =~= done.push(last));
    if open.contains(w) {
        assert(seq![last][0] == last);
        assert(some_has_word(seq![last], w));
    }
    lemma_all_windowed_have(paragraph_sentences(ws), w);
}

proof fn lemma_paragraphs_have(paragraphs: Seq<Seq<char>>, w: Seq<char>)
    requires
        some_has_word(paragraphs, w),
    ensures
        some_has_word(paragraphs_sentences(paragraphs), w),
    decreases paragraphs.len(),
{
    let i = choose|i: int| 0 <= i < paragraphs.len() && words(#[trigger] paragraphs[i]).contains(w);
    let front = paragraphs.drop_last();
    lemma_some_has_word_left(
        paragraphs_sentences(front),
        all_windowed(paragraph_sentences(words(paragraphs.last()))),
        w,
    );
    if i == paragraphs.len() - 1 {
        lemma_paragraph_has(paragraphs.last(), w);
    } else {
        assert(front[i] == paragraphs[i]);
        lemma_paragraphs_have(front, w);
    }
}

proof fn lemma_split_has(text: Seq<char>, pat: Seq<char>, w: Seq<char>)
    requires
        pat == seq!['\n', '\n'],
        words(text).contains(w),
    ensures
        some_has_word(split_at_text(text, pat), w),
    decreases text.len(),
{
    crate::text::lemma_find_from(text, pat, 0);
    match crate::text::find_from(text, pat, 0) {
        Some(k) => {
            let head = text.take(k);
            let closed = head.push('\n').push('\n');
            let rest = text.skip(k + 2);
            assert(text.subrange(k, k + 2) == pat);
            assert(text[k] == text.subrange(k, k + 2)[0]);
            assert(text[k + 1] == text.subrange(k, k + 2)[1]);
            assert(text =~= closed + rest);
            lemma_words_behind_space(closed, rest);
            lemma_words_push_space(head, '\n');
            lemma_words_push_space(head.push('\n'), '\n');
            lemma_some_has_word_left(seq![head], split_at_text(rest, pat), w);
            let at = choose|at: int| 0 <= at < words(text).len() && words(text)[at] == w;
            if at < words(head).len() {
                assert(words(head)[at] == w);
                assert(seq![head][0] == head);
                assert(some_has_word(seq![head], w));
            } else {
                assert(words(rest)[at - words(head).len()] == w);
                lemma_split_has(rest, pat, w);
            }
        },
        None => {
            assert(split_at_text(text, pat)[0] == text);
        },
    }
}

proof fn lemma_all_words(list: Seq<Seq<char>>, w: Seq<char>)
    ensures
        all_words(list).contains(w) <==> some_has_word(list, w),
    decreases list.len(),
{
    if list.len() > 0 {
        let front = list.drop_last();
        let left = all_words(front);
        let right = words(list.last());
        lemma_all_words(front, w);
        lemma_some_has_word_left(front, seq![list.last()], w);
        assert(front + seq![list.last()] =~= list);
        if all_words(list).contains(w) {
            let k = choose|k: int| 0 <= k < all_words(list).len() && all_words(list)[k] == w;
            if k < left.len() {
                assert(left[k] == w);
            } else {
                assert(right[k - left.len()] == w);
                assert(seq![list.last()][0] == list.last());
            }
        }
        if some_has_word(list, w) {
            let i = choose|i: int| 0 <= i < list.len() && words(#[trigger] list[i]).contains(w);
            if i < front.len() {
                assert(front[i] == list[i]);
                let k = choose|k: int| 0 <= k < left.len() && left[k] == w;
                assert(all_words(list)[k] == w);
            } else {
                let k = choose|k: int| 0 <= k < right.len() && right[k] == w;
                assert(all_words(list)[left.len() + k] == w);
            }
        }
    }
}

proof fn lemma_as_many_breaks(paragraphs: Seq<Seq<char>>)
    ensures
        paragraphs_breaks(paragraphs).len() == paragraphs_sentences(paragraphs).len(),
    decreases paragraphs.len(),
{
    if paragraphs.len() > 0 {
        lemma_as_many_breaks(paragraphs.drop_last());
    }
}

/// White space stands between any two sentences of the chunk with this number.
pub open spec fn chunk_kept_apart(text: Seq<char>, i: int) -> bool {
    let list = text_sentences(text);
    let (start, end) = chunk_ranges(counts(list), 0)[i];
    kept_apart(list.subrange(start, end), text_breaks(text).subrange(start, end))
}

/// Some text of the list holds `w`.
pub open spec fn some_holds(list: Seq<Seq<char>>, w: Seq<char>) -> bool {
    exists|i: int| 0 <= i < list.len() && holds_text(#[trigger] list[i], w)
}

/// `w` stands somewhere in the text.
pub open spec fn holds_text(text: Seq<char>, w: Seq<char>) -> bool {
    exists|p: int| occurs_at(text, w, p)
}

/// No word of a text is lost: each is a word of one of its sentences, each stands in one of its
/// chunks, and where white space stands between the sentences of every chunk, each is a word of one
/// of the chunks.
pub proof fn words_are_kept(text: Seq<char>, w: Seq<char>)
    requires
        words(text).contains(w),
    ensures
        some_has_word(text_sentences(text), w),
        some_holds(text_chunks(text), w),
        (forall|i: int|
            0 <= i < text_chunks(text).len() ==> #[trigger] chunk_kept_apart(text, i))
            ==> some_has_word(text_chunks(text), w),
{
    let pat = seq!['\n', '\n'];
    lemma_split_has(text, pat, w);
    lemma_paragraphs_have(split_at_text(text, pat), w);
    let list = text_sentences(text);
    let lens = counts(list);
    let ranges = chunk_ranges(lens, 0);
    let s = choose|s: int| 0 <= s < list.len() && words(#[trigger] list[s]).contains(w);
    chunks_cover(lens);
    assert(is_covered(ranges, s));
    let i = choose|i: int| 0 <= i < ranges.len() && (#[trigger] ranges[i]).0 <= s < ranges[i].1;
    lemma_ranges(lens, 0);
    let part = list.subrange(ranges[i].0, ranges[i].1);
    let breaks = text_breaks(text).subrange(ranges[i].0, ranges[i].1);
    let chunk = text_chunks(text)[i];
    assert(chunk == flowed(part, breaks));
    let k = s - ranges[i].0;
    assert(part[k] == list[s]);
    lemma_sentence_occurs(part, breaks, k);
    lemma_word_occurs(list[s], w);
    let p = choose|p: int| occurs_at(chunk, part[k], p);
    let q = choose|q: int| occurs_at(list[s], w, q);
    assert(chunk.subrange(p + q, p + q + w.len()) =~= chunk.subrange(
        p,
        p + part[k].len(),
    ).subrange(q, q + w.len()));
    assert(occurs_at(chunk, w, p + q));
    assert(holds_text(chunk, w));
    if chunk_kept_apart(text, i) {
        lemma_all_words(part, w);
        sentences_keep_their_words(part, breaks);
        assert(words(text_chunks(text)[i]).contains(w));
    }
}

proof fn lemma_all_short(list: Seq<Seq<char>>)
    requires
        forall|i: int| 0 <= i < list.len() ==> words(#[trigger] list[i]).len() <= CHUNK_MAX_WORDS,
    ensures
        all_windowed(list) == list,
    decreases list.len(),
{
    if list.len() > 0 {
        let front = list.drop_last();
        assert forall|i: int| 0 <= i < front.len() implies words(#[trigger] front[i]).len()
            <= CHUNK_MAX_WORDS by {
            assert(front[i] == list[i]);
        }
        lemma_all_short(front);
        assert(words(list[list.len() - 1]).len() <= CHUNK_MAX_WORDS);
        assert(front + seq![list.last()] =~= list);
    }
}

proof fn lemma_scan_spaced(ws: Seq<Seq<char>>)
    ensures
        forall|i: int|
            0 <= i < sentence_scan(ws).0.len() ==> ends_in_space(#[trigger] sentence_scan(ws).0[i]),
    decreases ws.len(),
{
    if ws.len() > 0 {
        lemma_scan_spaced(ws.drop_last());
        let done = sentence_scan(ws.drop_last()).0;
        let now = sentence_scan(ws).0;
        assert forall|i: int| 0 <= i < now.len() implies ends_in_space(#[trigger] now[i]) by {
            if i < done.len() {
                assert(now[i] == done[i]);
            }
        }
    }
}

/// No sentence of the paragraph is too long for a chunk.
pub open spec fn short_sentences(paragraph: Seq<char>) -> bool {
    let list = paragraph_sentences(words(paragraph));
    forall|i: int| 0 <= i < list.len() ==> words(#[trigger] list[i]).len() <= CHUNK_MAX_WORDS
}

proof fn lemma_short_paragraphs(paragraphs: Seq<Seq<char>>)
    requires
        forall|i: int| 0 <= i < paragraphs.len() ==> short_sentences(#[trigger] paragraphs[i]),
    ensures
        paragraphs_breaks(paragraphs).len() == paragraphs_sentences(paragraphs).len(),
        forall|i: int|
            0 <= i < paragraphs_sentences(paragraphs).len() ==> paragraphs_breaks(paragraphs)[i]
                || ends_in_space(#[trigger] paragraphs_sentences(paragraphs)[i]),
    decreases paragraphs.len(),
{
    lemma_as_many_breaks(paragraphs);
    if paragraphs.len() > 0 {
        let front = paragraphs.drop_last();
        assert forall|i: int| 0 <= i < front.len() implies short_sentences(#[trigger] front[i]) by {
            assert(front[i] == paragraphs[i]);
        }
        lemma_short_paragraphs(front);
        let left = paragraphs_sentences(front);
        let ws = words(paragraphs.last());
        let list = paragraph_sentences(ws);
        assert(short_sentences(paragraphs[paragraphs.len() - 1]));
        lemma_all_short(list);
        lemma_scan_spaced(ws);
        let done = sentence_scan(ws).0;
        let all = paragraphs_sentences(paragraphs);
        let breaks = paragraphs_breaks(paragraphs);
        assert forall|i: int| 0 <= i < all.len() implies breaks[i] || ends_in_space(
            #[trigger] all[i],
        ) by {
            if i < left.len() {
                assert(all[i] == left[i]);
                assert(breaks[i] == paragraphs_breaks(front)[i]);
            } else {
                let k = i - left.len();
                assert(all[i] == list[k]);
                assert(breaks[i] == closing(list.len())[k]);
                if k < list.len() - 1 {
                    assert(list[k] == done[k]);
                }
            }
        }
    }
}

/// White space stands between the sentences of every chunk of a text none of whose sentences is too
/// long for a chunk. Behind the last window of a longer one the next sentence of its paragraph
/// follows at once.
pub proof fn short_sentences_are_kept_apart(text: Seq<char>, i: int)
    requires
        forall|k: int|
            0 <= k < paragraphs_of(text).len() ==> short_sentences(
                #[trigger] paragraphs_of(text)[k],
            ),
        0 <= i < text_chunks(text).len(),
    ensures
        chunk_kept_apart(text, i),
{
    let list = text_sentences(text);
    let breaks = text_breaks(text);
    lemma_short_paragraphs(paragraphs_of(text));
    let lens = counts(list);
    let ranges = chunk_ranges(lens, 0);
    lemma_ranges(lens, 0);
    let (start, end) = ranges[i];
    let part = list.subrange(start, end);
    let marks = breaks.subrange(start, end);
    assert forall|k: int| 0 <= k < part.len() - 1 implies marks[k] || ends_in_space(
        #[trigger] part[k],
    ) by {
        assert(part[k] == list[start + k]);
        assert(marks[k] == breaks[start + k]);
    }
}

proof fn lemma_windows_only(ws: Seq<Seq<char>>, start: int, w: Seq<char>)
    requires
        proper_words(ws),
        0 <= start < ws.len(),
        some_has_word(windows(ws, start), w),
    ensures
        ws.contains(w),
    decreases ws.len() - start,
{
    let all = windows(ws, start);
    let i = choose|i: int| 0 <= i < all.len() && words(#[trigger] all[i]).contains(w);
    let end = if start + CHUNK_MAX_WORDS >= ws.len() {
        ws.len() as int
    } else {
        start + CHUNK_MAX_WORDS
    };
    let part = ws.subrange(start, end);
    if i == 0 {
        lemma_words_of_joined(part);
        let k = choose|k: int| 0 <= k < part.len() && part[k] == w;
        assert(ws[start + k] == w);
    } else {
        let next = start + CHUNK_MAX_WORDS - CHUNK_OVERLAP_WORDS;
        assert(all[i] == windows(ws, next)[i - 1]);
        lemma_windows_only(ws, next, w);
    }
}

proof fn lemma_all_windowed_only(list: Seq<Seq<char>>, w: Seq<char>)
    requires
        some_has_word(all_windowed(list), w),
    ensures
        some_has_word(list, w),
    decreases list.len(),
{
    let front = list.drop_last();
    let left = all_windowed(front);
    let right = windowed(list.last());
    let all = all_windowed(list);
    let i = choose|i: int| 0 <= i < all.len() && words(#[trigger] all[i]).contains(w);
    if i < left.len() {
        assert(left[i] == all[i]);
        lemma_all_windowed_only(front, w);
        let k = choose|k: int| 0 <= k < front.len() && words(#[trigger] front[k]).contains(w);
        assert(list[k] == front[k]);
    } else {
        assert(right[i - left.len()] == all[i]);
        let sentence = list.last();
        if words(sentence).len() > CHUNK_MAX_WORDS {
            lemma_words_proper(sentence);
            lemma_windows_only(words(sentence), 0, w);
        }
        assert(list[list.len() - 1] == sentence);
    }
}

proof fn lemma_sentence_scan_only(ws: Seq<Seq<char>>, w: Seq<char>)
    requires
        proper_words(ws),
    ensures
        some_has_word(sentence_scan(ws).0, w) ==> ws.contains(w),
        sentence_scan(ws).1.contains(w) ==> ws.contains(w),
    decreases ws.len(),
{
    if ws.len() > 0 {
        let front = ws.drop_last();
        let (done, open) = sentence_scan(front);
        let grown = open.push(ws.last());
        lemma_sentence_scan_only(front, w);
        lemma_scan_worded(front);
        assert(proper_words(grown)) by {
            assert(crate::split::proper_word(ws[ws.len() - 1]));
        }
        lemma_words_of_joined(grown);
        if front.contains(w) {
            let k = choose|k: int| 0 <= k < front.len() && front[k] == w;
            assert(ws[k] == w);
        }
        if grown.contains(w) {
            let k = choose|k: int| 0 <= k < grown.len() && grown[k] == w;
            if k < open.len() {
                assert(open[k] == w);
            } else {
                assert(ws[ws.len() - 1] == w);
            }
        }
        let now = sentence_scan(ws).0;
        if some_has_word(now, w) {
            let i = choose|i: int| 0 <= i < now.len() && words(#[trigger] now[i]).contains(w);
            if i < done.len() {
                assert(done[i] == now[i]);
            }
        }
    }
}

proof fn lemma_paragraphs_only(paragraphs: Seq<Seq<char>>, w: Seq<char>)
    requires
        some_has_word(paragraphs_sentences(paragraphs), w),
    ensures
        some_has_word(paragraphs, w),
    decreases paragraphs.len(),
{
    let front = paragraphs.drop_last();
    let left = paragraphs_sentences(front);
    let ws = words(paragraphs.last());
    let list = paragraph_sentences(ws);
    let right = all_windowed(list);
    let all = paragraphs_sentences(paragraphs);
    let i = choose|i: int| 0 <= i < all.len() && words(#[trigger] all[i]).contains(w);
    if i < left.len() {
        assert(left[i] == all[i]);
        lemma_paragraphs_only(front, w);
        let k = choose|k: int| 0 <= k < front.len() && words(#[trigger] front[k]).contains(w);
        assert(paragraphs[k] == front[k]);
    } else {
        assert(right[i - left.len()] == all[i]);
        lemma_all_windowed_only(list, w);
        lemma_words_proper(paragraphs.last());
        lemma_sentence_scan_only(ws, w);
        lemma_scan_worded(ws);
        let (done, open) = sentence_scan(ws);
        lemma_words_of_joined(open);
        let k = choose|k: int| 0 <= k < list.len() && words(#[trigger] list[k]).contains(w);
        if k < done.len() {
            assert(done[k] == list[k]);
        }
        assert(ws.contains(w));
        assert(words(paragraphs[paragraphs.len() - 1]).contains(w));
    }
}

proof fn lemma_split_only(text: Seq<char>, pat: Seq<char>, w: Seq<char>)
    requires
        pat == seq!['\n', '\n'],
        some_has_word(split_at_text(text, pat), w),
    ensures
        words(text).contains(w),
    decreases text.len(),
{
    let all = split_at_text(text, pat);
    let i = choose|i: int| 0 <= i < all.len() && words(#[trigger] all[i]).contains(w);
    crate::text::lemma_find_from(text, pat, 0);
    match crate::text::find_from(text, pat, 0) {
        Some(k) => {
            let head = text.take(k);
            let closed = head.push('\n').push('\n');
            let rest = text.skip(k + 2);
            assert(text.subrange(k, k + 2) == pat);
            assert(text[k] == text.subrange(k, k + 2)[0]);
            assert(text[k + 1] == text.subrange(k, k + 2)[1]);
            assert(text =~= closed + rest);
            lemma_words_behind_space(closed, rest);
            lemma_words_push_space(head, '\n');
            lemma_words_push_space(head.push('\n'), '\n');
            if i == 0 {
                let at = choose|at: int| 0 <= at < words(head).len() && words(head)[at] == w;
                assert(words(text)[at] == w);
            } else {
                assert(split_at_text(rest, pat)[i - 1] == all[i]);
                lemma_split_only(rest, pat, w);
                let at = choose|at: int| 0 <= at < words(rest).len() && words(rest)[at] == w;
                assert(words(text)[words(head).len() + at] == w);
            }
        },
        None => {
            assert(all[0] == text);
        },
    }
}

/// Chunking makes no words up: where white space stands between the sentences of a chunk, each word
/// of it is a word of the text. Blank lines part words as well as any white space does.
pub proof fn no_words_are_made_up(text: Seq<char>, i: int, w: Seq<char>)
    requires
        0 <= i < text_chunks(text).len(),
        words(text_chunks(text)[i]).contains(w),
        chunk_kept_apart(text, i),
    ensures
        words(text).contains(w),
{
    let pat = seq!['\n', '\n'];
    let list = text_sentences(text);
    let lens = counts(list);
    let ranges = chunk_ranges(lens, 0);
    lemma_ranges(lens, 0);
    let part = list.subrange(ranges[i].0, ranges[i].1);
    sentences_keep_their_words(part, text_breaks(text).subrange(ranges[i].0, ranges[i].1));
    lemma_all_words(part, w);
    let k = choose|k: int| 0 <= k < part.len() && words(#[trigger] part[k]).contains(w);
    assert(list[ranges[i].0 + k] == part[k]);
    lemma_paragraphs_only(split_at_text(text, pat), w);
    lemma_split_only(text, pat, w);
}

// ---------------------------------------------------------------------------------------------
// Where sentences end

/// The abbreviations are these eleven.
pub proof fn eleven_abbreviations_are_known(stem: Seq<char>)
    ensures
        abbreviations().contains(stem) <==> stem == "vol"@ || stem == "vols"@ || stem == "no"@ || stem == "nos"@ || stem == "fig"@ || stem == "para"@ || stem == "subpara"@ || stem == "ed"@ || stem == "rev"@ || stem == "approx"@ || stem == "sec"@,
{
    let all = abbreviations();
    assert(all[0] == "vol"@ && all[1] == "vols"@ && all[2] == "no"@ && all[3] == "nos"@ && all[4] == "fig"@ && all[5] == "para"@ && all[6] == "subpara"@ && all[7] == "ed"@ && all[8] == "rev"@ && all[9] == "approx"@ && all[10] == "sec"@);
    if all.contains(stem) {
        let k = choose|k: int| 0 <= k < all.len() && all[k] == stem;
        assert(0 <= k < 11);
    }
    assert(all.contains(all[0]) && all.contains(all[1]) && all.contains(all[2]) && all.contains(all[3]) && all.contains(all[4]) && all.contains(all[5]) && all.contains(all[6]) && all.contains(all[7]) && all.contains(all[8]) && all.contains(all[9]) && all.contains(all[10]));
}

proof fn lemma_no_question(stem: Seq<char>)
    requires
        abbreviations().contains(stem),
    ensures
        stem.len() > 0,
        stem.last() != '?',
        stem.last() != '!',
{
    eleven_abbreviations_are_known(stem);
    reveal_strlit("vol");
    reveal_strlit("vols");
    reveal_strlit("no");
    reveal_strlit("nos");
    reveal_strlit("fig");
    reveal_strlit("para");
    reveal_strlit("subpara");
    reveal_strlit("ed");
    reveal_strlit("rev");
    reveal_strlit("approx");
    reveal_strlit("sec");
}

proof fn lemma_dropped(s: Seq<char>, t: Seq<char>, p: spec_fn(char) -> bool)
    requires
        s.len() > 0,
        !p(s.last()),
        forall|i: int| 0 <= i < t.len() ==> p(#[trigger] t[i]),
    ensures
        drop_trailing(s + t, p) == s,
    decreases t.len(),
{
    let all = s + t;
    if t.len() == 0 {
        assert(all =~= s);
    } else {
        assert(all.last() == t[t.len() - 1]);
        assert(all.drop_last() =~= s + t.drop_last());
        lemma_dropped(s, t.drop_last(), p);
    }
}

/// A word closes a sentence with a period, a question mark or an exclamation mark, which brackets
/// and quotes may follow; a period behind an abbreviation does not count, whether that is written
/// in small letters or in capitals.
pub proof fn sentences_close_with_their_mark(
    stem: Seq<char>,
    dots: Seq<char>,
    marks: Seq<char>,
)
    requires
        stem.len() > 0,
        stem.last() != '.' && stem.last() != '?' && stem.last() != '!',
        stem.last() != ')' && stem.last() != '"' && stem.last() != '\'',
        dots.len() > 0,
        forall|i: int| 0 <= i < dots.len() ==> (#[trigger] dots[i]) == '.',
        forall|i: int|
            0 <= i < marks.len() ==> (#[trigger] marks[i]) == ')' || marks[i] == '"' || marks[i]
                == '\'',
    ensures
        closes_sentence(stem + dots + marks) <==> !abbreviations().contains(ascii_lower(stem)),
        closes_sentence(stem + seq!['?'] + marks),
        closes_sentence(stem + seq!['!'] + marks),
        !closes_sentence(stem + marks),
{
    let p = one_of(closing_marks());
    let known = closing_marks();
    assert(known[0] == ')' && known[1] == '"' && known[2] == '\'');
    assert(known.contains(known[0]) && known.contains(known[1]) && known.contains(known[2]));
    assert forall|i: int| 0 <= i < marks.len() implies p(#[trigger] marks[i]) by {
        assert(marks[i] == ')' || marks[i] == '"' || marks[i] == '\'');
    }
    assert forall|c: char| c != ')' && c != '"' && c != '\'' implies !#[trigger] known.contains(
        c,
    ) by {
        if known.contains(c) {
            let k = choose|k: int| 0 <= k < known.len() && known[k] == c;
            assert(0 <= k < 3);
        }
    }
    let dot = one_of(seq!['.']);
    let period = seq!['.'];
    assert(period[0] == '.');
    assert(period.contains('.'));
    let full = stem + dots;
    assert(full.last() == dots[dots.len() - 1]);
    lemma_dropped(full, marks, p);
    assert forall|i: int| 0 <= i < dots.len() implies dot(#[trigger] dots[i]) by {
        assert(dots[i] == '.');
    }
    lemma_dropped(stem, dots, dot);
    let asked = stem + seq!['?'];
    let cried = stem + seq!['!'];
    assert(asked.last() == '?' && cried.last() == '!');
    lemma_dropped(asked, marks, p);
    lemma_dropped(cried, marks, p);
    assert(!dot('?') && !dot('!'));
    assert(drop_trailing(asked, dot) == asked);
    assert(drop_trailing(cried, dot) == cried);
    assert(ascii_lower(asked).last() == '?');
    assert(ascii_lower(cried).last() == '!');
    if abbreviations().contains(ascii_lower(asked)) {
        lemma_no_question(ascii_lower(asked));
    }
    if abbreviations().contains(ascii_lower(cried)) {
        lemma_no_question(ascii_lower(cried));
    }
    lemma_dropped(stem, marks, p);
}

/// The sentence has the words from `a` to before `b`, and ends with the first of them from its sixth
/// on that closes a sentence.
pub open spec fn sentence_between(
    ws: Seq<Seq<char>>,
    sentence: Seq<char>,
    a: int,
    b: int,
) -> bool {
    &&& 0 <= a && a + 6 <= b <= ws.len()
    &&& sentence == joined(ws.subrange(a, b), seq![' ']).push(' ')
    &&& closes_sentence(ws[b - 1])
    &&& forall|j: int| a + 5 <= j < b - 1 ==> !closes_sentence(#[trigger] ws[j])
}

/// The finished sentences are the words between these cuts.
pub open spec fn cut_into(ws: Seq<Seq<char>>, done: Seq<Seq<char>>, cuts: Seq<int>) -> bool {
    &&& cuts.len() == done.len() + 1
    &&& cuts[0] == 0
    &&& forall|k: int|
        0 <= k < done.len() ==> sentence_between(ws, #[trigger] done[k], cuts[k], cuts[k + 1])
}

proof fn lemma_cuts(ws: Seq<Seq<char>>) -> (cuts: Seq<int>)
    ensures
        cut_into(ws, sentence_scan(ws).0, cuts),
        0 <= cuts.last() <= ws.len(),
        sentence_scan(ws).1 == ws.skip(cuts.last()),
        forall|j: int| cuts.last() + 5 <= j < ws.len() ==> !closes_sentence(#[trigger] ws[j]),
    decreases ws.len(),
{
    let (done, open) = sentence_scan(ws);
    if ws.len() == 0 {
        let cuts = seq![0int];
        assert(ws.skip(0) =~= open);
        assert(cut_into(ws, done, cuts));
        cuts
    } else {
        let front = ws.drop_last();
        let earlier = lemma_cuts(front);
        let (before, rest) = sentence_scan(front);
        let grown = rest.push(ws.last());
        assert(grown =~= ws.skip(earlier.last()));
        let last = earlier.last();
        assert forall|k: int| 0 <= k < before.len() implies sentence_between(
            ws,
            #[trigger] before[k],
            earlier[k],
            earlier[k + 1],
        ) by {
            let a = earlier[k];
            let b = earlier[k + 1];
            assert(sentence_between(front, before[k], a, b));
            assert(before[k] == joined(front.subrange(a, b), seq![' ']).push(' '));
            assert(front.subrange(a, b) =~= ws.subrange(a, b));
            assert(front[b - 1] == ws[b - 1]);
            assert forall|j: int| a + 5 <= j < b - 1 implies !closes_sentence(
                #[trigger] ws[j],
            ) by {
                assert(front[j] == ws[j]);
            }
        }
        assert forall|j: int| last + 5 <= j < ws.len() - 1 implies !closes_sentence(
            #[trigger] ws[j],
        ) by {
            assert(front[j] == ws[j]);
        }
        if grown.len() >= MIN_SENTENCE_WORDS && closes_sentence(ws.last()) {
            let cuts = earlier.push(ws.len() as int);
            assert(ws.skip(last) =~= ws.subrange(last, ws.len() as int));
            assert(ws.skip(ws.len() as int) =~= open);
            assert forall|k: int| 0 <= k < done.len() implies sentence_between(
                ws,
                #[trigger] done[k],
                cuts[k],
                cuts[k + 1],
            ) by {
                if k < before.len() {
                    assert(done[k] == before[k]);
                    assert(cuts[k] == earlier[k] && cuts[k + 1] == earlier[k + 1]);
                } else {
                    assert(k == before.len());
                    assert(cuts[k] == last && cuts[k + 1] == ws.len());
                    assert(done[k] == joined(grown, seq![' ']).push(' '));
                }
            }
            assert(cuts.len() == done.len() + 1);
            assert(cuts[0] == earlier[0]);
            assert(cut_into(ws, done, cuts));
            cuts
        } else {
            assert(done == before);
            assert(cut_into(ws, done, earlier));
            earlier
        }
    }
}

/// A sentence ends with the first word from its sixth on that closes a sentence, and begins where
/// the one before it ends; what is left at the end of a paragraph is a sentence of its own. So every
/// word of a paragraph stands in one sentence, in its order.
pub proof fn sentences_end_where_they_first_can(ws: Seq<Seq<char>>)
    ensures
        exists|cuts: Seq<int>| #[trigger]
            cut_into(ws, sentence_scan(ws).0, cuts) && 0 <= cuts.last() <= ws.len() && (forall|
                j: int,
            |
                cuts.last() + 5 <= j < ws.len() ==> !closes_sentence(#[trigger] ws[j]))
                && paragraph_sentences(ws) == (if cuts.last() < ws.len() {
                sentence_scan(ws).0.push(joined(ws.skip(cuts.last()), seq![' ']))
            } else {
                sentence_scan(ws).0
            }),
{
    let cuts = lemma_cuts(ws);
    assert(cut_into(ws, sentence_scan(ws).0, cuts));
}

/// A sentence that fits into a chunk enters it as it is.
pub proof fn short_sentences_are_not_cut(sentence: Seq<char>)
    requires
        words(sentence).len() <= 375,
    ensures
        windowed(sentence) == seq![sentence],
{
}

/// Sentences keep their order when the long ones among them are cut, and so do paragraphs.
pub proof fn paragraphs_follow_each_other(
    a: Seq<Seq<char>>,
    b: Seq<Seq<char>>,
    sentence: Seq<char>,
    paragraph: Seq<char>,
)
    ensures
        all_windowed(a + b) == all_windowed(a) + all_windowed(b),
        all_windowed(seq![sentence]) == windowed(sentence),
        paragraphs_sentences(a + b) == paragraphs_sentences(a) + paragraphs_sentences(b),
        paragraphs_sentences(seq![paragraph]) == all_windowed(
            paragraph_sentences(words(paragraph)),
        ),
        paragraphs_breaks(a + b) == paragraphs_breaks(a) + paragraphs_breaks(b),
    decreases b.len(),
{
    let one = seq![sentence];
    let only_one = seq![paragraph];
    assert(all_windowed(one.drop_last()) =~= Seq::<Seq<char>>::empty());
    assert(all_windowed(one) =~= windowed(sentence));
    assert(paragraphs_sentences(only_one.drop_last()) =~= Seq::<Seq<char>>::empty());
    assert(paragraphs_sentences(only_one) =~= all_windowed(paragraph_sentences(words(paragraph))));
    if b.len() == 0 {
        assert(a + b =~= a);
        assert(all_windowed(a) + all_windowed(b) =~= all_windowed(a));
        assert(paragraphs_sentences(a) + paragraphs_sentences(b) =~= paragraphs_sentences(a));
        assert(paragraphs_breaks(a) + paragraphs_breaks(b) =~= paragraphs_breaks(a));
    } else {
        paragraphs_follow_each_other(a, b.drop_last(), sentence, paragraph);
        assert((a + b).drop_last() =~= a + b.drop_last());
        assert((a + b).last() == b.last());
        assert(all_windowed(a + b) =~= all_windowed(a) + all_windowed(b));
        assert(paragraphs_sentences(a + b) =~= paragraphs_sentences(a) + paragraphs_sentences(b));
        assert(paragraphs_breaks(a + b) =~= paragraphs_breaks(a) + paragraphs_breaks(b));
    }
}

/// What parts paragraphs.
pub open spec fn blank_line() -> Seq<char> {
    seq!['\n', '\n']
}

/// A blank line ends a sentence: the sentences of what stands before it come first, and then those
/// of what stands behind it.
pub proof fn blank_lines_end_sentences(text: Seq<char>, front: Seq<char>, behind: Seq<char>)
    requires
        text == front + blank_line() + behind,
        forall|j: int| 0 <= j < front.len() ==> !#[trigger] occurs_at(text, blank_line(), j),
    ensures
        text_sentences(text) == all_windowed(paragraph_sentences(words(front))) + text_sentences(
            behind,
        ),
{
    let pat = blank_line();
    let n = front.len() as int;
    crate::text::lemma_find_from(text, pat, 0);
    assert(text.subrange(n, n + 2) =~= pat);
    assert(occurs_at(text, pat, n));
    let found = crate::text::find_from(text, pat, 0);
    assert(found == Some(n)) by {
        match found {
            Some(k) => {
                if k < n {
                    assert(!occurs_at(text, pat, k));
                } else if k > n {
                    assert(!occurs_at(text, pat, n));
                }
            },
            None => {
                assert(!occurs_at(text, pat, n));
            },
        }
    }
    assert(text.take(n) =~= front);
    assert(text.skip(n + 2) =~= behind);
    assert(paragraphs_of(text) == seq![front] + paragraphs_of(behind));
    paragraphs_follow_each_other(seq![front], paragraphs_of(behind), front, front);
}

/// Behind the last sentence of a paragraph one space parts it from the next, and inside a paragraph
/// nothing is put between two sentences.
pub proof fn one_space_parts_paragraphs(list: Seq<Seq<char>>, breaks: Seq<bool>, next: Seq<char>)
    requires
        list.len() > 0,
        flowed(list, breaks).len() > 0,
        !is_space(flowed(list, breaks).last()),
    ensures
        breaks[list.len() - 1] ==> flowed(list.push(next), breaks) == flowed(list, breaks)
            + seq![' '] + next,
        !breaks[list.len() - 1] ==> flowed(list.push(next), breaks) == flowed(list, breaks) + next,
{
    assert(list.push(next).drop_last() =~= list);
    assert(flowed(list, breaks).push(' ') + next =~= flowed(list, breaks) + seq![' '] + next);
}

/// Every chunk is written from the sentences of its range, counted in words sentence by sentence.
pub proof fn chunks_are_written_from_their_sentences(text: Seq<char>, i: int, k: int)
    requires
        0 <= i < text_chunks(text).len(),
        0 <= k < text_sentences(text).len(),
    ensures
        ({
            let list = text_sentences(text);
            let lens = counts(list);
            let (start, end) = chunk_ranges(lens, 0)[i];
            &&& lens.len() == list.len()
            &&& lens[k] == words(list[k]).len()
            &&& text_chunks(text).len() == chunk_ranges(lens, 0).len()
            &&& text_chunks(text)[i] == flowed(
                list.subrange(start, end),
                text_breaks(text).subrange(start, end),
            )
        }),
{
}

} // verus!
