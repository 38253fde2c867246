//! Term statistics of a corpus: what lexical scoring needs to know about every word.
//!
//! Words keep exact codes, section numbers and abbreviations apart where an embedding model would
//! put them close together.

use vstd::hash_map::StringHashMap;
use vstd::prelude::*;

use crate::split::{
    free_of, lemma_runs, lemma_runs_of_joined, runs, scan, without_separators,
};
use crate::text::{ascii_lower, chars_of, joined, string_of, strings};

verus! {

// ---------------------------------------------------------------------------------------------
// Terms

/// The lower-case form of a text.
pub uninterp spec fn lowercase(s: Seq<char>) -> Seq<char>;

/// Whether a character is a letter or a number.
pub uninterp spec fn alphanumeric(c: char) -> bool;

/// The text has ASCII characters only.
pub open spec fn plain(s: Seq<char>) -> bool {
    forall|i: int| 0 <= i < s.len() ==> (#[trigger] s[i]) <= '\u{7f}'
}

/// `str::to_lowercase`: the Unicode lower-case form of the text. Of ASCII text it is the text with
/// its capitals lowered.
pub assume_specification[ str::to_lowercase ](s: &str) -> (r: String)
    ensures
        r@ == lowercase(s@),
        plain(s@) ==> r@ == ascii_lower(s@),
;

/// `char::is_alphanumeric`: whether the character is alphabetic or numeric in Unicode. Of the
/// ASCII characters the letters and the digits are.
pub assume_specification[ char::is_alphanumeric ](c: char) -> (r: bool)
    ensures
        r == alphanumeric(c),
        c <= '\u{7f}' ==> r == ('a' <= c <= 'z' || 'A' <= c <= 'Z' || '0' <= c <= '9'),
;

/// The predicate that holds of what stands between terms.
pub open spec fn between_terms() -> spec_fn(char) -> bool {
    |c: char| !alphanumeric(c)
}

/// The terms of a text: the runs of letters and numbers of its lower-case form.
pub open spec fn terms(text: Seq<char>) -> Seq<Seq<char>> {
    runs(lowercase(text), between_terms())
}

/// Splits a text into its terms.
pub fn tokenize(text: &str) -> (r: Vec<String>)
    ensures
        strings(r@) == terms(text@),
        runs(joined(strings(r@), seq![' ']), between_terms()) == strings(r@),
{
    let lowered = text.to_lowercase();
    split_terms(lowered.as_str())
}

/// The runs of letters and numbers of a text. Written with spaces between them, they are split the
/// same way again.
pub fn split_terms(lowered: &str) -> (r: Vec<String>)
    ensures
        strings(r@) == runs(lowered@, between_terms()),
        runs(joined(strings(r@), seq![' ']), between_terms()) == strings(r@),
{
    let space = ' ';
    let parts: bool = !space.is_alphanumeric();
    proof {
        assert(parts);
        lemma_runs(lowered@, between_terms());
        lemma_runs_of_joined(runs(lowered@, between_terms()), ' ', between_terms());
    }
    let chars = chars_of(lowered);
    let ghost all = lowered@;
    let mut done: Vec<String> = Vec::new();
    let mut run: Vec<char> = Vec::new();
    let mut i: usize = 0;
    while i < chars.len()
        invariant
            i <= chars.len(),
            chars@ == all,
            scan(all.take(i as int), between_terms()) == (strings(done@), run@),
        decreases chars.len() - i,
    {
        assert(all.take(i + 1).drop_last() =~= all.take(i as int));
        assert(all.take(i + 1).last() == all[i as int]);
        let c = chars[i];
        if c.is_alphanumeric() {
            run.push(c);
        } else if run.len() > 0 {
            let ghost before = strings(done@);
            let term = string_of(run.as_slice());
            done.push(term);
            assert(strings(done@) =~= before.push(run@));
            run = Vec::new();
            assert(run@ =~= Seq::<char>::empty());
        } else {
            assert(run@ =~= Seq::<char>::empty());
        }
        i += 1;
    }
    assert(all.take(chars.len() as int) =~= all);
    if run.len() > 0 {
        let ghost before = strings(done@);
        let term = string_of(run.as_slice());
        done.push(term);
        assert(strings(done@) =~= before.push(run@));
    }
    done
}

/// The terms of a text are not empty and hold nothing but letters and numbers, and one after the
/// other they are the lower-case form of the text without all else.
pub proof fn terms_are_letters_and_numbers(text: Seq<char>)
    ensures
        forall|i: int, j: int|
            0 <= i < terms(text).len() && 0 <= j < terms(text)[i].len() ==> alphanumeric(
                #[trigger] terms(text)[i][j],
            ),
        forall|i: int| 0 <= i < terms(text).len() ==> (#[trigger] terms(text)[i]).len() > 0,
        joined(terms(text), Seq::empty()) == without_separators(lowercase(text), between_terms()),
{
    let sep = between_terms();
    lemma_runs(lowercase(text), sep);
    let list = terms(text);
    assert forall|i: int, j: int| 0 <= i < list.len() && 0 <= j < list[i].len() implies alphanumeric(
        #[trigger] list[i][j],
    ) by {
        assert(free_of(list[i], sep));
        assert(!sep(list[i][j]));
    }
}

/// Splitting again changes nothing: the terms of a text, written with anything between them that is
/// no letter and no number, are terms of the same text again, as long as lowering leaves it as it
/// is; and a lowered text has the terms of the text itself, as long as lowering again leaves it as
/// it is.
pub proof fn splitting_again_changes_nothing(text: Seq<char>, mark: char)
    ensures
        !alphanumeric(mark) ==> runs(joined(terms(text), seq![mark]), between_terms()) == terms(
            text,
        ),
        !alphanumeric(mark) && lowercase(joined(terms(text), seq![mark])) == joined(
            terms(text),
            seq![mark],
        ) ==> terms(joined(terms(text), seq![mark])) == terms(text),
        lowercase(lowercase(text)) == lowercase(text) ==> terms(lowercase(text)) == terms(text),
{
    lemma_runs(lowercase(text), between_terms());
    if !alphanumeric(mark) {
        lemma_runs_of_joined(terms(text), mark, between_terms());
    }
}

// ---------------------------------------------------------------------------------------------
// Postings

/// How often `term` stands in a list of terms.
pub open spec fn occurrences(list: Seq<Seq<char>>, term: Seq<char>) -> nat
    decreases list.len(),
{
    if list.len() == 0 {
        0
    } else {
        occurrences(list.drop_last(), term) + (if list.last() == term {
            1nat
        } else {
            0nat
        })
    }
}

/// Terms are counted one by one, each as itself.
pub proof fn terms_are_counted_as_themselves(
    a: Seq<Seq<char>>,
    b: Seq<Seq<char>>,
    word: Seq<char>,
    term: Seq<char>,
)
    ensures
        occurrences(a + b, term) == occurrences(a, term) + occurrences(b, term),
        occurrences(seq![word], word) == 1,
        word != term ==> occurrences(seq![word], term) == 0,
    decreases b.len(),
{
    let one = seq![word];
    assert(one.last() == word);
    assert(occurrences(one.drop_last(), word) == 0);
    assert(occurrences(one.drop_last(), term) == 0);
    if b.len() == 0 {
        assert(a + b =~= a);
    } else {
        assert((a + b).drop_last() =~= a + b.drop_last());
        assert((a + b).last() == b.last());
        terms_are_counted_as_themselves(a, b.drop_last(), word, term);
    }
}

/// The documents that have `term`, in corpus order, each with how often it has it.
pub open spec fn posting_list(docs: Seq<Seq<Seq<char>>>, term: Seq<char>) -> Seq<(int, int)>
    decreases docs.len(),
{
    if docs.len() == 0 {
        Seq::empty()
    } else {
        let front = posting_list(docs.drop_last(), term);
        let n = occurrences(docs.last(), term);
        if n > 0 {
            front.push((docs.len() - 1, n as int))
        } else {
            front
        }
    }
}

/// The terms of each text.
pub open spec fn all_terms(texts: Seq<Seq<char>>) -> Seq<Seq<Seq<char>>> {
    Seq::new(texts.len(), |i: int| terms(texts[i]))
}

/// A posting list as numbers.
pub open spec fn numbers(list: Seq<(usize, usize)>) -> Seq<(int, int)> {
    Seq::new(list.len(), |i: int| (list[i].0 as int, list[i].1 as int))
}

/// The statistics of a corpus.
pub struct Bm25 {
    doc_lengths: Vec<usize>,
    vocabulary: StringHashMap<usize>,
    postings: Vec<Vec<(usize, usize)>>,
    texts: Ghost<Seq<Seq<char>>>,
}

/// The vocabulary numbers the posting lists: each list belongs to one term, and holds what the
/// documents say of it.
spec fn posted(
    vocabulary: Map<Seq<char>, usize>,
    postings: Seq<Vec<(usize, usize)>>,
    docs: Seq<Seq<Seq<char>>>,
) -> bool {
    &&& forall|t: Seq<char>| #[trigger]
        vocabulary.contains_key(t) ==> vocabulary[t] < postings.len() && numbers(
            postings[vocabulary[t] as int]@,
        ) == posting_list(docs, t) && posting_list(docs, t).len() > 0
    &&& forall|t: Seq<char>, u: Seq<char>| #[trigger]
        vocabulary.contains_key(t) && #[trigger] vocabulary.contains_key(u) && vocabulary[t]
            == vocabulary[u] ==> t == u
    &&& forall|t: Seq<char>| !#[trigger] vocabulary.contains_key(t) ==> posting_list(docs, t)
        == Seq::<(int, int)>::empty()
}

impl View for Bm25 {
    type V = Seq<Seq<char>>;

    /// The texts that the statistics describe.
    closed spec fn view(&self) -> Seq<Seq<char>> {
        self.texts@
    }
}

impl Bm25 {
    #[verifier::type_invariant]
    spec fn describes_its_texts(self) -> bool {
        let docs = all_terms(self.texts@);
        &&& self.doc_lengths@.len() == docs.len()
        &&& forall|i: int| 0 <= i < docs.len() ==> #[trigger] self.doc_lengths@[i] == docs[i].len()
        &&& posted(self.vocabulary@, self.postings@, docs)
    }
}

/// For each of the words that the documents have, its posting list, in the order of the words.
pub open spec fn matching_lists(
    docs: Seq<Seq<Seq<char>>>,
    query: Seq<Seq<char>>,
) -> Seq<Seq<(int, int)>>
    decreases query.len(),
{
    if query.len() == 0 {
        Seq::empty()
    } else {
        let front = matching_lists(docs, query.drop_last());
        let list = posting_list(docs, query.last());
        if list.len() > 0 {
            front.push(list)
        } else {
            front
        }
    }
}

/// The words of a query are looked up in their order: each brings its own list, and one that no
/// document has brings none.
pub proof fn words_are_looked_up_in_order(
    docs: Seq<Seq<Seq<char>>>,
    a: Seq<Seq<char>>,
    b: Seq<Seq<char>>,
    word: Seq<char>,
)
    ensures
        matching_lists(docs, a + b) == matching_lists(docs, a) + matching_lists(docs, b),
        posting_list(docs, word).len() > 0 ==> matching_lists(docs, seq![word]) == seq![posting_list(
            docs,
            word,
        )],
        posting_list(docs, word).len() == 0 ==> matching_lists(docs, seq![word]).len() == 0,
    decreases b.len(),
{
    let one = seq![word];
    assert(one.last() == word);
    assert(matching_lists(docs, one.drop_last()) =~= Seq::<Seq<(int, int)>>::empty());
    if posting_list(docs, word).len() > 0 {
        assert(matching_lists(docs, one) =~= seq![posting_list(docs, word)]);
    }
    if b.len() == 0 {
        assert(a + b =~= a);
        assert(matching_lists(docs, a) + matching_lists(docs, b) =~= matching_lists(docs, a));
    } else {
        assert((a + b).drop_last() =~= a + b.drop_last());
        assert((a + b).last() == b.last());
        words_are_looked_up_in_order(docs, a, b.drop_last(), word);
        let list = posting_list(docs, b.last());
        assert((matching_lists(docs, a) + matching_lists(docs, b.drop_last())).push(list)
            =~= matching_lists(docs, a) + matching_lists(docs, b.drop_last()).push(list));
    }
}

/// The posting names one of the texts, and says how often it has one of the words of the query.
pub open spec fn tells_occurrences(
    posting: (usize, usize),
    texts: Seq<Seq<char>>,
    query: Seq<Seq<char>>,
) -> bool {
    &&& posting.0 < texts.len()
    &&& posting.1 > 0
    &&& exists|w: int|
        0 <= w < query.len() && posting.1 == occurrences(
            terms(texts[posting.0 as int]),
            #[trigger] query[w],
        )
}

proof fn lemma_lists_of_words(docs: Seq<Seq<Seq<char>>>, query: Seq<Seq<char>>, i: int)
    requires
        0 <= i < matching_lists(docs, query).len(),
    ensures
        exists|w: int|
            0 <= w < query.len() && matching_lists(docs, query)[i] == posting_list(
                docs,
                #[trigger] query[w],
            ),
    decreases query.len(),
{
    let front = matching_lists(docs, query.drop_last());
    if i < front.len() {
        lemma_lists_of_words(docs, query.drop_last(), i);
        let w = choose|w: int|
            0 <= w < query.drop_last().len() && front[i] == posting_list(
                docs,
                #[trigger] query.drop_last()[w],
            );
        assert(query[w] == query.drop_last()[w]);
    } else {
        assert(query[query.len() - 1] == query.last());
    }
}

/// Posting lists as numbers.
pub open spec fn all_numbers(found: Seq<&Vec<(usize, usize)>>) -> Seq<Seq<(int, int)>> {
    Seq::new(found.len(), |i: int| numbers(found[i]@))
}

proof fn lemma_term_added(
    done: Seq<Seq<Seq<char>>>,
    seen: Seq<Seq<char>>,
    word: Seq<char>,
    term: Seq<char>,
)
    ensures
        ({
            let before = posting_list(done.push(seen), term);
            let after = posting_list(done.push(seen.push(word)), term);
            let d = done.len() as int;
            if term != word {
                after == before
            } else if before.len() > 0 && before.last().0 == d {
                after == before.drop_last().push((d, before.last().1 + 1))
            } else {
                after == before.push((d, 1))
            }
        }),
        posting_list(done.push(seen), term) == (if occurrences(seen, term) > 0 {
            posting_list(done, term).push((done.len() as int, occurrences(seen, term) as int))
        } else {
            posting_list(done, term)
        }),
{
    assert(done.push(seen).drop_last() =~= done);
    assert(done.push(seen.push(word)).drop_last() =~= done);
    assert(seen.push(word).drop_last() =~= seen);
    posting_lists_run_upwards(done, term);
    let base = posting_list(done, term);
    if occurrences(seen, term) > 0 {
        assert(base.push((done.len() as int, occurrences(seen, term) as int)).drop_last() =~= base);
    } else if base.len() > 0 {
        assert(base[base.len() - 1].0 < done.len());
    }
}

/// A posting list names every document that has the term and no other, in corpus order, with the
/// number of times.
pub proof fn posting_lists_run_upwards(docs: Seq<Seq<Seq<char>>>, term: Seq<char>)
    ensures
        ({
            let list = posting_list(docs, term);
            &&& forall|i: int|
                0 <= i < list.len() ==> 0 <= (#[trigger] list[i]).0 < docs.len() && list[i].1
                    == occurrences(docs[list[i].0], term) && list[i].1 > 0
            &&& forall|i: int, j: int|
                0 <= i < j < list.len() ==> (#[trigger] list[i]).0 < (#[trigger] list[j]).0
            &&& forall|d: int|
                0 <= d < docs.len() && occurrences(#[trigger] docs[d], term) > 0 ==> exists|i: int|
                    0 <= i < list.len() && (#[trigger] list[i]).0 == d
        }),
    decreases docs.len(),
{
    if docs.len() > 0 {
        let front = docs.drop_last();
        posting_lists_run_upwards(front, term);
        let base = posting_list(front, term);
        let list = posting_list(docs, term);
        assert forall|i: int| 0 <= i < list.len() implies 0 <= (#[trigger] list[i]).0 < docs.len()
            && list[i].1 == occurrences(docs[list[i].0], term) && list[i].1 > 0 by {
            if i < base.len() {
                assert(list[i] == base[i]);
                assert(front[base[i].0] == docs[base[i].0]);
            }
        }
        assert forall|i: int, j: int| 0 <= i < j < list.len() implies (#[trigger] list[i]).0 < (
        #[trigger] list[j]).0 by {
            assert(list[i] == base[i]);
            if j < base.len() {
                assert(list[j] == base[j]);
            }
        }
        assert forall|d: int|
            0 <= d < docs.len() && occurrences(#[trigger] docs[d], term) > 0 implies exists|i: int|
            0 <= i < list.len() && (#[trigger] list[i]).0 == d by {
            if d < front.len() {
                assert(front[d] == docs[d]);
                let i = choose|i: int| 0 <= i < base.len() && (#[trigger] base[i]).0 == d;
                assert(list[i].0 == d);
            } else {
                assert(list[list.len() - 1].0 == d);
            }
        }
    }
}

proof fn lemma_empty_document(docs: Seq<Seq<Seq<char>>>, term: Seq<char>)
    ensures
        posting_list(docs.push(Seq::empty()), term) == posting_list(docs, term),
{
    assert(docs.push(Seq::empty()).drop_last() =~= docs);
}

proof fn lemma_occurrences_bound(list: Seq<Seq<char>>, term: Seq<char>)
    ensures
        occurrences(list, term) <= list.len(),
    decreases list.len(),
{
    if list.len() > 0 {
        lemma_occurrences_bound(list.drop_last(), term);
    }
}

/// Enters one more term of the document that is being read.
fn post_term(
    vocabulary: &mut StringHashMap<usize>,
    postings: &mut Vec<Vec<(usize, usize)>>,
    doc: usize,
    term: String,
    Ghost(done): Ghost<Seq<Seq<Seq<char>>>>,
    Ghost(seen): Ghost<Seq<Seq<char>>>,
)
    requires
        doc == done.len(),
        seen.len() < usize::MAX,
        posted(old(vocabulary)@, old(postings)@, done.push(seen)),
    ensures
        posted(final(vocabulary)@, final(postings)@, done.push(seen.push(term@))),
{
    let ghost before = done.push(seen);
    let ghost after = done.push(seen.push(term@));
    proof {
        assert forall|t: Seq<char>| t != term@ implies #[trigger] posting_list(after, t)
            == posting_list(before, t) by {
            lemma_term_added(done, seen, term@, t);
        }
        lemma_term_added(done, seen, term@, term@);
        posting_lists_run_upwards(before, term@);
        lemma_occurrences_bound(seen, term@);
        assert(before[done.len() as int] == seen);
    }
    match vocabulary.get(term.as_str()) {
        Some(found) => {
            let id: usize = *found;
            let ghost old_list = postings@[id as int]@;
            assert(numbers(old_list) == posting_list(before, term@));
            let mut list: Vec<(usize, usize)> = Vec::new();
            std::mem::swap(&mut list, &mut postings[id]);
            let n: usize = list.len();
            assert(list@ == old_list);
            if n > 0 && list[n - 1].0 == doc {
                let count: usize = list[n - 1].1;
                assert(numbers(old_list)[n - 1] == (doc as int, count as int));
                assert(count == occurrences(seen, term@));
                list.set(n - 1, (doc, count + 1));
                assert(numbers(list@) =~= numbers(old_list).drop_last().push(
                    (doc as int, count + 1),
                ));
            } else {
                assert(numbers(old_list).len() == old_list.len());
                assert(n > 0 ==> numbers(old_list).last().0 == old_list[n - 1].0);
                list.push((doc, 1));
                assert(numbers(list@) =~= numbers(old_list).push((doc as int, 1)));
            }
            let ghost new_list = list@;
            std::mem::swap(&mut list, &mut postings[id]);
            assert(postings@ =~= old(postings)@.update(id as int, postings@[id as int]));
            assert(postings@[id as int]@ == new_list);
            assert forall|t: Seq<char>| #[trigger] vocabulary@.contains_key(t) implies vocabulary@[t]
                < postings@.len() && numbers(postings@[vocabulary@[t] as int]@) == posting_list(
                after,
                t,
            ) by {
                if t != term@ {
                    assert(vocabulary@[t] != id);
                    assert(posting_list(after, t) == posting_list(before, t));
                }
            }
            assert forall|t: Seq<char>| !#[trigger] vocabulary@.contains_key(t) implies posting_list(
                after,
                t,
            ) == Seq::<(int, int)>::empty() by {
                assert(posting_list(after, t) == posting_list(before, t));
            }
        },
        None => {
            let id: usize = postings.len();
            let mut list: Vec<(usize, usize)> = Vec::new();
            list.push((doc, 1));
            assert(posting_list(before, term@) == Seq::<(int, int)>::empty());
            assert(numbers(list@) =~= Seq::<(int, int)>::empty().push((doc as int, 1)));
            postings.push(list);
            let ghost word = term@;
            vocabulary.insert(term, id);
            assert forall|t: Seq<char>| #[trigger] vocabulary@.contains_key(t) implies vocabulary@[t]
                < postings@.len() && numbers(postings@[vocabulary@[t] as int]@) == posting_list(
                after,
                t,
            ) by {
                if t != word {
                    assert(old(vocabulary)@.contains_key(t));
                    assert(posting_list(after, t) == posting_list(before, t));
                }
            }
            assert forall|t: Seq<char>, u: Seq<char>| #[trigger]
                vocabulary@.contains_key(t) && #[trigger] vocabulary@.contains_key(u)
                    && vocabulary@[t] == vocabulary@[u] implies t == u by {
                if t != word {
                    assert(old(vocabulary)@.contains_key(t));
                }
                if u != word {
                    assert(old(vocabulary)@.contains_key(u));
                }
            }
            assert forall|t: Seq<char>| !#[trigger] vocabulary@.contains_key(t) implies posting_list(
                after,
                t,
            ) == Seq::<(int, int)>::empty() by {
                assert(!old(vocabulary)@.contains_key(t));
                assert(posting_list(after, t) == posting_list(before, t));
            }
        },
    }
}

impl Bm25 {
    /// Reads the statistics of the texts.
    pub fn new(texts: &[String]) -> (r: Self)
        ensures
            r@ == strings(texts@),
    {
        let ghost all = strings(texts@);
        let ghost docs = all_terms(all);
        let mut doc_lengths: Vec<usize> = Vec::new();
        let mut vocabulary: StringHashMap<usize> = StringHashMap::new();
        let mut postings: Vec<Vec<(usize, usize)>> = Vec::new();
        let mut doc: usize = 0;
        while doc < texts.len()
            invariant
                doc <= texts.len(),
                all == strings(texts@),
                docs == all_terms(all),
                doc_lengths@.len() == doc,
                forall|i: int| 0 <= i < doc ==> #[trigger] doc_lengths@[i] == docs[i].len(),
                posted(vocabulary@, postings@, docs.take(doc as int)),
            decreases texts.len() - doc,
        {
            let tokens = tokenize(texts[doc].as_str());
            let ghost list = strings(tokens@);
            let ghost done = docs.take(doc as int);
            assert(list == docs[doc as int]);
            let count: usize = tokens.len();
            assert(count == list.len());
            doc_lengths.push(count);
            proof {
                assert forall|t: Seq<char>| #[trigger]
                    posting_list(done.push(Seq::empty()), t) == posting_list(done, t) by {
                    lemma_empty_document(done, t);
                }
                assert(list.take(0) =~= Seq::<Seq<char>>::empty());
            }
            let mut i: usize = 0;
            while i < count
                invariant
                    i <= count,
                    count == tokens@.len(),
                    count == list.len(),
                    list == strings(tokens@),
                    doc == done.len(),
                    posted(vocabulary@, postings@, done.push(list.take(i as int))),
                decreases count - i,
            {
                let term = tokens[i].clone();
                assert(list.take(i + 1) =~= list.take(i as int).push(term@));
                post_term(
                    &mut vocabulary,
                    &mut postings,
                    doc,
                    term,
                    Ghost(done),
                    Ghost(list.take(i as int)),
                );
                i += 1;
            }
            assert(list.take(count as int) =~= list);
            assert(done.push(list) =~= docs.take(doc + 1));
            doc += 1;
        }
        assert(docs.take(texts.len() as int) =~= docs);
        Bm25 { doc_lengths, vocabulary, postings, texts: Ghost(all) }
    }

    /// How many documents there are.
    pub fn document_count(&self) -> (n: usize)
        ensures
            n == self@.len(),
    {
        proof {
            use_type_invariant(self);
        }
        self.doc_lengths.len()
    }

    /// How many terms a document has.
    pub fn document_length(&self, doc: usize) -> (n: usize)
        requires
            doc < self@.len(),
        ensures
            n == terms(self@[doc as int]).len(),
    {
        proof {
            use_type_invariant(self);
        }
        assert(self.doc_lengths@[doc as int] == all_terms(self@)[doc as int].len());
        self.doc_lengths[doc]
    }

    /// The posting lists of the words of a query that occur in the corpus: only the documents in
    /// them can score, all others stay at zero.
    pub fn query_postings<'a>(&'a self, query: &str) -> (r: Vec<&'a Vec<(usize, usize)>>)
        ensures
            all_numbers(r@) == matching_lists(all_terms(self@), terms(query@)),
            forall|i: int, k: int|
                0 <= i < r@.len() && 0 <= k < r@[i]@.len() ==> tells_occurrences(
                    #[trigger] r@[i]@[k],
                    self@,
                    terms(query@),
                ),
    {
        proof {
            use_type_invariant(self);
        }
        let ghost docs = all_terms(self@);
        let tokens = tokenize(query);
        let ghost list = strings(tokens@);
        let mut out: Vec<&'a Vec<(usize, usize)>> = Vec::new();
        let mut i: usize = 0;
        assert(all_numbers(out@) =~= matching_lists(docs, list.take(0)));
        while i < tokens.len()
            invariant
                i <= tokens.len(),
                list == strings(tokens@),
                docs == all_terms(self@),
                posted(self.vocabulary@, self.postings@, docs),
                all_numbers(out@) == matching_lists(docs, list.take(i as int)),
            decreases tokens.len() - i,
        {
            assert(list.take(i + 1).drop_last() =~= list.take(i as int));
            assert(list.take(i + 1).last() == tokens@[i as int]@);
            let ghost before = all_numbers(out@);
            if let Some(id) = self.vocabulary.get(tokens[i].as_str()) {
                out.push(&self.postings[*id]);
                assert(all_numbers(out@) =~= before.push(posting_list(docs, tokens@[i as int]@)));
            }
            i += 1;
        }
        assert(list.take(tokens.len() as int) =~= list);
        proof {
            assert(list.take(tokens.len() as int) =~= list);
            let numbered = all_numbers(out@);
            assert forall|i: int, k: int|
                0 <= i < out@.len() && 0 <= k < out@[i]@.len() implies tells_occurrences(
                #[trigger] out@[i]@[k],
                self@,
                terms(query@),
            ) by {
                assert(numbered[i] == numbers(out@[i]@));
                lemma_lists_of_words(docs, list, i);
                let w = choose|w: int|
                    0 <= w < list.len() && matching_lists(docs, list)[i] == posting_list(
                        docs,
                        #[trigger] list[w],
                    );
                posting_lists_run_upwards(docs, list[w]);
                let entry = posting_list(docs, list[w])[k];
                assert(entry == (out@[i]@[k].0 as int, out@[i]@[k].1 as int));
                assert(docs[entry.0] == terms(self@[entry.0]));
            }
        }
        out
    }
}

} // verus!
