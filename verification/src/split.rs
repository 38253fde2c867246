//! Cutting sequences at separators.

use vstd::prelude::*;

use crate::text::{
    chars_of, drop_leading, drop_trailing, ends_with, find_from, is_space, joined,
    lemma_find_from, lists, occurs_at, position_from, spaces, trim, whitespace,
};

verus! {

/// The runs of non-separators that end before the end of `s`, and the run that `s` ends in
/// (empty where `s` ends in a separator).
pub open spec fn scan<T>(s: Seq<T>, sep: spec_fn(T) -> bool) -> (Seq<Seq<T>>, Seq<T>)
    decreases s.len(),
{
    if s.len() == 0 {
        (Seq::empty(), Seq::empty())
    } else {
        let (done, run) = scan(s.drop_last(), sep);
        if !sep(s.last()) {
            (done, run.push(s.last()))
        } else if run.len() > 0 {
            (done.push(run), Seq::empty())
        } else {
            (done, run)
        }
    }
}

/// The maximal runs of elements of `s` that are not separators.
pub open spec fn runs<T>(s: Seq<T>, sep: spec_fn(T) -> bool) -> Seq<Seq<T>> {
    let (done, run) = scan(s, sep);
    if run.len() > 0 {
        done.push(run)
    } else {
        done
    }
}

/// The words of a text: its maximal runs of characters that are not white space.
pub open spec fn words(s: Seq<char>) -> Seq<Seq<char>> {
    runs(s, spaces())
}

/// A list whose members are proper words: not empty and free of white space.
pub open spec fn proper_words(ws: Seq<Seq<char>>) -> bool {
    forall|i: int| 0 <= i < ws.len() ==> proper_word(#[trigger] ws[i])
}

pub open spec fn proper_word(w: Seq<char>) -> bool {
    w.len() > 0 && forall|j: int| 0 <= j < w.len() ==> !is_space(#[trigger] w[j])
}

pub proof fn lemma_scan_proper(s: Seq<char>)
    ensures
        proper_words(scan(s, spaces()).0),
        forall|j: int|
            0 <= j < scan(s, spaces()).1.len() ==> !is_space(#[trigger] scan(s, spaces()).1[j]),
    decreases s.len(),
{
    if s.len() > 0 {
        lemma_scan_proper(s.drop_last());
    }
}

/// Words are not empty and hold no white space.
pub proof fn lemma_words_proper(s: Seq<char>)
    ensures
        proper_words(words(s)),
{
    lemma_scan_proper(s);
}

/// Reading on over a stretch without separators only makes the last run longer.
pub proof fn lemma_scan_word<T>(s: Seq<T>, w: Seq<T>, sep: spec_fn(T) -> bool)
    requires
        forall|j: int| 0 <= j < w.len() ==> !sep(#[trigger] w[j]),
    ensures
        scan(s + w, sep) == (scan(s, sep).0, scan(s, sep).1 + w),
    decreases w.len(),
{
    if w.len() == 0 {
        assert(s + w =~= s);
        assert(scan(s, sep).1 + w =~= scan(s, sep).1);
    } else {
        lemma_scan_word(s, w.drop_last(), sep);
        assert((s + w).drop_last() =~= s + w.drop_last());
        assert(!sep(w[w.len() - 1]));
        assert((scan(s, sep).1 + w.drop_last()).push(w.last()) =~= scan(s, sep).1 + w);
    }
}

/// Every list is a run: not empty, and free of separators.
pub open spec fn proper_runs<T>(list: Seq<Seq<T>>, sep: spec_fn(T) -> bool) -> bool {
    forall|i: int|
        0 <= i < list.len() ==> (#[trigger] list[i]).len() > 0 && free_of(list[i], sep)
}

/// No element is a separator.
pub open spec fn free_of<T>(s: Seq<T>, sep: spec_fn(T) -> bool) -> bool {
    forall|j: int| 0 <= j < s.len() ==> !sep(#[trigger] s[j])
}

/// The elements that are no separators.
pub open spec fn without_separators<T>(s: Seq<T>, sep: spec_fn(T) -> bool) -> Seq<T>
    decreases s.len(),
{
    if s.len() == 0 {
        s
    } else {
        let front = without_separators(s.drop_last(), sep);
        if sep(s.last()) {
            front
        } else {
            front.push(s.last())
        }
    }
}

proof fn lemma_scan_runs(s: Seq<char>, sep: spec_fn(char) -> bool)
    ensures
        proper_runs(scan(s, sep).0, sep),
        free_of(scan(s, sep).1, sep),
        joined(scan(s, sep).0, Seq::empty()) + scan(s, sep).1 == without_separators(s, sep),
    decreases s.len(),
{
    let none = Seq::<char>::empty();
    if s.len() == 0 {
        assert(joined(scan(s, sep).0, none) + scan(s, sep).1 =~= without_separators(s, sep));
    } else {
        lemma_scan_runs(s.drop_last(), sep);
        let (done, run) = scan(s.drop_last(), sep);
        if !sep(s.last()) {
            assert(joined(done, none) + run.push(s.last()) =~= (joined(done, none) + run).push(
                s.last(),
            ));
        } else if run.len() > 0 {
            lemma_joined_push(done, run);
            assert(joined(done.push(run), none) + none =~= joined(done, none) + run);
        }
    }
}

proof fn lemma_joined_push(list: Seq<Seq<char>>, last: Seq<char>)
    ensures
        joined(list.push(last), Seq::empty()) == joined(list, Seq::empty()) + last,
{
    let all = list.push(last);
    assert(all.drop_last() =~= list);
    if list.len() == 0 {
        assert(joined(all, Seq::empty()) =~= joined(list, Seq::empty()) + last);
    } else {
        assert(joined(list, Seq::empty()) + Seq::<char>::empty() =~= joined(list, Seq::empty()));
    }
}

/// Runs are not empty and hold no separators, and one after the other they are the text without its
/// separators.
pub proof fn lemma_runs(s: Seq<char>, sep: spec_fn(char) -> bool)
    ensures
        proper_runs(runs(s, sep), sep),
        joined(runs(s, sep), Seq::empty()) == without_separators(s, sep),
{
    lemma_scan_runs(s, sep);
    let (done, run) = scan(s, sep);
    if run.len() > 0 {
        lemma_joined_push(done, run);
    } else {
        assert(joined(done, Seq::empty()) + run =~= joined(done, Seq::empty()));
    }
}

/// Runs written with a separator between them are read as the same runs.
pub proof fn lemma_runs_of_joined(list: Seq<Seq<char>>, mark: char, sep: spec_fn(char) -> bool)
    requires
        proper_runs(list, sep),
        sep(mark),
    ensures
        runs(joined(list, seq![mark]), sep) == list,
        list.len() > 0 ==> scan(joined(list, seq![mark]), sep) == (list.drop_last(), list.last()),
    decreases list.len(),
{
    if list.len() == 0 {
        assert(runs(joined(list, seq![mark]), sep) =~= list);
    } else {
        let front = list.drop_last();
        assert(list[list.len() - 1].len() > 0 && free_of(list[list.len() - 1], sep));
        assert(front.push(list.last()) =~= list);
        if list.len() == 1 {
            lemma_scan_word(Seq::empty(), list[0], sep);
            assert(Seq::empty() + list[0] =~= list[0]);
            assert(front =~= Seq::<Seq<char>>::empty());
        } else {
            assert forall|i: int| 0 <= i < front.len() implies (#[trigger] front[i]).len() > 0
                && free_of(front[i], sep) by {
                assert(front[i] == list[i]);
            }
            lemma_runs_of_joined(front, mark, sep);
            let text = joined(front, seq![mark]) + seq![mark];
            assert(text.drop_last() =~= joined(front, seq![mark]));
            assert(front[front.len() - 1].len() > 0);
            assert(front.drop_last().push(front.last()) =~= front);
            assert(scan(text, sep) == (front, Seq::<char>::empty()));
            lemma_scan_word(text, list.last(), sep);
            assert(Seq::<char>::empty() + list.last() =~= list.last());
        }
    }
}

/// What the text `w1 w2 .. wn` scans to.
pub proof fn lemma_scan_joined(ws: Seq<Seq<char>>)
    requires
        proper_words(ws),
    ensures
        ws.len() > 0 ==> scan(joined(ws, seq![' ']), spaces()) == (ws.drop_last(), ws.last()),
        ws.len() == 0 ==> scan(joined(ws, seq![' ']), spaces()) == (
            Seq::<Seq<char>>::empty(),
            Seq::<char>::empty(),
        ),
    decreases ws.len(),
{
    let space = seq![' '];
    if ws.len() == 1 {
        assert(proper_word(ws[0]));
        lemma_scan_word(Seq::empty(), ws[0], spaces());
        assert(Seq::empty() + ws[0] =~= ws[0]);
        assert(ws.drop_last() =~= Seq::<Seq<char>>::empty());
    } else if ws.len() > 1 {
        let front = ws.drop_last();
        lemma_scan_joined(front);
        let text = joined(front, space) + space;
        assert(text.drop_last() =~= joined(front, space));
        assert(proper_word(ws[ws.len() - 2]));
        assert(front.last() == ws[ws.len() - 2]);
        assert(front.drop_last().push(front.last()) =~= front);
        assert(scan(text, spaces()) == (front, Seq::<char>::empty()));
        assert(proper_word(ws[ws.len() - 1]));
        lemma_scan_word(text, ws.last(), spaces());
        assert(Seq::<char>::empty() + ws.last() =~= ws.last());
    }
}

/// Words written out with single spaces between them read back as the same words, with or
/// without a space at the end.
pub proof fn lemma_words_of_joined(ws: Seq<Seq<char>>)
    requires
        proper_words(ws),
    ensures
        words(joined(ws, seq![' '])) == ws,
        words(joined(ws, seq![' ']).push(' ')) == ws,
{
    lemma_scan_joined(ws);
    let text = joined(ws, seq![' ']);
    assert(text.push(' ').drop_last() =~= text);
    if ws.len() > 0 {
        assert(proper_word(ws[ws.len() - 1]));
        assert(ws.drop_last().push(ws.last()) =~= ws);
    }
}

spec fn tally(state: (Seq<Seq<char>>, Seq<char>)) -> nat {
    if state.1.len() > 0 {
        state.0.len() + 1
    } else {
        state.0.len()
    }
}

proof fn lemma_scan_concat(a: Seq<char>, b: Seq<char>)
    ensures
        ({
            let whole = scan(a + b, spaces());
            let left = scan(a, spaces());
            let right = scan(b, spaces());
            &&& tally(whole) <= tally(left) + tally(right)
            &&& tally(left) <= tally(whole)
            &&& whole.0.len() <= tally(left) + right.0.len()
            &&& tally(left) <= whole.0.len() || whole.1.len() > 0 || b.len() == 0
            &&& whole.1 == right.1 || (right.0.len() == 0 && whole.0 == left.0 && whole.1 == left.1
                + right.1)
        }),
    decreases b.len(),
{
    let left = scan(a, spaces());
    if b.len() == 0 {
        assert(a + b =~= a);
        assert(left.1 + Seq::<char>::empty() =~= left.1);
    } else {
        lemma_scan_concat(a, b.drop_last());
        assert((a + b).drop_last() =~= a + b.drop_last());
        assert((a + b).last() == b.last());
        let prior = scan(b.drop_last(), spaces());
        if !is_space(b.last()) {
            assert((left.1 + prior.1).push(b.last()) =~= left.1 + prior.1.push(b.last()));
        }
    }
}

/// Writing two texts one after the other never makes more words than the two have, and never
/// fewer than the first has.
pub proof fn lemma_words_concat(a: Seq<char>, b: Seq<char>)
    ensures
        words(a + b).len() <= words(a).len() + words(b).len(),
        words(a).len() <= words(a + b).len(),
{
    lemma_scan_concat(a, b);
}

proof fn lemma_scan_occurs(s: Seq<char>, w: Seq<char>)
    ensures
        ends_with(s, scan(s, spaces()).1),
        scan(s, spaces()).0.contains(w) ==> exists|p: int| occurs_at(s, w, p),
    decreases s.len(),
{
    if s.len() == 0 {
        assert(s.subrange(0, 0) =~= scan(s, spaces()).1);
    } else {
        let front = s.drop_last();
        lemma_scan_occurs(front, w);
        let (done, run) = scan(front, spaces());
        let now = scan(s, spaces());
        let k = front.len() - run.len();
        assert(front.subrange(k, front.len() as int) == run);
        if !is_space(s.last()) {
            assert(s.subrange(k, s.len() as int) =~= run.push(s.last()));
        } else {
            assert(s.subrange(s.len() as int, s.len() as int) =~= now.1);
        }
        if now.0.contains(w) {
            let i = choose|i: int| 0 <= i < now.0.len() && now.0[i] == w;
            if i < done.len() {
                assert(done[i] == w);
                let p = choose|p: int| occurs_at(front, w, p);
                assert(s.subrange(p, p + w.len()) =~= front.subrange(p, p + w.len()));
                assert(occurs_at(s, w, p));
            } else {
                assert(s.subrange(k, k + w.len()) =~= run);
                assert(occurs_at(s, w, k));
            }
        }
    }
}

/// A word of a text stands in it.
pub proof fn lemma_word_occurs(s: Seq<char>, w: Seq<char>)
    requires
        words(s).contains(w),
    ensures
        exists|p: int| occurs_at(s, w, p),
{
    lemma_scan_occurs(s, w);
    let (done, run) = scan(s, spaces());
    let i = choose|i: int| 0 <= i < words(s).len() && words(s)[i] == w;
    if i < done.len() {
        assert(done[i] == w);
    } else {
        assert(occurs_at(s, w, s.len() - run.len()));
    }
}

proof fn lemma_scan_blank(s: Seq<char>)
    ensures
        (scan(s, spaces()).0.len() == 0 && scan(s, spaces()).1.len() == 0) <==> (forall|i: int|
            0 <= i < s.len() ==> is_space(#[trigger] s[i])),
    decreases s.len(),
{
    if s.len() > 0 {
        lemma_scan_blank(s.drop_last());
        assert forall|i: int| 0 <= i < s.len() - 1 implies s[i] == #[trigger] s.drop_last()[i] by {}
        if forall|i: int| 0 <= i < s.len() ==> is_space(#[trigger] s[i]) {
            assert(is_space(s[s.len() - 1]));
            assert forall|i: int| 0 <= i < s.drop_last().len() implies is_space(
                #[trigger] s.drop_last()[i],
            ) by {
                assert(is_space(s[i]));
            }
        }
        if forall|i: int| 0 <= i < s.drop_last().len() ==> is_space(#[trigger] s.drop_last()[i]) {
            if is_space(s.last()) {
                assert forall|i: int| 0 <= i < s.len() implies is_space(#[trigger] s[i]) by {
                    if i < s.len() - 1 {
                        assert(is_space(s.drop_last()[i]));
                    }
                }
            }
        }
    }
}

proof fn lemma_drop_leading_blank(s: Seq<char>)
    ensures
        drop_leading(s, spaces()).len() == 0 <==> (forall|i: int|
            0 <= i < s.len() ==> is_space(#[trigger] s[i])),
        drop_leading(s, spaces()).len() > 0 ==> !is_space(drop_leading(s, spaces())[0]),
    decreases s.len(),
{
    if s.len() > 0 && is_space(s[0]) {
        lemma_drop_leading_blank(s.skip(1));
        assert forall|i: int| 0 <= i < s.skip(1).len() implies s.skip(1)[i] == #[trigger] s[i
            + 1] by {}
        if forall|i: int| 0 <= i < s.skip(1).len() ==> is_space(#[trigger] s.skip(1)[i]) {
            assert forall|i: int| 0 <= i < s.len() implies is_space(#[trigger] s[i]) by {
                if i > 0 {
                    assert(is_space(s.skip(1)[i - 1]));
                }
            }
        }
        if forall|i: int| 0 <= i < s.len() ==> is_space(#[trigger] s[i]) {
            assert forall|i: int| 0 <= i < s.skip(1).len() implies is_space(
                #[trigger] s.skip(1)[i],
            ) by {
                assert(is_space(s[i + 1]));
            }
        }
    }
}

proof fn lemma_drop_trailing_keeps(s: Seq<char>)
    requires
        s.len() > 0,
        !is_space(s[0]),
    ensures
        drop_trailing(s, spaces()).len() > 0,
    decreases s.len(),
{
    if is_space(s.last()) {
        assert(s.len() > 1);
        lemma_drop_trailing_keeps(s.drop_last());
    }
}

/// Behind a separator reading begins anew.
pub proof fn lemma_words_behind_space(a: Seq<char>, b: Seq<char>)
    requires
        a.len() > 0,
        is_space(a.last()),
    ensures
        scan(a + b, spaces()) == (words(a) + scan(b, spaces()).0, scan(b, spaces()).1),
        words(a + b) == words(a) + words(b),
    decreases b.len(),
{
    if b.len() == 0 {
        assert(a + b =~= a);
        assert(words(a) + Seq::<Seq<char>>::empty() =~= words(a));
    } else {
        lemma_words_behind_space(a, b.drop_last());
        assert((a + b).drop_last() =~= a + b.drop_last());
        let (done, run) = scan(b.drop_last(), spaces());
        assert((words(a) + done).push(run) =~= words(a) + done.push(run));
    }
    let (done, run) = scan(b, spaces());
    assert((words(a) + done).push(run) =~= words(a) + done.push(run));
}

/// White space at the end of a text adds no word.
pub proof fn lemma_words_push_space(s: Seq<char>, c: char)
    requires
        is_space(c),
    ensures
        words(s.push(c)) == words(s),
{
    assert(s.push(c).drop_last() =~= s);
}

/// A text has no word exactly when all its characters are white space.
pub proof fn lemma_wordless(s: Seq<char>)
    ensures
        words(s).len() == 0 <==> (forall|i: int| 0 <= i < s.len() ==> is_space(#[trigger] s[i])),
{
    lemma_scan_blank(s);
}

/// A text is blank exactly when it has no word.
pub proof fn lemma_blank(s: Seq<char>)
    ensures
        trim(s).len() == 0 <==> words(s).len() == 0,
{
    lemma_scan_blank(s);
    lemma_drop_leading_blank(s);
    let rest = drop_leading(s, spaces());
    if rest.len() > 0 {
        lemma_drop_trailing_keeps(rest);
    }
}

/// Splits a text into its words.
pub fn split_words(s: &[char]) -> (r: Vec<Vec<char>>)
    ensures
        lists(r@) == words(s@),
{
    let mut done: Vec<Vec<char>> = Vec::new();
    let mut run: Vec<char> = Vec::new();
    let mut i: usize = 0;
    while i < s.len()
        invariant
            i <= s.len(),
            scan(s@.take(i as int), spaces()) == (lists(done@), run@),
        decreases s.len() - i,
    {
        assert(s@.take(i + 1).drop_last() =~= s@.take(i as int));
        assert(s@.take(i + 1).last() == s@[i as int]);
        let c = s[i];
        if !whitespace(c) {
            run.push(c);
        } else if run.len() > 0 {
            let ghost before = lists(done@);
            let ghost word = run@;
            done.push(run);
            run = Vec::new();
            assert(lists(done@) =~= before.push(word));
            assert(run@ =~= Seq::<char>::empty());
        } else {
            assert(run@ =~= Seq::<char>::empty());
        }
        i += 1;
    }
    assert(s@.take(s.len() as int) =~= s@);
    let ghost before = lists(done@);
    let ghost word = run@;
    if run.len() > 0 {
        done.push(run);
        assert(lists(done@) =~= before.push(word));
    }
    done
}

/// The words of a text.
pub fn words_of(s: &str) -> (r: Vec<Vec<char>>)
    ensures
        lists(r@) == words(s@),
{
    let chars = chars_of(s);
    split_words(chars.as_slice())
}

/// How many words a text has.
pub fn count_words(s: &str) -> (n: usize)
    ensures
        n == words(s@).len(),
{
    let found = words_of(s);
    assert(lists(found@).len() == found@.len());
    found.len()
}

// ---------------------------------------------------------------------------------------------
// Pieces

/// `s` cut at every separator: one piece more than there are separators.
pub open spec fn pieces<T>(s: Seq<T>, sep: spec_fn(T) -> bool) -> Seq<Seq<T>>
    decreases s.len(),
{
    if s.len() == 0 {
        seq![Seq::empty()]
    } else {
        let front = pieces(s.drop_last(), sep);
        if sep(s.last()) {
            front.push(Seq::empty())
        } else {
            front.drop_last().push(front.last().push(s.last()))
        }
    }
}

/// The predicate that holds of one character alone.
pub open spec fn only(c: char) -> spec_fn(char) -> bool {
    |d: char| d == c
}

pub proof fn lemma_pieces_some<T>(s: Seq<T>, sep: spec_fn(T) -> bool)
    ensures
        pieces(s, sep).len() > 0,
    decreases s.len(),
{
    if s.len() > 0 {
        lemma_pieces_some(s.drop_last(), sep);
    }
}

/// What is no separator stands in one of the pieces.
pub proof fn lemma_pieces_keep<T>(s: Seq<T>, sep: spec_fn(T) -> bool, i: int)
    requires
        0 <= i < s.len(),
        !sep(s[i]),
    ensures
        exists|k: int, j: int|
            0 <= k < pieces(s, sep).len() && 0 <= j < pieces(s, sep)[k].len() && #[trigger] pieces(
                s,
                sep,
            )[k][j] == s[i],
    decreases s.len(),
{
    let all = pieces(s, sep);
    let front = pieces(s.drop_last(), sep);
    lemma_pieces_some(s.drop_last(), sep);
    if i == s.len() - 1 {
        assert(all[all.len() - 1][all.last().len() - 1] == s[i]);
    } else {
        lemma_pieces_keep(s.drop_last(), sep, i);
        let (k, j) = choose|k: int, j: int|
            0 <= k < front.len() && 0 <= j < front[k].len() && #[trigger] front[k][j]
                == s.drop_last()[i];
        assert(all[k][j] == front[k][j]);
    }
}

/// A separator parts the pieces before it from those behind it.
pub proof fn lemma_pieces_parted<T>(a: Seq<T>, mark: T, b: Seq<T>, sep: spec_fn(T) -> bool)
    requires
        sep(mark),
    ensures
        pieces(a.push(mark) + b, sep) == pieces(a, sep) + pieces(b, sep),
    decreases b.len(),
{
    let all = a.push(mark) + b;
    if b.len() == 0 {
        assert(all =~= a.push(mark));
        assert(all.drop_last() =~= a);
        assert(pieces(all, sep) =~= pieces(a, sep) + pieces(b, sep));
    } else {
        let front = b.drop_last();
        lemma_pieces_parted(a, mark, front, sep);
        lemma_pieces_some(front, sep);
        assert(all.drop_last() =~= a.push(mark) + front);
        assert(all.last() == b.last());
        assert(pieces(all, sep) =~= pieces(a, sep) + pieces(b, sep));
    }
}

/// A text without separators is one piece.
pub proof fn lemma_one_piece<T>(s: Seq<T>, sep: spec_fn(T) -> bool)
    requires
        forall|i: int| 0 <= i < s.len() ==> !sep(#[trigger] s[i]),
    ensures
        pieces(s, sep) == seq![s],
    decreases s.len(),
{
    if s.len() == 0 {
        assert(s =~= Seq::empty());
    } else {
        lemma_one_piece(s.drop_last(), sep);
        assert(!sep(s[s.len() - 1]));
        assert(s.drop_last().push(s.last()) =~= s);
        assert(pieces(s, sep) =~= seq![s]);
    }
}

/// Splits a text at every occurrence of one character.
pub fn split_char(s: &[char], at: char) -> (r: Vec<Vec<char>>)
    ensures
        lists(r@) == pieces(s@, only(at)),
{
    let mut done: Vec<Vec<char>> = Vec::new();
    let mut piece: Vec<char> = Vec::new();
    let mut i: usize = 0;
    proof {
        assert(lists(done@).push(piece@) =~= seq![Seq::<char>::empty()]);
    }
    while i < s.len()
        invariant
            i <= s.len(),
            pieces(s@.take(i as int), only(at)) == lists(done@).push(piece@),
        decreases s.len() - i,
    {
        assert(s@.take(i + 1).drop_last() =~= s@.take(i as int));
        assert(s@.take(i + 1).last() == s@[i as int]);
        let c = s[i];
        let ghost front = lists(done@);
        let ghost before = piece@;
        assert(front.push(before).drop_last() =~= front);
        if c == at {
            done.push(piece);
            piece = Vec::new();
            assert(lists(done@) =~= front.push(before));
            assert(piece@ =~= Seq::<char>::empty());
        } else {
            piece.push(c);
        }
        i += 1;
    }
    assert(s@.take(s.len() as int) =~= s@);
    let ghost front = lists(done@);
    let ghost last = piece@;
    done.push(piece);
    assert(lists(done@) =~= front.push(last));
    done
}

/// `s` cut at each occurrence of the text `pat`, from left to right and without overlap.
pub open spec fn split_at_text(s: Seq<char>, pat: Seq<char>) -> Seq<Seq<char>>
    decreases s.len(),
{
    match find_from(s, pat, 0) {
        Some(i) => if 0 <= i && pat.len() > 0 && i + pat.len() <= s.len() {
            seq![s.take(i)] + split_at_text(s.skip(i + pat.len()), pat)
        } else {
            seq![s]
        },
        None => seq![s],
    }
}

/// Splits a text at each occurrence of `pat`.
pub fn split_text(s: &[char], pat: &[char]) -> (r: Vec<Vec<char>>)
    requires
        pat@.len() > 0,
    ensures
        lists(r@) == split_at_text(s@, pat@),
{
    let mut out: Vec<Vec<char>> = Vec::new();
    let mut start: usize = 0;
    assert(s@.skip(0) =~= s@);
    assert(lists(out@) + split_at_text(s@, pat@) =~= split_at_text(s@, pat@));
    loop
        invariant
            start <= s.len(),
            pat@.len() > 0,
            lists(out@) + split_at_text(s@.skip(start as int), pat@) == split_at_text(s@, pat@),
        decreases s.len() - start,
    {
        let rest = vstd::slice::slice_subrange(s, start, s.len());
        assert(rest@ =~= s@.skip(start as int));
        let ghost before = lists(out@);
        match position_from(rest, pat, 0) {
            Some(i) => {
                let head = vstd::slice::slice_subrange(rest, 0, i);
                assert(head@ =~= rest@.take(i as int));
                let piece = crate::text::copied(head);
                out.push(piece);
                proof {
                    lemma_find_from(rest@, pat@, 0);
                    assert(lists(out@) =~= before.push(rest@.take(i as int)));
                    assert(rest@.skip(i + pat@.len()) =~= s@.skip(start + i + pat@.len()));
                    assert(before + (seq![rest@.take(i as int)] + split_at_text(
                        rest@.skip(i + pat@.len()),
                        pat@,
                    )) =~= lists(out@) + split_at_text(s@.skip(start + i + pat@.len()), pat@));
                }
                start = start + i + pat.len();
            },
            None => {
                let piece = crate::text::copied(rest);
                out.push(piece);
                assert(lists(out@) =~= before + seq![rest@]);
                return out;
            },
        }
    }
}

/// The pieces of a text, with their separator between them, are the text, and none of them holds the
/// separator.
pub proof fn pieces_make_up_the_text(s: Seq<char>, c: char, i: int)
    requires
        0 <= i < pieces(s, only(c)).len(),
    ensures
        joined(pieces(s, only(c)), seq![c]) == s,
        !pieces(s, only(c))[i].contains(c),
    decreases s.len(),
{
    let sep = only(c);
    let all = pieces(s, sep);
    if s.len() == 0 {
        assert(all =~= seq![Seq::<char>::empty()]);
        assert(joined(all, seq![c]) =~= s);
    } else {
        let front = pieces(s.drop_last(), sep);
        lemma_pieces_some(s.drop_last(), sep);
        pieces_make_up_the_text(s.drop_last(), c, 0);
        if i < front.len() {
            pieces_make_up_the_text(s.drop_last(), c, i);
        }
        if sep(s.last()) {
            assert(all.drop_last() =~= front);
            assert(joined(all, seq![c]) =~= s.drop_last() + seq![c]);
            assert(joined(all, seq![c]) =~= s);
        } else {
            assert(all.drop_last() =~= front.drop_last());
            if front.len() > 1 {
                assert(joined(front, seq![c]) == joined(front.drop_last(), seq![c]) + seq![c]
                    + front.last());
            }
            assert(joined(all, seq![c]) =~= s.drop_last().push(s.last()));
            assert(joined(all, seq![c]) =~= s);
            if i == front.len() - 1 {
                let last = all[i];
                assert forall|j: int| 0 <= j < last.len() implies last[j] != c by {
                    if j < front.last().len() {
                        assert(front[i][j] == last[j]);
                        assert(!front[i].contains(c));
                    }
                }
            } else {
                assert(all[i] == front[i]);
            }
        }
    }
}

/// The parts that a text is cut into, with the cut text between them, are the text, and none of
/// them holds the cut text.
pub proof fn parts_make_up_the_text(s: Seq<char>, pat: Seq<char>, i: int, at: int)
    requires
        pat.len() > 0,
        0 <= i < split_at_text(s, pat).len(),
    ensures
        joined(split_at_text(s, pat), pat) == s,
        !occurs_at(split_at_text(s, pat)[i], pat, at),
    decreases s.len(),
{
    lemma_find_from(s, pat, 0);
    let all = split_at_text(s, pat);
    match find_from(s, pat, 0) {
        Some(k) => {
            let head = s.take(k);
            let rest = s.skip(k + pat.len());
            let tail = split_at_text(rest, pat);
            assert(tail.len() > 0);
            parts_make_up_the_text(rest, pat, 0, at);
            if i > 0 {
                parts_make_up_the_text(rest, pat, i - 1, at);
                assert(all[i] == tail[i - 1]);
            } else {
                assert(all[0] == head);
                if occurs_at(head, pat, at) {
                    assert(head.subrange(at, at + pat.len()) =~= s.subrange(at, at + pat.len()));
                    assert(occurs_at(s, pat, at));
                }
            }
            crate::text::joining_keeps_the_order(seq![head], tail, head, pat);
            assert(s.subrange(k, k + pat.len()) == pat);
            assert(head + pat + rest =~= s);
        },
        None => {
            assert(all =~= seq![s]);
            assert(!occurs_at(s, pat, at));
        },
    }
}

} // verus!
