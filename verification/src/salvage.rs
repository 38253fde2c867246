//! Reading a model's answer. The model is asked for JSON, and the answer is salvaged from whatever
//! wrapper it puts around it.

use vstd::prelude::*;
use vstd::slice::slice_subrange;

use crate::json::{
    json_escape, json_escaped, json_field, json_field_text, json_object, json_string,
};
use crate::text::{
    begins, chars_of, drop_leading, drop_trailing, find_back, find_from, hex_char, hex_digit,
    hex_value, last_position, lemma_find_back, lemma_find_from, occurs_at, optional, owned,
    position_from, spaces, stands_at, starts_with, string_of, trim, trim_slice, trimmed,
};

verus! {

// ---------------------------------------------------------------------------------------------
// Salvaging an answer

/// ASCII white space.
pub open spec fn is_ascii_space(c: char) -> bool {
    c == ' ' || c == '\t' || c == '\n' || c == '\u{c}' || c == '\r'
}

fn ascii_space(c: char) -> (r: bool)
    ensures
        r == is_ascii_space(c),
{
    c == ' ' || c == '\t' || c == '\n' || c == '\u{c}' || c == '\r'
}

/// The first position from `i` on that holds no ASCII white space.
pub open spec fn skip_spaces(s: Seq<char>, i: int) -> int
    decreases s.len() - i,
{
    if i < s.len() && is_ascii_space(s[i]) {
        skip_spaces(s, i + 1)
    } else {
        i
    }
}

/// The last position up to `i` before which no ASCII white space stands.
pub open spec fn back_over_spaces(s: Seq<char>, i: int) -> int
    decreases i,
{
    if i > 0 && is_ascii_space(s[i - 1]) {
        back_over_spaces(s, i - 1)
    } else {
        i
    }
}

/// The quoted word "answer" stands at `i` as a key of an object: a brace or a comma comes before
/// its quote.
pub open spec fn key_at(s: Seq<char>, i: int) -> bool {
    let before = back_over_spaces(s, i);
    &&& occurs_at(s, "\"answer\""@, i)
    &&& before > 0
    &&& s[before - 1] == '{' || s[before - 1] == ','
}

/// Where the string value of a key that ends before `i` begins, behind its opening quote.
pub open spec fn value_behind(s: Seq<char>, i: int) -> Option<int> {
    let colon = skip_spaces(s, i);
    let quote = skip_spaces(s, colon + 1);
    if colon < s.len() && s[colon] == ':' && quote < s.len() && s[quote] == '"' {
        Some(quote + 1)
    } else {
        None
    }
}

/// The first place from `i` on at which the value of an "answer" key begins.
pub open spec fn answer_from(s: Seq<char>, i: int) -> Option<int>
    decreases s.len() - i,
{
    if i >= s.len() {
        None
    } else if key_at(s, i) && value_behind(s, i + 8) is Some {
        value_behind(s, i + 8)
    } else {
        answer_from(s, i + 1)
    }
}

/// The first place at which the value of an "answer" key begins.
pub open spec fn answer_start(s: Seq<char>) -> Option<int> {
    answer_from(s, 0)
}

fn over_spaces(s: &[char], i: usize) -> (r: usize)
    requires
        i <= s@.len(),
    ensures
        r == skip_spaces(s@, i as int),
        i <= r <= s@.len(),
{
    let mut k: usize = i;
    while k < s.len() && ascii_space(s[k])
        invariant
            i <= k <= s@.len(),
            skip_spaces(s@, k as int) == skip_spaces(s@, i as int),
        decreases s.len() - k,
    {
        k += 1;
    }
    k
}

fn before_spaces(s: &[char], i: usize) -> (r: usize)
    requires
        i <= s@.len(),
    ensures
        r == back_over_spaces(s@, i as int),
        r <= i,
{
    let mut k: usize = i;
    while k > 0 && ascii_space(s[k - 1])
        invariant
            k <= i <= s@.len(),
            back_over_spaces(s@, k as int) == back_over_spaces(s@, i as int),
        decreases k,
    {
        k -= 1;
    }
    k
}

fn is_key(s: &[char], key: &[char], i: usize) -> (r: bool)
    requires
        i < s@.len(),
        key@ == "\"answer\""@,
    ensures
        r == key_at(s@, i as int),
{
    if !stands_at(s, key, i) {
        return false;
    }
    let before = before_spaces(s, i);
    before > 0 && (s[before - 1] == '{' || s[before - 1] == ',')
}

fn value_from(s: &[char], i: usize) -> (r: Option<usize>)
    requires
        i <= s@.len(),
    ensures
        match r {
            Some(k) => value_behind(s@, i as int) == Some(k as int) && i < k <= s@.len(),
            None => value_behind(s@, i as int) is None,
        },
{
    let colon = over_spaces(s, i);
    if colon < s.len() && s[colon] == ':' {
        let quote = over_spaces(s, colon + 1);
        if quote < s.len() && s[quote] == '"' {
            return Some(quote + 1);
        }
    }
    None
}

/// Where the value of the "answer" key begins in the characters of a text.
fn answer_position(s: &[char]) -> (r: Option<usize>)
    ensures
        match r {
            Some(k) => answer_start(s@) == Some(k as int) && k <= s@.len(),
            None => answer_start(s@) is None,
        },
{
    let key = chars_of("\"answer\"");
    proof {
        reveal_strlit("\"answer\"");
    }
    let mut i: usize = 0;
    while i < s.len()
        invariant
            i <= s@.len(),
            key@ == "\"answer\""@,
            key@.len() == 8,
            answer_from(s@, i as int) == answer_start(s@),
        decreases s.len() - i,
    {
        if is_key(s, key.as_slice(), i) {
            if let Some(k) = value_from(s, i + 8) {
                return Some(k);
            }
        }
        i += 1;
    }
    None
}

/// The byte just behind the opening quote of the value of the "answer" key. The key has to stand
/// where an object's key does, so that a quoted word in the middle of a sentence is not taken for
/// it.
pub fn find_answer_value_start(text: &str) -> (r: Option<usize>)
    ensures
        match r {
            Some(n) => answer_start(text@) matches Some(k) && n == vstd::utf8::encode_utf8(
                text@.take(k),
            ).len(),
            None => answer_start(text@) is None,
        },
{
    let chars = chars_of(text);
    match answer_position(chars.as_slice()) {
        Some(k) => {
            let head = string_of(slice_subrange(chars.as_slice(), 0, k));
            assert(head@ =~= text@.take(k as int));
            Some(head.as_str().as_bytes().len())
        },
        None => None,
    }
}

/// The number that four hexadecimal digits from `i` on write; the first may be a plus sign.
pub open spec fn hex_number(s: Seq<char>, i: int) -> Option<nat> {
    if i + 4 > s.len() {
        None
    } else {
        let first = if s[i] == '+' {
            Some(0nat)
        } else {
            hex_value(s[i])
        };
        match (first, hex_value(s[i + 1]), hex_value(s[i + 2]), hex_value(s[i + 3])) {
            (Some(a), Some(b), Some(c), Some(d)) => Some(4096 * a + 256 * b + 16 * c + d),
            _ => None,
        }
    }
}

/// The character that an escape at `i` writes, and how many characters the escape takes.
pub open spec fn escape_at(s: Seq<char>, i: int) -> Option<(char, int)> {
    let c = s[i + 1];
    if c == 'n' {
        Some(('\n', 2))
    } else if c == 't' {
        Some(('\t', 2))
    } else if c == 'r' {
        Some(('\r', 2))
    } else if c == '"' || c == '\\' || c == '/' {
        Some((c, 2))
    } else if c == 'u' {
        match hex_number(s, i + 2) {
            Some(n) => if n < 0xd800 || 0xe000 <= n {
                Some((n as char, 6))
            } else {
                None
            },
            None => None,
        }
    } else {
        None
    }
}

/// The text of a quoted string from `i` on, and whether its closing quote was found: escapes are
/// resolved, and one that cannot be ends the text.
pub open spec fn unquoted(s: Seq<char>, i: int) -> (Seq<char>, bool)
    decreases s.len() - i,
{
    if i >= s.len() {
        (Seq::empty(), false)
    } else if s[i] == '"' {
        (Seq::empty(), true)
    } else if s[i] == '\\' && i + 1 < s.len() {
        match escape_at(s, i) {
            Some((c, n)) => if n > 0 {
                let (rest, closed) = unquoted(s, i + n);
                (seq![c] + rest, closed)
            } else {
                (Seq::empty(), false)
            },
            None => (Seq::empty(), false),
        }
    } else {
        let (rest, closed) = unquoted(s, i + 1);
        (seq![s[i]] + rest, closed)
    }
}

/// The string value of the "answer" key, read by hand; it need not be closed where it is not empty.
pub open spec fn quoted_text(s: Seq<char>) -> Option<Seq<char>> {
    match answer_start(s) {
        Some(start) => {
            let (text, closed) = unquoted(s, start);
            if closed || text.len() > 0 {
                Some(text)
            } else {
                None
            }
        },
        None => None,
    }
}

fn hex_code(s: &[char], i: usize) -> (r: Option<u32>)
    requires
        i <= s@.len(),
    ensures
        match r {
            Some(n) => hex_number(s@, i as int) == Some(n as nat) && n < 0x1_0000,
            None => hex_number(s@, i as int) is None,
        },
{
    if s.len() - i < 4 {
        return None;
    }
    let first: Option<u32> = if s[i] == '+' {
        Some(0)
    } else {
        hex_digit(s[i])
    };
    match (first, hex_digit(s[i + 1]), hex_digit(s[i + 2]), hex_digit(s[i + 3])) {
        (Some(a), Some(b), Some(c), Some(d)) => Some(4096 * a + 256 * b + 16 * c + d),
        _ => None,
    }
}

/// `char::from_u32`: the character with a code point, where the number is one.
pub assume_specification[ char::from_u32 ](i: u32) -> (r: Option<char>)
    ensures
        match r {
            Some(c) => c as u32 == i,
            None => 0xd800 <= i < 0xe000 || 0x10_ffff < i,
        },
;

fn escape(s: &[char], i: usize) -> (r: Option<(char, usize)>)
    requires
        i + 1 < s@.len(),
    ensures
        match r {
            Some((c, n)) => escape_at(s@, i as int) == Some((c, n as int)) && (n == 2 || n == 6)
                && i + n <= s@.len(),
            None => escape_at(s@, i as int) is None,
        },
{
    let size: usize = s.len();
    assert(i + 1 < size);
    let c = s[i + 1];
    if c == 'n' {
        Some(('\n', 2))
    } else if c == 't' {
        Some(('\t', 2))
    } else if c == 'r' {
        Some(('\r', 2))
    } else if c == '"' || c == '\\' || c == '/' {
        Some((c, 2))
    } else if c == 'u' {
        match hex_code(s, i + 2) {
            Some(code) => match char::from_u32(code) {
                Some(found) => {
                    proof {
                        vstd::utf8::char_is_scalar(found);
                        vstd::utf8::char_u32_cast(found, code);
                    }
                    Some((found, 6))
                },
                None => None,
            },
            None => None,
        }
    } else {
        None
    }
}

/// Reads a quoted string by hand.
fn unquote(s: &[char], start: usize) -> (r: (Vec<char>, bool))
    requires
        start <= s@.len(),
    ensures
        (r.0@, r.1) == unquoted(s@, start as int),
{
    let mut out: Vec<char> = Vec::new();
    let mut i: usize = start;
    let ghost whole = unquoted(s@, start as int);
    assert(out@ + whole.0 =~= whole.0);
    while i < s.len()
        invariant
            start <= i <= s@.len(),
            whole == unquoted(s@, start as int),
            whole == (out@ + unquoted(s@, i as int).0, unquoted(s@, i as int).1),
        decreases s.len() - i,
    {
        let ghost rest = unquoted(s@, i as int);
        if s[i] == '"' {
            assert(out@ + rest.0 =~= out@);
            return (out, true);
        }
        if s[i] == '\\' && i + 1 < s.len() {
            match escape(s, i) {
                Some((c, n)) => {
                    let ghost next = unquoted(s@, i + n);
                    assert(rest.0 == seq![c] + next.0);
                    assert(out@.push(c) + next.0 =~= out@ + rest.0);
                    out.push(c);
                    i += n;
                },
                None => {
                    assert(out@ + rest.0 =~= out@);
                    return (out, false);
                },
            }
        } else {
            let ghost next = unquoted(s@, i + 1);
            assert(out@.push(s@[i as int]) + next.0 =~= out@ + rest.0);
            out.push(s[i]);
            i += 1;
        }
    }
    assert(out@ + unquoted(s@, i as int).0 =~= out@);
    (out, false)
}

fn quoted_chars(s: &[char]) -> (r: Option<Vec<char>>)
    ensures
        match r {
            Some(text) => quoted_text(s@) == Some(text@),
            None => quoted_text(s@) is None,
        },
{
    match answer_position(s) {
        Some(start) => {
            let (text, closed) = unquote(s, start);
            if closed || text.len() > 0 {
                Some(text)
            } else {
                None
            }
        },
        None => None,
    }
}

/// The string value of the "answer" key of a text whose JSON may be broken.
pub fn quoted_answer(text: &str) -> (r: Option<String>)
    ensures
        optional(r) == quoted_text(text@),
{
    let chars = chars_of(text);
    match quoted_chars(chars.as_slice()) {
        Some(found) => Some(string_of(found.as_slice())),
        None => None,
    }
}

/// The mark of a code fence.
pub open spec fn fence() -> Seq<char> {
    seq!['`', '`', '`']
}

/// What stands between the first code fence and the last one behind it, without the language name
/// `json` and the white space around it, where that is anything.
pub open spec fn fenced_text(s: Seq<char>) -> Option<Seq<char>> {
    match find_from(s, fence(), 0) {
        Some(start) => {
            let behind = s.skip(start + 3);
            let body = if starts_with(behind, "json"@) {
                behind.skip(4)
            } else {
                behind
            };
            match find_back(body, fence(), body.len() as int) {
                Some(end) => {
                    let inner = trim(body.take(end));
                    if inner.len() > 0 {
                        Some(inner)
                    } else {
                        None
                    }
                },
                None => None,
            }
        },
        None => None,
    }
}

/// The text from its first brace on.
pub open spec fn braced_text(s: Seq<char>) -> Option<Seq<char>> {
    match find_from(s, seq!['{'], 0) {
        Some(start) => Some(s.skip(start)),
        None => None,
    }
}

fn fenced_chars(s: &[char]) -> (r: Option<Vec<char>>)
    ensures
        match r {
            Some(text) => fenced_text(s@) == Some(text@),
            None => fenced_text(s@) is None,
        },
{
    let mark: [char; 3] = ['`', '`', '`'];
    assert(mark@ =~= fence());
    let size: usize = s.len();
    match position_from(s, mark.as_slice(), 0) {
        Some(start) => {
            let behind = slice_subrange(s, start + 3, size);
            assert(behind@ =~= s@.skip(start + 3));
            let name = chars_of("json");
            proof {
                reveal_strlit("json");
            }
            let body = if begins(behind, name.as_slice()) {
                slice_subrange(behind, 4, behind.len())
            } else {
                behind
            };
            assert(body@ =~= (if starts_with(behind@, "json"@) {
                behind@.skip(4)
            } else {
                behind@
            }));
            match last_position(body, mark.as_slice()) {
                Some(end) => {
                    let inner = trim_slice(slice_subrange(body, 0, end));
                    assert(body@.subrange(0, end as int) =~= body@.take(end as int));
                    if inner.len() > 0 {
                        Some(crate::text::copied(inner))
                    } else {
                        None
                    }
                },
                None => None,
            }
        },
        None => None,
    }
}

fn braced_chars(s: &[char]) -> (r: Option<Vec<char>>)
    ensures
        match r {
            Some(text) => braced_text(s@) == Some(text@),
            None => braced_text(s@) is None,
        },
{
    let brace: [char; 1] = ['{'];
    assert(brace@ =~= seq!['{']);
    match position_from(s, brace.as_slice(), 0) {
        Some(start) => {
            let part = slice_subrange(s, start, s.len());
            assert(part@ =~= s@.skip(start as int));
            Some(crate::text::copied(part))
        },
        None => None,
    }
}

/// The answer in a text: what it says as JSON, else the value of its "answer" key read by hand,
/// else the answer inside its code fence, else what it says as JSON from its first brace on, else
/// the text itself.
pub open spec fn picked(
    s: Seq<char>,
    whole: Option<Seq<char>>,
    inner: Option<Seq<char>>,
    braced: Option<Seq<char>>,
) -> Option<Seq<char>> {
    if whole is Some {
        whole
    } else if quoted_text(s) is Some {
        quoted_text(s)
    } else if inner is Some {
        inner
    } else if braced is Some {
        braced
    } else if s.len() > 0 {
        Some(s)
    } else {
        None
    }
}

/// Picks the answer of a trimmed text, given what reading JSON gave: of the whole text, of what its
/// code fence holds, and of the text from its first brace on.
pub fn pick_answer(
    text: &str,
    whole: Option<String>,
    inner: Option<String>,
    braced: Option<String>,
) -> (r: Option<String>)
    ensures
        optional(r) == picked(text@, optional(whole), optional(inner), optional(braced)),
        whole is Some ==> optional(r) == optional(whole),
        whole is None && quoted_text(text@) is Some ==> optional(r) == quoted_text(text@),
        whole is None && quoted_text(text@) is None && inner is Some ==> optional(r) == optional(
            inner,
        ),
        whole is None && quoted_text(text@) is None && inner is None && braced is Some ==> optional(
            r,
        ) == optional(braced),
        whole is None && quoted_text(text@) is None && inner is None && braced is None ==> (
        text@.len() > 0 ==> optional(r) == Some(text@)) && (text@.len() == 0 ==> r is None),
{
    if whole.is_some() {
        return whole;
    }
    let quoted = quoted_answer(text);
    if quoted.is_some() {
        return quoted;
    }
    if inner.is_some() {
        return inner;
    }
    if braced.is_some() {
        return braced;
    }
    if text.is_empty() {
        None
    } else {
        Some(owned(text))
    }
}

pub proof fn lemma_trim_shorter(s: Seq<char>)
    ensures
        trim(s).len() <= s.len(),
{
    lemma_drop_leading_shorter(s);
    lemma_drop_trailing_shorter(drop_leading(s, spaces()));
}

proof fn lemma_drop_leading_shorter(s: Seq<char>)
    ensures
        drop_leading(s, spaces()).len() <= s.len(),
    decreases s.len(),
{
    if s.len() > 0 {
        lemma_drop_leading_shorter(s.skip(1));
    }
}

proof fn lemma_drop_trailing_shorter(s: Seq<char>)
    ensures
        drop_trailing(s, spaces()).len() <= s.len(),
    decreases s.len(),
{
    if s.len() > 0 {
        lemma_drop_trailing_shorter(s.drop_last());
    }
}

pub proof fn lemma_fenced_shorter(s: Seq<char>)
    ensures
        fenced_text(s) matches Some(t) ==> t.len() + 6 <= s.len() && t.len() > 0,
{
    lemma_find_from(s, fence(), 0);
    if let Some(start) = find_from(s, fence(), 0) {
        let behind = s.skip(start + 3);
        let body = if starts_with(behind, "json"@) {
            behind.skip(4)
        } else {
            behind
        };
        reveal_strlit("json");
        lemma_find_back(body, fence(), body.len() as int);
        if let Some(end) = find_back(body, fence(), body.len() as int) {
            lemma_trim_shorter(body.take(end));
        }
    }
}

/// The answer that is salvaged from a model's raw text.
pub open spec fn salvaged(raw: Seq<char>) -> Option<Seq<char>>
    decreases raw.len(),
{
    proof {
        lemma_trim_shorter(raw);
        lemma_fenced_shorter(trim(raw));
    }
    let s = trim(raw);
    let inner = match fenced_text(s) {
        Some(t) => match salvaged(t) {
            Some(answer) => Some(answer),
            None => Some(t),
        },
        None => None,
    };
    let braced = match braced_text(s) {
        Some(t) => json_field_text(t, "answer"@),
        None => None,
    };
    picked(s, json_field_text(s, "answer"@), inner, braced)
}

/// Salvages the answer from the model's raw text. The request asks for JSON, and an answer in JSON
/// is read as it was written; but a model may wrap it, and the user sees a reply either way.
pub fn extract_answer(raw: &str) -> (r: Option<String>)
    ensures
        optional(r) == salvaged(raw@),
        r is None ==> trim(raw@).len() == 0,
        trim(raw@).len() == 0 ==> r is None,
        forall|answer: Seq<char>|
            raw@ == #[trigger] json_object("answer"@, answer) ==> optional(r) == Some(answer),
    decreases raw@.len(),
{
    let text = trimmed(raw);
    let chars = chars_of(text.as_str());
    proof {
        lemma_trim_shorter(raw@);
        lemma_fenced_shorter(text@);
    }
    let whole = json_field(text.as_str(), "answer");
    assert forall|answer: Seq<char>|
        raw@ == #[trigger] json_object("answer"@, answer) implies optional(whole) == Some(
        answer,
    ) by {
        assert(raw@[0] == '{' && raw@.last() == '}');
        assert(trim(raw@) == raw@);
    }
    if whole.is_some() || quoted_chars(chars.as_slice()).is_some() {
        proof {
            lemma_empty_text(text@);
        }
        return pick_answer(text.as_str(), whole, None, None);
    }
    let inner = match fenced_chars(chars.as_slice()) {
        Some(found) => {
            let body = string_of(found.as_slice());
            match extract_answer(body.as_str()) {
                Some(answer) => Some(answer),
                None => Some(body),
            }
        },
        None => None,
    };
    let braced = match braced_chars(chars.as_slice()) {
        Some(found) => json_field(string_of(found.as_slice()).as_str(), "answer"),
        None => None,
    };
    proof {
        lemma_empty_text(text@);
    }
    pick_answer(text.as_str(), whole, inner, braced)
}

proof fn lemma_empty_text(s: Seq<char>)
    ensures
        s.len() == 0 ==> quoted_text(s) is None && fenced_text(s) is None && braced_text(s) is None,
{
    if s.len() == 0 {
        lemma_find_from(s, fence(), 0);
        lemma_find_from(s, seq!['{'], 0);
    }
}

// ---------------------------------------------------------------------------------------------
// Salvage reads what JSON writes

/// The text has no backspace and no form feed, which salvage by hand does not read.
pub open spec fn readable(text: Seq<char>) -> bool {
    forall|i: int| 0 <= i < text.len() ==> (#[trigger] text[i]) != '\u{8}' && text[i] != '\u{c}'
}

proof fn lemma_control_escape(s: Seq<char>, i: int, c: char)
    requires
        0 <= i,
        i + 6 <= s.len(),
        (c as u32) < 32,
        s.subrange(i, i + 6) == seq![
            '\\',
            'u',
            '0',
            '0',
            hex_char(c as int / 16),
            hex_char(c as int % 16),
        ],
    ensures
        escape_at(s, i) == Some((c, 6int)),
{
    let part = s.subrange(i, i + 6);
    assert(part[1] == s[i + 1] && part[2] == s[i + 2] && part[3] == s[i + 3] && part[4] == s[i + 4]
        && part[5] == s[i + 5]);
    let high = c as int / 16;
    let low = c as int % 16;
    assert(hex_value(hex_char(high)) == Some(high as nat));
    assert(hex_value(hex_char(low)) == Some(low as nat));
    assert(hex_value('0') == Some(0nat));
    assert(hex_number(s, i + 2) == Some((16 * high + low) as nat));
    assert(16 * high + low == c as int);
    vstd::utf8::char_u32_cast(c, c as u32);
}

proof fn lemma_escape_read(s: Seq<char>, i: int, c: char)
    requires
        0 <= i,
        c != '\u{8}' && c != '\u{c}',
        i + json_escape(c).len() < s.len(),
        s.subrange(i, i + json_escape(c).len()) == json_escape(c),
    ensures
        unquoted(s, i) == (
            seq![c] + unquoted(s, i + json_escape(c).len()).0,
            unquoted(s, i + json_escape(c).len()).1,
        ),
{
    let e = json_escape(c);
    let part = s.subrange(i, i + e.len());
    assert(part[0] == s[i]);
    if c == '"' || c == '\\' || c == '\t' || c == '\n' || c == '\r' {
        assert(part[1] == s[i + 1]);
    } else if (c as u32) < 32 {
        lemma_control_escape(s, i, c);
    }
}

proof fn lemma_unquoted_json(s: Seq<char>, i: int, text: Seq<char>)
    requires
        0 <= i,
        readable(text),
        i + json_escaped(text).len() < s.len(),
        s.subrange(i, i + json_escaped(text).len()) == json_escaped(text),
        s[i + json_escaped(text).len()] == '"',
    ensures
        unquoted(s, i) == (text, true),
    decreases text.len(),
{
    if text.len() == 0 {
        assert(text =~= Seq::<char>::empty());
    } else {
        let e = json_escape(text[0]);
        let rest = json_escaped(text.skip(1));
        let all = e + rest;
        let part = s.subrange(i, i + all.len());
        assert(part == all);
        assert(s.subrange(i, i + e.len()) =~= e) by {
            assert forall|k: int| 0 <= k < e.len() implies s.subrange(i, i + e.len())[k]
                == e[k] by {
                assert(part[k] == all[k]);
            }
        }
        assert(s.subrange(i + e.len(), i + e.len() + rest.len()) =~= rest) by {
            assert forall|k: int| 0 <= k < rest.len() implies s.subrange(
                i + e.len(),
                i + e.len() + rest.len(),
            )[k] == rest[k] by {
                assert(part[k + e.len()] == all[k + e.len()]);
            }
        }
        assert(readable(text.skip(1))) by {
            assert forall|k: int| 0 <= k < text.skip(1).len() implies (#[trigger] text.skip(1)[k])
                != '\u{8}' && text.skip(1)[k] != '\u{c}' by {
                assert(text[k + 1] == text.skip(1)[k]);
            }
        }
        assert(text[0] != '\u{8}' && text[0] != '\u{c}');
        lemma_unquoted_json(s, i + e.len(), text.skip(1));
        lemma_escape_read(s, i, text[0]);
        assert(seq![text[0]] + text.skip(1) =~= text);
    }
}

/// An answer that was written as a JSON string is salvaged as it was, whatever follows it: salvage
/// does not depend on the rest of the object being sound.
pub proof fn salvage_reads_json_strings(text: Seq<char>, rest: Seq<char>)
    requires
        readable(text),
    ensures
        quoted_text("{\"answer\":"@ + json_string(text) + rest) == Some(text),
{
    let head = "{\"answer\":"@;
    let key = "\"answer\""@;
    reveal_strlit("{\"answer\":");
    reveal_strlit("\"answer\"");
    let s = head + json_string(text) + rest;
    assert(head.len() == 10);
    assert(s[0] == '{');
    assert(s.subrange(1, 9) =~= key);
    assert(occurs_at(s, key, 1));
    assert(back_over_spaces(s, 1) == 1);
    assert(key_at(s, 1));
    assert(s[9] == ':');
    assert(skip_spaces(s, 9) == 9);
    assert(s[10] == '"');
    assert(skip_spaces(s, 10) == 10);
    assert(value_behind(s, 9) == Some(11int));
    assert(!occurs_at(s, key, 0)) by {
        if occurs_at(s, key, 0) {
            assert(s.subrange(0, 8)[0] == key[0]);
        }
    }
    assert(answer_from(s, 1) == Some(11int));
    assert(answer_start(s) == Some(11int));
    let n = json_escaped(text).len();
    assert(s.subrange(11, 11 + n as int) =~= json_escaped(text));
    assert(s[11 + n as int] == '"');
    lemma_unquoted_json(s, 11, text);
}

/// Only ASCII white space stands from `a` up to `b`.
pub open spec fn blank_between(s: Seq<char>, a: int, b: int) -> bool {
    a <= b && forall|j: int|
        a <= j < b ==> (#[trigger] s[j]) == ' ' || s[j] == '\t' || s[j] == '\n' || s[j] == '\u{c}'
            || s[j] == '\r'
}

/// An "answer" key stands at `key`: behind a brace or a comma at `front`, and before a colon at
/// `colon` and an opening quote at `quote`, with white space at most between them.
pub open spec fn key_and_value(
    s: Seq<char>,
    front: int,
    key: int,
    colon: int,
    quote: int,
) -> bool {
    &&& 0 <= front < key && key + 8 <= colon < quote < s.len()
    &&& s[front] == '{' || s[front] == ','
    &&& blank_between(s, front + 1, key)
    &&& s.subrange(key, key + 8) == "\"answer\""@
    &&& blank_between(s, key + 8, colon)
    &&& s[colon] == ':'
    &&& blank_between(s, colon + 1, quote)
    &&& s[quote] == '"'
}

proof fn lemma_skip_spaces(s: Seq<char>, i: int)
    requires
        0 <= i <= s.len(),
    ensures
        i <= skip_spaces(s, i) <= s.len(),
        blank_between(s, i, skip_spaces(s, i)),
        skip_spaces(s, i) < s.len() ==> !is_ascii_space(s[skip_spaces(s, i)]),
    decreases s.len() - i,
{
    if i < s.len() && is_ascii_space(s[i]) {
        lemma_skip_spaces(s, i + 1);
    }
}

proof fn lemma_back_over_spaces(s: Seq<char>, i: int)
    requires
        0 <= i <= s.len(),
    ensures
        0 <= back_over_spaces(s, i) <= i,
        blank_between(s, back_over_spaces(s, i), i),
        back_over_spaces(s, i) > 0 ==> !is_ascii_space(s[back_over_spaces(s, i) - 1]),
    decreases i,
{
    if i > 0 && is_ascii_space(s[i - 1]) {
        lemma_back_over_spaces(s, i - 1);
    }
}

proof fn lemma_key_here(s: Seq<char>, i: int)
    requires
        0 <= i < s.len(),
        key_at(s, i),
        value_behind(s, i + 8) is Some,
    ensures
        exists|front: int, colon: int, quote: int|
            #[trigger] key_and_value(s, front, i, colon, quote) && value_behind(s, i + 8) == Some(
                quote + 1,
            ),
{
    reveal_strlit("\"answer\"");
    lemma_back_over_spaces(s, i);
    let front = back_over_spaces(s, i) - 1;
    lemma_skip_spaces(s, i + 8);
    let colon = skip_spaces(s, i + 8);
    lemma_skip_spaces(s, colon + 1);
    let quote = skip_spaces(s, colon + 1);
    assert(key_and_value(s, front, i, colon, quote));
}

proof fn lemma_key_there(s: Seq<char>, front: int, i: int, colon: int, quote: int)
    requires
        key_and_value(s, front, i, colon, quote),
    ensures
        key_at(s, i),
        value_behind(s, i + 8) == Some(quote + 1),
{
    reveal_strlit("\"answer\"");
    lemma_back_over_spaces(s, i);
    let b = back_over_spaces(s, i);
    if b < front + 1 {
        assert(is_ascii_space(s[front]));
    } else if b > front + 1 {
        assert(is_ascii_space(s[b - 1]));
    }
    lemma_skip_spaces(s, i + 8);
    let c = skip_spaces(s, i + 8);
    if c < colon {
        assert(is_ascii_space(s[c]));
    } else if c > colon {
        assert(is_ascii_space(s[colon]));
    }
    lemma_skip_spaces(s, colon + 1);
    let q = skip_spaces(s, colon + 1);
    if q < quote {
        assert(is_ascii_space(s[q]));
    } else if q > quote {
        assert(is_ascii_space(s[quote]));
    }
}

proof fn lemma_answer_from(s: Seq<char>, i: int)
    requires
        0 <= i,
    ensures
        answer_from(s, i) is None ==> forall|front: int, key: int, colon: int, quote: int|
            i <= key ==> !#[trigger] key_and_value(s, front, key, colon, quote),
        answer_from(s, i) matches Some(k) ==> exists|front: int, key: int, colon: int, quote: int|
            i <= key && #[trigger] key_and_value(s, front, key, colon, quote) && k == quote + 1
                && forall|f: int, e: int, c: int, q: int|
                i <= e < key ==> !#[trigger] key_and_value(s, f, e, c, q),
    decreases s.len() - i,
{
    if i < s.len() {
        if key_at(s, i) && value_behind(s, i + 8) is Some {
            lemma_key_here(s, i);
        } else {
            lemma_answer_from(s, i + 1);
            assert forall|f: int, c: int, q: int| !#[trigger] key_and_value(s, f, i, c, q) by {
                if key_and_value(s, f, i, c, q) {
                    lemma_key_there(s, f, i, c, q);
                }
            }
        }
    }
}

/// The value of the answer begins behind the opening quote of the first "answer" key that stands
/// where an object's key does and has a text for its value, and there is none where no key does.
pub proof fn answers_stand_behind_their_key(s: Seq<char>)
    ensures
        match answer_start(s) {
            Some(k) => exists|front: int, key: int, colon: int, quote: int|
                #[trigger] key_and_value(s, front, key, colon, quote) && k == quote + 1 && forall|
                    f: int,
                    e: int,
                    c: int,
                    q: int,
                |
                    e < key ==> !#[trigger] key_and_value(s, f, e, c, q),
            None => forall|front: int, key: int, colon: int, quote: int|
                !#[trigger] key_and_value(s, front, key, colon, quote),
        },
{
    lemma_answer_from(s, 0);
}

/// A text that runs up to `end` without quotes and backslashes is taken as it is: up to a closing
/// quote, or to the end of what there is, where it is not closed. An escaped slash is a slash, and
/// an escape that JSON does not know ends the text.
pub proof fn plain_text_is_taken_as_it_is(s: Seq<char>, start: int, end: int, e: char)
    requires
        0 <= start <= end <= s.len(),
        forall|i: int| start <= i < end ==> (#[trigger] s[i]) != '"' && s[i] != '\\',
    ensures
        end == s.len() ==> unquoted(s, start) == (s.subrange(start, end), false),
        end < s.len() && s[end] == '"' ==> unquoted(s, start) == (s.subrange(start, end), true),
        end + 1 < s.len() && s[end] == '\\' && s[end + 1] == '/' ==> unquoted(s, start) == (
            s.subrange(start, end).push('/') + unquoted(s, end + 2).0,
            unquoted(s, end + 2).1,
        ),
        end + 1 < s.len() && s[end] == '\\' && s[end + 1] == e && e != 'n' && e != 't' && e != 'r'
            && e != '"' && e != '\\' && e != '/' && e != 'u' ==> unquoted(s, start) == (
            s.subrange(start, end),
            false,
        ),
    decreases end - start,
{
    let none = s.subrange(start, start);
    assert(none =~= Seq::<char>::empty());
    if start < end {
        plain_text_is_taken_as_it_is(s, start + 1, end, e);
        assert(s[start] != '"' && s[start] != '\\');
        let rest = s.subrange(start + 1, end);
        assert(seq![s[start]] + rest =~= s.subrange(start, end));
        assert(seq![s[start]] + (rest.push('/') + unquoted(s, end + 2).0) =~= s.subrange(
            start,
            end,
        ).push('/') + unquoted(s, end + 2).0);
    } else if end + 1 < s.len() && s[end] == '\\' && s[end + 1] == '/' {
        assert(none.push('/') + unquoted(s, end + 2).0 =~= seq!['/'] + unquoted(s, end + 2).0);
    }
}

/// What stands in a code fence is taken out of it, without the name of the language and the white
/// space around it.
#[verifier::spinoff_prover]
#[verifier::rlimit(40)]
pub proof fn fences_are_taken_off(
    s: Seq<char>,
    front: Seq<char>,
    name: Seq<char>,
    inner: Seq<char>,
    behind: Seq<char>,
)
    requires
        s == front + fence() + name + inner + fence() + behind,
        name == "json"@ || (name.len() == 0 && !starts_with(inner + fence() + behind, "json"@)),
        trim(inner).len() > 0,
        forall|j: int| 0 <= j < front.len() ==> !#[trigger] occurs_at(s, fence(), j),
        forall|j: int|
            front.len() + 3 + name.len() + inner.len() < j ==> !#[trigger] occurs_at(
                s,
                fence(),
                j,
            ),
    ensures
        fenced_text(s) == Some(trim(inner)),
{
    reveal_strlit("json");
    let named = name == "json"@;
    let start = front.len() as int;
    assert(s.subrange(start, start + 3) =~= fence());
    assert(occurs_at(s, fence(), start));
    lemma_find_from(s, fence(), 0);
    let found = find_from(s, fence(), 0)->0;
    assert(find_from(s, fence(), 0) == Some(start)) by {
        if find_from(s, fence(), 0) is None {
            assert(!occurs_at(s, fence(), start));
        } else if found < start {
            assert(!occurs_at(s, fence(), found));
        } else if found > start {
            assert(!occurs_at(s, fence(), start));
        }
    }
    let rest = s.skip(start + 3);
    let open = inner + fence() + behind;
    assert(rest =~= name + open);
    assert(starts_with(rest, "json"@) == named) by {
        if named {
            assert(rest.subrange(0, 4) =~= "json"@);
        } else {
            assert(rest =~= open);
        }
    }
    let body = if named {
        rest.skip(4)
    } else {
        rest
    };
    assert(body =~= open);
    let at = inner.len() as int;
    assert(body.subrange(at, at + 3) =~= fence());
    assert(occurs_at(body, fence(), at));
    lemma_find_back(body, fence(), body.len() as int);
    let last = find_back(body, fence(), body.len() as int)->0;
    let shift = start + 3 + name.len();
    assert(find_back(body, fence(), body.len() as int) == Some(at)) by {
        if find_back(body, fence(), body.len() as int) is None {
            assert(!occurs_at(body, fence(), at));
        } else if last > at {
            assert(s.subrange(last + shift, last + shift + 3) =~= body.subrange(last, last + 3));
            assert(occurs_at(s, fence(), last + shift));
        } else if last < at {
            assert(!occurs_at(body, fence(), at));
        }
    }
    assert(body.take(at) =~= inner);
}

/// What is read as JSON behind other words begins at the first brace.
pub proof fn objects_begin_at_their_brace(front: Seq<char>, behind: Seq<char>)
    requires
        forall|i: int| 0 <= i < front.len() ==> (#[trigger] front[i]) != '{',
    ensures
        braced_text(front + seq!['{'] + behind) == Some(seq!['{'] + behind),
        braced_text(front) is None,
{
    let brace = seq!['{'];
    let s = front + brace + behind;
    let n = front.len() as int;
    lemma_find_from(s, brace, 0);
    lemma_find_from(front, brace, 0);
    assert(s.subrange(n, n + 1) =~= brace);
    assert(occurs_at(s, brace, n));
    if let Some(k) = find_from(s, brace, 0) {
        assert(s.subrange(k, k + 1)[0] == s[k]);
        if k < n {
            assert(s[k] == front[k]);
        } else if k > n {
            assert(!occurs_at(s, brace, n));
        }
    } else {
        assert(!occurs_at(s, brace, n));
    }
    if let Some(k) = find_from(front, brace, 0) {
        assert(front.subrange(k, k + 1)[0] == front[k]);
    }
    assert(s.skip(n) =~= brace + behind);
}

/// A text that is no JSON with an answer and has no "answer" key is salvaged from what its code
/// fence holds; where it has neither a fence nor a brace, it is the answer itself, without the white
/// space around it.
pub proof fn plain_replies_are_answers(raw: Seq<char>, inner: Seq<char>)
    ensures
        json_field_text(trim(raw), "answer"@) is None && quoted_text(trim(raw)) is None ==> {
            &&& fenced_text(trim(raw)) == Some(inner) && salvaged(inner) is Some ==> salvaged(raw)
                == salvaged(inner)
            &&& fenced_text(trim(raw)) is None && braced_text(trim(raw)) is None && trim(raw).len()
                > 0 ==> salvaged(raw) == Some(trim(raw))
            &&& fenced_text(trim(raw)) is None ==> (braced_text(trim(raw)) matches Some(object)
                ==> (json_field_text(object, "answer"@) matches Some(answer) ==> salvaged(raw)
                == Some(answer)))
        },
{
}

} // verus!
