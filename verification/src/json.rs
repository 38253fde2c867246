//! What the library reads out of JSON texts.

use vstd::prelude::*;

use crate::text::{hex_char, optional};

verus! {

/// The string under `key` in the JSON object that `text` is.
pub uninterp spec fn json_field_text(text: Seq<char>, key: Seq<char>) -> Option<Seq<char>>;

/// The string under `field` of the object under `part` of the entry at position `at` of the list
/// under `list`, in the JSON object that `text` is.
pub uninterp spec fn json_entry_text(
    text: Seq<char>,
    list: Seq<char>,
    at: int,
    part: Seq<char>,
    field: Seq<char>,
) -> Option<Seq<char>>;

/// A character inside a JSON string.
pub open spec fn json_escape(c: char) -> Seq<char> {
    if c == '"' || c == '\\' {
        seq!['\\', c]
    } else if c == '\u{8}' {
        seq!['\\', 'b']
    } else if c == '\t' {
        seq!['\\', 't']
    } else if c == '\n' {
        seq!['\\', 'n']
    } else if c == '\u{c}' {
        seq!['\\', 'f']
    } else if c == '\r' {
        seq!['\\', 'r']
    } else if (c as u32) < 32 {
        seq!['\\', 'u', '0', '0', hex_char(c as int / 16), hex_char(c as int % 16)]
    } else {
        seq![c]
    }
}

/// A text inside a JSON string.
pub open spec fn json_escaped(text: Seq<char>) -> Seq<char>
    decreases text.len(),
{
    if text.len() == 0 {
        Seq::empty()
    } else {
        json_escape(text[0]) + json_escaped(text.skip(1))
    }
}

/// A text as a JSON string, with its quotes.
pub open spec fn json_string(text: Seq<char>) -> Seq<char> {
    seq!['"'] + json_escaped(text) + seq!['"']
}

proof fn lemma_escape_line(c: char, i: int)
    requires
        0 <= i < json_escape(c).len(),
    ensures
        json_escape(c)[i] != '\n',
{
    let n = c as int;
    assert(hex_char(n % 16) != '\n');
    if n < 32 {
        assert(0 <= n / 16 < 2);
        assert(hex_char(n / 16) != '\n');
    }
}

/// A JSON string is one line.
pub proof fn lemma_json_string_line(text: Seq<char>)
    ensures
        forall|i: int| 0 <= i < json_string(text).len() ==> (#[trigger] json_string(text)[i]) != '\n',
    decreases text.len(),
{
    if text.len() > 0 {
        lemma_json_string_line(text.skip(1));
        let rest = json_string(text.skip(1));
        let tail = json_escaped(text.skip(1));
        let first = json_escape(text[0]);
        assert forall|i: int| 0 <= i < json_string(text).len() implies (#[trigger] json_string(
            text,
        )[i]) != '\n' by {
            let k = i - 1 - first.len();
            if i == 0 || i == json_string(text).len() - 1 {
                assert(json_string(text)[i] == '"');
            } else if 1 <= i <= first.len() {
                assert(json_string(text)[i] == first[i - 1]);
                lemma_escape_line(text[0], i - 1);
            } else if i > first.len() && k < tail.len() {
                assert(json_string(text)[i] == tail[k]);
                assert(rest[k + 1] == tail[k]);
            }
        }
    }
}

/// A JSON object with one text in it.
pub open spec fn json_object(key: Seq<char>, value: Seq<char>) -> Seq<char> {
    seq!['{'] + json_string(key) + seq![':'] + json_string(value) + seq!['}']
}

/// A JSON object with a list of one entry, which holds one text under two keys.
pub open spec fn json_reply(
    list: Seq<char>,
    part: Seq<char>,
    field: Seq<char>,
    value: Seq<char>,
) -> Seq<char> {
    seq!['{'] + json_string(list) + seq![':', '[', '{'] + json_string(part) + seq![':']
        + json_object(field, value) + seq!['}', ']', '}']
}

/// A reply is one line, in braces.
pub proof fn lemma_json_reply_line(
    list: Seq<char>,
    part: Seq<char>,
    field: Seq<char>,
    value: Seq<char>,
)
    ensures
        ({
            let text = json_reply(list, part, field, value);
            &&& text.len() > 1
            &&& text[0] == '{'
            &&& text.last() == '}'
            &&& forall|i: int| 0 <= i < text.len() ==> (#[trigger] text[i]) != '\n'
        }),
{
    lemma_json_string_line(list);
    lemma_json_string_line(part);
    lemma_json_string_line(field);
    lemma_json_string_line(value);
    let a = seq!['{'] + json_string(list) + seq![':', '[', '{'];
    let b = a + json_string(part) + seq![':'];
    let c = json_object(field, value);
    let text = json_reply(list, part, field, value);
    let inner = seq!['{'] + json_string(field) + seq![':'];
    assert forall|i: int| 0 <= i < c.len() implies (#[trigger] c[i]) != '\n' by {
        if 1 <= i <= json_string(field).len() {
            assert(c[i] == json_string(field)[i - 1]);
        } else if inner.len() <= i < inner.len() + json_string(value).len() {
            assert(c[i] == json_string(value)[i - inner.len()]);
        }
    }
    assert forall|i: int| 0 <= i < text.len() implies (#[trigger] text[i]) != '\n' by {
        if 1 <= i <= json_string(list).len() {
            assert(text[i] == json_string(list)[i - 1]);
        } else if a.len() <= i < a.len() + json_string(part).len() {
            assert(text[i] == json_string(part)[i - a.len()]);
        } else if b.len() <= i < b.len() + c.len() {
            assert(text[i] == c[i - b.len()]);
        }
    }
}

/// `serde_json::from_str` into a `Value`, then `Value::get` and `Value::as_str`: the string under a
/// key of the object that the text is. Nothing comes back where the text is no JSON, where it is no
/// object, or where it has no string under the key; the empty text is no JSON. An object with one
/// text is read back.
#[verifier::external_body]
pub(crate) fn json_field(text: &str, key: &str) -> (r: Option<String>)
    ensures
        optional(r) == json_field_text(text@, key@),
        text@.len() == 0 ==> r is None,
        forall|value: Seq<char>| text@ == #[trigger] json_object(key@, value) ==> optional(r)
            == Some(value),
{
    let value: serde_json::Value = serde_json::from_str(text).ok()?;
    value.get(key)?.as_str().map(str::to_string)
}

/// `serde_json::from_str` into a `Value`, then the index operators of `Value` and `Value::as_str`:
/// the string at a place in the object that the text is. Nothing comes back where the text is no
/// JSON, or where it has no string at that place. A text that stands at the place, and alone, is
/// read back.
#[verifier::external_body]
pub(crate) fn json_entry(text: &str, list: &str, at: usize, part: &str, field: &str) -> (r: Option<
    String,
>)
    ensures
        optional(r) == json_entry_text(text@, list@, at as int, part@, field@),
        forall|value: Seq<char>|
            at == 0 && text@ == #[trigger] json_reply(list@, part@, field@, value) ==> optional(r)
                == Some(value),
{
    let value: serde_json::Value = serde_json::from_str(text).ok()?;
    value[list][at][part][field].as_str().map(str::to_string)
}

/// Whether a text is JSON.
pub uninterp spec fn is_json(text: Seq<char>) -> bool;

/// `serde_json::from_str` into a `Value`: whether the text is JSON, as an object with a list of one
/// entry is.
#[verifier::external_body]
pub(crate) fn json_valid(text: &str) -> (r: bool)
    ensures
        r == is_json(text@),
        forall|list: Seq<char>, part: Seq<char>, field: Seq<char>, value: Seq<char>|
            text@ == #[trigger] json_reply(list, part, field, value) ==> r,
{
    serde_json::from_str::<serde_json::Value>(text).is_ok()
}

/// `serde_json::to_string` of a string, which cannot fail: the text between quotes, with quotes,
/// backslashes and control characters escaped.
#[verifier::external_body]
pub(crate) fn json_quote(text: &str) -> (r: String)
    ensures
        r@ == json_string(text@),
{
    serde_json::to_string(text).unwrap_or_default()
}

/// A JSON value, carried without looking into it.
#[verifier::external_type_specification]
#[verifier::external_body]
pub struct ExValue(serde_json::Value);

} // verus!
