use corpus::split::{count_words, split_char, split_text, words_of};
use corpus::text::{
    chars_of, hex_string, join_strings, push_decimal, push_signed, read_number, trimmed,
};

fn text(chars: &[char]) -> String {
    chars.iter().collect()
}

#[test]
fn numbers_are_written_and_read() {
    for n in [0u128, 7, 10, 409, u64::MAX as u128] {
        let mut out = String::new();
        push_decimal(&mut out, n);
        assert_eq!(out, n.to_string());
        assert_eq!(read_number(&chars_of(&out), u64::MAX), Some(n as u64));
    }
    for n in [-1i32, 0, 12, i32::MIN, i32::MAX] {
        let mut out = String::new();
        push_signed(&mut out, n);
        assert_eq!(out, n.to_string());
    }
    for odd in ["", "+", "-1", "1a", " 1", "18446744073709551616", "256"] {
        assert_eq!(read_number(&chars_of(odd), 255), None, "{odd}");
    }
    assert_eq!(read_number(&chars_of("+0255"), 255), Some(255));
}

#[test]
fn texts_are_split_as_the_standard_library_does() {
    for sample in ["", " ", "a", " a  b\n", "x\u{a0}y\u{2003}z", "tab\tand\u{85}line"] {
        let mine: Vec<String> = words_of(sample).iter().map(|word| text(word)).collect();
        let theirs: Vec<&str> = sample.split_whitespace().collect();
        assert_eq!(mine, theirs, "{sample:?}");
        assert_eq!(count_words(sample), theirs.len());
        assert_eq!(trimmed(sample), sample.trim());
    }
    for sample in ["", ",", "a,,b", "a,b,"] {
        let mine: Vec<String> =
            split_char(&chars_of(sample), ',').iter().map(|part| text(part)).collect();
        assert_eq!(mine, sample.split(',').collect::<Vec<&str>>());
    }
    for sample in ["", "http://x", "a://b://c", ":///"] {
        let mine: Vec<String> =
            split_text(&chars_of(sample), &chars_of("://")).iter().map(|part| text(part)).collect();
        assert_eq!(mine, sample.split("://").collect::<Vec<&str>>());
    }
}

#[test]
fn joining_and_hexadecimal() {
    let parts = vec!["a".to_string(), "".to_string(), "b".to_string()];
    assert_eq!(join_strings(&parts, ", "), "a, , b");
    assert_eq!(join_strings(&[], ", "), "");
    assert_eq!(hex_string(&[0, 15, 16, 255]), "000f10ff");
}
