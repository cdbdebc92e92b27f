use rust_benchy::exact::{mul_div, mul_div_rounded};
use rust_benchy::text::{
    characters, contains, decimal_text, find, hexadecimal_text, join, same, space, split,
    split_once, strip_prefix, text_between, trim, trim_end_matches, trim_start_matches,
};

#[test]
fn white_space_is_that_of_unicode() {
    for code in 0..=0x10ffffu32 {
        if let Some(c) = char::from_u32(code) {
            assert_eq!(space(c), c.is_whitespace(), "{code:x}");
        }
    }
}

#[test]
fn ends_are_trimmed() {
    for text in ["", " \t", " a b\u{3000}", "\u{85}é\r\n", "x"] {
        assert_eq!(trim(text), text.trim());
        assert_eq!(trim_start_matches(text, ' '), text.trim_start_matches(' '));
        assert_eq!(trim_end_matches(text, '\n'), text.trim_end_matches('\n'));
    }
    assert_eq!(trim_end_matches("a//", '/'), "a");
    assert_eq!(trim_start_matches("//a/", '/'), "a/");
}

#[test]
fn texts_are_split() {
    for text in ["", ",", "a", "a,b", ",a,,b,", "é,日"] {
        let expected: Vec<&str> = text.split(',').collect();
        assert_eq!(split(text, ','), expected);
        let expected = text
            .split_once(',')
            .map(|(a, b)| (a.to_owned(), b.to_owned()));
        assert_eq!(split_once(text, ','), expected);
    }
}

#[test]
fn texts_are_searched() {
    for (text, pattern) in [
        ("abcabd", "abd"),
        ("abc", ""),
        ("", "a"),
        ("aaab", "aab"),
        ("日本語", "本"),
        ("ab", "abc"),
    ] {
        assert_eq!(contains(text, pattern), text.contains(pattern));
        let expected = text.find(pattern).map(|at| text[..at].chars().count());
        assert_eq!(find(&characters(text), &characters(pattern)), expected);
        assert_eq!(strip_prefix(text, pattern).as_deref(), text.strip_prefix(pattern));
        assert_eq!(same(text, pattern), text == pattern);
    }
    assert_eq!(strip_prefix("data: x", "data:").as_deref(), Some(" x"));
    assert_eq!(text_between(&characters("aé日b"), 1, 3), "é日");
}

#[test]
fn lists_are_joined() {
    let list = vec!["a".to_owned(), "".to_owned(), "c".to_owned()];
    assert_eq!(join(&list, ", "), "a, , c");
    assert_eq!(join(&vec![], ", "), "");
}

#[test]
fn numbers_are_printed() {
    for n in [0, 7, 10, 409, 65536, u64::MAX] {
        assert_eq!(decimal_text(n), n.to_string());
        assert_eq!(hexadecimal_text(n, 16), format!("{n:016x}"));
    }
}

#[test]
fn products_are_divided_exactly() {
    assert_eq!(mul_div(7, 9, 4), (Some(15), 3));
    assert_eq!(mul_div(u128::MAX, u128::MAX, u128::MAX), (Some(u128::MAX), 0));
    assert_eq!(mul_div(u128::MAX, 2, 1), (None, 0));
    assert_eq!(mul_div_rounded(7, 1, 2, 100), 4);
    assert_eq!(mul_div_rounded(10, 1, 4, 100), 3);
    assert_eq!(mul_div_rounded(9, 1, 4, 100), 2);
    assert_eq!(mul_div_rounded(u128::MAX, u128::MAX, 1, 100), 100);
}
