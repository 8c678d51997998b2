use opencodesearch::find::{find_chars, lower_text, text_contains};
use opencodesearch::lines::{count_newlines, text_first_two_words, text_lines};
use opencodesearch::number::{decimal_text, parse_usize};
use opencodesearch::paths::{absolute_path_string, joined_path, name_extension, path_is_absolute};
use opencodesearch::text::{
    is_one_of, same_text, slice_text, text_byte_len, text_is_blank, to_chars, trim_text,
    trim_text_class, trim_text_end, white_space, CharClass,
};

#[test]
fn white_space_is_that_of_the_language() {
    for code in 0..=0x10ffffu32 {
        if let Some(c) = char::from_u32(code) {
            assert_eq!(white_space(c), c.is_whitespace(), "{}", code);
        }
    }
}

#[test]
fn trimming_agrees_with_str() {
    for text in ["", " ", "a", " a b\t", "\u{3000}x\u{a0}", "\n\r\n", "\"q\"", "//a//"] {
        assert_eq!(trim_text(text), text.trim());
        assert_eq!(text_is_blank(text), text.trim().is_empty());
        assert_eq!(trim_text_class(text, CharClass::One('"')), text.trim_matches('"'));
        assert_eq!(trim_text_class(text, CharClass::One('/')), text.trim_matches('/'));
        assert_eq!(trim_text_end(text, CharClass::One('/')), text.trim_end_matches('/'));
        assert_eq!(trim_text(&trim_text(text)), trim_text(text));
    }
}

#[test]
fn texts_are_compared_and_measured() {
    assert!(same_text("\u{e4}b", "\u{e4}b"));
    assert!(!same_text("ab", "abc"));
    assert!(!same_text("ab", "ac"));
    assert_eq!(text_byte_len("a\u{e4}\u{20ac}\u{1f600}"), 10);
    let list = vec!["x".to_string(), "y".to_string()];
    assert!(is_one_of(&list, "y"));
    assert!(!is_one_of(&list, "z"));
    assert_eq!(slice_text(&to_chars("a\u{e4}bc"), 1, 3), "\u{e4}b");
}

#[test]
fn lines_agree_with_str() {
    for text in ["", "\n", "a", "a\n", "a\r\nb", "a\n\nb\r\r\n", "\r", "a\rb\n"] {
        let expected: Vec<String> = text.lines().map(|line| line.to_string()).collect();
        assert_eq!(text_lines(text), expected, "{:?}", text);
    }
    assert_eq!(count_newlines(&to_chars("a\nb\nc\n"), 4), 2);
}

#[test]
fn words_agree_with_str() {
    for text in ["", "M", "M\tsrc/a.rs", "  A  b  c ", "R100\told.rs\tnew.rs", "\u{3000}x\u{3000}y"] {
        let mut parts = text.split_whitespace();
        let expected = match (parts.next(), parts.next()) {
            (Some(a), Some(b)) => Some((a.to_string(), b.to_string())),
            _ => None,
        };
        assert_eq!(text_first_two_words(text), expected);
    }
}

#[test]
fn searching_agrees_with_str() {
    for (hay, needle) in [("", ""), ("abc", ""), ("abc", "bc"), ("aab", "ab"), ("abc", "abcd"), ("\u{e4}x", "x")] {
        assert_eq!(text_contains(hay, needle), hay.contains(needle));
        let expected = hay.find(needle).map(|at| hay[..at].chars().count());
        assert_eq!(find_chars(&to_chars(hay), &to_chars(needle)), expected);
    }
    assert_eq!(lower_text("ABC\u{c4}z"), "abc\u{c4}z");
}

#[test]
fn numbers_agree_with_std() {
    for text in ["", "+", "0", "007", "+12", "-1", "1a", "18446744073709551615", "18446744073709551616", " 1"] {
        assert_eq!(parse_usize(text), text.parse::<usize>().ok(), "{}", text);
    }
    for number in [0, 9, 10, 1203, usize::MAX] {
        assert_eq!(decimal_text(number), number.to_string());
        assert_eq!(parse_usize(&decimal_text(number)), Some(number));
    }
}

#[test]
fn paths_agree_with_std() {
    for (base, path) in [("/r", "a"), ("/r/", "a/b"), ("", "a"), ("r", "/abs"), ("r", ""), (".", "x")] {
        let expected = std::path::Path::new(base).join(path).display().to_string();
        assert_eq!(joined_path(base, path), expected);
        assert_eq!(path_is_absolute(path), std::path::Path::new(path).is_absolute());
    }
    for name in ["a.rs", "a.tar.gz", ".bashrc", "a.", "a", "..b", ".a.b", "a.RS"] {
        let expected = std::path::Path::new(name).extension().map(|e| e.to_str().unwrap().to_string());
        assert_eq!(name_extension(name), expected, "{}", name);
    }
}

#[test]
fn stored_paths_are_absolute_where_possible() {
    let some = |text: &str| Some(text.to_string());
    assert_eq!(absolute_path_string(some("/real/a"), "a", some("/cwd")), "/real/a");
    assert_eq!(absolute_path_string(None, "/abs/a", some("/cwd")), "/abs/a");
    assert_eq!(absolute_path_string(None, "a", some("/cwd")), "/cwd/a");
    assert_eq!(absolute_path_string(None, "a", None), "a");
}
