use inner_browser::text::{collapse_ws, decimal_string, split_lines_of, split_words, trim_str};
use inner_browser::{normalize_ws, normalize_ws_multiline};

#[test]
fn normalize_ws_collapses_runs() {
    assert_eq!(normalize_ws("  a \t b\n c  "), "a b c");
}

#[test]
fn normalize_ws_empty_and_blank() {
    assert_eq!(normalize_ws(""), "");
    assert_eq!(normalize_ws(" \n\t "), "");
}

#[test]
fn normalize_ws_unicode_whitespace() {
    assert_eq!(normalize_ws("a\u{a0}\u{2003}b\u{3000}c"), "a b c");
    assert_eq!(normalize_ws("x\u{200b}y"), "x\u{200b}y");
}

#[test]
fn normalize_ws_is_idempotent() {
    let once = normalize_ws("  one   two\u{85}three  ");
    assert_eq!(normalize_ws(&once), once);
}

#[test]
fn collapse_ws_matches_normalize() {
    assert_eq!(collapse_ws(" p  q "), "p q");
}

#[test]
fn normalize_multiline_keeps_lines() {
    assert_eq!(normalize_ws_multiline("  a  b \n\n  c\n"), "a b\n\nc");
}

#[test]
fn normalize_multiline_trims_outer_blank_lines() {
    assert_eq!(normalize_ws_multiline("\n \n  x  \n \n"), "x");
    assert_eq!(normalize_ws_multiline(""), "");
}

#[test]
fn normalize_multiline_crlf() {
    assert_eq!(normalize_ws_multiline("a\r\nb"), "a\nb");
}

#[test]
fn trim_removes_outer_whitespace() {
    assert_eq!(trim_str("  hi there \n"), "hi there");
    assert_eq!(trim_str("   "), "");
}

#[test]
fn split_words_finds_words() {
    assert_eq!(split_words(" ab  c d "), vec!["ab".to_string(), "c".to_string(), "d".to_string()]);
    assert!(split_words("  ").is_empty());
}

#[test]
fn split_lines_keeps_empty_pieces() {
    assert_eq!(split_lines_of("a\n\nb\n"), vec!["a", "", "b", ""]);
    assert_eq!(split_lines_of(""), vec![""]);
}

#[test]
fn decimal_renders_numbers() {
    assert_eq!(decimal_string(0), "0");
    assert_eq!(decimal_string(7), "7");
    assert_eq!(decimal_string(120), "120");
    assert_eq!(decimal_string(u32::MAX), "4294967295");
}

#[test]
fn normalize_multiline_is_idempotent() {
    for s in ["\n  a  b \n\n\t c \n\n", "", " \n \n", "x", "one\ntwo  three\n\n\nfour "] {
        let once = normalize_ws_multiline(s);
        assert_eq!(normalize_ws_multiline(&once), once);
    }
}

#[test]
fn normalize_multiline_without_newline_is_normalize() {
    for s in ["  a\tb  c ", "", "   ", "x\u{a0}y"] {
        assert_eq!(normalize_ws_multiline(s), normalize_ws(s));
    }
}
