use ttrack_pro::format::{
    prefixed, join_texts, left_cell, parse_unsigned, plain_cell, right_cell, row_of, shorten,
    text_of_i64, text_of_u64,
};
use ttrack_pro::order::{not_after, sort};
use ttrack_pro::path::{
    base_name_of, has_extension, is_relative, join_path, stem_of,
};
use ttrack_pro::seconds::{is_positive, whole_seconds};
use ttrack_pro::text::{
    byte_len, chars_of, lines_of, or_text, same_text, strip_prefix, text_contains, trimmed,
    without_prefixes, without_suffixes,
};

#[test]
fn lines_end_with_line_feeds() {
    assert_eq!(lines_of("a\nb\r\nc"), vec!["a", "b", "c"]);
    assert_eq!(lines_of("a\n\n"), vec!["a", ""]);
    assert_eq!(lines_of("a\r"), vec!["a\r"]);
    assert_eq!(lines_of(""), Vec::<String>::new());
    for s in ["", "\n", "a", "a\n", "a\r\n", "a\r\r\nb", "\r\n\r\n", "é\nü\r\nö\r"] {
        assert_eq!(lines_of(s), s.lines().map(|l| l.to_string()).collect::<Vec<_>>());
    }
}

#[test]
fn white_space_is_trimmed() {
    for s in ["", " ", " a ", "\ta b\n", "\u{3000}a\u{a0}", "\u{200b}a", "\u{85}x\u{2028}"] {
        assert_eq!(trimmed(s), s.trim());
    }
}

#[test]
fn texts_are_searched() {
    assert!(text_contains("abc", "bc"));
    assert!(text_contains("abc", ""));
    assert!(!text_contains("abc", "abcd"));
    assert!(text_contains("aaab", "aab"));
    assert!(same_text("é", "é"));
    assert!(!same_text("e\u{301}", "é"));
    assert_eq!(byte_len("é"), 2);
    assert_eq!(chars_of("aé"), vec!['a', 'é']);
}

#[test]
fn affixes_are_taken_off() {
    assert_eq!(strip_prefix("TAIL x", "TAIL ").as_deref(), Some("x"));
    assert_eq!(strip_prefix("TAIL", "TAIL "), None);
    assert_eq!(without_suffixes("a.cast.cast", ".cast"), "a");
    assert_eq!(without_suffixes(".cast", ".cast"), "");
    assert_eq!(without_suffixes("cast", ".cast"), "cast");
    assert_eq!(without_prefixes("ERR ERR x", "ERR "), "x");
    assert_eq!(without_prefixes("xERR ", "ERR "), "xERR ");
    assert_eq!(or_text(&None, "?"), "?");
    assert_eq!(or_text(&Some("t".to_string()), "?"), "t");
}

#[test]
fn numbers_are_written_and_read() {
    for n in [0u64, 9, 10, 12345, u64::MAX] {
        assert_eq!(text_of_u64(n), n.to_string());
        assert_eq!(parse_unsigned(&n.to_string(), u64::MAX), Some(n));
    }
    for n in [0i64, -1, 10, i64::MIN, i64::MAX] {
        assert_eq!(text_of_i64(n), n.to_string());
    }
    assert_eq!(parse_unsigned("+7", 10), Some(7));
    assert_eq!(parse_unsigned("11", 10), None);
    for s in ["", "+", "-1", "1 ", "0x1", "++1", "99999999999999999999"] {
        assert_eq!(parse_unsigned(s, u64::MAX), s.parse::<u64>().ok());
    }
}

#[test]
fn columns_are_filled() {
    let row = row_of(&vec![left_cell("ab", 4), right_cell("c", 3), plain_cell("d")]);
    assert_eq!(row, format!("{:<4} {:>3} {}", "ab", "c", "d"));
    let row = row_of(&vec![left_cell("äöü", 4), left_cell("too long", 3), plain_cell("")]);
    assert_eq!(row, format!("{:<4} {:<3} {}", "äöü", "too long", ""));
    assert_eq!(join_texts(&vec!["a".to_string(), "b".to_string()], ", "), "a, b");
    assert_eq!(join_texts(&vec![], ", "), "");
    assert_eq!(prefixed("a", "b"), "ab");
}

#[test]
fn long_texts_are_cut_between_characters() {
    assert_eq!(shorten("abc", 3, "…"), "abc");
    assert_eq!(shorten("abcd", 3, "…"), "abc…");
    assert_eq!(shorten("aéb", 2, "…"), "a…");
    assert_eq!(shorten("é", 1, "..."), "...");
}

#[test]
fn bytes_are_put_in_order() {
    assert!(not_after(b"a", b"a"));
    assert!(not_after(b"", b"a"));
    assert!(not_after(b"Z", b"a"));
    assert!(!not_after(b"ab", b"a"));
    let names: Vec<String> = ["b", "a", "é", "B", "a"].iter().map(|s| s.to_string()).collect();
    let mut expected = names.clone();
    expected.sort();
    assert_eq!(sort(names), expected);
}

#[test]
fn paths_are_joined_and_split() {
    assert_eq!(join_path(b"/a", b"b"), b"/a/b");
    assert_eq!(join_path(b"/a/", b"b"), b"/a/b");
    assert_eq!(join_path(b"/a", b"/b"), b"/b");
    assert_eq!(join_path(b"", b"b"), b"b");
    assert!(is_relative(b"a/b"));
    assert!(!is_relative(b"/a"));
    assert_eq!(base_name_of(b"/a/b.cast"), b"b.cast");
    assert_eq!(base_name_of(b"b"), b"b");
    assert_eq!(stem_of(b"a.b.cast"), b"a.b");
    assert_eq!(stem_of(b".cast"), b".cast");
    assert!(has_extension(b"x.cast", b"cast"));
    assert!(!has_extension(b".cast", b"cast"));
    assert!(!has_extension(b"x.cast.gz", b"cast"));
    assert!(!has_extension(b"..", b""));
    assert!(has_extension(b"x.", b""));
}

#[test]
fn whole_seconds_are_cut_off() {
    for x in [
        0.0f64, -0.0, 0.5, 0.999, 1.0, 1.5, 59.99, 123.0, 3600.0, 1e9, 1.7e9 + 0.25, 4503599627370495.5,
        9007199254740993.0, 1e18, 9.3e18, 1.8e19, 1e19, 1e20, 1e300, f64::INFINITY, -1.0, -1e300,
        f64::NEG_INFINITY, f64::NAN, -f64::NAN, f64::MIN_POSITIVE, 5e-324,
    ] {
        assert_eq!(whole_seconds(x.to_bits(), u64::MAX), x.max(0.0) as u64, "{x}");
        assert_eq!(is_positive(x.to_bits()), x > 0.0, "{x}");
        assert_eq!(whole_seconds(x.to_bits(), i64::MAX as u64), x.max(0.0) as i64 as u64, "{x}");
    }
}
