use kkc_plugins::text::{
    chars_of, decimal_of, fill_left, hex_of, join_with, lines_of, parse_index, same_text, signed_decimal,
    split_at_class, string_of, strip_back, strip_both, strip_front, trim, trim_part, words_of, CharClass,
};
use kkc_plugins::width::{columns_of, str_display_width, str_width, Measure};
use kkc_plugins::wrap::wrap_text;
use kkc_plugins::{epub, pdf};

#[test]
fn numbers_are_written_and_read_back() {
    for n in [0u64, 7, 10, 999, 1_000_000, u64::MAX] {
        assert_eq!(decimal_of(n), n.to_string());
        assert_eq!(parse_index(&decimal_of(n)), Some(n as usize));
    }
    for n in [0i64, -1, 42, i64::MIN, i64::MAX] {
        assert_eq!(signed_decimal(n), n.to_string());
    }
    assert_eq!(hex_of(0x2A, 2), "2A");
    assert_eq!(hex_of(0, 8), "00000000");
    assert_eq!(hex_of(0x1234, 2), "1234");
}

#[test]
fn only_plain_numbers_are_indices() {
    assert_eq!(parse_index("+7"), Some(7));
    assert_eq!(parse_index("007"), Some(7));
    assert_eq!(parse_index(""), None);
    assert_eq!(parse_index("+"), None);
    assert_eq!(parse_index("-1"), None);
    assert_eq!(parse_index(" 1"), None);
    assert_eq!(parse_index("1x"), None);
    assert_eq!(parse_index("18446744073709551616"), None);
    assert_eq!(parse_index("18446744073709551615"), Some(usize::MAX));
}

#[test]
fn ends_are_stripped() {
    assert_eq!(trim(" \u{a0}\t x y \u{3000}\n"), "x y");
    assert_eq!(trim_part(" \u{2003}a "), "a");
    assert_eq!(trim_part(" \n "), "");
    let s: Vec<char> = "//a/b//".chars().collect();
    assert_eq!(string_of(strip_front(&s, CharClass::Only('/'))), "a/b//");
    assert_eq!(string_of(strip_back(&s, CharClass::Only('/'))), "//a/b");
    assert_eq!(string_of(strip_both(&s, CharClass::Only('/'))), "a/b");
    let v = chars_of("\u{b}a\u{b}");
    assert_eq!(string_of(strip_both(&v, CharClass::AsciiWhite)), "\u{b}a\u{b}");
    assert_eq!(string_of(strip_both(&v, CharClass::White)), "a");
}

#[test]
fn texts_are_cut_into_pieces() {
    let parts = split_at_class(&chars_of("/a//b"), CharClass::Only('/'));
    let texts: Vec<String> = parts.iter().map(|p| string_of(p)).collect();
    assert_eq!(texts, vec!["", "a", "", "b"]);
    assert_eq!(words_of(&chars_of("  one\ttwo\u{2009}three "), CharClass::White), vec!["one", "two", "three"]);
    assert_eq!(lines_of("a\r\nb\n\nc\r"), vec!["a", "b", "", "c\r"]);
    assert_eq!(lines_of(""), Vec::<String>::new());
    assert_eq!(join_with(&vec!["a".to_string(), "b".to_string()], ", "), "a, b");
    assert_eq!(join_with(&Vec::new(), ", "), "");
    assert_eq!(fill_left("7", 3, ' '), "  7");
    assert_eq!(fill_left("1234", 3, ' '), "1234");
    assert!(same_text("\u{e9}", "\u{e9}"));
    assert!(!same_text("ab", "abc"));
}

#[test]
fn columns_of_characters() {
    assert_eq!(columns_of('a'), 1);
    assert_eq!(columns_of('\u{4e2d}'), 2);
    assert_eq!(columns_of('\u{301}'), 0);
    assert_eq!(columns_of('\n'), 0);
    assert_eq!(str_width("a\u{4e2d}\u{301}"), 3);
}

#[test]
fn no_character_is_wider_than_its_encoding() {
    for code in 0..0x11_0000u32 {
        if let Some(c) = char::from_u32(code) {
            assert!(columns_of(c) <= c.len_utf8());
        }
    }
}

#[test]
fn ascii_words_are_measured_by_length() {
    assert_eq!(str_display_width("abcdefghijklmnopqrstuvwxyz"), 26);
    assert_eq!(str_display_width("tab\tand\u{1}bell"), 12);
    assert_eq!(str_width("tab\tand\u{1}bell"), 10);
    assert_eq!(str_display_width("0123456789abcde\u{4e2d}"), 17);
    assert_eq!(str_display_width("0123456789abcdef\u{4e2d}"), 18);
    assert_eq!(str_display_width(""), 0);
}

#[test]
fn words_are_wrapped_at_the_margin() {
    assert_eq!(wrap_text("one two  three\n\n four ", Measure::Columns, 7), vec!["one two", "three", "", "four"]);
    assert_eq!(wrap_text("\u{4e2d}\u{6587} a", Measure::Columns, 5), vec!["\u{4e2d}\u{6587}", "a"]);
    assert_eq!(wrap_text("\u{4e2d}\u{6587} a", Measure::Columns, 6), vec!["\u{4e2d}\u{6587} a"]);
    assert_eq!(wrap_text("a\r\nb\n", Measure::Columns, 0), vec!["a", "b"]);
    assert_eq!(wrap_text("", Measure::Columns, 5), vec![""]);
}

#[test]
fn words_wider_than_a_line_are_broken() {
    assert_eq!(wrap_text("abcdef gh", Measure::Columns, 3), vec!["abc", "def", "gh"]);
    assert_eq!(wrap_text("x abcdefgh i", Measure::Columns, 5), vec!["x", "abcde", "fgh i"]);
    assert_eq!(wrap_text("\u{4e2d}\u{6587}\u{5b57}", Measure::Columns, 5), vec!["\u{4e2d}\u{6587}", "\u{5b57}"]);
    assert_eq!(wrap_text("a\u{4e2d}b", Measure::Columns, 1), vec!["a", "\u{4e2d}", "b"]);
    assert_eq!(wrap_text("a\u{1}\u{1}b\u{e9}c", Measure::Display, 2), vec!["a\u{1}", "\u{1}b\u{e9}", "c"]);
    assert_eq!(wrap_text("abc", Measure::Display, 3), vec!["abc"]);
}

#[test]
fn wrapping_keeps_every_word_and_the_width() {
    let text = "the quick brown fox jumps over the lazy dog\nand rests";
    for max_w in 0..30usize {
        let lines = wrap_text(text, Measure::Display, max_w);
        let words: Vec<&str> = lines.iter().flat_map(|l| l.split_whitespace()).collect();
        let all: Vec<&str> = text.split_whitespace().collect();
        if max_w == 0 || max_w >= 5 {
            assert_eq!(words, all);
        }
        assert_eq!(words.concat(), all.concat());
        for line in &lines {
            assert!(max_w == 0 || str_display_width(line) <= max_w);
        }
    }
}

#[test]
fn viewers_wrap_by_their_own_measure() {
    assert_eq!(epub::word_wrap("a\u{1}b c", 4), vec!["a\u{1}b c"]);
    assert_eq!(pdf::word_wrap("a\u{1}b c", 4), vec!["a\u{1}b", "c"]);
}

#[test]
fn wrapping_again_changes_nothing() {
    let texts = [
        "",
        "\n\n",
        "  the quick  brown\tfox\n\n jumps over\r\nthe lazy dog ",
        "abcdefghij kl mno p\u{1}\u{1}q",
        "a\u{4e2d}\u{6587}b \u{5b57}\u{301} e\u{301}\u{e9}\u{1}x",
    ];
    for text in texts {
        for measure in [Measure::Columns, Measure::Display] {
            for max_w in 1..12usize {
                let lines = wrap_text(text, measure, max_w);
                assert_eq!(wrap_text(&lines.join("\n"), measure, max_w), lines);
            }
        }
    }
    assert_eq!(epub::word_wrap("x abcdefgh i", 5).join("\n"), "x\nabcde\nfgh i");
}
