use torrent_search::text::{
    char_is_space, decimal_string, first_piece, pad_left_str, pad_right_str, replace_char_str,
    split_words, starts_with, str_eq, strip_prefix, strip_suffix, trim_str,
};
use torrent_search::providers::{read_u32, read_u64};

fn samples() -> Vec<&'static str> {
    vec![
        "",
        " ",
        "abc",
        "  abc  ",
        "\t1.5 GiB\n",
        "a b  c",
        "\u{a0}x\u{3000}y\u{2028}",
        "\u{85}\u{1680}\u{200a}z\u{202f}\u{205f}",
        "0",
        "+12",
        "-3",
        "+",
        "-",
        "++1",
        "4294967295",
        "4294967296",
        "18446744073709551615",
        "18446744073709551616",
        "007",
        "1,234",
        "12a",
        "١٢",
        "  42 ",
        "é ü",
        "a\u{b}b\u{c}c\rd",
        "x\u{200b}y",
    ]
}

#[test]
fn whitespace_matches_std_for_every_char() {
    for c in (0u32..=0x10FFFF).filter_map(char::from_u32) {
        assert_eq!(char_is_space(c), c.is_whitespace(), "char {:?}", c);
    }
}

#[test]
fn trim_and_words_match_std() {
    for s in samples() {
        assert_eq!(trim_str(s), s.trim(), "trim {:?}", s);
        let words: Vec<&str> = s.split_whitespace().collect();
        assert_eq!(split_words(s), words, "words {:?}", s);
    }
}

#[test]
fn number_parsing_matches_std() {
    for s in samples() {
        assert_eq!(read_u32(s), s.parse::<u32>().ok(), "u32 {:?}", s);
        assert_eq!(read_u64(s), s.parse::<u64>().ok(), "u64 {:?}", s);
    }
}

#[test]
fn decimal_matches_display() {
    for n in [0u64, 1, 9, 10, 11, 99, 100, 1024, 4294967295, u64::MAX - 1, u64::MAX] {
        assert_eq!(decimal_string(n), n.to_string());
    }
}

#[test]
fn padding_matches_format_widths() {
    for s in samples() {
        for w in [0usize, 1, 3, 4, 8, 20] {
            assert_eq!(pad_left_str(s, w), format!("{:>w$}", s, w = w));
            assert_eq!(pad_right_str(s, w), format!("{:<w$}", s, w = w));
        }
    }
}

#[test]
fn string_helpers_match_std() {
    for s in samples() {
        for p in ["", "a", "ab", "+", " "] {
            assert_eq!(starts_with(s, p), s.starts_with(p));
            assert_eq!(strip_prefix(s, p), s.strip_prefix(p));
            assert_eq!(strip_suffix(s, p), s.strip_suffix(p));
            assert_eq!(str_eq(s, p), s == p);
        }
        assert_eq!(first_piece(s, ' '), s.split(' ').next().unwrap());
        assert_eq!(replace_char_str(s, ' ', "-"), s.replace(' ', "-"));
        assert_eq!(replace_char_str(s, ',', ""), s.replace(',', ""));
    }
}
