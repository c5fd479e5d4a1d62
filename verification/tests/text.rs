//! Text.
use hunkle::text::{
    chars_of, decimal_string, hex_string, lines_of, parse_number, split_once, string_of,
    strip_prefix, trim, trim_end, NumberError,
};

fn number(s: &str) -> Result<usize, NumberError> {
    parse_number(&chars_of(s))
}

#[test]
fn numbers_are_written_and_read() {
    for n in [0, 7, 10, 65_535, usize::MAX] {
        assert_eq!(decimal_string(n), n.to_string());
        assert_eq!(number(&decimal_string(n)), Ok(n));
    }
    assert_eq!(number("+12"), Ok(12));
    assert_eq!(number("007"), Ok(7));
    for s in ["", "+", "-1", "1a", "+1+", "99999999999999999999", "9999999999999999999x"] {
        assert_eq!(number(s).is_err(), s.parse::<usize>().is_err());
    }
    assert_eq!(number(""), Err(NumberError::Empty));
    assert_eq!(number("+"), Err(NumberError::InvalidDigit));
    assert_eq!(
        number("99999999999999999999999"),
        Err(NumberError::Overflow)
    );
    assert_eq!(hex_string(0x0123_abcd, 16), "000000000123abcd");
    assert_eq!(hex_string(0xff, 1), "f");
}

#[test]
fn white_space_is_trimmed_as_std_trims_it() {
    for s in ["", " a b\t\n", "\u{3000}x\u{a0}", "\u{200b}x", "\u{85}\u{1680}", "x"] {
        assert_eq!(trim(s), s.trim());
        assert_eq!(trim_end(s), s.trim_end());
    }
}

#[test]
fn white_space_is_that_of_unicode() {
    for u in 0..=0x10_ffff_u32 {
        if let Some(c) = char::from_u32(u) {
            assert_eq!(hunkle::text::is_white(c), c.is_whitespace());
        }
    }
}

#[test]
fn texts_are_cut_and_stripped() {
    let s = chars_of("a b b/c b/d");
    let (x, y) = split_once(&s, " b/").unwrap();
    assert_eq!((string_of(x), string_of(y)), ("a b".into(), "c b/d".into()));
    assert!(split_once(&s, "//").is_none());
    assert_eq!(
        strip_prefix(&s, "a ").map(string_of),
        Some("b b/c b/d".to_string())
    );
    assert!(strip_prefix(&s, "b").is_none());
}

#[test]
fn lines_are_those_of_std() {
    for s in ["", "\n", "a", "a\nb\r\n\nc\r", "\r\n", "a\r\r\n"] {
        let chars = chars_of(s);
        let got: Vec<String> = lines_of(&chars).into_iter().map(string_of).collect();
        let want: Vec<String> = s.lines().map(|l| l.to_string()).collect();
        assert_eq!(got, want);
    }
}
