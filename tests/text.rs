use grlib::codec::ValueCodec;
use grlib::decimal::{format_u32, parse_u32_chars};
use grlib::text::{split_at_space, split_lines};

#[test]
fn decimal_formats() {
    assert_eq!(format_u32(0), "0");
    assert_eq!(format_u32(7), "7");
    assert_eq!(format_u32(1200), "1200");
    assert_eq!(format_u32(4294967295), "4294967295");
}

#[test]
fn decimal_parses() {
    let p = |s: &str| parse_u32_chars(&s.chars().collect());
    assert_eq!(p("0"), Some(0));
    assert_eq!(p("+42"), Some(42));
    assert_eq!(p("0042"), Some(42));
    assert_eq!(p("4294967295"), Some(4294967295));
    assert_eq!(p("4294967296"), None);
    assert_eq!(p("99999999999"), None);
    assert_eq!(p(""), None);
    assert_eq!(p("+"), None);
    assert_eq!(p("-1"), None);
    assert_eq!(p("1a"), None);
}

#[test]
fn u32_codec() {
    assert_eq!(31u32.encode(), "31");
    assert_eq!(u32::decode("31"), Some(31));
    assert_eq!(u32::decode("3 1"), None);
}

#[test]
fn lines_split_like_std() {
    for text in ["", "a", "a\n", "a\nb", "a\n\nb\n", "\n", "a\r\nb\r\n", "a\r", "x\ry\n"] {
        let expected: Vec<&str> = text.lines().collect();
        assert_eq!(split_lines(text), expected);
    }
}

#[test]
fn one_space_splits() {
    assert_eq!(split_at_space("ab cd"), Some(("ab", "cd")));
    assert_eq!(split_at_space(" x"), Some(("", "x")));
    assert_eq!(split_at_space("x "), Some(("x", "")));
    assert_eq!(split_at_space("abc"), None);
    assert_eq!(split_at_space("a b c"), None);
}
