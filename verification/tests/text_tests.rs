use neuraltype::text::{
    chars_of, parse_i64, parse_u32, push_decimal, push_decimal_nat, split_at_char, split_words, string_of,
    strip,
};

fn cs(s: &str) -> Vec<char> {
    s.chars().collect()
}

#[test]
fn parse_i64_like_str_parse() {
    assert_eq!(parse_i64(&cs("42")), Some(42));
    assert_eq!(parse_i64(&cs("+42")), Some(42));
    assert_eq!(parse_i64(&cs("-7")), Some(-7));
    assert_eq!(parse_i64(&cs("-9223372036854775808")), Some(i64::MIN));
    assert_eq!(parse_i64(&cs("9223372036854775807")), Some(i64::MAX));
    assert_eq!(parse_i64(&cs("9223372036854775808")), None);
    assert_eq!(parse_i64(&cs("")), None);
    assert_eq!(parse_i64(&cs("-")), None);
    assert_eq!(parse_i64(&cs("4a")), None);
    assert_eq!(parse_i64(&cs(" 4")), None);
    for s in ["0", "-0", "+0", "123456789", "-99", "1e3", "--1"] {
        assert_eq!(parse_i64(&cs(s)), s.parse::<i64>().ok());
    }
}

#[test]
fn decimal_output() {
    let mut s = String::new();
    push_decimal(&mut s, -120);
    s.push(' ');
    push_decimal(&mut s, 0);
    s.push(' ');
    push_decimal_nat(&mut s, 9);
    s.push(' ');
    push_decimal(&mut s, i128::MIN);
    assert_eq!(s, format!("-120 0 9 {}", i128::MIN));
}

#[test]
fn strings_and_chars_round_trip() {
    let t = "لا ab";
    assert_eq!(chars_of(t), cs(t));
    assert_eq!(string_of(&chars_of(t)), t);
}

#[test]
fn strip_and_words() {
    assert_eq!(strip(&cs("\t a b \u{3000}"), false), cs("a b"));
    assert_eq!(strip(&cs("(12s)"), true), cs("12"));
    assert_eq!(strip(&cs("sss"), true), cs(""));
    assert_eq!(split_words(&cs("  one\ttwo  three ")), vec![cs("one"), cs("two"), cs("three")]);
    assert_eq!(split_words(&cs("   ")), Vec::<Vec<char>>::new());
    assert_eq!(split_at_char(&cs("a,,b,"), ','), vec![cs("a"), cs(""), cs("b"), cs("")]);
    assert_eq!(split_at_char(&cs(""), ','), vec![cs("")]);
    assert_eq!(parse_u32(&cs("+42")), Some(42));
    assert_eq!(parse_u32(&cs("-0")), None);
    assert_eq!(parse_u32(&cs("4294967296")), None);
    assert_eq!(parse_u32(&cs("4294967295")), Some(4294967295));
}
