use data_generator::data::cell::integer_text;
use data_generator::data::number::parse_integer;
use data_generator::text::{
    chars_of, copy_strings, is_whitespace, join, same_text, split, text_of, trim,
};

fn chars(s: &str) -> Vec<char> {
    s.chars().collect()
}

fn texts(pieces: Vec<Vec<char>>) -> Vec<String> {
    pieces.into_iter().map(|p| p.into_iter().collect()).collect()
}

#[test]
fn chars_and_text_are_inverse() {
    let v = chars_of("héllo");
    assert_eq!(v, vec!['h', 'é', 'l', 'l', 'o']);
    assert_eq!(text_of(&v), "héllo");
    assert_eq!(text_of(&chars_of("")), "");
}

#[test]
fn same_text_compares_characters() {
    assert!(same_text("abc", "abc"));
    assert!(!same_text("abc", "abd"));
    assert!(!same_text("abc", "ab"));
    assert!(same_text("", ""));
}

#[test]
fn join_puts_the_separator_between_neighbours() {
    let parts = vec!["a".to_string(), "b".to_string(), "c".to_string()];
    assert_eq!(join(&parts, "::"), "a::b::c");
    assert_eq!(join(&parts[..1], "::"), "a");
    assert_eq!(join(&parts[..0], "::"), "");
}

#[test]
fn copy_strings_copies_in_order() {
    let parts = vec!["x".to_string(), "".to_string(), "yz".to_string()];
    assert_eq!(copy_strings(&parts), parts);
}

#[test]
fn trim_removes_whitespace_around() {
    assert_eq!(text_of(&trim(&chars("  a b \t\n"))), "a b");
    assert_eq!(text_of(&trim(&chars("ab"))), "ab");
    assert_eq!(text_of(&trim(&chars("   "))), "");
    assert_eq!(text_of(&trim(&chars(""))), "");
    // A no-break space is whitespace too.
    assert_eq!(text_of(&trim(&chars("\u{a0}x\u{2003}"))), "x");
}

#[test]
fn whitespace_is_what_the_standard_library_takes_for_it() {
    for code in 0..=0x10ffffu32 {
        if let Some(c) = char::from_u32(code) {
            assert_eq!(is_whitespace(c), c.is_whitespace(), "U+{:04X}", code);
        }
    }
}

#[test]
fn trim_agrees_with_the_standard_library() {
    for s in ["", " ", "[]", " [1, 2] ", "(1, 2)", "\t(a)\r\n", "\u{3000}x y\u{85}", "a\u{200b}"] {
        let expected: Vec<char> = s.trim().chars().collect();
        assert_eq!(trim(&chars(s)), expected);
    }
    assert_eq!(text_of(&trim(&chars("[]"))), "[]");
    assert_eq!(text_of(&trim(&chars(" (1, 2)\n"))), "(1, 2)");
}

#[test]
fn split_parts_at_every_comma() {
    assert_eq!(texts(split(&chars("a,b,c"), false)), vec!["a", "b", "c"]);
    assert_eq!(texts(split(&chars(""), false)), vec![""]);
    assert_eq!(texts(split(&chars(","), false)), vec!["", ""]);
    assert_eq!(texts(split(&chars("(1,2),(3,4)"), false)), vec!["(1", "2)", "(3", "4)"]);
}

#[test]
fn nested_split_keeps_parentheses_together() {
    assert_eq!(texts(split(&chars("(1,2),(3,4)"), true)), vec!["(1,2)", "(3,4)"]);
    assert_eq!(texts(split(&chars("a,(b,(c,d)),e"), true)), vec!["a", "(b,(c,d))", "e"]);
    assert_eq!(texts(split(&chars("1,2,"), true)), vec!["1", "2", ""]);
    // A closing parenthesis without an opening one: the comma behind it
    // stands below the surface and parts nothing.
    assert_eq!(texts(split(&chars("a),b"), true)), vec!["a),b"]);
}

#[test]
fn integer_text_writes_decimal() {
    assert_eq!(integer_text(0), "0");
    assert_eq!(integer_text(7), "7");
    assert_eq!(integer_text(10), "10");
    assert_eq!(integer_text(-1), "-1");
    assert_eq!(integer_text(1234567890), "1234567890");
    assert_eq!(integer_text(i64::MIN as i128), "-9223372036854775808");
    assert_eq!(integer_text(u64::MAX as i128), "18446744073709551615");
    assert_eq!(integer_text(i128::MAX), i128::MAX.to_string());
    assert_eq!(integer_text(i128::MIN), i128::MIN.to_string());
}

#[test]
fn parse_integer_reads_decimal() {
    assert_eq!(parse_integer("0", false, 0, 255), Some(0));
    assert_eq!(parse_integer("255", false, 0, 255), Some(255));
    assert_eq!(parse_integer("+12", false, 0, 255), Some(12));
    assert_eq!(parse_integer("007", false, 0, 255), Some(7));
    assert_eq!(parse_integer("-128", true, -128, 127), Some(-128));
    assert_eq!(parse_integer("-0", true, -128, 127), Some(0));
}

#[test]
fn parse_integer_refuses_what_writes_no_integer() {
    assert_eq!(parse_integer("", false, 0, 255), None);
    assert_eq!(parse_integer("+", false, 0, 255), None);
    assert_eq!(parse_integer("-", true, -128, 127), None);
    assert_eq!(parse_integer("12a", false, 0, 255), None);
    assert_eq!(parse_integer(" 12", false, 0, 255), None);
    assert_eq!(parse_integer("1_000", false, 0, 100000), None);
    assert_eq!(parse_integer("--1", true, -128, 127), None);
    assert_eq!(parse_integer("١٢", false, 0, 255), None);
}

#[test]
fn parse_integer_refuses_a_minus_for_unsigned() {
    assert_eq!(parse_integer("-1", false, 0, 255), None);
    assert_eq!(parse_integer("-0", false, 0, 255), None);
}

#[test]
fn parse_integer_holds_the_range() {
    assert_eq!(parse_integer("256", false, 0, 255), None);
    assert_eq!(parse_integer("128", true, -128, 127), None);
    assert_eq!(parse_integer("-129", true, -128, 127), None);
    assert_eq!(
        parse_integer("18446744073709551615", false, 0, u64::MAX as i128),
        Some(u64::MAX as i128)
    );
    assert_eq!(parse_integer("18446744073709551616", false, 0, u64::MAX as i128), None);
    assert_eq!(
        parse_integer("99999999999999999999999999999999999999999999", false, 0, u64::MAX as i128),
        None
    );
    assert_eq!(
        parse_integer("-9223372036854775808", true, i64::MIN as i128, i64::MAX as i128),
        Some(i64::MIN as i128)
    );
}

#[test]
fn parse_integer_agrees_with_the_standard_parser() {
    for s in ["0", "42", "+42", "-42", "255", "256", "-", "+", "", "4 2", "0x10", "00012", "-00012"] {
        assert_eq!(parse_integer(s, false, 0, 255), s.parse::<u8>().ok().map(|v| v as i128));
        assert_eq!(parse_integer(s, true, -128, 127), s.parse::<i8>().ok().map(|v| v as i128));
        assert_eq!(
            parse_integer(s, true, i64::MIN as i128, i64::MAX as i128),
            s.parse::<i64>().ok().map(|v| v as i128)
        );
    }
}
