use ease_proc::number::{i64_text, parse_i64, parse_u32, parse_u64, u64_text, IntError};
use ease_proc::text::{
    chars_of, same_text, split_at_char, split_lines, split_words, starts_with, string_of, trim,
    whitespace,
};

fn strings(parts: &[Vec<char>]) -> Vec<String> {
    parts.iter().map(string_of).collect()
}

fn samples() -> Vec<&'static str> {
    vec![
        "", " ", "\n", "\r\n", "a", "a\n", "a\r\n", "a\rb", "a\r", "a\n\nb", "\na", " a b\tc ",
        "\u{3000}a\u{2003}b\u{a0}", "cpu  1 2 3\ncpu0 4\n", "a:b:c", ":", "::", "1.2.3", ".",
        "中文 行\n第二行", "x\u{85}y", "  \t ", "a \r\n b\n\r\n",
    ]
}

#[test]
fn whitespace_agrees_with_std() {
    for code in 0..=0x10FFFFu32 {
        if let Some(c) = char::from_u32(code) {
            assert_eq!(whitespace(c), c.is_whitespace(), "{:x}", code);
        }
    }
}

#[test]
fn lines_agree_with_std() {
    for s in samples() {
        let expected: Vec<String> = s.lines().map(|l| l.to_string()).collect();
        assert_eq!(strings(&split_lines(&chars_of(s))), expected, "{:?}", s);
    }
}

#[test]
fn words_agree_with_std() {
    for s in samples() {
        let expected: Vec<String> = s.split_whitespace().map(|l| l.to_string()).collect();
        assert_eq!(strings(&split_words(&chars_of(s))), expected, "{:?}", s);
    }
}

#[test]
fn splitting_agrees_with_std() {
    for s in samples() {
        for sep in [':', '.', '\n', ' '] {
            let expected: Vec<String> = s.split(sep).map(|l| l.to_string()).collect();
            assert_eq!(strings(&split_at_char(&chars_of(s), sep)), expected, "{:?}", s);
        }
    }
}

#[test]
fn trimming_agrees_with_std() {
    for s in samples() {
        assert_eq!(string_of(&trim(&chars_of(s))), s.trim(), "{:?}", s);
    }
}

#[test]
fn prefixes_and_equality_agree_with_std() {
    for a in samples() {
        for b in samples() {
            assert_eq!(starts_with(&chars_of(a), &chars_of(b)), a.starts_with(b));
            assert_eq!(same_text(&chars_of(a), &chars_of(b)), a == b);
        }
    }
}

fn number_texts() -> Vec<&'static str> {
    vec![
        "", "+", "-", "0", "-0", "+0", "00012", "+7", "-7", "12a", "a", "--1", "+-1", " 1", "1 ",
        "18446744073709551615", "18446744073709551616", "18446744073709551616x",
        "1844674407370955161x", "99999999999999999999999", "9223372036854775807",
        "9223372036854775808", "-9223372036854775808", "-9223372036854775809", "4294967295",
        "4294967296", "4294967296z", "-99999999999999999999999", "１", "0x10",
    ]
}

fn error_text(e: IntError) -> &'static str {
    match e {
        IntError::Empty => "cannot parse integer from empty string",
        IntError::InvalidDigit => "invalid digit found in string",
        IntError::PosOverflow => "number too large to fit in target type",
        IntError::NegOverflow => "number too small to fit in target type",
    }
}

#[test]
fn unsigned_numbers_agree_with_std() {
    for s in number_texts() {
        let expected = s.parse::<u64>().map_err(|e| e.to_string());
        let got = parse_u64(&chars_of(s)).map_err(|e| error_text(e).to_string());
        assert_eq!(got, expected, "{:?}", s);
        let expected = s.parse::<u32>().map_err(|e| e.to_string());
        let got = parse_u32(&chars_of(s)).map_err(|e| error_text(e).to_string());
        assert_eq!(got, expected, "{:?}", s);
    }
}

#[test]
fn signed_numbers_agree_with_std() {
    for s in number_texts() {
        let expected = s.parse::<i64>().map_err(|e| e.to_string());
        let got = parse_i64(&chars_of(s)).map_err(|e| error_text(e).to_string());
        assert_eq!(got, expected, "{:?}", s);
    }
}

#[test]
fn each_number_error_has_an_input() {
    assert_eq!(parse_u64(&chars_of("")), Err(IntError::Empty));
    assert_eq!(parse_u64(&chars_of("x")), Err(IntError::InvalidDigit));
    assert_eq!(parse_u32(&chars_of("4294967296")), Err(IntError::PosOverflow));
    assert_eq!(parse_i64(&chars_of("-9223372036854775809")), Err(IntError::NegOverflow));
}

#[test]
fn written_numbers_read_back() {
    for n in [0u64, 7, 10, 99, 100, 12345678901234567890, u64::MAX] {
        assert_eq!(u64_text(n), n.to_string());
        assert_eq!(parse_u64(&chars_of(&u64_text(n))), Ok(n));
    }
    for n in [0i64, 7, -7, 10, -10, i64::MAX, i64::MIN] {
        assert_eq!(i64_text(n), n.to_string());
        assert_eq!(parse_i64(&chars_of(&i64_text(n))), Ok(n));
    }
}
