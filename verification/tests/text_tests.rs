use relidrat::text::{is_space_char, parse_isize, parse_usize, push_decimal, split_tokens};

#[test]
fn white_space_is_what_the_standard_library_calls_white_space() {
    for n in 0u32..0x3100 {
        if let Some(c) = char::from_u32(n) {
            assert_eq!(is_space_char(c), c.is_whitespace(), "char {:x}", n);
        }
    }
    assert!(!is_space_char('\u{10000}'));
}

#[test]
fn split_tokens_gives_the_tokens_last_first() {
    assert_eq!(
        split_tokens("p cnf 3  4".to_string()),
        vec!["4".to_string(), "3".to_string(), "cnf".to_string(), "p".to_string()]
    );
}

#[test]
fn split_tokens_ignores_white_space_at_both_ends() {
    assert_eq!(
        split_tokens("  \t-1 2\u{a0}0 \n".to_string()),
        vec!["0".to_string(), "2".to_string(), "-1".to_string()]
    );
}

#[test]
fn split_tokens_of_blank_line_is_empty() {
    assert_eq!(split_tokens("".to_string()), Vec::<String>::new());
    assert_eq!(split_tokens(" \t ".to_string()), Vec::<String>::new());
}

#[test]
fn split_tokens_agrees_with_split_whitespace() {
    for line in ["a b", "  x", "x  ", "1 -2 3 0", "d 1 0", "é ü\u{2003}z", "one"] {
        let mut expected: Vec<String> = line.split_whitespace().map(|t| t.to_string()).collect();
        expected.reverse();
        assert_eq!(split_tokens(line.to_string()), expected);
    }
}

#[test]
fn parse_isize_reads_signed_decimals() {
    assert_eq!(parse_isize("0"), Some(0));
    assert_eq!(parse_isize("17"), Some(17));
    assert_eq!(parse_isize("-17"), Some(-17));
    assert_eq!(parse_isize("+17"), Some(17));
    assert_eq!(parse_isize("-0"), Some(0));
    assert_eq!(parse_isize("007"), Some(7));
}

#[test]
fn parse_isize_refuses_what_is_not_a_number() {
    for t in ["", "-", "+", "--1", "1-", "1 ", " 1", "a", "1a", "0x10", "1.5", "١"] {
        assert_eq!(parse_isize(t), None, "token {:?}", t);
    }
}

#[test]
fn parse_isize_reads_up_to_the_limits_and_no_further() {
    assert_eq!(parse_isize(&isize::MAX.to_string()), Some(isize::MAX));
    assert_eq!(parse_isize(&isize::MIN.to_string()), Some(isize::MIN));
    assert_eq!(parse_isize("9223372036854775808"), None);
    assert_eq!(parse_isize("-9223372036854775809"), None);
    assert_eq!(parse_isize("99999999999999999999999999999999999999999999"), None);
}

#[test]
fn parse_isize_agrees_with_the_standard_library() {
    for t in ["12", "-12", "+0", "-", "", "3000000000", "abc", "+-1", "00", "-00012"] {
        assert_eq!(parse_isize(t), t.parse::<isize>().ok(), "token {:?}", t);
    }
}

#[test]
fn parse_usize_reads_unsigned_decimals() {
    assert_eq!(parse_usize("0"), Some(0));
    assert_eq!(parse_usize("250"), Some(250));
    assert_eq!(parse_usize("+250"), Some(250));
    assert_eq!(parse_usize(&usize::MAX.to_string()), Some(usize::MAX));
}

#[test]
fn parse_usize_refuses_a_minus_sign_and_what_does_not_fit() {
    assert_eq!(parse_usize("-1"), None);
    assert_eq!(parse_usize("-0"), None);
    assert_eq!(parse_usize("18446744073709551616"), None);
    assert_eq!(parse_usize(""), None);
    assert_eq!(parse_usize("12x"), None);
}

#[test]
fn parse_usize_agrees_with_the_standard_library() {
    for t in ["12", "-12", "+0", "-0", "", "18446744073709551615", "1e3"] {
        assert_eq!(parse_usize(t), t.parse::<usize>().ok(), "token {:?}", t);
    }
}

#[test]
fn push_decimal_appends_the_notation() {
    let mut s = "x=".to_string();
    push_decimal(&mut s, -120);
    assert_eq!(s, "x=-120");
    push_decimal(&mut s, 0);
    assert_eq!(s, "x=-1200");
    push_decimal(&mut s, 7);
    assert_eq!(s, "x=-12007");
}

#[test]
fn push_decimal_agrees_with_the_standard_library() {
    for x in [0isize, 9, 10, 11, 99, 100, -1, -10, 12345, isize::MAX, isize::MIN] {
        let mut s = String::new();
        push_decimal(&mut s, x);
        assert_eq!(s, x.to_string());
    }
}

#[test]
fn written_numbers_are_read_back() {
    for x in [0isize, 5, -5, 1000, -99999, isize::MAX, isize::MIN] {
        let mut s = String::new();
        push_decimal(&mut s, x);
        assert_eq!(parse_isize(&s), Some(x));
    }
}
