use road_graph::text::{check_float_text, parse_signed_text, parse_unsigned_text, split_line, split_line_by, trim_line};

fn b(s: &str) -> Vec<u8> {
    s.as_bytes().to_vec()
}

#[test]
fn trims_white_space_at_both_ends() {
    assert_eq!(trim_line(&b(" \t 12 34 \r")), b("12 34"));
    assert_eq!(trim_line(&b("   ")), b(""));
    assert_eq!(trim_line(&b("x")), b("x"));
}

#[test]
fn splits_on_single_spaces() {
    assert_eq!(split_line(&b("1 2 3")), vec![b("1"), b("2"), b("3")]);
    assert_eq!(split_line(&b("1  2")), vec![b("1"), b(""), b("2")]);
    assert_eq!(split_line(&b("")), vec![b("")]);
}

#[test]
fn parses_unsigned_numbers() {
    assert_eq!(parse_unsigned_text(&b("42"), u64::MAX), Some(42));
    assert_eq!(parse_unsigned_text(&b("+7"), u64::MAX), Some(7));
    assert_eq!(parse_unsigned_text(&b("18446744073709551615"), u64::MAX), Some(u64::MAX));
    assert_eq!(parse_unsigned_text(&b("18446744073709551616"), u64::MAX), None);
    assert_eq!(parse_unsigned_text(&b("300"), 255), None);
    assert_eq!(parse_unsigned_text(&b(""), u64::MAX), None);
    assert_eq!(parse_unsigned_text(&b("+"), u64::MAX), None);
    assert_eq!(parse_unsigned_text(&b("-1"), u64::MAX), None);
    assert_eq!(parse_unsigned_text(&b("1a"), u64::MAX), None);
}

#[test]
fn recognises_float_text() {
    for ok in ["1", "1.5", ".5", "5.", "-2.25", "+3", "1e10", "2.5E-3", "inf", "-Infinity", "NaN", "infinity"] {
        assert!(check_float_text(&b(ok)), "{}", ok);
        assert!(ok.parse::<f64>().is_ok());
    }
    for bad in ["", ".", "-", "e5", "1e", "1e+", "abc", "1.2.3", "in", "1 2", "--1"] {
        assert!(!check_float_text(&b(bad)), "{}", bad);
        assert!(bad.parse::<f64>().is_err());
    }
}

#[test]
fn parses_signed_numbers() {
    assert_eq!(parse_signed_text(&b("-12")), Some(-12));
    assert_eq!(parse_signed_text(&b("+12")), Some(12));
    assert_eq!(parse_signed_text(&b("-9223372036854775808")), Some(i64::MIN));
    assert_eq!(parse_signed_text(&b("9223372036854775807")), Some(i64::MAX));
    assert_eq!(parse_signed_text(&b("9223372036854775808")), None);
    assert_eq!(parse_signed_text(&b("-9223372036854775809")), None);
    assert_eq!(parse_signed_text(&b("-+1")), None);
    assert_eq!(parse_signed_text(&b("-")), None);
    assert_eq!(parse_signed_text(&b("")), None);
}

#[test]
fn splits_on_tabs() {
    assert_eq!(split_line_by(&b("a\tb\t\tc"), 9), vec![b("a"), b("b"), b(""), b("c")]);
}
