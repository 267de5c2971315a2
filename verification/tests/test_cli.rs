//! Tests for command-line value validation.

use samesame::cli::{min_match_parser, regex_parser, OutputFormat};

#[test]
fn test_min_match_parser_accepts_numbers() {
    assert_eq!(min_match_parser("5"), Ok(5));
    assert_eq!(min_match_parser("+12"), Ok(12));
    assert_eq!(min_match_parser("007"), Ok(7));
    assert_eq!(min_match_parser("18446744073709551615"), Ok(usize::MAX));
}

#[test]
fn test_min_match_parser_rejects_zero() {
    assert_eq!(
        min_match_parser("0"),
        Err("minimum match must be at least 1".to_string())
    );
}

#[test]
fn test_min_match_parser_rejects_non_numbers() {
    assert_eq!(min_match_parser("abc"), Err("'abc' is not a valid number".to_string()));
    assert_eq!(min_match_parser(""), Err("'' is not a valid number".to_string()));
    assert_eq!(min_match_parser("+"), Err("'+' is not a valid number".to_string()));
    assert_eq!(min_match_parser("-3"), Err("'-3' is not a valid number".to_string()));
    assert_eq!(min_match_parser(" 3"), Err("' 3' is not a valid number".to_string()));
    assert_eq!(
        min_match_parser("18446744073709551616"),
        Err("'18446744073709551616' is not a valid number".to_string())
    );
}

#[test]
fn test_min_match_parser_agrees_with_std() {
    for s in ["1", "42", "+9", "x1", "1x", "", "++1", "99999999999999999999", "0"] {
        let ours = min_match_parser(s);
        match s.parse::<usize>() {
            Ok(0) => assert!(ours.is_err()),
            Ok(v) => assert_eq!(ours, Ok(v)),
            Err(_) => assert_eq!(ours, Err(format!("'{s}' is not a valid number"))),
        }
    }
}

#[test]
fn test_output_format_default() {
    assert_eq!(OutputFormat::default(), OutputFormat::Text);
}

#[test]
fn test_regex_parser_valid() {
    assert!(regex_parser("^fn ").is_ok());
    assert!(regex_parser("[").is_err());
}
