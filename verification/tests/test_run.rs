//! Tests for the decisions of a run: which pairs are compared, which files are
//! read as text, whether duplicates were found, and the exit status.

use samesame::discovery::{generate_pairs, parse_glob};
use samesame::error::{exit_code, SameError};
use samesame::file::{describe, is_text};
use samesame::output::{format_text, text_report_check, try_format_text, try_json_report};
use samesame::types::{any_significant, ComparisonResult, FileDescription, LineRange, Range};

fn file(name: &str, n: usize) -> FileDescription {
    FileDescription {
        filename: name.to_string(),
        hashes: (0..n as u64).collect(),
        lines: (0..n).map(|i| format!("line {}", i)).collect(),
    }
}

#[test]
fn test_generate_pairs_none() {
    assert!(generate_pairs(0).is_empty());
    assert!(generate_pairs(1).is_empty());
}

#[test]
fn test_generate_pairs_four() {
    assert_eq!(
        generate_pairs(4),
        vec![(0, 1), (0, 2), (0, 3), (1, 2), (1, 3), (2, 3)]
    );
}

#[test]
fn test_generate_pairs_count_is_n_choose_2() {
    // Ten files give 45 pairs, each once.
    let pairs = generate_pairs(10);
    assert_eq!(pairs.len(), 45);
    for (k, &(i, j)) in pairs.iter().enumerate() {
        assert!(i < j && j < 10);
        assert!(!pairs[k + 1..].contains(&(i, j)));
    }
}

#[test]
fn test_is_text_plain() {
    assert!(is_text(b"fn main() {}\n"));
}

#[test]
fn test_is_text_empty_is_skipped() {
    assert!(!is_text(b""));
}

#[test]
fn test_is_text_nul_early_is_binary() {
    assert!(!is_text(b"abc\0def"));
}

#[test]
fn test_is_text_nul_after_probe_is_text() {
    let mut bytes = vec![b'a'; 8192];
    bytes.push(0);
    assert!(is_text(&bytes));
    bytes[8191] = 0;
    assert!(!is_text(&bytes));
}

#[test]
fn test_any_significant() {
    let f1 = file("a.rs", 10);
    let f2 = file("b.rs", 10);
    let short = ComparisonResult {
        f1: &f1,
        f2: &f2,
        runs: vec![LineRange::Same { r1: Range::new(0, 3), r2: Range::new(0, 3) }],
    };
    let long = ComparisonResult {
        f1: &f1,
        f2: &f2,
        runs: vec![
            LineRange::Diff { r1: Range::new(0, 2), r2: Range::new(0, 1) },
            LineRange::Same { r1: Range::new(2, 8), r2: Range::new(1, 7) },
        ],
    };
    assert!(!any_significant(&[], 5));
    assert!(!any_significant(std::slice::from_ref(&short), 5));
    assert!(any_significant(&[short, long], 5));
}

#[test]
fn test_exit_codes() {
    assert_eq!(exit_code(&Ok(false)), 0);
    assert_eq!(exit_code(&Ok(true)), 1);
    assert_eq!(exit_code(&Err(SameError::NoFilesFound)), 2);
}

#[test]
fn test_describe_trims_before_hashing() {
    let d = describe(
        "a.rs".to_string(),
        vec!["    let x = 1;".to_string(), "let x = 1;\t".to_string(), "let y = 2;".to_string()],
    );
    assert_eq!(d.filename, "a.rs");
    assert_eq!(d.lines.len(), 3);
    assert_eq!(d.lines[0], "    let x = 1;");
    assert_eq!(d.hashes.len(), 3);
    assert_eq!(d.hashes[0], d.hashes[1]);
    assert_ne!(d.hashes[0], d.hashes[2]);
}

#[test]
fn test_parse_glob_recursive() {
    let g = parse_glob("**/*.rs").unwrap();
    assert_eq!(g.suffix, ".rs");
    assert!(g.recursive);
}

#[test]
fn test_parse_glob_flat() {
    let g = parse_glob("*_test.py").unwrap();
    assert_eq!(g.suffix, "_test.py");
    assert!(!g.recursive);
}

#[test]
fn test_parse_glob_refused() {
    for p in ["src/*.rs", "**/*.{rs,py}", "*.r?", "", "**/"] {
        match parse_glob(p) {
            Err(SameError::InvalidGlob { pattern, message }) => {
                assert_eq!(pattern, p);
                assert_eq!(message, "only patterns of the form **/*<suffix> are supported");
            }
            _ => panic!("pattern {:?} should be refused", p),
        }
    }
}

#[test]
fn test_try_format_text_fits() {
    let f1 = file("a.rs", 10);
    let f2 = file("b.rs", 10);
    let results = vec![ComparisonResult {
        f1: &f1,
        f2: &f2,
        runs: vec![LineRange::Same { r1: Range::new(0, 6), r2: Range::new(2, 8) }],
    }];
    assert!(text_report_check(&results, 5, None));
    assert_eq!(
        try_format_text(&results, 5, false, 2, 1, None),
        Some(format_text(&results, 5, false, 2, 1, None))
    );
    assert!(try_json_report(&results, 5, true, 2, 1, None, "0.1.0").is_some());
}

#[test]
fn test_try_format_text_line_numbers_overflow() {
    let f1 = file("a.rs", 1);
    let f2 = file("b.rs", 1);
    let results = vec![ComparisonResult {
        f1: &f1,
        f2: &f2,
        runs: vec![LineRange::Same {
            r1: Range::new(usize::MAX - 10, usize::MAX),
            r2: Range::new(usize::MAX - 5, usize::MAX),
        }],
    }];
    assert!(!text_report_check(&results, 5, None));
    assert_eq!(try_format_text(&results, 5, false, 2, 1, None), None);
    // Not verbose: the lines need not lie in the file.
    assert!(try_json_report(&results, 5, false, 2, 1, None, "0.1.0").is_some());
    // Verbose: the match lies outside the first file.
    assert!(try_json_report(&results, 5, true, 2, 1, None, "0.1.0").is_none());
}

#[test]
fn test_glob_selects_by_suffix() {
    let g = parse_glob("**/*.rs").unwrap();
    assert!(g.selects("src/main.rs"));
    assert!(g.selects(".rs"));
    assert!(!g.selects("src/main.rsx"));
    assert!(!g.selects("rs"));
}
