//! Tests for output formatting.

use samesame::cli::regex_parser;
use samesame::output::{format_text, json_report, RangeInfo};
use samesame::types::{ComparisonResult, FileDescription, LineRange, Range};

const VERSION: &str = "0.1.0";

#[test]
fn test_range_info_conversion() {
    let r = Range::new(0, 5);
    let info: RangeInfo = (&r).into();

    // Should be 1-based
    assert_eq!(info.start, 1);
    assert_eq!(info.end, 5);
}

#[test]
fn test_range_info_conversion_nonzero_start() {
    let r = Range::new(10, 20);
    let info: RangeInfo = (&r).into();

    assert_eq!(info.start, 11);
    assert_eq!(info.end, 20);
}

fn make_test_files() -> (FileDescription, FileDescription) {
    let f1 = FileDescription {
        filename: "src/file1.rs".to_string(),
        hashes: vec![1, 2, 3, 4, 5],
        lines: vec![
            "fn main() {".into(),
            "    println!(\"Hello\");".into(),
            "}".into(),
            "".into(),
            "fn other() {}".into(),
        ],
    };
    let f2 = FileDescription {
        filename: "src/file2.rs".to_string(),
        hashes: vec![1, 2, 3, 6, 7],
        lines: vec![
            "fn main() {".into(),
            "    println!(\"Hello\");".into(),
            "}".into(),
            "".into(),
            "fn different() {}".into(),
        ],
    };
    (f1, f2)
}

#[test]
fn test_format_text_no_duplicates() {
    let (f1, f2) = make_test_files();
    let result = ComparisonResult {
        f1: &f1,
        f2: &f2,
        runs: vec![LineRange::Diff {
            r1: Range::new(0, 5),
            r2: Range::new(0, 5),
        }],
    };

    let output = format_text(&[result], 5, false, 2, 1, None);
    assert!(output.contains("No duplicate code found"));
}

#[test]
fn test_format_text_with_duplicates() {
    let (f1, f2) = make_test_files();
    let result = ComparisonResult {
        f1: &f1,
        f2: &f2,
        runs: vec![LineRange::Same {
            r1: Range::new(0, 3),
            r2: Range::new(0, 3),
        }],
    };

    let output = format_text(&[result], 3, false, 2, 1, None);
    assert!(output.contains("Duplicate Code Found"));
    assert!(output.contains("file1.rs"));
    assert!(output.contains("file2.rs"));
    assert!(output.contains("3 lines"));
    assert!(output.contains("Summary:"));
}

#[test]
fn test_format_text_verbose() {
    let (f1, f2) = make_test_files();
    let result = ComparisonResult {
        f1: &f1,
        f2: &f2,
        runs: vec![LineRange::Same {
            r1: Range::new(0, 3),
            r2: Range::new(0, 3),
        }],
    };

    let output = format_text(&[result], 3, true, 2, 1, None);
    assert!(output.contains("fn main()"));
    assert!(output.contains("println!"));
}

#[test]
fn test_format_text_below_threshold() {
    let (f1, f2) = make_test_files();
    let result = ComparisonResult {
        f1: &f1,
        f2: &f2,
        runs: vec![LineRange::Same {
            r1: Range::new(0, 3),
            r2: Range::new(0, 3),
        }],
    };

    // Threshold is 5, but match is only 3 lines
    let output = format_text(&[result], 5, false, 2, 1, None);
    assert!(output.contains("No duplicate code found"));
}

#[test]
fn test_format_json_no_duplicates() {
    let (f1, f2) = make_test_files();
    let result = ComparisonResult {
        f1: &f1,
        f2: &f2,
        runs: vec![LineRange::Diff {
            r1: Range::new(0, 5),
            r2: Range::new(0, 5),
        }],
    };

    let output = json_report(&[result], 5, false, 2, 1, None, VERSION);
    assert_eq!(output.summary.duplicates_found, 0);
    assert!(output.duplicates.is_empty());
}

#[test]
fn test_format_json_with_duplicates() {
    let (f1, f2) = make_test_files();
    let result = ComparisonResult {
        f1: &f1,
        f2: &f2,
        runs: vec![LineRange::Same {
            r1: Range::new(0, 3),
            r2: Range::new(0, 3),
        }],
    };

    let output = json_report(&[result], 3, false, 2, 1, None, VERSION);
    assert_eq!(output.summary.duplicates_found, 1);
    assert_eq!(output.duplicates[0].file1, "src/file1.rs");
    assert_eq!(output.duplicates[0].file2, "src/file2.rs");
    assert_eq!(output.duplicates[0].matches[0].lines, 3);
}

#[test]
fn test_format_json_verbose_includes_content() {
    let (f1, f2) = make_test_files();
    let result = ComparisonResult {
        f1: &f1,
        f2: &f2,
        runs: vec![LineRange::Same {
            r1: Range::new(0, 3),
            r2: Range::new(0, 3),
        }],
    };

    let output = json_report(&[result], 3, true, 2, 1, None, VERSION);
    let content = output.duplicates[0].matches[0].content.as_ref().unwrap();
    assert!(content.iter().any(|l| l.contains("fn main()")));
}

#[test]
fn test_format_json_not_verbose_no_content() {
    let (f1, f2) = make_test_files();
    let result = ComparisonResult {
        f1: &f1,
        f2: &f2,
        runs: vec![LineRange::Same {
            r1: Range::new(0, 3),
            r2: Range::new(0, 3),
        }],
    };

    let output = json_report(&[result], 3, false, 2, 1, None, VERSION);
    // content field should be absent when not verbose
    assert!(output.duplicates[0].matches[0].content.is_none());
}

#[test]
fn test_format_json_structure() {
    let (f1, f2) = make_test_files();
    let result = ComparisonResult {
        f1: &f1,
        f2: &f2,
        runs: vec![LineRange::Same {
            r1: Range::new(0, 3),
            r2: Range::new(0, 3),
        }],
    };

    let output = json_report(&[result], 3, false, 2, 1, None, VERSION);

    assert_eq!(output.version, VERSION);
    assert_eq!(output.summary.files_analyzed, 2);
    assert_eq!(output.summary.pairs_compared, 1);
    assert_eq!(output.duplicates.len(), 1);
}

#[test]
fn test_format_text_multiple_results() {
    let f1 = FileDescription {
        filename: "a.rs".to_string(),
        hashes: vec![1, 2, 3],
        lines: vec!["a".into(), "b".into(), "c".into()],
    };
    let f2 = FileDescription {
        filename: "b.rs".to_string(),
        hashes: vec![1, 2, 3],
        lines: vec!["a".into(), "b".into(), "c".into()],
    };
    let f3 = FileDescription {
        filename: "c.rs".to_string(),
        hashes: vec![1, 2, 3],
        lines: vec!["a".into(), "b".into(), "c".into()],
    };

    let result1 = ComparisonResult {
        f1: &f1,
        f2: &f2,
        runs: vec![LineRange::Same {
            r1: Range::new(0, 3),
            r2: Range::new(0, 3),
        }],
    };
    let result2 = ComparisonResult {
        f1: &f1,
        f2: &f3,
        runs: vec![LineRange::Same {
            r1: Range::new(0, 3),
            r2: Range::new(0, 3),
        }],
    };

    let output = format_text(&[result1, result2], 3, false, 3, 3, None);
    assert!(output.contains("a.rs"));
    assert!(output.contains("b.rs"));
    assert!(output.contains("c.rs"));
    assert!(output.contains("2 duplicate regions"));
}

#[test]
fn test_format_json_multiple_matches_same_pair() {
    let (f1, f2) = make_test_files();
    let result = ComparisonResult {
        f1: &f1,
        f2: &f2,
        runs: vec![
            LineRange::Same {
                r1: Range::new(0, 2),
                r2: Range::new(0, 2),
            },
            LineRange::Diff {
                r1: Range::new(2, 3),
                r2: Range::new(2, 3),
            },
            LineRange::Same {
                r1: Range::new(3, 5),
                r2: Range::new(3, 5),
            },
        ],
    };

    let output = json_report(&[result], 2, false, 2, 1, None, VERSION);

    // Should have 2 matches in the matches array
    assert_eq!(output.duplicates[0].matches.len(), 2);
}

// ==================== Regex filtering tests ====================

fn make_mixed_files() -> (FileDescription, FileDescription) {
    let f1 = FileDescription {
        filename: "src/file1.py".to_string(),
        hashes: vec![1, 2, 3, 4, 5, 6, 7, 8],
        lines: vec![
            "def hello():".into(),
            "    print(\"Hello\")".into(),
            "    return None".into(),
            "".into(),
            "class MyClass:".into(),
            "    def __init__(self):".into(),
            "        pass".into(),
            "".into(),
        ],
    };
    let f2 = FileDescription {
        filename: "src/file2.py".to_string(),
        hashes: vec![1, 2, 3, 4, 5, 6, 7, 8],
        lines: vec![
            "def hello():".into(),
            "    print(\"Hello\")".into(),
            "    return None".into(),
            "".into(),
            "class MyClass:".into(),
            "    def __init__(self):".into(),
            "        pass".into(),
            "".into(),
        ],
    };
    (f1, f2)
}

#[test]
fn test_format_text_regex_filters_matches() {
    let (f1, f2) = make_mixed_files();
    let result = ComparisonResult {
        f1: &f1,
        f2: &f2,
        runs: vec![
            // Match starting with "def hello():"
            LineRange::Same {
                r1: Range::new(0, 3),
                r2: Range::new(0, 3),
            },
            LineRange::Diff {
                r1: Range::new(3, 4),
                r2: Range::new(3, 4),
            },
            // Match starting with "class MyClass:"
            LineRange::Same {
                r1: Range::new(4, 7),
                r2: Range::new(4, 7),
            },
        ],
    };

    // Filter to only show matches starting with "def"
    let regex = regex_parser(r"^def ").unwrap();
    let output = format_text(&[result], 3, false, 2, 1, Some(&regex));

    assert!(output.contains("Duplicate Code Found"));
    assert!(output.contains("3 lines"));
    // Should only have 1 match (the def match), not 2
    assert!(output.contains("1 duplicate regions"));
}

#[test]
fn test_format_text_regex_filters_all() {
    let (f1, f2) = make_mixed_files();
    let result = ComparisonResult {
        f1: &f1,
        f2: &f2,
        runs: vec![
            LineRange::Same {
                r1: Range::new(4, 7),
                r2: Range::new(4, 7),
            },
        ],
    };

    // Filter to only show matches starting with "def" (but match starts with "class")
    let regex = regex_parser(r"^def ").unwrap();
    let output = format_text(&[result], 3, false, 2, 1, Some(&regex));

    // Should show "No duplicate code found" because regex filters out all matches
    assert!(output.contains("No duplicate code found"));
}

#[test]
fn test_format_json_regex_filters_matches() {
    let (f1, f2) = make_mixed_files();
    let result = ComparisonResult {
        f1: &f1,
        f2: &f2,
        runs: vec![
            LineRange::Same {
                r1: Range::new(0, 3),
                r2: Range::new(0, 3),
            },
            LineRange::Diff {
                r1: Range::new(3, 4),
                r2: Range::new(3, 4),
            },
            LineRange::Same {
                r1: Range::new(4, 7),
                r2: Range::new(4, 7),
            },
        ],
    };

    // Filter to only show matches starting with "class"
    let regex = regex_parser(r"^class ").unwrap();
    let output = json_report(&[result], 3, false, 2, 1, Some(&regex), VERSION);

    // Should only have 1 match (the class match)
    assert_eq!(output.summary.duplicates_found, 1);
    assert_eq!(output.duplicates[0].matches.len(), 1);
    // The match should start at line 5 (1-indexed)
    assert_eq!(output.duplicates[0].matches[0].file1_range.start, 5);
}

#[test]
fn test_format_json_regex_filters_all() {
    let (f1, f2) = make_mixed_files();
    let result = ComparisonResult {
        f1: &f1,
        f2: &f2,
        runs: vec![
            LineRange::Same {
                r1: Range::new(0, 3),
                r2: Range::new(0, 3),
            },
        ],
    };

    // Filter with regex that matches nothing
    let regex = regex_parser(r"^struct ").unwrap();
    let output = json_report(&[result], 3, false, 2, 1, Some(&regex), VERSION);

    // Should have no duplicates
    assert_eq!(output.summary.duplicates_found, 0);
    assert!(output.duplicates.is_empty());
}

#[test]
fn test_format_text_regex_verbose_shows_content() {
    let (f1, f2) = make_mixed_files();
    let result = ComparisonResult {
        f1: &f1,
        f2: &f2,
        runs: vec![
            LineRange::Same {
                r1: Range::new(0, 3),
                r2: Range::new(0, 3),
            },
        ],
    };

    let regex = regex_parser(r"^def ").unwrap();
    let output = format_text(&[result], 3, true, 2, 1, Some(&regex));

    assert!(output.contains("def hello():"));
    assert!(output.contains("print(\"Hello\")"));
}

#[test]
fn test_format_text_exact() {
    let (f1, f2) = make_test_files();
    let result = ComparisonResult {
        f1: &f1,
        f2: &f2,
        runs: vec![LineRange::Same {
            r1: Range::new(0, 2),
            r2: Range::new(10, 12),
        }],
    };

    let output = format_text(&[result], 2, true, 2, 1, None);
    assert_eq!(
        output,
        "=== Duplicate Code Found ===\n\n\
         Files: src/file1.rs <-> src/file2.rs\n\
         Match: 2 lines (file1.rs:1-2, file2.rs:11-12)\n\
         \n\
         \x20    1 |   11 | fn main() {\n\
         \x20    2 |   12 |     println!(\"Hello\");\n\
         \n---\n\n\
         Summary: 2 files analyzed, 1 pairs compared, 1 duplicate regions (2 lines)\n"
    );
}

#[test]
fn test_format_text_no_duplicates_exact() {
    let (f1, f2) = make_test_files();
    let result = ComparisonResult { f1: &f1, f2: &f2, runs: vec![] };
    assert_eq!(format_text(&[result], 1, false, 2, 1, None), "No duplicate code found.\n");
}

#[test]
fn test_json_report_totals_and_ranges() {
    let (f1, f2) = make_test_files();
    let result = ComparisonResult {
        f1: &f1,
        f2: &f2,
        runs: vec![
            LineRange::Same { r1: Range::new(0, 2), r2: Range::new(1, 3) },
            LineRange::Diff { r1: Range::new(2, 3), r2: Range::new(3, 3) },
            LineRange::Same { r1: Range::new(3, 5), r2: Range::new(3, 5) },
        ],
    };
    let output = json_report(&[result], 2, true, 2, 1, None, VERSION);
    assert_eq!(output.summary.total_duplicate_lines, 4);
    let m = &output.duplicates[0].matches[0];
    assert_eq!(m.file1_range, RangeInfo { start: 1, end: 2 });
    assert_eq!(m.file2_range, RangeInfo { start: 2, end: 3 });
    assert_eq!(m.content.as_ref().unwrap().len(), 2);
}

#[test]
fn test_regex_parser_invalid() {
    let err = regex_parser("(unclosed").err().unwrap();
    assert!(err.starts_with("invalid regex pattern: "));
}
