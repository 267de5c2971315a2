//! Tests for patience diff algorithm.

use samesame::diff::{
    compare_files, compute_lcs, diff_middle, find_unique_lines, lcs_diff,
    longest_increasing_subsequence, merge_runs, patience_diff,
};
use samesame::types::{FileDescription, LineRange, Range};

fn make_hashes(lines: &[&str]) -> Vec<u64> {
    lines
        .iter()
        .map(|s| {
            let hash = blake3::hash(s.as_bytes());
            let bytes = hash.as_bytes();
            u64::from_le_bytes([
                bytes[0], bytes[1], bytes[2], bytes[3], bytes[4], bytes[5], bytes[6], bytes[7],
            ])
        })
        .collect()
}

#[test]
fn test_identical_files() {
    let h1 = make_hashes(&["a", "b", "c"]);
    let h2 = make_hashes(&["a", "b", "c"]);

    let runs = patience_diff(&h1, &h2);

    assert_eq!(runs.len(), 1);
    assert!(matches!(&runs[0], LineRange::Same { r1, r2 }
        if r1.start == 0 && r1.end == 3 && r2.start == 0 && r2.end == 3));
}

#[test]
fn test_completely_different() {
    let h1 = make_hashes(&["a", "b", "c"]);
    let h2 = make_hashes(&["x", "y", "z"]);

    let runs = patience_diff(&h1, &h2);

    assert_eq!(runs.len(), 1);
    assert!(matches!(&runs[0], LineRange::Diff { .. }));
}

#[test]
fn test_head_match() {
    let h1 = make_hashes(&["a", "b", "c"]);
    let h2 = make_hashes(&["a", "b", "x"]);

    let runs = patience_diff(&h1, &h2);

    assert!(runs
        .iter()
        .any(|r| matches!(r, LineRange::Same { r1, .. } if r1.len() == 2)));
}

#[test]
fn test_tail_match() {
    let h1 = make_hashes(&["x", "b", "c"]);
    let h2 = make_hashes(&["a", "b", "c"]);

    let runs = patience_diff(&h1, &h2);

    assert!(runs
        .iter()
        .any(|r| matches!(r, LineRange::Same { r1, .. } if r1.len() == 2)));
}

#[test]
fn test_empty_files() {
    let h1: Vec<u64> = vec![];
    let h2: Vec<u64> = vec![];

    let runs = patience_diff(&h1, &h2);
    assert!(runs.is_empty());
}

#[test]
fn test_one_empty() {
    let h1 = make_hashes(&["a", "b"]);
    let h2: Vec<u64> = vec![];

    let runs = patience_diff(&h1, &h2);

    assert_eq!(runs.len(), 1);
    assert!(matches!(&runs[0], LineRange::Diff { r1, r2 }
        if r1.len() == 2 && r2.is_empty()));
}

#[test]
fn test_second_empty() {
    let h1: Vec<u64> = vec![];
    let h2 = make_hashes(&["a", "b"]);

    let runs = patience_diff(&h1, &h2);

    assert_eq!(runs.len(), 1);
    assert!(matches!(&runs[0], LineRange::Diff { r1, r2 }
        if r1.is_empty() && r2.len() == 2));
}

#[test]
fn test_lis() {
    let matches = vec![(0, 2), (1, 0), (2, 3), (3, 1), (4, 4)];
    let lis = longest_increasing_subsequence(&matches);

    // LIS should be: (0,2), (2,3), (4,4) or similar
    assert!(lis.len() >= 3);

    // Verify it's actually increasing
    for i in 1..lis.len() {
        assert!(lis[i].1 > lis[i - 1].1);
    }
}

#[test]
fn test_lis_empty() {
    let matches: Vec<(usize, usize)> = vec![];
    let lis = longest_increasing_subsequence(&matches);
    assert!(lis.is_empty());
}

#[test]
fn test_lis_single() {
    let matches = vec![(0, 0)];
    let lis = longest_increasing_subsequence(&matches);
    assert_eq!(lis.len(), 1);
}

#[test]
fn test_lis_already_sorted() {
    let matches = vec![(0, 0), (1, 1), (2, 2), (3, 3)];
    let lis = longest_increasing_subsequence(&matches);
    assert_eq!(lis.len(), 4);
}

#[test]
fn test_lis_reverse_sorted() {
    let matches = vec![(0, 3), (1, 2), (2, 1), (3, 0)];
    let lis = longest_increasing_subsequence(&matches);
    // Only one element can be in LIS when fully reversed
    assert_eq!(lis.len(), 1);
}

#[test]
fn test_middle_insertion() {
    // File 1: a, b, c
    // File 2: a, x, b, c
    let h1 = make_hashes(&["a", "b", "c"]);
    let h2 = make_hashes(&["a", "x", "b", "c"]);

    let runs = patience_diff(&h1, &h2);

    // Should find "a" at head and "b", "c" somewhere
    let same_count: usize = runs
        .iter()
        .filter(|r| r.is_same())
        .map(|r| r.match_len())
        .sum();
    assert!(same_count >= 3);
}

#[test]
fn test_middle_deletion() {
    // File 1: a, x, b, c
    // File 2: a, b, c
    let h1 = make_hashes(&["a", "x", "b", "c"]);
    let h2 = make_hashes(&["a", "b", "c"]);

    let runs = patience_diff(&h1, &h2);

    let same_count: usize = runs
        .iter()
        .filter(|r| r.is_same())
        .map(|r| r.match_len())
        .sum();
    assert!(same_count >= 3);
}

#[test]
fn test_interleaved_changes() {
    // File 1: a, b, c, d, e
    // File 2: a, x, c, y, e
    let h1 = make_hashes(&["a", "b", "c", "d", "e"]);
    let h2 = make_hashes(&["a", "x", "c", "y", "e"]);

    let runs = patience_diff(&h1, &h2);

    // Should find a, c, e as matches
    let same_count: usize = runs
        .iter()
        .filter(|r| r.is_same())
        .map(|r| r.match_len())
        .sum();
    assert!(same_count >= 3);
}

#[test]
fn test_duplicate_lines() {
    // Lines that appear multiple times (not unique)
    let h1 = make_hashes(&["a", "a", "a"]);
    let h2 = make_hashes(&["a", "a", "a"]);

    let runs = patience_diff(&h1, &h2);

    // Should still find all as same (via LCS fallback)
    assert_eq!(runs.len(), 1);
    assert!(matches!(&runs[0], LineRange::Same { r1, .. } if r1.len() == 3));
}

#[test]
fn test_no_unique_lines() {
    // All lines appear multiple times in both files
    let h1 = make_hashes(&["a", "b", "a", "b"]);
    let h2 = make_hashes(&["a", "b", "a", "b"]);

    let runs = patience_diff(&h1, &h2);

    // Should find all as same (via LCS fallback since no unique anchors)
    let total_same: usize = runs
        .iter()
        .filter(|r| r.is_same())
        .map(|r| r.match_len())
        .sum();
    assert_eq!(total_same, 4);
}

#[test]
fn test_single_line_files() {
    let h1 = make_hashes(&["only"]);
    let h2 = make_hashes(&["only"]);

    let runs = patience_diff(&h1, &h2);

    assert_eq!(runs.len(), 1);
    assert!(matches!(&runs[0], LineRange::Same { r1, .. } if r1.len() == 1));
}

#[test]
fn test_single_line_different() {
    let h1 = make_hashes(&["one"]);
    let h2 = make_hashes(&["two"]);

    let runs = patience_diff(&h1, &h2);

    assert_eq!(runs.len(), 1);
    assert!(matches!(&runs[0], LineRange::Diff { .. }));
}

#[test]
fn test_head_and_tail_match() {
    // File 1: a, b, c, d, e
    // File 2: a, b, x, d, e
    let h1 = make_hashes(&["a", "b", "c", "d", "e"]);
    let h2 = make_hashes(&["a", "b", "x", "d", "e"]);

    let runs = patience_diff(&h1, &h2);

    // Should have head match (a, b) and tail match (d, e)
    let same_count: usize = runs
        .iter()
        .filter(|r| r.is_same())
        .map(|r| r.match_len())
        .sum();
    assert_eq!(same_count, 4);
}

#[test]
fn test_merge_runs_adjacent_same() {
    let runs = vec![
        LineRange::Same {
            r1: Range::new(0, 2),
            r2: Range::new(0, 2),
        },
        LineRange::Same {
            r1: Range::new(2, 4),
            r2: Range::new(2, 4),
        },
    ];

    let merged = merge_runs(runs);

    assert_eq!(merged.len(), 1);
    assert!(matches!(&merged[0], LineRange::Same { r1, r2 }
        if r1.start == 0 && r1.end == 4 && r2.start == 0 && r2.end == 4));
}

#[test]
fn test_merge_runs_adjacent_diff() {
    let runs = vec![
        LineRange::Diff {
            r1: Range::new(0, 2),
            r2: Range::new(0, 2),
        },
        LineRange::Diff {
            r1: Range::new(2, 4),
            r2: Range::new(2, 4),
        },
    ];

    let merged = merge_runs(runs);

    assert_eq!(merged.len(), 1);
    assert!(matches!(&merged[0], LineRange::Diff { r1, r2 }
        if r1.start == 0 && r1.end == 4 && r2.start == 0 && r2.end == 4));
}

#[test]
fn test_merge_runs_mixed() {
    let runs = vec![
        LineRange::Same {
            r1: Range::new(0, 2),
            r2: Range::new(0, 2),
        },
        LineRange::Diff {
            r1: Range::new(2, 4),
            r2: Range::new(2, 4),
        },
    ];

    let merged = merge_runs(runs);

    // Different types shouldn't merge
    assert_eq!(merged.len(), 2);
}

#[test]
fn test_merge_runs_non_adjacent() {
    let runs = vec![
        LineRange::Same {
            r1: Range::new(0, 2),
            r2: Range::new(0, 2),
        },
        LineRange::Same {
            r1: Range::new(5, 7),
            r2: Range::new(5, 7),
        },
    ];

    let merged = merge_runs(runs);

    // Non-adjacent shouldn't merge
    assert_eq!(merged.len(), 2);
}

#[test]
fn test_merge_runs_empty() {
    let runs: Vec<LineRange> = vec![];
    let merged = merge_runs(runs);
    assert!(merged.is_empty());
}

#[test]
fn test_find_unique_lines() {
    let hashes = vec![1, 2, 3, 2, 4];
    let unique = find_unique_lines(&hashes);

    // 1, 3, 4 are unique; 2 appears twice
    assert_eq!(unique.len(), 3);
    assert!(unique.contains_key(&1));
    assert!(unique.contains_key(&3));
    assert!(unique.contains_key(&4));
    assert!(!unique.contains_key(&2));
}

#[test]
fn test_find_unique_lines_all_same() {
    let hashes = vec![1, 1, 1, 1];
    let unique = find_unique_lines(&hashes);
    assert!(unique.is_empty());
}

#[test]
fn test_find_unique_lines_all_unique() {
    let hashes = vec![1, 2, 3, 4];
    let unique = find_unique_lines(&hashes);
    assert_eq!(unique.len(), 4);
}

#[test]
fn test_find_unique_lines_empty() {
    let hashes: Vec<u64> = vec![];
    let unique = find_unique_lines(&hashes);
    assert!(unique.is_empty());
}

#[test]
fn test_compute_lcs_identical() {
    let h1 = vec![1, 2, 3];
    let h2 = vec![1, 2, 3];
    let lcs = compute_lcs(&h1, &h2);
    assert_eq!(lcs.len(), 3);
}

#[test]
fn test_compute_lcs_completely_different() {
    let h1 = vec![1, 2, 3];
    let h2 = vec![4, 5, 6];
    let lcs = compute_lcs(&h1, &h2);
    assert!(lcs.is_empty());
}

#[test]
fn test_compute_lcs_partial() {
    let h1 = vec![1, 2, 3, 4];
    let h2 = vec![1, 3, 4];
    let lcs = compute_lcs(&h1, &h2);
    // LCS could be [1, 3, 4] (length 3)
    assert!(lcs.len() >= 2);
}

#[test]
fn test_compute_lcs_empty() {
    let h1: Vec<u64> = vec![];
    let h2 = vec![1, 2, 3];
    let lcs = compute_lcs(&h1, &h2);
    assert!(lcs.is_empty());

    let lcs2 = compute_lcs(&h2, &h1);
    assert!(lcs2.is_empty());
}

#[test]
fn test_lcs_diff_fallback() {
    // Test the LCS diff function directly
    let h1 = vec![1, 2, 3];
    let h2 = vec![4, 5, 6];
    let runs = lcs_diff(&h1, &h2, 0, 0);

    // Should be a single diff
    assert_eq!(runs.len(), 1);
    assert!(matches!(&runs[0], LineRange::Diff { .. }));
}

#[test]
fn test_compare_files() {
    let f1 = FileDescription {
        filename: "a.rs".to_string(),
        hashes: make_hashes(&["a", "b", "c"]),
        lines: vec!["a".into(), "b".into(), "c".into()],
    };
    let f2 = FileDescription {
        filename: "b.rs".to_string(),
        hashes: make_hashes(&["a", "b", "c"]),
        lines: vec!["a".into(), "b".into(), "c".into()],
    };

    let result = compare_files(&f1, &f2);

    assert_eq!(result.f1.filename, "a.rs");
    assert_eq!(result.f2.filename, "b.rs");
    assert!(result.has_significant_matches(3));
}

#[test]
fn test_large_head_tail_small_middle() {
    // Many matching lines at head and tail, small diff in middle
    let h1 = make_hashes(&["a", "b", "c", "d", "e", "f", "g", "h"]);
    let h2 = make_hashes(&["a", "b", "c", "x", "e", "f", "g", "h"]);

    let runs = patience_diff(&h1, &h2);

    let same_count: usize = runs
        .iter()
        .filter(|r| r.is_same())
        .map(|r| r.match_len())
        .sum();
    assert_eq!(same_count, 7); // All except 'd' vs 'x'
}

#[test]
fn test_diff_middle_empty_first() {
    let h1: Vec<u64> = vec![];
    let h2 = vec![1, 2, 3];
    let runs = diff_middle(&h1, &h2, 0, 0);

    assert_eq!(runs.len(), 1);
    assert!(matches!(&runs[0], LineRange::Diff { r1, r2 }
        if r1.is_empty() && r2.len() == 3));
}

#[test]
fn test_diff_middle_empty_second() {
    let h1 = vec![1, 2, 3];
    let h2: Vec<u64> = vec![];
    let runs = diff_middle(&h1, &h2, 0, 0);

    assert_eq!(runs.len(), 1);
    assert!(matches!(&runs[0], LineRange::Diff { r1, r2 }
        if r1.len() == 3 && r2.is_empty()));
}

#[test]
fn test_diff_middle_both_empty() {
    let h1: Vec<u64> = vec![];
    let h2: Vec<u64> = vec![];
    let runs = diff_middle(&h1, &h2, 0, 0);
    assert!(runs.is_empty());
}

// ==================== Properties of the alignment ====================

/// Checks that `runs` tile both sequences in order and that `Same` runs pair
/// equal hashes.
fn check_alignment(h1: &[u64], h2: &[u64], runs: &[LineRange]) {
    let mut p1 = 0;
    let mut p2 = 0;
    for (k, run) in runs.iter().enumerate() {
        assert_eq!(run.r1().start, p1);
        assert_eq!(run.r2().start, p2);
        if let LineRange::Same { r1, r2 } = run {
            assert_eq!(r1.len(), r2.len());
            assert!(r1.len() > 0);
            for i in 0..r1.len() {
                assert_eq!(h1[r1.start + i], h2[r2.start + i]);
            }
        }
        if k > 0 {
            assert_ne!(runs[k - 1].is_same(), run.is_same());
        }
        p1 = run.r1().end;
        p2 = run.r2().end;
    }
    assert_eq!(p1, h1.len());
    assert_eq!(p2, h2.len());
}

#[test]
fn test_patience_diff_alignment_covers_everything() {
    let h1 = make_hashes(&["a", "b", "c", "a", "d", "e", "b", "f"]);
    let h2 = make_hashes(&["x", "b", "a", "c", "d", "y", "e", "f", "b"]);
    let runs = patience_diff(&h1, &h2);
    check_alignment(&h1, &h2, &runs);
}

#[test]
fn test_patience_diff_identical_is_one_run() {
    let h = vec![7, 8, 7, 9];
    let runs = patience_diff(&h, &h);
    assert_eq!(
        runs,
        vec![LineRange::Same { r1: Range::new(0, 4), r2: Range::new(0, 4) }]
    );
}

#[test]
fn test_patience_diff_head_and_tail_exact() {
    let h1 = vec![1, 2, 3, 4, 5];
    let h2 = vec![1, 2, 9, 4, 5];
    let runs = patience_diff(&h1, &h2);
    assert_eq!(
        runs,
        vec![
            LineRange::Same { r1: Range::new(0, 2), r2: Range::new(0, 2) },
            LineRange::Diff { r1: Range::new(2, 3), r2: Range::new(2, 3) },
            LineRange::Same { r1: Range::new(3, 5), r2: Range::new(3, 5) },
        ]
    );
}

#[test]
fn test_lcs_diff_same_lines_equal_lcs_length() {
    let h1 = vec![1, 2, 1, 3, 2, 1];
    let h2 = vec![2, 1, 1, 2, 3];
    let runs = lcs_diff(&h1, &h2, 0, 0);
    check_alignment(&h1, &h2, &runs);
    let same: usize = runs.iter().map(|r| r.match_len()).sum();
    assert_eq!(same, compute_lcs(&h1, &h2).len());
    assert_eq!(same, 3);
}

#[test]
fn test_compute_lcs_is_common_and_longest() {
    let h1 = vec![1, 3, 4, 1, 2, 1, 3];
    let h2 = vec![3, 1, 2, 1, 4, 1, 3];
    let lcs = compute_lcs(&h1, &h2);
    assert_eq!(lcs.len(), 5);
    for k in 0..lcs.len() {
        assert_eq!(h1[lcs[k].0], h2[lcs[k].1]);
        if k > 0 {
            assert!(lcs[k - 1].0 < lcs[k].0 && lcs[k - 1].1 < lcs[k].1);
        }
    }
}

#[test]
fn test_lis_is_longest_exact() {
    let matches = vec![(0, 5), (1, 1), (2, 4), (3, 2), (4, 3), (5, 6)];
    let lis = longest_increasing_subsequence(&matches);
    assert_eq!(lis, vec![(1, 1), (3, 2), (4, 3), (5, 6)]);
}

#[test]
fn test_merge_runs_chain() {
    let runs = vec![
        LineRange::Same { r1: Range::new(0, 1), r2: Range::new(0, 1) },
        LineRange::Same { r1: Range::new(1, 2), r2: Range::new(1, 2) },
        LineRange::Diff { r1: Range::new(2, 3), r2: Range::new(2, 2) },
        LineRange::Diff { r1: Range::new(3, 3), r2: Range::new(2, 4) },
        LineRange::Same { r1: Range::new(3, 4), r2: Range::new(4, 5) },
    ];
    assert_eq!(
        merge_runs(runs),
        vec![
            LineRange::Same { r1: Range::new(0, 2), r2: Range::new(0, 2) },
            LineRange::Diff { r1: Range::new(2, 3), r2: Range::new(2, 4) },
            LineRange::Same { r1: Range::new(3, 4), r2: Range::new(4, 5) },
        ]
    );
}

#[test]
fn test_find_unique_lines_positions() {
    let unique = find_unique_lines(&[5, 6, 5, 7]);
    assert_eq!(unique.len(), 2);
    assert_eq!(unique.get(&6), Some(&1));
    assert_eq!(unique.get(&7), Some(&3));
}

#[test]
fn test_compute_lcs_picks_hirschberg_choice() {
    // Two common subsequences of length one; the split of the first half
    // at the start of the second sequence keeps the later element.
    assert_eq!(compute_lcs(&[1, 2], &[2, 1]), vec![(1, 0)]);
    // A single element is matched with its first occurrence.
    assert_eq!(compute_lcs(&[7], &[3, 7, 7]), vec![(0, 1)]);
}

#[test]
fn test_lcs_diff_exact_runs() {
    let runs = lcs_diff(&[1, 2], &[2, 1], 10, 20);
    assert_eq!(
        runs,
        vec![
            LineRange::Diff { r1: Range::new(10, 11), r2: Range::new(20, 20) },
            LineRange::Same { r1: Range::new(11, 12), r2: Range::new(20, 21) },
            LineRange::Diff { r1: Range::new(12, 12), r2: Range::new(21, 22) },
        ]
    );
}

#[test]
fn test_diff_middle_anchors_and_gaps() {
    // 9 is unique in both and anchors the diff; the gaps around it are
    // diffed recursively.
    let runs = diff_middle(&[1, 9, 2], &[3, 9, 4], 0, 0);
    assert_eq!(
        runs,
        vec![
            LineRange::Diff { r1: Range::new(0, 1), r2: Range::new(0, 1) },
            LineRange::Same { r1: Range::new(1, 2), r2: Range::new(1, 2) },
            LineRange::Diff { r1: Range::new(2, 3), r2: Range::new(2, 3) },
        ]
    );
}

#[test]
fn test_merge_runs_idempotent() {
    let runs = vec![
        LineRange::Same { r1: Range::new(0, 1), r2: Range::new(0, 1) },
        LineRange::Same { r1: Range::new(1, 3), r2: Range::new(1, 3) },
        LineRange::Diff { r1: Range::new(3, 4), r2: Range::new(3, 3) },
        LineRange::Diff { r1: Range::new(4, 4), r2: Range::new(3, 5) },
        LineRange::Same { r1: Range::new(4, 6), r2: Range::new(5, 7) },
    ];
    let once = merge_runs(runs);
    let twice = merge_runs(once.clone());
    assert_eq!(once, twice);
    assert_eq!(once.len(), 3);
}

#[test]
fn test_patience_diff_recursive_offsets_shift_runs() {
    let h1 = vec![1, 2, 3, 9, 4, 5, 9, 6];
    let h2 = vec![7, 2, 3, 4, 8, 5, 6, 6];
    let base = samesame::diff::patience_diff_recursive(&h1, &h2, 0, 0);
    let moved = samesame::diff::patience_diff_recursive(&h1, &h2, 100, 40);
    assert_eq!(base.len(), moved.len());
    for (b, m) in base.iter().zip(moved.iter()) {
        let expect = match b {
            LineRange::Same { r1, r2 } => LineRange::Same {
                r1: Range::new(r1.start + 100, r1.end + 100),
                r2: Range::new(r2.start + 40, r2.end + 40),
            },
            LineRange::Diff { r1, r2 } => LineRange::Diff {
                r1: Range::new(r1.start + 100, r1.end + 100),
                r2: Range::new(r2.start + 40, r2.end + 40),
            },
        };
        assert_eq!(*m, expect);
    }
    assert_eq!(base, patience_diff(&h1, &h2));
}

#[test]
fn test_merge_runs_keeps_same_lines_without_tiling() {
    // Runs that do not tile anything: merging keeps the count of Same lines
    // and never adds runs.
    let runs = vec![
        LineRange::Same { r1: Range::new(3, 5), r2: Range::new(10, 12) },
        LineRange::Same { r1: Range::new(5, 9), r2: Range::new(12, 16) },
        LineRange::Diff { r1: Range::new(0, 0), r2: Range::new(4, 4) },
        LineRange::Same { r1: Range::new(20, 21), r2: Range::new(1, 2) },
    ];
    let before: usize = runs.iter().map(|r| r.match_len()).sum();
    let n = runs.len();
    let merged = merge_runs(runs);
    let after: usize = merged.iter().map(|r| r.match_len()).sum();
    assert_eq!(before, after);
    assert!(merged.len() <= n);
    assert_eq!(merged.len(), 3);
}

#[test]
fn test_patience_diff_diff_runs_share_no_line() {
    let h1 = vec![1, 2, 3, 4, 2, 5, 6, 3, 7, 1];
    let h2 = vec![8, 3, 2, 4, 9, 6, 5, 3, 1, 7];
    let runs = patience_diff(&h1, &h2);
    assert!(runs.iter().any(|r| !r.is_same()));
    for r in &runs {
        if let LineRange::Diff { r1, r2 } = r {
            for a in r1.start..r1.end {
                for b in r2.start..r2.end {
                    assert_ne!(h1[a], h2[b]);
                }
            }
        }
    }
}
