//! Patience diff: align two files' line hashes into runs of identical and
//! differing lines.

use std::collections::HashMap;
use vstd::prelude::*;

use crate::align::{
    aligns, all_fit, alternates, fully_merged, lemma_aligns_lift, lemma_disjoint_alignment, lemma_fit_concat,
    lemma_fit_push, lemma_fits_single, lemma_full_first_run, lemma_merge_seq, lemma_merged_alternates,
    lemma_tiles_bounds, lemma_tiles_concat, lemma_tiles_prefix, lemma_tiles_push, links, merge_seq, run_fits, mergeable, combine,
    lemma_same_lines_concat,
    same_lines, tiles,
};
use crate::lcs::{hirschberg_pairs, law_hirschberg_shift, lcs_len, matching_pairs};
use crate::lis::{increasing_run, lemma_pick_bounded, max_run, patience_pick, picks};
use crate::types::{ComparisonResult, FileDescription, LineRange, Range};

pub use crate::lcs::compute_lcs;
pub use crate::lis::longest_increasing_subsequence;

verus! {

broadcast use vstd::std_specs::hash::group_hash_axioms;

/// Number of times `h` occurs in `s`.
pub open spec fn occurrences(s: Seq<u64>, h: u64) -> nat
    decreases s.len(),
{
    if s.len() == 0 {
        0
    } else {
        occurrences(s.drop_last(), h) + if s.last() == h { 1nat } else { 0nat }
    }
}

proof fn lemma_occurrences_bounded(s: Seq<u64>, h: u64)
    ensures
        occurrences(s, h) <= s.len(),
    decreases s.len(),
{
    if s.len() > 0 {
        lemma_occurrences_bounded(s.drop_last(), h);
    }
}

/// A hash that occurs somewhere occurs at least once.
proof fn lemma_occurrences_positive(s: Seq<u64>, h: u64, a: int)
    requires
        0 <= a < s.len(),
        s[a] == h,
    ensures
        occurrences(s, h) >= 1,
    decreases s.len(),
{
    if a < s.len() - 1 {
        lemma_occurrences_positive(s.drop_last(), h, a);
    }
}

/// A hash that occurs once occurs at one position only.
proof fn lemma_occurrences_once(s: Seq<u64>, h: u64, a: int, b: int)
    requires
        occurrences(s, h) == 1,
        0 <= a < s.len(),
        0 <= b < s.len(),
        s[a] == h,
        s[b] == h,
    ensures
        a == b,
    decreases s.len(),
{
    let d = s.drop_last();
    if a < s.len() - 1 && b < s.len() - 1 {
        if s.last() == h {
            lemma_occurrences_positive(d, h, a);
        } else {
            lemma_occurrences_once(d, h, a, b);
        }
    } else if a < s.len() - 1 {
        lemma_occurrences_positive(d, h, a);
    } else if b < s.len() - 1 {
        lemma_occurrences_positive(d, h, b);
    }
}

/// The line at position `i` of `h1` occurs exactly once in each sequence.
pub open spec fn unique_in_both(h1: Seq<u64>, h2: Seq<u64>, i: int) -> bool {
    occurrences(h1, h1[i]) == 1 && occurrences(h2, h1[i]) == 1
}

/// The hashes that occur exactly once, each mapped to its position.
pub fn find_unique_lines(hashes: &[u64]) -> (res: HashMap<u64, usize>)
    ensures
        forall|h: u64| #[trigger] res@.contains_key(h) <==> occurrences(hashes@, h) == 1,
        forall|h: u64| #[trigger] res@.contains_key(h) ==> res@[h] < hashes@.len() && hashes@[res@[h] as int] == h,
{
    let n = hashes.len();
    // For each hash: where it first occurs and how often it occurs.
    let mut counts: HashMap<u64, (usize, usize)> = HashMap::new();
    let mut i: usize = 0;
    while i < n
        invariant
            n == hashes@.len(),
            i <= n,
            forall|h: u64| #[trigger] counts@.contains_key(h) <==> occurrences(hashes@.take(i as int), h) > 0,
            forall|h: u64| #[trigger] counts@.contains_key(h) ==> {
                &&& counts@[h].1 == occurrences(hashes@.take(i as int), h)
                &&& counts@[h].0 < i
                &&& hashes@[counts@[h].0 as int] == h
            },
        decreases n - i,
    {
        let h = hashes[i];
        proof {
            assert(hashes@.take(i + 1).drop_last() =~= hashes@.take(i as int));
            lemma_occurrences_bounded(hashes@.take(i as int), h);
        }
        match counts.get(&h) {
            Some(entry) => {
                let (first, count) = *entry;
                counts.insert(h, (first, count + 1));
            },
            None => {
                counts.insert(h, (i, 1));
            },
        }
        i += 1;
    }
    assert(hashes@.take(n as int) =~= hashes@);
    let mut res: HashMap<u64, usize> = HashMap::new();
    let mut j: usize = 0;
    while j < n
        invariant
            n == hashes@.len(),
            j <= n,
            forall|h: u64| #[trigger] counts@.contains_key(h) <==> occurrences(hashes@, h) > 0,
            forall|h: u64| #[trigger] counts@.contains_key(h) ==> {
                &&& counts@[h].1 == occurrences(hashes@, h)
                &&& counts@[h].0 < n
                &&& hashes@[counts@[h].0 as int] == h
            },
            forall|h: u64| #[trigger] res@.contains_key(h) <==>
                (occurrences(hashes@, h) == 1 && exists|k: int| 0 <= k < j && hashes@[k] == h),
            forall|h: u64| #[trigger] res@.contains_key(h) ==> res@[h] == counts@[h].0,
        decreases n - j,
    {
        let h = hashes[j];
        match counts.get(&h) {
            Some(entry) => {
                let (first, count) = *entry;
                if count == 1 {
                    res.insert(h, first);
                }
            },
            None => {},
        }
        j += 1;
    }
    assert forall|h: u64| occurrences(hashes@, h) == 1 implies #[trigger] res@.contains_key(h) by {
        assert(counts@.contains_key(h));
        let k = counts@[h].0 as int;
        assert(0 <= k < n && hashes@[k] == h);
    }
    assert forall|h: u64| #[trigger] res@.contains_key(h) implies res@[h] < hashes@.len() && hashes@[res@[h] as int] == h by {
        assert(counts@.contains_key(h));
    }
    res
}

/// Joins each run with the next when both are of the same kind and adjacent.
pub fn merge_runs(runs: Vec<LineRange>) -> (res: Vec<LineRange>)
    ensures
        res@ == merge_seq(runs@),
{
    if runs.len() == 0 {
        return runs;
    }
    let n = runs.len();
    let mut merged: Vec<LineRange> = Vec::with_capacity(n);
    let mut current = runs[0];
    assert(runs@.take(1).drop_last() =~= Seq::<LineRange>::empty());
    assert(runs@.take(1).last() == current);
    assert(merge_seq(Seq::<LineRange>::empty()) == Seq::<LineRange>::empty());
    assert(merged@.push(current) =~= merge_seq(runs@.take(1)));
    let mut i: usize = 1;
    while i < n
        invariant
            n == runs@.len(),
            1 <= i <= n,
            merged@.push(current) == merge_seq(runs@.take(i as int)),
        decreases n - i,
    {
        let next = runs[i];
        let ghost m = merge_seq(runs@.take(i as int));
        assert(runs@.take(i + 1).drop_last() =~= runs@.take(i as int));
        assert(runs@.take(i + 1).last() == next);
        assert(m.last() == current);
        assert(m.drop_last() =~= merged@);
        match (current, next) {
            (LineRange::Same { r1: r1a, r2: r2a }, LineRange::Same { r1: r1b, r2: r2b }) if r1a.end == r1b.start
                && r2a.end == r2b.start => {
                current = LineRange::Same { r1: Range::new(r1a.start, r1b.end), r2: Range::new(r2a.start, r2b.end) };
            },
            (LineRange::Diff { r1: r1a, r2: r2a }, LineRange::Diff { r1: r1b, r2: r2b }) if r1a.end == r1b.start
                && r2a.end == r2b.start => {
                current = LineRange::Diff { r1: Range::new(r1a.start, r1b.end), r2: Range::new(r2a.start, r2b.end) };
            },
            _ => {
                merged.push(current);
                current = next;
            },
        }
        i += 1;
    }
    assert(runs@.take(n as int) =~= runs@);
    merged.push(current);
    merged
}

/// Merges the runs and establishes what merging guarantees.
fn merge_aligned(runs: Vec<LineRange>, h1: Ghost<Seq<u64>>, h2: Ghost<Seq<u64>>, o1: Ghost<int>, o2: Ghost<int>) -> (res: Vec<LineRange>)
    requires
        aligns(runs@, h1@, h2@, o1@, o2@),
    ensures
        res@ == merge_seq(runs@),
        aligns(res@, h1@, h2@, o1@, o2@),
        alternates(res@),
        fully_merged(res@),
        same_lines(res@) == same_lines(runs@),
        runs@.len() > 0 ==> res@.len() > 0,
{
    proof {
        lemma_merge_seq(runs@, h1@, h2@, o1@, o2@, o1@, o1@ + h1@.len(), o2@, o2@ + h2@.len());
        lemma_merged_alternates(merge_seq(runs@), o1@, o1@ + h1@.len(), o2@, o2@ + h2@.len());
    }
    merge_runs(runs)
}

/// A `Diff` run for the lines `p1..q1` and `p2..q2` (at offsets `o1`, `o2`),
/// where there is any such line.
pub open spec fn gap_runs(p1: int, p2: int, q1: int, q2: int, o1: int, o2: int) -> Seq<LineRange> {
    if p1 < q1 || p2 < q2 {
        seq![
            LineRange::Diff {
                r1: Range { start: (o1 + p1) as usize, end: (o1 + q1) as usize },
                r2: Range { start: (o2 + p2) as usize, end: (o2 + q2) as usize },
            },
        ]
    } else {
        Seq::empty()
    }
}

/// The one-line `Same` run for the matched lines `i` and `j`.
pub open spec fn anchor_run(i: int, j: int, o1: int, o2: int) -> LineRange {
    LineRange::Same {
        r1: Range { start: (o1 + i) as usize, end: (o1 + i + 1) as usize },
        r2: Range { start: (o2 + j) as usize, end: (o2 + j + 1) as usize },
    }
}

/// The positions just after the last pair of `p` (the start where `p` is empty).
pub open spec fn after_pairs(p: Seq<(usize, usize)>) -> (int, int) {
    if p.len() == 0 {
        (0, 0)
    } else {
        (p.last().0 + 1, p.last().1 + 1)
    }
}

/// For each matched pair in turn: a `Diff` run for the gap before it, then
/// its one-line `Same` run.
pub open spec fn pair_runs(p: Seq<(usize, usize)>, o1: int, o2: int) -> Seq<LineRange>
    decreases p.len(),
{
    if p.len() == 0 {
        Seq::empty()
    } else {
        let q = p.drop_last();
        let x = p.last();
        pair_runs(q, o1, o2) + gap_runs(after_pairs(q).0, after_pairs(q).1, x.0 as int, x.1 as int, o1, o2).push(
            anchor_run(x.0 as int, x.1 as int, o1, o2),
        )
    }
}

/// The unmerged runs of a diff of sequences of lengths `n1` and `n2` through
/// the matched pairs `p`: the pair runs, then a `Diff` run for what follows.
pub open spec fn anchored_runs(p: Seq<(usize, usize)>, n1: int, n2: int, o1: int, o2: int) -> Seq<LineRange> {
    pair_runs(p, o1, o2) + gap_runs(after_pairs(p).0, after_pairs(p).1, n1, n2, o1, o2)
}

/// The lines on the two sides of `lr` share no hash.
pub open spec fn sides_disjoint(lr: LineRange, h1: Seq<u64>, h2: Seq<u64>, o1: int, o2: int) -> bool {
    let s1 = h1.subrange(lr.left().start - o1, lr.left().end - o1);
    let s2 = h2.subrange(lr.right().start - o2, lr.right().end - o2);
    forall|a: int, b: int| 0 <= a < s1.len() && 0 <= b < s2.len() ==> #[trigger] s1[a] != #[trigger] s2[b]
}

/// No `Diff` run leaves out a line that its two sides share.
pub open spec fn diffs_disjoint(runs: Seq<LineRange>, h1: Seq<u64>, h2: Seq<u64>, o1: int, o2: int) -> bool {
    forall|k: int| 0 <= k < runs.len() && runs[k] is Diff ==> sides_disjoint(#[trigger] runs[k], h1, h2, o1, o2)
}

/// No two consecutive runs are both `Diff` runs.
spec fn no_adjacent_diffs(runs: Seq<LineRange>) -> bool {
    forall|i: int, j: int|
        0 <= i && j == i + 1 && j < runs.len() ==> !((#[trigger] runs[i]) is Diff && (#[trigger] runs[j]) is Diff)
}

/// Merging runs without two consecutive `Diff` runs leaves every `Diff` run
/// as it was, and the last run keeps its kind.
proof fn lemma_merge_diffs(runs: Seq<LineRange>, h1: Seq<u64>, h2: Seq<u64>, o1: int, o2: int)
    requires
        diffs_disjoint(runs, h1, h2, o1, o2),
        no_adjacent_diffs(runs),
    ensures
        diffs_disjoint(merge_seq(runs), h1, h2, o1, o2),
        runs.len() > 0 ==> merge_seq(runs).len() > 0 && (merge_seq(runs).last() is Same) == (runs.last() is Same),
    decreases runs.len(),
{
    if runs.len() > 0 {
        let d = runs.drop_last();
        let x = runs.last();
        assert(x == runs[runs.len() - 1]);
        assert(diffs_disjoint(d, h1, h2, o1, o2)) by {
            assert forall|k: int| 0 <= k < d.len() && d[k] is Diff implies sides_disjoint(#[trigger] d[k], h1, h2, o1, o2) by {
                assert(d[k] == runs[k]);
            }
        }
        assert(no_adjacent_diffs(d)) by {
            assert forall|i: int, j: int| 0 <= i && j == i + 1 && j < d.len() implies !((#[trigger] d[i]) is Diff
                && (#[trigger] d[j]) is Diff) by {
                assert(d[i] == runs[i] && d[j] == runs[j]);
            }
        }
        lemma_merge_diffs(d, h1, h2, o1, o2);
        let m = merge_seq(d);
        if d.len() > 0 {
            assert(d.last() == runs[runs.len() - 2]);
        }
        if m.len() > 0 && mergeable(m.last(), x) {
            let r = m.drop_last().push(combine(m.last(), x));
            assert(x is Same);
            assert forall|k: int| 0 <= k < r.len() && r[k] is Diff implies sides_disjoint(#[trigger] r[k], h1, h2, o1, o2) by {
                assert(r[k] == m[k]);
            }
        } else {
            let r = m.push(x);
            assert forall|k: int| 0 <= k < r.len() && r[k] is Diff implies sides_disjoint(#[trigger] r[k], h1, h2, o1, o2) by {
                if k < m.len() {
                    assert(r[k] == m[k]);
                } else {
                    assert(r[k] == runs[runs.len() - 1]);
                }
            }
        }
    }
}

/// Runs of parts of two sequences, whose `Diff` runs share no line, keep
/// that property within the whole sequences.
proof fn lemma_diffs_lift(
    runs: Seq<LineRange>,
    h1: Seq<u64>,
    h2: Seq<u64>,
    o1: int,
    o2: int,
    a1: int,
    b1: int,
    a2: int,
    b2: int,
)
    requires
        0 <= a1 <= b1 <= h1.len(),
        0 <= a2 <= b2 <= h2.len(),
        aligns(runs, h1.subrange(a1, b1), h2.subrange(a2, b2), o1 + a1, o2 + a2),
        diffs_disjoint(runs, h1.subrange(a1, b1), h2.subrange(a2, b2), o1 + a1, o2 + a2),
    ensures
        diffs_disjoint(runs, h1, h2, o1, o2),
{
    let g1 = h1.subrange(a1, b1);
    let g2 = h2.subrange(a2, b2);
    assert forall|k: int| 0 <= k < runs.len() && runs[k] is Diff implies sides_disjoint(#[trigger] runs[k], h1, h2, o1, o2) by {
        let lr = runs[k];
        lemma_tiles_bounds(runs, o1 + a1, o1 + a1 + g1.len(), o2 + a2, o2 + a2 + g2.len(), k);
        assert(sides_disjoint(lr, g1, g2, o1 + a1, o2 + a2));
        assert(g1.subrange(lr.left().start - (o1 + a1), lr.left().end - (o1 + a1)) =~= h1.subrange(
            lr.left().start - o1,
            lr.left().end - o1,
        ));
        assert(g2.subrange(lr.right().start - (o2 + a2), lr.right().end - (o2 + a2)) =~= h2.subrange(
            lr.right().start - o2,
            lr.right().end - o2,
        ));
    }
}

/// Joining runs keeps their `Diff` runs apart from shared lines, and keeps
/// `Diff` runs apart where the joint is a `Same` run.
proof fn lemma_diffs_concat(a: Seq<LineRange>, b: Seq<LineRange>, h1: Seq<u64>, h2: Seq<u64>, o1: int, o2: int)
    requires
        diffs_disjoint(a, h1, h2, o1, o2),
        diffs_disjoint(b, h1, h2, o1, o2),
        no_adjacent_diffs(a),
        no_adjacent_diffs(b),
        a.len() == 0 || b.len() == 0 || a.last() is Same || b[0] is Same,
    ensures
        diffs_disjoint(a + b, h1, h2, o1, o2),
        no_adjacent_diffs(a + b),
{
    let r = a + b;
    assert forall|k: int| 0 <= k < r.len() && r[k] is Diff implies sides_disjoint(#[trigger] r[k], h1, h2, o1, o2) by {
        if k < a.len() {
            assert(r[k] == a[k]);
        } else {
            assert(r[k] == b[k - a.len()]);
        }
    }
    assert forall|i: int, j: int| 0 <= i && j == i + 1 && j < r.len() implies !((#[trigger] r[i]) is Diff
        && (#[trigger] r[j]) is Diff) by {
        if j < a.len() {
            assert(r[i] == a[i] && r[j] == a[j]);
        } else if i >= a.len() {
            assert(r[i] == b[i - a.len()] && r[j] == b[j - a.len()]);
        } else {
            assert(r[i] == a.last() && r[j] == b[0]);
        }
    }
}

/// Alternating runs have no two consecutive `Diff` runs.
proof fn lemma_alternates_no_adjacent(runs: Seq<LineRange>)
    requires
        alternates(runs),
    ensures
        no_adjacent_diffs(runs),
{
}

/// A `Diff` run with an empty side separates lines that share nothing.
proof fn lemma_one_sided_diff(lr: LineRange, h1: Seq<u64>, h2: Seq<u64>, o1: int, o2: int)
    requires
        lr.left().start == lr.left().end || lr.right().start == lr.right().end,
        0 <= lr.left().start - o1 <= lr.left().end - o1 <= h1.len(),
        0 <= lr.right().start - o2 <= lr.right().end - o2 <= h2.len(),
    ensures
        sides_disjoint(lr, h1, h2, o1, o2),
{
}

/// A pair placed between two neighbours of a common subsequence, and
/// matching equal lines, makes a longer common subsequence.
proof fn lemma_insert_pair(p: Seq<(usize, usize)>, k: int, x: usize, y: usize, h1: Seq<u64>, h2: Seq<u64>)
    requires
        matching_pairs(p, h1, h2, 0, 0),
        0 <= k <= p.len(),
        k > 0 ==> p[k - 1].0 < x && p[k - 1].1 < y,
        k < p.len() ==> x < p[k].0 && y < p[k].1,
        x < h1.len(),
        y < h2.len(),
        h1[x as int] == h2[y as int],
    ensures
        matching_pairs(p.take(k).push((x, y)) + p.skip(k), h1, h2, 0, 0),
        (p.take(k).push((x, y)) + p.skip(k)).len() == p.len() + 1,
{
    let q = p.take(k).push((x, y)) + p.skip(k);
    assert forall|t: int| 0 <= t < q.len() implies {
        &&& 0 <= (#[trigger] q[t]).0 < 0 + h1.len()
        &&& 0 <= q[t].1 < 0 + h2.len()
        &&& h1[q[t].0 - 0] == h2[q[t].1 - 0]
    } by {
        if t < k {
            assert(q[t] == p[t]);
        } else if t > k {
            assert(q[t] == p[t - 1]);
        }
    }
    assert forall|t: int, u: int| 0 <= t < u < q.len() implies (#[trigger] q[t]).0 < (#[trigger] q[u]).0 && q[t].1 < q[u].1 by {
        if u < k {
            assert(q[t] == p[t] && q[u] == p[u]);
        } else if u == k {
            assert(q[t] == p[t]);
            assert(p[t].0 <= p[k - 1].0 && p[t].1 <= p[k - 1].1);
        } else if t > k {
            assert(q[t] == p[t - 1] && q[u] == p[u - 1]);
        } else if t == k {
            assert(q[u] == p[u - 1]);
            assert(p[k].0 <= p[u - 1].0 && p[k].1 <= p[u - 1].1);
        } else {
            assert(q[t] == p[t] && q[u] == p[u - 1]);
        }
    }
}

/// Between neighbouring pairs of a longest common subsequence the two
/// sequences share no line.
proof fn lemma_lcs_gap(lcs: Seq<(usize, usize)>, k: int, p1: int, p2: int, q1: int, q2: int, h1: Seq<u64>, h2: Seq<u64>)
    requires
        matching_pairs(lcs, h1, h2, 0, 0),
        forall|p: Seq<(usize, usize)>| matching_pairs(p, h1, h2, 0, 0) ==> p.len() <= lcs.len(),
        0 <= k <= lcs.len(),
        k == 0 ==> p1 == 0 && p2 == 0,
        k > 0 ==> p1 == lcs[k - 1].0 + 1 && p2 == lcs[k - 1].1 + 1,
        k < lcs.len() ==> q1 == lcs[k].0 && q2 == lcs[k].1,
        k == lcs.len() ==> q1 == h1.len() && q2 == h2.len(),
        0 <= p1 <= q1 <= h1.len(),
        0 <= p2 <= q2 <= h2.len(),
        h1.len() <= usize::MAX,
        h2.len() <= usize::MAX,
    ensures
        forall|a: int, b: int|
            0 <= a < h1.subrange(p1, q1).len() && 0 <= b < h2.subrange(p2, q2).len() ==> #[trigger] h1.subrange(p1, q1)[a]
                != #[trigger] h2.subrange(p2, q2)[b],
{
    let s1 = h1.subrange(p1, q1);
    let s2 = h2.subrange(p2, q2);
    assert forall|a: int, b: int| 0 <= a < s1.len() && 0 <= b < s2.len() implies #[trigger] s1[a] != #[trigger] s2[b] by {
        if s1[a] == s2[b] {
            lemma_insert_pair(lcs, k, (p1 + a) as usize, (p2 + b) as usize, h1, h2);
        }
    }
}

/// Diff of two sequences through their longest common subsequence: each
/// common element becomes a one-line `Same` run, each gap a `Diff` run, and
/// adjacent runs of one kind are merged.
#[verifier::spinoff_prover]
#[verifier::rlimit(40)]
pub fn lcs_diff(hashes1: &[u64], hashes2: &[u64], offset1: usize, offset2: usize) -> (res: Vec<LineRange>)
    requires
        offset1 + hashes1@.len() <= usize::MAX,
        offset2 + hashes2@.len() <= usize::MAX,
        hashes2@.len() < usize::MAX,
    ensures
        aligns(res@, hashes1@, hashes2@, offset1 as int, offset2 as int),
        alternates(res@),
        same_lines(res@) == lcs_len(hashes1@, hashes2@),
        diffs_disjoint(res@, hashes1@, hashes2@, offset1 as int, offset2 as int),
        res@ == merge_seq(
            anchored_runs(
                hirschberg_pairs(hashes1@, hashes2@, 0, 0),
                hashes1@.len() as int,
                hashes2@.len() as int,
                offset1 as int,
                offset2 as int,
            ),
        ),
{
    let ghost h1 = hashes1@;
    let ghost h2 = hashes2@;
    let ghost o1 = offset1 as int;
    let ghost o2 = offset2 as int;
    let len1 = hashes1.len();
    let len2 = hashes2.len();
    let lcs = compute_lcs(hashes1, hashes2);
    if lcs.len() == 0 {
        // No common element: everything differs.
        let mut runs: Vec<LineRange> = Vec::new();
        if len1 > 0 || len2 > 0 {
            runs.push(LineRange::Diff {
                r1: Range::new(offset1, offset1 + len1),
                r2: Range::new(offset2, offset2 + len2),
            });
            assert(runs@.drop_last() =~= Seq::<LineRange>::empty());
            assert(same_lines(runs@) == same_lines(runs@.drop_last()) + runs@.last().matched());
        }
        assert(same_lines(Seq::<LineRange>::empty()) == 0);
        proof {
            let a = anchored_runs(lcs@, len1 as int, len2 as int, o1, o2);
            assert(lcs@ =~= Seq::<(usize, usize)>::empty());
            assert(a =~= runs@);
            assert(merge_seq(Seq::<LineRange>::empty()) == Seq::<LineRange>::empty());
            if runs@.len() == 1 {
                assert(runs@.drop_last() =~= Seq::<LineRange>::empty());
                lemma_lcs_gap(lcs@, 0, 0, 0, len1 as int, len2 as int, h1, h2);
                assert(sides_disjoint(runs@[0], h1, h2, o1, o2));
            }
        }
        return runs;
    }
    let mut runs: Vec<LineRange> = Vec::new();
    let mut pos1: usize = 0;
    let mut pos2: usize = 0;
    let nl = lcs.len();
    let mut k: usize = 0;
    while k < nl
        invariant
            h1 == hashes1@,
            h2 == hashes2@,
            o1 == offset1,
            o2 == offset2,
            len1 == h1.len(),
            len2 == h2.len(),
            offset1 + len1 <= usize::MAX,
            offset2 + len2 <= usize::MAX,
            nl == lcs@.len(),
            k <= nl,
            pos1 <= len1,
            pos2 <= len2,
            matching_pairs(lcs@, h1, h2, 0, 0),
            k < nl ==> lcs@[k as int].0 >= pos1 && lcs@[k as int].1 >= pos2,
            tiles(runs@, o1, o1 + pos1, o2, o2 + pos2),
            all_fit(runs@, h1, h2, o1, o2),
            same_lines(runs@) == k,
            runs@ == pair_runs(lcs@.take(k as int), o1, o2),
            (pos1 as int, pos2 as int) == after_pairs(lcs@.take(k as int)),
            forall|p: Seq<(usize, usize)>| matching_pairs(p, h1, h2, 0, 0) ==> p.len() <= lcs@.len(),
            diffs_disjoint(runs@, h1, h2, o1, o2),
            no_adjacent_diffs(runs@),
            runs@.len() > 0 ==> runs@.last() is Same,
        decreases nl - k,
    {
        let (idx1, idx2) = lcs[k];
        assert(lcs@[k as int] == (idx1, idx2));
        let ghost before = runs@;
        assert(lcs@.take(k + 1).drop_last() =~= lcs@.take(k as int));
        assert(lcs@.take(k + 1).last() == lcs@[k as int]);
        if pos1 < idx1 || pos2 < idx2 {
            let gap = LineRange::Diff {
                r1: Range::new(offset1 + pos1, offset1 + idx1),
                r2: Range::new(offset2 + pos2, offset2 + idx2),
            };
            proof {
                lemma_tiles_push(runs@, gap, o1, o1 + pos1, o2, o2 + pos2);
                lemma_fit_push(runs@, gap, h1, h2, o1, o2);
                if k > 0 {
                    assert(lcs@.take(k as int).last() == lcs@[k - 1]);
                }
                lemma_lcs_gap(lcs@, k as int, pos1 as int, pos2 as int, idx1 as int, idx2 as int, h1, h2);
                lemma_diffs_concat(runs@, seq![gap], h1, h2, o1, o2);
                assert(runs@.push(gap) =~= runs@ + seq![gap]);
            }
            runs.push(gap);
        }
        let same = LineRange::Same {
            r1: Range::new(offset1 + idx1, offset1 + idx1 + 1),
            r2: Range::new(offset2 + idx2, offset2 + idx2 + 1),
        };
        proof {
            lemma_fits_single(h1, h2, o1, o2, idx1 as int, idx2 as int);
            lemma_tiles_push(runs@, same, o1, o1 + idx1, o2, o2 + idx2);
            lemma_fit_push(runs@, same, h1, h2, o1, o2);
            lemma_diffs_concat(runs@, seq![same], h1, h2, o1, o2);
            assert(runs@.push(same) =~= runs@ + seq![same]);
        }
        runs.push(same);
        assert(runs@ =~= before + gap_runs(pos1 as int, pos2 as int, idx1 as int, idx2 as int, o1, o2).push(
            anchor_run(idx1 as int, idx2 as int, o1, o2),
        ));
        pos1 = idx1 + 1;
        pos2 = idx2 + 1;
        k += 1;
        assert(k < nl ==> lcs@[k as int].0 > lcs@[k - 1].0 && lcs@[k as int].1 > lcs@[k - 1].1);
    }
    assert(lcs@.take(nl as int) =~= lcs@);
    let ghost before = runs@;
    if pos1 < len1 || pos2 < len2 {
        let gap = LineRange::Diff {
            r1: Range::new(offset1 + pos1, offset1 + len1),
            r2: Range::new(offset2 + pos2, offset2 + len2),
        };
        proof {
            lemma_tiles_push(runs@, gap, o1, o1 + pos1, o2, o2 + pos2);
            lemma_fit_push(runs@, gap, h1, h2, o1, o2);
            if nl > 0 {
                assert(lcs@.last() == lcs@[nl - 1]);
            }
            lemma_lcs_gap(lcs@, nl as int, pos1 as int, pos2 as int, len1 as int, len2 as int, h1, h2);
            lemma_diffs_concat(runs@, seq![gap], h1, h2, o1, o2);
            assert(runs@.push(gap) =~= runs@ + seq![gap]);
        }
        runs.push(gap);
    }
    proof {
        lemma_merge_diffs(runs@, h1, h2, o1, o2);
    }
    assert(runs@ =~= anchored_runs(lcs@, len1 as int, len2 as int, o1, o2));
    merge_aligned(runs, Ghost(h1), Ghost(h2), Ghost(o1), Ghost(o2))
}

/// Length of the longest common prefix of `a` and `b`.
pub open spec fn common_prefix(a: Seq<u64>, b: Seq<u64>) -> nat
    decreases a.len(),
{
    if a.len() == 0 || b.len() == 0 || a[0] != b[0] {
        0
    } else {
        1 + common_prefix(a.drop_first(), b.drop_first())
    }
}

/// Length of the longest common suffix of `a` and `b`.
pub open spec fn common_suffix(a: Seq<u64>, b: Seq<u64>) -> nat
    decreases a.len(),
{
    if a.len() == 0 || b.len() == 0 || a.last() != b.last() {
        0
    } else {
        1 + common_suffix(a.drop_last(), b.drop_last())
    }
}

/// A sequence agrees with itself all along.
proof fn lemma_common_prefix_self(a: Seq<u64>)
    ensures
        common_prefix(a, a) == a.len(),
    decreases a.len(),
{
    if a.len() > 0 {
        lemma_common_prefix_self(a.drop_first());
    }
}

/// A prefix on which `a` and `b` agree and past which they cannot be extended
/// is their longest common prefix.
proof fn lemma_common_prefix(a: Seq<u64>, b: Seq<u64>, p: int)
    requires
        0 <= p <= a.len(),
        p <= b.len(),
        a.take(p) == b.take(p),
        p == a.len() || p == b.len() || a[p] != b[p],
    ensures
        common_prefix(a, b) == p,
    decreases p,
{
    if p > 0 {
        assert(a[0] == a.take(p)[0]);
        assert(b[0] == b.take(p)[0]);
        assert(a.drop_first().take(p - 1) =~= a.take(p).drop_first());
        assert(b.drop_first().take(p - 1) =~= b.take(p).drop_first());
        if p < a.len() && p < b.len() {
            assert(a.drop_first()[p - 1] == a[p]);
            assert(b.drop_first()[p - 1] == b[p]);
        }
        lemma_common_prefix(a.drop_first(), b.drop_first(), p - 1);
    }
}

/// A suffix on which `a` and `b` agree and before which they cannot be
/// extended is their longest common suffix.
proof fn lemma_common_suffix(a: Seq<u64>, b: Seq<u64>, q: int)
    requires
        0 <= q <= a.len(),
        q <= b.len(),
        a.subrange(a.len() - q, a.len() as int) == b.subrange(b.len() - q, b.len() as int),
        q == a.len() || q == b.len() || a[a.len() - 1 - q] != b[b.len() - 1 - q],
    ensures
        common_suffix(a, b) == q,
    decreases q,
{
    if q > 0 {
        let sa = a.subrange(a.len() - q, a.len() as int);
        let sb = b.subrange(b.len() - q, b.len() as int);
        assert(a.last() == sa.last());
        assert(b.last() == sb.last());
        let a2 = a.drop_last();
        let b2 = b.drop_last();
        assert(a2.subrange(a2.len() - (q - 1), a2.len() as int) =~= sa.drop_last());
        assert(b2.subrange(b2.len() - (q - 1), b2.len() as int) =~= sb.drop_last());
        if q < a.len() && q < b.len() {
            assert(a2[a2.len() - 1 - (q - 1)] == a[a.len() - 1 - q]);
            assert(b2[b2.len() - 1 - (q - 1)] == b[b.len() - 1 - q]);
        }
        lemma_common_suffix(a2, b2, q - 1);
    }
}

/// Positions `(i, j)` of equal hashes, strictly increasing in `i`.
spec fn anchor_candidates(p: Seq<(usize, usize)>, h1: Seq<u64>, h2: Seq<u64>) -> bool {
    &&& forall|k: int|
        0 <= k < p.len() ==> (#[trigger] p[k]).0 < h1.len() && p[k].1 < h2.len() && h1[p[k].0 as int] == h2[p[k].1 as int]
    &&& forall|k: int, l: int| 0 <= k < l < p.len() ==> (#[trigger] p[k]).0 < (#[trigger] p[l]).0
}

/// Neither a common prefix nor a common suffix is longer than either sequence.
pub proof fn lemma_common_bounds(a: Seq<u64>, b: Seq<u64>)
    ensures
        common_prefix(a, b) <= a.len(),
        common_prefix(a, b) <= b.len(),
        common_suffix(a, b) <= a.len(),
        common_suffix(a, b) <= b.len(),
    decreases a.len(),
{
    if a.len() > 0 && b.len() > 0 {
        lemma_common_bounds(a.drop_first(), b.drop_first());
        lemma_common_bounds(a.drop_last(), b.drop_last());
    }
}

/// A position of `h` in `s`.
pub open spec fn position_of(s: Seq<u64>, h: u64) -> int {
    choose|j: int| 0 <= j < s.len() && s[j] == h
}

/// Among the first `n` lines of `h1`, those unique in both sequences, in
/// order, each paired with the position of the same line in `h2`.
pub open spec fn unique_anchors(h1: Seq<u64>, h2: Seq<u64>, n: int) -> Seq<(usize, usize)>
    decreases n,
{
    if n <= 0 {
        Seq::empty()
    } else {
        let prev = unique_anchors(h1, h2, n - 1);
        if unique_in_both(h1, h2, n - 1) {
            prev.push(((n - 1) as usize, position_of(h2, h1[n - 1]) as usize))
        } else {
            prev
        }
    }
}

/// The runs of the patience diff of `h1` and `h2`, whose first lines are
/// `o1` and `o2`: a `Same` run for the common head, the runs of the middle
/// part, and a `Same` run for the common tail; a `Diff` run where one side is
/// empty.
#[verifier::opaque]
pub open spec fn patience_runs(h1: Seq<u64>, h2: Seq<u64>, o1: int, o2: int) -> Seq<LineRange>
    decreases h1.len() + h2.len(), 2int, 0int,
{
    if h1.len() == 0 || h2.len() == 0 {
        gap_runs(0, 0, h1.len() as int, h2.len() as int, o1, o2)
    } else {
        let p = common_prefix(h1, h2) as int;
        let q = common_suffix(h1.skip(p), h2.skip(p)) as int;
        let e1 = h1.len() - q;
        let e2 = h2.len() - q;
        let head = if p > 0 {
            seq![
                LineRange::Same {
                    r1: Range { start: o1 as usize, end: (o1 + p) as usize },
                    r2: Range { start: o2 as usize, end: (o2 + p) as usize },
                },
            ]
        } else {
            Seq::empty()
        };
        let tail = if q > 0 {
            seq![
                LineRange::Same {
                    r1: Range { start: (o1 + e1) as usize, end: (o1 + h1.len()) as usize },
                    r2: Range { start: (o2 + e2) as usize, end: (o2 + h2.len()) as usize },
                },
            ]
        } else {
            Seq::empty()
        };
        let middle = if p < e1 || p < e2 {
            proof {
                lemma_common_bounds(h1, h2);
                lemma_common_bounds(h1.skip(p), h2.skip(p));
            }
            middle_runs(h1.subrange(p, e1), h2.subrange(p, e2), o1 + p, o2 + p)
        } else {
            Seq::empty()
        };
        head + middle + tail
    }
}

/// The runs of the middle part of a patience diff: the kept anchors of the
/// lines unique in both sequences, with the gaps between them diffed
/// recursively and adjacent runs merged; the merged LCS diff where no anchor
/// is kept; a `Diff` run where one side is empty.
#[verifier::opaque]
pub open spec fn middle_runs(h1: Seq<u64>, h2: Seq<u64>, o1: int, o2: int) -> Seq<LineRange>
    decreases h1.len() + h2.len(), 1int, 0int,
{
    if h1.len() == 0 || h2.len() == 0 {
        gap_runs(0, 0, h1.len() as int, h2.len() as int, o1, o2)
    } else {
        let a = unique_anchors(h1, h2, h1.len() as int);
        let l = patience_pick(a);
        if a.len() == 0 || l.len() == 0 {
            merge_seq(anchored_runs(hirschberg_pairs(h1, h2, 0, 0), h1.len() as int, h2.len() as int, o1, o2))
        } else {
            let e = after_pairs(l);
            merge_seq(
                anchor_gap_runs(l, h1, h2, o1, o2) + gap_diff(e.0, e.1, h1.len() as int, h2.len() as int, h1, h2, o1, o2),
            )
        }
    }
}

/// For each kept anchor in turn: the patience diff of the gap before it,
/// then its one-line `Same` run.
#[verifier::opaque]
pub open spec fn anchor_gap_runs(l: Seq<(usize, usize)>, h1: Seq<u64>, h2: Seq<u64>, o1: int, o2: int) -> Seq<LineRange>
    decreases h1.len() + h2.len(), 0int, l.len(),
{
    if l.len() == 0 {
        Seq::empty()
    } else {
        let q = l.drop_last();
        let x = l.last();
        anchor_gap_runs(q, h1, h2, o1, o2) + gap_diff(after_pairs(q).0, after_pairs(q).1, x.0 as int, x.1 as int, h1, h2, o1, o2).push(
            anchor_run(x.0 as int, x.1 as int, o1, o2),
        )
    }
}

/// The patience diff of the lines `p1..q1` of `h1` and `p2..q2` of `h2`,
/// where there is any such line; defined for gaps that lie within the
/// sequences and are shorter than the two together.
#[verifier::opaque]
pub open spec fn gap_diff(p1: int, p2: int, q1: int, q2: int, h1: Seq<u64>, h2: Seq<u64>, o1: int, o2: int) -> Seq<LineRange>
    decreases h1.len() + h2.len(), 0int, 0int,
{
    if (p1 < q1 || p2 < q2) && 0 <= p1 <= q1 <= h1.len() && 0 <= p2 <= q2 <= h2.len() && (q1 - p1) + (q2 - p2) < h1.len()
        + h2.len() {
        patience_runs(h1.subrange(p1, q1), h2.subrange(p2, q2), o1 + p1, o2 + p2)
    } else {
        Seq::empty()
    }
}

/// Where one side is empty, the patience runs and the middle runs are the
/// single `Diff` run, if any.
proof fn lemma_runs_edge(h1: Seq<u64>, h2: Seq<u64>, o1: int, o2: int)
    requires
        h1.len() == 0 || h2.len() == 0,
    ensures
        patience_runs(h1, h2, o1, o2) == gap_runs(0, 0, h1.len() as int, h2.len() as int, o1, o2),
        middle_runs(h1, h2, o1, o2) == gap_runs(0, 0, h1.len() as int, h2.len() as int, o1, o2),
{
    reveal(patience_runs);
    reveal(middle_runs);
    reveal(anchor_gap_runs);
    reveal(gap_diff);
}

/// Without kept anchors, the middle runs are the merged LCS diff.
proof fn lemma_middle_runs_lcs(h1: Seq<u64>, h2: Seq<u64>, o1: int, o2: int)
    requires
        h1.len() > 0,
        h2.len() > 0,
        unique_anchors(h1, h2, h1.len() as int).len() == 0 || patience_pick(unique_anchors(h1, h2, h1.len() as int)).len()
            == 0,
    ensures
        middle_runs(h1, h2, o1, o2) == merge_seq(
            anchored_runs(hirschberg_pairs(h1, h2, 0, 0), h1.len() as int, h2.len() as int, o1, o2),
        ),
{
    reveal(patience_runs);
    reveal(middle_runs);
    reveal(anchor_gap_runs);
    reveal(gap_diff);
}

/// With kept anchors `l`, the middle runs are the merged anchor and gap runs.
proof fn lemma_middle_runs_anchored(h1: Seq<u64>, h2: Seq<u64>, o1: int, o2: int, l: Seq<(usize, usize)>)
    requires
        h1.len() > 0,
        h2.len() > 0,
        unique_anchors(h1, h2, h1.len() as int).len() > 0,
        l == patience_pick(unique_anchors(h1, h2, h1.len() as int)),
        l.len() > 0,
    ensures
        middle_runs(h1, h2, o1, o2) == merge_seq(
            anchor_gap_runs(l, h1, h2, o1, o2) + gap_diff(
                after_pairs(l).0,
                after_pairs(l).1,
                h1.len() as int,
                h2.len() as int,
                h1,
                h2,
                o1,
                o2,
            ),
        ),
{
    reveal(patience_runs);
    reveal(middle_runs);
    reveal(anchor_gap_runs);
    reveal(gap_diff);
}

/// The anchor and gap runs of the first `k + 1` anchors extend those of the
/// first `k`.
proof fn lemma_anchor_gap_runs_step(l: Seq<(usize, usize)>, k: int, h1: Seq<u64>, h2: Seq<u64>, o1: int, o2: int)
    requires
        0 <= k < l.len(),
    ensures
        anchor_gap_runs(l.take(0), h1, h2, o1, o2) == Seq::<LineRange>::empty(),
        anchor_gap_runs(l.take(k + 1), h1, h2, o1, o2) == anchor_gap_runs(l.take(k), h1, h2, o1, o2) + gap_diff(
            after_pairs(l.take(k)).0,
            after_pairs(l.take(k)).1,
            l[k].0 as int,
            l[k].1 as int,
            h1,
            h2,
            o1,
            o2,
        ).push(anchor_run(l[k].0 as int, l[k].1 as int, o1, o2)),
{
    reveal(patience_runs);
    reveal(middle_runs);
    reveal(anchor_gap_runs);
    reveal(gap_diff);
    assert(l.take(k + 1).drop_last() =~= l.take(k));
    assert(l.take(k + 1).last() == l[k]);
}

/// A gap within the sequences and shorter than both together is diffed by
/// the patience runs; an empty gap gives no run.
proof fn lemma_gap_diff(p1: int, p2: int, q1: int, q2: int, h1: Seq<u64>, h2: Seq<u64>, o1: int, o2: int)
    ensures
        (p1 < q1 || p2 < q2) && 0 <= p1 <= q1 <= h1.len() && 0 <= p2 <= q2 <= h2.len() && (q1 - p1) + (q2 - p2) < h1.len()
            + h2.len() ==> gap_diff(p1, p2, q1, q2, h1, h2, o1, o2) == patience_runs(
            h1.subrange(p1, q1),
            h2.subrange(p2, q2),
            o1 + p1,
            o2 + p2,
        ),
        !(p1 < q1 || p2 < q2) ==> gap_diff(p1, p2, q1, q2, h1, h2, o1, o2) == Seq::<LineRange>::empty(),
{
    reveal(patience_runs);
    reveal(middle_runs);
    reveal(anchor_gap_runs);
    reveal(gap_diff);
}

/// Without a line unique in both sequences there is no anchor.
proof fn lemma_no_unique_anchors(h1: Seq<u64>, h2: Seq<u64>, n: int)
    requires
        forall|i: int| 0 <= i < n ==> !#[trigger] unique_in_both(h1, h2, i),
    ensures
        unique_anchors(h1, h2, n).len() == 0,
    decreases n,
{
    if n > 0 {
        lemma_no_unique_anchors(h1, h2, n - 1);
        assert(!unique_in_both(h1, h2, n - 1));
    }
}

/// Where no line is unique in both non-empty sequences, the middle part is
/// diffed through their longest common subsequence: the runs are those of
/// `lcs_diff`.
pub proof fn law_middle_without_anchors(h1: Seq<u64>, h2: Seq<u64>, o1: int, o2: int)
    requires
        h1.len() > 0,
        h2.len() > 0,
        forall|i: int| 0 <= i < h1.len() ==> !#[trigger] unique_in_both(h1, h2, i),
    ensures
        middle_runs(h1, h2, o1, o2) == merge_seq(
            anchored_runs(hirschberg_pairs(h1, h2, 0, 0), h1.len() as int, h2.len() as int, o1, o2),
        ),
{
    lemma_no_unique_anchors(h1, h2, h1.len() as int);
    lemma_middle_runs_lcs(h1, h2, o1, o2);
}

/// Every matching of lines that are unique in both sequences has at most as
/// many pairs as `runs` has lines in `Same` runs: the runs keep at least a
/// longest increasing run of the lines unique in both sequences.
#[verifier::opaque]
pub open spec fn keeps_unique_matches(runs: Seq<LineRange>, h1: Seq<u64>, h2: Seq<u64>) -> bool {
    forall|p: Seq<(usize, usize)>|
        #[trigger] matching_pairs(p, h1, h2, 0, 0) && (forall|k: int|
            0 <= k < p.len() ==> unique_in_both(h1, h2, (#[trigger] p[k]).0 as int)) ==> p.len() <= same_lines(runs)
}

/// A hash at a position of a sequence without repeated hashes occurs once.
proof fn lemma_occurrences_distinct(s: Seq<u64>, a: int)
    requires
        0 <= a < s.len(),
        forall|i: int, j: int| 0 <= i < j < s.len() ==> s[i] != s[j],
    ensures
        occurrences(s, s[a]) == 1,
    decreases s.len(),
{
    let d = s.drop_last();
    if a < s.len() - 1 {
        assert(d[a] == s[a]);
        lemma_occurrences_distinct(d, a);
        assert(s.last() != s[a]);
    } else {
        assert forall|k: int| 0 <= k < d.len() implies d[k] != s[a] by {
            assert(d[k] == s[k]);
        }
        lemma_occurrences_absent(d, s[a]);
    }
}

/// A hash that no position holds does not occur.
proof fn lemma_occurrences_absent(s: Seq<u64>, h: u64)
    requires
        forall|k: int| 0 <= k < s.len() ==> s[k] != h,
    ensures
        occurrences(s, h) == 0,
    decreases s.len(),
{
    if s.len() > 0 {
        let d = s.drop_last();
        assert forall|k: int| 0 <= k < d.len() implies d[k] != h by {
            assert(d[k] == s[k]);
        }
        lemma_occurrences_absent(d, h);
        assert(s.last() == s[s.len() - 1]);
    }
}

/// The anchors among the first `n` lines: in order of their first
/// positions, one for each line unique in both sequences, paired with the
/// position of that line in the second sequence.
proof fn lemma_unique_anchors_shape(h1: Seq<u64>, h2: Seq<u64>, n: int)
    requires
        0 <= n <= h1.len(),
        h1.len() <= usize::MAX,
        h2.len() <= usize::MAX,
    ensures
        forall|t: int|
            0 <= t < unique_anchors(h1, h2, n).len() ==> {
                let x = #[trigger] unique_anchors(h1, h2, n)[t];
                &&& x.0 < n
                &&& unique_in_both(h1, h2, x.0 as int)
                &&& x.1 as int == position_of(h2, h1[x.0 as int])
            },
        forall|t: int, u: int|
            0 <= t < u < unique_anchors(h1, h2, n).len() ==> (#[trigger] unique_anchors(h1, h2, n)[t]).0
                < (#[trigger] unique_anchors(h1, h2, n)[u]).0,
        forall|i: int|
            0 <= i < n && #[trigger] unique_in_both(h1, h2, i) ==> exists|t: int|
                0 <= t < unique_anchors(h1, h2, n).len() && unique_anchors(h1, h2, n)[t].0 == i,
    decreases n,
{
    if n > 0 {
        lemma_unique_anchors_shape(h1, h2, n - 1);
        let prev = unique_anchors(h1, h2, n - 1);
        let u = unique_anchors(h1, h2, n);
        if unique_in_both(h1, h2, n - 1) {
            lemma_occurrences_witness(h2, h1[n - 1]);
            let j = position_of(h2, h1[n - 1]);
            assert(0 <= j < h2.len());
            assert forall|t: int| 0 <= t < u.len() implies {
                let x = #[trigger] u[t];
                &&& x.0 < n
                &&& unique_in_both(h1, h2, x.0 as int)
                &&& x.1 as int == position_of(h2, h1[x.0 as int])
            } by {
                if t < prev.len() {
                    assert(u[t] == prev[t]);
                }
            }
            assert forall|t: int, v: int| 0 <= t < v < u.len() implies (#[trigger] u[t]).0 < (#[trigger] u[v]).0 by {
                if v < prev.len() {
                    assert(u[t] == prev[t] && u[v] == prev[v]);
                } else {
                    assert(u[t] == prev[t]);
                }
            }
            assert forall|i: int| 0 <= i < n && #[trigger] unique_in_both(h1, h2, i) implies exists|t: int|
                0 <= t < u.len() && u[t].0 == i by {
                if i < n - 1 {
                    let t = choose|t: int| 0 <= t < prev.len() && prev[t].0 == i;
                    assert(u[t] == prev[t]);
                } else {
                    assert(u[prev.len() as int].0 == i);
                }
            }
        }
    }
}

/// Matched lines that are unique in both sequences are an increasing run
/// of the anchors, as long as the matching.
proof fn lemma_anchor_run(h1: Seq<u64>, h2: Seq<u64>, p: Seq<(usize, usize)>)
    requires
        matching_pairs(p, h1, h2, 0, 0),
        forall|k: int| 0 <= k < p.len() ==> unique_in_both(h1, h2, (#[trigger] p[k]).0 as int),
        h1.len() <= usize::MAX,
        h2.len() <= usize::MAX,
    ensures
        exists|idx: Seq<int>| increasing_run(unique_anchors(h1, h2, h1.len() as int), idx) && idx.len() == p.len(),
{
    let m = unique_anchors(h1, h2, h1.len() as int);
    lemma_unique_anchors_shape(h1, h2, h1.len() as int);
    assert forall|k: int| 0 <= k < p.len() implies exists|t: int| 0 <= t < m.len() && m[t].0 == (#[trigger] p[k]).0 by {
        assert(unique_in_both(h1, h2, p[k].0 as int));
    }
    let idx = Seq::new(p.len(), |k: int| choose|t: int| 0 <= t < m.len() && m[t].0 == p[k].0);
    assert forall|k: int| 0 <= k < p.len() implies 0 <= #[trigger] idx[k] < m.len() && m[idx[k]].0 == p[k].0 && m[idx[k]].1
        == p[k].1 by {
        assert(unique_in_both(h1, h2, p[k].0 as int));
        assert(exists|t: int| 0 <= t < m.len() && m[t].0 == p[k].0 as int);
        assert(exists|t: int| 0 <= t < m.len() && m[t].0 == p[k].0);
        let t = idx[k];
        let h = h1[p[k].0 as int];
        lemma_occurrences_witness(h2, h);
        let j = position_of(h2, h);
        assert(unique_in_both(h1, h2, p[k].0 as int));
        lemma_occurrences_once(h2, h, j, p[k].1 as int);
    }
    assert forall|k: int, l: int| 0 <= k < l < idx.len() implies (#[trigger] idx[k]) < (#[trigger] idx[l]) && m[idx[k]].1
        < m[idx[l]].1 by {
        assert(p[k].0 < p[l].0 && p[k].1 < p[l].1);
        if idx[k] >= idx[l] {
            if idx[k] > idx[l] {
                assert(m[idx[l]].0 < m[idx[k]].0);
            }
        }
    }
    assert(increasing_run(m, idx));
}

/// Diff of the part between the common head and tail: lines unique in both
/// sequences serve as anchors, the longest increasing run of anchors is
/// kept, and the gaps between kept anchors are diffed recursively. Without
/// anchors the longest-common-subsequence diff is used.
#[verifier::spinoff_prover]
#[verifier::rlimit(60)]
pub fn diff_middle(hashes1: &[u64], hashes2: &[u64], offset1: usize, offset2: usize) -> (res: Vec<LineRange>)
    requires
        offset1 + hashes1@.len() <= usize::MAX,
        offset2 + hashes2@.len() <= usize::MAX,
        hashes2@.len() < usize::MAX,
    ensures
        aligns(res@, hashes1@, hashes2@, offset1 as int, offset2 as int),
        alternates(res@),
        hashes1@.len() == 0 && hashes2@.len() == 0 ==> res@.len() == 0,
        hashes1@.len() == 0 && hashes2@.len() > 0 ==> res@ == seq![
            LineRange::Diff {
                r1: Range { start: offset1, end: offset1 },
                r2: Range { start: offset2, end: (offset2 + hashes2@.len()) as usize },
            },
        ],
        hashes1@.len() > 0 && hashes2@.len() == 0 ==> res@ == seq![
            LineRange::Diff {
                r1: Range { start: offset1, end: (offset1 + hashes1@.len()) as usize },
                r2: Range { start: offset2, end: offset2 },
            },
        ],
        hashes1@.len() > 0 && hashes2@.len() > 0 && (forall|i: int|
            0 <= i < hashes1@.len() ==> !#[trigger] unique_in_both(hashes1@, hashes2@, i))
            ==> same_lines(res@) == lcs_len(hashes1@, hashes2@),
        res@ == middle_runs(hashes1@, hashes2@, offset1 as int, offset2 as int),
        diffs_disjoint(res@, hashes1@, hashes2@, offset1 as int, offset2 as int),
        keeps_unique_matches(res@, hashes1@, hashes2@),
    decreases hashes1@.len() + hashes2@.len(), 0nat,
{
    let ghost h1 = hashes1@;
    let ghost h2 = hashes2@;
    let ghost o1 = offset1 as int;
    let ghost o2 = offset2 as int;
    let len1 = hashes1.len();
    let len2 = hashes2.len();
    if len1 == 0 || len2 == 0 {
        proof {
            lemma_runs_edge(h1, h2, o1, o2);
            reveal(keeps_unique_matches);
            assert forall|p: Seq<(usize, usize)>| #[trigger] matching_pairs(p, h1, h2, 0, 0) implies p.len() == 0 by {
                if p.len() > 0 {
                    assert(p[0].0 < len1 && p[0].1 < len2);
                }
            }
        }
    }
    if len1 == 0 && len2 == 0 {
        return Vec::new();
    }
    if len1 == 0 {
        let mut runs: Vec<LineRange> = Vec::new();
        runs.push(LineRange::Diff { r1: Range::new(offset1, offset1), r2: Range::new(offset2, offset2 + len2) });
        proof {
            lemma_one_sided_diff(runs@[0], h1, h2, o1, o2);
        }
        return runs;
    }
    if len2 == 0 {
        let mut runs: Vec<LineRange> = Vec::new();
        runs.push(LineRange::Diff { r1: Range::new(offset1, offset1 + len1), r2: Range::new(offset2, offset2) });
        proof {
            lemma_one_sided_diff(runs@[0], h1, h2, o1, o2);
        }
        return runs;
    }
    let unique1 = find_unique_lines(hashes1);
    let unique2 = find_unique_lines(hashes2);
    // Lines unique in both sequences, in the order of the first.
    let mut matches: Vec<(usize, usize)> = Vec::new();
    let mut idx1: usize = 0;
    while idx1 < len1
        invariant
            h1 == hashes1@,
            h2 == hashes2@,
            len1 == h1.len(),
            len2 == h2.len(),
            idx1 <= len1,
            forall|h: u64| #[trigger] unique2@.contains_key(h) ==> unique2@[h] < h2.len() && h2[unique2@[h] as int] == h,
            forall|h: u64| #[trigger] unique2@.contains_key(h) <==> occurrences(h2, h) == 1,
            forall|h: u64| #[trigger] unique1@.contains_key(h) ==> unique1@[h] < h1.len() && h1[unique1@[h] as int] == h,
            forall|h: u64| #[trigger] unique1@.contains_key(h) <==> occurrences(h1, h) == 1,
            matches@.len() == 0 ==> forall|i: int| 0 <= i < idx1 ==> !#[trigger] unique_in_both(h1, h2, i),
            forall|k: int| 0 <= k < matches@.len() ==> unique_in_both(h1, h2, (#[trigger] matches@[k]).0 as int),
            anchor_candidates(matches@, h1, h2),
            forall|k: int| 0 <= k < matches@.len() ==> (#[trigger] matches@[k]).0 < idx1,
            matches@ == unique_anchors(h1, h2, idx1 as int),
        decreases len1 - idx1,
    {
        let h = hashes1[idx1];
        proof {
            if unique_in_both(h1, h2, idx1 as int) {
                assert(unique1@.contains_key(h));
                lemma_occurrences_once(h1, h, idx1 as int, unique1@[h] as int);
                assert(unique2@.contains_key(h));
                let j = position_of(h2, h);
                assert(0 <= unique2@[h] < h2.len() && h2[unique2@[h] as int] == h);
                lemma_occurrences_once(h2, h, j, unique2@[h] as int);
            }
            if unique1@.contains_key(h) && unique2@.contains_key(h) {
                assert(unique_in_both(h1, h2, idx1 as int));
            }
        }
        match unique1.get(&h) {
            Some(first) => {
                if *first == idx1 {
                    match unique2.get(&h) {
                        Some(idx2) => {
                            matches.push((idx1, *idx2));
                        },
                        None => {},
                    }
                }
            },
            None => {},
        }
        idx1 += 1;
    }
    assert(matches@.len() > 0 ==> unique_in_both(h1, h2, matches@[0].0 as int));
    if matches.len() == 0 {
        // No unique anchors: fall back to the LCS diff.
        proof {
            lemma_middle_runs_lcs(h1, h2, o1, o2);
            reveal(keeps_unique_matches);
            assert forall|p: Seq<(usize, usize)>|
                #[trigger] matching_pairs(p, h1, h2, 0, 0) && (forall|k: int|
                    0 <= k < p.len() ==> unique_in_both(h1, h2, (#[trigger] p[k]).0 as int)) implies p.len() == 0 by {
                if p.len() > 0 {
                    assert(p[0].0 < len1);
                    assert(unique_in_both(h1, h2, p[0].0 as int));
                }
            }
        }
        return lcs_diff(hashes1, hashes2, offset1, offset2);
    }
    let lis = longest_increasing_subsequence(matches.as_slice());
    if lis.len() == 0 {
        proof {
            lemma_middle_runs_lcs(h1, h2, o1, o2);
            reveal(keeps_unique_matches);
        }
        return lcs_diff(hashes1, hashes2, offset1, offset2);
    }
    proof {
        lemma_middle_runs_anchored(h1, h2, o1, o2, lis@);
        lemma_anchor_gap_runs_step(lis@, 0, h1, h2, o1, o2);
        assert forall|p: Seq<(usize, usize)>|
            #[trigger] matching_pairs(p, h1, h2, 0, 0) && (forall|k: int|
                0 <= k < p.len() ==> unique_in_both(h1, h2, (#[trigger] p[k]).0 as int)) implies p.len() <= lis@.len() by {
            lemma_anchor_run(h1, h2, p);
            let idx = choose|idx: Seq<int>| increasing_run(unique_anchors(h1, h2, h1.len() as int), idx) && idx.len() == p.len();
            assert(increasing_run(matches@, idx));
        }
    }
    proof {
        let idx = choose|idx: Seq<int>| increasing_run(matches@, idx) && picks(lis@, matches@, idx);
        assert forall|k: int, l: int| 0 <= k < l < lis@.len() implies (#[trigger] lis@[k]).0 < (#[trigger] lis@[l]).0
            && lis@[k].1 < lis@[l].1 by {
            assert(idx[k] < idx[l]);
            assert(lis@[k] == matches@[idx[k]] && lis@[l] == matches@[idx[l]]);
        }
        assert forall|k: int| 0 <= k < lis@.len() implies {
            &&& 0 <= (#[trigger] lis@[k]).0 < h1.len()
            &&& 0 <= lis@[k].1 < h2.len()
            &&& h1[lis@[k].0 - 0] == h2[lis@[k].1 - 0]
        } by {
            assert(0 <= idx[k] < matches@.len());
            assert(lis@[k] == matches@[idx[k]]);
        }
        assert(matching_pairs(lis@, h1, h2, 0, 0));
    }
    // Use the anchors to divide and conquer.
    let mut runs: Vec<LineRange> = Vec::new();
    let mut pos1: usize = 0;
    let mut pos2: usize = 0;
    let nl = lis.len();
    let mut k: usize = 0;
    while k < nl
        invariant
            h1 == hashes1@,
            h2 == hashes2@,
            o1 == offset1,
            o2 == offset2,
            len1 == h1.len(),
            len2 == h2.len(),
            offset1 + len1 <= usize::MAX,
            offset2 + len2 <= usize::MAX,
            len2 < usize::MAX,
            nl == lis@.len(),
            k <= nl,
            pos1 <= len1,
            pos2 <= len2,
            k > 0 ==> pos1 >= 1,
            matching_pairs(lis@, h1, h2, 0, 0),
            k < nl ==> lis@[k as int].0 >= pos1 && lis@[k as int].1 >= pos2,
            tiles(runs@, o1, o1 + pos1, o2, o2 + pos2),
            all_fit(runs@, h1, h2, o1, o2),
            runs@ == anchor_gap_runs(lis@.take(k as int), h1, h2, o1, o2),
            (pos1 as int, pos2 as int) == after_pairs(lis@.take(k as int)),
            diffs_disjoint(runs@, h1, h2, o1, o2),
            no_adjacent_diffs(runs@),
            runs@.len() > 0 ==> runs@.last() is Same,
            same_lines(runs@) >= k,
        decreases nl - k,
    {
        let (idx1, idx2) = lis[k];
        assert(lis@[k as int] == (idx1, idx2));
        let ghost before = runs@;
        proof {
            lemma_anchor_gap_runs_step(lis@, k as int, h1, h2, o1, o2);
            lemma_gap_diff(pos1 as int, pos2 as int, idx1 as int, idx2 as int, h1, h2, o1, o2);
        }
        if pos1 < idx1 || pos2 < idx2 {
            let g1 = vstd::slice::slice_subrange(hashes1, pos1, idx1);
            let g2 = vstd::slice::slice_subrange(hashes2, pos2, idx2);
            let mut gap = patience_diff_recursive(g1, g2, offset1 + pos1, offset2 + pos2);
            proof {
                lemma_aligns_lift(gap@, h1, h2, o1, o2, pos1 as int, idx1 as int, pos2 as int, idx2 as int);
                lemma_tiles_concat(runs@, gap@, o1, o1 + pos1, o1 + idx1, o2, o2 + pos2, o2 + idx2);
                lemma_fit_concat(runs@, gap@, h1, h2, o1, o2);
                lemma_diffs_lift(gap@, h1, h2, o1, o2, pos1 as int, idx1 as int, pos2 as int, idx2 as int);
                lemma_alternates_no_adjacent(gap@);
                lemma_diffs_concat(runs@, gap@, h1, h2, o1, o2);
                lemma_same_lines_concat(runs@, gap@);
            }
            runs.append(&mut gap);
        }
        let anchor = LineRange::Same {
            r1: Range::new(offset1 + idx1, offset1 + idx1 + 1),
            r2: Range::new(offset2 + idx2, offset2 + idx2 + 1),
        };
        proof {
            lemma_fits_single(h1, h2, o1, o2, idx1 as int, idx2 as int);
            lemma_tiles_push(runs@, anchor, o1, o1 + idx1, o2, o2 + idx2);
            lemma_fit_push(runs@, anchor, h1, h2, o1, o2);
            lemma_diffs_concat(runs@, seq![anchor], h1, h2, o1, o2);
            assert(runs@.push(anchor) =~= runs@ + seq![anchor]);
            assert(runs@.push(anchor).drop_last() =~= runs@);
        }
        runs.push(anchor);
        assert(runs@ =~= before + gap_diff(pos1 as int, pos2 as int, idx1 as int, idx2 as int, h1, h2, o1, o2).push(
            anchor_run(idx1 as int, idx2 as int, o1, o2),
        ));
        pos1 = idx1 + 1;
        pos2 = idx2 + 1;
        k += 1;
        assert(k < nl ==> lis@[k as int].0 > lis@[k - 1].0 && lis@[k as int].1 > lis@[k - 1].1);
    }
    assert(lis@.take(nl as int) =~= lis@);
    let ghost before = runs@;
    proof {
        lemma_gap_diff(pos1 as int, pos2 as int, len1 as int, len2 as int, h1, h2, o1, o2);
    }
    // The gap after the last anchor.
    if pos1 < len1 || pos2 < len2 {
        let g1 = vstd::slice::slice_subrange(hashes1, pos1, len1);
        let g2 = vstd::slice::slice_subrange(hashes2, pos2, len2);
        let mut gap = patience_diff_recursive(g1, g2, offset1 + pos1, offset2 + pos2);
        proof {
            lemma_aligns_lift(gap@, h1, h2, o1, o2, pos1 as int, len1 as int, pos2 as int, len2 as int);
            lemma_tiles_concat(runs@, gap@, o1, o1 + pos1, o1 + len1, o2, o2 + pos2, o2 + len2);
            lemma_fit_concat(runs@, gap@, h1, h2, o1, o2);
            lemma_diffs_lift(gap@, h1, h2, o1, o2, pos1 as int, len1 as int, pos2 as int, len2 as int);
            lemma_alternates_no_adjacent(gap@);
            lemma_diffs_concat(runs@, gap@, h1, h2, o1, o2);
            lemma_same_lines_concat(runs@, gap@);
        }
        runs.append(&mut gap);
    }
    proof {
        lemma_merge_diffs(runs@, h1, h2, o1, o2);
    }
    assert(runs@ =~= before + gap_diff(pos1 as int, pos2 as int, len1 as int, len2 as int, h1, h2, o1, o2));
    let res = merge_aligned(runs, Ghost(h1), Ghost(h2), Ghost(o1), Ghost(o2));
    proof {
        reveal(keeps_unique_matches);
    }
    res
}

/// A `Same` run at the edge of the middle part would extend the common head
/// or tail, so the middle part starts and ends with other runs.
proof fn lemma_middle_edges(h1: Seq<u64>, h2: Seq<u64>, o1: int, o2: int, middle: Seq<LineRange>, head: int, tail: int)
    requires
        0 <= head,
        0 <= tail,
        head + tail <= h1.len(),
        head + tail <= h2.len(),
        head == h1.len() || head == h2.len() || h1[head] != h2[head],
        tail == h1.len() - head || tail == h2.len() - head || h1[h1.len() - 1 - tail] != h2[h2.len() - 1 - tail],
        tiles(middle, o1 + head, o1 + h1.len() - tail, o2 + head, o2 + h2.len() - tail),
        all_fit(middle, h1, h2, o1, o2),
    ensures
        middle.len() > 0 ==> !(middle[0] is Same),
        middle.len() > 0 ==> !(middle.last() is Same),
{
    let e1 = o1 + h1.len() - tail;
    let e2 = o2 + h2.len() - tail;
    if middle.len() > 0 {
        lemma_tiles_bounds(middle, o1 + head, e1, o2 + head, e2, 0);
        lemma_tiles_bounds(middle, o1 + head, e1, o2 + head, e2, middle.len() - 1);
        if middle[0] is Same {
            let r1 = middle[0].left();
            let r2 = middle[0].right();
            assert(run_fits(middle[0], h1, h2, o1, o2));
            assert(h1.subrange(r1.start - o1, r1.end - o1)[0] == h1[head]);
            assert(h2.subrange(r2.start - o2, r2.end - o2)[0] == h2[head]);
        }
        if middle.last() is Same {
            let r1 = middle.last().left();
            let r2 = middle.last().right();
            let l = r1.end - r1.start;
            assert(run_fits(middle.last(), h1, h2, o1, o2));
            assert(h1.subrange(r1.start - o1, r1.end - o1)[l - 1] == h1[h1.len() - 1 - tail]);
            assert(h2.subrange(r2.start - o2, r2.end - o2)[l - 1] == h2[h2.len() - 1 - tail]);
        }
    }
}

/// When the common head and tail cover both sequences, they cannot both be
/// non-empty.
proof fn lemma_no_middle(h1: Seq<u64>, h2: Seq<u64>, head: int, tail: int)
    requires
        0 <= head,
        0 <= tail,
        head + tail == h1.len(),
        head + tail == h2.len(),
        head == h1.len() || head == h2.len() || h1[head] != h2[head],
        h1.subrange(h1.len() - tail, h1.len() as int) == h2.subrange(h2.len() - tail, h2.len() as int),
    ensures
        !(head > 0 && tail > 0),
{
    if head > 0 && tail > 0 {
        assert(h1.subrange(h1.len() - tail, h1.len() as int)[0] == h1[head]);
        assert(h2.subrange(h2.len() - tail, h2.len() as int)[0] == h2[head]);
    }
}

/// An alternating sequence framed by at most one `Same` run on each side,
/// where a frame run never touches a `Same` run, still alternates.
proof fn lemma_alternates_framed(before: Seq<LineRange>, middle: Seq<LineRange>, after: Seq<LineRange>)
    requires
        before.len() <= 1,
        after.len() <= 1,
        forall|i: int| 0 <= i < before.len() ==> #[trigger] before[i] is Same,
        forall|i: int| 0 <= i < after.len() ==> #[trigger] after[i] is Same,
        alternates(middle),
        before.len() > 0 && middle.len() > 0 ==> !(middle[0] is Same),
        after.len() > 0 && middle.len() > 0 ==> !(middle.last() is Same),
        middle.len() == 0 ==> !(before.len() > 0 && after.len() > 0),
    ensures
        alternates(before + middle + after),
{
    let r = before + middle + after;
    let b = before.len() as int;
    let m = middle.len() as int;
    assert forall|i: int, j: int| 0 <= i && j == i + 1 && j < r.len() implies ((#[trigger] r[i]) is Same) != ((#[trigger] r[j]) is Same) by {
        if i < b {
            assert(r[i] == before[i]);
            if m > 0 {
                assert(r[j] == middle[0]);
            } else {
                assert(r[j] == after[0]);
            }
        } else if j < b + m {
            assert(r[i] == middle[i - b] && r[j] == middle[j - b]);
        } else {
            assert(r[j] == after[j - b - m]);
            if i >= b {
                assert(r[i] == middle[m - 1]);
            }
        }
    }
}

/// The patience runs are the head run, the middle runs and the tail run.
proof fn lemma_patience_runs_parts(
    h1: Seq<u64>,
    h2: Seq<u64>,
    o1: int,
    o2: int,
    before: Seq<LineRange>,
    middle: Seq<LineRange>,
    after: Seq<LineRange>,
)
    requires
        h1.len() > 0,
        h2.len() > 0,
        ({
            let p = common_prefix(h1, h2) as int;
            let q = common_suffix(h1.skip(p), h2.skip(p)) as int;
            let e1 = h1.len() - q;
            let e2 = h2.len() - q;
            &&& before == (if p > 0 {
                seq![
                    LineRange::Same {
                        r1: Range { start: o1 as usize, end: (o1 + p) as usize },
                        r2: Range { start: o2 as usize, end: (o2 + p) as usize },
                    },
                ]
            } else {
                Seq::empty()
            })
            &&& after == (if q > 0 {
                seq![
                    LineRange::Same {
                        r1: Range { start: (o1 + e1) as usize, end: (o1 + h1.len()) as usize },
                        r2: Range { start: (o2 + e2) as usize, end: (o2 + h2.len()) as usize },
                    },
                ]
            } else {
                Seq::empty()
            })
            &&& middle == (if p < e1 || p < e2 {
                middle_runs(h1.subrange(p, e1), h2.subrange(p, e2), o1 + p, o2 + p)
            } else {
                Seq::empty()
            })
        }),
    ensures
        patience_runs(h1, h2, o1, o2) == before + middle + after,
{
    reveal(patience_runs);
    reveal(middle_runs);
    reveal(anchor_gap_runs);
    reveal(gap_diff);
}

/// Framing runs with `Same` runs keeps their `Diff` runs apart from shared
/// lines.
proof fn lemma_framed_diffs(
    before: Seq<LineRange>,
    middle: Seq<LineRange>,
    after: Seq<LineRange>,
    h1: Seq<u64>,
    h2: Seq<u64>,
    o1: int,
    o2: int,
)
    requires
        before.len() <= 1,
        after.len() <= 1,
        forall|i: int| 0 <= i < before.len() ==> #[trigger] before[i] is Same,
        forall|i: int| 0 <= i < after.len() ==> #[trigger] after[i] is Same,
        diffs_disjoint(middle, h1, h2, o1, o2),
    ensures
        diffs_disjoint(before + middle + after, h1, h2, o1, o2),
{
    let r = before + middle + after;
    assert forall|k: int| 0 <= k < r.len() && r[k] is Diff implies sides_disjoint(#[trigger] r[k], h1, h2, o1, o2) by {
        if k < before.len() {
            assert(r[k] == before[k]);
        } else if k < before.len() + middle.len() {
            assert(r[k] == middle[k - before.len()]);
        } else {
            assert(r[k] == after[k - before.len() - middle.len()]);
        }
    }
}

/// Occurrences in two joined sequences add up.
proof fn lemma_occurrences_concat(x: Seq<u64>, y: Seq<u64>, h: u64)
    ensures
        occurrences(x + y, h) == occurrences(x, h) + occurrences(y, h),
    decreases y.len(),
{
    if y.len() == 0 {
        assert(x + y =~= x);
    } else {
        lemma_occurrences_concat(x, y.drop_last(), h);
        assert((x + y).drop_last() =~= x + y.drop_last());
        assert((x + y).last() == y.last());
    }
}

/// A part of a sequence holds a hash no more often than the whole.
proof fn lemma_occurrences_sub(s: Seq<u64>, a: int, b: int, h: u64)
    requires
        0 <= a <= b <= s.len(),
    ensures
        occurrences(s.subrange(a, b), h) <= occurrences(s, h),
{
    assert(s =~= s.take(a) + s.subrange(a, b) + s.skip(b));
    lemma_occurrences_concat(s.take(a) + s.subrange(a, b), s.skip(b), h);
    lemma_occurrences_concat(s.take(a), s.subrange(a, b), h);
}

/// A stretch of a matching is a matching.
proof fn lemma_pairs_sub(w: Seq<(usize, usize)>, h1: Seq<u64>, h2: Seq<u64>, a: int, b: int)
    requires
        matching_pairs(w, h1, h2, 0, 0),
        0 <= a <= b <= w.len(),
    ensures
        matching_pairs(w.subrange(a, b), h1, h2, 0, 0),
{
    let d = w.subrange(a, b);
    assert forall|x: int| 0 <= x < d.len() implies {
        &&& 0 <= (#[trigger] d[x]).0 < 0 + h1.len()
        &&& 0 <= d[x].1 < 0 + h2.len()
        &&& h1[d[x].0 - 0] == h2[d[x].1 - 0]
    } by {
        assert(d[x] == w[x + a]);
    }
    assert forall|x: int, y: int| 0 <= x < y < d.len() implies (#[trigger] d[x]).0 < (#[trigger] d[y]).0 && d[x].1 < d[y].1 by {
        assert(d[x] == w[x + a] && d[y] == w[y + a]);
    }
}

/// The first pair of a matching leaves room for all the pairs.
proof fn lemma_pairs_room_first(w: Seq<(usize, usize)>, h1: Seq<u64>, h2: Seq<u64>)
    requires
        matching_pairs(w, h1, h2, 0, 0),
        w.len() > 0,
    ensures
        w[0].0 + w.len() <= h1.len(),
    decreases w.len(),
{
    if w.len() > 1 {
        lemma_pairs_sub(w, h1, h2, 1, w.len() as int);
        lemma_pairs_room_first(w.subrange(1, w.len() as int), h1, h2);
        assert(w.subrange(1, w.len() as int)[0] == w[1]);
    }
}

/// In a matching, the `k`-th pair stands at least `k` lines in and leaves
/// room for the pairs after it.
proof fn lemma_pairs_room(w: Seq<(usize, usize)>, h1: Seq<u64>, h2: Seq<u64>, k: int)
    requires
        matching_pairs(w, h1, h2, 0, 0),
        0 <= k < w.len(),
    ensures
        w[k].0 >= k,
        w[k].0 + (w.len() - k) <= h1.len(),
{
    lemma_pairs_sub(w, h1, h2, 0, k + 1);
    lemma_pairs_room_last(w.subrange(0, k + 1), h1, h2);
    assert(w.subrange(0, k + 1)[k] == w[k]);
    lemma_pairs_sub(w, h1, h2, k, w.len() as int);
    lemma_pairs_room_first(w.subrange(k, w.len() as int), h1, h2);
    assert(w.subrange(k, w.len() as int)[0] == w[k]);
}

/// The last pair of a matching stands at least as far in as there are pairs
/// before it.
proof fn lemma_pairs_room_last(w: Seq<(usize, usize)>, h1: Seq<u64>, h2: Seq<u64>)
    requires
        matching_pairs(w, h1, h2, 0, 0),
        w.len() > 0,
    ensures
        w[w.len() - 1].0 >= w.len() - 1,
    decreases w.len(),
{
    if w.len() > 1 {
        let d = w.drop_last();
        assert forall|x: int| 0 <= x < d.len() implies {
            &&& 0 <= (#[trigger] d[x]).0 < 0 + h1.len()
            &&& 0 <= d[x].1 < 0 + h2.len()
            &&& h1[d[x].0 - 0] == h2[d[x].1 - 0]
        } by {
            assert(d[x] == w[x]);
        }
        assert forall|x: int, y: int| 0 <= x < y < d.len() implies (#[trigger] d[x]).0 < (#[trigger] d[y]).0 && d[x].1
            < d[y].1 by {
            assert(d[x] == w[x] && d[y] == w[y]);
        }
        lemma_pairs_room_last(d, h1, h2);
        assert(d[d.len() - 1] == w[w.len() - 2]);
        assert(w[w.len() - 2].0 < w[w.len() - 1].0);
    }
}

/// Matched lines unique in both sequences fall into the common head, the
/// middle or the common tail, and those in the middle are matched lines
/// unique in both middle parts: so there are no more of them than the head,
/// the tail and a bound on the middle allow.
proof fn lemma_unique_pairs_split(h1: Seq<u64>, h2: Seq<u64>, w: Seq<(usize, usize)>, head: int, tail: int, mid_same: int)
    requires
        matching_pairs(w, h1, h2, 0, 0),
        forall|k: int| 0 <= k < w.len() ==> unique_in_both(h1, h2, (#[trigger] w[k]).0 as int),
        0 <= head,
        0 <= tail,
        head + tail <= h1.len(),
        head + tail <= h2.len(),
        h1.len() <= usize::MAX,
        h2.len() <= usize::MAX,
        h1.take(head) == h2.take(head),
        h1.subrange(h1.len() - tail, h1.len() as int) == h2.subrange(h2.len() - tail, h2.len() as int),
        forall|p: Seq<(usize, usize)>|
            #[trigger] matching_pairs(p, h1.subrange(head, h1.len() - tail), h2.subrange(head, h2.len() - tail), 0, 0)
                && (forall|k: int|
                0 <= k < p.len() ==> unique_in_both(
                    h1.subrange(head, h1.len() - tail),
                    h2.subrange(head, h2.len() - tail),
                    (#[trigger] p[k]).0 as int,
                )) ==> p.len() <= mid_same,
    ensures
        w.len() <= head + mid_same + tail,
{
    let n1 = h1.len() as int;
    let n2 = h2.len() as int;
    let e1 = n1 - tail;
    let e2 = n2 - tail;
    let m1 = h1.subrange(head, e1);
    let m2 = h2.subrange(head, e2);
    let t1 = crate::lcs::lemma_split_point(w, head);
    let t2 = crate::lcs::lemma_split_point(w, e1);
    if t1 > head {
        lemma_pairs_room(w, h1, h2, head);
    }
    if t2 < w.len() {
        lemma_pairs_room(w, h1, h2, t2);
    }
    if t2 < t1 {
        assert(w[t2 as int].0 < head);
    }
    assert forall|x: int| t1 <= x < t2 implies head <= (#[trigger] w[x]).1 < e2 by {
        let i = w[x].0 as int;
        let j = w[x].1 as int;
        let h = h1[i];
        assert(unique_in_both(h1, h2, i));
        if j < head {
            assert(h1.take(head)[j] == h2.take(head)[j]);
            assert(h1.take(head)[j] == h1[j]);
            assert(h2.take(head)[j] == h2[j]);
            assert(h1[i - 0] == h2[j - 0]);
            lemma_occurrences_once(h1, h, i, j);
        }
        if j >= e2 {
            assert(h1.subrange(e1, n1)[j - e2] == h2.subrange(e2, n2)[j - e2]);
            assert(h1.subrange(e1, n1)[j - e2] == h1[j - e2 + e1]);
            assert(h2.subrange(e2, n2)[j - e2] == h2[j]);
            assert(h1[i - 0] == h2[j - 0]);
            lemma_occurrences_once(h1, h, i, j - e2 + e1);
        }
    }
    let mid = Seq::new((t2 - t1) as nat, |x: int| ((w[x + t1].0 - head) as usize, (w[x + t1].1 - head) as usize));
    assert forall|x: int| 0 <= x < mid.len() implies {
        &&& 0 <= (#[trigger] mid[x]).0 < 0 + m1.len()
        &&& 0 <= mid[x].1 < 0 + m2.len()
        &&& m1[mid[x].0 - 0] == m2[mid[x].1 - 0]
    } by {
        assert(head <= w[x + t1].1 < e2);
    }
    assert forall|x: int, y: int| 0 <= x < y < mid.len() implies (#[trigger] mid[x]).0 < (#[trigger] mid[y]).0 && mid[x].1
        < mid[y].1 by {
        assert(head <= w[x + t1].1 < e2);
        assert(head <= w[y + t1].1 < e2);
    }
    assert forall|x: int| 0 <= x < mid.len() implies unique_in_both(m1, m2, (#[trigger] mid[x]).0 as int) by {
        let i = w[x + t1].0 as int;
        let j = w[x + t1].1 as int;
        assert(head <= j < e2);
        let h = h1[i];
        assert(unique_in_both(h1, h2, i));
        assert(m1[i - head] == h);
        assert(m2[j - head] == h);
        lemma_occurrences_sub(h1, head, e1, h);
        lemma_occurrences_sub(h2, head, e2, h);
        lemma_occurrences_positive(m1, h, i - head);
        lemma_occurrences_positive(m2, h, j - head);
    }
    assert(matching_pairs(mid, m1, m2, 0, 0));
}

/// The bound on matched lines unique in both sequences, for a head run, the
/// middle runs and a tail run.
proof fn lemma_framed_unique_bound(
    h1: Seq<u64>,
    h2: Seq<u64>,
    o1: int,
    o2: int,
    before: Seq<LineRange>,
    middle: Seq<LineRange>,
    after: Seq<LineRange>,
    head: int,
    tail: int,
)
    requires
        0 <= head,
        0 <= tail,
        head + tail <= h1.len(),
        head + tail <= h2.len(),
        h1.len() <= usize::MAX,
        h2.len() <= usize::MAX,
        o1 + h1.len() <= usize::MAX,
        o2 + h2.len() <= usize::MAX,
        0 <= o1,
        0 <= o2,
        h1.take(head) == h2.take(head),
        h1.subrange(h1.len() - tail, h1.len() as int) == h2.subrange(h2.len() - tail, h2.len() as int),
        before == (if head > 0 {
            seq![
                LineRange::Same {
                    r1: Range { start: o1 as usize, end: (o1 + head) as usize },
                    r2: Range { start: o2 as usize, end: (o2 + head) as usize },
                },
            ]
        } else {
            Seq::<LineRange>::empty()
        }),
        after == (if tail > 0 {
            seq![
                LineRange::Same {
                    r1: Range { start: (o1 + h1.len() - tail) as usize, end: (o1 + h1.len()) as usize },
                    r2: Range { start: (o2 + h2.len() - tail) as usize, end: (o2 + h2.len()) as usize },
                },
            ]
        } else {
            Seq::<LineRange>::empty()
        }),
        keeps_unique_matches(middle, h1.subrange(head, h1.len() - tail), h2.subrange(head, h2.len() - tail)),
    ensures
        keeps_unique_matches(before + middle + after, h1, h2),
{
    reveal(keeps_unique_matches);
    lemma_same_lines_concat(before, middle);
    lemma_same_lines_concat(before + middle, after);
    if head > 0 {
        assert(before.drop_last() =~= Seq::<LineRange>::empty());
        assert(same_lines(before.drop_last()) == 0);
        assert(before.last() == before[0]);
        assert(before[0].matched() == head);
    } else {
        assert(same_lines(before) == 0);
    }
    if tail > 0 {
        assert(after.drop_last() =~= Seq::<LineRange>::empty());
        assert(same_lines(after.drop_last()) == 0);
        assert(after.last() == after[0]);
        assert(after[0].matched() == tail);
    } else {
        assert(same_lines(after) == 0);
    }
    assert(same_lines(before) == head);
    assert(same_lines(after) == tail);
    assert forall|p: Seq<(usize, usize)>|
        #[trigger] matching_pairs(p, h1, h2, 0, 0) && (forall|k: int|
            0 <= k < p.len() ==> unique_in_both(h1, h2, (#[trigger] p[k]).0 as int)) implies p.len() <= same_lines(
            before + middle + after,
        ) by {
        lemma_unique_pairs_split(h1, h2, p, head, tail, same_lines(middle) as int);
    }
}

/// Patience diff of `hashes1` and `hashes2`, whose first lines are
/// `offset1` and `offset2`: the common head and tail become `Same` runs and
/// the part between them goes to `diff_middle`.
#[verifier::spinoff_prover]
#[verifier::rlimit(100)]
pub fn patience_diff_recursive(hashes1: &[u64], hashes2: &[u64], offset1: usize, offset2: usize) -> (res: Vec<LineRange>)
    requires
        offset1 + hashes1@.len() <= usize::MAX,
        offset2 + hashes2@.len() <= usize::MAX,
        hashes2@.len() < usize::MAX,
    ensures
        aligns(res@, hashes1@, hashes2@, offset1 as int, offset2 as int),
        alternates(res@),
        hashes1@.len() == 0 && hashes2@.len() == 0 ==> res@.len() == 0,
        hashes1@.len() == 0 && hashes2@.len() > 0 ==> res@ == seq![
            LineRange::Diff {
                r1: Range { start: offset1, end: offset1 },
                r2: Range { start: offset2, end: (offset2 + hashes2@.len()) as usize },
            },
        ],
        hashes1@.len() > 0 && hashes2@.len() == 0 ==> res@ == seq![
            LineRange::Diff {
                r1: Range { start: offset1, end: (offset1 + hashes1@.len()) as usize },
                r2: Range { start: offset2, end: offset2 },
            },
        ],
        ({
            let p = common_prefix(hashes1@, hashes2@);
            p > 0 ==> res@[0] == (LineRange::Same {
                r1: Range { start: offset1, end: (offset1 + p) as usize },
                r2: Range { start: offset2, end: (offset2 + p) as usize },
            })
        }),
        ({
            let p = common_prefix(hashes1@, hashes2@) as int;
            let q = common_suffix(hashes1@.skip(p), hashes2@.skip(p));
            q > 0 ==> res@.last() == (LineRange::Same {
                r1: Range { start: (offset1 + hashes1@.len() - q) as usize, end: (offset1 + hashes1@.len()) as usize },
                r2: Range { start: (offset2 + hashes2@.len() - q) as usize, end: (offset2 + hashes2@.len()) as usize },
            })
        }),
        res@ == patience_runs(hashes1@, hashes2@, offset1 as int, offset2 as int),
        diffs_disjoint(res@, hashes1@, hashes2@, offset1 as int, offset2 as int),
        keeps_unique_matches(res@, hashes1@, hashes2@),
    decreases hashes1@.len() + hashes2@.len(), 1nat,
{
    let ghost h1 = hashes1@;
    let ghost h2 = hashes2@;
    let ghost o1 = offset1 as int;
    let ghost o2 = offset2 as int;
    let len1 = hashes1.len();
    let len2 = hashes2.len();
    if len1 == 0 || len2 == 0 {
        proof {
            lemma_runs_edge(h1, h2, o1, o2);
            reveal(keeps_unique_matches);
            assert forall|p: Seq<(usize, usize)>| #[trigger] matching_pairs(p, h1, h2, 0, 0) implies p.len() == 0 by {
                if p.len() > 0 {
                    assert(p[0].0 < len1 && p[0].1 < len2);
                }
            }
        }
    }
    if len1 == 0 && len2 == 0 {
        return Vec::new();
    }
    if len1 == 0 {
        let mut runs: Vec<LineRange> = Vec::new();
        runs.push(LineRange::Diff { r1: Range::new(offset1, offset1), r2: Range::new(offset2, offset2 + len2) });
        proof {
            lemma_one_sided_diff(runs@[0], h1, h2, o1, o2);
        }
        return runs;
    }
    if len2 == 0 {
        let mut runs: Vec<LineRange> = Vec::new();
        runs.push(LineRange::Diff { r1: Range::new(offset1, offset1 + len1), r2: Range::new(offset2, offset2) });
        proof {
            lemma_one_sided_diff(runs@[0], h1, h2, o1, o2);
        }
        return runs;
    }
    // Phase 1: the common head.
    let mut head_match: usize = 0;
    while head_match < len1 && head_match < len2 && hashes1[head_match] == hashes2[head_match]
        invariant
            h1 == hashes1@,
            h2 == hashes2@,
            len1 == h1.len(),
            len2 == h2.len(),
            head_match <= len1,
            head_match <= len2,
            h1.take(head_match as int) == h2.take(head_match as int),
        decreases len1 - head_match,
    {
        assert(h1.take(head_match + 1) =~= h1.take(head_match as int).push(h1[head_match as int]));
        assert(h2.take(head_match + 1) =~= h2.take(head_match as int).push(h2[head_match as int]));
        head_match += 1;
    }
    proof {
        lemma_common_prefix(h1, h2, head_match as int);
    }
    // Phase 2: the common tail of what follows the head.
    let mut tail_match: usize = 0;
    while tail_match < (len1 - head_match) && tail_match < (len2 - head_match)
        && hashes1[len1 - 1 - tail_match] == hashes2[len2 - 1 - tail_match]
        invariant
            h1 == hashes1@,
            h2 == hashes2@,
            len1 == h1.len(),
            len2 == h2.len(),
            head_match <= len1,
            head_match <= len2,
            tail_match <= len1 - head_match,
            tail_match <= len2 - head_match,
            h1.subrange(len1 - tail_match, len1 as int) == h2.subrange(len2 - tail_match, len2 as int),
        decreases len1 - tail_match,
    {
        assert(h1.subrange(len1 - tail_match - 1, len1 as int) =~= seq![h1[len1 - 1 - tail_match]] + h1.subrange(
            len1 - tail_match,
            len1 as int,
        ));
        assert(h2.subrange(len2 - tail_match - 1, len2 as int) =~= seq![h2[len2 - 1 - tail_match]] + h2.subrange(
            len2 - tail_match,
            len2 as int,
        ));
        tail_match += 1;
    }
    proof {
        let s1 = h1.skip(head_match as int);
        let s2 = h2.skip(head_match as int);
        assert(s1.subrange(s1.len() - tail_match, s1.len() as int) =~= h1.subrange(len1 - tail_match, len1 as int));
        assert(s2.subrange(s2.len() - tail_match, s2.len() as int) =~= h2.subrange(len2 - tail_match, len2 as int));
        if tail_match < len1 - head_match && tail_match < len2 - head_match {
            assert(s1[s1.len() - 1 - tail_match] == h1[len1 - 1 - tail_match]);
            assert(s2[s2.len() - 1 - tail_match] == h2[len2 - 1 - tail_match]);
        }
        lemma_common_suffix(s1, s2, tail_match as int);
    }
    let mut runs: Vec<LineRange> = Vec::new();
    if head_match > 0 {
        let head = LineRange::Same {
            r1: Range::new(offset1, offset1 + head_match),
            r2: Range::new(offset2, offset2 + head_match),
        };
        proof {
            assert(h1.subrange(0, head_match as int) =~= h1.take(head_match as int));
            assert(h2.subrange(0, head_match as int) =~= h2.take(head_match as int));
            lemma_tiles_push(runs@, head, o1, o1, o2, o2);
            lemma_fit_push(runs@, head, h1, h2, o1, o2);
        }
        runs.push(head);
    }
    // Phase 3: the middle.
    let mid_start1 = head_match;
    let mid_end1 = len1 - tail_match;
    let mid_start2 = head_match;
    let mid_end2 = len2 - tail_match;
    let ghost before = runs@;
    let ghost mut middle: Seq<LineRange> = Seq::empty();
    if mid_start1 < mid_end1 || mid_start2 < mid_end2 {
        let m1 = vstd::slice::slice_subrange(hashes1, mid_start1, mid_end1);
        let m2 = vstd::slice::slice_subrange(hashes2, mid_start2, mid_end2);
        let mut middle_runs = diff_middle(m1, m2, offset1 + mid_start1, offset2 + mid_start2);
        proof {
            middle = middle_runs@;
            lemma_aligns_lift(middle, h1, h2, o1, o2, mid_start1 as int, mid_end1 as int, mid_start2 as int, mid_end2 as int);
            lemma_tiles_concat(runs@, middle, o1, o1 + mid_start1, o1 + mid_end1, o2, o2 + mid_start2, o2 + mid_end2);
            lemma_fit_concat(runs@, middle, h1, h2, o1, o2);
            lemma_middle_edges(h1, h2, o1, o2, middle, head_match as int, tail_match as int);
            lemma_diffs_lift(middle, h1, h2, o1, o2, mid_start1 as int, mid_end1 as int, mid_start2 as int, mid_end2 as int);
            assert(m1@ == h1.subrange(head_match as int, mid_end1 as int));
            assert(m2@ == h2.subrange(head_match as int, mid_end2 as int));
        }
        runs.append(&mut middle_runs);
    } else {
        proof {
            assert(runs@ + middle =~= runs@);
            lemma_no_middle(h1, h2, head_match as int, tail_match as int);
            let e1 = h1.subrange(head_match as int, mid_end1 as int);
            let e2 = h2.subrange(head_match as int, mid_end2 as int);
            reveal(keeps_unique_matches);
            assert forall|p: Seq<(usize, usize)>| #[trigger] matching_pairs(p, e1, e2, 0, 0) implies p.len() <= same_lines(
                middle,
            ) by {
                if p.len() > 0 {
                    assert(p[0].0 < e1.len());
                }
            }
            assert(keeps_unique_matches(middle, e1, e2));
        }
    }
    // Phase 4: the common tail.
    let ghost mid_runs = runs@;
    if tail_match > 0 {
        let tail = LineRange::Same {
            r1: Range::new(offset1 + len1 - tail_match, offset1 + len1),
            r2: Range::new(offset2 + len2 - tail_match, offset2 + len2),
        };
        proof {
            lemma_tiles_push(runs@, tail, o1, o1 + len1 - tail_match, o2, o2 + len2 - tail_match);
            lemma_fit_push(runs@, tail, h1, h2, o1, o2);
        }
        runs.push(tail);
    }
    proof {
        let after = runs@.skip(mid_runs.len() as int);
        assert(runs@ =~= before + middle + after);
        lemma_alternates_framed(before, middle, after);
        if head_match > 0 {
            assert(before =~= seq![before[0]]);
        } else {
            assert(before =~= Seq::<LineRange>::empty());
        }
        if tail_match > 0 {
            assert(after =~= seq![after[0]]);
        } else {
            assert(after =~= Seq::<LineRange>::empty());
        }
        lemma_patience_runs_parts(h1, h2, o1, o2, before, middle, after);
        lemma_framed_diffs(before, middle, after, h1, h2, o1, o2);
        lemma_framed_unique_bound(h1, h2, o1, o2, before, middle, after, head_match as int, tail_match as int);
    }
    runs
}

/// Where no line repeats within either sequence, every line common to both is
/// unique in both; runs that align the sequences and keep every matching of
/// such lines then have exactly as many lines in `Same` runs as a longest
/// common subsequence: no common line that could be kept in order is lost.
pub proof fn law_distinct_lines_keep_lcs(runs: Seq<LineRange>, h1: Seq<u64>, h2: Seq<u64>)
    requires
        aligns(runs, h1, h2, 0, 0),
        keeps_unique_matches(runs, h1, h2),
        forall|i: int, j: int| 0 <= i < j < h1.len() ==> h1[i] != h1[j],
        forall|i: int, j: int| 0 <= i < j < h2.len() ==> h2[i] != h2[j],
        h1.len() <= usize::MAX,
        h2.len() <= usize::MAX,
    ensures
        same_lines(runs) == lcs_len(h1, h2),
{
    reveal(keeps_unique_matches);
    law_alignment_within_lcs(runs, h1, h2, 0, 0);
    let w = crate::lcs::lemma_lcs_witness(h1, h2);
    assert forall|k: int| 0 <= k < w.len() implies unique_in_both(h1, h2, (#[trigger] w[k]).0 as int) by {
        let i = w[k].0 as int;
        let j = w[k].1 as int;
        assert(h1[i - 0] == h2[j - 0]);
        lemma_occurrences_distinct(h1, i);
        lemma_occurrences_distinct(h2, j);
    }
}

/// Patience diff of two whole files.
///
/// 1. Match identical lines at head
/// 2. Match identical lines at tail
/// 3. For the middle section, find unique lines as anchors
/// 4. Use longest increasing subsequence on anchors
/// 5. Recursively process gaps between anchors
pub fn patience_diff(hashes1: &[u64], hashes2: &[u64]) -> (res: Vec<LineRange>)
    requires
        hashes2@.len() < usize::MAX,
    ensures
        aligns(res@, hashes1@, hashes2@, 0, 0),
        alternates(res@),
        hashes1@.len() == 0 && hashes2@.len() == 0 ==> res@.len() == 0,
        hashes1@.len() == 0 && hashes2@.len() > 0 ==> res@ == seq![
            LineRange::Diff {
                r1: Range { start: 0, end: 0 },
                r2: Range { start: 0, end: hashes2@.len() as usize },
            },
        ],
        hashes1@.len() > 0 && hashes2@.len() == 0 ==> res@ == seq![
            LineRange::Diff {
                r1: Range { start: 0, end: hashes1@.len() as usize },
                r2: Range { start: 0, end: 0 },
            },
        ],
        ({
            let p = common_prefix(hashes1@, hashes2@);
            p > 0 ==> res@[0] == (LineRange::Same {
                r1: Range { start: 0, end: p as usize },
                r2: Range { start: 0, end: p as usize },
            })
        }),
        ({
            let p = common_prefix(hashes1@, hashes2@) as int;
            let q = common_suffix(hashes1@.skip(p), hashes2@.skip(p));
            q > 0 ==> res@.last() == (LineRange::Same {
                r1: Range { start: (hashes1@.len() - q) as usize, end: hashes1@.len() as usize },
                r2: Range { start: (hashes2@.len() - q) as usize, end: hashes2@.len() as usize },
            })
        }),
        hashes1@ == hashes2@ && hashes1@.len() > 0 ==> res@ == seq![
            LineRange::Same {
                r1: Range { start: 0, end: hashes1@.len() as usize },
                r2: Range { start: 0, end: hashes2@.len() as usize },
            },
        ],
        (forall|i: int, j: int| 0 <= i < hashes1@.len() && 0 <= j < hashes2@.len() ==> hashes1@[i] != hashes2@[j])
            && (hashes1@.len() > 0 || hashes2@.len() > 0) ==> res@ == seq![
            LineRange::Diff {
                r1: Range { start: 0, end: hashes1@.len() as usize },
                r2: Range { start: 0, end: hashes2@.len() as usize },
            },
        ],
        res@ == patience_runs(hashes1@, hashes2@, 0, 0),
        diffs_disjoint(res@, hashes1@, hashes2@, 0, 0),
        keeps_unique_matches(res@, hashes1@, hashes2@),
        (forall|i: int, j: int| 0 <= i < j < hashes1@.len() ==> hashes1@[i] != hashes1@[j]) && (forall|i: int, j: int|
            0 <= i < j < hashes2@.len() ==> hashes2@[i] != hashes2@[j]) ==> same_lines(res@) == lcs_len(
            hashes1@,
            hashes2@,
        ),
{
    if hashes1.len() == 0 || hashes2.len() == 0 {
        proof {
            lemma_runs_edge(hashes1@, hashes2@, 0, 0);
            reveal(keeps_unique_matches);
            assert forall|p: Seq<(usize, usize)>| #[trigger] matching_pairs(p, hashes1@, hashes2@, 0, 0) implies p.len()
                == 0 by {
                if p.len() > 0 {
                    assert(p[0].0 < hashes1@.len() && p[0].1 < hashes2@.len());
                }
            }
            if hashes1.len() == 0 {
                assert(lcs_len(hashes1@, hashes2@) == 0);
            } else {
                assert(lcs_len(hashes1@, hashes2@) == 0);
            }
        }
    }
    if hashes1.len() == 0 && hashes2.len() == 0 {
        return Vec::new();
    }
    if hashes1.len() == 0 {
        let mut runs: Vec<LineRange> = Vec::new();
        runs.push(LineRange::Diff { r1: Range::new(0, 0), r2: Range::new(0, hashes2.len()) });
        proof {
            lemma_one_sided_diff(runs@[0], hashes1@, hashes2@, 0, 0);
            assert(runs@.drop_last() =~= Seq::<LineRange>::empty());
            assert(same_lines(runs@.drop_last()) == 0);
            assert(runs@.last() == runs@[0]);
            assert(runs@[0].matched() == 0);
            assert(same_lines(runs@) == 0);
        }
        return runs;
    }
    if hashes2.len() == 0 {
        let mut runs: Vec<LineRange> = Vec::new();
        runs.push(LineRange::Diff { r1: Range::new(0, hashes1.len()), r2: Range::new(0, 0) });
        proof {
            lemma_one_sided_diff(runs@[0], hashes1@, hashes2@, 0, 0);
            assert(runs@.drop_last() =~= Seq::<LineRange>::empty());
            assert(same_lines(runs@.drop_last()) == 0);
            assert(runs@.last() == runs@[0]);
            assert(runs@[0].matched() == 0);
            assert(same_lines(runs@) == 0);
        }
        return runs;
    }
    let res = patience_diff_recursive(hashes1, hashes2, 0, 0);
    proof {
        if (forall|i: int, j: int| 0 <= i < j < hashes1@.len() ==> hashes1@[i] != hashes1@[j]) && (forall|i: int, j: int|
            0 <= i < j < hashes2@.len() ==> hashes2@[i] != hashes2@[j]) {
            law_distinct_lines_keep_lcs(res@, hashes1@, hashes2@);
        }
        let h1 = hashes1@;
        let h2 = hashes2@;
        if h1 == h2 {
            lemma_common_prefix_self(h1);
            lemma_full_first_run(res@, h1, h2, 0, 0);
        }
        if forall|i: int, j: int| 0 <= i < h1.len() && 0 <= j < h2.len() ==> h1[i] != h2[j] {
            lemma_disjoint_alignment(res@, h1, h2, 0, 0);
            assert(res@ =~= seq![res@[0]]);
        }
    }
    res
}

/// Compares two files with the patience diff of their line hashes.
pub fn compare_files<'a>(f1: &'a FileDescription, f2: &'a FileDescription) -> (res: ComparisonResult<'a>)
    requires
        f2.hashes@.len() < usize::MAX,
    ensures
        res.f1 == f1,
        res.f2 == f2,
        aligns(res.runs@, f1.hashes@, f2.hashes@, 0, 0),
        alternates(res.runs@),
        res.runs@ == patience_runs(f1.hashes@, f2.hashes@, 0, 0),
        diffs_disjoint(res.runs@, f1.hashes@, f2.hashes@, 0, 0),
        keeps_unique_matches(res.runs@, f1.hashes@, f2.hashes@),
{
    let runs = patience_diff(f1.hashes.as_slice(), f2.hashes.as_slice());
    ComparisonResult { f1, f2, runs }
}

/// The pairs of lines that the `Same` run `lr` puts side by side.
pub open spec fn run_pairs(lr: LineRange) -> Seq<(usize, usize)> {
    if lr is Same {
        Seq::new(lr.left().size(), |k: int| ((lr.left().start + k) as usize, (lr.right().start + k) as usize))
    } else {
        Seq::empty()
    }
}

/// The pairs of lines that the `Same` runs of `runs` put side by side, in order.
pub open spec fn aligned_pairs(runs: Seq<LineRange>) -> Seq<(usize, usize)>
    decreases runs.len(),
{
    if runs.len() == 0 {
        Seq::empty()
    } else {
        aligned_pairs(runs.drop_last()) + run_pairs(runs.last())
    }
}

/// The lines that an alignment matches form a common subsequence.
proof fn lemma_aligned_pairs(
    runs: Seq<LineRange>,
    h1: Seq<u64>,
    h2: Seq<u64>,
    o1: int,
    o2: int,
    s1: int,
    e1: int,
    s2: int,
    e2: int,
)
    requires
        tiles(runs, s1, e1, s2, e2),
        all_fit(runs, h1, h2, o1, o2),
        o1 <= s1,
        e1 <= o1 + h1.len(),
        o2 <= s2,
        e2 <= o2 + h2.len(),
    ensures
        matching_pairs(aligned_pairs(runs), h1, h2, o1, o2),
        aligned_pairs(runs).len() == same_lines(runs),
        forall|k: int|
            0 <= k < aligned_pairs(runs).len() ==> s1 <= (#[trigger] aligned_pairs(runs)[k]).0 < e1 && s2
                <= aligned_pairs(runs)[k].1 < e2,
    decreases runs.len(),
{
    if runs.len() > 0 {
        let bl = runs.drop_last();
        let x = runs.last();
        lemma_tiles_prefix(runs, s1, e1, s2, e2, runs.len() - 1);
        assert(bl =~= runs.take(runs.len() - 1));
        let k1 = if bl.len() == 0 { s1 } else { bl.last().left().end as int };
        let k2 = if bl.len() == 0 { s2 } else { bl.last().right().end as int };
        assert(all_fit(bl, h1, h2, o1, o2)) by {
            assert forall|i: int| 0 <= i < bl.len() implies run_fits(#[trigger] bl[i], h1, h2, o1, o2) by {
                assert(bl[i] == runs[i]);
            }
        }
        lemma_tiles_bounds(runs, s1, e1, s2, e2, runs.len() - 1);
        if bl.len() > 0 {
            assert(links(runs[runs.len() - 2], runs[runs.len() - 1]));
            lemma_tiles_bounds(bl, s1, k1, s2, k2, bl.len() - 1);
        }
        lemma_aligned_pairs(bl, h1, h2, o1, o2, s1, k1, s2, k2);
        let p = aligned_pairs(bl);
        let q = run_pairs(x);
        let r = p + q;
        assert(run_fits(x, h1, h2, o1, o2));
        assert forall|k: int| 0 <= k < q.len() implies {
            &&& k1 <= (#[trigger] q[k]).0 < e1
            &&& k2 <= q[k].1 < e2
            &&& h1[q[k].0 - o1] == h2[q[k].1 - o2]
            &&& q[k].0 == x.left().start + k
            &&& q[k].1 == x.right().start + k
        } by {
            let l = x.left();
            let rr = x.right();
            assert(h1.subrange(l.start - o1, l.end - o1)[k] == h1[l.start - o1 + k]);
            assert(h2.subrange(rr.start - o2, rr.end - o2)[k] == h2[rr.start - o2 + k]);
        }
        assert forall|k: int| 0 <= k < r.len() implies {
            &&& o1 <= (#[trigger] r[k]).0 < o1 + h1.len()
            &&& o2 <= r[k].1 < o2 + h2.len()
            &&& h1[r[k].0 - o1] == h2[r[k].1 - o2]
            &&& s1 <= r[k].0 < e1
            &&& s2 <= r[k].1 < e2
        } by {
            if k < p.len() {
                assert(r[k] == p[k]);
            } else {
                assert(r[k] == q[k - p.len()]);
            }
        }
        assert forall|k: int, l: int| 0 <= k < l < r.len() implies (#[trigger] r[k]).0 < (#[trigger] r[l]).0 && r[k].1 < r[l].1 by {
            if l < p.len() {
                assert(r[k] == p[k] && r[l] == p[l]);
            } else if k >= p.len() {
                assert(r[k] == q[k - p.len()] && r[l] == q[l - p.len()]);
            } else {
                assert(r[k] == p[k] && r[l] == q[l - p.len()]);
            }
        }
        assert(aligned_pairs(runs) == r);
    }
}

/// No alignment matches more lines than a longest common subsequence holds:
/// `lcs_diff`, which matches exactly that many, matches the most lines
/// any alignment can.
pub proof fn law_alignment_within_lcs(runs: Seq<LineRange>, h1: Seq<u64>, h2: Seq<u64>, o1: int, o2: int)
    requires
        aligns(runs, h1, h2, o1, o2),
    ensures
        same_lines(runs) <= lcs_len(h1, h2),
{
    lemma_aligned_pairs(runs, h1, h2, o1, o2, o1, o1 + h1.len(), o2, o2 + h2.len());
    crate::lcs::lemma_lcs_upper(aligned_pairs(runs), h1, h2, o1, o2);
}


/// `r` moved `d` lines on.
pub open spec fn shift_range(r: Range, d: int) -> Range {
    Range { start: (r.start + d) as usize, end: (r.end + d) as usize }
}

/// `lr` moved `d1` lines on in the first file and `d2` in the second.
pub open spec fn shift_run(lr: LineRange, d1: int, d2: int) -> LineRange {
    match lr {
        LineRange::Same { r1, r2 } => LineRange::Same { r1: shift_range(r1, d1), r2: shift_range(r2, d2) },
        LineRange::Diff { r1, r2 } => LineRange::Diff { r1: shift_range(r1, d1), r2: shift_range(r2, d2) },
    }
}

/// Every run moved `d1` lines on in the first file and `d2` in the second.
pub open spec fn shift_runs(runs: Seq<LineRange>, d1: int, d2: int) -> Seq<LineRange> {
    Seq::new(runs.len(), |k: int| shift_run(runs[k], d1, d2))
}

/// No range of the runs reaches past line `n1` of the first file or `n2` of
/// the second.
pub open spec fn within(runs: Seq<LineRange>, n1: int, n2: int) -> bool {
    forall|k: int|
        0 <= k < runs.len() ==> (#[trigger] runs[k]).left().start <= n1 && runs[k].left().end <= n1
            && runs[k].right().start <= n2 && runs[k].right().end <= n2
}

/// Moving runs twice moves them by the sum, where nothing overflows.
proof fn lemma_shift_twice(x: Seq<LineRange>, d1: int, d2: int, e1: int, e2: int, n1: int, n2: int)
    requires
        within(x, n1, n2),
        0 <= d1,
        0 <= d2,
        0 <= e1,
        0 <= e2,
        d1 + e1 + n1 <= usize::MAX,
        d2 + e2 + n2 <= usize::MAX,
    ensures
        shift_runs(shift_runs(x, d1, d2), e1, e2) == shift_runs(x, d1 + e1, d2 + e2),
        within(shift_runs(x, d1, d2), d1 + n1, d2 + n2),
{
    assert(shift_runs(shift_runs(x, d1, d2), e1, e2) =~= shift_runs(x, d1 + e1, d2 + e2)) by {
        assert forall|k: int| 0 <= k < x.len() implies shift_run(shift_run(x[k], d1, d2), e1, e2) == shift_run(
            x[k],
            d1 + e1,
            d2 + e2,
        ) by {
            assert(x[k].left().end <= n1);
        }
    }
    assert forall|k: int| 0 <= k < x.len() implies {
        let y = #[trigger] shift_runs(x, d1, d2)[k];
        y.left().start <= d1 + n1 && y.left().end <= d1 + n1 && y.right().start <= d2 + n2 && y.right().end <= d2 + n2
    } by {
        assert(x[k].left().end <= n1);
    }
}

/// Moving runs commutes with joining them, and runs stay as far in as the
/// originals.
proof fn lemma_shift_concat(a: Seq<LineRange>, b: Seq<LineRange>, d1: int, d2: int, n1: int, n2: int)
    ensures
        shift_runs(a + b, d1, d2) == shift_runs(a, d1, d2) + shift_runs(b, d1, d2),
        within(a + b, n1, n2) == (within(a, n1, n2) && within(b, n1, n2)),
{
    assert(shift_runs(a + b, d1, d2) =~= shift_runs(a, d1, d2) + shift_runs(b, d1, d2));
    if within(a, n1, n2) && within(b, n1, n2) {
        assert forall|k: int| 0 <= k < (a + b).len() implies (#[trigger] (a + b)[k]).left().start <= n1 && (a
            + b)[k].left().end <= n1 && (a + b)[k].right().start <= n2 && (a + b)[k].right().end <= n2 by {
            if k < a.len() {
                assert((a + b)[k] == a[k]);
            } else {
                assert((a + b)[k] == b[k - a.len()]);
            }
        }
    }
    if within(a + b, n1, n2) {
        assert forall|k: int| 0 <= k < a.len() implies (#[trigger] a[k]).left().start <= n1 && a[k].left().end <= n1
            && a[k].right().start <= n2 && a[k].right().end <= n2 by {
            assert((a + b)[k] == a[k]);
        }
        assert forall|k: int| 0 <= k < b.len() implies (#[trigger] b[k]).left().start <= n1 && b[k].left().end <= n1
            && b[k].right().start <= n2 && b[k].right().end <= n2 by {
            assert((a + b)[a.len() + k] == b[k]);
        }
    }
}

/// Merging moved runs gives the merged runs moved, where nothing overflows.
proof fn lemma_merge_shift(x: Seq<LineRange>, d1: int, d2: int, n1: int, n2: int)
    requires
        within(x, n1, n2),
        0 <= d1,
        0 <= d2,
        d1 + n1 <= usize::MAX,
        d2 + n2 <= usize::MAX,
    ensures
        merge_seq(shift_runs(x, d1, d2)) == shift_runs(merge_seq(x), d1, d2),
        within(merge_seq(x), n1, n2),
    decreases x.len(),
{
    if x.len() > 0 {
        let d = x.drop_last();
        let sx = shift_runs(x, d1, d2);
        assert(sx.drop_last() =~= shift_runs(d, d1, d2));
        assert(x.last() == x[x.len() - 1]);
        assert(sx.last() == shift_run(x.last(), d1, d2));
        assert(within(d, n1, n2)) by {
            assert forall|k: int| 0 <= k < d.len() implies (#[trigger] d[k]).left().start <= n1 && d[k].left().end <= n1
                && d[k].right().start <= n2 && d[k].right().end <= n2 by {
                assert(d[k] == x[k]);
            }
        }
        lemma_merge_shift(d, d1, d2, n1, n2);
        let m = merge_seq(d);
        let sm = shift_runs(m, d1, d2);
        let v = x.last();
        if m.len() > 0 {
            let y = m.last();
            assert(y == m[m.len() - 1]);
            assert(sm.last() == shift_run(y, d1, d2));
            assert(mergeable(sm.last(), shift_run(v, d1, d2)) == mergeable(y, v));
            if mergeable(y, v) {
                assert(combine(shift_run(y, d1, d2), shift_run(v, d1, d2)) == shift_run(combine(y, v), d1, d2));
                assert(sm.drop_last() =~= shift_runs(m.drop_last(), d1, d2));
                assert(shift_runs(m.drop_last().push(combine(y, v)), d1, d2) =~= sm.drop_last().push(
                    shift_run(combine(y, v), d1, d2),
                ));
                let r = m.drop_last().push(combine(y, v));
                assert forall|k: int| 0 <= k < r.len() implies (#[trigger] r[k]).left().start <= n1 && r[k].left().end
                    <= n1 && r[k].right().start <= n2 && r[k].right().end <= n2 by {
                    if k < r.len() - 1 {
                        assert(r[k] == m[k]);
                    }
                }
            } else {
                assert(shift_runs(m.push(v), d1, d2) =~= sm.push(shift_run(v, d1, d2)));
                let r = m.push(v);
                assert forall|k: int| 0 <= k < r.len() implies (#[trigger] r[k]).left().start <= n1 && r[k].left().end
                    <= n1 && r[k].right().start <= n2 && r[k].right().end <= n2 by {
                    if k < r.len() - 1 {
                        assert(r[k] == m[k]);
                    }
                }
            }
        } else {
            assert(shift_runs(m.push(v), d1, d2) =~= sm.push(shift_run(v, d1, d2)));
            let r = m.push(v);
            assert forall|k: int| 0 <= k < r.len() implies (#[trigger] r[k]).left().start <= n1 && r[k].left().end
                <= n1 && r[k].right().start <= n2 && r[k].right().end <= n2 by {
                assert(r[k] == v);
            }
        }
    }
}

/// A gap run at offsets is the gap run at line 0 moved.
proof fn lemma_gap_runs_shift(p1: int, p2: int, q1: int, q2: int, o1: int, o2: int, n1: int, n2: int)
    requires
        0 <= p1 <= n1,
        0 <= q1 <= n1,
        0 <= p2 <= n2,
        0 <= q2 <= n2,
        0 <= o1,
        0 <= o2,
        o1 + n1 <= usize::MAX,
        o2 + n2 <= usize::MAX,
    ensures
        gap_runs(p1, p2, q1, q2, o1, o2) == shift_runs(gap_runs(p1, p2, q1, q2, 0, 0), o1, o2),
        within(gap_runs(p1, p2, q1, q2, 0, 0), n1, n2),
{
    assert(gap_runs(p1, p2, q1, q2, o1, o2) =~= shift_runs(gap_runs(p1, p2, q1, q2, 0, 0), o1, o2));
}

/// The pair runs at offsets are those at line 0 moved.
proof fn lemma_pair_runs_shift(p: Seq<(usize, usize)>, o1: int, o2: int, n1: int, n2: int)
    requires
        forall|k: int| 0 <= k < p.len() ==> (#[trigger] p[k]).0 < n1 && p[k].1 < n2,
        0 <= o1,
        0 <= o2,
        o1 + n1 <= usize::MAX,
        o2 + n2 <= usize::MAX,
    ensures
        pair_runs(p, o1, o2) == shift_runs(pair_runs(p, 0, 0), o1, o2),
        within(pair_runs(p, 0, 0), n1, n2),
    decreases p.len(),
{
    if p.len() > 0 {
        let q = p.drop_last();
        let x = p.last();
        assert(x == p[p.len() - 1]);
        assert forall|k: int| 0 <= k < q.len() implies (#[trigger] q[k]).0 < n1 && q[k].1 < n2 by {
            assert(q[k] == p[k]);
        }
        lemma_pair_runs_shift(q, o1, o2, n1, n2);
        if q.len() > 0 {
            assert(q.last() == q[q.len() - 1]);
        }
        let a = after_pairs(q);
        lemma_gap_runs_shift(a.0, a.1, x.0 as int, x.1 as int, o1, o2, n1, n2);
        let g0 = gap_runs(a.0, a.1, x.0 as int, x.1 as int, 0, 0);
        let t0 = g0.push(anchor_run(x.0 as int, x.1 as int, 0, 0));
        assert(shift_runs(t0, o1, o2) =~= shift_runs(g0, o1, o2).push(anchor_run(x.0 as int, x.1 as int, o1, o2)));
        assert(within(t0, n1, n2)) by {
            assert forall|k: int| 0 <= k < t0.len() implies (#[trigger] t0[k]).left().start <= n1 && t0[k].left().end
                <= n1 && t0[k].right().start <= n2 && t0[k].right().end <= n2 by {
                if k < g0.len() {
                    assert(t0[k] == g0[k]);
                }
            }
        }
        lemma_shift_concat(pair_runs(q, 0, 0), t0, o1, o2, n1, n2);
    }
}

/// The unmerged runs of a diff through pairs at offsets are those at line 0
/// moved.
proof fn lemma_anchored_shift(p: Seq<(usize, usize)>, n1: int, n2: int, o1: int, o2: int)
    requires
        forall|k: int| 0 <= k < p.len() ==> (#[trigger] p[k]).0 < n1 && p[k].1 < n2,
        0 <= n1,
        0 <= n2,
        0 <= o1,
        0 <= o2,
        o1 + n1 <= usize::MAX,
        o2 + n2 <= usize::MAX,
    ensures
        anchored_runs(p, n1, n2, o1, o2) == shift_runs(anchored_runs(p, n1, n2, 0, 0), o1, o2),
        within(anchored_runs(p, n1, n2, 0, 0), n1, n2),
{
    lemma_pair_runs_shift(p, o1, o2, n1, n2);
    if p.len() > 0 {
        assert(p.last() == p[p.len() - 1]);
    }
    let a = after_pairs(p);
    lemma_gap_runs_shift(a.0, a.1, n1, n2, o1, o2, n1, n2);
    lemma_shift_concat(pair_runs(p, 0, 0), gap_runs(a.0, a.1, n1, n2, 0, 0), o1, o2, n1, n2);
}

/// A hash that occurs once has a position.
proof fn lemma_occurrences_witness(s: Seq<u64>, h: u64)
    requires
        occurrences(s, h) > 0,
    ensures
        exists|j: int| 0 <= j < s.len() && s[j] == h,
    decreases s.len(),
{
    if s.last() != h {
        lemma_occurrences_witness(s.drop_last(), h);
        let j = choose|j: int| 0 <= j < s.drop_last().len() && s.drop_last()[j] == h;
        assert(s[j] == h);
    } else {
        assert(s[s.len() - 1] == h);
    }
}

/// Anchors lie within both sequences.
proof fn lemma_unique_anchors_bounded(h1: Seq<u64>, h2: Seq<u64>, n: int)
    requires
        n <= h1.len(),
    ensures
        forall|k: int|
            0 <= k < unique_anchors(h1, h2, n).len() ==> (#[trigger] unique_anchors(h1, h2, n)[k]).0 < h1.len()
                && unique_anchors(h1, h2, n)[k].1 < h2.len(),
    decreases n,
{
    if n > 0 {
        lemma_unique_anchors_bounded(h1, h2, n - 1);
        let prev = unique_anchors(h1, h2, n - 1);
        if unique_in_both(h1, h2, n - 1) {
            lemma_occurrences_witness(h2, h1[n - 1]);
            let j = position_of(h2, h1[n - 1]);
            assert(0 <= j < h2.len());
            let u = unique_anchors(h1, h2, n);
            assert forall|k: int| 0 <= k < u.len() implies (#[trigger] u[k]).0 < h1.len() && u[k].1 < h2.len() by {
                if k < prev.len() {
                    assert(u[k] == prev[k]);
                }
            }
        }
    }
}

/// Starting the patience diff at lines `o1` and `o2` moves the runs it gives
/// from lines `0` and `0` by `o1` and `o2`, and changes nothing else: the
/// kinds, number and order of the runs stay the same. The runs from line 0
/// lie within the two sequences.
#[verifier::spinoff_prover]
#[verifier::rlimit(60)]
pub proof fn law_patience_shift(h1: Seq<u64>, h2: Seq<u64>, o1: int, o2: int)
    requires
        0 <= o1,
        0 <= o2,
        o1 + h1.len() <= usize::MAX,
        o2 + h2.len() <= usize::MAX,
    ensures
        patience_runs(h1, h2, o1, o2) == shift_runs(patience_runs(h1, h2, 0, 0), o1, o2),
        within(patience_runs(h1, h2, 0, 0), h1.len() as int, h2.len() as int),
    decreases h1.len() + h2.len(), 2int, 0int,
{
    let n1 = h1.len() as int;
    let n2 = h2.len() as int;
    if h1.len() == 0 || h2.len() == 0 {
        lemma_runs_edge(h1, h2, o1, o2);
        lemma_runs_edge(h1, h2, 0, 0);
        lemma_gap_runs_shift(0, 0, n1, n2, o1, o2, n1, n2);
    } else {
        lemma_common_bounds(h1, h2);
        let p = common_prefix(h1, h2) as int;
        lemma_common_bounds(h1.skip(p), h2.skip(p));
        let q = common_suffix(h1.skip(p), h2.skip(p)) as int;
        let e1 = n1 - q;
        let e2 = n2 - q;
        let head0 = if p > 0 {
            seq![
                LineRange::Same {
                    r1: Range { start: 0usize, end: p as usize },
                    r2: Range { start: 0usize, end: p as usize },
                },
            ]
        } else {
            Seq::<LineRange>::empty()
        };
        let tail0 = if q > 0 {
            seq![
                LineRange::Same {
                    r1: Range { start: e1 as usize, end: n1 as usize },
                    r2: Range { start: e2 as usize, end: n2 as usize },
                },
            ]
        } else {
            Seq::<LineRange>::empty()
        };
        let m1 = h1.subrange(p, e1);
        let m2 = h2.subrange(p, e2);
        let mid0 = if p < e1 || p < e2 {
            middle_runs(m1, m2, p, p)
        } else {
            Seq::<LineRange>::empty()
        };
        let mid = if p < e1 || p < e2 {
            middle_runs(m1, m2, o1 + p, o2 + p)
        } else {
            Seq::<LineRange>::empty()
        };
        lemma_patience_runs_parts(h1, h2, 0, 0, head0, mid0, tail0);
        if p < e1 || p < e2 {
            lemma_middle_shift(m1, m2, o1 + p, o2 + p);
            lemma_middle_shift(m1, m2, p, p);
            lemma_shift_twice(middle_runs(m1, m2, 0, 0), p, p, o1, o2, m1.len() as int, m2.len() as int);
        }
        assert(within(mid0, n1, n2)) by {
            if p < e1 || p < e2 {
                let w = middle_runs(m1, m2, 0, 0);
                assert forall|k: int| 0 <= k < mid0.len() implies (#[trigger] mid0[k]).left().start <= n1
                    && mid0[k].left().end <= n1 && mid0[k].right().start <= n2 && mid0[k].right().end <= n2 by {
                    assert(mid0[k] == shift_runs(w, p, p)[k]);
                }
            }
        }
        assert(mid == shift_runs(mid0, o1, o2));
        assert(shift_runs(head0, o1, o2) =~= (if p > 0 {
            seq![
                LineRange::Same {
                    r1: Range { start: o1 as usize, end: (o1 + p) as usize },
                    r2: Range { start: o2 as usize, end: (o2 + p) as usize },
                },
            ]
        } else {
            Seq::<LineRange>::empty()
        }));
        assert(shift_runs(tail0, o1, o2) =~= (if q > 0 {
            seq![
                LineRange::Same {
                    r1: Range { start: (o1 + e1) as usize, end: (o1 + n1) as usize },
                    r2: Range { start: (o2 + e2) as usize, end: (o2 + n2) as usize },
                },
            ]
        } else {
            Seq::<LineRange>::empty()
        }));
        lemma_shift_concat(head0, mid0, o1, o2, n1, n2);
        lemma_shift_concat(head0 + mid0, tail0, o1, o2, n1, n2);
        lemma_patience_runs_parts(h1, h2, o1, o2, shift_runs(head0, o1, o2), mid, shift_runs(tail0, o1, o2));
    }
}

/// The shift law for the middle runs.
proof fn lemma_middle_shift(h1: Seq<u64>, h2: Seq<u64>, o1: int, o2: int)
    requires
        0 <= o1,
        0 <= o2,
        o1 + h1.len() <= usize::MAX,
        o2 + h2.len() <= usize::MAX,
    ensures
        middle_runs(h1, h2, o1, o2) == shift_runs(middle_runs(h1, h2, 0, 0), o1, o2),
        within(middle_runs(h1, h2, 0, 0), h1.len() as int, h2.len() as int),
    decreases h1.len() + h2.len(), 1int, 0int,
{
    reveal(patience_runs);
    reveal(middle_runs);
    reveal(anchor_gap_runs);
    reveal(gap_diff);
    let n1 = h1.len() as int;
    let n2 = h2.len() as int;
    if h1.len() == 0 || h2.len() == 0 {
        lemma_gap_runs_shift(0, 0, n1, n2, o1, o2, n1, n2);
    } else {
        let a = unique_anchors(h1, h2, n1);
        let l = patience_pick(a);
        if a.len() == 0 || l.len() == 0 {
            let hp = hirschberg_pairs(h1, h2, 0, 0);
            law_hirschberg_shift(h1, h2, 0, 0);
            lemma_anchored_shift(hp, n1, n2, o1, o2);
            lemma_merge_shift(anchored_runs(hp, n1, n2, 0, 0), o1, o2, n1, n2);
        } else {
            lemma_unique_anchors_bounded(h1, h2, n1);
            lemma_pick_bounded(a, max_run(a, a.len()), a.len(), n1, n2);
            lemma_anchor_gap_shift(l, h1, h2, o1, o2);
            if l.len() > 0 {
                assert(l.last() == l[l.len() - 1]);
            }
            let e = after_pairs(l);
            lemma_gap_shift(e.0, e.1, n1, n2, h1, h2, o1, o2);
            let x = anchor_gap_runs(l, h1, h2, 0, 0);
            let y = gap_diff(e.0, e.1, n1, n2, h1, h2, 0, 0);
            lemma_shift_concat(x, y, o1, o2, n1, n2);
            lemma_merge_shift(x + y, o1, o2, n1, n2);
        }
    }
}

/// The shift law for the anchor and gap runs.
proof fn lemma_anchor_gap_shift(l: Seq<(usize, usize)>, h1: Seq<u64>, h2: Seq<u64>, o1: int, o2: int)
    requires
        forall|k: int| 0 <= k < l.len() ==> (#[trigger] l[k]).0 < h1.len() && l[k].1 < h2.len(),
        0 <= o1,
        0 <= o2,
        o1 + h1.len() <= usize::MAX,
        o2 + h2.len() <= usize::MAX,
    ensures
        anchor_gap_runs(l, h1, h2, o1, o2) == shift_runs(anchor_gap_runs(l, h1, h2, 0, 0), o1, o2),
        within(anchor_gap_runs(l, h1, h2, 0, 0), h1.len() as int, h2.len() as int),
    decreases h1.len() + h2.len(), 0int, l.len(),
{
    reveal(patience_runs);
    reveal(middle_runs);
    reveal(anchor_gap_runs);
    reveal(gap_diff);
    let n1 = h1.len() as int;
    let n2 = h2.len() as int;
    if l.len() > 0 {
        let q = l.drop_last();
        let x = l.last();
        assert(x == l[l.len() - 1]);
        assert forall|k: int| 0 <= k < q.len() implies (#[trigger] q[k]).0 < h1.len() && q[k].1 < h2.len() by {
            assert(q[k] == l[k]);
        }
        lemma_anchor_gap_shift(q, h1, h2, o1, o2);
        let a = after_pairs(q);
        lemma_gap_shift(a.0, a.1, x.0 as int, x.1 as int, h1, h2, o1, o2);
        let g0 = gap_diff(a.0, a.1, x.0 as int, x.1 as int, h1, h2, 0, 0);
        let t0 = g0.push(anchor_run(x.0 as int, x.1 as int, 0, 0));
        assert(shift_runs(t0, o1, o2) =~= shift_runs(g0, o1, o2).push(anchor_run(x.0 as int, x.1 as int, o1, o2)));
        assert(within(t0, n1, n2)) by {
            assert forall|k: int| 0 <= k < t0.len() implies (#[trigger] t0[k]).left().start <= n1 && t0[k].left().end
                <= n1 && t0[k].right().start <= n2 && t0[k].right().end <= n2 by {
                if k < g0.len() {
                    assert(t0[k] == g0[k]);
                }
            }
        }
        lemma_shift_concat(anchor_gap_runs(q, h1, h2, 0, 0), t0, o1, o2, n1, n2);
    }
}

/// The shift law for the diff of a gap.
proof fn lemma_gap_shift(p1: int, p2: int, q1: int, q2: int, h1: Seq<u64>, h2: Seq<u64>, o1: int, o2: int)
    requires
        0 <= o1,
        0 <= o2,
        o1 + h1.len() <= usize::MAX,
        o2 + h2.len() <= usize::MAX,
    ensures
        gap_diff(p1, p2, q1, q2, h1, h2, o1, o2) == shift_runs(gap_diff(p1, p2, q1, q2, h1, h2, 0, 0), o1, o2),
        within(gap_diff(p1, p2, q1, q2, h1, h2, 0, 0), h1.len() as int, h2.len() as int),
    decreases h1.len() + h2.len(), 0int, 0int,
{
    reveal(patience_runs);
    reveal(middle_runs);
    reveal(anchor_gap_runs);
    reveal(gap_diff);
    if (p1 < q1 || p2 < q2) && 0 <= p1 <= q1 <= h1.len() && 0 <= p2 <= q2 <= h2.len() && (q1 - p1) + (q2 - p2) < h1.len()
        + h2.len() {
        let s1 = h1.subrange(p1, q1);
        let s2 = h2.subrange(p2, q2);
        law_patience_shift(s1, s2, o1 + p1, o2 + p2);
        law_patience_shift(s1, s2, p1, p2);
        lemma_shift_twice(patience_runs(s1, s2, 0, 0), p1, p2, o1, o2, q1 - p1, q2 - p2);
        let g = shift_runs(patience_runs(s1, s2, 0, 0), p1, p2);
        assert forall|k: int| 0 <= k < g.len() implies (#[trigger] g[k]).left().start <= h1.len() && g[k].left().end
            <= h1.len() && g[k].right().start <= h2.len() && g[k].right().end <= h2.len() by {
        }
    } else {
        assert(shift_runs(Seq::<LineRange>::empty(), o1, o2) =~= Seq::<LineRange>::empty());
    }
}

} // verus!
