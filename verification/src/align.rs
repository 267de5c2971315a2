//! What it means for a sequence of runs to align two hash sequences, and the
//! facts about such alignments that the diff algorithms rely on.

use vstd::prelude::*;

use crate::types::{LineRange, Range};

verus! {

/// `a` ends exactly where `b` starts, in both files.
pub open spec fn links(a: LineRange, b: LineRange) -> bool {
    a.left().end == b.left().start && a.right().end == b.right().start
}

/// The runs cover `[s1, e1)` of the first file and `[s2, e2)` of the second,
/// in order, with neither gaps nor overlaps.
pub open spec fn tiles(runs: Seq<LineRange>, s1: int, e1: int, s2: int, e2: int) -> bool {
    if runs.len() == 0 {
        s1 == e1 && s2 == e2
    } else {
        &&& runs[0].left().start == s1
        &&& runs[0].right().start == s2
        &&& runs.last().left().end == e1
        &&& runs.last().right().end == e2
        &&& forall|i: int|
            0 <= i < runs.len() ==> (#[trigger] runs[i]).left().start <= runs[i].left().end
                && runs[i].right().start <= runs[i].right().end
        &&& forall|i: int, j: int|
            0 <= i && j == i + 1 && j < runs.len() ==> links(#[trigger] runs[i], #[trigger] runs[j])
    }
}

/// A run is consistent with the hash sequences `h1` and `h2`, whose first
/// elements stand at line `o1` and `o2`: a `Same` run covers equally many,
/// pairwise equal, lines (at least one); a `Diff` run covers at least one line.
pub open spec fn run_fits(lr: LineRange, h1: Seq<u64>, h2: Seq<u64>, o1: int, o2: int) -> bool {
    match lr {
        LineRange::Same { r1, r2 } => {
            &&& r1.start < r1.end
            &&& r2.end - r2.start == r1.end - r1.start
            &&& h1.subrange(r1.start - o1, r1.end - o1) == h2.subrange(r2.start - o2, r2.end - o2)
        },
        LineRange::Diff { r1, r2 } => r1.start < r1.end || r2.start < r2.end,
    }
}

/// Every run is consistent with `h1` and `h2`.
pub open spec fn all_fit(runs: Seq<LineRange>, h1: Seq<u64>, h2: Seq<u64>, o1: int, o2: int) -> bool {
    forall|i: int| 0 <= i < runs.len() ==> run_fits(#[trigger] runs[i], h1, h2, o1, o2)
}

/// The runs align `h1` (lines `o1..o1 + |h1|`) with `h2` (lines `o2..o2 + |h2|`):
/// they tile both and each of them is consistent with the hashes.
pub open spec fn aligns(runs: Seq<LineRange>, h1: Seq<u64>, h2: Seq<u64>, o1: int, o2: int) -> bool {
    &&& tiles(runs, o1, o1 + h1.len(), o2, o2 + h2.len())
    &&& all_fit(runs, h1, h2, o1, o2)
}

/// Consecutive runs are never of the same kind.
pub open spec fn alternates(runs: Seq<LineRange>) -> bool {
    forall|i: int, j: int|
        0 <= i && j == i + 1 && j < runs.len() ==> ((#[trigger] runs[i]) is Same) != ((#[trigger] runs[j]) is Same)
}

/// Total number of lines covered by `Same` runs.
pub open spec fn same_lines(runs: Seq<LineRange>) -> nat
    decreases runs.len(),
{
    if runs.len() == 0 {
        0
    } else {
        same_lines(runs.drop_last()) + runs.last().matched()
    }
}

/// Two consecutive runs of one kind that `merge_runs` joins into one.
pub open spec fn mergeable(a: LineRange, b: LineRange) -> bool {
    &&& (a is Same) == (b is Same)
    &&& links(a, b)
}

/// The run that covers `a` followed by `b`, of the kind of `a`.
pub open spec fn combine(a: LineRange, b: LineRange) -> LineRange {
    let r1 = Range { start: a.left().start, end: b.left().end };
    let r2 = Range { start: a.right().start, end: b.right().end };
    if a is Same {
        LineRange::Same { r1, r2 }
    } else {
        LineRange::Diff { r1, r2 }
    }
}

/// Left-to-right merging of consecutive mergeable runs.
pub open spec fn merge_seq(runs: Seq<LineRange>) -> Seq<LineRange>
    decreases runs.len(),
{
    if runs.len() == 0 {
        Seq::empty()
    } else {
        let m = merge_seq(runs.drop_last());
        let x = runs.last();
        if m.len() > 0 && mergeable(m.last(), x) {
            m.drop_last().push(combine(m.last(), x))
        } else {
            m.push(x)
        }
    }
}

/// No two consecutive runs are mergeable.
pub open spec fn fully_merged(runs: Seq<LineRange>) -> bool {
    forall|i: int, j: int|
        0 <= i && j == i + 1 && j < runs.len() ==> !mergeable(#[trigger] runs[i], #[trigger] runs[j])
}

/// Appending a run that starts where a tiling ends extends the tiling.
pub proof fn lemma_tiles_push(runs: Seq<LineRange>, x: LineRange, s1: int, m1: int, s2: int, m2: int)
    requires
        tiles(runs, s1, m1, s2, m2),
        x.left().start == m1,
        x.right().start == m2,
        x.left().start <= x.left().end,
        x.right().start <= x.right().end,
    ensures
        tiles(runs.push(x), s1, x.left().end as int, s2, x.right().end as int),
{
    let r = runs.push(x);
    assert forall|i: int, j: int| 0 <= i && j == i + 1 && j < r.len() implies links(#[trigger] r[i], #[trigger] r[j]) by {
        if j == r.len() - 1 {
            if runs.len() > 0 {
                assert(r[i] == runs.last());
            }
        } else {
            assert(r[i] == runs[i] && r[j] == runs[j]);
        }
    }
    assert forall|i: int| 0 <= i < r.len() implies (#[trigger] r[i]).left().start <= r[i].left().end
        && r[i].right().start <= r[i].right().end by {
        if i < runs.len() {
            assert(r[i] == runs[i]);
        }
    }
}

/// Two tilings that meet concatenate into one.
pub proof fn lemma_tiles_concat(
    a: Seq<LineRange>,
    b: Seq<LineRange>,
    s1: int,
    m1: int,
    e1: int,
    s2: int,
    m2: int,
    e2: int,
)
    requires
        tiles(a, s1, m1, s2, m2),
        tiles(b, m1, e1, m2, e2),
    ensures
        tiles(a + b, s1, e1, s2, e2),
    decreases b.len(),
{
    if b.len() == 0 {
        assert(a + b =~= a);
    } else {
        let bl = b.drop_last();
        let x = b.last();
        lemma_tiles_prefix(b, m1, e1, m2, e2, b.len() - 1);
        let k1 = if bl.len() == 0 { m1 } else { bl.last().left().end as int };
        let k2 = if bl.len() == 0 { m2 } else { bl.last().right().end as int };
        assert(bl =~= b.take(b.len() - 1));
        lemma_tiles_concat(a, bl, s1, m1, k1, s2, m2, k2);
        if bl.len() > 0 {
            assert(links(b[b.len() - 2], b[b.len() - 1]));
        }
        lemma_tiles_push(a + bl, x, s1, k1, s2, k2);
        assert(a + b =~= (a + bl).push(x));
    }
}

/// The first `k` runs of a tiling tile up to where the `k`-th run ends.
pub proof fn lemma_tiles_prefix(runs: Seq<LineRange>, s1: int, e1: int, s2: int, e2: int, k: int)
    requires
        tiles(runs, s1, e1, s2, e2),
        0 <= k <= runs.len(),
    ensures
        k == 0 ==> tiles(runs.take(k), s1, s1, s2, s2),
        k > 0 ==> tiles(runs.take(k), s1, runs[k - 1].left().end as int, s2, runs[k - 1].right().end as int),
{
    let t = runs.take(k);
    if k > 0 {
        assert(t[0] == runs[0]);
        assert forall|i: int, j: int| 0 <= i && j == i + 1 && j < t.len() implies links(#[trigger] t[i], #[trigger] t[j]) by {
            assert(t[i] == runs[i] && t[j] == runs[j]);
            assert(links(runs[i], runs[j]));
        }
        assert forall|i: int| 0 <= i < t.len() implies (#[trigger] t[i]).left().start <= t[i].left().end
            && t[i].right().start <= t[i].right().end by {
            assert(t[i] == runs[i]);
        }
    }
}

/// Every run of a tiling lies inside the tiled box.
pub proof fn lemma_tiles_bounds(runs: Seq<LineRange>, s1: int, e1: int, s2: int, e2: int, i: int)
    requires
        tiles(runs, s1, e1, s2, e2),
        0 <= i < runs.len(),
    ensures
        s1 <= runs[i].left().start <= runs[i].left().end <= e1,
        s2 <= runs[i].right().start <= runs[i].right().end <= e2,
{
    lemma_tiles_lower(runs, s1, e1, s2, e2, i);
    lemma_tiles_upper(runs, s1, e1, s2, e2, i);
}

proof fn lemma_tiles_lower(runs: Seq<LineRange>, s1: int, e1: int, s2: int, e2: int, i: int)
    requires
        tiles(runs, s1, e1, s2, e2),
        0 <= i < runs.len(),
    ensures
        s1 <= runs[i].left().start,
        s2 <= runs[i].right().start,
    decreases i,
{
    if i > 0 {
        lemma_tiles_lower(runs, s1, e1, s2, e2, i - 1);
        assert(links(runs[i - 1], runs[i]));
        assert(runs[i - 1].left().start <= runs[i - 1].left().end);
    }
}

proof fn lemma_tiles_upper(runs: Seq<LineRange>, s1: int, e1: int, s2: int, e2: int, i: int)
    requires
        tiles(runs, s1, e1, s2, e2),
        0 <= i < runs.len(),
    ensures
        runs[i].left().end <= e1,
        runs[i].right().end <= e2,
    decreases runs.len() - i,
{
    if i < runs.len() - 1 {
        lemma_tiles_upper(runs, s1, e1, s2, e2, i + 1);
        assert(links(runs[i], runs[i + 1]));
        assert(runs[i + 1].left().start <= runs[i + 1].left().end);
    }
}

/// A run consistent with slices `h1[a1..b1]` and `h2[a2..b2]` (placed at
/// `o1 + a1` and `o2 + a2`) is consistent with the whole sequences.
pub proof fn lemma_fits_lift(
    lr: LineRange,
    h1: Seq<u64>,
    h2: Seq<u64>,
    o1: int,
    o2: int,
    a1: int,
    b1: int,
    a2: int,
    b2: int,
)
    requires
        0 <= a1 <= b1 <= h1.len(),
        0 <= a2 <= b2 <= h2.len(),
        run_fits(lr, h1.subrange(a1, b1), h2.subrange(a2, b2), o1 + a1, o2 + a2),
        o1 + a1 <= lr.left().start <= lr.left().end <= o1 + b1,
        o2 + a2 <= lr.right().start <= lr.right().end <= o2 + b2,
    ensures
        run_fits(lr, h1, h2, o1, o2),
{
    if lr is Same {
        let r1 = lr.left();
        let r2 = lr.right();
        assert(h1.subrange(a1, b1).subrange(r1.start - (o1 + a1), r1.end - (o1 + a1))
            =~= h1.subrange(r1.start - o1, r1.end - o1));
        assert(h2.subrange(a2, b2).subrange(r2.start - (o2 + a2), r2.end - (o2 + a2))
            =~= h2.subrange(r2.start - o2, r2.end - o2));
    }
}

/// An alignment of slices `h1[a1..b1]` and `h2[a2..b2]` fits the whole sequences.
pub proof fn lemma_aligns_lift(
    runs: Seq<LineRange>,
    h1: Seq<u64>,
    h2: Seq<u64>,
    o1: int,
    o2: int,
    a1: int,
    b1: int,
    a2: int,
    b2: int,
)
    requires
        0 <= a1 <= b1 <= h1.len(),
        0 <= a2 <= b2 <= h2.len(),
        aligns(runs, h1.subrange(a1, b1), h2.subrange(a2, b2), o1 + a1, o2 + a2),
    ensures
        tiles(runs, o1 + a1, o1 + b1, o2 + a2, o2 + b2),
        all_fit(runs, h1, h2, o1, o2),
{
    assert forall|i: int| 0 <= i < runs.len() implies run_fits(#[trigger] runs[i], h1, h2, o1, o2) by {
        lemma_tiles_bounds(runs, o1 + a1, o1 + b1, o2 + a2, o2 + b2, i);
        lemma_fits_lift(runs[i], h1, h2, o1, o2, a1, b1, a2, b2);
    }
}

/// Merging keeps the tiling and the consistency of the runs, and leaves no
/// two consecutive runs mergeable.
pub proof fn lemma_merge_seq(runs: Seq<LineRange>, h1: Seq<u64>, h2: Seq<u64>, o1: int, o2: int, s1: int, e1: int, s2: int, e2: int)
    requires
        tiles(runs, s1, e1, s2, e2),
        all_fit(runs, h1, h2, o1, o2),
        o1 <= s1,
        e1 <= o1 + h1.len(),
        o2 <= s2,
        e2 <= o2 + h2.len(),
    ensures
        tiles(merge_seq(runs), s1, e1, s2, e2),
        all_fit(merge_seq(runs), h1, h2, o1, o2),
        fully_merged(merge_seq(runs)),
        runs.len() > 0 ==> merge_seq(runs).len() > 0,
        same_lines(merge_seq(runs)) == same_lines(runs),
    decreases runs.len(),
{
    if runs.len() > 0 {
        let bl = runs.drop_last();
        let x = runs.last();
        lemma_tiles_prefix(runs, s1, e1, s2, e2, runs.len() - 1);
        assert(bl =~= runs.take(runs.len() - 1));
        let k1 = if bl.len() == 0 { s1 } else { bl.last().left().end as int };
        let k2 = if bl.len() == 0 { s2 } else { bl.last().right().end as int };
        assert(all_fit(bl, h1, h2, o1, o2)) by {
            assert forall|i: int| 0 <= i < bl.len() implies run_fits(#[trigger] bl[i], h1, h2, o1, o2) by {
                assert(bl[i] == runs[i]);
            }
        }
        lemma_tiles_bounds(runs, s1, e1, s2, e2, runs.len() - 1);
        if bl.len() > 0 {
            lemma_tiles_bounds(runs, s1, e1, s2, e2, 0);
            assert(links(runs[runs.len() - 2], runs[runs.len() - 1]));
        }
        lemma_merge_seq(bl, h1, h2, o1, o2, s1, k1, s2, k2);
        let m = merge_seq(bl);
        assert(run_fits(x, h1, h2, o1, o2));
        assert(same_lines(runs) == same_lines(bl) + x.matched());
        if m.len() > 0 && mergeable(m.last(), x) {
            let y = m.last();
            let md = m.drop_last();
            let c = combine(y, x);
            lemma_tiles_prefix(m, s1, k1, s2, k2, m.len() - 1);
            assert(md =~= m.take(m.len() - 1));
            lemma_tiles_bounds(m, s1, k1, s2, k2, m.len() - 1);
            assert(run_fits(y, h1, h2, o1, o2));
            let j1 = if md.len() == 0 { s1 } else { md.last().left().end as int };
            let j2 = if md.len() == 0 { s2 } else { md.last().right().end as int };
            if md.len() > 0 {
                assert(links(m[m.len() - 2], m[m.len() - 1]));
            }
            lemma_tiles_push(md, c, s1, j1, s2, j2);
            assert(md.push(c) == merge_seq(runs));
            if c is Same {
                let a1 = y.left().start - o1;
                let m1 = y.left().end - o1;
                let b1 = x.left().end - o1;
                let a2 = y.right().start - o2;
                let m2 = y.right().end - o2;
                let b2 = x.right().end - o2;
                assert(h1.subrange(a1, b1) =~= h1.subrange(a1, m1) + h1.subrange(m1, b1));
                assert(h2.subrange(a2, b2) =~= h2.subrange(a2, m2) + h2.subrange(m2, b2));
                assert(run_fits(c, h1, h2, o1, o2));
            }
            let r = md.push(c);
            assert forall|i: int| 0 <= i < r.len() implies run_fits(#[trigger] r[i], h1, h2, o1, o2) by {
                if i < md.len() {
                    assert(r[i] == m[i]);
                }
            }
            assert forall|i: int, j: int| 0 <= i && j == i + 1 && j < r.len() implies !mergeable(#[trigger] r[i], #[trigger] r[j]) by {
                assert(r[i] == m[i]);
                if j < md.len() {
                    assert(r[j] == m[j]);
                } else {
                    assert(!mergeable(m[i], m[j]));
                    assert(links(r[i], r[j]));
                }
            }
            assert(same_lines(m) == same_lines(md) + y.matched());
            assert(md =~= r.drop_last());
            if c is Same {
                assert(c.matched() == y.matched() + x.matched());
            }
        } else {
            let r = m.push(x);
            if m.len() > 0 {
                lemma_tiles_bounds(m, s1, k1, s2, k2, m.len() - 1);
            }
            lemma_tiles_push(m, x, s1, k1, s2, k2);
            assert forall|i: int| 0 <= i < r.len() implies run_fits(#[trigger] r[i], h1, h2, o1, o2) by {
                if i < m.len() {
                    assert(r[i] == m[i]);
                }
            }
            assert forall|i: int, j: int| 0 <= i && j == i + 1 && j < r.len() implies !mergeable(#[trigger] r[i], #[trigger] r[j]) by {
                assert(r[i] == m[i]);
                if j < m.len() {
                    assert(r[j] == m[j]);
                }
            }
            assert(m =~= r.drop_last());
        }
    }
}

/// In a tiling without mergeable neighbours the kinds alternate.
pub proof fn lemma_merged_alternates(runs: Seq<LineRange>, s1: int, e1: int, s2: int, e2: int)
    requires
        tiles(runs, s1, e1, s2, e2),
        fully_merged(runs),
    ensures
        alternates(runs),
{
    assert forall|i: int, j: int| 0 <= i && j == i + 1 && j < runs.len() implies ((#[trigger] runs[i]) is Same) != ((#[trigger] runs[j]) is Same) by {
        assert(links(runs[i], runs[j]));
        assert(!mergeable(runs[i], runs[j]));
    }
}

/// Appending a consistent run keeps every run consistent and adds its
/// matched lines to the count.
pub proof fn lemma_fit_push(runs: Seq<LineRange>, x: LineRange, h1: Seq<u64>, h2: Seq<u64>, o1: int, o2: int)
    requires
        all_fit(runs, h1, h2, o1, o2),
        run_fits(x, h1, h2, o1, o2),
    ensures
        all_fit(runs.push(x), h1, h2, o1, o2),
        same_lines(runs.push(x)) == same_lines(runs) + x.matched(),
{
    let r = runs.push(x);
    assert forall|i: int| 0 <= i < r.len() implies run_fits(#[trigger] r[i], h1, h2, o1, o2) by {
        if i < runs.len() {
            assert(r[i] == runs[i]);
        }
    }
    assert(r.drop_last() =~= runs);
}

/// Concatenating consistent runs keeps them consistent.
pub proof fn lemma_fit_concat(a: Seq<LineRange>, b: Seq<LineRange>, h1: Seq<u64>, h2: Seq<u64>, o1: int, o2: int)
    requires
        all_fit(a, h1, h2, o1, o2),
        all_fit(b, h1, h2, o1, o2),
    ensures
        all_fit(a + b, h1, h2, o1, o2),
{
    let r = a + b;
    assert forall|i: int| 0 <= i < r.len() implies run_fits(#[trigger] r[i], h1, h2, o1, o2) by {
        if i < a.len() {
            assert(r[i] == a[i]);
        } else {
            assert(r[i] == b[i - a.len()]);
        }
    }
}

/// A one-line `Same` run at two positions that hold equal hashes is consistent.
pub proof fn lemma_fits_single(h1: Seq<u64>, h2: Seq<u64>, o1: int, o2: int, i: int, j: int)
    requires
        0 <= i < h1.len(),
        0 <= j < h2.len(),
        h1[i] == h2[j],
        0 <= o1 + i,
        o1 + i + 1 <= usize::MAX,
        0 <= o2 + j,
        o2 + j + 1 <= usize::MAX,
    ensures
        run_fits(
            LineRange::Same {
                r1: Range { start: (o1 + i) as usize, end: (o1 + i + 1) as usize },
                r2: Range { start: (o2 + j) as usize, end: (o2 + j + 1) as usize },
            },
            h1,
            h2,
            o1,
            o2,
        ),
{
    assert(h1.subrange(i, i + 1) =~= h2.subrange(j, j + 1));
}

/// An alternating alignment of two non-empty sequences without a single
/// pair of equal hashes is one `Diff` run that covers both.
pub proof fn lemma_disjoint_alignment(runs: Seq<LineRange>, h1: Seq<u64>, h2: Seq<u64>, o1: int, o2: int)
    requires
        aligns(runs, h1, h2, o1, o2),
        alternates(runs),
        h1.len() > 0 || h2.len() > 0,
        forall|i: int, j: int| 0 <= i < h1.len() && 0 <= j < h2.len() ==> h1[i] != h2[j],
    ensures
        runs.len() == 1,
        runs[0] == (LineRange::Diff {
            r1: Range { start: o1 as usize, end: (o1 + h1.len()) as usize },
            r2: Range { start: o2 as usize, end: (o2 + h2.len()) as usize },
        }),
{
    let e1 = o1 + h1.len();
    let e2 = o2 + h2.len();
    assert forall|i: int| 0 <= i < runs.len() implies !(#[trigger] runs[i] is Same) by {
        lemma_tiles_bounds(runs, o1, e1, o2, e2, i);
        if runs[i] is Same {
            let r1 = runs[i].left();
            let r2 = runs[i].right();
            assert(run_fits(runs[i], h1, h2, o1, o2));
            assert(h1.subrange(r1.start - o1, r1.end - o1)[0] == h1[r1.start - o1]);
            assert(h2.subrange(r2.start - o2, r2.end - o2)[0] == h2[r2.start - o2]);
        }
    }
    if runs.len() > 1 {
        assert(!(runs[0] is Same) && !(runs[1] is Same));
    }
    assert(runs.len() == 1);
    assert(run_fits(runs[0], h1, h2, o1, o2));
}

/// A `Same` run that covers both sequences whole is the only run of an
/// alignment that starts with it.
pub proof fn lemma_full_first_run(runs: Seq<LineRange>, h1: Seq<u64>, h2: Seq<u64>, o1: int, o2: int)
    requires
        aligns(runs, h1, h2, o1, o2),
        runs.len() > 0,
        runs[0].left().end == o1 + h1.len(),
        runs[0].right().end == o2 + h2.len(),
    ensures
        runs == seq![runs[0]],
{
    let e1 = o1 + h1.len();
    let e2 = o2 + h2.len();
    if runs.len() > 1 {
        assert(links(runs[0], runs[1]));
        lemma_tiles_bounds(runs, o1, e1, o2, e2, 1);
        assert(run_fits(runs[1], h1, h2, o1, o2));
    }
    assert(runs =~= seq![runs[0]]);
}

/// Merging leaves no two consecutive runs mergeable, whatever the runs.
pub proof fn lemma_merge_seq_merged(runs: Seq<LineRange>)
    ensures
        fully_merged(merge_seq(runs)),
    decreases runs.len(),
{
    if runs.len() > 0 {
        let x = runs.last();
        lemma_merge_seq_merged(runs.drop_last());
        let m = merge_seq(runs.drop_last());
        if m.len() > 0 && mergeable(m.last(), x) {
            let md = m.drop_last();
            let r = md.push(combine(m.last(), x));
            assert forall|i: int, j: int| 0 <= i && j == i + 1 && j < r.len() implies !mergeable(#[trigger] r[i], #[trigger] r[j]) by {
                assert(r[i] == m[i]);
                if j < md.len() {
                    assert(r[j] == m[j]);
                } else {
                    assert(!mergeable(m[i], m[j]));
                }
            }
        } else {
            let r = m.push(x);
            assert forall|i: int, j: int| 0 <= i && j == i + 1 && j < r.len() implies !mergeable(#[trigger] r[i], #[trigger] r[j]) by {
                assert(r[i] == m[i]);
                if j < m.len() {
                    assert(r[j] == m[j]);
                }
            }
        }
    }
}

/// Runs without mergeable neighbours are left as they are.
pub proof fn law_merge_keeps_merged(runs: Seq<LineRange>)
    requires
        fully_merged(runs),
    ensures
        merge_seq(runs) == runs,
    decreases runs.len(),
{
    if runs.len() > 0 {
        let d = runs.drop_last();
        assert(fully_merged(d)) by {
            assert forall|i: int, j: int| 0 <= i && j == i + 1 && j < d.len() implies !mergeable(#[trigger] d[i], #[trigger] d[j]) by {
                assert(d[i] == runs[i] && d[j] == runs[j]);
            }
        }
        law_merge_keeps_merged(d);
        if d.len() > 0 {
            assert(!mergeable(runs[runs.len() - 2], runs[runs.len() - 1]));
        }
        assert(d.push(runs.last()) =~= runs);
    }
}

/// Merging twice merges no more than merging once.
pub proof fn law_merge_idempotent(runs: Seq<LineRange>)
    ensures
        merge_seq(merge_seq(runs)) == merge_seq(runs),
{
    lemma_merge_seq_merged(runs);
    law_merge_keeps_merged(merge_seq(runs));
}


/// Every run's ranges run forward: start no later than end.
pub open spec fn forward(runs: Seq<LineRange>) -> bool {
    forall|i: int|
        0 <= i < runs.len() ==> (#[trigger] runs[i]).left().start <= runs[i].left().end && runs[i].right().start
            <= runs[i].right().end
}

/// Merging runs whose ranges run forward keeps them forward, keeps the number
/// of lines in `Same` runs, and never makes more runs.
pub proof fn law_merge_counts(runs: Seq<LineRange>)
    requires
        forward(runs),
    ensures
        forward(merge_seq(runs)),
        same_lines(merge_seq(runs)) == same_lines(runs),
        merge_seq(runs).len() <= runs.len(),
        runs.len() == 0 <==> merge_seq(runs).len() == 0,
    decreases runs.len(),
{
    if runs.len() > 0 {
        let d = runs.drop_last();
        let x = runs.last();
        assert(forward(d)) by {
            assert forall|i: int| 0 <= i < d.len() implies (#[trigger] d[i]).left().start <= d[i].left().end
                && d[i].right().start <= d[i].right().end by {
                assert(d[i] == runs[i]);
            }
        }
        law_merge_counts(d);
        let m = merge_seq(d);
        assert(x == runs[runs.len() - 1]);
        assert(same_lines(runs) == same_lines(d) + x.matched());
        if m.len() > 0 && mergeable(m.last(), x) {
            let y = m.last();
            let md = m.drop_last();
            let c = combine(y, x);
            let r = md.push(c);
            assert(y == m[m.len() - 1]);
            assert(same_lines(m) == same_lines(md) + y.matched());
            assert(r.drop_last() =~= md);
            assert(same_lines(r) == same_lines(md) + c.matched());
            assert forall|i: int| 0 <= i < r.len() implies (#[trigger] r[i]).left().start <= r[i].left().end
                && r[i].right().start <= r[i].right().end by {
                if i < md.len() {
                    assert(r[i] == m[i]);
                }
            }
        } else {
            let r = m.push(x);
            assert(r.drop_last() =~= m);
            assert forall|i: int| 0 <= i < r.len() implies (#[trigger] r[i]).left().start <= r[i].left().end
                && r[i].right().start <= r[i].right().end by {
                if i < m.len() {
                    assert(r[i] == m[i]);
                }
            }
        }
    }
}


/// The lines in `Same` runs of two lists of runs add up.
pub proof fn lemma_same_lines_concat(a: Seq<LineRange>, b: Seq<LineRange>)
    ensures
        same_lines(a + b) == same_lines(a) + same_lines(b),
    decreases b.len(),
{
    if b.len() == 0 {
        assert(a + b =~= a);
    } else {
        lemma_same_lines_concat(a, b.drop_last());
        assert((a + b).drop_last() =~= a + b.drop_last());
        assert((a + b).last() == b.last());
    }
}

} // verus!
