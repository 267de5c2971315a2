//! Core data structures: line ranges, alignments and compared file pairs.

use vstd::prelude::*;

verus! {

/// A half-open range `[start, end)` of 0-based line indices.
#[derive(Clone, Copy, Debug, PartialEq, Eq, Structural)]
pub struct Range {
    /// First line of the range (inclusive).
    pub start: usize,
    /// One past the last line of the range (exclusive).
    pub end: usize,
}

impl Range {
    /// Number of lines in the range; an inverted range has none.
    pub open spec fn size(self) -> nat {
        if self.start <= self.end {
            (self.end - self.start) as nat
        } else {
            0
        }
    }

    /// Creates the range `[start, end)`.
    pub fn new(start: usize, end: usize) -> (r: Range)
        ensures
            r.start == start,
            r.end == end,
    {
        Range { start, end }
    }

    /// Number of lines in the range (0 when `start > end`).
    pub fn len(&self) -> (n: usize)
        ensures
            n == self.size(),
    {
        if self.start <= self.end {
            self.end - self.start
        } else {
            0
        }
    }

    /// True when the range holds no line.
    pub fn is_empty(&self) -> (b: bool)
        ensures
            b == (self.start >= self.end),
    {
        self.start >= self.end
    }
}

/// One run of a comparison between two files: ranges in the first (`r1`) and
/// second (`r2`) file that are identical (`Same`) or differ (`Diff`).
#[derive(Clone, Copy, Debug, PartialEq, Eq, Structural)]
pub enum LineRange {
    /// Lines that are identical in both files.
    Same { r1: Range, r2: Range },
    /// Lines that differ between the files.
    Diff { r1: Range, r2: Range },
}

impl LineRange {
    /// The range in the first file.
    pub open spec fn left(self) -> Range {
        match self {
            LineRange::Same { r1, .. } => r1,
            LineRange::Diff { r1, .. } => r1,
        }
    }

    /// The range in the second file.
    pub open spec fn right(self) -> Range {
        match self {
            LineRange::Same { r2, .. } => r2,
            LineRange::Diff { r2, .. } => r2,
        }
    }

    /// Number of matching lines the run stands for.
    pub open spec fn matched(self) -> nat {
        match self {
            LineRange::Same { r1, .. } => r1.size(),
            LineRange::Diff { .. } => 0,
        }
    }

    /// True for a `Same` run.
    pub fn is_same(&self) -> (b: bool)
        ensures
            b == (*self is Same),
    {
        match self {
            LineRange::Same { .. } => true,
            LineRange::Diff { .. } => false,
        }
    }

    /// Length of a `Same` run, 0 for a `Diff` run.
    pub fn match_len(&self) -> (n: usize)
        ensures
            n == self.matched(),
    {
        match self {
            LineRange::Same { r1, .. } => r1.len(),
            LineRange::Diff { .. } => 0,
        }
    }

    /// The range in the first file.
    pub fn r1(&self) -> (r: &Range)
        ensures
            *r == self.left(),
    {
        match self {
            LineRange::Same { r1, .. } => r1,
            LineRange::Diff { r1, .. } => r1,
        }
    }

    /// The range in the second file.
    pub fn r2(&self) -> (r: &Range)
        ensures
            *r == self.right(),
    {
        match self {
            LineRange::Same { r2, .. } => r2,
            LineRange::Diff { r2, .. } => r2,
        }
    }
}

/// A file's content: its path, one hash per (normalized) line, and the lines.
#[derive(Debug)]
pub struct FileDescription {
    /// Path of the source file.
    pub filename: String,
    /// Hash of each line.
    pub hashes: Vec<u64>,
    /// Original line content, for display.
    pub lines: Vec<String>,
}

impl FileDescription {
    /// Number of lines of the file.
    pub fn len(&self) -> (n: usize)
        ensures
            n == self.hashes@.len(),
    {
        self.hashes.len()
    }

    /// True when the file has no line.
    pub fn is_empty(&self) -> (b: bool)
        ensures
            b == (self.hashes@.len() == 0),
    {
        self.hashes.len() == 0
    }
}

/// A `Same` run at least `min_match` lines long.
pub open spec fn is_significant(lr: LineRange, min_match: usize) -> bool {
    lr is Same && lr.matched() >= min_match
}

/// The result of comparing two files: the runs that align them.
#[derive(Debug)]
pub struct ComparisonResult<'a> {
    /// The first file.
    pub f1: &'a FileDescription,
    /// The second file.
    pub f2: &'a FileDescription,
    /// Runs of identical and differing lines, in file order.
    pub runs: Vec<LineRange>,
}

impl<'a> ComparisonResult<'a> {
    /// The runs that `significant_matches` keeps, in order.
    pub open spec fn significant(self, min_match: usize) -> Seq<LineRange> {
        self.runs@.filter(|lr: LineRange| is_significant(lr, min_match))
    }

    /// The `Same` runs of at least `min_match` lines, in order.
    pub fn significant_matches(&self, min_match: usize) -> (res: Vec<LineRange>)
        ensures
            res@ == self.significant(min_match),
    {
        let ghost pred = |lr: LineRange| is_significant(lr, min_match);
        let mut res: Vec<LineRange> = Vec::new();
        let n = self.runs.len();
        for i in 0..n
            invariant
                n == self.runs@.len(),
                pred == (|lr: LineRange| is_significant(lr, min_match)),
                res@ == self.runs@.take(i as int).filter(pred),
        {
            reveal(Seq::filter);
            assert(self.runs@.take(i + 1).drop_last() =~= self.runs@.take(i as int));
            let lr = self.runs[i];
            assert(self.runs@.take(i + 1).last() == lr);
            if lr.is_same() && lr.match_len() >= min_match {
                res.push(lr);
            }
        }
        assert(self.runs@.take(n as int) =~= self.runs@);
        res
    }

    /// Some `Same` run is at least `min_match` lines long.
    pub open spec fn has_significant(self, min_match: usize) -> bool {
        exists|i: int| 0 <= i < self.runs@.len() && is_significant(#[trigger] self.runs@[i], min_match)
    }

    /// True when some `Same` run is at least `min_match` lines long.
    pub fn has_significant_matches(&self, min_match: usize) -> (b: bool)
        ensures
            b == self.has_significant(min_match),
    {
        let n = self.runs.len();
        for i in 0..n
            invariant
                n == self.runs@.len(),
                forall|j: int| 0 <= j < i ==> !is_significant(#[trigger] self.runs@[j], min_match),
        {
            let lr = self.runs[i];
            if lr.is_same() && lr.match_len() >= min_match {
                return true;
            }
        }
        false
    }
}

/// True when some comparison has a `Same` run of at least `min_match` lines:
/// duplicate code was found.
pub fn any_significant(results: &[ComparisonResult<'_>], min_match: usize) -> (b: bool)
    ensures
        b == exists|k: int| 0 <= k < results@.len() && (#[trigger] results@[k]).has_significant(min_match),
{
    let n = results.len();
    for k in 0..n
        invariant
            n == results@.len(),
            forall|j: int| 0 <= j < k ==> !(#[trigger] results@[j]).has_significant(min_match),
    {
        if results[k].has_significant_matches(min_match) {
            return true;
        }
    }
    false
}


/// Duplicate code is found in a comparison exactly when it keeps some match:
/// `has_significant` holds exactly when `significant` (the `Same` runs of at
/// least `min_match` lines, wherever they stand) is not empty.
pub proof fn law_has_significant_iff_some_match<'a>(r: ComparisonResult<'a>, min_match: usize)
    ensures
        r.has_significant(min_match) == (r.significant(min_match).len() > 0),
        forall|i: int|
            0 <= i < r.runs@.len() && r.runs@[i] is Same && r.runs@[i].matched() >= min_match ==> r.has_significant(
                min_match,
            ),
{
    let pred = |lr: LineRange| is_significant(lr, min_match);
    let s = r.runs@;
    if r.has_significant(min_match) {
        let i = choose|i: int| 0 <= i < s.len() && is_significant(#[trigger] s[i], min_match);
        s.lemma_filter_contains(pred, i);
    }
    if s.filter(pred).len() > 0 {
        s.lemma_filter_pred(pred, 0);
        assert(s.filter(pred).contains(s.filter(pred)[0]));
        s.lemma_filter_contains_rev(pred, s.filter(pred)[0]);
        let i = choose|i: int| 0 <= i < s.len() && s[i] == s.filter(pred)[0];
        assert(is_significant(s[i], min_match));
    }
    assert forall|i: int|
        0 <= i < s.len() && s[i] is Same && s[i].matched() >= min_match implies r.has_significant(min_match) by {
        assert(is_significant(s[i], min_match));
    }
}

} // verus!
