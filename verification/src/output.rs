//! Reports of the duplicates found: human-readable text, and the values that
//! make up the JSON report.

use vstd::prelude::*;
use vstd::string::StringExecFns;

use crate::align::same_lines;
use crate::cli::{regex_is_match, regex_matches, LineFilter};
use crate::text::{decimal, decimal_string, push_decimal, push_right_aligned, right_aligned};
use crate::types::{ComparisonResult, LineRange, Range};

verus! {

/// Range information for JSON output (1-based line numbers for user display).
#[derive(Clone, Copy, Debug, PartialEq, Eq, Structural)]
pub struct RangeInfo {
    /// First line, 1-based.
    pub start: usize,
    /// Last line, 1-based (inclusive).
    pub end: usize,
}

/// The 1-based display of a 0-based half-open range.
pub open spec fn range_info(r: Range) -> RangeInfo {
    RangeInfo { start: if r.start < usize::MAX { (r.start + 1) as usize } else { r.start }, end: r.end }
}

impl From<&Range> for RangeInfo {
    /// Converts to 1-based line numbers for display.
    fn from(r: &Range) -> (info: RangeInfo) {
        RangeInfo { start: r.start.saturating_add(1), end: r.end }
    }
}

impl vstd::std_specs::convert::FromSpecImpl<&Range> for RangeInfo {
    open spec fn obeys_from_spec() -> bool {
        true
    }

    open spec fn from_spec(r: &Range) -> RangeInfo {
        range_info(*r)
    }
}

/// A single match between two files for JSON output.
#[derive(Debug)]
pub struct MatchInfo {
    /// Number of matching lines.
    pub lines: usize,
    /// Where the match lies in the first file.
    pub file1_range: RangeInfo,
    /// Where the match lies in the second file.
    pub file2_range: RangeInfo,
    /// The matching lines, in verbose output.
    pub content: Option<Vec<String>>,
}

/// A duplicate found between two files for JSON output.
#[derive(Debug)]
pub struct DuplicateInfo {
    /// Path of the first file.
    pub file1: String,
    /// Path of the second file.
    pub file2: String,
    /// The reported matches between the two files.
    pub matches: Vec<MatchInfo>,
}

/// Summary statistics for JSON output.
#[derive(Clone, Copy, Debug, PartialEq, Eq, Structural)]
pub struct Summary {
    /// Number of files analyzed.
    pub files_analyzed: usize,
    /// Number of file pairs compared.
    pub pairs_compared: usize,
    /// Number of file pairs with reported matches.
    pub duplicates_found: usize,
    /// Number of lines in reported matches.
    pub total_duplicate_lines: usize,
}

/// Complete JSON output structure.
#[derive(Debug)]
pub struct JsonOutput {
    /// Version of the tool that made the report.
    pub version: String,
    /// Summary statistics.
    pub summary: Summary,
    /// File pairs with reported matches.
    pub duplicates: Vec<DuplicateInfo>,
}

/// The final component of the path `path`, as `std::path::Path::file_name`
/// gives it (converted lossily to text), or empty when there is none.
pub uninterp spec fn path_file_name(path: Seq<char>) -> Seq<char>;

/// Calls `std::path::Path::file_name` on `path`. The contract claims only
/// that the result is `path_file_name` of the path, a function of the path
/// alone.
#[verifier::external_body]
fn file_name_of(path: &str) -> (r: String)
    ensures
        r@ == path_file_name(path@),
{
    std::path::Path::new(path).file_name().unwrap_or_default().to_string_lossy().into_owned()
}

/// The pattern of an optional line filter.
pub open spec fn filter_pattern(filter: Option<&LineFilter>) -> Option<Seq<char>> {
    match filter {
        Some(f) => Some(f@),
        None => None,
    }
}

/// A match passes the filter when there is none, or when the filter's
/// expression matches the first line of the match in the first file.
pub open spec fn passes(filter: Option<Seq<char>>, lines: Seq<String>, lr: LineRange) -> bool {
    match filter {
        None => true,
        Some(p) => lr.left().start < lines.len() && regex_matches(p, lines[lr.left().start as int]@),
    }
}

/// The matches of a comparison that get reported: its significant `Same`
/// runs that pass the filter, in order.
pub open spec fn kept<'a>(r: ComparisonResult<'a>, min_match: usize, filter: Option<Seq<char>>) -> Seq<LineRange> {
    r.significant(min_match).filter(|lr: LineRange| passes(filter, r.f1.lines@, lr))
}

/// Number of matches reported over all comparisons.
pub open spec fn kept_count<'a>(results: Seq<ComparisonResult<'a>>, min_match: usize, filter: Option<Seq<char>>) -> nat
    decreases results.len(),
{
    if results.len() == 0 {
        0
    } else {
        kept_count(results.drop_last(), min_match, filter) + kept(results.last(), min_match, filter).len()
    }
}

/// With a filter, a match is reported exactly when its first line in the
/// first file matches the filter's expression: every reported match starts
/// with such a line, whatever its other lines are, and every significant match
/// that starts with one is reported. Without a filter every significant match
/// is reported.
pub proof fn law_filter_first_line<'a>(r: ComparisonResult<'a>, min_match: usize, p: Seq<char>)
    ensures
        forall|i: int|
            0 <= i < kept(r, min_match, Some(p)).len() ==> {
                let lr = #[trigger] kept(r, min_match, Some(p))[i];
                lr.left().start < r.f1.lines@.len() && regex_matches(p, r.f1.lines@[lr.left().start as int]@)
            },
        forall|i: int|
            0 <= i < r.significant(min_match).len() && (#[trigger] r.significant(min_match)[i]).left().start
                < r.f1.lines@.len() && regex_matches(p, r.f1.lines@[r.significant(min_match)[i].left().start as int]@)
                ==> kept(r, min_match, Some(p)).contains(r.significant(min_match)[i]),
        kept(r, min_match, None) == r.significant(min_match),
{
    let sig = r.significant(min_match);
    let pred = |lr: LineRange| passes(Some(p), r.f1.lines@, lr);
    assert forall|i: int| 0 <= i < kept(r, min_match, Some(p)).len() implies {
        let lr = #[trigger] kept(r, min_match, Some(p))[i];
        lr.left().start < r.f1.lines@.len() && regex_matches(p, r.f1.lines@[lr.left().start as int]@)
    } by {
        sig.lemma_filter_pred(pred, i);
    }
    assert forall|i: int|
        0 <= i < sig.len() && (#[trigger] sig[i]).left().start < r.f1.lines@.len() && regex_matches(
            p,
            r.f1.lines@[sig[i].left().start as int]@,
        ) implies kept(r, min_match, Some(p)).contains(sig[i]) by {
        sig.lemma_filter_contains(pred, i);
    }
    lemma_filter_all(sig, |lr: LineRange| passes(None, r.f1.lines@, lr));
}

/// Keeping what every element passes keeps everything.
proof fn lemma_filter_all(s: Seq<LineRange>, pred: spec_fn(LineRange) -> bool)
    requires
        forall|x: LineRange| #[trigger] pred(x),
    ensures
        s.filter(pred) == s,
    decreases s.len(),
{
    reveal(Seq::filter);
    if s.len() > 0 {
        lemma_filter_all(s.drop_last(), pred);
        assert(s.drop_last().push(s.last()) =~= s);
    } else {
        assert(s.filter(pred) =~= s);
    }
}

/// Number of duplicated lines reported over all comparisons.
pub open spec fn kept_lines<'a>(results: Seq<ComparisonResult<'a>>, min_match: usize, filter: Option<Seq<char>>) -> nat
    decreases results.len(),
{
    if results.len() == 0 {
        0
    } else {
        kept_lines(results.drop_last(), min_match, filter) + same_lines(kept(results.last(), min_match, filter))
    }
}

/// The summary counts every reported match once: the number of duplicate
/// regions of one comparison is the number of matches it reports, and the
/// counts of two lists of comparisons add up; the same holds of the number
/// of duplicated lines, which adds up the lines of every reported match.
pub proof fn law_report_totals_add<'a>(
    a: Seq<ComparisonResult<'a>>,
    b: Seq<ComparisonResult<'a>>,
    r: ComparisonResult<'a>,
    min_match: usize,
    filter: Option<Seq<char>>,
)
    ensures
        kept_count(seq![r], min_match, filter) == kept(r, min_match, filter).len(),
        kept_lines(seq![r], min_match, filter) == same_lines(kept(r, min_match, filter)),
        kept_count(a + b, min_match, filter) == kept_count(a, min_match, filter) + kept_count(b, min_match, filter),
        kept_lines(a + b, min_match, filter) == kept_lines(a, min_match, filter) + kept_lines(b, min_match, filter),
    decreases b.len(),
{
    let one = seq![r];
    assert(one.drop_last() =~= Seq::<ComparisonResult<'a>>::empty());
    assert(one.last() == r);
    assert(kept_count(one.drop_last(), min_match, filter) == 0);
    assert(kept_lines(one.drop_last(), min_match, filter) == 0);
    if b.len() == 0 {
        assert(a + b =~= a);
    } else {
        law_report_totals_add(a, b.drop_last(), r, min_match, filter);
        assert((a + b).drop_last() =~= a + b.drop_last());
        assert((a + b).last() == b.last());
    }
}

/// The line numbers of a run can be shown: the first lines of both ranges
/// have a successor, and so does every line of the second range that pairs
/// with a line of the first.
pub open spec fn shows_line_numbers(lr: LineRange) -> bool {
    &&& lr.left().start < usize::MAX
    &&& lr.right().start + lr.left().size() < usize::MAX
}

/// The two lines that announce a match.
pub open spec fn match_header<'a>(r: ComparisonResult<'a>, lr: LineRange) -> Seq<char> {
    let r1 = lr.left();
    let r2 = lr.right();
    "Files: "@ + r.f1.filename@ + " <-> "@ + r.f2.filename@ + "\n"@ + "Match: "@ + decimal(r1.size()) + " lines ("@
        + path_file_name(r.f1.filename@) + ":"@ + decimal((r1.start + 1) as nat) + "-"@ + decimal(r1.end as nat) + ", "@
        + path_file_name(r.f2.filename@) + ":"@ + decimal((r2.start + 1) as nat) + "-"@ + decimal(r2.end as nat) + ")\n"@
}

/// One line of a listing: both (1-based) line numbers, then the content.
pub open spec fn listing_row(i: nat, j: nat, line: Seq<char>) -> Seq<char> {
    "  "@ + right_aligned(decimal(i + 1), 4) + " | "@ + right_aligned(decimal(j + 1), 4) + " | "@ + line + "\n"@
}

/// The rows for the lines `s1..e` of the first file that exist, the line
/// `i` paired with the line `s2 + (i - s1)` of the second file.
pub open spec fn listing(lines: Seq<String>, s1: int, e: int, s2: int) -> Seq<char>
    decreases e - s1,
{
    if e <= s1 {
        Seq::empty()
    } else {
        let i = e - 1;
        listing(lines, s1, e - 1, s2) + if i < lines.len() {
            listing_row(i as nat, (s2 + (i - s1)) as nat, lines[i]@)
        } else {
            Seq::empty()
        }
    }
}

/// The text of one reported match.
pub open spec fn match_block<'a>(r: ComparisonResult<'a>, lr: LineRange, verbose: bool) -> Seq<char> {
    if verbose {
        match_header(r, lr) + "\n"@ + listing(r.f1.lines@, lr.left().start as int, lr.left().end as int, lr.right().start as int)
            + "\n---\n\n"@
    } else {
        match_header(r, lr) + "\n---\n\n"@
    }
}

/// The texts of the matches `ms` of the comparison `r`.
pub open spec fn match_blocks<'a>(r: ComparisonResult<'a>, ms: Seq<LineRange>, verbose: bool) -> Seq<char>
    decreases ms.len(),
{
    if ms.len() == 0 {
        Seq::empty()
    } else {
        match_blocks(r, ms.drop_last(), verbose) + match_block(r, ms.last(), verbose)
    }
}

/// The texts of all reported matches, comparison after comparison.
pub open spec fn report_blocks<'a>(
    results: Seq<ComparisonResult<'a>>,
    min_match: usize,
    verbose: bool,
    filter: Option<Seq<char>>,
) -> Seq<char>
    decreases results.len(),
{
    if results.len() == 0 {
        Seq::empty()
    } else {
        report_blocks(results.drop_last(), min_match, verbose, filter) + match_blocks(
            results.last(),
            kept(results.last(), min_match, filter),
            verbose,
        )
    }
}

/// The whole text report.
pub open spec fn text_report<'a>(
    results: Seq<ComparisonResult<'a>>,
    min_match: usize,
    verbose: bool,
    files_count: usize,
    pairs_count: usize,
    filter: Option<Seq<char>>,
) -> Seq<char> {
    let count = kept_count(results, min_match, filter);
    if count == 0 {
        "No duplicate code found.\n"@
    } else {
        "=== Duplicate Code Found ===\n\n"@ + report_blocks(results, min_match, verbose, filter) + "Summary: "@
            + decimal(files_count as nat) + " files analyzed, "@ + decimal(pairs_count as nat) + " pairs compared, "@
            + decimal(count) + " duplicate regions ("@ + decimal(kept_lines(results, min_match, filter)) + " lines)\n"@
    }
}

/// One row of a listing.
fn listing_row_string(i: usize, j: usize, line: &str) -> (row: String)
    requires
        i < usize::MAX,
        j < usize::MAX,
    ensures
        row@ == listing_row(i as nat, j as nat, line@),
{
    let mut row = String::from_str("  ");
    push_right_aligned(&mut row, decimal_string(i + 1).as_str(), 4);
    row.append(" | ");
    push_right_aligned(&mut row, decimal_string(j + 1).as_str(), 4);
    row.append(" | ");
    row.append(line);
    row.append("\n");
    row
}

/// The listing of the lines of `r1` that exist in `lines`, paired with the
/// lines of the second file from `r2.start` on.
fn listing_string(lines: &Vec<String>, r1: Range, r2: Range) -> (text: String)
    requires
        r2.start + r1.size() < usize::MAX,
    ensures
        text@ == listing(lines@, r1.start as int, r1.end as int, r2.start as int),
{
    let mut text = String::new();
    let mut i = r1.start;
    if r1.start < r1.end {
        while i < r1.end
            invariant
                r1.start <= i <= r1.end,
                r2.start + (r1.end - r1.start) < usize::MAX,
                text@ == listing(lines@, r1.start as int, i as int, r2.start as int),
            decreases r1.end - i,
        {
            if i < lines.len() {
                let j = r2.start + (i - r1.start);
                let row = listing_row_string(i, j, lines[i].as_str());
                text.append(row.as_str());
            }
            i += 1;
        }
    }
    text
}

/// The two lines that announce a match.
fn match_header_string(r: &ComparisonResult, lr: LineRange) -> (s: String)
    requires
        shows_line_numbers(lr),
    ensures
        s@ == match_header(*r, lr),
{
    let r1 = *lr.r1();
    let r2 = *lr.r2();
    let mut s = String::from_str("Files: ");
    s.append(r.f1.filename.as_str());
    s.append(" <-> ");
    s.append(r.f2.filename.as_str());
    s.append("\n");
    s.append("Match: ");
    push_decimal(&mut s, r1.len());
    s.append(" lines (");
    s.append(file_name_of(r.f1.filename.as_str()).as_str());
    s.append(":");
    push_decimal(&mut s, r1.start + 1);
    s.append("-");
    push_decimal(&mut s, r1.end);
    s.append(", ");
    s.append(file_name_of(r.f2.filename.as_str()).as_str());
    s.append(":");
    push_decimal(&mut s, r2.start + 1);
    s.append("-");
    push_decimal(&mut s, r2.end);
    s.append(")\n");
    s
}

/// The text of one reported match.
fn match_block_string(r: &ComparisonResult, lr: LineRange, verbose: bool) -> (s: String)
    requires
        shows_line_numbers(lr),
    ensures
        s@ == match_block(*r, lr, verbose),
{
    let mut s = match_header_string(r, lr);
    if verbose {
        s.append("\n");
        let listing = listing_string(&r.f1.lines, *lr.r1(), *lr.r2());
        s.append(listing.as_str());
    }
    s.append("\n---\n\n");
    s
}

/// Whether a match passes the filter.
fn passes_filter(filter: Option<&LineFilter>, lines: &Vec<String>, lr: LineRange) -> (b: bool)
    ensures
        b == passes(filter_pattern(filter), lines@, lr),
{
    match filter {
        None => true,
        Some(f) => {
            let first = lr.r1().start;
            if first < lines.len() {
                regex_is_match(f, lines[first].as_str())
            } else {
                false
            }
        },
    }
}

/// A prefix has no more matched lines than the whole.
proof fn lemma_same_lines_take(s: Seq<LineRange>, k: int)
    requires
        0 <= k <= s.len(),
    ensures
        same_lines(s.take(k)) <= same_lines(s),
    decreases s.len() - k,
{
    if k < s.len() {
        lemma_same_lines_take(s, k + 1);
        assert(s.take(k + 1).drop_last() =~= s.take(k));
    } else {
        assert(s.take(k) =~= s);
    }
}

/// Keeping the runs of a prefix gives a prefix of the kept runs.
proof fn lemma_filter_prefix(s: Seq<LineRange>, k: int, pred: spec_fn(LineRange) -> bool)
    requires
        0 <= k <= s.len(),
    ensures
        s.take(k).filter(pred).len() <= s.filter(pred).len(),
        s.take(k).filter(pred) == s.filter(pred).take(s.take(k).filter(pred).len() as int),
{
    assert(s =~= s.take(k) + s.skip(k));
    Seq::filter_distributes_over_add(s.take(k), s.skip(k), pred);
    let a = s.take(k).filter(pred);
    assert((a + s.skip(k).filter(pred)).take(a.len() as int) =~= a);
}

/// The text, count and matched lines of the reported matches of one comparison.
fn result_report(r: &ComparisonResult, min_match: usize, verbose: bool, filter: Option<&LineFilter>) -> (res: (String, usize, usize))
    requires
        forall|i: int|
            0 <= i < kept(*r, min_match, filter_pattern(filter)).len() ==> shows_line_numbers(
                #[trigger] kept(*r, min_match, filter_pattern(filter))[i],
            ),
        same_lines(kept(*r, min_match, filter_pattern(filter))) <= usize::MAX,
    ensures
        res.0@ == match_blocks(*r, kept(*r, min_match, filter_pattern(filter)), verbose),
        res.1 == kept(*r, min_match, filter_pattern(filter)).len(),
        res.2 == same_lines(kept(*r, min_match, filter_pattern(filter))),
{
    let ghost pred = |lr: LineRange| passes(filter_pattern(filter), r.f1.lines@, lr);
    let matches = r.significant_matches(min_match);
    let ghost sig = matches@;
    let mut text = String::new();
    let mut count: usize = 0;
    let mut lines: usize = 0;
    let n = matches.len();
    let mut mi: usize = 0;
    while mi < n
        invariant
            sig == matches@,
            sig == r.significant(min_match),
            n == sig.len(),
            mi <= n,
            pred == (|lr: LineRange| passes(filter_pattern(filter), r.f1.lines@, lr)),
            forall|i: int| 0 <= i < sig.filter(pred).len() ==> shows_line_numbers(#[trigger] sig.filter(pred)[i]),
            same_lines(sig.filter(pred)) <= usize::MAX,
            sig.filter(pred) == kept(*r, min_match, filter_pattern(filter)),
            text@ == match_blocks(*r, sig.take(mi as int).filter(pred), verbose),
            count == sig.take(mi as int).filter(pred).len(),
            lines == same_lines(sig.take(mi as int).filter(pred)),
        decreases n - mi,
    {
        reveal(Seq::filter);
        let m = matches[mi];
        let ghost before = sig.take(mi as int).filter(pred);
        assert(sig.take(mi + 1).drop_last() =~= sig.take(mi as int));
        assert(sig.take(mi + 1).last() == m);
        proof {
            lemma_filter_prefix(sig, mi + 1, pred);
            lemma_same_lines_take(sig.filter(pred), sig.take(mi + 1).filter(pred).len() as int);
        }
        if passes_filter(filter, &r.f1.lines, m) {
            let ghost after = before.push(m);
            assert(sig.take(mi + 1).filter(pred) == after);
            assert(after.drop_last() =~= before);
            assert(m is Same);
            assert(m == sig.filter(pred)[after.len() - 1]);
            let block = match_block_string(r, m, verbose);
            text.append(block.as_str());
            count += 1;
            lines += m.match_len();
        }
        mi += 1;
    }
    assert(sig.take(n as int) =~= sig);
    (text, count, lines)
}

/// The text report can be written: the line numbers of every reported match
/// can be shown, and the totals fit in a `usize`.
pub open spec fn text_report_fits<'a>(results: Seq<ComparisonResult<'a>>, min_match: usize, filter: Option<Seq<char>>) -> bool {
    &&& forall|k: int, i: int|
        0 <= k < results.len() && 0 <= i < kept(results[k], min_match, filter).len() ==> shows_line_numbers(
            #[trigger] kept(results[k], min_match, filter)[i],
        )
    &&& kept_count(results, min_match, filter) <= usize::MAX
    &&& kept_lines(results, min_match, filter) <= usize::MAX
}

/// Formats results as human-readable text. `filter`, when given, keeps only
/// the matches whose first line it matches.
pub fn format_text(
    results: &[ComparisonResult<'_>],
    min_match: usize,
    verbose: bool,
    files_count: usize,
    pairs_count: usize,
    filter: Option<&LineFilter>,
) -> (output: String)
    requires
        text_report_fits(results@, min_match, filter_pattern(filter)),
    ensures
        output@ == text_report(results@, min_match, verbose, files_count, pairs_count, filter_pattern(filter)),
{
    let ghost fp = filter_pattern(filter);
    let mut matches_output = String::new();
    let mut total_duplicate_lines: usize = 0;
    let mut total_matches: usize = 0;
    let n = results.len();
    let mut ri: usize = 0;
    while ri < n
        invariant
            n == results@.len(),
            ri <= n,
            fp == filter_pattern(filter),
            text_report_fits(results@, min_match, fp),
            matches_output@ == report_blocks(results@.take(ri as int), min_match, verbose, fp),
            total_matches == kept_count(results@.take(ri as int), min_match, fp),
            total_duplicate_lines == kept_lines(results@.take(ri as int), min_match, fp),
        decreases n - ri,
    {
        let result = &results[ri];
        proof {
            assert(results@.take(ri + 1).drop_last() =~= results@.take(ri as int));
            assert(results@.take(ri + 1).last() == *result);
            lemma_report_totals(results@, min_match, fp, ri + 1);
            assert(results@[ri as int] == *result);
        }
        let (text, count, lines) = result_report(result, min_match, verbose, filter);
        matches_output.append(text.as_str());
        total_matches += count;
        total_duplicate_lines += lines;
        ri += 1;
    }
    assert(results@.take(n as int) =~= results@);
    if total_matches == 0 {
        return String::from_str("No duplicate code found.\n");
    }
    let mut output = String::from_str("=== Duplicate Code Found ===\n\n");
    output.append(matches_output.as_str());
    output.append("Summary: ");
    push_decimal(&mut output, files_count);
    output.append(" files analyzed, ");
    push_decimal(&mut output, pairs_count);
    output.append(" pairs compared, ");
    push_decimal(&mut output, total_matches);
    output.append(" duplicate regions (");
    push_decimal(&mut output, total_duplicate_lines);
    output.append(" lines)\n");
    output
}

/// The totals over a prefix of the comparisons stay below the totals over
/// all of them, and so do the lines kept of each comparison.
proof fn lemma_report_totals<'a>(results: Seq<ComparisonResult<'a>>, min_match: usize, fp: Option<Seq<char>>, k: int)
    requires
        0 <= k <= results.len(),
    ensures
        kept_count(results.take(k), min_match, fp) <= kept_count(results, min_match, fp),
        kept_lines(results.take(k), min_match, fp) <= kept_lines(results, min_match, fp),
        k > 0 ==> same_lines(kept(results[k - 1], min_match, fp)) <= kept_lines(results, min_match, fp),
    decreases results.len(),
{
    if results.len() > 0 {
        let d = results.drop_last();
        if k < results.len() {
            assert(results.take(k) =~= d.take(k));
            lemma_report_totals(d, min_match, fp, k);
            if k > 0 {
                assert(results[k - 1] == d[k - 1]);
            }
        } else {
            assert(results.take(k) =~= results);
            lemma_report_totals(d, min_match, fp, d.len() as int);
            assert(d.take(d.len() as int) =~= d);
        }
    }
}

/// The views of a sequence of strings.
pub open spec fn texts(v: Seq<String>) -> Seq<Seq<char>> {
    v.map_values(|x: String| x@)
}

/// `mi` reports the match `lr`, whose first file has the lines `lines`.
pub open spec fn describes_match(mi: MatchInfo, lr: LineRange, lines: Seq<String>, verbose: bool) -> bool {
    &&& mi.lines == lr.left().size()
    &&& mi.file1_range == range_info(lr.left())
    &&& mi.file2_range == range_info(lr.right())
    &&& if verbose {
        match mi.content {
            Some(c) => texts(c@) == texts(lines.subrange(lr.left().start as int, lr.left().end as int)),
            None => false,
        }
    } else {
        mi.content is None
    }
}

/// `di` reports the matches `ms` of the comparison `r`.
pub open spec fn describes_duplicate<'a>(di: DuplicateInfo, r: ComparisonResult<'a>, ms: Seq<LineRange>, verbose: bool) -> bool {
    &&& di.file1@ == r.f1.filename@
    &&& di.file2@ == r.f2.filename@
    &&& di.matches@.len() == ms.len()
    &&& forall|m: int| 0 <= m < ms.len() ==> describes_match(#[trigger] di.matches@[m], ms[m], r.f1.lines@, verbose)
}

/// The comparisons that have reported matches, in order.
pub open spec fn reported<'a>(results: Seq<ComparisonResult<'a>>, min_match: usize, fp: Option<Seq<char>>) -> Seq<ComparisonResult<'a>> {
    results.filter(|r: ComparisonResult<'a>| kept(r, min_match, fp).len() > 0)
}

/// The content of a match: copies of its lines.
fn match_content(lines: &Vec<String>, r1: Range) -> (c: Vec<String>)
    requires
        r1.start <= r1.end <= lines@.len(),
    ensures
        texts(c@) == texts(lines@.subrange(r1.start as int, r1.end as int)),
{
    let mut c: Vec<String> = Vec::new();
    let mut i = r1.start;
    while i < r1.end
        invariant
            r1.start <= i <= r1.end <= lines@.len(),
            c@.len() == i - r1.start,
            texts(c@) == texts(lines@.subrange(r1.start as int, i as int)),
        decreases r1.end - i,
    {
        let line = lines[i].clone();
        let ghost old_c = c@;
        c.push(line);
        assert forall|k: int| 0 <= k < c@.len() implies #[trigger] texts(c@)[k] == texts(lines@.subrange(r1.start as int, i + 1))[k] by {
            assert(texts(c@)[k] == c@[k]@);
            assert(texts(lines@.subrange(r1.start as int, i + 1))[k] == lines@[r1.start + k]@);
            if k < old_c.len() {
                assert(c@[k] == old_c[k]);
                assert(texts(old_c)[k] == texts(lines@.subrange(r1.start as int, i as int))[k]);
                assert(texts(old_c)[k] == old_c[k]@);
                assert(texts(lines@.subrange(r1.start as int, i as int))[k] == lines@[r1.start + k]@);
            } else {
                assert(c@[k] == lines@[i as int]);
            }
        }
        assert(texts(c@) =~= texts(lines@.subrange(r1.start as int, i + 1)));
        i += 1;
    }
    c
}

/// The match records of one comparison and their matched lines.
fn match_infos(r: &ComparisonResult, min_match: usize, verbose: bool, filter: Option<&LineFilter>) -> (res: (Vec<MatchInfo>, usize))
    requires
        verbose ==> forall|i: int|
            0 <= i < kept(*r, min_match, filter_pattern(filter)).len() ==> (#[trigger] kept(
                *r,
                min_match,
                filter_pattern(filter),
            )[i]).left().start <= kept(*r, min_match, filter_pattern(filter))[i].left().end <= r.f1.lines@.len(),
        same_lines(kept(*r, min_match, filter_pattern(filter))) <= usize::MAX,
    ensures
        res.0@.len() == kept(*r, min_match, filter_pattern(filter)).len(),
        forall|m: int| 0 <= m < res.0@.len() ==> describes_match(#[trigger] res.0@[m], kept(*r, min_match, filter_pattern(filter))[m], r.f1.lines@, verbose),
        res.1 == same_lines(kept(*r, min_match, filter_pattern(filter))),
{
    let ghost pred = |lr: LineRange| passes(filter_pattern(filter), r.f1.lines@, lr);
    let matches = r.significant_matches(min_match);
    let ghost sig = matches@;
    let mut infos: Vec<MatchInfo> = Vec::new();
    let mut lines: usize = 0;
    let n = matches.len();
    let mut mi: usize = 0;
    while mi < n
        invariant
            sig == matches@,
            sig == r.significant(min_match),
            n == sig.len(),
            mi <= n,
            pred == (|lr: LineRange| passes(filter_pattern(filter), r.f1.lines@, lr)),
            verbose ==> forall|i: int|
                0 <= i < sig.filter(pred).len() ==> (#[trigger] sig.filter(pred)[i]).left().start <= sig.filter(pred)[i].left().end
                    <= r.f1.lines@.len(),
            same_lines(sig.filter(pred)) <= usize::MAX,
            sig.filter(pred) == kept(*r, min_match, filter_pattern(filter)),
            infos@.len() == sig.take(mi as int).filter(pred).len(),
            forall|m: int| 0 <= m < infos@.len() ==> describes_match(#[trigger] infos@[m], sig.take(mi as int).filter(pred)[m], r.f1.lines@, verbose),
            lines == same_lines(sig.take(mi as int).filter(pred)),
        decreases n - mi,
    {
        reveal(Seq::filter);
        let m = matches[mi];
        let ghost before = sig.take(mi as int).filter(pred);
        assert(sig.take(mi + 1).drop_last() =~= sig.take(mi as int));
        assert(sig.take(mi + 1).last() == m);
        proof {
            lemma_filter_prefix(sig, mi + 1, pred);
            lemma_same_lines_take(sig.filter(pred), sig.take(mi + 1).filter(pred).len() as int);
        }
        if passes_filter(filter, &r.f1.lines, m) {
            let ghost after = before.push(m);
            assert(sig.take(mi + 1).filter(pred) == after);
            assert(after.drop_last() =~= before);
            assert(m is Same);
            assert(m == sig.filter(pred)[after.len() - 1]);
            let r1 = *m.r1();
            let r2 = *m.r2();
            let content = if verbose {
                Some(match_content(&r.f1.lines, r1))
            } else {
                None
            };
            let info = MatchInfo {
                lines: r1.len(),
                file1_range: RangeInfo::from(&r1),
                file2_range: RangeInfo::from(&r2),
                content,
            };
            let ghost old_infos = infos@;
            infos.push(info);
            assert forall|k: int| 0 <= k < infos@.len() implies describes_match(#[trigger] infos@[k], after[k], r.f1.lines@, verbose) by {
                if k < old_infos.len() {
                    assert(infos@[k] == old_infos[k]);
                }
            }
            lines += m.match_len();
        }
        mi += 1;
    }
    assert(sig.take(n as int) =~= sig);
    (infos, lines)
}

/// The JSON report can be made: in verbose mode the lines of every reported
/// match lie within its first file, and the number of reported lines fits in
/// a `usize`.
pub open spec fn json_report_fits<'a>(results: Seq<ComparisonResult<'a>>, min_match: usize, verbose: bool, filter: Option<Seq<char>>) -> bool {
    &&& verbose ==> forall|k: int, i: int|
        0 <= k < results.len() && 0 <= i < kept(results[k], min_match, filter).len() ==> (#[trigger] kept(
            results[k],
            min_match,
            filter,
        )[i]).left().start <= kept(results[k], min_match, filter)[i].left().end <= results[k].f1.lines@.len()
    &&& kept_lines(results, min_match, filter) <= usize::MAX
}

/// `res` is the JSON report of `results`: the version, the summary, and per
/// reported comparison its reported matches.
pub open spec fn is_json_report<'a>(
    res: JsonOutput,
    results: Seq<ComparisonResult<'a>>,
    min_match: usize,
    verbose: bool,
    files_count: usize,
    pairs_count: usize,
    filter: Option<Seq<char>>,
    version: Seq<char>,
) -> bool {
    &&& res.version@ == version
    &&& res.summary == (Summary {
        files_analyzed: files_count,
        pairs_compared: pairs_count,
        duplicates_found: res.duplicates@.len() as usize,
        total_duplicate_lines: kept_lines(results, min_match, filter) as usize,
    })
    &&& res.duplicates@.len() == reported(results, min_match, filter).len()
    &&& forall|d: int|
        0 <= d < res.duplicates@.len() ==> {
            let r = reported(results, min_match, filter)[d];
            describes_duplicate(#[trigger] res.duplicates@[d], r, kept(r, min_match, filter), verbose)
        }
}

/// The values of the JSON report: per file pair the matches that are
/// reported (significant and, when `filter` is given, with a first line that
/// it matches), and the summary.
pub fn json_report(
    results: &[ComparisonResult<'_>],
    min_match: usize,
    verbose: bool,
    files_count: usize,
    pairs_count: usize,
    filter: Option<&LineFilter>,
    version: &str,
) -> (res: JsonOutput)
    requires
        json_report_fits(results@, min_match, verbose, filter_pattern(filter)),
    ensures
        is_json_report(res, results@, min_match, verbose, files_count, pairs_count, filter_pattern(filter), version@),
{
    let ghost fp = filter_pattern(filter);
    let ghost pred = |r: ComparisonResult| kept(r, min_match, fp).len() > 0;
    let mut duplicates: Vec<DuplicateInfo> = Vec::new();
    let mut total_duplicate_lines: usize = 0;
    let n = results.len();
    let mut ri: usize = 0;
    while ri < n
        invariant
            n == results@.len(),
            ri <= n,
            fp == filter_pattern(filter),
            pred == (|r: ComparisonResult| kept(r, min_match, fp).len() > 0),
            json_report_fits(results@, min_match, verbose, fp),
            total_duplicate_lines == kept_lines(results@.take(ri as int), min_match, fp),
            duplicates@.len() == results@.take(ri as int).filter(pred).len(),
            forall|d: int| 0 <= d < duplicates@.len() ==> {
                let r = results@.take(ri as int).filter(pred)[d];
                describes_duplicate(#[trigger] duplicates@[d], r, kept(r, min_match, fp), verbose)
            },
        decreases n - ri,
    {
        reveal(Seq::filter);
        let result = &results[ri];
        let ghost before = results@.take(ri as int).filter(pred);
        proof {
            assert(results@.take(ri + 1).drop_last() =~= results@.take(ri as int));
            assert(results@.take(ri + 1).last() == *result);
            lemma_report_totals(results@, min_match, fp, ri + 1);
            assert(results@[ri as int] == *result);
        }
        let (infos, lines) = match_infos(result, min_match, verbose, filter);
        total_duplicate_lines += lines;
        if infos.len() > 0 {
            let di = DuplicateInfo { file1: result.f1.filename.clone(), file2: result.f2.filename.clone(), matches: infos };
            let ghost old_dups = duplicates@;
            duplicates.push(di);
            let ghost after = before.push(*result);
            assert(results@.take(ri + 1).filter(pred) == after);
            assert forall|d: int| 0 <= d < duplicates@.len() implies {
                let r = after[d];
                describes_duplicate(#[trigger] duplicates@[d], r, kept(r, min_match, fp), verbose)
            } by {
                if d < old_dups.len() {
                    assert(duplicates@[d] == old_dups[d]);
                }
            }
        }
        ri += 1;
    }
    assert(results@.take(n as int) =~= results@);
    let summary = Summary {
        files_analyzed: files_count,
        pairs_compared: pairs_count,
        duplicates_found: duplicates.len(),
        total_duplicate_lines,
    };
    JsonOutput { version: String::from_str(version), summary, duplicates }
}


/// The runs of `r` that are reported.
fn kept_matches(r: &ComparisonResult, min_match: usize, filter: Option<&LineFilter>) -> (res: Vec<LineRange>)
    ensures
        res@ == kept(*r, min_match, filter_pattern(filter)),
{
    let ghost pred = |lr: LineRange| passes(filter_pattern(filter), r.f1.lines@, lr);
    let matches = r.significant_matches(min_match);
    let mut res: Vec<LineRange> = Vec::new();
    let n = matches.len();
    let mut i: usize = 0;
    while i < n
        invariant
            n == matches@.len(),
            matches@ == r.significant(min_match),
            i <= n,
            pred == (|lr: LineRange| passes(filter_pattern(filter), r.f1.lines@, lr)),
            res@ == matches@.take(i as int).filter(pred),
        decreases n - i,
    {
        reveal(Seq::filter);
        assert(matches@.take(i + 1).drop_last() =~= matches@.take(i as int));
        assert(matches@.take(i + 1).last() == matches@[i as int]);
        let m = matches[i];
        if passes_filter(filter, &r.f1.lines, m) {
            res.push(m);
        }
        i += 1;
    }
    assert(matches@.take(n as int) =~= matches@);
    res
}

/// The number of lines in the `Same` runs, or `None` where it exceeds a `usize`.
fn sum_same_lines(runs: &Vec<LineRange>) -> (res: Option<usize>)
    ensures
        match res {
            Some(x) => x == same_lines(runs@),
            None => same_lines(runs@) > usize::MAX,
        },
{
    let n = runs.len();
    let mut total: usize = 0;
    let mut i: usize = 0;
    while i < n
        invariant
            n == runs@.len(),
            i <= n,
            total == same_lines(runs@.take(i as int)),
        decreases n - i,
    {
        assert(runs@.take(i + 1).drop_last() =~= runs@.take(i as int));
        assert(runs@.take(i + 1).last() == runs@[i as int]);
        proof {
            lemma_same_lines_take(runs@, i + 1);
        }
        match total.checked_add(runs[i].match_len()) {
            Some(t) => {
                total = t;
            },
            None => {
                return None;
            },
        }
        i += 1;
    }
    assert(runs@.take(n as int) =~= runs@);
    Some(total)
}

/// Whether the text report can be written (`text_report_fits`).
pub fn text_report_check(results: &[ComparisonResult<'_>], min_match: usize, filter: Option<&LineFilter>) -> (b: bool)
    ensures
        b == text_report_fits(results@, min_match, filter_pattern(filter)),
{
    let ghost fp = filter_pattern(filter);
    let n = results.len();
    let mut count: usize = 0;
    let mut lines: usize = 0;
    let mut ri: usize = 0;
    while ri < n
        invariant
            n == results@.len(),
            ri <= n,
            fp == filter_pattern(filter),
            forall|k: int, i: int|
                0 <= k < ri && 0 <= i < kept(results@[k], min_match, fp).len() ==> shows_line_numbers(
                    #[trigger] kept(results@[k], min_match, fp)[i],
                ),
            count == kept_count(results@.take(ri as int), min_match, fp),
            lines == kept_lines(results@.take(ri as int), min_match, fp),
        decreases n - ri,
    {
        let result = &results[ri];
        proof {
            assert(results@.take(ri + 1).drop_last() =~= results@.take(ri as int));
            assert(results@.take(ri + 1).last() == *result);
            assert(results@[ri as int] == *result);
            lemma_report_totals(results@, min_match, fp, ri + 1);
        }
        let km = kept_matches(result, min_match, filter);
        let m = km.len();
        let mut j: usize = 0;
        while j < m
            invariant
                m == km@.len(),
                km@ == kept(*result, min_match, fp),
                *result == results@[ri as int],
                ri < n,
                n == results@.len(),
                fp == filter_pattern(filter),
                j <= m,
                forall|i: int| 0 <= i < j ==> shows_line_numbers(#[trigger] km@[i]),
            decreases m - j,
        {
            let lr = km[j];
            let r1 = *lr.r1();
            let r2 = *lr.r2();
            if r1.start == usize::MAX || r2.start >= usize::MAX - r1.len() {
                assert(!shows_line_numbers(kept(results@[ri as int], min_match, fp)[j as int]));
                return false;
            }
            j += 1;
        }
        let total = sum_same_lines(&km);
        match total {
            None => {
                return false;
            },
            Some(t) => {
                match count.checked_add(m) {
                    None => {
                        return false;
                    },
                    Some(c) => {
                        count = c;
                    },
                }
                match lines.checked_add(t) {
                    None => {
                        return false;
                    },
                    Some(l) => {
                        lines = l;
                    },
                }
            },
        }
        ri += 1;
    }
    assert(results@.take(n as int) =~= results@);
    true
}

/// Whether the JSON report can be made (`json_report_fits`).
pub fn json_report_check(results: &[ComparisonResult<'_>], min_match: usize, verbose: bool, filter: Option<&LineFilter>) -> (b: bool)
    ensures
        b == json_report_fits(results@, min_match, verbose, filter_pattern(filter)),
{
    let ghost fp = filter_pattern(filter);
    let n = results.len();
    let mut lines: usize = 0;
    let mut ri: usize = 0;
    while ri < n
        invariant
            n == results@.len(),
            ri <= n,
            fp == filter_pattern(filter),
            verbose ==> forall|k: int, i: int|
                0 <= k < ri && 0 <= i < kept(results@[k], min_match, fp).len() ==> (#[trigger] kept(
                    results@[k],
                    min_match,
                    fp,
                )[i]).left().start <= kept(results@[k], min_match, fp)[i].left().end <= results@[k].f1.lines@.len(),
            lines == kept_lines(results@.take(ri as int), min_match, fp),
        decreases n - ri,
    {
        let result = &results[ri];
        proof {
            assert(results@.take(ri + 1).drop_last() =~= results@.take(ri as int));
            assert(results@.take(ri + 1).last() == *result);
            assert(results@[ri as int] == *result);
            lemma_report_totals(results@, min_match, fp, ri + 1);
        }
        let km = kept_matches(result, min_match, filter);
        if verbose {
            let m = km.len();
            let mut j: usize = 0;
            while j < m
                invariant
                    m == km@.len(),
                    km@ == kept(*result, min_match, fp),
                    *result == results@[ri as int],
                    ri < n,
                    n == results@.len(),
                    fp == filter_pattern(filter),
                    verbose,
                    j <= m,
                    forall|i: int| 0 <= i < j ==> (#[trigger] km@[i]).left().start <= km@[i].left().end <= result.f1.lines@.len(),
                decreases m - j,
            {
                let r1 = *km[j].r1();
                if !(r1.start <= r1.end && r1.end <= result.f1.lines.len()) {
                    assert(km@[j as int] == kept(results@[ri as int], min_match, fp)[j as int]);
                    return false;
                }
                j += 1;
            }
        }
        match sum_same_lines(&km) {
            None => {
                return false;
            },
            Some(t) => {
                match lines.checked_add(t) {
                    None => {
                        return false;
                    },
                    Some(l) => {
                        lines = l;
                    },
                }
            },
        }
        ri += 1;
    }
    assert(results@.take(n as int) =~= results@);
    true
}

/// The text report, where it can be written (`text_report_fits`); `None`
/// otherwise.
pub fn try_format_text(
    results: &[ComparisonResult<'_>],
    min_match: usize,
    verbose: bool,
    files_count: usize,
    pairs_count: usize,
    filter: Option<&LineFilter>,
) -> (res: Option<String>)
    ensures
        match res {
            Some(s) => text_report_fits(results@, min_match, filter_pattern(filter)) && s@ == text_report(
                results@,
                min_match,
                verbose,
                files_count,
                pairs_count,
                filter_pattern(filter),
            ),
            None => !text_report_fits(results@, min_match, filter_pattern(filter)),
        },
{
    if text_report_check(results, min_match, filter) {
        Some(format_text(results, min_match, verbose, files_count, pairs_count, filter))
    } else {
        None
    }
}

/// The values of the JSON report, where it can be made (`json_report_fits`);
/// `None` otherwise.
pub fn try_json_report(
    results: &[ComparisonResult<'_>],
    min_match: usize,
    verbose: bool,
    files_count: usize,
    pairs_count: usize,
    filter: Option<&LineFilter>,
    version: &str,
) -> (res: Option<JsonOutput>)
    ensures
        match res {
            Some(j) => json_report_fits(results@, min_match, verbose, filter_pattern(filter)) && is_json_report(
                j,
                results@,
                min_match,
                verbose,
                files_count,
                pairs_count,
                filter_pattern(filter),
                version@,
            ),
            None => !json_report_fits(results@, min_match, verbose, filter_pattern(filter)),
        },
{
    if json_report_check(results, min_match, verbose, filter) {
        Some(json_report(results, min_match, verbose, files_count, pairs_count, filter, version))
    } else {
        None
    }
}

} // verus!
