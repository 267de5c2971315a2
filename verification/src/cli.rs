//! Validation of command-line values, and the line filter that `--regex` sets.

use vstd::prelude::*;
use vstd::string::StringExecFns;

verus! {

/// Output format options.
#[derive(Debug, Clone, Copy, PartialEq, Eq, Structural)]
pub enum OutputFormat {
    /// Human-readable text output.
    Text,
    /// Structured JSON output.
    Json,
}

impl Default for OutputFormat {
    fn default() -> (f: OutputFormat)
        ensures
            f == OutputFormat::Text,
    {
        OutputFormat::Text
    }
}

/// An ASCII decimal digit.
pub open spec fn is_digit(c: char) -> bool {
    48 <= (c as int) <= 57
}

/// The value of a string of decimal digits.
pub open spec fn digits_value(s: Seq<char>) -> nat
    decreases s.len(),
{
    if s.len() == 0 {
        0
    } else {
        digits_value(s.drop_last()) * 10 + ((s.last() as int) - 48) as nat
    }
}

/// `s` without its leading `+`, if it has one.
pub open spec fn unsigned_digits(s: Seq<char>) -> Seq<char> {
    if s.len() > 0 && s[0] == '+' {
        s.drop_first()
    } else {
        s
    }
}

/// Every character of `s` is a decimal digit.
pub open spec fn all_digits(s: Seq<char>) -> bool {
    forall|i: int| 0 <= i < s.len() ==> is_digit(#[trigger] s[i])
}

/// The number that `s` denotes when read as a `usize`: an optional `+`,
/// then one or more decimal digits, and a value that fits in `usize`.
pub open spec fn parse_usize(s: Seq<char>) -> Option<nat> {
    let body = unsigned_digits(s);
    if body.len() > 0 && all_digits(body) && digits_value(body) <= usize::MAX {
        Some(digits_value(body))
    } else {
        None
    }
}

/// Appending digits never makes the value smaller.
proof fn lemma_digits_grow(s: Seq<char>, k: int)
    requires
        0 <= k <= s.len(),
        forall|i: int| 0 <= i < s.len() ==> is_digit(#[trigger] s[i]),
    ensures
        digits_value(s.take(k)) <= digits_value(s),
    decreases s.len() - k,
{
    if k < s.len() {
        let t = s.take(k + 1);
        assert(t.drop_last() =~= s.take(k));
        assert(is_digit(t.last()));
        lemma_digits_grow(s, k + 1);
    } else {
        assert(s.take(k) =~= s);
    }
}

/// Parses and validates the minimum match length (at least 1).
pub fn min_match_parser(s: &str) -> (res: Result<usize, String>)
    ensures
        parse_usize(s@) is None ==> (res matches Err(m) && m@ == "'"@ + s@ + "' is not a valid number"@),
        parse_usize(s@) == Some(0nat) ==> (res matches Err(m) && m@ == "minimum match must be at least 1"@),
        (parse_usize(s@) matches Some(v) && v > 0) ==> res == Ok::<usize, String>(parse_usize(s@)->0 as usize),
{
    let n = s.unicode_len();
    let mut start: usize = 0;
    if n > 0 && s.get_char(0) == '+' {
        start = 1;
    }
    let ghost body = unsigned_digits(s@);
    assert(body =~= s@.skip(start as int));
    let mut value: usize = 0;
    let mut i: usize = start;
    let mut valid = start < n;
    while valid && i < n
        invariant
            n == s@.len(),
            start <= i <= n,
            body == s@.skip(start as int),
            body == unsigned_digits(s@),
            valid ==> start < n,
            valid ==> value == digits_value(body.take(i - start)),
            valid ==> forall|k: int| 0 <= k < i - start ==> is_digit(#[trigger] body[k]),
            !valid ==> parse_usize(s@) is None,
        decreases n - i,
    {
        let c = s.get_char(i);
        assert(body[i - start] == c);
        if c < '0' || c > '9' {
            assert(!is_digit(body[i - start]));
            assert(parse_usize(s@) is None);
            valid = false;
        } else {
            let d = (c as u32 - '0' as u32) as usize;
            let ghost t = body.take(i - start + 1);
            assert(t.drop_last() =~= body.take(i - start));
            assert(t.last() == c);
            if value > (usize::MAX - d) / 10 {
                proof {
                    assert(value * 10 + d > usize::MAX) by (nonlinear_arith)
                        requires
                            value > (usize::MAX - d) / 10,
                            d <= 9,
                    ;
                    assert(digits_value(t) == value * 10 + d);
                    if all_digits(body) {
                        lemma_digits_grow(body, i - start + 1);
                        assert(digits_value(body) > usize::MAX);
                    }
                    assert(parse_usize(s@) is None);
                }
                valid = false;
            } else {
                proof {
                    assert(value * 10 + d <= usize::MAX) by (nonlinear_arith)
                        requires
                            value <= (usize::MAX - d) / 10,
                            d <= 9,
                    ;
                }
                value = value * 10 + d;
                assert(digits_value(t) == value);
            }
        }
        i += 1;
    }
    if !valid {
        let mut m = String::from_str("'");
        m.append(s);
        m.append("' is not a valid number");
        return Err(m);
    }
    assert(body.take(n - start) =~= body);
    if value == 0 {
        Err(String::from_str("minimum match must be at least 1"))
    } else {
        Ok(value)
    }
}

/// A compiled regular expression, as `regex::Regex`.
#[verifier::external_type_specification]
#[verifier::external_body]
pub struct ExRegex(regex::Regex);

/// What `regex::Regex::new` reports for `pattern`: `None` when it compiles,
/// else the text of its error.
pub uninterp spec fn regex_compile_error(pattern: Seq<char>) -> Option<Seq<char>>;

/// Whether the regular expression `pattern` matches somewhere in `haystack`.
pub uninterp spec fn regex_matches(pattern: Seq<char>, haystack: Seq<char>) -> bool;

/// Compiles `pattern` with `regex::Regex::new`. The contract claims that the
/// call succeeds exactly when `regex_compile_error` is `None`, and that the
/// error's text is the one that name gives; both depend on the pattern alone.
#[verifier::external_body]
fn compile_regex(pattern: &str) -> (r: Result<regex::Regex, String>)
    ensures
        r is Ok <==> regex_compile_error(pattern@) is None,
        r matches Err(m) ==> regex_compile_error(pattern@) == Some(m@),
{
    regex::Regex::new(pattern).map_err(|e| e.to_string())
}

/// A filter on the first line of a match: a regular expression with its pattern.
pub struct LineFilter {
    pattern: String,
    re: regex::Regex,
}

impl View for LineFilter {
    type V = Seq<char>;

    /// The pattern the filter's regular expression was compiled from.
    closed spec fn view(&self) -> Seq<char> {
        self.pattern@
    }
}

/// Runs `regex::Regex::is_match` of the filter's compiled expression on
/// `haystack`. The contract claims the answer is `regex_matches` of the
/// filter's pattern and the haystack: a filter is only ever built by
/// `regex_parser`, from the expression compiled from that pattern.
#[verifier::external_body]
pub(crate) fn regex_is_match(filter: &LineFilter, haystack: &str) -> (b: bool)
    ensures
        b == regex_matches(filter@, haystack@),
{
    filter.re.is_match(haystack)
}

/// Parses and validates a regex pattern.
pub fn regex_parser(s: &str) -> (res: Result<LineFilter, String>)
    ensures
        res is Ok <==> regex_compile_error(s@) is None,
        res matches Ok(f) ==> f@ == s@,
        res matches Err(m) ==> m@ == "invalid regex pattern: "@ + regex_compile_error(s@)->0,
{
    match compile_regex(s) {
        Ok(re) => Ok(LineFilter { pattern: String::from_str(s), re }),
        Err(e) => {
            let mut m = String::from_str("invalid regex pattern: ");
            m.append(e.as_str());
            Err(m)
        },
    }
}

} // verus!
