//! Which files are compared with which.

use vstd::prelude::*;
use vstd::string::{StrSliceExecFns, StringExecFns};

use crate::error::SameError;

verus! {

/// The pairs `(i, j)` for `j` from `lo` up to `n - 1`.
pub open spec fn row_pairs(i: int, lo: int, n: int) -> Seq<(usize, usize)> {
    Seq::new((n - lo) as nat, |k: int| (i as usize, (lo + k) as usize))
}

/// The pairs `(i, j)` with `from <= i < j < n`, ordered by `i`, then by `j`.
pub open spec fn pairs_from(from: int, n: int) -> Seq<(usize, usize)>
    decreases n - from,
{
    if from >= n {
        Seq::empty()
    } else {
        row_pairs(from, from + 1, n) + pairs_from(from + 1, n)
    }
}

/// `x` comes before `y` when ordered by first index, then by second.
pub open spec fn pair_before(x: (usize, usize), y: (usize, usize)) -> bool {
    x.0 < y.0 || (x.0 == y.0 && x.1 < y.1)
}

/// The pairs from `from` on are exactly the pairs `i < j < n` with
/// `from <= i`, each once, in order.
pub proof fn lemma_pairs_from(from: int, n: int)
    requires
        0 <= from,
        n <= usize::MAX,
    ensures
        forall|k: int|
            0 <= k < pairs_from(from, n).len() ==> from <= (#[trigger] pairs_from(from, n)[k]).0 < pairs_from(from, n)[k].1
                < n,
        forall|i: int, j: int| from <= i < j < n ==> #[trigger] pairs_from(from, n).contains((i as usize, j as usize)),
        forall|a: int, b: int|
            0 <= a < b < pairs_from(from, n).len() ==> pair_before(
                #[trigger] pairs_from(from, n)[a],
                #[trigger] pairs_from(from, n)[b],
            ),
    decreases n - from,
{
    if from < n {
        lemma_pairs_from(from + 1, n);
        let row = row_pairs(from, from + 1, n);
        let rest = pairs_from(from + 1, n);
        let p = pairs_from(from, n);
        assert(p == row + rest);
        assert forall|k: int| 0 <= k < p.len() implies from <= (#[trigger] p[k]).0 < p[k].1 < n by {
            if k >= row.len() {
                assert(p[k] == rest[k - row.len()]);
            }
        }
        assert forall|i: int, j: int| from <= i < j < n implies #[trigger] p.contains((i as usize, j as usize)) by {
            if i == from {
                assert(p[j - from - 1] == (i as usize, j as usize));
            } else {
                assert(rest.contains((i as usize, j as usize)));
                let k = choose|k: int| 0 <= k < rest.len() && rest[k] == (i as usize, j as usize);
                assert(p[row.len() + k] == rest[k]);
            }
        }
        assert forall|a: int, b: int| 0 <= a < b < p.len() implies pair_before(#[trigger] p[a], #[trigger] p[b]) by {
            if b < row.len() {
            } else if a >= row.len() {
                assert(p[a] == rest[a - row.len()] && p[b] == rest[b - row.len()]);
            } else {
                assert(p[b] == rest[b - row.len()]);
            }
        }
    }
}

/// Each pair of `n` files is compared exactly once: the pairs generated for
/// `n` files are the pairs `(i, j)` with `i < j < n`, none of them twice.
pub proof fn law_pairs_each_once(n: usize)
    ensures
        forall|k: int| 0 <= k < pairs_from(0, n as int).len() ==> (#[trigger] pairs_from(0, n as int)[k]).0 < pairs_from(0, n as int)[k].1 < n,
        forall|i: int, j: int| 0 <= i < j < n ==> #[trigger] pairs_from(0, n as int).contains((i as usize, j as usize)),
        forall|a: int, b: int| 0 <= a < b < pairs_from(0, n as int).len() ==> pairs_from(0, n as int)[a] != pairs_from(0, n as int)[b],
{
    lemma_pairs_from(0, n as int);
    assert forall|a: int, b: int| 0 <= a < b < pairs_from(0, n as int).len() implies pairs_from(0, n as int)[a] != pairs_from(0, n as int)[b] by {
        assert(pair_before(pairs_from(0, n as int)[a], pairs_from(0, n as int)[b]));
    }
}

/// Every pair `(i, j)` of indices with `i < j < n`: each pair of `n` files is
/// compared once, in the order of the first file, then of the second.
pub fn generate_pairs(n: usize) -> (res: Vec<(usize, usize)>)
    ensures
        res@ == pairs_from(0, n as int),
{
    let mut res: Vec<(usize, usize)> = Vec::new();
    let mut i: usize = 0;
    while i < n
        invariant
            i <= n,
            res@ + pairs_from(i as int, n as int) == pairs_from(0, n as int),
        decreases n - i,
    {
        let mut j: usize = i + 1;
        assert(res@ + row_pairs(i as int, j as int, n as int) + pairs_from(i + 1, n as int) =~= res@ + pairs_from(
            i as int,
            n as int,
        ));
        while j < n
            invariant
                i < n,
                i + 1 <= j <= n,
                res@ + row_pairs(i as int, j as int, n as int) + pairs_from(i + 1, n as int) == pairs_from(0, n as int),
            decreases n - j,
        {
            let ghost before = res@;
            res.push((i, j));
            assert(row_pairs(i as int, j as int, n as int) =~= seq![(i, j)] + row_pairs(i as int, j + 1, n as int));
            assert(before + row_pairs(i as int, j as int, n as int) =~= res@ + row_pairs(i as int, j + 1, n as int));
            j += 1;
        }
        assert(row_pairs(i as int, n as int, n as int) =~= Seq::<(usize, usize)>::empty());
        assert(res@ + row_pairs(i as int, n as int, n as int) =~= res@);
        assert(res@ + row_pairs(i as int, n as int, n as int) + pairs_from(i + 1, n as int) =~= res@ + pairs_from(
            i + 1,
            n as int,
        ));
        i += 1;
    }
    assert(res@ + pairs_from(n as int, n as int) =~= res@);
    res
}


/// A character that a glob suffix may not hold.
pub open spec fn glob_special(c: char) -> bool {
    c == '*' || c == '?' || c == '[' || c == ']' || c == '{' || c == '}' || c == '/'
}

/// `s` holds no special character.
pub open spec fn plain_suffix(s: Seq<char>) -> bool {
    forall|i: int| 0 <= i < s.len() ==> !glob_special(#[trigger] s[i])
}

/// The patterns that select files under a directory: `**/*<suffix>` (in all
/// subdirectories) or `*<suffix>` (in the directory itself), where the suffix
/// holds no special character. Gives the suffix and whether the search goes
/// into subdirectories.
pub open spec fn glob_parts(p: Seq<char>) -> Option<(Seq<char>, bool)> {
    let recursive = p.len() >= 3 && p[0] == '*' && p[1] == '*' && p[2] == '/';
    let rest = if recursive {
        p.skip(3)
    } else {
        p
    };
    if rest.len() >= 1 && rest[0] == '*' && plain_suffix(rest.skip(1)) {
        Some((rest.skip(1), recursive))
    } else {
        None
    }
}

/// The message for a glob pattern that cannot be used.
pub open spec fn glob_message() -> Seq<char> {
    "only patterns of the form **/*<suffix> are supported"@
}

/// What a glob pattern selects: files whose path ends with `suffix`, in
/// subdirectories too when `recursive`.
pub struct GlobSuffix {
    /// The end of the selected paths.
    pub suffix: String,
    /// Whether subdirectories are searched.
    pub recursive: bool,
}

/// `p` ends with `suffix`.
pub open spec fn ends_with(p: Seq<char>, suffix: Seq<char>) -> bool {
    suffix.len() <= p.len() && p.subrange(p.len() - suffix.len(), p.len() as int) == suffix
}

/// A path ends with a suffix exactly when it is some text followed by the
/// whole suffix; so a glob selects exactly the paths that are something
/// followed by its suffix.
pub proof fn law_ends_with_concat(p: Seq<char>, suffix: Seq<char>)
    ensures
        ends_with(p, suffix) <==> exists|q: Seq<char>| p == q + suffix,
        forall|q: Seq<char>| #[trigger] ends_with(q + suffix, suffix),
{
    if ends_with(p, suffix) {
        let q = p.take(p.len() - suffix.len());
        assert(p =~= q + suffix);
    }
    if exists|q: Seq<char>| p == q + suffix {
        let q = choose|q: Seq<char>| p == q + suffix;
        assert(p.subrange(p.len() - suffix.len(), p.len() as int) =~= suffix);
    }
    assert forall|q: Seq<char>| #[trigger] ends_with(q + suffix, suffix) by {
        let t = q + suffix;
        assert(t.subrange(t.len() - suffix.len(), t.len() as int) =~= suffix);
    }
}

impl GlobSuffix {
    /// True when the pattern selects a file with this path: the path ends
    /// with the suffix.
    pub fn selects(&self, path: &str) -> (b: bool)
        ensures
            b == ends_with(path@, self.suffix@),
    {
        let n = path.unicode_len();
        let m = self.suffix.as_str().unicode_len();
        if m > n {
            return false;
        }
        let mut k: usize = 0;
        while k < m
            invariant
                n == path@.len(),
                m == self.suffix@.len(),
                m <= n,
                k <= m,
                forall|t: int| 0 <= t < k ==> path@[n - m + t] == self.suffix@[t],
            decreases m - k,
        {
            if path.get_char(n - m + k) != self.suffix.as_str().get_char(k) {
                assert(path@.subrange(n - m, n as int)[k as int] != self.suffix@[k as int]);
                return false;
            }
            k += 1;
        }
        assert(path@.subrange(n - m, n as int) =~= self.suffix@);
        true
    }
}

/// Reads a glob pattern of the form `**/*<suffix>` or `*<suffix>`; any other
/// pattern is refused with `SameError::InvalidGlob`.
pub fn parse_glob(pattern: &str) -> (res: Result<GlobSuffix, SameError>)
    ensures
        match res {
            Ok(g) => glob_parts(pattern@) == Some((g.suffix@, g.recursive)),
            Err(e) => glob_parts(pattern@) is None && match e {
                SameError::InvalidGlob { pattern: p, message: m } => p@ == pattern@ && m@ == glob_message(),
                _ => false,
            },
        },
{
    let n = pattern.unicode_len();
    let recursive = n >= 3 && pattern.get_char(0) == '*' && pattern.get_char(1) == '*' && pattern.get_char(2) == '/';
    let start: usize = if recursive {
        3
    } else {
        0
    };
    let rest = pattern.substring_char(start, n);
    assert(rest@ =~= (if recursive {
        pattern@.skip(3)
    } else {
        pattern@
    }));
    let m = rest.unicode_len();
    let mut ok = m >= 1 && rest.get_char(0) == '*';
    let mut i: usize = 1;
    while ok && i < m
        invariant
            m == rest@.len(),
            1 <= i <= m || !ok,
            ok ==> m >= 1 && rest@[0] == '*',
            ok ==> forall|k: int| 1 <= k < i ==> !glob_special(#[trigger] rest@[k]),
            !ok ==> !(rest@.len() >= 1 && rest@[0] == '*' && forall|k: int| 1 <= k < rest@.len() ==> !glob_special(#[trigger] rest@[k])),
        decreases (if ok {
            m - i + 1
        } else {
            0
        }),
    {
        let c = rest.get_char(i);
        if c == '*' || c == '?' || c == '[' || c == ']' || c == '{' || c == '}' || c == '/' {
            assert(glob_special(rest@[i as int]));
            ok = false;
        } else {
            i += 1;
        }
    }
    if ok {
        let suffix = rest.substring_char(1, m);
        let s = String::from_str(suffix);
        assert(s@ =~= rest@.skip(1));
        proof {
            let x = if recursive {
                pattern@.skip(3)
            } else {
                pattern@
            };
            assert forall|k: int| 0 <= k < s@.len() implies !glob_special(#[trigger] s@[k]) by {
                assert(s@[k] == rest@[k + 1]);
            }
            assert(x.len() >= 1 && x[0] == '*');
            assert(glob_parts(pattern@) == Some((x.skip(1), recursive)));
            assert(x.skip(1) == s@);
        }
        Ok(GlobSuffix { suffix: s, recursive })
    } else {
        proof {
            let x = if recursive {
                pattern@.skip(3)
            } else {
                pattern@
            };
            assert(recursive == (pattern@.len() >= 3 && pattern@[0] == '*' && pattern@[1] == '*' && pattern@[2] == '/'));
            assert(x =~= rest@);
            if x.len() >= 1 && x[0] == '*' {
                let k0 = choose|k: int| 1 <= k < rest@.len() && glob_special(#[trigger] rest@[k]);
                assert(glob_special(rest@.skip(1)[k0 - 1]));
                assert(!plain_suffix(rest@.skip(1)));
            }
            assert(glob_parts(pattern@) is None);
        }
        let p = String::from_str(pattern);
        let msg = String::from_str("only patterns of the form **/*<suffix> are supported");
        assert(p@ == pattern@);
        assert(msg@ == glob_message());
        Err(SameError::InvalidGlob { pattern: p, message: msg })
    }
}

} // verus!
