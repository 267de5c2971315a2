//! Longest common subsequence of two hash sequences, computed with
//! Hirschberg's divide-and-conquer algorithm in linear space.

use vstd::prelude::*;

verus! {

/// `p` lists positions `(i, j)` of equal hashes, `h1[i - o1] == h2[j - o2]`,
/// strictly increasing in both components: a common subsequence of `h1` and
/// `h2` whose elements stand at lines `o1..` and `o2..`.
pub open spec fn matching_pairs(p: Seq<(usize, usize)>, h1: Seq<u64>, h2: Seq<u64>, o1: int, o2: int) -> bool {
    &&& forall|k: int|
        0 <= k < p.len() ==> {
            &&& o1 <= (#[trigger] p[k]).0 < o1 + h1.len()
            &&& o2 <= p[k].1 < o2 + h2.len()
            &&& h1[p[k].0 - o1] == h2[p[k].1 - o2]
        }
    &&& forall|k: int, l: int|
        0 <= k < l < p.len() ==> (#[trigger] p[k]).0 < (#[trigger] p[l]).0 && p[k].1 < p[l].1
}

/// Length of a longest common subsequence of `a` and `b`, by the usual
/// recurrence on their last elements.
pub open spec fn lcs_len(a: Seq<u64>, b: Seq<u64>) -> nat
    decreases a.len() + b.len(),
{
    if a.len() == 0 || b.len() == 0 {
        0
    } else if a.last() == b.last() {
        lcs_len(a.drop_last(), b.drop_last()) + 1
    } else {
        let x = lcs_len(a.drop_last(), b);
        let y = lcs_len(a, b.drop_last());
        if x >= y { x } else { y }
    }
}

/// A common subsequence is no longer than either sequence.
pub proof fn lemma_lcs_len_bounded(a: Seq<u64>, b: Seq<u64>)
    ensures
        lcs_len(a, b) <= a.len(),
        lcs_len(a, b) <= b.len(),
    decreases a.len() + b.len(),
{
    if a.len() > 0 && b.len() > 0 {
        lemma_lcs_len_bounded(a.drop_last(), b.drop_last());
        lemma_lcs_len_bounded(a.drop_last(), b);
        lemma_lcs_len_bounded(a, b.drop_last());
    }
}

/// Matching pairs of prefixes are matching pairs of the whole sequences.
proof fn lemma_pairs_widen(p: Seq<(usize, usize)>, a: Seq<u64>, b: Seq<u64>, o1: int, o2: int, x: int, y: int)
    requires
        0 <= x <= a.len(),
        0 <= y <= b.len(),
        matching_pairs(p, a.take(x), b.take(y), o1, o2),
    ensures
        matching_pairs(p, a, b, o1, o2),
{
    assert forall|k: int| 0 <= k < p.len() implies {
        &&& o1 <= (#[trigger] p[k]).0 < o1 + a.len()
        &&& o2 <= p[k].1 < o2 + b.len()
        &&& a[p[k].0 - o1] == b[p[k].1 - o2]
    } by {
        assert(a.take(x)[p[k].0 - o1] == a[p[k].0 - o1]);
        assert(b.take(y)[p[k].1 - o2] == b[p[k].1 - o2]);
    }
}

/// Matching pairs below given bounds are matching pairs of the prefixes.
proof fn lemma_pairs_narrow(p: Seq<(usize, usize)>, a: Seq<u64>, b: Seq<u64>, o1: int, o2: int, x: int, y: int)
    requires
        0 <= x <= a.len(),
        0 <= y <= b.len(),
        matching_pairs(p, a, b, o1, o2),
        forall|k: int| 0 <= k < p.len() ==> (#[trigger] p[k]).0 < o1 + x && p[k].1 < o2 + y,
    ensures
        matching_pairs(p, a.take(x), b.take(y), o1, o2),
{
    assert forall|k: int| 0 <= k < p.len() implies {
        &&& o1 <= (#[trigger] p[k]).0 < o1 + a.take(x).len()
        &&& o2 <= p[k].1 < o2 + b.take(y).len()
        &&& a.take(x)[p[k].0 - o1] == b.take(y)[p[k].1 - o2]
    } by {
        assert(a.take(x)[p[k].0 - o1] == a[p[k].0 - o1]);
        assert(b.take(y)[p[k].1 - o2] == b[p[k].1 - o2]);
    }
}

/// Dropping the last pair keeps the pairs matching.
proof fn lemma_pairs_drop_last(p: Seq<(usize, usize)>, a: Seq<u64>, b: Seq<u64>, o1: int, o2: int)
    requires
        matching_pairs(p, a, b, o1, o2),
        p.len() > 0,
    ensures
        matching_pairs(p.drop_last(), a, b, o1, o2),
        forall|k: int| 0 <= k < p.len() - 1 ==> (#[trigger] p[k]).0 < p.last().0 && p[k].1 < p.last().1,
{
    let q = p.drop_last();
    assert forall|k: int| 0 <= k < p.len() - 1 implies (#[trigger] p[k]).0 < p.last().0 && p[k].1 < p.last().1 by {
        assert(p[p.len() - 1] == p.last());
    }
    assert forall|k: int, l: int| 0 <= k < l < q.len() implies (#[trigger] q[k]).0 < (#[trigger] q[l]).0 && q[k].1 < q[l].1 by {
        assert(q[k] == p[k] && q[l] == p[l]);
    }
    assert forall|k: int| 0 <= k < q.len() implies {
        &&& o1 <= (#[trigger] q[k]).0 < o1 + a.len()
        &&& o2 <= q[k].1 < o2 + b.len()
        &&& a[q[k].0 - o1] == b[q[k].1 - o2]
    } by {
        assert(q[k] == p[k]);
    }
}

/// No common subsequence is longer than `lcs_len`.
pub proof fn lemma_lcs_upper(p: Seq<(usize, usize)>, a: Seq<u64>, b: Seq<u64>, o1: int, o2: int)
    requires
        matching_pairs(p, a, b, o1, o2),
    ensures
        p.len() <= lcs_len(a, b),
    decreases a.len() + b.len(),
{
    if p.len() > 0 {
        let last = p.last();
        assert(p[p.len() - 1] == last);
        let i = last.0 - o1;
        let j = last.1 - o2;
        let a2 = a.drop_last();
        let b2 = b.drop_last();
        assert(a2 =~= a.take(a.len() - 1));
        assert(b2 =~= b.take(b.len() - 1));
        lemma_pairs_drop_last(p, a, b, o1, o2);
        if a.last() == b.last() {
            if i == a.len() - 1 || j == b.len() - 1 {
                let q = p.drop_last();
                assert forall|k: int| 0 <= k < q.len() implies (#[trigger] q[k]).0 < o1 + (a.len() - 1) && q[k].1 < o2 + (b.len() - 1) by {
                    assert(q[k] == p[k]);
                }
                lemma_pairs_narrow(q, a, b, o1, o2, a.len() - 1, b.len() - 1);
                lemma_lcs_upper(q, a2, b2, o1, o2);
            } else {
                lemma_pairs_narrow(p, a, b, o1, o2, a.len() - 1, b.len() - 1);
                lemma_lcs_upper(p, a2, b2, o1, o2);
            }
        } else if i < a.len() - 1 {
            lemma_pairs_narrow(p, a, b, o1, o2, a.len() - 1, b.len() as int);
            assert(b.take(b.len() as int) =~= b);
            lemma_lcs_upper(p, a2, b, o1, o2);
        } else {
            lemma_pairs_narrow(p, a, b, o1, o2, a.len() as int, b.len() - 1);
            assert(a.take(a.len() as int) =~= a);
            lemma_lcs_upper(p, a, b2, o1, o2);
        }
    }
}

/// Some common subsequence is as long as `lcs_len`.
pub proof fn lemma_lcs_witness(a: Seq<u64>, b: Seq<u64>) -> (p: Seq<(usize, usize)>)
    requires
        a.len() <= usize::MAX,
        b.len() <= usize::MAX,
    ensures
        matching_pairs(p, a, b, 0, 0),
        p.len() == lcs_len(a, b),
    decreases a.len() + b.len(),
{
    if a.len() == 0 || b.len() == 0 {
        Seq::empty()
    } else {
        let a2 = a.drop_last();
        let b2 = b.drop_last();
        assert(a2 =~= a.take(a.len() - 1));
        assert(b2 =~= b.take(b.len() - 1));
        assert(a.take(a.len() as int) =~= a);
        assert(b.take(b.len() as int) =~= b);
        if a.last() == b.last() {
            let w = lemma_lcs_witness(a2, b2);
            lemma_pairs_widen(w, a, b, 0, 0, a.len() - 1, b.len() - 1);
            let x = ((a.len() - 1) as usize, (b.len() - 1) as usize);
            let p = w.push(x);
            assert forall|k: int, l: int| 0 <= k < l < p.len() implies (#[trigger] p[k]).0 < (#[trigger] p[l]).0 && p[k].1 < p[l].1 by {
                assert(p[k] == w[k]);
                if l < w.len() {
                    assert(p[l] == w[l]);
                }
            }
            assert forall|k: int| 0 <= k < p.len() implies {
                &&& 0 <= (#[trigger] p[k]).0 < 0 + a.len()
                &&& 0 <= p[k].1 < 0 + b.len()
                &&& a[p[k].0 - 0] == b[p[k].1 - 0]
            } by {
                if k < w.len() {
                    assert(p[k] == w[k]);
                }
            }
            p
        } else {
            let x = lcs_len(a2, b);
            let y = lcs_len(a, b2);
            if x >= y {
                let w = lemma_lcs_witness(a2, b);
                lemma_pairs_widen(w, a, b, 0, 0, a.len() - 1, b.len() as int);
                w
            } else {
                let w = lemma_lcs_witness(a, b2);
                lemma_pairs_widen(w, a, b, 0, 0, a.len() as int, b.len() - 1);
                w
            }
        }
    }
}

/// The pairs of a common subsequence mirrored onto the reversed sequences.
pub open spec fn mirror(p: Seq<(usize, usize)>, n1: int, n2: int) -> Seq<(usize, usize)> {
    Seq::new(p.len(), |k: int| ((n1 - 1 - p[p.len() - 1 - k].0) as usize, (n2 - 1 - p[p.len() - 1 - k].1) as usize))
}

proof fn lemma_mirror(p: Seq<(usize, usize)>, a: Seq<u64>, b: Seq<u64>)
    requires
        matching_pairs(p, a, b, 0, 0),
        a.len() <= usize::MAX,
        b.len() <= usize::MAX,
    ensures
        matching_pairs(mirror(p, a.len() as int, b.len() as int), a.reverse(), b.reverse(), 0, 0),
{
    let n1 = a.len() as int;
    let n2 = b.len() as int;
    let m = mirror(p, n1, n2);
    assert forall|k: int| 0 <= k < m.len() implies {
        &&& 0 <= (#[trigger] m[k]).0 < 0 + a.reverse().len()
        &&& 0 <= m[k].1 < 0 + b.reverse().len()
        &&& a.reverse()[m[k].0 - 0] == b.reverse()[m[k].1 - 0]
    } by {
        let q = p[p.len() - 1 - k];
        assert(0 <= q.0 < n1 && 0 <= q.1 < n2 && a[q.0 as int] == b[q.1 as int]);
        assert(m[k].0 == n1 - 1 - q.0 && m[k].1 == n2 - 1 - q.1);
        assert(a.reverse()[n1 - 1 - q.0] == a[q.0 as int]);
        assert(b.reverse()[n2 - 1 - q.1] == b[q.1 as int]);
    }
    assert forall|k: int, l: int| 0 <= k < l < m.len() implies (#[trigger] m[k]).0 < (#[trigger] m[l]).0 && m[k].1 < m[l].1 by {
        let x = p.len() - 1 - l;
        let y = p.len() - 1 - k;
        assert(p[x].0 < p[y].0 && p[x].1 < p[y].1);
        assert(0 <= p[x].0 && p[y].0 < n1 && 0 <= p[x].1 && p[y].1 < n2);
        assert(m[k].0 == n1 - 1 - p[y].0 && m[k].1 == n2 - 1 - p[y].1);
        assert(m[l].0 == n1 - 1 - p[x].0 && m[l].1 == n2 - 1 - p[x].1);
    }
}

/// Reversing both sequences keeps the length of their LCS.
pub proof fn lemma_lcs_reverse(a: Seq<u64>, b: Seq<u64>)
    requires
        a.len() <= usize::MAX,
        b.len() <= usize::MAX,
    ensures
        lcs_len(a.reverse(), b.reverse()) == lcs_len(a, b),
{
    let w = lemma_lcs_witness(a, b);
    lemma_mirror(w, a, b);
    lemma_lcs_upper(mirror(w, a.len() as int, b.len() as int), a.reverse(), b.reverse(), 0, 0);
    let v = lemma_lcs_witness(a.reverse(), b.reverse());
    lemma_mirror(v, a.reverse(), b.reverse());
    assert(a.reverse().reverse() =~= a);
    assert(b.reverse().reverse() =~= b);
    lemma_lcs_upper(mirror(v, a.len() as int, b.len() as int), a, b, 0, 0);
}

/// Cutting the first sequence at `mid`, some cut `k` of the second sequence
/// keeps all of the LCS: the LCS of the halves add up to at least it.
pub proof fn lemma_lcs_split(a: Seq<u64>, b: Seq<u64>, mid: int) -> (k: int)
    requires
        a.len() <= usize::MAX,
        b.len() <= usize::MAX,
        0 <= mid <= a.len(),
    ensures
        0 <= k <= b.len(),
        lcs_len(a.take(mid), b.take(k)) + lcs_len(a.skip(mid), b.skip(k)) >= lcs_len(a, b),
{
    let w = lemma_lcs_witness(a, b);
    let t = lemma_split_point(w, mid);
    let k = if t > 0 { w[t - 1].1 + 1 } else { 0 };
    let left = w.take(t);
    let right = w.skip(t);
    // The pairs before the cut match the prefixes.
    assert(matching_pairs(left, a.take(mid), b.take(k), 0, 0)) by {
        assert forall|x: int, y: int| 0 <= x < y < left.len() implies (#[trigger] left[x]).0 < (#[trigger] left[y]).0 && left[x].1 < left[y].1 by {
            assert(left[x] == w[x] && left[y] == w[y]);
        }
        assert forall|x: int| 0 <= x < left.len() implies {
            &&& 0 <= (#[trigger] left[x]).0 < 0 + a.take(mid).len()
            &&& 0 <= left[x].1 < 0 + b.take(k).len()
            &&& a.take(mid)[left[x].0 - 0] == b.take(k)[left[x].1 - 0]
        } by {
            assert(left[x] == w[x]);
            if x < t - 1 {
                assert(w[x].1 < w[t - 1].1);
            }
        }
    }
    // The pairs after it match the suffixes.
    assert(matching_pairs(right, a.skip(mid), b.skip(k), mid, k)) by {
        assert forall|x: int, y: int| 0 <= x < y < right.len() implies (#[trigger] right[x]).0 < (#[trigger] right[y]).0 && right[x].1 < right[y].1 by {
            assert(right[x] == w[x + t] && right[y] == w[y + t]);
        }
        assert forall|x: int| 0 <= x < right.len() implies {
            &&& mid <= (#[trigger] right[x]).0 < mid + a.skip(mid).len()
            &&& k <= right[x].1 < k + b.skip(k).len()
            &&& a.skip(mid)[right[x].0 - mid] == b.skip(k)[right[x].1 - k]
        } by {
            assert(right[x] == w[x + t]);
            if t > 0 {
                assert(w[t - 1].1 < w[x + t].1);
            }
        }
    }
    lemma_lcs_upper(left, a.take(mid), b.take(k), 0, 0);
    lemma_lcs_upper(right, a.skip(mid), b.skip(k), mid, k);
    k
}

/// Position of the first pair whose first component reaches `mid`.
pub proof fn lemma_split_point(w: Seq<(usize, usize)>, mid: int) -> (t: int)
    requires
        forall|x: int, y: int| 0 <= x < y < w.len() ==> (#[trigger] w[x]).0 < (#[trigger] w[y]).0,
    ensures
        0 <= t <= w.len(),
        forall|x: int| 0 <= x < t ==> (#[trigger] w[x]).0 < mid,
        forall|x: int| t <= x < w.len() ==> (#[trigger] w[x]).0 >= mid,
    decreases w.len(),
{
    if w.len() == 0 {
        0
    } else if w.last().0 < mid {
        assert forall|x: int| 0 <= x < w.len() implies (#[trigger] w[x]).0 < mid by {
            if x < w.len() - 1 {
                assert(w[x].0 < w[w.len() - 1].0);
            }
        }
        w.len() as int
    } else {
        let d = w.drop_last();
        assert forall|x: int, y: int| 0 <= x < y < d.len() implies (#[trigger] d[x]).0 < (#[trigger] d[y]).0 by {
            assert(d[x] == w[x] && d[y] == w[y]);
        }
        let t = lemma_split_point(d, mid);
        assert forall|x: int| 0 <= x < t implies (#[trigger] w[x]).0 < mid by {
            assert(d[x] == w[x]);
        }
        assert forall|x: int| t <= x < w.len() implies (#[trigger] w[x]).0 >= mid by {
            if x < w.len() - 1 {
                assert(d[x] == w[x]);
            }
        }
        t
    }
}

/// Last row of the LCS table: entry `j` is the LCS length of all of `hashes1`
/// and the first `j` elements of `hashes2`.
pub fn lcs_lengths(hashes1: &[u64], hashes2: &[u64]) -> (res: Vec<usize>)
    requires
        hashes2@.len() < usize::MAX,
    ensures
        res@.len() == hashes2@.len() + 1,
        forall|j: int| 0 <= j <= hashes2@.len() ==> res@[j] == lcs_len(hashes1@, #[trigger] hashes2@.take(j)),
{
    let n = hashes2.len();
    let mut prev: Vec<usize> = vec![0usize; n + 1];
    let mut curr: Vec<usize> = vec![0usize; n + 1];
    let m = hashes1.len();
    let mut i: usize = 0;
    while i < m
        invariant
            m == hashes1@.len(),
            n == hashes2@.len(),
            n < usize::MAX,
            i <= m,
            prev@.len() == n + 1,
            curr@.len() == n + 1,
            curr@[0] == 0,
            forall|j: int| 0 <= j <= n ==> prev@[j] == lcs_len(hashes1@.take(i as int), #[trigger] hashes2@.take(j)),
        decreases m - i,
    {
        let h1 = hashes1[i];
        let ghost a = hashes1@.take(i + 1);
        assert(a.drop_last() =~= hashes1@.take(i as int));
        assert(hashes2@.take(0) =~= Seq::<u64>::empty());
        let mut j: usize = 1;
        while j <= n
            invariant
                m == hashes1@.len(),
                n == hashes2@.len(),
                n < usize::MAX,
                i < m,
                1 <= j <= n + 1,
                a == hashes1@.take(i + 1),
                a.drop_last() == hashes1@.take(i as int),
                h1 == hashes1@[i as int],
                prev@.len() == n + 1,
                curr@.len() == n + 1,
                curr@[0] == 0,
                forall|k: int| 0 <= k <= n ==> prev@[k] == lcs_len(hashes1@.take(i as int), #[trigger] hashes2@.take(k)),
                forall|k: int| 0 <= k < j ==> curr@[k] == lcs_len(a, #[trigger] hashes2@.take(k)),
            decreases n + 1 - j,
        {
            let ghost b = hashes2@.take(j as int);
            assert(b.drop_last() =~= hashes2@.take(j - 1));
            assert(a.last() == h1);
            assert(b.last() == hashes2@[j - 1]);
            proof {
                lemma_lcs_len_bounded(hashes1@.take(i as int), hashes2@.take(j - 1));
            }
            if h1 == hashes2[j - 1] {
                curr.set(j, prev[j - 1] + 1);
            } else {
                let up = prev[j];
                let left = curr[j - 1];
                curr.set(j, if up >= left { up } else { left });
            }
            assert(curr@[j as int] == lcs_len(a, b));
            j += 1;
        }
        std::mem::swap(&mut prev, &mut curr);
        i += 1;
        assert(curr@[0] == 0) by {
            assert(hashes2@.take(0) =~= Seq::<u64>::empty());
        }
    }
    assert(hashes1@.take(m as int) =~= hashes1@);
    prev
}

/// Matching pairs of two slices, laid side by side, match the whole sequences.
proof fn lemma_pairs_concat(
    l: Seq<(usize, usize)>,
    r: Seq<(usize, usize)>,
    h1: Seq<u64>,
    h2: Seq<u64>,
    o1: int,
    o2: int,
    mid: int,
    k: int,
)
    requires
        0 <= mid <= h1.len(),
        0 <= k <= h2.len(),
        matching_pairs(l, h1.subrange(0, mid), h2.subrange(0, k), o1, o2),
        matching_pairs(r, h1.subrange(mid, h1.len() as int), h2.subrange(k, h2.len() as int), o1 + mid, o2 + k),
    ensures
        matching_pairs(l + r, h1, h2, o1, o2),
{
    let p = l + r;
    assert forall|x: int| 0 <= x < p.len() implies {
        &&& o1 <= (#[trigger] p[x]).0 < o1 + h1.len()
        &&& o2 <= p[x].1 < o2 + h2.len()
        &&& h1[p[x].0 - o1] == h2[p[x].1 - o2]
    } by {
        if x < l.len() {
            assert(p[x] == l[x]);
        } else {
            assert(p[x] == r[x - l.len()]);
        }
    }
    assert forall|x: int, y: int| 0 <= x < y < p.len() implies (#[trigger] p[x]).0 < (#[trigger] p[y]).0 && p[x].1 < p[y].1 by {
        if y < l.len() {
            assert(p[x] == l[x] && p[y] == l[y]);
        } else if x >= l.len() {
            assert(p[x] == r[x - l.len()] && p[y] == r[y - l.len()]);
        } else {
            assert(p[x] == l[x] && p[y] == r[y - l.len()]);
        }
    }
}

/// The elements of `s` in reverse order.
fn reversed(s: &[u64]) -> (r: Vec<u64>)
    ensures
        r@ == s@.reverse(),
{
    let n = s.len();
    let mut r: Vec<u64> = Vec::with_capacity(n);
    let mut i: usize = n;
    while i > 0
        invariant
            n == s@.len(),
            i <= n,
            r@ =~= s@.subrange(i as int, n as int).reverse(),
        decreases i,
    {
        i -= 1;
        r.push(s[i]);
        assert(s@.subrange(i as int, n as int).reverse() =~= s@.subrange(i + 1, n as int).reverse().push(s@[i as int]));
    }
    assert(s@.subrange(0, n as int) =~= s@);
    r
}

/// Combined LCS length when `a` is cut at `mid` and `b` at `k`.
pub open spec fn split_score(a: Seq<u64>, b: Seq<u64>, mid: int, k: int) -> int {
    (lcs_len(a.take(mid), b.take(k)) + lcs_len(a.skip(mid), b.skip(k))) as int
}

/// The first cut `k < upto` of `b` with the highest split score above zero,
/// paired with that score; `(0, 0)` where no cut scores above zero.
pub open spec fn best_split(a: Seq<u64>, b: Seq<u64>, mid: int, upto: int) -> (int, int)
    decreases upto,
{
    if upto <= 0 {
        (0, 0)
    } else {
        let prev = best_split(a, b, mid, upto - 1);
        let s = split_score(a, b, mid, upto - 1);
        if s > prev.1 {
            (upto - 1, s)
        } else {
            prev
        }
    }
}

/// `j` is the first position of `x` in `b`.
pub open spec fn first_match(b: Seq<u64>, x: u64, j: int) -> bool {
    &&& 0 <= j < b.len()
    &&& b[j] == x
    &&& forall|t: int| 0 <= t < j ==> b[t] != x
}

/// The pairs that Hirschberg's algorithm picks for `a` and `b`, whose first
/// elements stand at lines `o1` and `o2`: a single element is matched with its
/// first occurrence; a longer `a` is cut in half, `b` at the best split, and
/// the halves are solved in turn.
pub open spec fn hirschberg_pairs(a: Seq<u64>, b: Seq<u64>, o1: int, o2: int) -> Seq<(usize, usize)>
    decreases a.len(),
{
    if a.len() == 0 || b.len() == 0 {
        Seq::empty()
    } else if a.len() == 1 {
        if exists|j: int| first_match(b, a[0], j) {
            let j = choose|j: int| first_match(b, a[0], j);
            seq![(o1 as usize, (o2 + j) as usize)]
        } else {
            Seq::empty()
        }
    } else {
        let mid = (a.len() / 2) as int;
        let k = best_split(a, b, mid, b.len() + 1int).0;
        hirschberg_pairs(a.take(mid), b.take(k), o1, o2) + hirschberg_pairs(a.skip(mid), b.skip(k), o1 + mid, o2 + k)
    }
}

/// The pairs `p` with `d1` added to every first and `d2` to every second
/// component.
pub open spec fn shift_pairs(p: Seq<(usize, usize)>, d1: int, d2: int) -> Seq<(usize, usize)> {
    Seq::new(p.len(), |k: int| ((p[k].0 + d1) as usize, (p[k].1 + d2) as usize))
}

/// The best cut lies among the cuts tried.
proof fn lemma_best_split_bound(a: Seq<u64>, b: Seq<u64>, mid: int, upto: int)
    ensures
        0 <= best_split(a, b, mid, upto).0,
        upto > 0 ==> best_split(a, b, mid, upto).0 < upto,
    decreases upto,
{
    if upto > 0 {
        lemma_best_split_bound(a, b, mid, upto - 1);
    }
}

/// Where Hirschberg's algorithm starts at lines `o1` and `o2`, it picks the
/// pairs it picks from lines `0` and `0`, moved by `o1` and `o2`; those lie
/// within the two sequences.
pub proof fn law_hirschberg_shift(a: Seq<u64>, b: Seq<u64>, o1: int, o2: int)
    requires
        0 <= o1,
        0 <= o2,
        o1 + a.len() <= usize::MAX,
        o2 + b.len() <= usize::MAX,
    ensures
        hirschberg_pairs(a, b, o1, o2) == shift_pairs(hirschberg_pairs(a, b, 0, 0), o1, o2),
        forall|k: int|
            0 <= k < hirschberg_pairs(a, b, 0, 0).len() ==> (#[trigger] hirschberg_pairs(a, b, 0, 0)[k]).0 < a.len()
                && hirschberg_pairs(a, b, 0, 0)[k].1 < b.len(),
    decreases a.len(),
{
    let z = hirschberg_pairs(a, b, 0, 0);
    if a.len() == 0 || b.len() == 0 {
        assert(hirschberg_pairs(a, b, o1, o2) =~= shift_pairs(z, o1, o2));
    } else if a.len() == 1 {
        if exists|j: int| first_match(b, a[0], j) {
            let j = choose|j: int| first_match(b, a[0], j);
            assert(z == seq![(0usize, j as usize)]);
            assert(hirschberg_pairs(a, b, o1, o2) =~= shift_pairs(z, o1, o2));
        } else {
            assert(hirschberg_pairs(a, b, o1, o2) =~= shift_pairs(z, o1, o2));
        }
    } else {
        let mid = (a.len() / 2) as int;
        let k = best_split(a, b, mid, b.len() + 1int).0;
        lemma_best_split_bound(a, b, mid, b.len() + 1int);
        let a1 = a.take(mid);
        let a2 = a.skip(mid);
        let b1 = b.take(k);
        let b2 = b.skip(k);
        law_hirschberg_shift(a1, b1, o1, o2);
        law_hirschberg_shift(a1, b1, 0, 0);
        law_hirschberg_shift(a2, b2, o1 + mid, o2 + k);
        law_hirschberg_shift(a2, b2, mid, k);
        let l0 = hirschberg_pairs(a1, b1, 0, 0);
        let r0 = hirschberg_pairs(a2, b2, 0, 0);
        assert(z == l0 + shift_pairs(r0, mid, k));
        assert(hirschberg_pairs(a, b, o1, o2) == hirschberg_pairs(a1, b1, o1, o2) + hirschberg_pairs(a2, b2, o1 + mid, o2 + k));
        assert forall|i: int| 0 <= i < z.len() implies (#[trigger] z[i]).0 < a.len() && z[i].1 < b.len() by {
            if i >= l0.len() {
                assert(z[i] == shift_pairs(r0, mid, k)[i - l0.len()]);
            }
        }
        assert(hirschberg_pairs(a, b, o1, o2) =~= shift_pairs(z, o1, o2)) by {
            let lhs = hirschberg_pairs(a, b, o1, o2);
            let rhs = shift_pairs(z, o1, o2);
            assert forall|i: int| 0 <= i < lhs.len() implies lhs[i] == rhs[i] by {
                if i < l0.len() {
                } else {
                    let t = i - l0.len();
                    assert(lhs[i] == shift_pairs(r0, o1 + mid, o2 + k)[t]);
                    assert(z[i] == shift_pairs(r0, mid, k)[t]);
                }
            }
        }
    }
}

/// Hirschberg's algorithm on `hashes1` and `hashes2`, whose first elements
/// stand at lines `offset1` and `offset2`.
fn hirschberg(hashes1: &[u64], hashes2: &[u64], offset1: usize, offset2: usize) -> (res: Vec<(usize, usize)>)
    requires
        offset1 + hashes1@.len() <= usize::MAX,
        offset2 + hashes2@.len() <= usize::MAX,
        hashes2@.len() < usize::MAX,
    ensures
        matching_pairs(res@, hashes1@, hashes2@, offset1 as int, offset2 as int),
        res@.len() == lcs_len(hashes1@, hashes2@),
        res@ == hirschberg_pairs(hashes1@, hashes2@, offset1 as int, offset2 as int),
    decreases hashes1@.len(),
{
    let m = hashes1.len();
    let n = hashes2.len();
    if m == 0 || n == 0 {
        return Vec::new();
    }
    if m == 1 {
        // Base case: the first position of the single element in `hashes2`.
        let x = hashes1[0];
        let mut j: usize = 0;
        while j < n
            invariant
                n == hashes2@.len(),
                m == hashes1@.len(),
                m == 1,
                x == hashes1@[0],
                offset1 + m <= usize::MAX,
                offset2 + n <= usize::MAX,
                forall|t: int| 0 <= t < j ==> hashes2@[t] != x,
            decreases n - j,
        {
            if hashes2[j] == x {
                let mut r: Vec<(usize, usize)> = Vec::new();
                r.push((offset1, offset2 + j));
                proof {
                    assert(r@[0] == (offset1, (offset2 + j) as usize));
                    assert(first_match(hashes2@, x, j as int));
                    let c = choose|c: int| first_match(hashes2@, x, c);
                    assert(c == j) by {
                        if c < j {
                            assert(hashes2@[c] != x);
                        } else if c > j {
                            assert(hashes2@[j as int] != x);
                        }
                    }
                    assert(r@ =~= seq![(offset1, (offset2 + j) as usize)]);
                    lemma_lcs_upper(r@, hashes1@, hashes2@, offset1 as int, offset2 as int);
                    lemma_lcs_len_bounded(hashes1@, hashes2@);
                }
                return r;
            }
            j += 1;
        }
        proof {
            assert(!exists|c: int| first_match(hashes2@, x, c));
            if lcs_len(hashes1@, hashes2@) > 0 {
                let w = lemma_lcs_witness(hashes1@, hashes2@);
                assert(w[0].0 == 0);
                assert(hashes2@[w[0].1 as int] == x);
            }
        }
        return Vec::new();
    }
    let mid = m / 2;
    let left1 = vstd::slice::slice_subrange(hashes1, 0, mid);
    let right_half = vstd::slice::slice_subrange(hashes1, mid, m);
    // Forward scores for the first half, backward scores for the second.
    let score_left = lcs_lengths(left1, hashes2);
    let right1 = reversed(right_half);
    let right2 = reversed(hashes2);
    assert(left1@ =~= hashes1@.take(mid as int));
    assert(right_half@ =~= hashes1@.skip(mid as int));
    let score_right = lcs_lengths(right1.as_slice(), right2.as_slice());
    // The split point of `hashes2` with the best combined score.
    let mut best_k: usize = 0;
    let mut best_score: usize = 0;
    let mut k: usize = 0;
    while k <= n
        invariant
            k == 0 ==> best_k == 0 && best_score == 0,
            k > 0 ==> best_score == score_left@[best_k as int] + score_right@[n - best_k],
            forall|j: int| 0 <= j < k ==> #[trigger] score_left@[j] + score_right@[n - j] <= best_score,
            n == hashes2@.len(),
            n < usize::MAX,
            k <= n + 1,
            best_k <= n,
            score_left@.len() == n + 1,
            score_right@.len() == n + 1,
            forall|j: int| 0 <= j <= n ==> score_left@[j] == lcs_len(left1@, #[trigger] hashes2@.take(j)),
            forall|j: int| 0 <= j <= n ==> score_right@[j] == lcs_len(right1@, #[trigger] right2@.take(j)),
            right2@.len() == n,
            m == hashes1@.len(),
            mid == m / 2,
            left1@ == hashes1@.take(mid as int),
            right1@ == hashes1@.skip(mid as int).reverse(),
            right2@ == hashes2@.reverse(),
            (best_k as int, best_score as int) == best_split(hashes1@, hashes2@, mid as int, k as int),
        decreases n + 1 - k,
    {
        proof {
            lemma_lcs_len_bounded(left1@, hashes2@.take(k as int));
            lemma_lcs_len_bounded(right1@, right2@.take(n - k));
            assert(right2@.take(n - k) =~= hashes2@.skip(k as int).reverse());
            lemma_lcs_reverse(hashes1@.skip(mid as int), hashes2@.skip(k as int));
        }
        let score = score_left[k] + score_right[n - k];
        assert(score == split_score(hashes1@, hashes2@, mid as int, k as int));
        if score > best_score {
            best_score = score;
            best_k = k;
        }
        k += 1;
    }
    let a1 = vstd::slice::slice_subrange(hashes2, 0, best_k);
    let a2 = vstd::slice::slice_subrange(hashes2, best_k, n);
    let mut result = hirschberg(left1, a1, offset1, offset2);
    let mut rest = hirschberg(right_half, a2, offset1 + mid, offset2 + best_k);
    proof {
        let h1 = hashes1@;
        let h2 = hashes2@;
        lemma_pairs_concat(result@, rest@, h1, h2, offset1 as int, offset2 as int, mid as int, best_k as int);
        assert(left1@ =~= h1.take(mid as int));
        assert(right_half@ =~= h1.skip(mid as int));
        // The best score is at least the LCS of the whole.
        let kk = lemma_lcs_split(h1, h2, mid as int);
        assert(score_left@[kk] + score_right@[n - kk] <= best_score);
        assert(right2@.take(n - kk) =~= h2.skip(kk).reverse());
        lemma_lcs_reverse(h1.skip(mid as int), h2.skip(kk));
        assert(h2.take(kk) =~= hashes2@.take(kk));
        // The two halves reach the best score.
        assert(right2@.take(n - best_k) =~= h2.skip(best_k as int).reverse());
        lemma_lcs_reverse(h1.skip(mid as int), h2.skip(best_k as int));
        assert(a1@ =~= h2.take(best_k as int));
        assert(a2@ =~= h2.skip(best_k as int));
        lemma_lcs_upper(result@ + rest@, h1, h2, offset1 as int, offset2 as int);
        assert(best_k as int == best_split(h1, h2, mid as int, h2.len() + 1int).0);
    }
    result.append(&mut rest);
    result
}

/// Matching index pairs of a longest common subsequence of the two sequences:
/// the one that Hirschberg's algorithm picks.
pub fn compute_lcs(hashes1: &[u64], hashes2: &[u64]) -> (res: Vec<(usize, usize)>)
    requires
        hashes2@.len() < usize::MAX,
    ensures
        matching_pairs(res@, hashes1@, hashes2@, 0, 0),
        res@.len() == lcs_len(hashes1@, hashes2@),
        forall|p: Seq<(usize, usize)>| matching_pairs(p, hashes1@, hashes2@, 0, 0) ==> p.len() <= res@.len(),
        res@ == hirschberg_pairs(hashes1@, hashes2@, 0, 0),
{
    let m = hashes1.len();
    let n = hashes2.len();
    if m == 0 || n == 0 {
        let res: Vec<(usize, usize)> = Vec::new();
        assert forall|p: Seq<(usize, usize)>| matching_pairs(p, hashes1@, hashes2@, 0, 0) implies p.len() <= res@.len() by {
            lemma_lcs_upper(p, hashes1@, hashes2@, 0, 0);
        }
        return res;
    }
    let res = hirschberg(hashes1, hashes2, 0, 0);
    assert forall|p: Seq<(usize, usize)>| matching_pairs(p, hashes1@, hashes2@, 0, 0) implies p.len() <= res@.len() by {
        lemma_lcs_upper(p, hashes1@, hashes2@, 0, 0);
    }
    res
}

} // verus!
