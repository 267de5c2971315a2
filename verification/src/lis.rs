//! Longest strictly increasing subsequence (by second component) of a list of
//! anchor pairs, by patience sorting with binary search.

use vstd::prelude::*;

verus! {

/// `idx` picks positions of `matches` in increasing order whose second
/// components strictly increase.
pub open spec fn increasing_run(matches: Seq<(usize, usize)>, idx: Seq<int>) -> bool {
    &&& forall|k: int| 0 <= k < idx.len() ==> 0 <= #[trigger] idx[k] < matches.len()
    &&& forall|k: int, l: int|
        0 <= k < l < idx.len() ==> (#[trigger] idx[k]) < (#[trigger] idx[l]) && matches[idx[k]].1 < matches[idx[l]].1
}

/// `res` lists the elements of `matches` at the positions `idx`.
pub open spec fn picks(res: Seq<(usize, usize)>, matches: Seq<(usize, usize)>, idx: Seq<int>) -> bool {
    &&& res.len() == idx.len()
    &&& forall|k: int| 0 <= k < idx.len() ==> res[k] == matches[#[trigger] idx[k]]
}

/// The depths recorded so far explain every increasing run: a run ending at
/// position `j` is never longer than `depth[j]`.
proof fn lemma_run_depth(matches: Seq<(usize, usize)>, idx: Seq<int>, depth: Seq<nat>)
    requires
        increasing_run(matches, idx),
        idx.len() > 0,
        depth.len() == matches.len(),
        forall|j: int| 0 <= j < depth.len() ==> #[trigger] depth[j] >= 1,
        forall|a: int, b: int|
            0 <= a < b < matches.len() && matches[a].1 < matches[b].1 ==> #[trigger] depth[a] < #[trigger] depth[b],
    ensures
        depth[idx.last()] >= idx.len(),
    decreases idx.len(),
{
    if idx.len() > 1 {
        let d = idx.drop_last();
        assert(increasing_run(matches, d)) by {
            assert forall|k: int, l: int| 0 <= k < l < d.len() implies (#[trigger] d[k]) < (#[trigger] d[l]) && matches[d[k]].1 < matches[d[l]].1 by {
                assert(d[k] == idx[k] && d[l] == idx[l]);
            }
        }
        lemma_run_depth(matches, d, depth);
        let a = idx[idx.len() - 2];
        let b = idx.last();
        assert(a < b && matches[a].1 < matches[b].1);
        assert(depth[a] < depth[b]);
    } else {
        assert(depth[idx.last()] >= 1);
    }
}

/// Length of the longest run (strictly increasing in the second component)
/// that ends at position `i` of `m`.
pub open spec fn run_len(m: Seq<(usize, usize)>, i: nat) -> nat
    decreases i, 1nat, 0nat,
{
    1 + best_before(m, i, i)
}

/// The longest run that can precede position `i`, among positions below `j`.
pub open spec fn best_before(m: Seq<(usize, usize)>, i: nat, j: nat) -> nat
    decreases i, 0nat, j,
{
    if j == 0 {
        0
    } else {
        let b = best_before(m, i, (j - 1) as nat);
        if j - 1 < i && m[j - 1].1 < m[i as int].1 && run_len(m, (j - 1) as nat) > b {
            run_len(m, (j - 1) as nat)
        } else {
            b
        }
    }
}

/// The longest run ending below position `n`.
pub open spec fn max_run(m: Seq<(usize, usize)>, n: nat) -> nat
    decreases n,
{
    if n == 0 {
        0
    } else {
        let b = max_run(m, (n - 1) as nat);
        if run_len(m, (n - 1) as nat) > b { run_len(m, (n - 1) as nat) } else { b }
    }
}

/// The last position below `below` where a run of length `d` ends, or -1.
pub open spec fn last_with(m: Seq<(usize, usize)>, d: nat, below: nat) -> int
    decreases below,
{
    if below == 0 {
        -1
    } else if run_len(m, (below - 1) as nat) == d {
        below - 1
    } else {
        last_with(m, d, (below - 1) as nat)
    }
}

/// The run of length `d` that ends at the last position below `below` where
/// one ends, each element preceded by the last possible one.
pub open spec fn pick(m: Seq<(usize, usize)>, d: nat, below: nat) -> Seq<(usize, usize)>
    decreases d,
{
    if d == 0 {
        Seq::empty()
    } else {
        let x = last_with(m, d, below);
        if x < 0 {
            Seq::empty()
        } else {
            pick(m, (d - 1) as nat, x as nat).push(m[x])
        }
    }
}

/// The longest run that patience sorting picks: it ends at the last position
/// where a longest run ends, and each element is preceded by the last
/// element before it that ends a run one shorter.
pub open spec fn patience_pick(m: Seq<(usize, usize)>) -> Seq<(usize, usize)> {
    pick(m, max_run(m, m.len()), m.len())
}

/// `best_before` is the longest run among the allowed predecessors.
proof fn lemma_best_before(m: Seq<(usize, usize)>, i: nat, j: nat)
    ensures
        forall|k: nat| k < j && k < i && m[k as int].1 < m[i as int].1 ==> run_len(m, k) <= best_before(m, i, j),
        best_before(m, i, j) == 0 || exists|k: nat|
            k < j && k < i && m[k as int].1 < m[i as int].1 && run_len(m, k) == best_before(m, i, j),
    decreases j,
{
    if j > 0 {
        lemma_best_before(m, i, (j - 1) as nat);
        let k = (j - 1) as nat;
        let b = best_before(m, i, k);
        if k < i && m[k as int].1 < m[i as int].1 && run_len(m, k) > b {
            assert(best_before(m, i, j) == run_len(m, k));
        } else {
            assert(best_before(m, i, j) == b);
        }
    }
}

/// Every longest run ending at a position is at most `max_run`.
proof fn lemma_max_run(m: Seq<(usize, usize)>, n: nat, j: nat)
    requires
        j < n,
    ensures
        run_len(m, j) <= max_run(m, n),
    decreases n,
{
    if j < n - 1 {
        lemma_max_run(m, (n - 1) as nat, j);
    }
}

/// Where `last_with` finds a position, a run of that length ends there.
proof fn lemma_last_with(m: Seq<(usize, usize)>, d: nat, below: nat)
    ensures
        last_with(m, d, below) >= 0 ==> last_with(m, d, below) < below && run_len(m, last_with(m, d, below) as nat) == d,
        last_with(m, d, below) < 0 ==> forall|k: nat| k < below ==> run_len(m, k) != d,
        last_with(m, d, below) >= 0 ==> forall|k: nat| last_with(m, d, below) < k < below ==> run_len(m, k) != d,
    decreases below,
{
    if below > 0 {
        lemma_last_with(m, d, (below - 1) as nat);
    }
}

/// What holds of every element of `m` holds of every element that `pick`
/// takes from it.
pub proof fn lemma_pick_bounded(m: Seq<(usize, usize)>, d: nat, below: nat, n1: int, n2: int)
    requires
        below <= m.len(),
        forall|t: int| 0 <= t < m.len() ==> (#[trigger] m[t]).0 < n1 && m[t].1 < n2,
    ensures
        forall|k: int| 0 <= k < pick(m, d, below).len() ==> (#[trigger] pick(m, d, below)[k]).0 < n1 && pick(m, d, below)[k].1
            < n2,
    decreases d,
{
    if d > 0 {
        let x = last_with(m, d, below);
        lemma_last_with(m, d, below);
        if x >= 0 {
            lemma_pick_bounded(m, (d - 1) as nat, x as nat, n1, n2);
            let p = pick(m, (d - 1) as nat, x as nat);
            assert forall|k: int| 0 <= k < pick(m, d, below).len() implies (#[trigger] pick(m, d, below)[k]).0 < n1
                && pick(m, d, below)[k].1 < n2 by {
                if k < p.len() {
                    assert(pick(m, d, below)[k] == p[k]);
                } else {
                    assert(pick(m, d, below)[k] == m[x]);
                }
            }
        }
    }
}

/// A longest subsequence of `matches` whose second components strictly
/// increase; among several, the one that patience sorting ends on.
pub fn longest_increasing_subsequence(matches: &[(usize, usize)]) -> (res: Vec<(usize, usize)>)
    ensures
        exists|idx: Seq<int>| increasing_run(matches@, idx) && picks(res@, matches@, idx),
        forall|idx: Seq<int>| increasing_run(matches@, idx) ==> idx.len() <= res@.len(),
        matches@.len() > 0 ==> res@.len() > 0,
        res@ == patience_pick(matches@),
{
    let n = matches.len();
    if n == 0 {
        let res: Vec<(usize, usize)> = Vec::new();
        assert(increasing_run(matches@, Seq::<int>::empty()) && picks(res@, matches@, Seq::<int>::empty()));
        assert(res@ =~= patience_pick(matches@));
        assert forall|idx: Seq<int>| increasing_run(matches@, idx) implies idx.len() <= res@.len() by {
            if idx.len() > 0 {
                assert(0 <= idx[0] < matches@.len());
            }
        }
        return res;
    }
    // tails[k]: position of the smallest last element of an increasing run of length k + 1.
    let mut tails: Vec<usize> = Vec::with_capacity(n);
    // prev[i]: position of the element before matches[i] in its run.
    let mut prev: Vec<Option<usize>> = vec![None; n];
    // depth[i]: length of the run that ends at matches[i].
    let ghost mut depth: Seq<nat> = Seq::empty();
    let mut i: usize = 0;
    while i < n
        invariant
            n == matches@.len(),
            i <= n,
            prev@.len() == n,
            depth.len() == i,
            tails@.len() <= i,
            i > 0 ==> tails@.len() > 0,
            forall|j: int| i <= j < n ==> #[trigger] prev@[j] == None::<usize>,
            forall|k: int| 0 <= k < tails@.len() ==> (#[trigger] tails@[k]) < i && depth[tails@[k] as int] == k + 1,
            forall|a: int, b: int|
                0 <= a < b < tails@.len() ==> matches@[(#[trigger] tails@[a]) as int].1 < matches@[(#[trigger] tails@[b]) as int].1,
            forall|j: int| 0 <= j < i ==> 1 <= #[trigger] depth[j] <= tails@.len(),
            forall|j: int| 0 <= j < i ==> matches@[tails@[#[trigger] depth[j] - 1] as int].1 <= matches@[j].1,
            forall|j: int| 0 <= j < i ==> match #[trigger] prev@[j] {
                Some(p) => p < j && matches@[p as int].1 < matches@[j].1 && depth[p as int] + 1 == depth[j],
                None => depth[j] == 1,
            },
            forall|a: int, b: int|
                0 <= a < b < i && matches@[a].1 < matches@[b].1 ==> #[trigger] depth[a] < #[trigger] depth[b],
            forall|j: int| 0 <= j < i ==> #[trigger] depth[j] == run_len(matches@, j as nat),
            tails@.len() == max_run(matches@, i as nat),
            forall|k: int| 0 <= k < tails@.len() ==> #[trigger] tails@[k] == last_with(matches@, (k + 1) as nat, i as nat),
            forall|j: int| 0 <= j < i ==> (#[trigger] prev@[j] matches Some(p) ==> p == last_with(matches@, (depth[j] - 1) as nat, j as nat)),
        decreases n - i,
    {
        let val = matches[i].1;
        // Leftmost position whose tail is not below `val`.
        let mut lo: usize = 0;
        let mut hi: usize = tails.len();
        while lo < hi
            invariant
                n == matches@.len(),
                i < n,
                val == matches@[i as int].1,
                lo <= hi <= tails@.len(),
                forall|k: int| 0 <= k < tails@.len() ==> (#[trigger] tails@[k]) < i,
                forall|a: int, b: int|
                    0 <= a < b < tails@.len() ==> matches@[(#[trigger] tails@[a]) as int].1 < matches@[(#[trigger] tails@[b]) as int].1,
                forall|k: int| 0 <= k < lo ==> matches@[#[trigger] tails@[k] as int].1 < val,
                forall|k: int| hi <= k < tails@.len() ==> matches@[#[trigger] tails@[k] as int].1 >= val,
            decreases hi - lo,
        {
            let mid = lo + (hi - lo) / 2;
            if matches[tails[mid]].1 < val {
                lo = mid + 1;
            } else {
                hi = mid;
            }
        }
        let pos = lo;
        proof {
            let m = matches@;
            lemma_best_before(m, i as nat, i as nat);
            if pos > 0 {
                let k0 = tails@[pos - 1];
                assert(depth[k0 as int] == pos);
                assert(m[k0 as int].1 < val);
            }
            if best_before(m, i as nat, i as nat) > 0 {
                let k = choose|k: nat| k < i && k < i && m[k as int].1 < m[i as int].1
                    && run_len(m, k) == best_before(m, i as nat, i as nat);
                assert(depth[k as int] == run_len(m, k));
                let t = tails@[depth[k as int] - 1];
                assert(m[t as int].1 <= m[k as int].1);
                if depth[k as int] - 1 >= pos {
                    assert(m[t as int].1 >= val);
                }
            }
            assert(run_len(m, i as nat) == pos + 1);
        }
        let ghost old_tails = tails@;
        if pos > 0 {
            prev.set(i, Some(tails[pos - 1]));
        }
        if pos == tails.len() {
            tails.push(i);
        } else {
            tails.set(pos, i);
        }
        proof {
            let old_depth = depth;
            depth = depth.push((pos + 1) as nat);
            assert forall|j: int| 0 <= j <= i implies 1 <= #[trigger] depth[j] <= tails@.len() by {
                if j < i {
                    assert(depth[j] == old_depth[j]);
                }
            }
            assert forall|j: int| 0 <= j <= i implies matches@[tails@[#[trigger] depth[j] - 1] as int].1 <= matches@[j].1 by {
                if j < i {
                    assert(depth[j] == old_depth[j]);
                    if depth[j] - 1 == pos {
                        assert(matches@[old_tails[pos as int] as int].1 >= val);
                    } else {
                        assert(tails@[depth[j] - 1] == old_tails[depth[j] - 1]);
                    }
                }
            }
            assert forall|k: int| 0 <= k < tails@.len() implies (#[trigger] tails@[k]) < i + 1 && depth[tails@[k] as int] == k + 1 by {
                if k != pos {
                    assert(tails@[k] == old_tails[k]);
                    assert(depth[tails@[k] as int] == old_depth[old_tails[k] as int]);
                }
            }
            assert forall|a: int, b: int| 0 <= a < b < tails@.len() implies matches@[(#[trigger] tails@[a]) as int].1 < matches@[(#[trigger] tails@[b]) as int].1 by {
                if a == pos {
                    if b < old_tails.len() {
                        assert(matches@[old_tails[pos as int] as int].1 >= val);
                        assert(matches@[old_tails[pos as int] as int].1 < matches@[old_tails[b] as int].1);
                    }
                } else if b == pos {
                    assert(matches@[old_tails[a] as int].1 < val);
                }
            }
            assert forall|j: int| 0 <= j <= i implies match #[trigger] prev@[j] {
                Some(p) => p < j && matches@[p as int].1 < matches@[j].1 && depth[p as int] + 1 == depth[j],
                None => depth[j] == 1,
            } by {
                if j < i {
                    assert(depth[j] == old_depth[j]);
                    if let Some(p) = prev@[j] {
                        assert(depth[p as int] == old_depth[p as int]);
                    }
                } else if pos > 0 {
                    assert(matches@[old_tails[pos - 1] as int].1 < val);
                    assert(depth[old_tails[pos - 1] as int] == old_depth[old_tails[pos - 1] as int]);
                }
            }
            assert forall|k: int| 0 <= k < tails@.len() implies #[trigger] tails@[k] == last_with(matches@, (k + 1) as nat, (i + 1) as nat) by {
                if k != pos {
                    assert(tails@[k] == old_tails[k]);
                }
            }
            assert forall|d: nat| d != pos + 1 implies #[trigger] last_with(matches@, d, (i + 1) as nat) == last_with(matches@, d, i as nat) by {}
            assert forall|j: int| 0 <= j <= i implies (#[trigger] prev@[j] matches Some(p) ==> p == last_with(matches@, (depth[j] - 1) as nat, j as nat)) by {
                if j < i {
                    assert(depth[j] == old_depth[j]);
                }
            }
            assert forall|j: int| 0 <= j <= i implies #[trigger] depth[j] == run_len(matches@, j as nat) by {
                if j < i {
                    assert(depth[j] == old_depth[j]);
                }
            }
            assert forall|a: int, b: int| 0 <= a < b <= i && matches@[a].1 < matches@[b].1 implies #[trigger] depth[a] < #[trigger] depth[b] by {
                assert(depth[a] == old_depth[a]);
                if b < i {
                    assert(depth[b] == old_depth[b]);
                } else {
                    // the tail at depth[a] - 1 is below val, so pos lies past it
                    let t = old_tails[old_depth[a] - 1];
                    assert(matches@[t as int].1 <= matches@[a].1);
                    if old_depth[a] - 1 >= pos {
                        assert(matches@[t as int].1 >= val);
                    }
                }
            }
        }
        i += 1;
    }
    // Follow the predecessors back from the end of the longest run.
    let len = tails.len();
    let mut backwards: Vec<(usize, usize)> = Vec::with_capacity(len);
    let ghost mut bidx: Seq<int> = Seq::empty();
    let ghost mut d: nat = len as nat;
    let ghost mut below: nat = n as nat;
    let mut cur: Option<usize> = Some(tails[len - 1]);
    proof {
        lemma_last_with(matches@, d, below);
        assert(backwards@.reverse() =~= Seq::<(usize, usize)>::empty());
        assert(patience_pick(matches@) =~= pick(matches@, d, below) + backwards@.reverse());
    }
    while cur.is_some()
        invariant
            n == matches@.len(),
            prev@.len() == n,
            depth.len() == n,
            len == tails@.len(),
            len >= 1,
            forall|j: int| 0 <= j < n ==> match #[trigger] prev@[j] {
                Some(p) => p < j && matches@[p as int].1 < matches@[j].1 && depth[p as int] + 1 == depth[j],
                None => depth[j] == 1,
            },
            backwards@.len() == bidx.len(),
            forall|k: int| 0 <= k < bidx.len() ==> backwards@[k] == matches@[#[trigger] bidx[k]],
            forall|k: int| 0 <= k < bidx.len() ==> 0 <= #[trigger] bidx[k] < n,
            forall|k: int, l: int| 0 <= k < l < bidx.len() ==> (#[trigger] bidx[k]) > (#[trigger] bidx[l])
                && matches@[bidx[k]].1 > matches@[bidx[l]].1,
            match cur {
                Some(c) => c < n && depth[c as int] + bidx.len() == len
                    && (bidx.len() > 0 ==> c < bidx.last() && matches@[c as int].1 < matches@[bidx.last()].1),
                None => bidx.len() == len,
            },
            forall|j: int| 0 <= j < n ==> #[trigger] depth[j] == run_len(matches@, j as nat),
            forall|j: int| 0 <= j < n ==> (#[trigger] prev@[j] matches Some(p) ==> p == last_with(matches@, (depth[j] - 1) as nat, j as nat)),
            below <= n,
            d + bidx.len() == len,
            cur is Some <==> d > 0,
            d > 0 ==> cur == Some(last_with(matches@, d, below) as usize) && last_with(matches@, d, below) >= 0,
            patience_pick(matches@) == pick(matches@, d, below) + backwards@.reverse(),
        decreases match cur { Some(c) => c + 1, None => 0 },
    {
        let c = cur.unwrap();
        let ghost old_back = backwards@;
        backwards.push(matches[c]);
        proof {
            bidx = bidx.push(c as int);
            let m = matches@;
            lemma_last_with(m, d, below);
            assert(run_len(m, c as nat) == d);
            assert(pick(m, d, below) == pick(m, (d - 1) as nat, c as nat).push(m[c as int]));
            assert(backwards@.reverse() =~= seq![m[c as int]] + old_back.reverse());
            assert(pick(m, d, below) + old_back.reverse() =~= pick(m, (d - 1) as nat, c as nat) + backwards@.reverse());
            if d > 1 {
                lemma_best_before(m, c as nat, c as nat);
                let k = choose|k: nat| k < c && k < c && m[k as int].1 < m[c as int].1
                    && run_len(m, k) == best_before(m, c as nat, c as nat);
                lemma_last_with(m, (d - 1) as nat, c as nat);
            }
            below = c as nat;
            d = (d - 1) as nat;
        }
        cur = prev[c];
    }
    let mut res: Vec<(usize, usize)> = Vec::with_capacity(len);
    let mut k: usize = len;
    while k > 0
        invariant
            len == backwards@.len(),
            k <= len,
            res@.len() == len - k,
            forall|x: int| 0 <= x < len - k ==> res@[x] == backwards@[len - 1 - x],
        decreases k,
    {
        k -= 1;
        res.push(backwards[k]);
    }
    assert(res@ =~= backwards@.reverse());
    assert(pick(matches@, 0, below) =~= Seq::<(usize, usize)>::empty());
    assert(patience_pick(matches@) =~= backwards@.reverse());
    let ghost idx = Seq::new(len as nat, |x: int| bidx[len - 1 - x]);
    assert(increasing_run(matches@, idx)) by {
        assert forall|a: int, b: int| 0 <= a < b < idx.len() implies (#[trigger] idx[a]) < (#[trigger] idx[b]) && matches@[idx[a]].1 < matches@[idx[b]].1 by {
            assert(idx[a] == bidx[len - 1 - a] && idx[b] == bidx[len - 1 - b]);
        }
    }
    assert(picks(res@, matches@, idx));
    assert forall|r: Seq<int>| increasing_run(matches@, r) implies r.len() <= res@.len() by {
        if r.len() > 0 {
            lemma_run_depth(matches@, r, depth);
            assert(depth[r.last()] <= len);
        }
    }
    res
}

} // verus!
