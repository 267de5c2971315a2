//! When two path strings name the same path: they are compared by their
//! components, with `/` as the separator, as `std::path::Path` compares them
//! on Unix. Repeated separators count as one, `.` components are dropped but
//! for a leading one, and a trailing separator is ignored.

use vstd::prelude::*;
use vstd::string::{StrSliceExecFns, StringExecFns};

verus! {

/// The views of a sequence of strings.
pub open spec fn views(v: Seq<String>) -> Seq<Seq<char>> {
    v.map_values(|x: String| x@)
}

/// The pieces of `s` between its separators, in order: one more than there
/// are separators.
pub open spec fn split_slash(s: Seq<char>) -> Seq<Seq<char>>
    decreases s.len(),
{
    if s.len() == 0 {
        seq![Seq::empty()]
    } else {
        let rest = split_slash(s.drop_last());
        if s.last() == '/' {
            rest.push(Seq::empty())
        } else {
            rest.update(rest.len() - 1, rest.last().push(s.last()))
        }
    }
}

/// A piece that names a component: neither empty nor `.`.
pub open spec fn named_piece(g: Seq<char>) -> bool {
    g.len() > 0 && g != seq!['.']
}

/// The components of `s` after its root: the pieces that are neither empty
/// nor `.`, preceded by a `.` where `s` starts with one.
pub open spec fn path_parts(s: Seq<char>) -> Seq<Seq<char>> {
    let pieces = split_slash(s);
    let named = pieces.filter(|g: Seq<char>| named_piece(g));
    if pieces[0] == seq!['.'] {
        seq![seq!['.']] + named
    } else {
        named
    }
}

/// The parts joined by separators.
pub open spec fn join_parts(p: Seq<Seq<char>>) -> Seq<char>
    decreases p.len(),
{
    if p.len() == 0 {
        Seq::empty()
    } else if p.len() == 1 {
        p[0]
    } else {
        join_parts(p.drop_last()) + seq!['/'] + p.last()
    }
}

/// The normal form of a path: its root, if any, then its components joined
/// by separators. Two paths are the same path exactly when their keys agree.
pub open spec fn path_key(s: Seq<char>) -> Seq<char> {
    let root: Seq<char> = if s.len() > 0 && s[0] == '/' {
        seq!['/']
    } else {
        Seq::empty()
    };
    root + join_parts(path_parts(s))
}

/// The pieces of `s` between its separators.
fn split_pieces(s: &str) -> (pieces: Vec<String>)
    ensures
        views(pieces@) == split_slash(s@),
{
    let n = s.unicode_len();
    let mut pieces: Vec<String> = Vec::new();
    let mut start: usize = 0;
    let mut i: usize = 0;
    assert(s@.take(0) =~= Seq::<char>::empty());
    assert(views(pieces@).push(s@.subrange(0, 0)) =~= seq![Seq::<char>::empty()]);
    while i < n
        invariant
            n == s@.len(),
            start <= i <= n,
            views(pieces@).push(s@.subrange(start as int, i as int)) == split_slash(s@.take(i as int)),
        decreases n - i,
    {
        let c = s.get_char(i);
        let ghost t = s@.take(i + 1);
        assert(t.drop_last() =~= s@.take(i as int));
        assert(t.last() == c);
        if c == '/' {
            let piece = String::from_str(s.substring_char(start, i));
            let ghost before = views(pieces@);
            pieces.push(piece);
            assert(views(pieces@) =~= before.push(s@.subrange(start as int, i as int)));
            start = i + 1;
            assert(s@.subrange(start as int, i + 1) =~= Seq::<char>::empty());
            assert(views(pieces@).push(s@.subrange(start as int, i + 1)) =~= split_slash(t));
        } else {
            let ghost before = views(pieces@);
            assert(s@.subrange(start as int, i + 1) =~= s@.subrange(start as int, i as int).push(c));
            assert(before.push(s@.subrange(start as int, i + 1)) =~= split_slash(t));
        }
        i += 1;
    }
    let piece = String::from_str(s.substring_char(start, n));
    let ghost before = views(pieces@);
    pieces.push(piece);
    assert(views(pieces@) =~= before.push(s@.subrange(start as int, n as int)));
    assert(s@.take(n as int) =~= s@);
    pieces
}

/// The pieces are never none.
proof fn lemma_split_nonempty(s: Seq<char>)
    ensures
        split_slash(s).len() >= 1,
    decreases s.len(),
{
    if s.len() > 0 {
        lemma_split_nonempty(s.drop_last());
    }
}

/// The components of a path after its root.
fn parts_of(s: &str) -> (parts: Vec<String>)
    ensures
        views(parts@) == path_parts(s@),
{
    let pieces = split_pieces(s);
    proof {
        lemma_split_nonempty(s@);
    }
    let ghost ps = views(pieces@);
    let ghost pred = |g: Seq<char>| named_piece(g);
    let first = pieces[0].as_str();
    let lead = first.unicode_len() == 1 && first.get_char(0) == '.';
    assert(lead == (ps[0] == seq!['.'])) by {
        assert(ps[0] == pieces@[0]@);
        if ps[0].len() == 1 {
            if ps[0][0] == '.' {
                assert(ps[0] =~= seq!['.']);
            }
        }
    }
    let mut parts: Vec<String> = Vec::new();
    if lead {
        parts.push(String::from_str("."));
    }
    let ghost head: Seq<Seq<char>> = if lead {
        seq![seq!['.']]
    } else {
        Seq::empty()
    };
    proof {
        reveal(Seq::filter);
        assert(ps.take(0) =~= Seq::<Seq<char>>::empty());
        assert(ps.take(0).filter(pred) =~= Seq::<Seq<char>>::empty());
        if lead {
            reveal_strlit(".");
            assert(parts@.len() == 1);
            assert(parts@[0]@ =~= seq!['.']);
            assert(views(parts@)[0] == parts@[0]@);
            assert(views(parts@) =~= seq![seq!['.']]);
        }
    }
    assert(views(parts@) =~= head + ps.take(0).filter(pred));
    let n = pieces.len();
    let mut k: usize = 0;
    while k < n
        invariant
            n == pieces@.len(),
            ps == views(pieces@),
            k <= n,
            pred == (|g: Seq<char>| named_piece(g)),
            views(parts@) == head + ps.take(k as int).filter(pred),
        decreases n - k,
    {
        reveal(Seq::filter);
        assert(ps.take(k + 1).drop_last() =~= ps.take(k as int));
        assert(ps.take(k + 1).last() == ps[k as int]);
        let piece = pieces[k].as_str();
        assert(piece@ == ps[k as int]);
        let len = piece.unicode_len();
        let is_dot = len == 1 && piece.get_char(0) == '.';
        assert(is_dot == (piece@ == seq!['.'])) by {
            if piece@.len() == 1 && piece@[0] == '.' {
                assert(piece@ =~= seq!['.']);
            }
        }
        if len > 0 && !is_dot {
            let ghost before = views(parts@);
            parts.push(String::from_str(piece));
            assert(views(parts@) =~= before.push(piece@));
            assert(views(parts@) =~= head + ps.take(k + 1).filter(pred));
        }
        k += 1;
    }
    assert(ps.take(n as int) =~= ps);
    parts
}

/// The key of a path: two paths are the same path exactly when their keys
/// are equal.
pub fn path_key_of(s: &str) -> (key: String)
    ensures
        key@ == path_key(s@),
{
    let parts = parts_of(s);
    let ghost p = views(parts@);
    let rooted = s.unicode_len() > 0 && s.get_char(0) == '/';
    let mut key = if rooted {
        String::from_str("/")
    } else {
        String::new()
    };
    let ghost root = key@;
    proof {
        reveal_strlit("/");
        if rooted {
            assert(root =~= seq!['/']);
        } else {
            assert(root =~= Seq::<char>::empty());
        }
    }
    assert(key@ =~= root + join_parts(p.take(0)));
    let n = parts.len();
    let mut k: usize = 0;
    while k < n
        invariant
            n == parts@.len(),
            p == views(parts@),
            k <= n,
            key@ == root + join_parts(p.take(k as int)),
        decreases n - k,
    {
        let ghost t = p.take(k + 1);
        assert(t.drop_last() =~= p.take(k as int));
        assert(t.last() == p[k as int]);
        assert(parts@[k as int]@ == p[k as int]);
        if k > 0 {
            key.append("/");
            proof {
                reveal_strlit("/");
            }
        }
        key.append(parts[k].as_str());
        if k == 0 {
            assert(t =~= seq![p[0]]);
        }
        assert(key@ =~= root + join_parts(t));
        k += 1;
    }
    assert(p.take(n as int) =~= p);
    key
}

} // verus!
