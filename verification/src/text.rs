//! Building text: decimal numerals and right-aligned fields.

use vstd::prelude::*;
use vstd::string::StringExecFns;

verus! {

/// The decimal digit for `d < 10`.
pub open spec fn digit(d: nat) -> char {
    if d == 0 {
        '0'
    } else if d == 1 {
        '1'
    } else if d == 2 {
        '2'
    } else if d == 3 {
        '3'
    } else if d == 4 {
        '4'
    } else if d == 5 {
        '5'
    } else if d == 6 {
        '6'
    } else if d == 7 {
        '7'
    } else if d == 8 {
        '8'
    } else {
        '9'
    }
}

/// The decimal numeral of `n`, without leading zeros.
pub open spec fn decimal(n: nat) -> Seq<char>
    decreases n,
{
    if n < 10 {
        seq![digit(n)]
    } else {
        decimal(n / 10).push(digit(n % 10))
    }
}

/// `s` right-aligned in a field of `width` characters, padded with spaces;
/// longer text is kept whole.
pub open spec fn right_aligned(s: Seq<char>, width: nat) -> Seq<char> {
    if s.len() >= width {
        s
    } else {
        Seq::new((width - s.len()) as nat, |i: int| ' ') + s
    }
}

/// The one-character string for the digit `d`.
fn digit_str(d: usize) -> (s: &'static str)
    requires
        d < 10,
    ensures
        s@ == seq![digit(d as nat)],
{
    if d == 0 {
        proof { reveal_strlit("0"); }
        "0"
    } else if d == 1 {
        proof { reveal_strlit("1"); }
        "1"
    } else if d == 2 {
        proof { reveal_strlit("2"); }
        "2"
    } else if d == 3 {
        proof { reveal_strlit("3"); }
        "3"
    } else if d == 4 {
        proof { reveal_strlit("4"); }
        "4"
    } else if d == 5 {
        proof { reveal_strlit("5"); }
        "5"
    } else if d == 6 {
        proof { reveal_strlit("6"); }
        "6"
    } else if d == 7 {
        proof { reveal_strlit("7"); }
        "7"
    } else if d == 8 {
        proof { reveal_strlit("8"); }
        "8"
    } else {
        proof { reveal_strlit("9"); }
        "9"
    }
}

/// Appends the decimal numeral of `n`.
pub fn push_decimal(out: &mut String, n: usize)
    ensures
        final(out)@ == old(out)@ + decimal(n as nat),
    decreases n,
{
    if n >= 10 {
        push_decimal(out, n / 10);
    }
    out.append(digit_str(n % 10));
    assert(decimal(n as nat) == if n < 10 { seq![digit(n as nat)] } else { decimal((n / 10) as nat).push(digit((n % 10) as nat)) });
    if n < 10 {
        assert(n % 10 == n);
    }
}

/// The decimal numeral of `n`.
pub fn decimal_string(n: usize) -> (s: String)
    ensures
        s@ == decimal(n as nat),
{
    let mut s = String::new();
    push_decimal(&mut s, n);
    s
}

/// Appends `s` right-aligned in a field of `width` characters.
pub fn push_right_aligned(out: &mut String, s: &str, width: usize)
    ensures
        final(out)@ == old(out)@ + right_aligned(s@, width as nat),
{
    let n = s.unicode_len();
    let mut pad: usize = 0;
    let ghost start = out@;
    if n < width {
        while pad < width - n
            invariant
                n < width,
                pad <= width - n,
                out@ == start + Seq::new(pad as nat, |i: int| ' '),
            decreases width - n - pad,
        {
            out.append(" ");
            proof {
                reveal_strlit(" ");
                assert(Seq::new((pad + 1) as nat, |i: int| ' ') =~= Seq::new(pad as nat, |i: int| ' ') + " "@);
            }
            pad += 1;
        }
    }
    out.append(s);
    proof {
        if n >= width {
            assert(Seq::new(0, |i: int| ' ') + s@ =~= s@);
        }
        assert(start + Seq::new(pad as nat, |i: int| ' ') + s@ =~= start + (Seq::new(pad as nat, |i: int| ' ') + s@));
    }
}

} // verus!
