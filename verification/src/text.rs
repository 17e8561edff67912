//! Decimal numerals and fixed-width alignment of short pieces of text.

use vstd::prelude::*;
use vstd::string::StringExecFns;
use vstd::string::StrSliceExecFns;

verus! {

/// The character that stands for the digit `d`, for `d` below ten.
pub open spec fn digit_char(d: nat) -> char {
    if d == 0 {
        '0'
    } else if d == 1 {
        '1'
    } else if d == 2 {
        '2'
    } else if d == 3 {
        '3'
    } else if d == 4 {
        '4'
    } else if d == 5 {
        '5'
    } else if d == 6 {
        '6'
    } else if d == 7 {
        '7'
    } else if d == 8 {
        '8'
    } else {
        '9'
    }
}

/// The decimal numeral of `n`: no sign, no leading zero, `"0"` for zero.
pub open spec fn decimal(n: nat) -> Seq<char>
    decreases n,
{
    if n < 10 {
        seq![digit_char(n)]
    } else {
        decimal(n / 10).push(digit_char(n % 10))
    }
}

/// `count` spaces.
pub open spec fn spaces(count: nat) -> Seq<char> {
    Seq::new(count, |i: int| ' ')
}

/// `s` aligned to the right in a field of `width` characters: spaces are put
/// in front of a shorter `s`, and a longer one is left as it is.
pub open spec fn pad_left(s: Seq<char>, width: nat) -> Seq<char> {
    if s.len() >= width {
        s
    } else {
        spaces((width - s.len()) as nat) + s
    }
}

fn digit_str(d: u64) -> (s: &'static str)
    requires
        d < 10,
    ensures
        s@ == seq![digit_char(d as nat)],
{
    proof {
        reveal_strlit("0");
        reveal_strlit("1");
        reveal_strlit("2");
        reveal_strlit("3");
        reveal_strlit("4");
        reveal_strlit("5");
        reveal_strlit("6");
        reveal_strlit("7");
        reveal_strlit("8");
        reveal_strlit("9");
    }
    let s = if d == 0 {
        "0"
    } else if d == 1 {
        "1"
    } else if d == 2 {
        "2"
    } else if d == 3 {
        "3"
    } else if d == 4 {
        "4"
    } else if d == 5 {
        "5"
    } else if d == 6 {
        "6"
    } else if d == 7 {
        "7"
    } else if d == 8 {
        "8"
    } else {
        "9"
    };
    assert(s@ =~= seq![digit_char(d as nat)]);
    s
}

/// Writes the decimal numeral of `n` at the end of `out`.
pub fn append_decimal(out: &mut String, n: u64)
    ensures
        final(out)@ == old(out)@ + decimal(n as nat),
    decreases n,
{
    if n >= 10 {
        append_decimal(out, n / 10);
    }
    out.append(digit_str(n % 10));
    assert(out@ =~= old(out)@ + decimal(n as nat));
}

/// The decimal numeral of `n` as a string.
pub fn decimal_string(n: u64) -> (s: String)
    ensures
        s@ == decimal(n as nat),
{
    let mut s = String::new();
    append_decimal(&mut s, n);
    assert(s@ =~= decimal(n as nat));
    s
}

/// Writes `count` spaces at the end of `out`.
pub fn append_spaces(out: &mut String, count: usize)
    ensures
        final(out)@ == old(out)@ + spaces(count as nat),
{
    let mut done: usize = 0;
    assert(out@ =~= old(out)@ + spaces(0));
    while done < count
        invariant
            done <= count,
            out@ == old(out)@ + spaces(done as nat),
        decreases count - done,
    {
        proof {
            reveal_strlit(" ");
        }
        out.append(" ");
        done = done + 1;
        assert(out@ =~= old(out)@ + spaces(done as nat));
    }
}

/// Writes `piece` at the end of `out`, aligned to the right in a field of
/// `width` characters.
pub fn append_padded(out: &mut String, piece: &str, width: usize)
    ensures
        final(out)@ == old(out)@ + pad_left(piece@, width as nat),
{
    let len = piece.unicode_len();
    if len < width {
        append_spaces(out, width - len);
    }
    out.append(piece);
    assert(out@ =~= old(out)@ + pad_left(piece@, width as nat));
}

} // verus!
