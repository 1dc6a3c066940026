//! Building text: repeated characters and decimal numbers.

use vstd::prelude::*;
use vstd::string::*;

verus! {

/// `count` times the character `c`.
pub open spec fn repeat(c: char, count: nat) -> Seq<char> {
    Seq::new(count, |i: int| c)
}

/// The character of the decimal digit `digit`.
pub open spec fn digit_char(digit: nat) -> char {
    (('0' as u8) + digit) as char
}

/// The decimal digits of `n`, without leading zeros.
pub open spec fn decimal(n: nat) -> Seq<char>
    decreases n,
{
    if n < 10 {
        seq![digit_char(n)]
    } else {
        decimal(n / 10).push(digit_char(n % 10))
    }
}

/// A number of twenty digits is beyond any `usize` of 64 bits.
pub proof fn lemma_decimal_len(n: nat)
    ensures
        decimal(n).len() >= 1,
        n <= u64::MAX ==> decimal(n).len() <= 20,
{
    reveal_with_fuel(decimal, 21);
}

/// Appends `count` times the character of the one-character string `c`.
pub fn push_repeat(out: &mut String, c: &str, count: usize)
    requires
        c@.len() == 1,
    ensures
        final(out)@ == old(out)@ + repeat(c@[0], count as nat),
{
    let mut i: usize = 0;
    assert(out@ =~= old(out)@ + repeat(c@[0], 0));
    while i < count
        invariant
            i <= count,
            c@.len() == 1,
            out@ == old(out)@ + repeat(c@[0], i as nat),
        decreases count - i,
    {
        out.append(c);
        i += 1;
        assert(out@ =~= old(out)@ + repeat(c@[0], i as nat));
    }
}

/// The one-character string of the decimal digit `digit`.
pub fn digit_str(digit: usize) -> (s: &'static str)
    requires
        digit < 10,
    ensures
        s@ == seq![digit_char(digit as nat)],
{
    proof {
        reveal_strlit("0");
        reveal_strlit("1");
        reveal_strlit("2");
        reveal_strlit("3");
        reveal_strlit("4");
        reveal_strlit("5");
        reveal_strlit("6");
        reveal_strlit("7");
        reveal_strlit("8");
        reveal_strlit("9");
    }
    let s = if digit == 0 {
        "0"
    } else if digit == 1 {
        "1"
    } else if digit == 2 {
        "2"
    } else if digit == 3 {
        "3"
    } else if digit == 4 {
        "4"
    } else if digit == 5 {
        "5"
    } else if digit == 6 {
        "6"
    } else if digit == 7 {
        "7"
    } else if digit == 8 {
        "8"
    } else {
        "9"
    };
    assert(s@ =~= seq![digit_char(digit as nat)]);
    s
}

/// Appends the decimal digits of `n`.
pub fn push_decimal(out: &mut String, n: usize)
    ensures
        final(out)@ == old(out)@ + decimal(n as nat),
    decreases n,
{
    if n >= 10 {
        push_decimal(out, n / 10);
    }
    out.append(digit_str(n % 10));
    assert(out@ =~= old(out)@ + decimal(n as nat));
}

/// The number of decimal digits of `n`.
pub fn decimal_len(n: usize) -> (len: usize)
    ensures
        len == decimal(n as nat).len(),
    decreases n,
{
    proof {
        lemma_decimal_len(n as nat);
    }
    if n >= 10 {
        decimal_len(n / 10) + 1
    } else {
        1
    }
}

} // verus!
