//! Decimal numerals and their assembly into text.

use vstd::prelude::*;

verus! {

/// The character of a decimal digit.
pub open spec fn digit_char(d: nat) -> char {
    (0x30 + d) as char
}

/// The decimal numeral of a number, without leading zeros.
pub open spec fn decimal(n: nat) -> Seq<char>
    decreases n,
{
    if n < 10 {
        seq![digit_char(n)]
    } else {
        decimal(n / 10).push(digit_char(n % 10))
    }
}

/// A number of tenths with one digit behind the point.
pub open spec fn tenths(n: nat) -> Seq<char> {
    decimal(n / 10) + "."@ + decimal(n % 10)
}

fn digit_text(d: u64) -> (r: &'static str)
    requires
        d < 10,
    ensures
        r@ == seq![digit_char(d as nat)],
{
    proof {
        reveal_strlit("0");
        reveal_strlit("1");
        reveal_strlit("2");
        reveal_strlit("3");
        reveal_strlit("4");
        reveal_strlit("5");
        reveal_strlit("6");
        reveal_strlit("7");
        reveal_strlit("8");
        reveal_strlit("9");
    }
    if d == 0 {
        "0"
    } else if d == 1 {
        "1"
    } else if d == 2 {
        "2"
    } else if d == 3 {
        "3"
    } else if d == 4 {
        "4"
    } else if d == 5 {
        "5"
    } else if d == 6 {
        "6"
    } else if d == 7 {
        "7"
    } else if d == 8 {
        "8"
    } else {
        "9"
    }
}

/// Appends the decimal numeral of a number.
pub fn append_decimal(out: &mut String, n: u64)
    ensures
        final(out)@ == old(out)@ + decimal(n as nat),
    decreases n,
{
    if n >= 10 {
        append_decimal(out, n / 10);
    }
    out.append(digit_text(n % 10));
    assert(out@ =~= old(out)@ + decimal(n as nat));
}

/// Appends a number of tenths with one digit behind the point.
pub fn append_tenths(out: &mut String, n: u64)
    ensures
        final(out)@ == old(out)@ + tenths(n as nat),
{
    append_decimal(out, n / 10);
    out.append(".");
    append_decimal(out, n % 10);
    assert(out@ =~= old(out)@ + tenths(n as nat));
}

pub open spec fn is_digit_char(c: char) -> bool {
    0x30 <= c as u32 <= 0x39
}

/// The number that a run of digit characters stands for.
pub open spec fn decimal_value(digits: Seq<char>) -> nat
    decreases digits.len(),
{
    if digits.len() == 0 {
        0
    } else {
        10 * decimal_value(digits.drop_last()) + (digits.last() as u32 - 0x30) as nat
    }
}

/// A numeral stands for the number it was written for.
pub proof fn law_decimal_value(n: nat)
    ensures
        decimal_value(decimal(n)) == n,
        decimal(n).len() > 0,
        forall|i: int| 0 <= i < decimal(n).len() ==> is_digit_char(#[trigger] decimal(n)[i]),
    decreases n,
{
    if n < 10 {
        assert(decimal(n).drop_last() =~= Seq::<char>::empty());
        assert(decimal_value(Seq::<char>::empty()) == 0);
    } else {
        law_decimal_value(n / 10);
        assert(decimal(n).drop_last() =~= decimal(n / 10));
    }
}

/// One more digit stands behind the numeral of the number without it; a single
/// digit stands alone, and no numeral but that of zero starts with zero.
pub proof fn law_digits_follow(n: nat, d: nat)
    requires
        d < 10,
    ensures
        decimal(d) == seq![(0x30 + d) as char],
        n > 0 ==> decimal(10 * n + d) == decimal(n).push((0x30 + d) as char),
        n > 0 ==> decimal(n)[0] != '0',
    decreases n,
{
    if n > 0 {
        assert((10 * n + d) / 10 == n && (10 * n + d) % 10 == d);
        law_decimal_value(n / 10);
        if n >= 10 {
            law_digits_follow(n / 10, 0);
        }
    }
}

/// A number of tenths is that number with a point before its last digit, and a
/// zero before the point where nothing else is.
pub proof fn law_tenths_are_pointed(n: nat)
    ensures
        ({
            let t = tenths(n);
            let k = t.len() - 2;
            &&& t.len() >= 3
            &&& t[k] == '.'
            &&& is_digit_char(t[k + 1])
            &&& decimal_value(t.subrange(0, k).push(t[k + 1])) == n
            &&& t[0] == '0' ==> k == 1
        }),
{
    reveal_strlit(".");
    let t = tenths(n);
    let k = t.len() - 2;
    law_decimal_value(n / 10);
    law_decimal_value(n % 10);
    law_digits_follow(n / 10, n % 10);
    assert(t.subrange(0, k) =~= decimal(n / 10));
    let s = t.subrange(0, k).push(t[k + 1]);
    assert(s.drop_last() =~= decimal(n / 10));
    assert(t[0] == decimal(n / 10)[0]);
}

} // verus!
