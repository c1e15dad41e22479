//! Decimal text for the numbers that moves are shown with.

use crate::fixed::{magnitude, Fixed, SCALE};
use vstd::prelude::*;
use vstd::string::StringExecFns;

verus! {

/// The character of the decimal digit `d`.
pub open spec fn digit_char(d: nat) -> char {
    if d == 0 {
        '0'
    } else if d == 1 {
        '1'
    } else if d == 2 {
        '2'
    } else if d == 3 {
        '3'
    } else if d == 4 {
        '4'
    } else if d == 5 {
        '5'
    } else if d == 6 {
        '6'
    } else if d == 7 {
        '7'
    } else if d == 8 {
        '8'
    } else {
        '9'
    }
}

/// The decimal digits of `n`, without leading zeros.
pub open spec fn decimal_text(n: nat) -> Seq<char>
    decreases n,
{
    if n < 10 {
        seq![digit_char(n)]
    } else {
        decimal_text(n / 10).push(digit_char(n % 10))
    }
}

/// The text of one decimal digit.
pub fn digit(d: u64) -> (s: &'static str)
    requires
        d < 10,
    ensures
        s@ == seq![digit_char(d as nat)],
{
    proof {
        reveal_strlit("0");
        reveal_strlit("1");
        reveal_strlit("2");
        reveal_strlit("3");
        reveal_strlit("4");
        reveal_strlit("5");
        reveal_strlit("6");
        reveal_strlit("7");
        reveal_strlit("8");
        reveal_strlit("9");
    }
    let s = if d == 0 {
        "0"
    } else if d == 1 {
        "1"
    } else if d == 2 {
        "2"
    } else if d == 3 {
        "3"
    } else if d == 4 {
        "4"
    } else if d == 5 {
        "5"
    } else if d == 6 {
        "6"
    } else if d == 7 {
        "7"
    } else if d == 8 {
        "8"
    } else {
        "9"
    };
    assert(s@ =~= seq![digit_char(d as nat)]);
    s
}

/// `n` in decimal.
pub fn decimal(n: u64) -> (s: String)
    ensures
        s@ == decimal_text(n as nat),
    decreases n,
{
    if n < 10 {
        String::from_str(digit(n))
    } else {
        let mut s = decimal(n / 10);
        s.append(digit(n % 10));
        assert(s@ =~= decimal_text(n as nat));
        s
    }
}

/// The last `width` decimal digits of `n`, with leading zeros.
pub open spec fn padded_text(n: nat, width: nat) -> Seq<char>
    decreases width,
{
    if width == 0 {
        Seq::empty()
    } else {
        padded_text(n / 10, (width - 1) as nat).push(digit_char(n % 10))
    }
}

/// A fixed-point number in decimal: a minus sign where it is negative, the
/// whole part, a point, and eight digits after it.
pub open spec fn fixed_text(raw: int) -> Seq<char> {
    let sign = if raw < 0 {
        "-"@
    } else {
        Seq::<char>::empty()
    };
    sign + decimal_text((magnitude(raw) / (SCALE as int)) as nat) + "."@ + padded_text(
        (magnitude(raw) % (SCALE as int)) as nat,
        8,
    )
}

/// The last `width` decimal digits of `n`, with leading zeros.
pub fn padded(n: u64, width: usize) -> (s: String)
    ensures
        s@ == padded_text(n as nat, width as nat),
    decreases width,
{
    if width == 0 {
        let s = String::from_str("");
        proof {
            reveal_strlit("");
        }
        assert(s@ =~= padded_text(n as nat, 0));
        s
    } else {
        let mut s = padded(n / 10, width - 1);
        s.append(digit(n % 10));
        assert(s@ =~= padded_text(n as nat, width as nat));
        s
    }
}

/// The number in decimal.
pub fn fixed_to_text(value: Fixed) -> (s: String)
    ensures
        s@ == fixed_text(value@),
{
    let raw: i64 = value.raw;
    let negative = raw < 0;
    let m: u64 = if negative {
        let wide: i128 = -(raw as i128);
        wide as u64
    } else {
        raw as u64
    };
    let whole: u64 = m / (SCALE as u64);
    let part: u64 = m % (SCALE as u64);
    let mut s = if negative {
        String::from_str("-")
    } else {
        String::from_str("")
    };
    proof {
        reveal_strlit("");
        assert(""@ =~= Seq::<char>::empty());
    }
    let w = decimal(whole);
    s.append(w.as_str());
    s.append(".");
    let f = padded(part, 8);
    s.append(f.as_str());
    assert(s@ =~= fixed_text(value@));
    s
}

} // verus!
