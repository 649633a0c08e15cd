//! Decimal rendering of counters and byte values, used by the structured
//! records and the progress reporter.

use vstd::prelude::*;
use vstd::string::*;

verus! {

/// The decimal digit for a value below 10.
pub open spec fn dec_digit_char(d: int) -> char {
    if d == 0 {
        '0'
    } else if d == 1 {
        '1'
    } else if d == 2 {
        '2'
    } else if d == 3 {
        '3'
    } else if d == 4 {
        '4'
    } else if d == 5 {
        '5'
    } else if d == 6 {
        '6'
    } else if d == 7 {
        '7'
    } else if d == 8 {
        '8'
    } else {
        '9'
    }
}

/// The decimal digits of `v`, most significant first, with no leading
/// zeros (a single `'0'` for zero).
pub open spec fn dec_digits(v: nat) -> Seq<char>
    decreases v,
{
    if v < 10 {
        seq![dec_digit_char(v as int)]
    } else {
        dec_digits(v / 10).push(dec_digit_char((v % 10) as int))
    }
}

fn dec_digit_str(d: u64) -> (r: &'static str)
    requires
        d < 10,
    ensures
        r@ == seq![dec_digit_char(d as int)],
{
    if d == 0 {
        proof {
            reveal_strlit("0");
            assert("0"@ =~= seq![dec_digit_char(0)]);
        }
        "0"
    } else if d == 1 {
        proof {
            reveal_strlit("1");
            assert("1"@ =~= seq![dec_digit_char(1)]);
        }
        "1"
    } else if d == 2 {
        proof {
            reveal_strlit("2");
            assert("2"@ =~= seq![dec_digit_char(2)]);
        }
        "2"
    } else if d == 3 {
        proof {
            reveal_strlit("3");
            assert("3"@ =~= seq![dec_digit_char(3)]);
        }
        "3"
    } else if d == 4 {
        proof {
            reveal_strlit("4");
            assert("4"@ =~= seq![dec_digit_char(4)]);
        }
        "4"
    } else if d == 5 {
        proof {
            reveal_strlit("5");
            assert("5"@ =~= seq![dec_digit_char(5)]);
        }
        "5"
    } else if d == 6 {
        proof {
            reveal_strlit("6");
            assert("6"@ =~= seq![dec_digit_char(6)]);
        }
        "6"
    } else if d == 7 {
        proof {
            reveal_strlit("7");
            assert("7"@ =~= seq![dec_digit_char(7)]);
        }
        "7"
    } else if d == 8 {
        proof {
            reveal_strlit("8");
            assert("8"@ =~= seq![dec_digit_char(8)]);
        }
        "8"
    } else {
        proof {
            reveal_strlit("9");
            assert("9"@ =~= seq![dec_digit_char(9)]);
        }
        "9"
    }
}

/// The decimal digits of `v`, most significant first.
pub fn u64_dec_digits(v: u64) -> (r: String)
    ensures
        r@ == dec_digits(v as nat),
    decreases v,
{
    if v < 10 {
        String::from_str(dec_digit_str(v))
    } else {
        let mut s = u64_dec_digits(v / 10);
        s.append(dec_digit_str(v % 10));
        proof {
            assert(s@ =~= dec_digits((v / 10) as nat).push(dec_digit_char((v % 10) as int)));
        }
        s
    }
}

/// `v` rendered in decimal, left-padded with `'0'` to two digits.
pub open spec fn dec_pad2(v: nat) -> Seq<char> {
    if v < 10 {
        seq!['0'] + dec_digits(v)
    } else {
        dec_digits(v)
    }
}

/// Renders `v` in decimal, zero-filled to at least two digits.
pub fn u64_dec_pad2(v: u64) -> (r: String)
    ensures
        r@ == dec_pad2(v as nat),
{
    if v < 10 {
        let mut s = String::from_str("0");
        let d = u64_dec_digits(v);
        s.append(d.as_str());
        proof {
            reveal_strlit("0");
            assert("0"@ =~= seq!['0']);
            assert(s@ =~= seq!['0'] + dec_digits(v as nat));
        }
        s
    } else {
        u64_dec_digits(v)
    }
}

}
