//! Decimal text for the integers the toolchain prints and emits: the
//! specification of a number's decimal digits, and verified rendering.

use vstd::prelude::*;
use vstd::string::StrSliceExecFns;
use vstd::string::StringExecFns;

verus! {

/// The character for one decimal digit value.
pub open spec fn dec_digit_char(d: int) -> char {
    if d == 0 {
        '0'
    } else if d == 1 {
        '1'
    } else if d == 2 {
        '2'
    } else if d == 3 {
        '3'
    } else if d == 4 {
        '4'
    } else if d == 5 {
        '5'
    } else if d == 6 {
        '6'
    } else if d == 7 {
        '7'
    } else if d == 8 {
        '8'
    } else {
        '9'
    }
}

/// The decimal digits of a non-negative integer, most significant first,
/// with no leading zero except for the number zero itself.
pub open spec fn dec_seq(n: nat) -> Seq<char>
    decreases n,
{
    if n < 10 {
        seq![dec_digit_char(n as int)]
    } else {
        dec_seq(n / 10) + seq![dec_digit_char((n % 10) as int)]
    }
}

/// The decimal text of a 32-bit signed integer: a minus sign for negative
/// values, then the digits of the magnitude.
pub open spec fn i32_dec_seq(v: i32) -> Seq<char> {
    if v >= 0 {
        dec_seq(v as nat)
    } else {
        seq!['-'] + dec_seq((-(v as int)) as nat)
    }
}

/// A one-character string for one decimal digit value.
fn digit_str(d: u64) -> (r: &'static str)
    requires
        d < 10,
    ensures
        r@ =~= seq![dec_digit_char(d as int)],
{
    proof {
        reveal_strlit("0");
        reveal_strlit("1");
        reveal_strlit("2");
        reveal_strlit("3");
        reveal_strlit("4");
        reveal_strlit("5");
        reveal_strlit("6");
        reveal_strlit("7");
        reveal_strlit("8");
        reveal_strlit("9");
    }
    if d == 0 {
        "0"
    } else if d == 1 {
        "1"
    } else if d == 2 {
        "2"
    } else if d == 3 {
        "3"
    } else if d == 4 {
        "4"
    } else if d == 5 {
        "5"
    } else if d == 6 {
        "6"
    } else if d == 7 {
        "7"
    } else if d == 8 {
        "8"
    } else {
        "9"
    }
}

/// Render a non-negative integer as its decimal digits.
pub fn u64_to_string(n: u64) -> (r: String)
    ensures
        r@ == dec_seq(n as nat),
    decreases n,
{
    if n < 10 {
        digit_str(n).to_owned()
    } else {
        let prefix = u64_to_string(n / 10);
        let r = prefix.concat(digit_str(n % 10));
        proof {
            assert(r@ =~= dec_seq(n as nat));
        }
        r
    }
}

/// Render a non-negative machine-sized integer as its decimal digits.
pub fn usize_to_string(n: usize) -> (r: String)
    ensures
        r@ == dec_seq(n as nat),
{
    u64_to_string(n as u64)
}

/// Render a 32-bit signed integer as decimal text, minus sign included.
pub fn i32_to_string(v: i32) -> (r: String)
    ensures
        r@ == i32_dec_seq(v),
{
    if v >= 0 {
        u64_to_string(v as u64)
    } else {
        let magnitude: u64 = (-(v as i64)) as u64;
        assert(magnitude as int == -(v as int));
        let r = "-".to_owned().concat(u64_to_string(magnitude).as_str());
        proof {
            reveal_strlit("-");
            assert(r@ =~= i32_dec_seq(v));
        }
        r
    }
}

} // verus!
