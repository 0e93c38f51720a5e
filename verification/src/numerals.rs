//! Decimal and uppercase hexadecimal rendering of unsigned numbers,
//! used for device-node contents, carved-file names and per-offset
//! output directories.

use vstd::prelude::*;
use vstd::string::*;

verus! {

pub open spec fn dec_digit(d: int) -> char {
    if d == 0 {
        '0'
    } else if d == 1 {
        '1'
    } else if d == 2 {
        '2'
    } else if d == 3 {
        '3'
    } else if d == 4 {
        '4'
    } else if d == 5 {
        '5'
    } else if d == 6 {
        '6'
    } else if d == 7 {
        '7'
    } else if d == 8 {
        '8'
    } else {
        '9'
    }
}

pub open spec fn hex_digit(d: int) -> char {
    if d < 10 {
        dec_digit(d)
    } else if d == 10 {
        'A'
    } else if d == 11 {
        'B'
    } else if d == 12 {
        'C'
    } else if d == 13 {
        'D'
    } else if d == 14 {
        'E'
    } else {
        'F'
    }
}

/// The decimal rendering of `n`, most significant digit first.
pub open spec fn spec_decimal(n: int) -> Seq<char>
    decreases n,
{
    if n < 10 {
        seq![dec_digit(n)]
    } else {
        spec_decimal(n / 10).push(dec_digit(n % 10))
    }
}

/// The uppercase hexadecimal rendering of `n`, without any prefix.
pub open spec fn spec_hex_upper(n: int) -> Seq<char>
    decreases n,
{
    if n < 16 {
        seq![hex_digit(n)]
    } else {
        spec_hex_upper(n / 16).push(hex_digit(n % 16))
    }
}

pub proof fn lemma_decimal_ascii(n: int)
    ensures
        forall|i: int|
            0 <= i < spec_decimal(n).len() ==> '\0' <= #[trigger] spec_decimal(n)[i] <= '\u{7f}',
    decreases n,
{
    if n < 10 {
    } else {
        lemma_decimal_ascii(n / 10);
        assert(forall|i: int|
            0 <= i < spec_decimal(n).len() - 1
                ==> #[trigger] spec_decimal(n)[i] == spec_decimal(n / 10)[i]);
        assert(spec_decimal(n).last() == dec_digit(n % 10));
    }
}

fn digit_str(d: usize) -> (r: &'static str)
    requires
        d < 10,
    ensures
        r@ == seq![dec_digit(d as int)],
{
    if d == 0 {
        proof { reveal_strlit("0"); }
        assert("0"@ =~= seq![dec_digit(0)]);
        "0"
    } else if d == 1 {
        proof { reveal_strlit("1"); }
        assert("1"@ =~= seq![dec_digit(1)]);
        "1"
    } else if d == 2 {
        proof { reveal_strlit("2"); }
        assert("2"@ =~= seq![dec_digit(2)]);
        "2"
    } else if d == 3 {
        proof { reveal_strlit("3"); }
        assert("3"@ =~= seq![dec_digit(3)]);
        "3"
    } else if d == 4 {
        proof { reveal_strlit("4"); }
        assert("4"@ =~= seq![dec_digit(4)]);
        "4"
    } else if d == 5 {
        proof { reveal_strlit("5"); }
        assert("5"@ =~= seq![dec_digit(5)]);
        "5"
    } else if d == 6 {
        proof { reveal_strlit("6"); }
        assert("6"@ =~= seq![dec_digit(6)]);
        "6"
    } else if d == 7 {
        proof { reveal_strlit("7"); }
        assert("7"@ =~= seq![dec_digit(7)]);
        "7"
    } else if d == 8 {
        proof { reveal_strlit("8"); }
        assert("8"@ =~= seq![dec_digit(8)]);
        "8"
    } else {
        proof { reveal_strlit("9"); }
        assert("9"@ =~= seq![dec_digit(9)]);
        "9"
    }
}

fn hex_digit_str(d: usize) -> (r: &'static str)
    requires
        d < 16,
    ensures
        r@ == seq![hex_digit(d as int)],
{
    if d < 10 {
        digit_str(d)
    } else if d == 10 {
        proof { reveal_strlit("A"); }
        assert("A"@ =~= seq![hex_digit(10)]);
        "A"
    } else if d == 11 {
        proof { reveal_strlit("B"); }
        assert("B"@ =~= seq![hex_digit(11)]);
        "B"
    } else if d == 12 {
        proof { reveal_strlit("C"); }
        assert("C"@ =~= seq![hex_digit(12)]);
        "C"
    } else if d == 13 {
        proof { reveal_strlit("D"); }
        assert("D"@ =~= seq![hex_digit(13)]);
        "D"
    } else if d == 14 {
        proof { reveal_strlit("E"); }
        assert("E"@ =~= seq![hex_digit(14)]);
        "E"
    } else {
        proof { reveal_strlit("F"); }
        assert("F"@ =~= seq![hex_digit(15)]);
        "F"
    }
}

/// Renders `n` in decimal.
pub fn decimal_string(n: usize) -> (r: String)
    ensures
        r@ == spec_decimal(n as int),
    decreases n,
{
    if n < 10 {
        String::from_str(digit_str(n))
    } else {
        let mut s = decimal_string(n / 10);
        s.append(digit_str(n % 10));
        proof {
            assert(spec_decimal((n / 10) as int) + seq![dec_digit((n % 10) as int)]
                =~= spec_decimal((n / 10) as int).push(dec_digit((n % 10) as int)));
        }
        s
    }
}

/// Renders `n` in uppercase hexadecimal, as `{:X}` formatting would.
pub fn hex_upper_string(n: usize) -> (r: String)
    ensures
        r@ == spec_hex_upper(n as int),
    decreases n,
{
    if n < 16 {
        String::from_str(hex_digit_str(n))
    } else {
        let mut s = hex_upper_string(n / 16);
        s.append(hex_digit_str(n % 16));
        proof {
            assert(spec_hex_upper((n / 16) as int) + seq![hex_digit((n % 16) as int)]
                =~= spec_hex_upper((n / 16) as int).push(hex_digit((n % 16) as int)));
        }
        s
    }
}

} // verus!
