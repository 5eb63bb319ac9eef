//! Verified rendering of numbers as decimal and hexadecimal text.

use vstd::prelude::*;

verus! {

use vstd::string::StringExecFns;

/// The digit characters `0..9` and the uppercase hex digits `A..F`.
pub open spec fn digit_char(d: int) -> char {
    if d == 0 {
        '0'
    } else if d == 1 {
        '1'
    } else if d == 2 {
        '2'
    } else if d == 3 {
        '3'
    } else if d == 4 {
        '4'
    } else if d == 5 {
        '5'
    } else if d == 6 {
        '6'
    } else if d == 7 {
        '7'
    } else if d == 8 {
        '8'
    } else if d == 9 {
        '9'
    } else if d == 10 {
        'A'
    } else if d == 11 {
        'B'
    } else if d == 12 {
        'C'
    } else if d == 13 {
        'D'
    } else if d == 14 {
        'E'
    } else {
        'F'
    }
}

/// The decimal rendering of `n`, most significant digit first.
pub open spec fn dec_digits(n: nat) -> Seq<char>
    decreases n,
{
    if n < 10 {
        seq![digit_char(n as int)]
    } else {
        dec_digits(n / 10).push(digit_char((n % 10) as int))
    }
}

/// The hexadecimal rendering of `n`, uppercase, most significant digit
/// first.
pub open spec fn hex_digits(n: nat) -> Seq<char>
    decreases n,
{
    if n < 16 {
        seq![digit_char(n as int)]
    } else {
        hex_digits(n / 16).push(digit_char((n % 16) as int))
    }
}

/// The hexadecimal rendering of `n` padded with zeroes to at least two
/// digits, as colour components are written.
pub open spec fn hex2_digits(n: nat) -> Seq<char> {
    if n < 16 {
        seq!['0', digit_char(n as int)]
    } else {
        hex_digits(n)
    }
}

fn digit_str(d: usize) -> (r: &'static str)
    requires
        d < 16,
    ensures
        r@ == seq![digit_char(d as int)],
{
    let r = if d == 0 {
        "0"
    } else if d == 1 {
        "1"
    } else if d == 2 {
        "2"
    } else if d == 3 {
        "3"
    } else if d == 4 {
        "4"
    } else if d == 5 {
        "5"
    } else if d == 6 {
        "6"
    } else if d == 7 {
        "7"
    } else if d == 8 {
        "8"
    } else if d == 9 {
        "9"
    } else if d == 10 {
        "A"
    } else if d == 11 {
        "B"
    } else if d == 12 {
        "C"
    } else if d == 13 {
        "D"
    } else if d == 14 {
        "E"
    } else {
        "F"
    };
    proof {
        reveal_strlit("0");
        reveal_strlit("1");
        reveal_strlit("2");
        reveal_strlit("3");
        reveal_strlit("4");
        reveal_strlit("5");
        reveal_strlit("6");
        reveal_strlit("7");
        reveal_strlit("8");
        reveal_strlit("9");
        reveal_strlit("A");
        reveal_strlit("B");
        reveal_strlit("C");
        reveal_strlit("D");
        reveal_strlit("E");
        reveal_strlit("F");
        assert(r@ =~= seq![digit_char(d as int)]);
    }
    r
}

/// Appends the decimal rendering of `n` to `s`.
pub fn push_dec(s: &mut String, n: usize)
    ensures
        final(s)@ == old(s)@ + dec_digits(n as nat),
    decreases n,
{
    let ghost s0 = s@;
    if n >= 10 {
        push_dec(s, n / 10);
    }
    let d = n % 10;
    s.append(digit_str(d));
    proof {
        if n < 10 {
            assert(s@ =~= s0 + dec_digits(n as nat));
        } else {
            assert((s0 + dec_digits((n / 10) as nat)) + seq![digit_char(d as int)] =~= s0 + (
            dec_digits((n / 10) as nat) + seq![digit_char(d as int)]));
            assert(dec_digits((n / 10) as nat).push(digit_char(d as int)) =~= dec_digits(
                (n / 10) as nat,
            ) + seq![digit_char(d as int)]);
        }
    }
}

/// The decimal rendering of `n` as a fresh string.
pub fn dec_string(n: usize) -> (r: String)
    ensures
        r@ == dec_digits(n as nat),
{
    let mut s = String::new();
    push_dec(&mut s, n);
    proof {
        assert(Seq::<char>::empty() + dec_digits(n as nat) =~= dec_digits(n as nat));
    }
    s
}

/// Appends the two-digit hexadecimal rendering of `v` to `s`.
pub fn push_hex2(s: &mut String, v: usize)
    requires
        v < 256,
    ensures
        final(s)@ == old(s)@ + hex2_digits(v as nat),
{
    let ghost s0 = s@;
    if v < 16 {
        s.append("0");
        s.append(digit_str(v));
        proof {
            reveal_strlit("0");
            assert(s@ =~= s0 + hex2_digits(v as nat));
        }
    } else {
        s.append(digit_str(v / 16));
        s.append(digit_str(v % 16));
        proof {
            assert(v / 16 < 16);
            assert(hex_digits((v / 16) as nat) == seq![digit_char((v / 16) as int)]);
            assert(hex2_digits(v as nat) == hex_digits(v as nat));
            assert(hex_digits(v as nat) == hex_digits((v / 16) as nat).push(
                digit_char((v % 16) as int),
            ));
            assert(s@ =~= s0 + hex2_digits(v as nat));
        }
    }
}

} // verus!
