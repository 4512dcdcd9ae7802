//! Lowercase hexadecimal rendering of integers and byte strings.
//!
//! Block identifiers are 128-bit values rendered as 32 hex digits, and
//! content digests are byte strings rendered two digits per byte.

use vstd::prelude::*;
use crate::strutil::push_char;

verus! {

/// The lowercase hex digit for a value below 16.
pub open spec fn hex_digit_char(n: int) -> char {
    if n == 0 {
        '0'
    } else if n == 1 {
        '1'
    } else if n == 2 {
        '2'
    } else if n == 3 {
        '3'
    } else if n == 4 {
        '4'
    } else if n == 5 {
        '5'
    } else if n == 6 {
        '6'
    } else if n == 7 {
        '7'
    } else if n == 8 {
        '8'
    } else if n == 9 {
        '9'
    } else if n == 10 {
        'a'
    } else if n == 11 {
        'b'
    } else if n == 12 {
        'c'
    } else if n == 13 {
        'd'
    } else if n == 14 {
        'e'
    } else {
        'f'
    }
}

/// The value `x` written with exactly `digits` hex digits, most significant
/// first (leading zeroes kept).
pub open spec fn hex_rep(x: nat, digits: nat) -> Seq<char>
    decreases digits,
{
    if digits == 0 {
        Seq::empty()
    } else {
        hex_rep(x / 16, (digits - 1) as nat).push(hex_digit_char((x % 16) as int))
    }
}

fn hex_digit(n: u8) -> (c: char)
    requires
        n < 16,
    ensures
        c == hex_digit_char(n as int),
{
    if n == 0 {
        '0'
    } else if n == 1 {
        '1'
    } else if n == 2 {
        '2'
    } else if n == 3 {
        '3'
    } else if n == 4 {
        '4'
    } else if n == 5 {
        '5'
    } else if n == 6 {
        '6'
    } else if n == 7 {
        '7'
    } else if n == 8 {
        '8'
    } else if n == 9 {
        '9'
    } else if n == 10 {
        'a'
    } else if n == 11 {
        'b'
    } else if n == 12 {
        'c'
    } else if n == 13 {
        'd'
    } else if n == 14 {
        'e'
    } else {
        'f'
    }
}

/// Renders a 128-bit value as its 32-digit lowercase hex representation.
pub fn u128_to_hex(x: u128) -> (s: String)
    ensures
        s@ == hex_rep(x as nat, 32),
        s@.len() == 32,
{
    let mut digits: Vec<char> = Vec::new();
    let mut v: u128 = x;
    let mut i: usize = 0;
    while i < 32
        invariant
            i <= 32,
            digits@.len() == i,
            hex_rep(x as nat, 32) == hex_rep(v as nat, (32 - i) as nat) + digits@.reverse(),
        decreases 32 - i,
    {
        proof {
            assert(hex_rep(v as nat, (32 - i) as nat) == hex_rep(
                (v as nat) / 16,
                (32 - i - 1) as nat,
            ).push(hex_digit_char(((v as nat) % 16) as int)));
            assert(digits@.push(hex_digit_char(((v as nat) % 16) as int)).reverse()
                =~= seq![hex_digit_char(((v as nat) % 16) as int)] + digits@.reverse());
            assert(hex_rep((v as nat) / 16, (32 - i - 1) as nat) + digits@.push(
                hex_digit_char(((v as nat) % 16) as int),
            ).reverse() =~= hex_rep(v as nat, (32 - i) as nat) + digits@.reverse());
        }
        digits.push(hex_digit((v % 16) as u8));
        v = v / 16;
        i = i + 1;
    }
    proof {
        assert(hex_rep(v as nat, 0) + digits@.reverse() =~= digits@.reverse());
    }
    let mut s = String::new();
    let mut j: usize = 32;
    while j > 0
        invariant
            j <= 32,
            digits@.len() == 32,
            digits@.reverse() == hex_rep(x as nat, 32),
            s@ =~= digits@.reverse().take((32 - j) as int),
        decreases j,
    {
        j = j - 1;
        let c = digits[j];
        proof {
            assert(digits@.reverse()[(32 - j - 1) as int] == digits@[j as int]);
            assert(digits@.reverse().take((32 - j) as int) =~= digits@.reverse().take(
                (32 - j - 1) as int,
            ).push(digits@[j as int]));
        }
        push_char(&mut s, c);
    }
    proof {
        assert(s@ =~= digits@.reverse());
        assert(hex_rep(x as nat, 32).len() == 32) by {
            lemma_hex_rep_len(x as nat, 32);
        }
    }
    s
}

/// The length of a hex representation is its digit count.
pub proof fn lemma_hex_rep_len(x: nat, digits: nat)
    ensures
        hex_rep(x, digits).len() == digits,
    decreases digits,
{
    if digits > 0 {
        lemma_hex_rep_len(x / 16, (digits - 1) as nat);
    }
}

/// A byte string written as two lowercase hex digits per byte.
pub open spec fn bytes_hex(bytes: Seq<u8>) -> Seq<char>
    decreases bytes.len(),
{
    if bytes.len() == 0 {
        Seq::empty()
    } else {
        hex_rep(bytes[0] as nat, 2) + bytes_hex(bytes.drop_first())
    }
}

/// Renders a byte string as lowercase hex, two digits per byte.
pub fn bytes_to_hex(bytes: &[u8]) -> (s: String)
    ensures
        s@ == bytes_hex(bytes@),
{
    let mut s = String::new();
    let mut i: usize = 0;
    proof {
        assert(bytes@.skip(0) =~= bytes@);
        assert(Seq::<char>::empty() + bytes_hex(bytes@) =~= bytes_hex(bytes@));
    }
    while i < bytes.len()
        invariant
            i <= bytes@.len(),
            s@ + bytes_hex(bytes@.skip(i as int)) == bytes_hex(bytes@),
        decreases bytes@.len() - i,
    {
        let b = bytes[i];
        proof {
            assert(bytes@.skip(i as int)[0] == b);
            assert(bytes@.skip(i as int).drop_first() =~= bytes@.skip(i as int + 1));
            assert(bytes_hex(bytes@.skip(i as int)) == hex_rep(b as nat, 2) + bytes_hex(
                bytes@.skip(i as int + 1),
            ));
            assert(hex_rep(b as nat, 2) == Seq::empty().push(
                hex_digit_char(((b as nat) / 16 % 16) as int),
            ).push(hex_digit_char(((b as nat) % 16) as int))) by {
                assert(hex_rep((b as nat) / 16, 1) == hex_rep((b as nat) / 16 / 16, 0).push(
                    hex_digit_char(((b as nat) / 16 % 16) as int),
                ));
            }
            assert((b / 16) < 16);
            assert((s@ + hex_rep(b as nat, 2)) + bytes_hex(bytes@.skip(i as int + 1)) =~= s@
                + bytes_hex(bytes@.skip(i as int)));
            assert(s@.push(hex_digit_char((b / 16) as int)).push(
                hex_digit_char((b % 16) as int),
            ) =~= s@ + hex_rep(b as nat, 2));
        }
        push_char(&mut s, hex_digit(b / 16));
        push_char(&mut s, hex_digit(b % 16));
        i = i + 1;
    }
    proof {
        assert(bytes@.skip(bytes@.len() as int) =~= Seq::<u8>::empty());
        assert(s@ + Seq::<char>::empty() =~= s@);
    }
    s
}

} // verus!
