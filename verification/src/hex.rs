//! Canonical hexadecimal rendering of resolved constant values: `0x`
//! followed by lowercase hex digits, with no leading zeros beyond `0x0`.
//! A negative value is rendered through its 64-bit two's complement.

use vstd::prelude::*;

verus! {

/// The lowercase hexadecimal digit for `d`.
pub open spec fn spec_hex_digit(d: int) -> char {
    if d == 0 { '0' } else if d == 1 { '1' } else if d == 2 { '2' } else if d == 3 { '3' }
    else if d == 4 { '4' } else if d == 5 { '5' } else if d == 6 { '6' } else if d == 7 { '7' }
    else if d == 8 { '8' } else if d == 9 { '9' } else if d == 10 { 'a' } else if d == 11 { 'b' }
    else if d == 12 { 'c' } else if d == 13 { 'd' } else if d == 14 { 'e' } else { 'f' }
}

/// The hexadecimal digits of `n`, most significant first, no leading zeros.
pub open spec fn spec_hex_digits(n: nat) -> Seq<char>
    decreases n,
{
    if n < 16 {
        seq![spec_hex_digit(n as int)]
    } else {
        spec_hex_digits(n / 16) + seq![spec_hex_digit((n % 16) as int)]
    }
}

/// The 64-bit two's complement of `v` as an unsigned number.
pub open spec fn spec_two_comp(v: i64) -> nat {
    if v >= 0 {
        v as nat
    } else {
        (v + 0x10000000000000000) as nat
    }
}

/// The canonical rendering of the integer value `v`: `0x` and its
/// hexadecimal digits.
pub open spec fn spec_hex_render(v: i64) -> Seq<char> {
    seq!['0', 'x'] + spec_hex_digits(spec_two_comp(v))
}

fn hex_digit(d: u64) -> (c: char)
    requires
        d < 16,
    ensures
        c == spec_hex_digit(d as int),
{
    if d == 0 { '0' } else if d == 1 { '1' } else if d == 2 { '2' } else if d == 3 { '3' }
    else if d == 4 { '4' } else if d == 5 { '5' } else if d == 6 { '6' } else if d == 7 { '7' }
    else if d == 8 { '8' } else if d == 9 { '9' } else if d == 10 { 'a' } else if d == 11 { 'b' }
    else if d == 12 { 'c' } else if d == 13 { 'd' } else if d == 14 { 'e' } else { 'f' }
}

fn hex_digits(n: u64) -> (r: Vec<char>)
    ensures
        r@ == spec_hex_digits(n as nat),
    decreases n,
{
    if n < 16 {
        let mut r: Vec<char> = Vec::new();
        r.push(hex_digit(n));
        proof {
            assert(r@ =~= spec_hex_digits(n as nat));
        }
        r
    } else {
        let mut r = hex_digits(n / 16);
        r.push(hex_digit(n % 16));
        proof {
            assert(r@ =~= spec_hex_digits(n as nat));
        }
        r
    }
}

/// Render `v` as canonical hexadecimal text.
pub fn hex_render(v: i64) -> (r: Vec<char>)
    ensures
        r@ == spec_hex_render(v),
{
    let u: u64 = if v >= 0 {
        v as u64
    } else {
        let pos: u64 = (-(v + 1)) as u64;
        u64::MAX - pos
    };
    proof {
        assert(u as nat == spec_two_comp(v));
    }
    let mut r: Vec<char> = Vec::new();
    r.push('0');
    r.push('x');
    let digits = hex_digits(u);
    let mut i: usize = 0;
    while i < digits.len()
        invariant
            i <= digits@.len(),
            r@ == seq!['0', 'x'] + digits@.subrange(0, i as int),
        decreases digits@.len() - i,
    {
        r.push(digits[i]);
        i = i + 1;
        proof {
            assert(r@ =~= seq!['0', 'x'] + digits@.subrange(0, i as int));
        }
    }
    proof {
        assert(digits@.subrange(0, digits@.len() as int) =~= digits@);
        assert(r@ =~= spec_hex_render(v));
    }
    r
}

} // verus!
