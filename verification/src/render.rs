//! Decimal and hexadecimal digits as ASCII bytes.

use vstd::prelude::*;

verus! {

/// The ASCII decimal digits of `x`, without leading zeros ("0" for zero).
pub open spec fn dec_digits(x: nat) -> Seq<u8>
    decreases x,
{
    if x < 10 {
        seq![(48 + x) as u8]
    } else {
        dec_digits(x / 10).push((48 + x % 10) as u8)
    }
}

/// `n` ASCII zeros.
pub open spec fn zeros(n: nat) -> Seq<u8> {
    Seq::new(n, |i: int| 48u8)
}

/// The decimal digits of `x`, padded with zeros in front to at least `w`.
pub open spec fn dec_padded(x: nat, w: nat) -> Seq<u8> {
    let d = dec_digits(x);
    if d.len() < w {
        zeros((w - d.len()) as nat) + d
    } else {
        d
    }
}

/// The lowercase ASCII hexadecimal digit of `d`.
pub open spec fn hex_char(d: nat) -> u8 {
    if d < 10 {
        (48 + d) as u8
    } else {
        (87 + d) as u8
    }
}

/// The lowercase hexadecimal digits of `x`, without leading zeros.
pub open spec fn hex_digits(x: nat) -> Seq<u8>
    decreases x,
{
    if x < 16 {
        seq![hex_char(x)]
    } else {
        hex_digits(x / 16).push(hex_char(x % 16))
    }
}

/// The two lowercase hexadecimal digits of a byte.
pub open spec fn hex_byte(b: u8) -> Seq<u8> {
    seq![hex_char((b / 16) as nat), hex_char((b % 16) as nat)]
}

/// `s` without its trailing ASCII zeros.
pub open spec fn trim_zeros(s: Seq<u8>) -> Seq<u8>
    decreases s.len(),
{
    if s.len() > 0 && s.last() == 48u8 {
        trim_zeros(s.drop_last())
    } else {
        s
    }
}

/// The number of decimal digits of `x`.
pub fn dec_len(x: u32) -> (n: usize)
    ensures
        n == dec_digits(x as nat).len(),
        1 <= n <= x as int + 1,
    decreases x,
{
    if x < 10 {
        1
    } else {
        1 + dec_len(x / 10)
    }
}

/// Appends the decimal digits of `x`.
pub fn push_dec(buf: &mut Vec<u8>, x: u32)
    ensures
        final(buf)@ == old(buf)@ + dec_digits(x as nat),
    decreases x,
{
    if x >= 10 {
        push_dec(buf, x / 10);
    }
    buf.push((48 + x % 10) as u8);
    proof {
        if x >= 10 {
            assert(final(buf)@ =~= old(buf)@ + dec_digits(x as nat));
        } else {
            assert(final(buf)@ =~= old(buf)@ + dec_digits(x as nat));
        }
    }
}

/// Appends the decimal digits of `x`, padded with zeros to at least `w`.
pub fn push_dec_padded(buf: &mut Vec<u8>, x: u32, w: usize)
    ensures
        final(buf)@ == old(buf)@ + dec_padded(x as nat, w as nat),
{
    let n = dec_len(x);
    let mut k: usize = n;
    while k < w
        invariant
            n <= k,
            n < w ==> k <= w,
            n >= w ==> k == n,
            buf@ == old(buf)@ + zeros((k - n) as nat),
        decreases w - k,
    {
        buf.push(48u8);
        assert(zeros((k + 1 - n) as nat) =~= zeros((k - n) as nat).push(48u8));
        k += 1;
    }
    let ghost mid = buf@;
    push_dec(buf, x);
    proof {
        if n < w {
            assert(k == w);
            assert(buf@ =~= old(buf)@ + (zeros((w - n) as nat) + dec_digits(x as nat)));
        } else {
            assert(zeros((k - n) as nat) =~= Seq::<u8>::empty());
            assert(buf@ =~= old(buf)@ + dec_digits(x as nat));
        }
    }
}

/// The lowercase hexadecimal digit of `d`.
pub fn hex_char_of(d: u8) -> (c: u8)
    requires
        d < 16,
    ensures
        c == hex_char(d as nat),
{
    if d < 10 {
        48 + d
    } else {
        87 + d
    }
}

/// Appends the lowercase hexadecimal digits of `x`.
pub fn push_hex(buf: &mut Vec<u8>, x: u16)
    ensures
        final(buf)@ == old(buf)@ + hex_digits(x as nat),
    decreases x,
{
    if x >= 16 {
        push_hex(buf, x / 16);
    }
    let c = hex_char_of((x % 16) as u8);
    buf.push(c);
    proof {
        assert(final(buf)@ =~= old(buf)@ + hex_digits(x as nat));
    }
}

/// Appends the two lowercase hexadecimal digits of a byte.
pub fn push_hex_byte(buf: &mut Vec<u8>, b: u8)
    ensures
        final(buf)@ == old(buf)@ + hex_byte(b),
{
    let hi = hex_char_of(b / 16);
    let lo = hex_char_of(b % 16);
    buf.push(hi);
    buf.push(lo);
    assert(final(buf)@ =~= old(buf)@ + hex_byte(b));
}

/// The length of `s[0..n]` once its trailing zeros are dropped.
pub fn trimmed_len(s: &Vec<u8>, n: usize) -> (m: usize)
    requires
        n <= s@.len(),
    ensures
        s@.subrange(0, m as int) == trim_zeros(s@.subrange(0, n as int)),
        m <= n,
    decreases n,
{
    if n > 0 && s[n - 1] == 48u8 {
        assert(s@.subrange(0, n as int).drop_last() =~= s@.subrange(0, n - 1));
        trimmed_len(s, n - 1)
    } else {
        n
    }
}

} // verus!
