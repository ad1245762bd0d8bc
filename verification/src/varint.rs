//! LEB128-style unsigned variable-length integers, and a byte cursor over a
//! buffer that yields zero once it runs past the end.

use vstd::prelude::*;

verus! {

/// The bytes that encode `n`: seven bits per byte, least significant group
/// first, the high bit set on every byte but the last.
pub open spec fn uvarint_bytes(n: u64) -> Seq<u8>
    decreases n,
{
    if n < 0x80 {
        seq![n as u8]
    } else {
        proof { lemma_shr7_decreases(n); }
        seq![((n & 0x7f) | 0x80) as u8] + uvarint_bytes(n >> 7)
    }
}

/// Same layout as `uvarint_bytes`, for 128-bit values.
pub open spec fn uvarint128_bytes(n: u128) -> Seq<u8>
    decreases n,
{
    if n < 0x80 {
        seq![n as u8]
    } else {
        proof { lemma_shr7_decreases128(n); }
        seq![((n & 0x7f) | 0x80) as u8] + uvarint128_bytes(n >> 7)
    }
}

/// Dropping the low seven bits divides by 128, and makes a number of at
/// least 0x80 smaller.
pub proof fn lemma_shr7_decreases(n: u64)
    ensures
        n >= 0x80 ==> n >> 7 < n,
        n >> 7 == n / 128,
{
    assert(n >= 0x80 ==> n >> 7 < n) by (bit_vector);
    assert(n >> 7 == n / 128) by (bit_vector);
}

/// The 128-bit counterpart of `lemma_shr7_decreases`.
pub proof fn lemma_shr7_decreases128(n: u128)
    ensures
        n >= 0x80 ==> n >> 7 < n,
        n >> 7 == n / 128,
{
    assert(n >= 0x80 ==> n >> 7 < n) by (bit_vector);
    assert(n >> 7 == n / 128) by (bit_vector);
}

/// The byte at `pos`, or 0 past the end of the buffer.
pub open spec fn byte_at(buf: Seq<u8>, pos: int) -> u8 {
    if 0 <= pos < buf.len() {
        buf[pos]
    } else {
        0
    }
}

/// The position after reading one byte at `pos`: it advances only while
/// inside the buffer.
pub open spec fn next_pos(buf: Seq<u8>, pos: int) -> int {
    if 0 <= pos < buf.len() {
        pos + 1
    } else {
        pos
    }
}

/// What reading a 64-bit varint from `pos` yields, with `shift` and `acc` the
/// state carried from the bytes before: each byte contributes its low seven
/// bits at `shift` (taken modulo the width), and the first byte without the
/// high bit ends the number. Returns the value and the position after it.
pub open spec fn read_uvarint_from(buf: Seq<u8>, pos: int, shift: u32, acc: u64) -> (u64, int)
    recommends
        0 <= pos,
    decreases buf.len() - pos,
{
    let b = byte_at(buf, pos);
    let acc2 = acc | (((b & 0x7f) as u64) << ((shift % 64) as u64));
    if b & 0x80 == 0 || !(0 <= pos < buf.len()) {
        (acc2, next_pos(buf, pos))
    } else {
        read_uvarint_from(buf, pos + 1, ((shift + 7) % 64) as u32, acc2)
    }
}

/// As `read_uvarint_from`, for 128-bit values.
pub open spec fn read_uvarint128_from(buf: Seq<u8>, pos: int, shift: u32, acc: u128) -> (u128, int)
    recommends
        0 <= pos,
    decreases buf.len() - pos,
{
    let b = byte_at(buf, pos);
    let acc2 = acc | (((b & 0x7f) as u128) << ((shift % 128) as u128));
    if b & 0x80 == 0 || !(0 <= pos < buf.len()) {
        (acc2, next_pos(buf, pos))
    } else {
        read_uvarint128_from(buf, pos + 1, ((shift + 7) % 128) as u32, acc2)
    }
}

/// The value and end position of the 64-bit varint that starts at `pos`.
pub open spec fn read_uvarint_spec(buf: Seq<u8>, pos: int) -> (u64, int) {
    read_uvarint_from(buf, pos, 0, 0)
}

/// The value and end position of the 128-bit varint that starts at `pos`.
pub open spec fn read_uvarint128_spec(buf: Seq<u8>, pos: int) -> (u128, int) {
    read_uvarint128_from(buf, pos, 0, 0)
}

/// Appends the varint encoding of `n` to `buf`.
pub fn write_uvarint(buf: &mut Vec<u8>, n: u64)
    ensures
        final(buf)@ == old(buf)@ + uvarint_bytes(n),
{
    let mut n = n;
    let ghost n0 = n;
    while n >= 0x80
        invariant
            buf@ + uvarint_bytes(n) == old(buf)@ + uvarint_bytes(n0),
        decreases n,
    {
        proof { lemma_shr7_decreases(n); }
        let b: u8 = ((n & 0x7f) | 0x80) as u8;
        let ghost before = buf@;
        buf.push(b);
        assert(uvarint_bytes(n) == seq![b] + uvarint_bytes(n >> 7));
        assert(buf@ + uvarint_bytes(n >> 7) == before + uvarint_bytes(n));
        n = n >> 7;
    }
    buf.push(n as u8);
    assert(uvarint_bytes(n) == seq![n as u8]);
}

/// Appends the 128-bit varint encoding of `n` to `buf`.
pub fn write_uvarint128(buf: &mut Vec<u8>, n: u128)
    ensures
        final(buf)@ == old(buf)@ + uvarint128_bytes(n),
{
    let mut n = n;
    let ghost n0 = n;
    while n >= 0x80
        invariant
            buf@ + uvarint128_bytes(n) == old(buf)@ + uvarint128_bytes(n0),
        decreases n,
    {
        proof { lemma_shr7_decreases128(n); }
        let b: u8 = ((n & 0x7f) | 0x80) as u8;
        let ghost before = buf@;
        buf.push(b);
        assert(uvarint128_bytes(n) == seq![b] + uvarint128_bytes(n >> 7));
        assert(buf@ + uvarint128_bytes(n >> 7) == before + uvarint128_bytes(n));
        n = n >> 7;
    }
    buf.push(n as u8);
    assert(uvarint128_bytes(n) == seq![n as u8]);
}

/// Reads one byte at `*pos` and advances past it; past the end of the buffer
/// it yields 0 and leaves `*pos` where it is.
pub fn read_byte(buf: &[u8], pos: &mut usize) -> (b: u8)
    ensures
        b == byte_at(buf@, *old(pos) as int),
        *final(pos) as int == next_pos(buf@, *old(pos) as int),
        *old(pos) <= *final(pos),
{
    if *pos < buf.len() {
        let b = buf[*pos];
        *pos = *pos + 1;
        b
    } else {
        0
    }
}

/// Takes the next `len` bytes if the buffer holds that many after `*pos`,
/// advancing past them; otherwise yields nothing and leaves `*pos` unchanged.
/// Returns the range taken.
pub fn read_bytes(buf: &[u8], pos: &mut usize, len: u64) -> (r: (usize, usize))
    requires
        *old(pos) <= buf@.len(),
    ensures
        *old(pos) + len <= buf@.len() ==> r.0 == *old(pos) && r.1 == *old(pos) + len,
        !(*old(pos) + len <= buf@.len()) ==> r.0 == *old(pos) && r.1 == *old(pos),
        *final(pos) == r.1,
{
    let start = *pos;
    if len <= (buf.len() - start) as u64 {
        let end = start + len as usize;
        *pos = end;
        (start, end)
    } else {
        (start, start)
    }
}

/// Reads a 64-bit varint at `*pos`, advancing past it.
pub fn read_uvarint(buf: &[u8], pos: &mut usize) -> (n: u64)
    requires
        *old(pos) <= buf@.len(),
    ensures
        (n, *final(pos) as int) == read_uvarint_spec(buf@, *old(pos) as int),
        *old(pos) <= *final(pos) <= buf@.len(),
{
    let mut n: u64 = 0;
    let mut shift: u32 = 0;
    loop
        invariant_except_break
            *old(pos) <= *pos <= buf@.len(),
            shift < 64,
            read_uvarint_from(buf@, *pos as int, shift, n) == read_uvarint_spec(buf@, *old(pos) as int),
        ensures
            *old(pos) <= *pos <= buf@.len(),
            (n, *pos as int) == read_uvarint_spec(buf@, *old(pos) as int),
        decreases buf@.len() - *pos,
    {
        let ghost p = *pos as int;
        let ghost acc = n;
        assert(shift % 64 == shift);
        let b = read_byte(buf, pos);
        n = n | (((b & 0x7f) as u64) << (shift as u64));
        if b & 0x80 == 0 {
            break;
        }
        assert(0u8 & 0x80u8 == 0u8) by (bit_vector);
        assert(p < buf@.len());
        shift = (shift + 7) % 64;
    }
    n
}

/// Reads a 128-bit varint at `*pos`, advancing past it.
pub fn read_uvarint128(buf: &[u8], pos: &mut usize) -> (n: u128)
    requires
        *old(pos) <= buf@.len(),
    ensures
        (n, *final(pos) as int) == read_uvarint128_spec(buf@, *old(pos) as int),
        *old(pos) <= *final(pos) <= buf@.len(),
{
    let mut n: u128 = 0;
    let mut shift: u32 = 0;
    loop
        invariant_except_break
            *old(pos) <= *pos <= buf@.len(),
            shift < 128,
            read_uvarint128_from(buf@, *pos as int, shift, n) == read_uvarint128_spec(buf@, *old(pos) as int),
        ensures
            *old(pos) <= *pos <= buf@.len(),
            (n, *pos as int) == read_uvarint128_spec(buf@, *old(pos) as int),
        decreases buf@.len() - *pos,
    {
        let ghost p = *pos as int;
        let ghost acc = n;
        assert(shift % 128 == shift);
        let b = read_byte(buf, pos);
        n = n | (((b & 0x7f) as u128) << (shift as u128));
        if b & 0x80 == 0 {
            break;
        }
        assert(0u8 & 0x80u8 == 0u8) by (bit_vector);
        assert(p < buf@.len());
        shift = (shift + 7) % 128;
    }
    n
}


/// The low `shift` bits of a 64-bit value.
pub open spec fn low_bits(n: u64, shift: u32) -> u64 {
    n & ((1u64 << (shift as u64)) - 1) as u64
}

/// The low `shift` bits of a 128-bit value.
pub open spec fn low_bits128(n: u128, shift: u32) -> u128 {
    n & ((1u128 << (shift as u128)) - 1) as u128
}

proof fn lemma_step_last(n: u64, m: u64, shift: u32)
    requires
        shift <= 63,
        m == n >> (shift as u64),
        m < 0x80,
    ensures
        (m as u8) & 0x80 == 0,
        low_bits(n, shift) | ((((m as u8) & 0x7f) as u64) << (shift as u64)) == n,
{
    assert((m as u8) & 0x80 == 0) by (bit_vector)
        requires m < 0x80;
    assert(low_bits(n, shift) | ((((m as u8) & 0x7f) as u64) << (shift as u64)) == n) by (bit_vector)
        requires shift <= 63, m == n >> (shift as u64), m < 0x80;
}

proof fn lemma_step_more(n: u64, m: u64, shift: u32)
    requires
        shift <= 63,
        m == n >> (shift as u64),
        m >= 0x80,
    ensures
        shift + 7 <= 63,
        (((m & 0x7f) | 0x80) as u8) & 0x80 != 0,
        low_bits(n, shift) | ((((((m & 0x7f) | 0x80) as u8) & 0x7f) as u64) << (shift as u64))
            == low_bits(n, (shift + 7) as u32),
        m >> 7 == n >> ((shift + 7) as u64),
{
    assert(shift + 7 <= 63) by (bit_vector)
        requires shift <= 63, m == n >> (shift as u64), m >= 0x80;
    assert((((m & 0x7f) | 0x80) as u8) & 0x80 != 0) by (bit_vector);
    assert(low_bits(n, shift) | ((((((m & 0x7f) | 0x80) as u8) & 0x7f) as u64) << (shift as u64))
        == low_bits(n, (shift + 7) as u32)) by (bit_vector)
        requires shift + 7 <= 63, m == n >> (shift as u64);
    assert(m >> 7 == n >> ((shift + 7) as u64)) by (bit_vector)
        requires shift + 7 <= 63, m == n >> (shift as u64);
}

proof fn lemma_step_last128(n: u128, m: u128, shift: u32)
    requires
        shift <= 127,
        m == n >> (shift as u128),
        m < 0x80,
    ensures
        (m as u8) & 0x80 == 0,
        low_bits128(n, shift) | ((((m as u8) & 0x7f) as u128) << (shift as u128)) == n,
{
    assert((m as u8) & 0x80 == 0) by (bit_vector)
        requires m < 0x80;
    assert(low_bits128(n, shift) | ((((m as u8) & 0x7f) as u128) << (shift as u128)) == n) by (bit_vector)
        requires shift <= 127, m == n >> (shift as u128), m < 0x80;
}

proof fn lemma_step_more128(n: u128, m: u128, shift: u32)
    requires
        shift <= 127,
        m == n >> (shift as u128),
        m >= 0x80,
    ensures
        shift + 7 <= 127,
        (((m & 0x7f) | 0x80) as u8) & 0x80 != 0,
        low_bits128(n, shift) | ((((((m & 0x7f) | 0x80) as u8) & 0x7f) as u128) << (shift as u128))
            == low_bits128(n, (shift + 7) as u32),
        m >> 7 == n >> ((shift + 7) as u128),
{
    assert(shift + 7 <= 127) by (bit_vector)
        requires shift <= 127, m == n >> (shift as u128), m >= 0x80;
    assert((((m & 0x7f) | 0x80) as u8) & 0x80 != 0) by (bit_vector);
    assert(low_bits128(n, shift) | ((((((m & 0x7f) | 0x80) as u8) & 0x7f) as u128) << (shift as u128))
        == low_bits128(n, (shift + 7) as u32)) by (bit_vector)
        requires shift + 7 <= 127, m == n >> (shift as u128);
    assert(m >> 7 == n >> ((shift + 7) as u128)) by (bit_vector)
        requires shift + 7 <= 127, m == n >> (shift as u128);
}

proof fn lemma_read_write_from(pre: Seq<u8>, n: u64, m: u64, shift: u32, rest: Seq<u8>)
    requires
        shift <= 63,
        m == n >> (shift as u64),
    ensures
        read_uvarint_from(pre + uvarint_bytes(m) + rest, pre.len() as int, shift, low_bits(n, shift))
            == (n, (pre.len() + uvarint_bytes(m).len()) as int),
    decreases m,
{
    let buf = pre + uvarint_bytes(m) + rest;
    let p = pre.len() as int;
    if m < 0x80 {
        lemma_step_last(n, m, shift);
        assert(buf[p] == m as u8);
        assert(shift % 64 == shift);
    } else {
        lemma_step_more(n, m, shift);
        lemma_shr7_decreases(m);
        let b = ((m & 0x7f) | 0x80) as u8;
        assert(buf[p] == b);
        assert(shift % 64 == shift);
        assert((shift + 7) % 64 == shift + 7);
        let pre2 = pre.push(b);
        assert(pre2 + uvarint_bytes(m >> 7) + rest =~= buf);
        lemma_read_write_from(pre2, n, m >> 7, (shift + 7) as u32, rest);
    }
}

proof fn lemma_read_write_from128(pre: Seq<u8>, n: u128, m: u128, shift: u32, rest: Seq<u8>)
    requires
        shift <= 127,
        m == n >> (shift as u128),
    ensures
        read_uvarint128_from(pre + uvarint128_bytes(m) + rest, pre.len() as int, shift, low_bits128(n, shift))
            == (n, (pre.len() + uvarint128_bytes(m).len()) as int),
    decreases m,
{
    let buf = pre + uvarint128_bytes(m) + rest;
    let p = pre.len() as int;
    if m < 0x80 {
        lemma_step_last128(n, m, shift);
        assert(buf[p] == m as u8);
        assert(shift % 128 == shift);
    } else {
        lemma_step_more128(n, m, shift);
        lemma_shr7_decreases128(m);
        let b = ((m & 0x7f) | 0x80) as u8;
        assert(buf[p] == b);
        assert(shift % 128 == shift);
        assert((shift + 7) % 128 == shift + 7);
        let pre2 = pre.push(b);
        assert(pre2 + uvarint128_bytes(m >> 7) + rest =~= buf);
        lemma_read_write_from128(pre2, n, m >> 7, (shift + 7) as u32, rest);
    }
}

/// Reading back a written varint: whatever precedes and follows the
/// encoding of `n`, a read that starts where the encoding starts yields `n`
/// and stops right after the encoding.
pub proof fn lemma_uvarint_roundtrip(pre: Seq<u8>, n: u64, rest: Seq<u8>)
    ensures
        read_uvarint_spec(pre + uvarint_bytes(n) + rest, pre.len() as int)
            == (n, (pre.len() + uvarint_bytes(n).len()) as int),
{
    assert(n >> 0u64 == n) by (bit_vector);
    assert(low_bits(n, 0) == 0) by (bit_vector);
    lemma_read_write_from(pre, n, n, 0, rest);
}

/// The 128-bit counterpart of `lemma_uvarint_roundtrip`.
pub proof fn lemma_uvarint128_roundtrip(pre: Seq<u8>, n: u128, rest: Seq<u8>)
    ensures
        read_uvarint128_spec(pre + uvarint128_bytes(n) + rest, pre.len() as int)
            == (n, (pre.len() + uvarint128_bytes(n).len()) as int),
{
    assert(n >> 0u128 == n) by (bit_vector);
    assert(low_bits128(n, 0) == 0) by (bit_vector);
    lemma_read_write_from128(pre, n, n, 0, rest);
}

/// An encoding is never empty.
pub proof fn lemma_uvarint_len(n: u64)
    ensures
        uvarint_bytes(n).len() >= 1,
        n < 0x80 ==> uvarint_bytes(n) == seq![n as u8],
    decreases n,
{
    if n >= 0x80 {
        lemma_shr7_decreases(n);
        lemma_uvarint_len(n >> 7);
    }
}

/// `128^k`.
pub open spec fn pow128(k: nat) -> nat
    decreases k,
{
    if k == 0 {
        1
    } else {
        128 * pow128((k - 1) as nat)
    }
}

proof fn lemma_uvarint_len_pow(n: u128, k: nat)
    requires
        k >= 1,
        n < pow128(k),
    ensures
        uvarint128_bytes(n).len() <= k,
    decreases k,
{
    if n >= 0x80 {
        lemma_shr7_decreases128(n);
        if k == 1 {
            assert(pow128(1) == 128) by {
                reveal_with_fuel(pow128, 2);
            }
        }
        assert(n / 128 < pow128((k - 1) as nat));
        lemma_uvarint_len_pow(n >> 7, (k - 1) as nat);
    }
}

proof fn lemma_uvarint64_len_pow(n: u64, k: nat)
    requires
        k >= 1,
        n < pow128(k),
    ensures
        uvarint_bytes(n).len() <= k,
    decreases k,
{
    if n >= 0x80 {
        lemma_shr7_decreases(n);
        if k == 1 {
            assert(pow128(1) == 128) by {
                reveal_with_fuel(pow128, 2);
            }
        }
        assert(n / 128 < pow128((k - 1) as nat));
        lemma_uvarint64_len_pow(n >> 7, (k - 1) as nat);
    }
}

/// A 64-bit varint takes at most ten bytes, a 128-bit one at most nineteen.
pub proof fn lemma_uvarint_short(n: u64, m: u128)
    ensures
        uvarint_bytes(n).len() <= 10,
        uvarint128_bytes(m).len() <= 19,
{
    assert(pow128(10) == 0x400000000000000000) by {
        reveal_with_fuel(pow128, 11);
    }
    assert(pow128(19) == 0x2000000000000000000000000000000000) by {
        reveal_with_fuel(pow128, 20);
    }
    lemma_uvarint64_len_pow(n, 10);
    lemma_uvarint_len_pow(m, 19);
}

} // verus!
