//! IPv4 and IPv6 addresses and UUIDs in their compressed binary form:
//! parsing the text, and rendering the bytes back to text.
//!
//! Addresses are read with the grammar of the standard library's address
//! parsers: four decimal octets without leading zeros, or eight hexadecimal
//! groups of up to four digits, one run of which may be written `::`, and
//! the last two of which may be written as a dotted IPv4 address.

use vstd::prelude::*;
use crate::varint::byte_at;
use crate::datetime::is_digit;
use crate::render::{dec_digits, hex_digits, hex_byte, push_dec, push_hex, push_hex_byte};

verus! {

// ---------------------------------------------------------------- IPv4

/// The number of ASCII digits in a row from `pos`.
pub open spec fn digit_run(b: Seq<u8>, pos: int) -> nat
    decreases b.len() - pos,
{
    if 0 <= pos < b.len() && is_digit(b[pos]) {
        1 + digit_run(b, pos + 1)
    } else {
        0
    }
}

/// The decimal value of the `n` digits at `pos`.
pub open spec fn digits_value(b: Seq<u8>, pos: int, n: nat) -> nat
    decreases n,
{
    if n == 0 {
        0
    } else {
        digits_value(b, pos, (n - 1) as nat) * 10 + (b[pos + n - 1] - 48) as nat
    }
}

/// One octet of an IPv4 address at `pos`: one to three digits, no leading
/// zero, at most 255; with the position after it.
pub open spec fn ipv4_group(b: Seq<u8>, pos: int) -> Option<(u8, int)> {
    let n = digit_run(b, pos);
    if n == 0 || n > 3 {
        None
    } else if b[pos] == 48u8 && n > 1 {
        None
    } else if digits_value(b, pos, n) > 255 {
        None
    } else {
        Some((digits_value(b, pos, n) as u8, pos + n))
    }
}

/// The octets `i..4` of an IPv4 address from `pos`, separated by dots,
/// with the position after the last one.
pub open spec fn ipv4_at(b: Seq<u8>, pos: int, i: nat) -> Option<(Seq<u8>, int)>
    decreases 4 - i,
{
    if i >= 4 {
        None
    } else {
        match ipv4_group(b, pos) {
            Some((v, e)) => if i == 3 {
                Some((seq![v], e))
            } else if byte_at(b, e) == 46u8 {
                match ipv4_at(b, e + 1, i + 1) {
                    Some((rest, end)) => Some((seq![v] + rest, end)),
                    None => None,
                }
            } else {
                None
            },
            None => None,
        }
    }
}

/// The four octets of an IPv4 address text.
pub open spec fn ipv4_octets(b: Seq<u8>) -> Option<Seq<u8>> {
    match ipv4_at(b, 0, 0) {
        Some((o, e)) => if e == b.len() {
            Some(o)
        } else {
            None
        },
        None => None,
    }
}

proof fn lemma_digit_run_step(b: Seq<u8>, pos: int)
    requires
        0 <= pos < b.len(),
        is_digit(b[pos]),
    ensures
        digit_run(b, pos) == 1 + digit_run(b, pos + 1),
{
}

/// Reads one octet of an IPv4 address at `pos`.
fn read_ipv4_group(b: &[u8], pos: usize) -> (r: Option<(u8, usize)>)
    requires
        pos <= b@.len(),
    ensures
        r matches Some((v, e)) ==> ipv4_group(b@, pos as int) == Some((v, e as int)) && e <= b@.len(),
        r is None ==> ipv4_group(b@, pos as int) is None,
{
    let mut k: usize = 0;
    let mut v: u32 = 0;
    let n = b.len();
    while k < 4 && pos + k < n && 48 <= b[pos + k] && b[pos + k] <= 57
        invariant
            n == b@.len(),
            pos <= b@.len(),
            k <= 4,
            pos + k <= b@.len(),
            digit_run(b@, pos as int) == k + digit_run(b@, pos + k),
            v == digits_value(b@, pos as int, k as nat),
            k == 0 ==> v == 0,
            k == 1 ==> v < 10,
            k == 2 ==> v < 100,
            k == 3 ==> v < 1000,
            k == 4 ==> v < 10000,
        decreases 4 - k,
    {
        proof {
            lemma_digit_run_step(b@, pos + k);
        }
        v = v * 10 + (b[pos + k] - 48) as u32;
        k += 1;
    }
    if k == 0 || k > 3 {
        proof {
            if k == 4 {
                assert(digit_run(b@, pos as int) >= 4);
            }
        }
        return None;
    }
    assert(digit_run(b@, pos + k) == 0);
    if b[pos] == 48 && k > 1 {
        return None;
    }
    if v > 255 {
        return None;
    }
    Some((v as u8, pos + k))
}

/// Reads the four octets of an IPv4 address at `start`, with the position
/// after them.
fn read_ipv4_at(b: &[u8], start: usize) -> (r: Option<(Vec<u8>, usize)>)
    requires
        start <= b@.len(),
    ensures
        r matches Some((v, e)) ==> ipv4_at(b@, start as int, 0) == Some((v@, e as int)) && v@.len() == 4
            && e <= b@.len(),
        r is None ==> ipv4_at(b@, start as int, 0) is None,
{
    let mut out: Vec<u8> = Vec::new();
    let mut pos: usize = start;
    let mut i: usize = 0;
    while i < 3
        invariant
            i <= 3,
            pos <= b@.len(),
            out@.len() == i,
            ipv4_at(b@, start as int, 0) == match ipv4_at(b@, pos as int, i as nat) {
                Some((rest, end)) => Some((out@ + rest, end)),
                None => None::<(Seq<u8>, int)>,
            },
        decreases 3 - i,
    {
        match read_ipv4_group(b, pos) {
            Some((v, e)) => {
                if e < b.len() && b[e] == 46u8 {
                    let ghost before = out@;
                    out.push(v);
                    proof {
                        if let Some((rest, end)) = ipv4_at(b@, e + 1, (i + 1) as nat) {
                            assert(before + (seq![v] + rest) =~= out@ + rest);
                        }
                    }
                    pos = e + 1;
                    i += 1;
                } else {
                    return None;
                }
            },
            None => {
                return None;
            },
        }
    }
    match read_ipv4_group(b, pos) {
        Some((v, e)) => {
            let ghost before = out@;
            out.push(v);
            assert(before + seq![v] =~= out@);
            Some((out, e))
        },
        None => None,
    }
}

/// Parses an IPv4 address text into its four octets.
pub fn parse_ipv4(b: &[u8]) -> (r: Option<Vec<u8>>)
    ensures
        r matches Some(v) ==> ipv4_octets(b@) == Some(v@) && v@.len() == 4,
        r is None ==> ipv4_octets(b@) is None,
{
    match read_ipv4_at(b, 0) {
        Some((v, e)) => if e == b.len() {
            Some(v)
        } else {
            None
        },
        None => None,
    }
}

/// Four octets rendered as a dotted IPv4 address.
pub open spec fn render_ipv4(p: Seq<u8>) -> Seq<u8> {
    dec_digits(p[0] as nat) + seq![46u8] + dec_digits(p[1] as nat) + seq![46u8] + dec_digits(
        p[2] as nat,
    ) + seq![46u8] + dec_digits(p[3] as nat)
}

/// Appends the dotted text of the four octets at `at`.
pub fn push_ipv4(out: &mut Vec<u8>, p: &[u8], at: usize)
    requires
        at + 4 <= p@.len(),
    ensures
        final(out)@ == old(out)@ + render_ipv4(p@.subrange(at as int, at + 4)),
{
    let ghost q = p@.subrange(at as int, at + 4);
    push_dec(out, p[at] as u32);
    out.push(46u8);
    push_dec(out, p[at + 1] as u32);
    out.push(46u8);
    push_dec(out, p[at + 2] as u32);
    out.push(46u8);
    push_dec(out, p[at + 3] as u32);
    assert(final(out)@ =~= old(out)@ + render_ipv4(q));
}

// ---------------------------------------------------------------- IPv6

/// Whether `c` is an ASCII hexadecimal digit.
pub open spec fn is_hex(c: u8) -> bool {
    (48 <= c <= 57) || (97 <= c <= 102) || (65 <= c <= 70)
}

/// The value of a hexadecimal digit.
pub open spec fn hex_value(c: u8) -> nat {
    if 48 <= c <= 57 {
        (c - 48) as nat
    } else if 97 <= c <= 102 {
        (c - 87) as nat
    } else {
        (c - 55) as nat
    }
}

/// The number of hexadecimal digits in a row from `pos`.
pub open spec fn hex_run(b: Seq<u8>, pos: int) -> nat
    decreases b.len() - pos,
{
    if 0 <= pos < b.len() && is_hex(b[pos]) {
        1 + hex_run(b, pos + 1)
    } else {
        0
    }
}

/// The value of the `n` hexadecimal digits at `pos`.
pub open spec fn hex_run_value(b: Seq<u8>, pos: int, n: nat) -> nat
    decreases n,
{
    if n == 0 {
        0
    } else {
        hex_run_value(b, pos, (n - 1) as nat) * 16 + hex_value(b[pos + n - 1])
    }
}

/// One group of an IPv6 address at `pos`: one to four hexadecimal digits;
/// with the position after it.
pub open spec fn hex_group(b: Seq<u8>, pos: int) -> Option<(u16, int)> {
    let n = hex_run(b, pos);
    if n == 0 || n > 4 {
        None
    } else {
        Some((hex_run_value(b, pos, n) as u16, pos + n))
    }
}

/// The two groups that the four octets of an IPv4 address stand for.
pub open spec fn ipv4_groups(o: Seq<u8>) -> Seq<u16> {
    seq![(o[0] as nat * 256 + o[1] as nat) as u16, (o[2] as nat * 256 + o[3] as nat) as u16]
}

/// The colon-separated groups `i..limit` read from `pos`, as many as there
/// are, with the position after the last one read, and whether they ended
/// in a dotted IPv4 address (which stands for two groups, and is tried
/// first wherever two groups are left).
pub open spec fn groups_from(b: Seq<u8>, pos: int, i: nat, limit: nat) -> (Seq<u16>, int, bool)
    decreases limit - i,
{
    if i >= limit {
        (Seq::empty(), pos, false)
    } else if i > 0 && byte_at(b, pos) != 58u8 {
        (Seq::empty(), pos, false)
    } else {
        let start = if i > 0 { pos + 1 } else { pos };
        let v4 = if i + 1 < limit { ipv4_at(b, start, 0) } else { None };
        match v4 {
            Some((o, e)) => (ipv4_groups(o), e, true),
            None => match hex_group(b, start) {
                Some((g, e)) => {
                    let (rest, end, ends_v4) = groups_from(b, e, i + 1, limit);
                    (seq![g] + rest, end, ends_v4)
                },
                None => (Seq::empty(), pos, false),
            },
        }
    }
}

/// `n` zero groups.
pub open spec fn zero_groups(n: nat) -> Seq<u16> {
    Seq::new(n, |i: int| 0u16)
}

/// The eight groups of an IPv6 address text: eight groups, or the groups
/// before and after one `::` with zeros between them; a dotted IPv4 address
/// may stand for the last two groups, but not before the `::`.
pub open spec fn ipv6_groups(b: Seq<u8>) -> Option<Seq<u16>> {
    let (head, p1, head_v4) = groups_from(b, 0, 0, 8);
    if head.len() == 8 {
        if p1 == b.len() {
            Some(head)
        } else {
            None
        }
    } else if head_v4 {
        None
    } else if byte_at(b, p1) == 58u8 && byte_at(b, p1 + 1) == 58u8 {
        let (tail, p2, _) = groups_from(b, p1 + 2, 0, (7 - head.len()) as nat);
        if p2 == b.len() {
            Some(head + zero_groups((8 - head.len() - tail.len()) as nat) + tail)
        } else {
            None
        }
    } else {
        None
    }
}

/// Groups written out as big-endian bytes.
pub open spec fn groups_bytes(g: Seq<u16>) -> Seq<u8> {
    Seq::new(
        2 * g.len(),
        |i: int|
            if i % 2 == 0 {
                (g[i / 2] / 256) as u8
            } else {
                (g[i / 2] % 256) as u8
            },
    )
}

/// The sixteen bytes of an IPv6 address text.
pub open spec fn ipv6_octets(b: Seq<u8>) -> Option<Seq<u8>> {
    match ipv6_groups(b) {
        Some(g) => Some(groups_bytes(g)),
        None => None,
    }
}

proof fn lemma_hex_run_step(b: Seq<u8>, pos: int)
    requires
        0 <= pos < b.len(),
        is_hex(b[pos]),
    ensures
        hex_run(b, pos) == 1 + hex_run(b, pos + 1),
{
}

/// The value of a hexadecimal digit.
fn hex_value_of(c: u8) -> (v: u32)
    requires
        is_hex(c),
    ensures
        v == hex_value(c),
        v < 16,
{
    if 48 <= c && c <= 57 {
        (c - 48) as u32
    } else if 97 <= c && c <= 102 {
        (c - 87) as u32
    } else {
        (c - 55) as u32
    }
}

/// Reads one group of an IPv6 address at `pos`.
fn read_hex_group(b: &[u8], pos: usize) -> (r: Option<(u16, usize)>)
    requires
        pos <= b@.len(),
    ensures
        r matches Some((v, e)) ==> hex_group(b@, pos as int) == Some((v, e as int)) && e <= b@.len(),
        r is None ==> hex_group(b@, pos as int) is None,
{
    let mut k: usize = 0;
    let mut v: u32 = 0;
    let n = b.len();
    while k < 5 && pos + k < n && is_hex_byte(b[pos + k])
        invariant
            n == b@.len(),
            pos <= b@.len(),
            k <= 5,
            pos + k <= b@.len(),
            hex_run(b@, pos as int) == k + hex_run(b@, pos + k),
            v == hex_run_value(b@, pos as int, k as nat),
            k == 0 ==> v == 0,
            k == 1 ==> v < 16,
            k == 2 ==> v < 256,
            k == 3 ==> v < 4096,
            k == 4 ==> v < 65536,
            k == 5 ==> v < 1048576,
        decreases 5 - k,
    {
        proof {
            lemma_hex_run_step(b@, pos + k);
        }
        v = v * 16 + hex_value_of(b[pos + k]);
        k += 1;
    }
    if k == 0 || k > 4 {
        return None;
    }
    assert(hex_run(b@, pos + k) == 0);
    Some((v as u16, pos + k))
}

/// Whether a byte is a hexadecimal digit.
fn is_hex_byte(c: u8) -> (r: bool)
    ensures
        r == is_hex(c),
{
    (48 <= c && c <= 57) || (97 <= c && c <= 102) || (65 <= c && c <= 70)
}

/// The two groups of four IPv4 octets.
fn ipv4_to_groups(o: &Vec<u8>, out: &mut Vec<u16>)
    requires
        o@.len() == 4,
    ensures
        final(out)@ == old(out)@ + ipv4_groups(o@),
{
    let hi: u16 = (o[0] as u16) * 256 + o[1] as u16;
    let lo: u16 = (o[2] as u16) * 256 + o[3] as u16;
    out.push(hi);
    out.push(lo);
    assert(final(out)@ =~= old(out)@ + ipv4_groups(o@));
}

/// Reads colon-separated groups `i..limit` from `pos` into `out`; gives the
/// position after them and whether they ended in a dotted IPv4 address.
fn read_groups(b: &[u8], pos: usize, i: usize, limit: usize, out: &mut Vec<u16>) -> (r: (usize, bool))
    requires
        pos <= b@.len(),
        limit <= 8,
    ensures
        final(out)@ == old(out)@ + groups_from(b@, pos as int, i as nat, limit as nat).0,
        r.0 == groups_from(b@, pos as int, i as nat, limit as nat).1,
        r.1 == groups_from(b@, pos as int, i as nat, limit as nat).2,
        r.0 <= b@.len(),
    decreases limit - i,
{
    if i >= limit {
        assert(final(out)@ =~= old(out)@ + Seq::<u16>::empty());
        return (pos, false);
    }
    if i > 0 && (pos >= b.len() || b[pos] != 58u8) {
        assert(final(out)@ =~= old(out)@ + Seq::<u16>::empty());
        return (pos, false);
    }
    let start = if i > 0 { pos + 1 } else { pos };
    if i + 1 < limit {
        if let Some((o, e)) = read_ipv4_at(b, start) {
            ipv4_to_groups(&o, out);
            return (e, true);
        }
    }
    match read_hex_group(b, start) {
        Some((g, e)) => {
            let ghost before = out@;
            out.push(g);
            let r = read_groups(b, e, i + 1, limit, out);
            proof {
                let (rest, _, _) = groups_from(b@, e as int, (i + 1) as nat, limit as nat);
                assert(out@ =~= before + (seq![g] + rest));
            }
            r
        },
        None => {
            assert(final(out)@ =~= old(out)@ + Seq::<u16>::empty());
            (pos, false)
        },
    }
}

/// `groups_from` reads no more groups than its limit allows.
proof fn lemma_groups_len(b: Seq<u8>, pos: int, i: nat, limit: nat)
    ensures
        groups_from(b, pos, i, limit).0.len() <= if i <= limit { limit - i } else { 0 },
    decreases limit - i,
{
    if i < limit {
        let start = if i > 0 { pos + 1 } else { pos };
        if let Some((g, e)) = hex_group(b, start) {
            lemma_groups_len(b, e, i + 1, limit);
        }
    }
}

/// Appends groups as big-endian bytes.
fn push_groups(out: &mut Vec<u8>, g: &Vec<u16>)
    ensures
        final(out)@ == old(out)@ + groups_bytes(g@),
{
    let mut k: usize = 0;
    while k < g.len()
        invariant
            k <= g@.len(),
            out@ == old(out)@ + groups_bytes(g@.subrange(0, k as int)),
        decreases g@.len() - k,
    {
        let x = g[k];
        out.push((x / 256) as u8);
        out.push((x % 256) as u8);
        assert(groups_bytes(g@.subrange(0, k + 1)) =~= groups_bytes(g@.subrange(0, k as int)) + seq![
            (x / 256) as u8,
            (x % 256) as u8,
        ]);
        k += 1;
    }
    assert(g@.subrange(0, g@.len() as int) =~= g@);
}

/// Parses an IPv6 address text into its sixteen bytes.
pub fn parse_ipv6(b: &[u8]) -> (r: Option<Vec<u8>>)
    ensures
        r matches Some(v) ==> ipv6_octets(b@) == Some(v@) && v@.len() == 16,
        r is None ==> ipv6_octets(b@) is None,
{
    let mut head: Vec<u16> = Vec::new();
    let (p1, head_v4) = read_groups(b, 0, 0, 8, &mut head);
    proof {
        lemma_groups_len(b@, 0, 0, 8);
        assert(head@ =~= groups_from(b@, 0, 0, 8).0);
    }
    let mut groups: Vec<u16>;
    if head.len() == 8 {
        if p1 != b.len() {
            return None;
        }
        groups = head;
    } else if head_v4 {
        return None;
    } else if b.len() >= 2 && p1 <= b.len() - 2 && b[p1] == 58u8 && b[p1 + 1] == 58u8 {
        let mut tail: Vec<u16> = Vec::new();
        let limit = 7 - head.len();
        let (p2, _) = read_groups(b, p1 + 2, 0, limit, &mut tail);
        proof {
            lemma_groups_len(b@, p1 + 2, 0, limit as nat);
            assert(tail@ =~= groups_from(b@, p1 + 2, 0, limit as nat).0);
        }
        if p2 != b.len() {
            return None;
        }
        groups = head;
        let fill = 8 - groups.len() - tail.len();
        let ghost before = groups@;
        let mut k: usize = 0;
        while k < fill
            invariant
                k <= fill,
                groups@ == before + zero_groups(k as nat),
            decreases fill - k,
        {
            groups.push(0u16);
            assert(zero_groups((k + 1) as nat) =~= zero_groups(k as nat).push(0u16));
            k += 1;
        }
        let ghost mid = groups@;
        let mut t = tail;
        groups.append(&mut t);
        assert(groups@ =~= before + zero_groups(fill as nat) + tail@);
    } else {
        proof {
            assert(!(byte_at(b@, p1 as int) == 58u8 && byte_at(b@, p1 + 1) == 58u8));
        }
        return None;
    }
    let mut out: Vec<u8> = Vec::new();
    push_groups(&mut out, &groups);
    assert(out@ =~= groups_bytes(groups@));
    Some(out)
}

/// The eight groups of sixteen big-endian bytes.
pub open spec fn bytes_groups(p: Seq<u8>) -> Seq<nat> {
    Seq::new(8, |i: int| (p[2 * i] as nat) * 256 + p[2 * i + 1] as nat)
}

/// The number of zero groups in a row from `i`.
pub open spec fn zero_run(g: Seq<nat>, i: int) -> nat
    decreases g.len() - i,
{
    if 0 <= i < g.len() && g[i] == 0 {
        1 + zero_run(g, i + 1)
    } else {
        0
    }
}

/// The start and length of the first longest run of zero groups, scanning
/// from `i` with the best found so far.
pub open spec fn best_run(g: Seq<nat>, i: int, bs: int, bl: nat) -> (int, nat)
    decreases g.len() - i,
{
    if i < 0 || i >= g.len() {
        (bs, bl)
    } else if zero_run(g, i) > bl {
        best_run(g, i + 1, i, zero_run(g, i))
    } else {
        best_run(g, i + 1, bs, bl)
    }
}

/// Groups in lowercase hexadecimal, separated by colons.
pub open spec fn join_groups(g: Seq<nat>) -> Seq<u8>
    decreases g.len(),
{
    if g.len() == 0 {
        Seq::empty()
    } else if g.len() == 1 {
        hex_digits(g[0])
    } else {
        join_groups(g.drop_last()) + seq![58u8] + hex_digits(g.last())
    }
}

/// Whether sixteen bytes hold an IPv4-mapped address: ten zero bytes, two
/// 0xff bytes, then the four octets.
pub open spec fn is_ipv4_mapped(p: Seq<u8>) -> bool {
    &&& forall|i: int| 0 <= i < 10 ==> p[i] == 0u8
    &&& p[10] == 0xffu8
    &&& p[11] == 0xffu8
}

/// Sixteen bytes rendered as an IPv6 address: an IPv4-mapped address as
/// `::ffff:` and its dotted octets; any other with the first longest run of
/// two or more zero groups written as `::`.
pub open spec fn render_ipv6(p: Seq<u8>) -> Seq<u8> {
    if is_ipv4_mapped(p) {
        seq![58u8, 58u8, 102u8, 102u8, 102u8, 102u8, 58u8] + render_ipv4(p.subrange(12, 16))
    } else {
        render_groups(p)
    }
}

/// Sixteen bytes rendered as eight groups, the first longest run of two or
/// more zero groups written as `::`.
pub open spec fn render_groups(p: Seq<u8>) -> Seq<u8> {
    let g = bytes_groups(p);
    let (bs, bl) = best_run(g, 0, 0, 0);
    if bl >= 2 {
        join_groups(g.subrange(0, bs)) + seq![58u8, 58u8] + join_groups(g.subrange(bs + bl, 8))
    } else {
        join_groups(g)
    }
}

proof fn lemma_zero_run_bound(g: Seq<nat>, i: int)
    requires
        0 <= i <= g.len(),
    ensures
        zero_run(g, i) <= g.len() - i,
    decreases g.len() - i,
{
    if i < g.len() && g[i] == 0 {
        lemma_zero_run_bound(g, i + 1);
    }
}

proof fn lemma_best_run_bound(g: Seq<nat>, i: int, bs: int, bl: nat)
    requires
        0 <= i <= g.len(),
        0 <= bs,
        bs + bl <= g.len(),
    ensures
        0 <= best_run(g, i, bs, bl).0,
        best_run(g, i, bs, bl).0 + best_run(g, i, bs, bl).1 <= g.len(),
    decreases g.len() - i,
{
    if i < g.len() {
        lemma_zero_run_bound(g, i);
        if zero_run(g, i) > bl {
            lemma_best_run_bound(g, i + 1, i, zero_run(g, i));
        } else {
            lemma_best_run_bound(g, i + 1, bs, bl);
        }
    }
}

/// Counts the zero groups in a row from `i`.
fn count_zero_run(g: &Vec<u16>, i: usize) -> (n: usize)
    requires
        i <= g@.len(),
    ensures
        n == zero_run(g@.map_values(|x: u16| x as nat), i as int),
        i + n <= g@.len(),
{
    let ghost gs = g@.map_values(|x: u16| x as nat);
    let mut k: usize = i;
    while k < g.len() && g[k] == 0
        invariant
            i <= k <= g@.len(),
            gs == g@.map_values(|x: u16| x as nat),
            zero_run(gs, i as int) == (k - i) + zero_run(gs, k as int),
        decreases g@.len() - k,
    {
        k += 1;
    }
    k - i
}

/// Appends groups `lo..hi` in hexadecimal, separated by colons.
fn push_joined(out: &mut Vec<u8>, g: &Vec<u16>, lo: usize, hi: usize)
    requires
        lo <= hi <= g@.len(),
    ensures
        final(out)@ == old(out)@ + join_groups(g@.map_values(|x: u16| x as nat).subrange(lo as int, hi as int)),
{
    let ghost gs = g@.map_values(|x: u16| x as nat);
    let mut k: usize = lo;
    while k < hi
        invariant
            lo <= k <= hi <= g@.len(),
            gs == g@.map_values(|x: u16| x as nat),
            out@ == old(out)@ + join_groups(gs.subrange(lo as int, k as int)),
        decreases hi - k,
    {
        let ghost before = out@;
        if k > lo {
            out.push(58u8);
        }
        push_hex(out, g[k]);
        proof {
            let s1 = gs.subrange(lo as int, k + 1);
            assert(s1.drop_last() =~= gs.subrange(lo as int, k as int));
            if k == lo {
                assert(gs.subrange(lo as int, k as int) =~= Seq::<nat>::empty());
            }
        }
        k += 1;
    }
}

/// Appends the IPv6 text of the sixteen bytes at `at`.
pub fn push_ipv6(out: &mut Vec<u8>, p: &[u8], at: usize)
    requires
        at + 16 <= p@.len(),
    ensures
        final(out)@ == old(out)@ + render_ipv6(p@.subrange(at as int, at + 16)),
{
    let ghost q = p@.subrange(at as int, at + 16);
    let mut z: usize = 0;
    let pl = p.len();
    while z < 10 && p[at + z] == 0
        invariant
            pl == p@.len(),
            z <= 10,
            at + 16 <= p@.len(),
            q == p@.subrange(at as int, at + 16),
            forall|j: int| 0 <= j < z ==> q[j] == 0u8,
        decreases 10 - z,
    {
        z += 1;
    }
    if z == 10 && p[at + 10] == 0xff && p[at + 11] == 0xff {
        assert(is_ipv4_mapped(q));
        out.push(58u8);
        out.push(58u8);
        out.push(102u8);
        out.push(102u8);
        out.push(102u8);
        out.push(102u8);
        out.push(58u8);
        let ghost mid = out@;
        push_ipv4(out, p, at + 12);
        assert(p@.subrange(at + 12, at + 16) =~= q.subrange(12, 16));
        assert(final(out)@ =~= old(out)@ + render_ipv6(q));
        return;
    }
    assert(!is_ipv4_mapped(q)) by {
        if z < 10 {
            assert(q[z as int] != 0u8);
        }
    }
    let mut g: Vec<u16> = Vec::new();
    let mut i: usize = 0;
    let n = p.len();
    while i < 8
        invariant
            n == p@.len(),
            i <= 8,
            at + 16 <= p@.len(),
            q == p@.subrange(at as int, at + 16),
            g@.len() == i,
            forall|j: int| 0 <= j < i ==> (#[trigger] g@[j]) as nat == bytes_groups(q)[j],
        decreases 8 - i,
    {
        let x = (p[at + 2 * i] as u16) * 256 + p[at + 2 * i + 1] as u16;
        g.push(x);
        i += 1;
    }
    let ghost gs = g@.map_values(|x: u16| x as nat);
    assert(gs =~= bytes_groups(q));
    let mut bs: usize = 0;
    let mut bl: usize = 0;
    let mut k: usize = 0;
    while k < 8
        invariant
            k <= 8,
            g@.len() == 8,
            gs == g@.map_values(|x: u16| x as nat),
            bs + bl <= 8,
            best_run(gs, 0, 0, 0) == best_run(gs, k as int, bs as int, bl as nat),
        decreases 8 - k,
    {
        let r = count_zero_run(&g, k);
        if r > bl {
            bs = k;
            bl = r;
        }
        k += 1;
    }
    if bl >= 2 {
        push_joined(out, &g, 0, bs);
        out.push(58u8);
        out.push(58u8);
        let ghost mid = out@;
        push_joined(out, &g, bs + bl, 8);
        assert(final(out)@ =~= old(out)@ + render_ipv6(q));
    } else {
        push_joined(out, &g, 0, 8);
        assert(gs.subrange(0, 8) =~= gs);
        assert(final(out)@ =~= old(out)@ + render_ipv6(q));
    }
}

// ---------------------------------------------------------------- UUID

/// The sixteen bytes that the uuid crate's `Uuid::from_str` reads from `s`,
/// or none when it refuses the text.
pub uninterp spec fn uuid_parse(s: Seq<char>) -> Option<Seq<u8>>;

/// Calls `uuid::Uuid::from_str` and takes the sixteen bytes of the UUID it
/// returns. Trusted: the result is what the crate gives for `s`, and a UUID
/// has sixteen bytes.
#[verifier::external_body]
pub(crate) fn uuid_from_str(s: &str) -> (r: Option<Vec<u8>>)
    ensures
        r matches Some(v) ==> uuid_parse(s@) == Some(v@) && v@.len() == 16,
        r is None ==> uuid_parse(s@) is None,
{
    match s.parse::<uuid::Uuid>() {
        Ok(u) => Some(u.as_bytes().to_vec()),
        Err(_) => None,
    }
}

/// The first `k` bytes of a UUID in lowercase hexadecimal, with hyphens
/// before bytes 4, 6, 8 and 10.
pub open spec fn uuid_text(p: Seq<u8>, k: nat) -> Seq<u8>
    decreases k,
{
    if k == 0 {
        Seq::empty()
    } else {
        let j = (k - 1) as nat;
        let sep = if j == 4 || j == 6 || j == 8 || j == 10 { seq![45u8] } else { Seq::empty() };
        uuid_text(p, j) + sep + hex_byte(p[j as int])
    }
}

/// Sixteen bytes rendered as a hyphenated lowercase UUID.
pub open spec fn render_uuid(p: Seq<u8>) -> Seq<u8> {
    uuid_text(p, 16)
}

/// Appends the UUID text of the sixteen bytes at `at`.
pub fn push_uuid(out: &mut Vec<u8>, p: &[u8], at: usize)
    requires
        at + 16 <= p@.len(),
    ensures
        final(out)@ == old(out)@ + render_uuid(p@.subrange(at as int, at + 16)),
{
    let ghost q = p@.subrange(at as int, at + 16);
    let mut k: usize = 0;
    let n = p.len();
    while k < 16
        invariant
            n == p@.len(),
            k <= 16,
            at + 16 <= p@.len(),
            q == p@.subrange(at as int, at + 16),
            out@ == old(out)@ + uuid_text(q, k as nat),
        decreases 16 - k,
    {
        let ghost before = out@;
        if k == 4 || k == 6 || k == 8 || k == 10 {
            out.push(45u8);
        }
        push_hex_byte(out, p[at + k]);
        assert(out@ =~= old(out)@ + uuid_text(q, (k + 1) as nat));
        k += 1;
    }
}

} // verus!
