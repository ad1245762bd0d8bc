//! Dates and times of day in their compressed binary form. Parsing the
//! calendar text is jiff's; splitting off the UTC offset, the byte layout and
//! the rendering back to text are this module's.

use vstd::prelude::*;
use vstd::utf8::{decode_utf8, encode_utf8, valid_utf8, is_char_boundary, length_of_first_scalar,
    pop_first_scalar};
use crate::render::{dec_padded, push_dec_padded, trim_zeros, trimmed_len};

verus! {

broadcast use {vstd::utf8::encode_utf8_valid_utf8, vstd::utf8::encode_utf8_decode_utf8};

/// The year, month and day that jiff's `Date::from_str` reads from `s`, or
/// none when it refuses the text.
pub uninterp spec fn jiff_date(s: Seq<char>) -> Option<(i16, i8, i8)>;

/// The hour, minute, second and subsecond nanoseconds that jiff's
/// `Time::from_str` reads from `s`, or none when it refuses the text.
pub uninterp spec fn jiff_time(s: Seq<char>) -> Option<(i8, i8, i8, i32)>;

/// Calls `jiff::civil::Date::from_str` and takes the year, month and day of
/// the date it returns. Trusted: the result is what jiff gives for `s`, and
/// the fields lie in the ranges jiff documents for them.
#[verifier::external_body]
fn parse_date(s: &str) -> (r: Option<(i16, i8, i8)>)
    ensures
        r == jiff_date(s@),
        r matches Some((y, m, d)) ==> -9999 <= y <= 9999 && 1 <= m <= 12 && 1 <= d <= 31,
{
    match s.parse::<jiff::civil::Date>() {
        Ok(d) => Some((d.year(), d.month(), d.day())),
        Err(_) => None,
    }
}

/// Calls `jiff::civil::Time::from_str` and takes the hour, minute, second
/// and subsecond nanoseconds of the time it returns. Trusted: the result is
/// what jiff gives for `s`, and the fields lie in the ranges jiff documents
/// for them.
#[verifier::external_body]
fn parse_time(s: &str) -> (r: Option<(i8, i8, i8, i32)>)
    ensures
        r == jiff_time(s@),
        r matches Some((h, m, sec, ns)) ==> 0 <= h <= 23 && 0 <= m <= 59 && 0 <= sec <= 59 && 0
            <= ns <= 999_999_999,
{
    match s.parse::<jiff::civil::Time>() {
        Ok(t) => Some((t.hour(), t.minute(), t.second(), t.subsec_nanosecond())),
        Err(_) => None,
    }
}

/// Whether `c` is an ASCII decimal digit.
pub open spec fn is_digit(c: u8) -> bool {
    48 <= c <= 57
}

/// What `u8::from_str` gives for the two-byte text `a b`: two digits, or a
/// plus sign and one digit.
pub open spec fn parse_u8_2(a: u8, b: u8) -> Option<u8> {
    if is_digit(a) && is_digit(b) {
        Some(((a - 48) * 10 + (b - 48)) as u8)
    } else if a == 43 && is_digit(b) {
        Some((b - 48) as u8)
    } else {
        None
    }
}

/// Reads two bytes as `u8::from_str` reads a two-byte text.
fn parse_u8_pair(a: u8, b: u8) -> (r: Option<u8>)
    ensures
        r == parse_u8_2(a, b),
{
    if 48 <= a && a <= 57 && 48 <= b && b <= 57 {
        Some((a - 48) * 10 + (b - 48))
    } else if a == 43 && 48 <= b && b <= 57 {
        Some(b - 48)
    } else {
        None
    }
}

/// The UTC offset at the end of a time text: where the time proper ends, the
/// sign (0 for `Z`, 1 for `+`, 2 for `-`), and the offset's hours and
/// minutes; none when the text ends in neither `Z` nor `±hh:mm`.
pub open spec fn zone_split(b: Seq<u8>) -> Option<(int, u8, u8, u8)> {
    let n = b.len() as int;
    if n >= 1 && b[n - 1] == 90u8 {
        Some((n - 1, 0u8, 0u8, 0u8))
    } else if n >= 6 && b[n - 3] == 58u8 && (b[n - 6] == 43u8 || b[n - 6] == 45u8) {
        match (parse_u8_2(b[n - 5], b[n - 4]), parse_u8_2(b[n - 2], b[n - 1])) {
            (Some(h), Some(m)) => Some((n - 6, if b[n - 6] == 43u8 { 1u8 } else { 2u8 }, h, m)),
            _ => None,
        }
    } else {
        None
    }
}

/// A 16-bit number in big-endian bytes.
pub open spec fn be16(x: nat) -> Seq<u8> {
    seq![(x / 256) as u8, (x % 256) as u8]
}

/// A 32-bit number in big-endian bytes.
pub open spec fn be32(x: nat) -> Seq<u8> {
    seq![(x / 16777216 % 256) as u8, (x / 65536 % 256) as u8, (x / 256 % 256) as u8, (x % 256) as u8]
}

/// The compressed bytes of a date text: big-endian year, month, day; none
/// when jiff refuses it or the year lies outside `0..=9999`.
pub open spec fn date_payload(s: Seq<char>) -> Option<Seq<u8>> {
    match jiff_date(s) {
        Some((y, m, d)) => if 0 <= y <= 9999 {
            Some(be16(y as nat) + seq![m as u8, d as u8])
        } else {
            None
        },
        None => None,
    }
}

/// The compressed bytes of a time text `t` with the given offset: hour,
/// minute, second, big-endian nanoseconds, sign and offset; none when jiff
/// refuses the text or the offset is out of range.
pub open spec fn time_payload(t: Seq<char>, sign: u8, oh: u8, om: u8) -> Option<Seq<u8>> {
    match jiff_time(t) {
        Some((h, m, sec, ns)) => if oh <= 23 && om <= 60 {
            Some(seq![h as u8, m as u8, sec as u8] + be32(ns as nat) + seq![sign, oh, om])
        } else {
            None
        },
        None => None,
    }
}

/// The compressed bytes of a time-of-day text with its offset.
pub open spec fn time_text_payload(b: Seq<u8>) -> Option<Seq<u8>> {
    match zone_split(b) {
        Some((e, sign, oh, om)) => time_payload(decode_utf8(b.subrange(0, e)), sign, oh, om),
        None => None,
    }
}

/// The index of the first byte `c` in `b` at or after `i`.
pub open spec fn find_byte_from(b: Seq<u8>, c: u8, i: int) -> Option<int>
    decreases b.len() - i,
{
    if i < 0 || i >= b.len() {
        None
    } else if b[i] == c {
        Some(i)
    } else {
        find_byte_from(b, c, i + 1)
    }
}

/// Where a date-time text splits into date and time: the first `T`, else the
/// first `t`.
pub open spec fn date_time_split(b: Seq<u8>) -> Option<int> {
    match find_byte_from(b, 84u8, 0) {
        Some(i) => Some(i),
        None => find_byte_from(b, 116u8, 0),
    }
}

/// The compressed bytes of a date-time text: the date's, then the time's.
pub open spec fn date_time_payload(b: Seq<u8>) -> Option<Seq<u8>> {
    match date_time_split(b) {
        Some(t) => match date_payload(decode_utf8(b.subrange(0, t))) {
            Some(dp) => match time_text_payload(b.subrange(t + 1, b.len() as int)) {
                Some(tp) => Some(dp + tp),
                None => None,
            },
            None => None,
        },
        None => None,
    }
}

/// A byte below 0x80 starts a character of valid UTF-8, and so does the
/// byte after it.
proof fn lemma_ascii_boundaries(b: Seq<u8>, i: int)
    requires
        valid_utf8(b),
        0 <= i < b.len(),
        b[i] < 128,
    ensures
        is_char_boundary(b, i),
        is_char_boundary(b.subrange(i, b.len() as int), 1),
{
    vstd::utf8::is_char_boundary_iff_not_is_continuation_byte(b, i);
    vstd::utf8::valid_utf8_split(b, i);
    let r = b.subrange(i, b.len() as int);
    assert(r[0] == b[i]);
    assert(length_of_first_scalar(r) == 1);
    assert(valid_utf8(pop_first_scalar(r)));
    reveal_with_fuel(is_char_boundary, 2);
}

/// The characters of a piece of a string split at a character boundary.
proof fn lemma_split_chars(b: Seq<u8>, piece: Seq<char>, lo: int, hi: int)
    requires
        encode_utf8(piece) == b.subrange(lo, hi),
    ensures
        piece == decode_utf8(b.subrange(lo, hi)),
{
}

/// Finds the UTC offset at the end of a time text.
fn split_zone(s: &str) -> (r: Option<(usize, u8, u8, u8)>)
    ensures
        r matches Some((e, sign, oh, om)) ==> zone_split(encode_utf8(s@)) == Some((e as int, sign, oh, om)),
        r is None ==> zone_split(encode_utf8(s@)) is None,
{
    let b = s.as_bytes();
    let n = b.len();
    if n >= 1 && b[n - 1] == 90u8 {
        return Some((n - 1, 0u8, 0u8, 0u8));
    }
    if n >= 6 && b[n - 3] == 58u8 && (b[n - 6] == 43u8 || b[n - 6] == 45u8) {
        let h = parse_u8_pair(b[n - 5], b[n - 4]);
        let m = parse_u8_pair(b[n - 2], b[n - 1]);
        if let (Some(h), Some(m)) = (h, m) {
            let sign: u8 = if b[n - 6] == 43u8 { 1 } else { 2 };
            return Some((n - 6, sign, h, m));
        }
    }
    None
}

/// The compressed bytes of a time-of-day text with its offset.
pub(crate) fn time_text_bytes(s: &str) -> (r: Option<Vec<u8>>)
    ensures
        r matches Some(v) ==> time_text_payload(encode_utf8(s@)) == Some(v@),
        r is None ==> time_text_payload(encode_utf8(s@)) is None,
{
    let ghost b = encode_utf8(s@);
    match split_zone(s) {
        Some((e, sign, oh, om)) => {
            proof {
                lemma_ascii_boundaries(b, e as int);
            }
            let (t, _) = s.split_at(e);
            proof {
                lemma_split_chars(b, t@, 0, e as int);
            }
            match parse_time(t) {
                Some((h, m, sec, ns)) => {
                    if oh <= 23 && om <= 60 {
                        let mut v: Vec<u8> = Vec::new();
                        v.push(h as u8);
                        v.push(m as u8);
                        v.push(sec as u8);
                        let x = ns as u32;
                        v.push((x / 16777216 % 256) as u8);
                        v.push((x / 65536 % 256) as u8);
                        v.push((x / 256 % 256) as u8);
                        v.push((x % 256) as u8);
                        v.push(sign);
                        v.push(oh);
                        v.push(om);
                        assert(v@ =~= seq![h as u8, m as u8, sec as u8] + be32(ns as nat) + seq![sign, oh, om]);
                        Some(v)
                    } else {
                        None
                    }
                },
                None => None,
            }
        },
        None => None,
    }
}

/// The compressed bytes of a date text.
pub(crate) fn date_bytes(s: &str) -> (r: Option<Vec<u8>>)
    ensures
        r matches Some(v) ==> date_payload(s@) == Some(v@),
        r is None ==> date_payload(s@) is None,
{
    match parse_date(s) {
        Some((y, m, d)) => {
            if 0 <= y && y <= 9999 {
                let x = y as u16;
                let mut v: Vec<u8> = Vec::new();
                v.push((x / 256) as u8);
                v.push((x % 256) as u8);
                v.push(m as u8);
                v.push(d as u8);
                assert(v@ =~= be16(y as nat) + seq![m as u8, d as u8]);
                Some(v)
            } else {
                None
            }
        },
        None => None,
    }
}

/// Finds the first byte `c` of `b` at or after `i`.
fn find_byte(b: &[u8], c: u8, i: usize) -> (r: Option<usize>)
    ensures
        r matches Some(k) ==> find_byte_from(b@, c, i as int) == Some(k as int),
        r is None ==> find_byte_from(b@, c, i as int) is None,
    decreases b@.len() - i,
{
    if i >= b.len() {
        None
    } else if b[i] == c {
        Some(i)
    } else {
        find_byte(b, c, i + 1)
    }
}

/// `find_byte_from` finds a position holding the byte it looks for.
proof fn lemma_find_byte(b: Seq<u8>, c: u8, i: int)
    ensures
        find_byte_from(b, c, i) matches Some(k) ==> i <= k < b.len() && b[k] == c,
    decreases b.len() - i,
{
    if 0 <= i < b.len() && b[i] != c {
        lemma_find_byte(b, c, i + 1);
    }
}

/// The compressed bytes of a date-time text.
pub(crate) fn date_time_bytes(s: &str) -> (r: Option<Vec<u8>>)
    ensures
        r matches Some(v) ==> date_time_payload(encode_utf8(s@)) == Some(v@),
        r is None ==> date_time_payload(encode_utf8(s@)) is None,
{
    let ghost b = encode_utf8(s@);
    let bytes = s.as_bytes();
    let t = match find_byte(bytes, 84u8, 0) {
        Some(i) => i,
        None => match find_byte(bytes, 116u8, 0) {
            Some(i) => i,
            None => {
                return None;
            },
        },
    };
    proof {
        lemma_find_byte(b, 84u8, 0);
        lemma_find_byte(b, 116u8, 0);
        assert(date_time_split(b) == Some(t as int));
        lemma_ascii_boundaries(b, t as int);
    }
    let (date_part, rest) = s.split_at(t);
    proof {
        lemma_split_chars(b, date_part@, 0, t as int);
        vstd::utf8::valid_utf8_split(b, t as int);
    }
    let (_, time_part) = rest.split_at(1);
    proof {
        assert(encode_utf8(time_part@) =~= b.subrange(t + 1, b.len() as int));
    }
    match date_bytes(date_part) {
        Some(dp) => match time_text_bytes(time_part) {
            Some(tp) => {
                let mut v = dp;
                let mut tp = tp;
                v.append(&mut tp);
                Some(v)
            },
            None => None,
        },
        None => None,
    }
}

/// A compressed date rendered as text: `yyyy-mm-dd`.
pub open spec fn render_date(p: Seq<u8>) -> Seq<u8> {
    dec_padded((p[0] as nat) * 256 + p[1] as nat, 4) + seq![45u8] + dec_padded(p[2] as nat, 2) + seq![45u8]
        + dec_padded(p[3] as nat, 2)
}

/// The nanoseconds of a compressed time rendered as a fraction: none when
/// zero, else a point and nine digits without trailing zeros.
pub open spec fn render_fraction(ns: nat) -> Seq<u8> {
    if ns == 0 {
        Seq::empty()
    } else {
        seq![46u8] + trim_zeros(dec_padded(ns, 9))
    }
}

/// The offset of a compressed time rendered as text: `Z`, or a sign and
/// `hh:mm`.
pub open spec fn render_zone(sign: u8, oh: u8, om: u8) -> Seq<u8> {
    if sign == 1 {
        seq![43u8] + dec_padded(oh as nat, 2) + seq![58u8] + dec_padded(om as nat, 2)
    } else if sign == 2 {
        seq![45u8] + dec_padded(oh as nat, 2) + seq![58u8] + dec_padded(om as nat, 2)
    } else {
        seq![90u8]
    }
}

/// The big-endian number in four bytes.
pub open spec fn be32_value(p: Seq<u8>) -> nat {
    ((p[0] as nat) * 16777216 + (p[1] as nat) * 65536 + (p[2] as nat) * 256 + p[3] as nat) as nat
}

/// A compressed time rendered as text: `hh:mm:ss`, the fraction, the offset.
pub open spec fn render_time(p: Seq<u8>) -> Seq<u8> {
    dec_padded(p[0] as nat, 2) + seq![58u8] + dec_padded(p[1] as nat, 2) + seq![58u8] + dec_padded(
        p[2] as nat,
        2,
    ) + render_fraction(be32_value(p.subrange(3, 7))) + render_zone(p[7], p[8], p[9])
}

/// A compressed date-time rendered as text: the date, `T`, the time.
pub open spec fn render_date_time(p: Seq<u8>) -> Seq<u8> {
    render_date(p.subrange(0, 4)) + seq![84u8] + render_time(p.subrange(4, 14))
}

/// Appends the text of a compressed date.
pub fn push_date(out: &mut Vec<u8>, p: &[u8], at: usize)
    requires
        at + 4 <= p@.len(),
    ensures
        final(out)@ == old(out)@ + render_date(p@.subrange(at as int, at + 4)),
{
    let ghost q = p@.subrange(at as int, at + 4);
    let y = (p[at] as u32) * 256 + p[at + 1] as u32;
    push_dec_padded(out, y, 4);
    out.push(45u8);
    push_dec_padded(out, p[at + 2] as u32, 2);
    out.push(45u8);
    push_dec_padded(out, p[at + 3] as u32, 2);
    assert(final(out)@ =~= old(out)@ + render_date(q));
}

/// Appends the fraction of a compressed time.
fn push_fraction(out: &mut Vec<u8>, ns: u32)
    ensures
        final(out)@ == old(out)@ + render_fraction(ns as nat),
{
    if ns != 0 {
        out.push(46u8);
        let mut digits: Vec<u8> = Vec::new();
        push_dec_padded(&mut digits, ns, 9);
        let m = trimmed_len(&digits, digits.len());
        assert(digits@.subrange(0, digits@.len() as int) =~= digits@);
        crate::format::push_range(out, digits.as_slice(), 0, m);
    }
    assert(final(out)@ =~= old(out)@ + render_fraction(ns as nat));
}

/// Appends the offset of a compressed time.
fn push_zone(out: &mut Vec<u8>, sign: u8, oh: u8, om: u8)
    ensures
        final(out)@ == old(out)@ + render_zone(sign, oh, om),
{
    if sign == 1 || sign == 2 {
        out.push(if sign == 1 { 43u8 } else { 45u8 });
        push_dec_padded(out, oh as u32, 2);
        out.push(58u8);
        push_dec_padded(out, om as u32, 2);
    } else {
        out.push(90u8);
    }
    assert(final(out)@ =~= old(out)@ + render_zone(sign, oh, om));
}

/// Appends the text of a compressed time.
pub fn push_time(out: &mut Vec<u8>, p: &[u8], at: usize)
    requires
        at + 10 <= p@.len(),
    ensures
        final(out)@ == old(out)@ + render_time(p@.subrange(at as int, at + 10)),
{
    let ghost q = p@.subrange(at as int, at + 10);
    push_dec_padded(out, p[at] as u32, 2);
    out.push(58u8);
    push_dec_padded(out, p[at + 1] as u32, 2);
    out.push(58u8);
    push_dec_padded(out, p[at + 2] as u32, 2);
    let ghost mid = out@;
    let ns = (p[at + 3] as u32) * 16777216 + (p[at + 4] as u32) * 65536 + (p[at + 5] as u32) * 256
        + p[at + 6] as u32;
    assert(ns == be32_value(q.subrange(3, 7)));
    push_fraction(out, ns);
    push_zone(out, p[at + 7], p[at + 8], p[at + 9]);
    assert(final(out)@ =~= old(out)@ + render_time(q));
}

/// Appends the text of a compressed date-time.
pub fn push_date_time(out: &mut Vec<u8>, p: &[u8], at: usize)
    requires
        at + 14 <= p@.len(),
    ensures
        final(out)@ == old(out)@ + render_date_time(p@.subrange(at as int, at + 14)),
{
    let ghost q = p@.subrange(at as int, at + 14);
    let _n = p.len();
    push_date(out, p, at);
    out.push(84u8);
    push_time(out, p, at + 4);
    assert(q.subrange(0, 4) =~= p@.subrange(at as int, at + 4));
    assert(q.subrange(4, 14) =~= p@.subrange(at + 4, at + 14));
    assert(final(out)@ =~= old(out)@ + render_date_time(q));
}

} // verus!
