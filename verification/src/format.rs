//! Compressed forms of strings: by `format` (dates, times, addresses,
//! UUIDs) and by the literal prefix and suffix of a `pattern`.

use vstd::prelude::*;
use vstd::utf8::encode_utf8;
use crate::varint::{uvarint_bytes, write_uvarint};
use crate::datetime::{date_payload, time_text_payload, date_time_payload, render_date, render_time,
    render_date_time, date_bytes, time_text_bytes, date_time_bytes, push_date, push_time,
    push_date_time};
use crate::netaddr::{ipv4_octets, ipv6_octets, uuid_parse, render_ipv4, render_ipv6, render_uuid,
    parse_ipv4, parse_ipv6, uuid_from_str, push_ipv4, push_ipv6, push_uuid};

verus! {

pub const TAG_STRING_UNCOMPRESSED: u8 = 0x00;
pub const TAG_DATE_COMPRESSED: u8 = 0x01;
pub const TAG_TIME_COMPRESSED: u8 = 0x02;
pub const TAG_DATE_TIME_COMPRESSED: u8 = 0x03;
pub const TAG_IPV4_COMPRESSED: u8 = 0x04;
pub const TAG_IPV6_COMPRESSED: u8 = 0x05;
pub const TAG_UUID_COMPRESSED: u8 = 0x06;
pub const TAG_PATTERN_COMPRESSED: u8 = 0x07;

/// The formats with a compressed form.
#[derive(Clone, Copy, Debug, PartialEq, Eq, Structural)]
pub enum FormatKind {
    Date,
    Time,
    DateTime,
    Ipv4,
    Ipv6,
    Uuid,
}

/// The format a `format` keyword names, by its UTF-8 bytes: `date`, `time`,
/// `date-time`, `ipv4`, `ipv6` or `uuid`.
pub open spec fn format_kind(f: Seq<u8>) -> Option<FormatKind> {
    if f == seq![100u8, 97, 116, 101] {
        Some(FormatKind::Date)
    } else if f == seq![116u8, 105, 109, 101] {
        Some(FormatKind::Time)
    } else if f == seq![100u8, 97, 116, 101, 45, 116, 105, 109, 101] {
        Some(FormatKind::DateTime)
    } else if f == seq![105u8, 112, 118, 52] {
        Some(FormatKind::Ipv4)
    } else if f == seq![105u8, 112, 118, 54] {
        Some(FormatKind::Ipv6)
    } else if f == seq![117u8, 117, 105, 100] {
        Some(FormatKind::Uuid)
    } else {
        None
    }
}

/// The tag of a format's compressed form.
pub open spec fn kind_tag(k: FormatKind) -> u8 {
    match k {
        FormatKind::Date => TAG_DATE_COMPRESSED,
        FormatKind::Time => TAG_TIME_COMPRESSED,
        FormatKind::DateTime => TAG_DATE_TIME_COMPRESSED,
        FormatKind::Ipv4 => TAG_IPV4_COMPRESSED,
        FormatKind::Ipv6 => TAG_IPV6_COMPRESSED,
        FormatKind::Uuid => TAG_UUID_COMPRESSED,
    }
}

/// The number of bytes after the tag in a format's compressed form.
pub open spec fn kind_width(k: FormatKind) -> nat {
    match k {
        FormatKind::Date => 4,
        FormatKind::Time => 10,
        FormatKind::DateTime => 14,
        FormatKind::Ipv4 => 4,
        FormatKind::Ipv6 => 16,
        FormatKind::Uuid => 16,
    }
}

/// The compressed bytes (after the tag) of the string `s` under a format,
/// or none when `s` does not parse as one.
pub open spec fn kind_payload(k: FormatKind, s: Seq<char>) -> Option<Seq<u8>> {
    match k {
        FormatKind::Date => date_payload(s),
        FormatKind::Time => time_text_payload(encode_utf8(s)),
        FormatKind::DateTime => date_time_payload(encode_utf8(s)),
        FormatKind::Ipv4 => ipv4_octets(encode_utf8(s)),
        FormatKind::Ipv6 => ipv6_octets(encode_utf8(s)),
        FormatKind::Uuid => uuid_parse(s),
    }
}

/// The text that compressed bytes of a format stand for.
pub open spec fn kind_render(k: FormatKind, p: Seq<u8>) -> Seq<u8> {
    match k {
        FormatKind::Date => render_date(p),
        FormatKind::Time => render_time(p),
        FormatKind::DateTime => render_date_time(p),
        FormatKind::Ipv4 => render_ipv4(p),
        FormatKind::Ipv6 => render_ipv6(p),
        FormatKind::Uuid => render_uuid(p),
    }
}

/// What the format compression writes for string `s` under format `f`, and
/// whether it compressed: the tag and the compressed bytes when `s` parses;
/// for a known format that does not, the tag of an uncompressed string; for
/// another format, nothing.
pub open spec fn format_bytes(f: Seq<char>, s: Seq<char>) -> (Seq<u8>, bool) {
    match format_kind(encode_utf8(f)) {
        Some(k) => match kind_payload(k, s) {
            Some(p) => (seq![kind_tag(k)] + p, true),
            None => (seq![TAG_STRING_UNCOMPRESSED], false),
        },
        None => (Seq::empty(), false),
    }
}

/// Whether `f` names a format with a compressed form.
pub open spec fn known_format(f: Seq<char>) -> bool {
    format_kind(encode_utf8(f)) is Some
}

/// The tag of the compressed form of a known format.
pub open spec fn compressed_tag(f: Seq<char>) -> u8 {
    kind_tag(format_kind(encode_utf8(f)).unwrap())
}

/// The text of a compressed string under known format `f` at `pos` (after
/// the tag), and the position after it; no text and the position unchanged
/// when the buffer ends early.
pub open spec fn format_decode(f: Seq<char>, b: Seq<u8>, pos: int) -> (Seq<u8>, int) {
    let k = format_kind(encode_utf8(f)).unwrap();
    if 0 <= pos && pos + kind_width(k) <= b.len() {
        (kind_render(k, b.subrange(pos, pos + kind_width(k))), pos + kind_width(k))
    } else {
        (Seq::empty(), pos)
    }
}

/// The format a `format` keyword names.
pub fn format_kind_of(f: &str) -> (r: Option<FormatKind>)
    ensures
        r == format_kind(encode_utf8(f@)),
{
    let b = f.as_bytes();
    let r = if b.len() == 4 && b[0] == 100 && b[1] == 97 && b[2] == 116 && b[3] == 101 {
        Some(FormatKind::Date)
    } else if b.len() == 4 && b[0] == 116 && b[1] == 105 && b[2] == 109 && b[3] == 101 {
        Some(FormatKind::Time)
    } else if b.len() == 9 && b[0] == 100 && b[1] == 97 && b[2] == 116 && b[3] == 101 && b[4] == 45
        && b[5] == 116 && b[6] == 105 && b[7] == 109 && b[8] == 101 {
        Some(FormatKind::DateTime)
    } else if b.len() == 4 && b[0] == 105 && b[1] == 112 && b[2] == 118 && b[3] == 52 {
        Some(FormatKind::Ipv4)
    } else if b.len() == 4 && b[0] == 105 && b[1] == 112 && b[2] == 118 && b[3] == 54 {
        Some(FormatKind::Ipv6)
    } else if b.len() == 4 && b[0] == 117 && b[1] == 117 && b[2] == 105 && b[3] == 100 {
        Some(FormatKind::Uuid)
    } else {
        None
    };
    proof {
        let s = b@;
        assert(s == seq![100u8, 97, 116, 101] ==> s.len() == 4 && s[0] == 100 && s[1] == 97 && s[2] == 116 && s[3] == 101);
        assert(s == seq![116u8, 105, 109, 101] ==> s.len() == 4 && s[0] == 116 && s[1] == 105 && s[2] == 109 && s[3] == 101);
        assert(s == seq![100u8, 97, 116, 101, 45, 116, 105, 109, 101] ==> s.len() == 9 && s[0] == 100 && s[4] == 45 && s[8] == 101 && s[5] == 116);
        assert(s == seq![105u8, 112, 118, 52] ==> s.len() == 4 && s[3] == 52 && s[0] == 105);
        assert(s == seq![105u8, 112, 118, 54] ==> s.len() == 4 && s[3] == 54 && s[0] == 105);
        assert(s == seq![117u8, 117, 105, 100] ==> s.len() == 4 && s[0] == 117 && s[1] == 117);
        if b.len() == 4 && b[0] == 100 && b[1] == 97 && b[2] == 116 && b[3] == 101 {
            assert(s =~= seq![100u8, 97, 116, 101]);
        } else if b.len() == 4 && b[0] == 116 && b[1] == 105 && b[2] == 109 && b[3] == 101 {
            assert(s =~= seq![116u8, 105, 109, 101]);
        } else if b.len() == 9 && b[0] == 100 && b[1] == 97 && b[2] == 116 && b[3] == 101 && b[4] == 45
            && b[5] == 116 && b[6] == 105 && b[7] == 109 && b[8] == 101 {
            assert(s =~= seq![100u8, 97, 116, 101, 45, 116, 105, 109, 101]);
        } else if b.len() == 4 && b[0] == 105 && b[1] == 112 && b[2] == 118 && b[3] == 52 {
            assert(s =~= seq![105u8, 112, 118, 52]);
        } else if b.len() == 4 && b[0] == 105 && b[1] == 112 && b[2] == 118 && b[3] == 54 {
            assert(s =~= seq![105u8, 112, 118, 54]);
        } else if b.len() == 4 && b[0] == 117 && b[1] == 117 && b[2] == 105 && b[3] == 100 {
            assert(s =~= seq![117u8, 117, 105, 100]);
        }
    }
    r
}

/// The tag of a format's compressed form.
pub fn kind_tag_of(k: FormatKind) -> (t: u8)
    ensures
        t == kind_tag(k),
{
    match k {
        FormatKind::Date => TAG_DATE_COMPRESSED,
        FormatKind::Time => TAG_TIME_COMPRESSED,
        FormatKind::DateTime => TAG_DATE_TIME_COMPRESSED,
        FormatKind::Ipv4 => TAG_IPV4_COMPRESSED,
        FormatKind::Ipv6 => TAG_IPV6_COMPRESSED,
        FormatKind::Uuid => TAG_UUID_COMPRESSED,
    }
}

/// The compressed bytes (after the tag) of `s` under a format.
fn kind_payload_of(k: FormatKind, s: &str) -> (r: Option<Vec<u8>>)
    ensures
        r matches Some(v) ==> kind_payload(k, s@) == Some(v@) && v@.len() == kind_width(k),
        r is None ==> kind_payload(k, s@) is None,
{
    match k {
        FormatKind::Date => date_bytes(s),
        FormatKind::Time => time_text_bytes(s),
        FormatKind::DateTime => date_time_bytes(s),
        FormatKind::Ipv4 => parse_ipv4(s.as_bytes()),
        FormatKind::Ipv6 => parse_ipv6(s.as_bytes()),
        FormatKind::Uuid => uuid_from_str(s),
    }
}

/// The string bytes `b` with the optional literal prefix removed from the
/// front and the optional literal suffix from the back, when both are there.
pub open spec fn strip_affixes(prefix: Option<String>, suffix: Option<String>, b: Seq<u8>) -> Option<Seq<u8>> {
    let rest = match prefix {
        Some(p) => {
            let pb = encode_utf8(p@);
            if pb.len() <= b.len() && b.subrange(0, pb.len() as int) == pb {
                Some(b.subrange(pb.len() as int, b.len() as int))
            } else {
                None
            }
        },
        None => Some(b),
    };
    match rest {
        Some(r) => match suffix {
            Some(q) => {
                let qb = encode_utf8(q@);
                if qb.len() <= r.len() && r.subrange(r.len() - qb.len(), r.len() as int) == qb {
                    Some(r.subrange(0, r.len() - qb.len()))
                } else {
                    None
                }
            },
            None => Some(r),
        },
        None => None,
    }
}

/// What the pattern compression writes for string bytes `b`, and whether it
/// compressed: the tag and the middle part when the affixes are there, else
/// the tag of an uncompressed string.
pub open spec fn pattern_bytes(prefix: Option<String>, suffix: Option<String>, b: Seq<u8>) -> (Seq<u8>, bool) {
    match strip_affixes(prefix, suffix, b) {
        Some(core) => (seq![TAG_PATTERN_COMPRESSED] + uvarint_bytes(core.len() as u64) + core, true),
        None => (seq![TAG_STRING_UNCOMPRESSED], false),
    }
}

/// Whether `b[start..start + p.len()]` equals `p`.
fn bytes_match_at(b: &[u8], start: usize, p: &[u8]) -> (r: bool)
    requires
        start + p@.len() <= b@.len(),
    ensures
        r == (b@.subrange(start as int, start + p@.len()) == p@),
{
    let mut i: usize = 0;
    let blen = b.len();
    while i < p.len()
        invariant
            i <= p@.len(),
            start + p@.len() <= b@.len(),
            b@.len() <= usize::MAX,
            forall|j: int| 0 <= j < i ==> b@[start + j] == p@[j],
        decreases p@.len() - i,
    {
        if b[start + i] != p[i] {
            assert(b@.subrange(start as int, start + p@.len())[i as int] != p@[i as int]);
            return false;
        }
        i += 1;
    }
    assert(b@.subrange(start as int, start + p@.len()) =~= p@);
    true
}

/// Appends `b[start..end]` to `buf`.
pub fn push_range(buf: &mut Vec<u8>, b: &[u8], start: usize, end: usize)
    requires
        start <= end <= b@.len(),
    ensures
        final(buf)@ == old(buf)@ + b@.subrange(start as int, end as int),
{
    let mut i = start;
    while i < end
        invariant
            start <= i <= end <= b@.len(),
            buf@ == old(buf)@ + b@.subrange(start as int, i as int),
        decreases end - i,
    {
        buf.push(b[i]);
        assert(b@.subrange(start as int, i + 1) =~= b@.subrange(start as int, i as int).push(b@[i as int]));
        i += 1;
    }
}

/// Writes the pattern-compressed form of `s` when it carries the literal
/// prefix and suffix; otherwise writes the tag of an uncompressed string.
/// Returns whether it compressed.
pub fn encode_string_with_prefix_or_suffix(
    maybe_prefix: &Option<String>,
    maybe_suffix: &Option<String>,
    s: &str,
    buf: &mut Vec<u8>,
) -> (done: bool)
    ensures
        final(buf)@ == old(buf)@ + pattern_bytes(*maybe_prefix, *maybe_suffix, encode_utf8(s@)).0,
        done == pattern_bytes(*maybe_prefix, *maybe_suffix, encode_utf8(s@)).1,
{
    let b = s.as_bytes();
    let mut start: usize = 0;
    let mut end: usize = b.len();
    let mut matches = true;
    if let Some(prefix) = maybe_prefix {
        let pb = prefix.as_str().as_bytes();
        if pb.len() <= b.len() && bytes_match_at(b, 0, pb) {
            start = pb.len();
        } else {
            matches = false;
        }
    }
    if matches {
        if let Some(suffix) = maybe_suffix {
            let qb = suffix.as_str().as_bytes();
            if qb.len() <= end - start && bytes_match_at(b, end - qb.len(), qb) {
                assert(b@.subrange(start as int, end as int).subrange(end - start - qb@.len(), end - start)
                    =~= b@.subrange(end - qb@.len(), end as int));
                end = end - qb.len();
            } else {
                assert(qb@.len() <= end - start ==> b@.subrange(start as int, end as int).subrange(end - start - qb@.len(), end - start)
                    =~= b@.subrange(end - qb@.len(), end as int));
                matches = false;
            }
        }
    }
    let ghost old_buf = buf@;
    if matches {
        buf.push(TAG_PATTERN_COMPRESSED);
        write_uvarint(buf, (end - start) as u64);
        push_range(buf, b, start, end);
        proof {
            let core = b@.subrange(start as int, end as int);
            assert(strip_affixes(*maybe_prefix, *maybe_suffix, b@) == Some(core)) by {
                if let Some(p) = *maybe_prefix {
                    assert(b@.subrange(start as int, b@.len() as int).subrange(0, end - start) =~= core);
                }
            }
            assert(buf@ =~= old_buf + (seq![TAG_PATTERN_COMPRESSED]
                + uvarint_bytes(core.len() as u64) + core));
        }
        return true;
    }
    buf.push(TAG_STRING_UNCOMPRESSED);
    proof {
        assert(strip_affixes(*maybe_prefix, *maybe_suffix, b@) is None);
        assert(buf@ =~= old_buf + seq![TAG_STRING_UNCOMPRESSED]);
    }
    false
}

/// Writes the compressed form of `s` under `format` when it parses as one;
/// for a known format that fails, writes the tag of an uncompressed string.
/// Returns whether it compressed.
pub fn encode_string_with_format(format: &str, s: &str, buf: &mut Vec<u8>) -> (done: bool)
    ensures
        final(buf)@ == old(buf)@ + format_bytes(format@, s@).0,
        done == format_bytes(format@, s@).1,
{
    match format_kind_of(format) {
        Some(k) => match kind_payload_of(k, s) {
            Some(p) => {
                buf.push(kind_tag_of(k));
                let ghost mid = buf@;
                push_range(buf, p.as_slice(), 0, p.len());
                assert(p@.subrange(0, p@.len() as int) =~= p@);
                assert(buf@ =~= old(buf)@ + (seq![kind_tag(k)] + p@));
                true
            },
            None => {
                buf.push(TAG_STRING_UNCOMPRESSED);
                assert(buf@ =~= old(buf)@ + seq![TAG_STRING_UNCOMPRESSED]);
                false
            },
        },
        None => {
            assert(buf@ =~= old(buf)@ + Seq::<u8>::empty());
            false
        },
    }
}

/// The compressed tag of a known format.
pub fn format_tag_of(f: &str) -> (r: Option<u8>)
    ensures
        r matches Some(t) ==> known_format(f@) && t == compressed_tag(f@),
        r is None ==> !known_format(f@),
{
    match format_kind_of(f) {
        Some(k) => Some(kind_tag_of(k)),
        None => None,
    }
}

/// Decodes the compressed form of a string under known format `f` at `*pos`
/// (after the tag) into its text.
pub fn decode_formatted(f: &str, buf: &[u8], pos: &mut usize) -> (b: Vec<u8>)
    requires
        *old(pos) <= buf@.len(),
        known_format(f@),
    ensures
        (b@, *final(pos) as int) == format_decode(f@, buf@, *old(pos) as int),
        *old(pos) <= *final(pos) <= buf@.len(),
{
    let k = match format_kind_of(f) {
        Some(k) => k,
        None => {
            return Vec::new();
        },
    };
    let w: usize = match k {
        FormatKind::Date => 4,
        FormatKind::Time => 10,
        FormatKind::DateTime => 14,
        FormatKind::Ipv4 => 4,
        FormatKind::Ipv6 => 16,
        FormatKind::Uuid => 16,
    };
    let mut out: Vec<u8> = Vec::new();
    let at = *pos;
    if w > buf.len() - at {
        return out;
    }
    match k {
        FormatKind::Date => push_date(&mut out, buf, at),
        FormatKind::Time => push_time(&mut out, buf, at),
        FormatKind::DateTime => push_date_time(&mut out, buf, at),
        FormatKind::Ipv4 => push_ipv4(&mut out, buf, at),
        FormatKind::Ipv6 => push_ipv6(&mut out, buf, at),
        FormatKind::Uuid => push_uuid(&mut out, buf, at),
    }
    *pos = at + w;
    assert(out@ =~= kind_render(k, buf@.subrange(at as int, at + w)));
    out
}

} // verus!
