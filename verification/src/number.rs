//! The compact byte form of a single number: a tag byte that names the kind
//! of number, then its payload as a varint (decimals carry their scale byte
//! before the varint).

use vstd::prelude::*;
use crate::value::{Decimal128, Decimal64, Number};
use crate::varint::{
    lemma_uvarint128_roundtrip, lemma_uvarint_roundtrip, read_uvarint, read_uvarint128,
    read_uvarint128_spec, read_uvarint_spec, uvarint128_bytes, uvarint_bytes, write_uvarint,
    write_uvarint128,
};

verus! {

pub const NUMBER_INT: u8 = 0x40;
pub const NUMBER_UINT: u8 = 0x50;
pub const NUMBER_FLOAT: u8 = 0x60;
pub const NUMBER_DECIMAL64: u8 = 0x70;
pub const NUMBER_DECIMAL128: u8 = 0x71;

/// The compact bytes of a number.
pub open spec fn number_bytes(n: Number) -> Seq<u8> {
    match n {
        Number::Int64(v) => seq![NUMBER_INT] + uvarint_bytes(v as u64),
        Number::UInt64(v) => seq![NUMBER_UINT] + uvarint_bytes(v),
        Number::Float64Bits(b) => seq![NUMBER_FLOAT] + uvarint_bytes(b),
        Number::Decimal64(d) => seq![NUMBER_DECIMAL64, d.scale] + uvarint_bytes(d.value as u64),
        Number::Decimal128(d) => seq![NUMBER_DECIMAL128, d.scale] + uvarint128_bytes(
            d.value as u128,
        ),
    }
}

/// The number that compact bytes hold: the tag must be known and the varint
/// must end exactly at the end of the bytes.
pub open spec fn decode_number_spec(b: Seq<u8>) -> Option<Number> {
    if b.len() == 0 {
        None
    } else if b[0] == NUMBER_INT || b[0] == NUMBER_UINT || b[0] == NUMBER_FLOAT {
        let (v, end) = read_uvarint_spec(b, 1);
        if end != b.len() {
            None
        } else if b[0] == NUMBER_INT {
            Some(Number::Int64(v as i64))
        } else if b[0] == NUMBER_UINT {
            Some(Number::UInt64(v))
        } else {
            Some(Number::Float64Bits(v))
        }
    } else if b[0] == NUMBER_DECIMAL64 && b.len() >= 2 {
        let (v, end) = read_uvarint_spec(b, 2);
        if end != b.len() {
            None
        } else {
            Some(Number::Decimal64(Decimal64 { scale: b[1], value: v as i64 }))
        }
    } else if b[0] == NUMBER_DECIMAL128 && b.len() >= 2 {
        let (v, end) = read_uvarint128_spec(b, 2);
        if end != b.len() {
            None
        } else {
            Some(Number::Decimal128(Decimal128 { scale: b[1], value: v as i128 }))
        }
    } else {
        None
    }
}

/// The compact bytes of `n`.
pub fn compact_encode(n: &Number) -> (r: Vec<u8>)
    ensures
        r@ == number_bytes(*n),
{
    let mut buf: Vec<u8> = Vec::new();
    match n {
        Number::Int64(v) => {
            buf.push(NUMBER_INT);
            write_uvarint(&mut buf, *v as u64);
        },
        Number::UInt64(v) => {
            buf.push(NUMBER_UINT);
            write_uvarint(&mut buf, *v);
        },
        Number::Float64Bits(b) => {
            buf.push(NUMBER_FLOAT);
            write_uvarint(&mut buf, *b);
        },
        Number::Decimal64(d) => {
            buf.push(NUMBER_DECIMAL64);
            buf.push(d.scale);
            write_uvarint(&mut buf, d.value as u64);
        },
        Number::Decimal128(d) => {
            buf.push(NUMBER_DECIMAL128);
            buf.push(d.scale);
            write_uvarint128(&mut buf, d.value as u128);
        },
    }
    assert(buf@ =~= number_bytes(*n));
    buf
}

/// The number held in compact bytes, if they hold one.
pub fn decode_number(b: &[u8]) -> (r: Option<Number>)
    ensures
        r == decode_number_spec(b@),
{
    if b.len() == 0 {
        return None;
    }
    let tag = b[0];
    if tag == NUMBER_INT || tag == NUMBER_UINT || tag == NUMBER_FLOAT {
        let mut pos: usize = 1;
        let v = read_uvarint(b, &mut pos);
        if pos != b.len() {
            None
        } else if tag == NUMBER_INT {
            Some(Number::Int64(v as i64))
        } else if tag == NUMBER_UINT {
            Some(Number::UInt64(v))
        } else {
            Some(Number::Float64Bits(v))
        }
    } else if tag == NUMBER_DECIMAL64 && b.len() >= 2 {
        let mut pos: usize = 2;
        let v = read_uvarint(b, &mut pos);
        if pos != b.len() {
            None
        } else {
            Some(Number::Decimal64(Decimal64 { scale: b[1], value: v as i64 }))
        }
    } else if tag == NUMBER_DECIMAL128 && b.len() >= 2 {
        let mut pos: usize = 2;
        let v = read_uvarint128(b, &mut pos);
        if pos != b.len() {
            None
        } else {
            Some(Number::Decimal128(Decimal128 { scale: b[1], value: v as i128 }))
        }
    } else {
        None
    }
}

/// Decoding the compact bytes of a number gives the number back.
pub proof fn lemma_number_roundtrip(n: Number)
    ensures
        decode_number_spec(number_bytes(n)) == Some(n),
{
    let b = number_bytes(n);
    match n {
        Number::Int64(v) => {
            lemma_uvarint_roundtrip(seq![NUMBER_INT], v as u64, Seq::empty());
            assert(seq![NUMBER_INT] + uvarint_bytes(v as u64) + Seq::<u8>::empty() =~= b);
            assert((v as u64) as i64 == v) by (bit_vector);
        },
        Number::UInt64(v) => {
            lemma_uvarint_roundtrip(seq![NUMBER_UINT], v, Seq::empty());
            assert(seq![NUMBER_UINT] + uvarint_bytes(v) + Seq::<u8>::empty() =~= b);
        },
        Number::Float64Bits(v) => {
            lemma_uvarint_roundtrip(seq![NUMBER_FLOAT], v, Seq::empty());
            assert(seq![NUMBER_FLOAT] + uvarint_bytes(v) + Seq::<u8>::empty() =~= b);
        },
        Number::Decimal64(d) => {
            let v = d.value;
            lemma_uvarint_roundtrip(seq![NUMBER_DECIMAL64, d.scale], v as u64, Seq::empty());
            assert(seq![NUMBER_DECIMAL64, d.scale] + uvarint_bytes(v as u64) + Seq::<u8>::empty() =~= b);
            assert((v as u64) as i64 == v) by (bit_vector);
        },
        Number::Decimal128(d) => {
            let v = d.value;
            lemma_uvarint128_roundtrip(seq![NUMBER_DECIMAL128, d.scale], v as u128, Seq::empty());
            assert(seq![NUMBER_DECIMAL128, d.scale] + uvarint128_bytes(v as u128) + Seq::<u8>::empty() =~= b);
            assert((v as u128) as i128 == v) by (bit_vector);
        },
    }
}

} // verus!
