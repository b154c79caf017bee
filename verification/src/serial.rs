//! Sortable serialization of integers into value slots.
//!
//! A slot value is a byte string, and range filters compare slot values by
//! plain byte order ([`crate::bytes::lex_le`]).  Numbers are therefore
//! stored in a fixed-width big-endian form whose byte order agrees with
//! numeric order; signed numbers are offset into the unsigned range first.
//! The lemmas at the bottom state that agreement.

use vstd::prelude::*;

use crate::bytes::lex_le;
use crate::errors::Error;

verus! {

/// The byte of `x` that ends up `sh` bits from the low end.
pub open spec fn byte_at(x: u64, sh: u64) -> u8 {
    ((x >> sh) & 0xff) as u8
}

/// The eight bytes of `x`, most significant first.
pub open spec fn be_bytes_of(x: u64) -> Seq<u8> {
    seq![
        byte_at(x, 56),
        byte_at(x, 48),
        byte_at(x, 40),
        byte_at(x, 32),
        byte_at(x, 24),
        byte_at(x, 16),
        byte_at(x, 8),
        byte_at(x, 0),
    ]
}

/// The unsigned number spelled by eight bytes, most significant first.
pub open spec fn be_value_of(a: Seq<u8>) -> u64
    recommends
        a.len() == 8,
{
    (((a[0] as u64) << 56) | ((a[1] as u64) << 48) | ((a[2] as u64) << 40) | ((a[3] as u64) << 32)
        | ((a[4] as u64) << 24) | ((a[5] as u64) << 16) | ((a[6] as u64) << 8) | (a[7] as u64)) as u64
}

/// The signed number `x` shifted into the unsigned range, keeping order.
pub open spec fn offset_of_i64(x: i64) -> u64 {
    (x + 0x8000_0000_0000_0000) as u64
}

fn take_byte(x: u64, sh: u64) -> (r: u8)
    requires
        sh < 64,
    ensures
        r == byte_at(x, sh),
{
    proof {
        assert(((x >> sh) & 0xff) < 256) by (bit_vector);
    }
    ((x >> sh) & 0xff) as u8
}

/// Serialize an unsigned number into its sortable eight-byte form.
pub fn serialise_u64(x: u64) -> (r: Vec<u8>)
    ensures
        r@ == be_bytes_of(x),
{
    let mut out: Vec<u8> = Vec::new();
    out.push(take_byte(x, 56));
    out.push(take_byte(x, 48));
    out.push(take_byte(x, 40));
    out.push(take_byte(x, 32));
    out.push(take_byte(x, 24));
    out.push(take_byte(x, 16));
    out.push(take_byte(x, 8));
    out.push(take_byte(x, 0));
    proof {
        assert(out@ =~= be_bytes_of(x));
    }
    out
}

/// Serialize a signed number into its sortable eight-byte form.
pub fn serialise_i64(x: i64) -> (r: Vec<u8>)
    ensures
        r@ == be_bytes_of(offset_of_i64(x)),
{
    let u: u64 = if x >= 0 {
        (x as u64) + 0x8000_0000_0000_0000u64
    } else {
        ((x + 0x7fff_ffff_ffff_ffffi64) + 1) as u64
    };
    serialise_u64(u)
}

/// Read an unsigned number back from its sortable eight-byte form.
///
/// Fails with `Serialisation` exactly when the value is not eight bytes.
pub fn decode_u64(v: &Vec<u8>) -> (r: Result<u64, Error>)
    ensures
        v@.len() == 8 ==> (r matches Ok(x) && x == be_value_of(v@)),
        v@.len() != 8 ==> (r matches Err(e) && e is Serialisation),
{
    if v.len() != 8 {
        return Err(Error::Serialisation);
    }
    let x: u64 = ((v[0] as u64) << 56u64) | ((v[1] as u64) << 48u64) | ((v[2] as u64) << 40u64) | (
    (v[3] as u64) << 32u64) | ((v[4] as u64) << 24u64) | ((v[5] as u64) << 16u64) | ((v[6] as u64)
        << 8u64) | (v[7] as u64);
    Ok(x)
}

/// Serializing and then decoding an unsigned number gives it back.
pub proof fn lemma_u64_round_trip(x: u64)
    ensures
        be_value_of(be_bytes_of(x)) == x,
{
    let a = be_bytes_of(x);
    let a0 = a[0];
    let a1 = a[1];
    let a2 = a[2];
    let a3 = a[3];
    let a4 = a[4];
    let a5 = a[5];
    let a6 = a[6];
    let a7 = a[7];
    assert((((a0 as u64) << 56) | ((a1 as u64) << 48) | ((a2 as u64) << 40) | ((a3 as u64) << 32)
        | ((a4 as u64) << 24) | ((a5 as u64) << 16) | ((a6 as u64) << 8) | (a7 as u64)) as u64
        == x) by (bit_vector)
        requires
            a0 == ((x >> 56) & 0xff) as u8,
            a1 == ((x >> 48) & 0xff) as u8,
            a2 == ((x >> 40) & 0xff) as u8,
            a3 == ((x >> 32) & 0xff) as u8,
            a4 == ((x >> 24) & 0xff) as u8,
            a5 == ((x >> 16) & 0xff) as u8,
            a6 == ((x >> 8) & 0xff) as u8,
            a7 == ((x >> 0) & 0xff) as u8,
    ;
}

/// Lexicographic order on two eight-byte strings, written out over the
/// individual bytes.
pub open spec fn lex8(a: Seq<u8>, b: Seq<u8>) -> bool
    recommends
        a.len() == 8,
        b.len() == 8,
{
    a[0] < b[0] || (a[0] == b[0] && (a[1] < b[1] || (a[1] == b[1] && (a[2] < b[2] || (a[2] == b[2]
        && (a[3] < b[3] || (a[3] == b[3] && (a[4] < b[4] || (a[4] == b[4] && (a[5] < b[5] || (a[5]
        == b[5] && (a[6] < b[6] || (a[6] == b[6] && a[7] <= b[7])))))))))))))
}

/// On eight-byte strings, [`lex_le`] coincides with its written-out form.
pub proof fn lemma_lex_le_8(a: Seq<u8>, b: Seq<u8>)
    requires
        a.len() == 8,
        b.len() == 8,
    ensures
        lex_le(a, b) == lex8(a, b),
{
    let a1 = a.drop_first();
    let b1 = b.drop_first();
    let a2 = a1.drop_first();
    let b2 = b1.drop_first();
    let a3 = a2.drop_first();
    let b3 = b2.drop_first();
    let a4 = a3.drop_first();
    let b4 = b3.drop_first();
    let a5 = a4.drop_first();
    let b5 = b4.drop_first();
    let a6 = a5.drop_first();
    let b6 = b5.drop_first();
    let a7 = a6.drop_first();
    let b7 = b6.drop_first();
    reveal_with_fuel(lex_le, 10);
    assert(a1[0] == a[1] && a2[0] == a[2] && a3[0] == a[3] && a4[0] == a[4] && a5[0] == a[5]
        && a6[0] == a[6] && a7[0] == a[7]);
    assert(b1[0] == b[1] && b2[0] == b[2] && b3[0] == b[3] && b4[0] == b[4] && b5[0] == b[5]
        && b6[0] == b[6] && b7[0] == b[7]);
    assert(a7.len() == 1 && b7.len() == 1);
    assert(a7.drop_first().len() == 0);
}

/// Byte order of the sortable forms agrees with numeric order on `u64`.
pub proof fn lemma_u64_order(x: u64, y: u64)
    ensures
        lex_le(be_bytes_of(x), be_bytes_of(y)) == (x <= y),
{
    let a = be_bytes_of(x);
    let b = be_bytes_of(y);
    lemma_lex_le_8(a, b);
    let a0 = a[0];
    let a1 = a[1];
    let a2 = a[2];
    let a3 = a[3];
    let a4 = a[4];
    let a5 = a[5];
    let a6 = a[6];
    let a7 = a[7];
    let b0 = b[0];
    let b1 = b[1];
    let b2 = b[2];
    let b3 = b[3];
    let b4 = b[4];
    let b5 = b[5];
    let b6 = b[6];
    let b7 = b[7];
    assert((a0 < b0 || (a0 == b0 && (a1 < b1 || (a1 == b1 && (a2 < b2 || (a2 == b2 && (a3 < b3 || (
    a3 == b3 && (a4 < b4 || (a4 == b4 && (a5 < b5 || (a5 == b5 && (a6 < b6 || (a6 == b6 && a7
        <= b7)))))))))))))) == (x <= y)) by (bit_vector)
        requires
            a0 == ((x >> 56) & 0xff) as u8,
            a1 == ((x >> 48) & 0xff) as u8,
            a2 == ((x >> 40) & 0xff) as u8,
            a3 == ((x >> 32) & 0xff) as u8,
            a4 == ((x >> 24) & 0xff) as u8,
            a5 == ((x >> 16) & 0xff) as u8,
            a6 == ((x >> 8) & 0xff) as u8,
            a7 == ((x >> 0) & 0xff) as u8,
            b0 == ((y >> 56) & 0xff) as u8,
            b1 == ((y >> 48) & 0xff) as u8,
            b2 == ((y >> 40) & 0xff) as u8,
            b3 == ((y >> 32) & 0xff) as u8,
            b4 == ((y >> 24) & 0xff) as u8,
            b5 == ((y >> 16) & 0xff) as u8,
            b6 == ((y >> 8) & 0xff) as u8,
            b7 == ((y >> 0) & 0xff) as u8,
    ;
}

/// Byte order of the sortable forms agrees with numeric order on `i64`.
pub proof fn lemma_i64_order(x: i64, y: i64)
    ensures
        lex_le(be_bytes_of(offset_of_i64(x)), be_bytes_of(offset_of_i64(y))) == (x <= y),
{
    lemma_u64_order(offset_of_i64(x), offset_of_i64(y));
}

} // verus!
