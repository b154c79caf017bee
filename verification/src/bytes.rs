//! Byte-string helpers: lexicographic order and term normalization.
//!
//! Terms and slot values are byte strings.  Range filters compare slot
//! values by plain byte order, so the sortable serialization in
//! [`crate::serial`] only has to make byte order agree with numeric order.

use vstd::prelude::*;

verus! {

/// Lexicographic "less than or equal" on byte strings: the order of the
/// first differing byte decides; a proper prefix sorts first.
pub open spec fn lex_le(a: Seq<u8>, b: Seq<u8>) -> bool
    decreases a.len(),
{
    if a.len() == 0 {
        true
    } else if b.len() == 0 {
        false
    } else if a[0] < b[0] {
        true
    } else if a[0] > b[0] {
        false
    } else {
        lex_le(a.drop_first(), b.drop_first())
    }
}

/// Byte-order comparison of two byte strings.
pub fn bytes_le(a: &Vec<u8>, b: &Vec<u8>) -> (r: bool)
    ensures
        r == lex_le(a@, b@),
{
    let mut i: usize = 0;
    proof {
        assert(a@.skip(0) =~= a@);
        assert(b@.skip(0) =~= b@);
    }
    loop
        invariant
            i <= a.len(),
            i <= b.len(),
            lex_le(a@, b@) == lex_le(a@.skip(i as int), b@.skip(i as int)),
        decreases a.len() - i,
    {
        if i == a.len() {
            assert(a@.skip(i as int).len() == 0);
            return true;
        }
        if i == b.len() {
            assert(b@.skip(i as int).len() == 0);
            assert(a@.skip(i as int).len() > 0);
            return false;
        }
        let x = a[i];
        let y = b[i];
        assert(a@.skip(i as int)[0] == a@[i as int]);
        assert(b@.skip(i as int)[0] == b@[i as int]);
        if x < y {
            return true;
        }
        if x > y {
            return false;
        }
        proof {
            assert(a@.skip(i as int).drop_first() =~= a@.skip(i as int + 1));
            assert(b@.skip(i as int).drop_first() =~= b@.skip(i as int + 1));
        }
        i = i + 1;
    }
}

/// True of the bytes that make up a word during tokenization: ASCII
/// letters and digits, and every byte of a multi-byte UTF-8 character.
pub open spec fn is_word_byte(b: u8) -> bool {
    (48 <= b <= 57) || (97 <= b <= 122) || (65 <= b <= 90) || b >= 128
}

/// Executable word-byte test.
pub fn word_byte(b: u8) -> (r: bool)
    ensures
        r == is_word_byte(b),
{
    (48 <= b && b <= 57) || (97 <= b && b <= 122) || (65 <= b && b <= 90) || b >= 128
}

/// Case normalization of one byte: ASCII upper case folds to lower case,
/// everything else is unchanged.
pub open spec fn norm_byte(b: u8) -> u8 {
    if 65 <= b <= 90 {
        (b + 32) as u8
    } else {
        b
    }
}

/// Case normalization of a byte string.
pub open spec fn norm_bytes(s: Seq<u8>) -> Seq<u8> {
    s.map_values(|b: u8| norm_byte(b))
}

/// Executable case normalization of a byte string.
pub fn normalize(v: &Vec<u8>) -> (r: Vec<u8>)
    ensures
        r@ == norm_bytes(v@),
{
    let mut out: Vec<u8> = Vec::new();
    let mut i: usize = 0;
    while i < v.len()
        invariant
            i <= v.len(),
            out@ == norm_bytes(v@.take(i as int)),
        decreases v.len() - i,
    {
        let b = v[i];
        let n = if 65 <= b && b <= 90 {
            b + 32
        } else {
            b
        };
        out.push(n);
        proof {
            assert(norm_bytes(v@.take(i as int + 1)) =~= norm_bytes(v@.take(i as int)).push(
                norm_byte(v@[i as int]),
            ));
        }
        i = i + 1;
    }
    proof {
        assert(v@.take(v@.len() as int) =~= v@);
    }
    out
}

} // verus!
