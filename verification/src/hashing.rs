//! The digest utility: SHA-256 over byte strings, and lowercase hex
//! rendering of digests.

use vstd::prelude::*;
use vstd::utf8::{decode_utf8, encode_utf8, is_leading_byte_width_1, partial_valid_utf8,
    partial_valid_utf8_extend_ascii_block, valid_utf8, encode_utf8_decode_utf8};
use crate::codec::string_from_utf8;
use sha2::Digest;

verus! {

/// The SHA-256 digest of a byte string: 32 bytes, a function of the input
/// alone. Stated, never computed, in specifications; `sha256` computes it.
pub uninterp spec fn sha256_of(data: Seq<u8>) -> Seq<u8>;

/// Relies on sha2::Sha256: the digest is 32 bytes and depends on the input
/// bytes alone.
#[verifier::external_body]
pub(crate) fn sha256(data: &Vec<u8>) -> (r: Vec<u8>)
    ensures
        r@ == sha256_of(data@),
        r@.len() == 32,
{
    sha2::Sha256::digest(data.as_slice()).to_vec()
}

/// The lowercase hex digit (as an ASCII byte) for a value below 16.
pub open spec fn hex_digit(n: u8) -> u8
    recommends
        n < 16,
{
    if n < 10 {
        (0x30 + n) as u8
    } else {
        (0x57 + n) as u8
    }
}

/// The lowercase hex rendering of a byte string, as ASCII bytes: two digits
/// per byte, high nibble first.
pub open spec fn hex_bytes_of(data: Seq<u8>) -> Seq<u8>
    decreases data.len(),
{
    if data.len() == 0 {
        Seq::empty()
    } else {
        hex_bytes_of(data.drop_last())
            + seq![hex_digit((data.last() / 16) as u8), hex_digit((data.last() % 16) as u8)]
    }
}

/// The lowercase hex rendering of a byte string, as characters.
pub open spec fn hex_str_of(data: Seq<u8>) -> Seq<char> {
    decode_utf8(hex_bytes_of(data))
}

pub proof fn lemma_hex_bytes_len(data: Seq<u8>)
    ensures
        hex_bytes_of(data).len() == 2 * data.len(),
    decreases data.len(),
{
    if data.len() > 0 {
        lemma_hex_bytes_len(data.drop_last());
    }
}

/// Every byte of a hex rendering is an ASCII byte.
pub proof fn lemma_hex_bytes_ascii(data: Seq<u8>)
    ensures
        forall|j: int| 0 <= j < hex_bytes_of(data).len()
            ==> is_leading_byte_width_1(#[trigger] hex_bytes_of(data)[j]),
    decreases data.len(),
{
    if data.len() > 0 {
        lemma_hex_bytes_ascii(data.drop_last());
        lemma_hex_bytes_len(data.drop_last());
        let prefix = hex_bytes_of(data.drop_last());
        assert forall|j: int| 0 <= j < hex_bytes_of(data).len()
            implies is_leading_byte_width_1(#[trigger] hex_bytes_of(data)[j]) by {
            if j < prefix.len() {
                assert(hex_bytes_of(data)[j] == prefix[j]);
            }
        }
    }
}

/// Renders a byte string as its lowercase hex string.
pub(crate) fn to_hex(data: &Vec<u8>) -> (s: String)
    ensures
        s@ == hex_str_of(data@),
        encode_utf8(s@) == hex_bytes_of(data@),
        encode_utf8(s@).len() == 2 * data@.len(),
{
    let mut v: Vec<u8> = Vec::new();
    let mut i: usize = 0;
    while i < data.len()
        invariant
            i <= data.len(),
            v@ == hex_bytes_of(data@.take(i as int)),
        decreases data.len() - i,
    {
        let b = data[i];
        let hi = b / 16;
        let lo = b % 16;
        let hi_digit = if hi < 10 { 0x30 + hi } else { 0x57 + hi };
        let lo_digit = if lo < 10 { 0x30 + lo } else { 0x57 + lo };
        v.push(hi_digit);
        v.push(lo_digit);
        proof {
            assert(data@.take(i + 1 as int).drop_last() =~= data@.take(i as int));
            assert(data@.take(i + 1 as int).last() == data@[i as int]);
            assert(v@ =~= hex_bytes_of(data@.take(i + 1 as int)));
        }
        i += 1;
    }
    proof {
        assert(data@.take(data@.len() as int) =~= data@);
        lemma_hex_bytes_len(data@);
        lemma_hex_bytes_ascii(data@);
        assert(valid_utf8(v@.subrange(0, 0)));
        assert(partial_valid_utf8(v@, 0));
        partial_valid_utf8_extend_ascii_block(v@, 0, v@.len() as int);
        assert(v@.subrange(0, v@.len() as int) =~= v@);
        assert(valid_utf8(v@));
    }
    let s = match string_from_utf8(v) {
        Some(s) => s,
        None => {
            proof {
                assert(false);
            }
            String::new()
        },
    };
    proof {
        encode_utf8_decode_utf8(s@);
    }
    s
}

} // verus!
