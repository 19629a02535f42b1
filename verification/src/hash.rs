//! Keccak-256 and hexadecimal text.

use crate::word::Word;
use vstd::prelude::*;

verus! {

/// The Keccak-256 digest of `data`: 32 bytes.
pub uninterp spec fn keccak256(data: Seq<u8>) -> Seq<u8>;

/// `tiny_keccak::Keccak::v256`, fed `data` in one update and finalized into
/// 32 bytes: the Keccak-256 digest of `data`.
#[verifier::external_body]
fn keccak256_bytes(data: &[u8]) -> (out: [u8; 32])
    ensures
        out@ == keccak256(data@),
{
    let mut out = [0u8; 32];
    let mut hasher = tiny_keccak::Keccak::v256();
    tiny_keccak::Hasher::update(&mut hasher, data);
    tiny_keccak::Hasher::finalize(hasher, &mut out);
    out
}

/// The Keccak-256 digest of `data`, as a word.
pub fn keccak256_word(data: &[u8]) -> (w: Word)
    ensures
        w@ == keccak256(data@),
{
    Word { bytes: keccak256_bytes(data) }
}

/// The first four bytes of a digest: a selector.
pub fn leading_four(digest: &Word) -> (id: [u8; 4])
    ensures
        id@ == digest@.subrange(0, 4),
{
    let id: [u8; 4] = [digest.bytes[0], digest.bytes[1], digest.bytes[2], digest.bytes[3]];
    assert(id@ =~= digest@.subrange(0, 4));
    id
}

/// The value of the hexadecimal digit `c`, of either case.
pub open spec fn hex_digit(c: char) -> Option<nat> {
    let u = c as u32;
    if 48 <= u <= 57 {
        Some((u - 48) as nat)
    } else if 97 <= u <= 102 {
        Some((u - 87) as nat)
    } else if 65 <= u <= 70 {
        Some((u - 55) as nat)
    } else {
        None
    }
}

/// The bytes that the hexadecimal text `s` spells, two digits to the byte
/// and the high digit first; `None` where `s` has an odd number of
/// characters or one that is no hexadecimal digit. No `0x` stands before
/// the digits.
pub open spec fn hex_decoded(s: Seq<char>) -> Option<Seq<u8>> {
    if s.len() % 2 == 0 && (forall|i: int|
        0 <= i < s.len() ==> hex_digit(#[trigger] s[i]) is Some) {
        Some(
            Seq::new(
                s.len() / 2,
                |i: int| (hex_digit(s[2 * i])->0 * 16 + hex_digit(s[2 * i + 1])->0) as u8,
            ),
        )
    } else {
        None
    }
}

/// `hex::decode` on the bytes of `text`: the bytes that `text` spells, or
/// `None` where `hex::decode` reports an odd length or a character that is
/// no hexadecimal digit.
#[verifier::external_body]
pub(crate) fn hex_to_bytes(text: &str) -> (r: Option<Vec<u8>>)
    ensures
        r matches Some(bytes) ==> hex_decoded(text@) == Some(bytes@),
        r is None ==> hex_decoded(text@) is None,
{
    hex::decode(text).ok()
}

} // verus!
