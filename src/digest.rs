//! The hash primitive and the hexadecimal form of a digest.
use vstd::prelude::*;

verus! {

/// The 32-byte BLAKE3 hash of a byte string.
pub uninterp spec fn blake3_of(data: Seq<u8>) -> Seq<u8>;

/// The lowercase hexadecimal digits, indexed by value.
pub open spec fn hex_digits() -> Seq<char> {
    seq!['0', '1', '2', '3', '4', '5', '6', '7', '8', '9', 'a', 'b', 'c', 'd', 'e', 'f']
}

/// Two lowercase hexadecimal digits per byte, high half first.
pub open spec fn hex_lower(bytes: Seq<u8>) -> Seq<char>
    decreases bytes.len(),
{
    if bytes.len() == 0 {
        Seq::empty()
    } else {
        seq![hex_digits()[bytes[0] as int / 16], hex_digits()[bytes[0] as int % 16]] + hex_lower(
            bytes.drop_first(),
        )
    }
}

/// Relies on `blake3::Hasher` (`new`, `update` twice, `finalize`): a fresh
/// hasher fed `head` and then `tail` yields the BLAKE3 hash of `head ++ tail`.
#[verifier::external_body]
pub(crate) fn blake3_of_parts(head: &[u8], tail: &[u8]) -> (r: [u8; 32])
    ensures
        r@ == blake3_of(head@ + tail@),
{
    let mut hasher = blake3::Hasher::new();
    hasher.update(head);
    hasher.update(tail);
    *hasher.finalize().as_bytes()
}

/// Relies on `hex::encode`: each byte becomes two lowercase hexadecimal digits,
/// the high half first.
#[verifier::external_body]
pub(crate) fn hex_encode(bytes: &[u8]) -> (r: String)
    ensures
        r@ == hex_lower(bytes@),
{
    hex::encode(bytes)
}

} // verus!
