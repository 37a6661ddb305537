//! Hashing, hex decoding and random sampling, relied on from outside crates.

use vstd::prelude::*;

verus! {

/// Name for what `ethers::utils::keccak256` returns: the Keccak-256 digest,
/// a function of the input bytes alone.
pub uninterp spec fn keccak_of(data: Seq<u8>) -> Seq<u8>;

/// Relies on ethers::utils::keccak256 for the 32-byte Keccak-256 digest of
/// the input bytes.
#[verifier::external_body]
pub fn keccak(data: &[u8]) -> (r: [u8; 32])
    ensures
        r@ == keccak_of(data@),
{
    ethers::utils::keccak256(data)
}

/// The value of one hex digit byte, either case; `None` for any other byte.
pub open spec fn hex_digit_val(c: u8) -> Option<u8> {
    if 0x30 <= c <= 0x39 {
        Some((c - 0x30) as u8)
    } else if 0x41 <= c <= 0x46 {
        Some((c - 0x41 + 10) as u8)
    } else if 0x61 <= c <= 0x66 {
        Some((c - 0x61 + 10) as u8)
    } else {
        None
    }
}

/// What decoding a hex string yields: `None` unless the length is even and
/// every byte is a hex digit.
pub open spec fn hex_decoded(s: Seq<u8>) -> Option<Seq<u8>> {
    if s.len() % 2 == 0 && (forall|i: int| 0 <= i < s.len() ==> hex_digit_val(#[trigger] s[i]) is Some) {
        Some(
            Seq::new(
                s.len() / 2,
                |i: int| (hex_digit_val(s[2 * i]).unwrap() * 16 + hex_digit_val(
                    s[2 * i + 1],
                ).unwrap()) as u8,
            ),
        )
    } else {
        None
    }
}

/// Relies on hex::decode: pairs of hex digits, upper or lower case, to
/// bytes; an odd length or a stray byte is refused.
#[verifier::external_body]
pub fn hex_decode(s: &Vec<u8>) -> (r: Option<Vec<u8>>)
    ensures
        match r {
            Some(b) => hex_decoded(s@) == Some(b@),
            None => hex_decoded(s@) is None,
        },
{
    match hex::decode(s.as_slice()) {
        Ok(v) => Some(v),
        Err(_) => None,
    }
}

/// Relies on rand::thread_rng and rand::Rng::gen for a uniformly random
/// 32-byte sample; nothing is promised of the value.
#[verifier::external_body]
pub fn sample_bytes32() -> (r: [u8; 32])
{
    let mut rng = rand::thread_rng();
    rand::Rng::gen(&mut rng)
}

} // verus!
