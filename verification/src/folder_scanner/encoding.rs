//! Digests and text encodings. The digest and the encodings are computed by
//! the `ring` and `data-encoding` crates; the functions here are the only
//! places where those crates are called, and their contracts are taken on
//! trust from the crates' documentation and source. What the encodings give
//! is written out here; what the digest gives has a name only.

use vstd::prelude::*;

verus! {

/// The SHA-256 digest of `bytes`, as `ring` computes it.
pub uninterp spec fn sha256_digest(bytes: Seq<u8>) -> Seq<u8>;

/// The number of bytes from which on `ring` refuses to finish a digest: the
/// length in bits must fit in 64 bits.
pub const DIGEST_INPUT_LIMIT: u64 = 0x2000_0000_0000_0000;

/// The number of bytes of a SHA-256 digest.
pub const DIGEST_SIZE: usize = 32;

/// Whether `length` bytes can be handed to an encoder of `data-encoding`,
/// which computes the length of its output from 512 times that of its input.
pub open spec fn encodable_length(length: nat) -> bool {
    length <= usize::MAX / 512
}

/// The lowercase hexadecimal digit for a value below 16.
pub open spec fn hex_digit(value: int) -> char {
    seq!['0', '1', '2', '3', '4', '5', '6', '7', '8', '9', 'a', 'b', 'c', 'd', 'e', 'f'][value]
}

/// The lowercase hexadecimal text of `bytes`: two digits for each byte, the
/// one for its upper four bits first.
pub open spec fn hex_lower_text(bytes: Seq<u8>) -> Seq<char> {
    Seq::new(
        2 * bytes.len(),
        |position: int|
            if position % 2 == 0 {
                hex_digit(bytes[position / 2] as int / 16)
            } else {
                hex_digit(bytes[position / 2] as int % 16)
            },
    )
}

/// The base64 symbol of the standard alphabet for a value below 64.
pub open spec fn base64_symbol(value: int) -> char {
    seq![
        'A', 'B', 'C', 'D', 'E', 'F', 'G', 'H', 'I', 'J', 'K', 'L', 'M', 'N', 'O', 'P',
        'Q', 'R', 'S', 'T', 'U', 'V', 'W', 'X', 'Y', 'Z', 'a', 'b', 'c', 'd', 'e', 'f',
        'g', 'h', 'i', 'j', 'k', 'l', 'm', 'n', 'o', 'p', 'q', 'r', 's', 't', 'u', 'v',
        'w', 'x', 'y', 'z', '0', '1', '2', '3', '4', '5', '6', '7', '8', '9', '+', '/',
    ][value]
}

/// The byte at `position` of `bytes`, and zero behind their end.
pub open spec fn byte_or_zero(bytes: Seq<u8>, position: int) -> int {
    if position < bytes.len() {
        bytes[position] as int
    } else {
        0
    }
}

/// The padded base64 text of `bytes` in the standard alphabet: four
/// characters for each group of three bytes. The 24 bits of a group, its first
/// byte uppermost, give four symbols of 6 bits each; a last group of one byte
/// gives two symbols, one of two bytes gives three, and `=` fills the rest.
pub open spec fn base64_text(bytes: Seq<u8>) -> Seq<char> {
    Seq::new(
        (4 * ((bytes.len() + 2) / 3)) as nat,
        |position: int|
            {
                let group = position / 4;
                let place = position % 4;
                let bits = byte_or_zero(bytes, 3 * group) * 65536 + byte_or_zero(
                    bytes,
                    3 * group + 1,
                ) * 256 + byte_or_zero(bytes, 3 * group + 2);
                if place > bytes.len() - 3 * group {
                    '='
                } else if place == 0 {
                    base64_symbol(bits / 262144)
                } else if place == 1 {
                    base64_symbol(bits / 4096 % 64)
                } else if place == 2 {
                    base64_symbol(bits / 64 % 64)
                } else {
                    base64_symbol(bits % 64)
                }
            },
    )
}

/// Calls `ring::digest::digest` with `ring::digest::SHA256`.
///
/// Trusted: the result is the SHA-256 digest of the input, a function of the
/// input alone, and it is 32 bytes long. `ring` panics on an input whose
/// length in bits does not fit in 64 bits, so such an input is excluded.
#[verifier::external_body]
pub(crate) fn sha256(bytes: &[u8]) -> (digest: Vec<u8>)
    requires
        bytes@.len() < DIGEST_INPUT_LIMIT,
    ensures
        digest@ == sha256_digest(bytes@),
        digest@.len() == DIGEST_SIZE,
{
    ring::digest::digest(&ring::digest::SHA256, bytes).as_ref().to_vec()
}

/// Calls `data_encoding::Encoding::encode` on `data_encoding::HEXLOWER`.
///
/// Trusted: the result holds two characters for each byte of the input, taken
/// from `0123456789abcdef`, the upper half of the byte first. The encoder
/// panics where the input is longer than `usize::MAX / 512`, so such an input
/// is excluded.
#[verifier::external_body]
pub(crate) fn hex_lower(bytes: &[u8]) -> (text: String)
    requires
        encodable_length(bytes@.len()),
    ensures
        text@ == hex_lower_text(bytes@),
{
    data_encoding::HEXLOWER.encode(bytes)
}

/// Calls `data_encoding::Encoding::encode` on `data_encoding::BASE64`.
///
/// Trusted: the result is the padded base64 text of the input, in the
/// alphabet `A`-`Z`, `a`-`z`, `0`-`9`, `+`, `/` with `=` as padding; and since
/// decoding what was encoded gives the input back, no other input that the
/// encoder takes has the same text. The encoder panics where the input is
/// longer than `usize::MAX / 512`, so such an input is excluded.
#[verifier::external_body]
pub(crate) fn base64(bytes: &[u8]) -> (text: String)
    requires
        encodable_length(bytes@.len()),
    ensures
        text@ == base64_text(bytes@),
        forall|other: Seq<u8>|
            encodable_length(other.len()) && #[trigger] base64_text(other) == text@ ==> other
                == bytes@,
{
    data_encoding::BASE64.encode(bytes)
}

} // verus!
