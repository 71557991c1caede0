//! SHA-256 digests read as 256-bit numbers.

use crate::error::BtcError;
use crate::u256::{le_value, lemma_le_value_injective, U256};
use vstd::prelude::*;

verus! {

/// The hexadecimal SHA-256 digest of `data`, as ASCII bytes.
pub uninterp spec fn sha256_hex(data: Seq<u8>) -> Seq<u8>;

/// Whether `c` is one of `0`-`9`, `a`-`f`.
pub open spec fn is_lower_hex(c: u8) -> bool {
    (48 <= c <= 57) || (97 <= c <= 102)
}

/// Whether `c` is one of `0`-`9`, `a`-`f`, `A`-`F`.
pub open spec fn is_hex_digit(c: u8) -> bool {
    (48 <= c <= 57) || (97 <= c <= 102) || (65 <= c <= 70)
}

/// The value of a hexadecimal digit.
pub open spec fn hex_digit_value(c: u8) -> int {
    if 48 <= c <= 57 {
        c - 48
    } else if 97 <= c <= 102 {
        c - 97 + 10
    } else {
        c - 65 + 10
    }
}

/// The bytes that a text of hexadecimal digit pairs stands for.
pub open spec fn hex_bytes(text: Seq<u8>) -> Seq<u8> {
    Seq::new(
        text.len() / 2,
        |i: int| (16 * hex_digit_value(text[2 * i]) + hex_digit_value(text[2 * i + 1])) as u8,
    )
}

/// The digest of `data` as a number: its 32 bytes read least significant
/// byte first.
pub open spec fn digest_value(data: Seq<u8>) -> nat {
    le_value(hex_bytes(sha256_hex(data)))
}

/// The 32 bytes that stand for `n`, least significant byte first.
pub open spec fn hash_bytes(n: nat) -> Seq<u8> {
    choose|b: Seq<u8>| b.len() == 32 && le_value(b) == n
}

/// Calls `sha256::digest`. The crate computes the SHA-256 digest of the
/// bytes and writes its 32 bytes as 64 lower-case hexadecimal digits.
#[verifier::external_body]
fn digest_hex(data: &[u8]) -> (r: Vec<u8>)
    ensures
        r@ == sha256_hex(data@),
        r@.len() == 64,
        forall|i: int| 0 <= i < 64 ==> is_lower_hex(#[trigger] r@[i]),
{
    ::sha256::digest(data).into_bytes()
}

#[verifier::external_type_specification]
#[verifier::external_body]
pub struct ExFromHexError(hex::FromHexError);

/// Calls `hex::decode`. It succeeds on a text of even length made of
/// hexadecimal digits in either case, and then gives one byte for each pair,
/// the first digit of a pair being the high half.
#[verifier::external_body]
fn hex_decode(text: &[u8]) -> (r: Result<Vec<u8>, hex::FromHexError>)
    ensures
        r is Ok <==> text@.len() % 2 == 0 && forall|i: int|
            0 <= i < text@.len() ==> is_hex_digit(#[trigger] text@[i]),
        r matches Ok(bytes) ==> bytes@ == hex_bytes(text@),
{
    hex::decode(text)
}

/// A SHA-256 digest, read as a number with the first byte least significant.
#[derive(Clone, Copy, Debug, PartialEq, Eq, Hash, Structural)]
pub struct Hash(pub U256);

impl View for Hash {
    type V = nat;

    open spec fn view(&self) -> nat {
        self.0@
    }
}

impl Hash {
    /// The digest of an already encoded value.
    pub fn hash(data: &[u8]) -> (r: Result<Hash, BtcError>)
        ensures
            r is Ok,
            r->Ok_0@ == digest_value(data@),
    {
        let text = digest_hex(data);
        match hex_decode(text.as_slice()) {
            Ok(bytes) => {
                if bytes.len() != 32 {
                    return Err(BtcError::InvalidHash);
                }
                Ok(Hash(U256::from_little_endian(bytes.as_slice())))
            },
            Err(_) => Err(BtcError::InvalidHash),
        }
    }

    /// Whether the digest, as a number, is at most `target`.
    pub fn matches_target(&self, target: U256) -> (r: bool)
        ensures
            r == (self@ <= target@),
    {
        self.0.le(&target)
    }

    /// The digest that stands for "no block before this one".
    pub fn zero() -> (r: Hash)
        ensures
            r@ == 0,
    {
        Hash(U256::zero())
    }

    /// The digest as a number in hexadecimal digits, in lower case and
    /// without leading zeros.
    pub fn to_string(&self) -> (r: String)
        ensures
            r@ == crate::u256::ascii_chars(crate::u256::hex_text(self@)),
    {
        self.0.to_hex_string()
    }

    /// The 32 bytes of the digest, least significant first.
    pub fn as_bytes(&self) -> (r: [u8; 32])
        ensures
            le_value(r@) == self@,
            r@ == hash_bytes(self@),
    {
        let out = self.0.to_little_endian();
        proof {
            lemma_le_value_injective(out@, hash_bytes(self@));
        }
        out
    }
}

} // verus!
