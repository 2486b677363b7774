use vstd::prelude::*;
use sha3::{Digest, Sha3_256};

verus! {

/// The SHA3-256 digest of a byte sequence.
pub uninterp spec fn sha3_256_of(b: Seq<u8>) -> Seq<u8>;

/// The lowercase hexadecimal digit for a value below sixteen.
pub open spec fn hex_digit(v: u8) -> char {
    if v < 10 {
        (('0' as u8) + v) as char
    } else {
        (('a' as u8) + (v - 10)) as char
    }
}

/// Two lowercase hexadecimal digits per byte, high nibble first.
pub open spec fn hex_of(b: Seq<u8>) -> Seq<char>
    decreases b.len(),
{
    if b.len() == 0 {
        Seq::empty()
    } else {
        hex_of(b.drop_last()) + seq![hex_digit(b.last() / 16), hex_digit(b.last() % 16)]
    }
}

/// Relies on sha3::Sha3_256 (new, update, finalize): the 32-byte SHA3-256
/// digest of the input.
#[verifier::external_body]
pub fn sha3_256_hash(bytes: &[u8]) -> (r: Vec<u8>)
    ensures
        r@ == sha3_256_of(bytes@),
        r@.len() == 32,
{
    let mut hasher = Sha3_256::new();
    hasher.update(bytes);
    hasher.finalize()[..].to_vec()
}

/// Relies on hex::encode: two lowercase hexadecimal digits for each byte.
#[verifier::external_body]
fn hex_encode(b: &[u8]) -> (r: String)
    ensures
        r@ == hex_of(b@),
{
    hex::encode(b)
}

/// The SHA3-256 digest of `bytes`, written as lowercase hexadecimal.
pub fn digest(bytes: &[u8]) -> (r: String)
    ensures
        r@ == hex_of(sha3_256_of(bytes@)),
        r@.len() == 64,
{
    let h = sha3_256_hash(bytes);
    proof {
        lemma_hex_len(h@);
    }
    hex_encode(h.as_slice())
}

/// Hex text is twice as long as the bytes it spells.
pub proof fn lemma_hex_len(b: Seq<u8>)
    ensures
        hex_of(b).len() == 2 * b.len(),
    decreases b.len(),
{
    if b.len() > 0 {
        lemma_hex_len(b.drop_last());
    }
}

} // verus!
