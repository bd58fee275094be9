//! SHA-256 fingerprint of a source file, as lowercase hexadecimal.

use vstd::prelude::*;
use sha2::Digest;
use crate::strings::{hex_digit, hex_digit_char, push_char};

verus! {

/// The SHA-256 digest of `data`, as computed by the `sha2` crate.
pub uninterp spec fn sha256(data: Seq<u8>) -> Seq<u8>;

/// `sha2::Sha256::digest`: the 32-byte digest of `data`, named [`sha256`].
#[verifier::external_body]
fn sha256_digest(data: &[u8]) -> (r: Vec<u8>)
    ensures
        r@ == sha256(data@),
        r@.len() == 32,
{
    sha2::Sha256::digest(data).to_vec()
}

/// Two lowercase hexadecimal digits per byte.
pub open spec fn hex_bytes(bs: Seq<u8>) -> Seq<char>
    decreases bs.len(),
{
    if bs.len() == 0 {
        seq![]
    } else {
        hex_bytes(bs.drop_last()) + seq![
            hex_digit((bs.last() / 16) as nat),
            hex_digit((bs.last() % 16) as nat),
        ]
    }
}

/// Lowercase hexadecimal rendering of `bytes`.
pub fn hex_string(bytes: &Vec<u8>) -> (r: String)
    ensures
        r@ == hex_bytes(bytes@),
{
    let mut s = String::new();
    for i in 0..bytes.len()
        invariant
            s@ == hex_bytes(bytes@.take(i as int)),
    {
        let b = bytes[i];
        proof {
            assert(bytes@.take(i + 1).drop_last() =~= bytes@.take(i as int));
        }
        push_char(&mut s, hex_digit_char((b / 16) as u64));
        push_char(&mut s, hex_digit_char((b % 16) as u64));
        assert(s@ =~= hex_bytes(bytes@.take(i + 1)));
    }
    assert(bytes@.take(bytes@.len() as int) =~= bytes@);
    s
}

/// SHA-256 of `data` as 64 lowercase hexadecimal digits.
pub fn sha256_hex(data: &[u8]) -> (r: String)
    ensures
        r@ == hex_bytes(sha256(data@)),
        r@.len() == 64,
{
    let d = sha256_digest(data);
    proof {
        lemma_hex_len(d@);
    }
    hex_string(&d)
}

proof fn lemma_hex_len(bs: Seq<u8>)
    ensures
        hex_bytes(bs).len() == 2 * bs.len(),
    decreases bs.len(),
{
    if bs.len() > 0 {
        lemma_hex_len(bs.drop_last());
    }
}

} // verus!
