//! What a run of bytes is recognised by.

use vstd::prelude::*;

use crate::num::{hex, push_hex};

verus! {

/// The SHA-256 digest of some bytes.
pub uninterp spec fn sha256(bytes: Seq<u8>) -> Seq<u8>;

/// `sha2::Sha256::digest`: the SHA-256 digest of some bytes, which is thirty-two
/// bytes long.
#[verifier::external_body]
fn sha256_of(bytes: &[u8]) -> (r: Vec<u8>)
    ensures
        r@ == sha256(bytes@),
        r@.len() == 32,
{
    <sha2::Sha256 as sha2::Digest>::digest(bytes).to_vec()
}

/// Some bytes written in hexadecimal, two digits each.
pub open spec fn hex_bytes(bytes: Seq<u8>) -> Seq<char>
    decreases bytes.len(),
{
    if bytes.len() == 0 {
        seq![]
    } else {
        hex_bytes(bytes.drop_last()) + hex(bytes.last() as nat, 2)
    }
}

/// Some bytes written in hexadecimal, two digits each.
pub fn hex_of(bytes: &[u8], count: usize) -> (r: String)
    requires
        count <= bytes@.len(),
    ensures
        r@ == hex_bytes(bytes@.take(count as int)),
{
    let mut out: String = String::new();
    let mut i: usize = 0;
    assert(out@ =~= hex_bytes(bytes@.take(0)));
    while i < count
        invariant
            i <= count <= bytes@.len(),
            out@ == hex_bytes(bytes@.take(i as int)),
        decreases count - i,
    {
        push_hex(&mut out, bytes[i] as u64, 2);
        assert(bytes@.take(i + 1).drop_last() =~= bytes@.take(i as int));
        assert(bytes@.take(i + 1).last() == bytes@[i as int]);
        i = i + 1;
    }
    out
}

/// What some bytes are recognised by: the first eight bytes of their digest.
pub open spec fn short_hash(bytes: Seq<u8>) -> Seq<char> {
    hex_bytes(sha256(bytes).take(8))
}

/// What some bytes are recognised by: enough of SHA-256 to never collide in a
/// document, short enough to read in a sidecar.
pub fn hash_of(bytes: &[u8]) -> (r: String)
    ensures
        r@ == short_hash(bytes@),
{
    let digest: Vec<u8> = sha256_of(bytes);
    hex_of(digest.as_slice(), 8)
}

} // verus!
