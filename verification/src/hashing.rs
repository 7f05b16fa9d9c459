//! The digest primitive: SHA-256, reached through one trusted wrapper.
//!
//! Every digest in this crate is the 32-byte output of SHA-256. The spec
//! side names that output `sha256_of`; nothing in the crate claims to know
//! the digest of any particular input, so all reasoning about trees and
//! block hashes goes through this single name.

use sha2::Digest;
use vstd::prelude::*;

verus! {

/// The SHA-256 digest of a byte sequence, as an uninterpreted name: the
/// result is a function of the input bytes alone.
pub uninterp spec fn sha256_of(bytes: Seq<u8>) -> Seq<u8>;

/// Relies on sha2's Sha256 (new, update, finalize): a SHA-256 digest is
/// 32 bytes and depends on the input bytes alone.
#[verifier::external_body]
pub fn sha256(bytes: &Vec<u8>) -> (digest: Vec<u8>)
    ensures
        digest@ == sha256_of(bytes@),
        digest@.len() == 32,
{
    let mut hasher = sha2::Sha256::new();
    hasher.update(bytes.as_slice());
    hasher.finalize().to_vec()
}

/// Appends every byte of `src` to `dst`, in order.
pub(crate) fn push_all(dst: &mut Vec<u8>, src: &Vec<u8>)
    ensures
        final(dst)@ == old(dst)@ + src@,
{
    let mut k: usize = 0;
    while k < src.len()
        invariant
            k <= src@.len(),
            dst@ == old(dst)@ + src@.take(k as int),
        decreases src@.len() - k,
    {
        dst.push(src[k]);
        proof {
            assert(old(dst)@ + src@.take(k as int + 1) =~= (old(dst)@ + src@.take(
                k as int,
            )).push(src@[k as int]));
        }
        k = k + 1;
    }
    proof {
        assert(old(dst)@ + src@.take(src@.len() as int) =~= old(dst)@ + src@);
    }
}

/// An owned copy of a byte vector.
pub(crate) fn copy_bytes(src: &Vec<u8>) -> (out: Vec<u8>)
    ensures
        out@ == src@,
{
    let mut out: Vec<u8> = Vec::new();
    push_all(&mut out, src);
    out
}

/// Byte-for-byte equality of two byte vectors.
pub(crate) fn bytes_eq(a: &Vec<u8>, b: &Vec<u8>) -> (eq: bool)
    ensures
        eq == (a@ == b@),
{
    if a.len() != b.len() {
        return false;
    }
    let mut k: usize = 0;
    while k < a.len()
        invariant
            k <= a@.len(),
            a@.len() == b@.len(),
            forall|j: int| 0 <= j < k ==> a@[j] == b@[j],
        decreases a@.len() - k,
    {
        if a[k] != b[k] {
            return false;
        }
        k = k + 1;
    }
    proof {
        assert(a@ =~= b@);
    }
    true
}

} // verus!
