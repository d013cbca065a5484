use vstd::prelude::*;

verus! {

/// One node of the tree: a 32-byte SHA3-256 digest.
pub type HashValue = [u8; 32];

/// The SHA3-256 digest of a byte sequence, as the `sha3` crate computes it.
/// The digest depends on the input bytes alone, so it may stand as a named
/// result; nothing here states how it is computed.
pub uninterp spec fn sha3_of(data: Seq<u8>) -> Seq<u8>;

/// The hash of an internal node: the digest of the two children's bytes
/// concatenated, left then right.
pub open spec fn hash_pair(left: Seq<u8>, right: Seq<u8>) -> Seq<u8> {
    sha3_of(left + right)
}

/// Relies on `sha3::Sha3_256::digest` (the `Digest` trait's one-shot entry
/// point): the SHA3-256 digest of `data`, 32 bytes, a function of the input
/// bytes alone.
#[verifier::external_body]
pub(crate) fn sha3_hash(data: &[u8]) -> (r: HashValue)
    ensures
        r@ == sha3_of(data@),
{
    <sha3::Sha3_256 as sha3::Digest>::digest(data).into()
}

/// Hashes the concatenation of two digests, left bytes then right bytes.
pub(crate) fn hash_two(left: &HashValue, right: &HashValue) -> (r: HashValue)
    ensures
        r@ == hash_pair(left@, right@),
{
    let mut buf: Vec<u8> = Vec::new();
    buf.extend_from_slice(left.as_slice());
    buf.extend_from_slice(right.as_slice());
    assert(buf@ == left@ + right@);
    sha3_hash(buf.as_slice())
}

/// Compares two digests byte for byte.
pub(crate) fn hash_eq(a: &HashValue, b: &HashValue) -> (r: bool)
    ensures
        r == (a@ == b@),
{
    let mut i: usize = 0;
    while i < 32
        invariant
            i <= 32,
            forall|j: int| 0 <= j < i ==> a@[j] == b@[j],
        decreases 32 - i,
    {
        if a[i] != b[i] {
            return false;
        }
        i = i + 1;
    }
    proof {
        assert(a@ =~= b@);
    }
    true
}

} // verus!
