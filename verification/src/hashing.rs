//! The hash that identifies content: BLAKE3, plain and keyed.

use vstd::prelude::*;

verus! {

/// The 32-byte BLAKE3 digest of some bytes.
pub uninterp spec fn blake3_digest(bytes: Seq<u8>) -> Seq<u8>;

/// The 32-byte BLAKE3 digest of some bytes under a 32-byte key.
pub uninterp spec fn blake3_keyed_digest(key: Seq<u8>, bytes: Seq<u8>) -> Seq<u8>;

/// `blake3::hash`: the digest is a function of the bytes alone. That different bytes have
/// different digests is not claimed.
#[verifier::external_body]
pub(crate) fn digest(bytes: &[u8]) -> (d: [u8; 32])
    ensures
        d@ == blake3_digest(bytes@),
{
    *blake3::hash(bytes).as_bytes()
}

/// `blake3::keyed_hash`: the digest is a function of the key and the bytes.
#[verifier::external_body]
pub(crate) fn keyed_digest(key: &[u8; 32], bytes: &[u8]) -> (d: [u8; 32])
    ensures
        d@ == blake3_keyed_digest(key@, bytes@),
{
    *blake3::keyed_hash(key, bytes).as_bytes()
}

/// The array that holds these thirty-two bytes.
pub open spec fn array32(s: Seq<u8>) -> [u8; 32] {
    choose|a: [u8; 32]| a@ == s
}

/// An array is the only one with its bytes.
pub proof fn array32_of_view(a: [u8; 32])
    ensures
        array32(a@) == a,
{
    let b = array32(a@);
    assert(b@ == a@);
    assert forall|i: int| 0 <= i < 32 implies b[i] == a[i] by {
        assert(b@[i] == a@[i]);
    }
    assert(b =~= a);
}

/// Two arrays with the same bytes are the same array.
pub proof fn array32_ext(a: [u8; 32], b: [u8; 32])
    requires
        a@ == b@,
    ensures
        a == b,
{
    array32_of_view(a);
    array32_of_view(b);
}

/// The BLAKE3 key that a context and some key material give.
pub uninterp spec fn blake3_derived(context: Seq<char>, material: Seq<u8>) -> Seq<u8>;

/// `blake3::Hasher::new_derive_key`, with the material in two parts that are hashed one after the
/// other: the key is a function of the context and of all the material.
#[verifier::external_body]
pub(crate) fn derive_key(context: &str, first: &[u8], second: &[u8]) -> (k: [u8; 32])
    ensures
        k@ == blake3_derived(context@, first@ + second@),
{
    let mut hasher = blake3::Hasher::new_derive_key(context);
    hasher.update(first);
    hasher.update(second);
    *hasher.finalize().as_bytes()
}

/// Byte-for-byte comparison.
pub(crate) fn same_bytes(a: &[u8; 32], b: &[u8; 32]) -> (r: bool)
    ensures
        r == (*a == *b),
{
    let mut i: usize = 0;
    while i < 32
        invariant
            i <= 32,
            forall|k: int| 0 <= k < i ==> a@[k] == b@[k],
        decreases 32 - i,
    {
        if a[i] != b[i] {
            assert(a@[i as int] != b@[i as int]);
            return false;
        }
        i = i + 1;
    }
    proof {
        assert(a@ =~= b@);
        array32_ext(*a, *b);
    }
    true
}

} // verus!
