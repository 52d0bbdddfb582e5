//! HKDF-SHA256 key derivation on byte strings.

use vstd::prelude::*;

verus! {

/// The pseudorandom key that HKDF-SHA256 extracts.
pub uninterp spec fn hkdf_extracted(salt: Seq<u8>, key_material: Seq<u8>) -> Seq<u8>;

/// The `n` bytes that HKDF-SHA256 expands `prk` to for `info`.
pub uninterp spec fn hkdf_expanded(prk: Seq<u8>, info: Seq<u8>, n: nat) -> Seq<u8>;

/// `HKDF::extract`: 32 bytes that depend on salt and key material alone.
#[verifier::external_body]
pub(crate) fn hkdf_extract(salt: &[u8], key_material: &[u8]) -> (prk: [u8; 32])
    ensures
        prk@ == hkdf_extracted(salt@, key_material@),
{
    hmac_sha256::HKDF::extract(salt, key_material)
}

/// `HKDF::expand`: as many bytes as were asked for, which depend on the
/// pseudorandom key, the info and their number alone. Beyond 254 blocks of 32
/// bytes its block counter overflows or it panics.
#[verifier::external_body]
pub(crate) fn hkdf_expand(prk: &[u8], info: &[u8], n: usize) -> (out: Vec<u8>)
    requires
        n <= 8128,
    ensures
        out@ == hkdf_expanded(prk@, info@, n as nat),
        out@.len() == n,
{
    let mut out = vec![0u8; n];
    hmac_sha256::HKDF::expand(&mut out, prk, info);
    out
}

/// The first 16 bytes of `bytes` as an array.
pub(crate) fn array16(bytes: &Vec<u8>) -> (a: [u8; 16])
    requires
        bytes@.len() == 16,
    ensures
        a@ == bytes@,
{
    let mut a: [u8; 16] = [0u8; 16];
    let mut i: usize = 0;
    while i < 16
        invariant
            i <= 16,
            bytes@.len() == 16,
            forall|j: int| 0 <= j < i ==> a@[j] == bytes@[j],
        decreases 16 - i,
    {
        a[i] = bytes[i];
        i = i + 1;
    }
    assert(a@ =~= bytes@);
    a
}

/// The 32 bytes of `bytes` as an array.
pub(crate) fn array32(bytes: &[u8]) -> (a: [u8; 32])
    requires
        bytes@.len() == 32,
    ensures
        a@ == bytes@,
{
    let mut a: [u8; 32] = [0u8; 32];
    let mut i: usize = 0;
    while i < 32
        invariant
            i <= 32,
            bytes@.len() == 32,
            forall|j: int| 0 <= j < i ==> a@[j] == bytes@[j],
        decreases 32 - i,
    {
        a[i] = bytes[i];
        i = i + 1;
    }
    assert(a@ =~= bytes@);
    a
}

} // verus!
