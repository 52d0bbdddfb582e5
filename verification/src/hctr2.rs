//! HCTR2-AES-128, a length-preserving tweakable cipher, on byte strings.

use vstd::prelude::*;
use vstd::utf8::encode_utf8;

verus! {

/// Shortest input that the cipher takes.
pub const MIN_INPUT: usize = 16;

/// What HCTR2-AES-128 makes of `plain` under `key` and `tweak`.
pub uninterp spec fn hctr2_encrypted(key: Seq<u8>, tweak: Seq<u8>, plain: Seq<u8>) -> Seq<u8>;

/// What HCTR2-AES-128 turns `cipher` back into under `key` and `tweak`.
pub uninterp spec fn hctr2_decrypted(key: Seq<u8>, tweak: Seq<u8>, cipher: Seq<u8>) -> Seq<u8>;

/// Whether the cipher can compute the length encoding of this tweak.
pub open spec fn tweak_fits(len: nat) -> bool {
    16 * len + 3 <= usize::MAX
}

/// Whether a text can be a tweak.
pub open spec fn text_fits(s: Seq<char>) -> bool {
    tweak_fits(encode_utf8(s).len())
}

/// Whether a text can be a tweak.
pub fn check_text_fits(s: &str) -> (r: bool)
    ensures
        r == text_fits(s@),
{
    s.as_bytes().len() <= (usize::MAX - 3) / 16
}

/// `Hctr2_128::encrypt`: the result is as long as the input, depends on key,
/// tweak and input alone, and decrypts to the input under the same key and
/// tweak.
#[verifier::external_body]
pub(crate) fn hctr2_encrypt(key: &[u8; 16], tweak: &[u8], plain: &[u8]) -> (cipher: Vec<u8>)
    requires
        plain@.len() >= MIN_INPUT,
        tweak_fits(tweak@.len()),
    ensures
        cipher@ == hctr2_encrypted(key@, tweak@, plain@),
        cipher@.len() == plain@.len(),
        hctr2_decrypted(key@, tweak@, cipher@) == plain@,
{
    let mut cipher = vec![0u8; plain.len()];
    hctr2_rs::Hctr2_128::new(key)
        .encrypt(plain, tweak, &mut cipher)
        .expect("input is at least one cipher block");
    cipher
}

/// `Hctr2_128::decrypt`: the result is as long as the input, depends on key,
/// tweak and input alone, and encrypts to the input under the same key and
/// tweak.
#[verifier::external_body]
pub(crate) fn hctr2_decrypt(key: &[u8; 16], tweak: &[u8], cipher: &[u8]) -> (plain: Vec<u8>)
    requires
        cipher@.len() >= MIN_INPUT,
        tweak_fits(tweak@.len()),
    ensures
        plain@ == hctr2_decrypted(key@, tweak@, cipher@),
        plain@.len() == cipher@.len(),
        hctr2_encrypted(key@, tweak@, plain@) == cipher@,
{
    let mut plain = vec![0u8; cipher.len()];
    hctr2_rs::Hctr2_128::new(key)
        .decrypt(cipher, tweak, &mut plain)
        .expect("input is at least one cipher block");
    plain
}

} // verus!
