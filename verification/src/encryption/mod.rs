//! Cryptographic core for client-side encryption.
//!
//! A 32-byte master key (supplied raw or as hex) is loaded once, and HKDF-SHA256
//! derives two domain-separated subkeys: a 16-byte path-encryption key for the
//! HCTR2-AES-128 filename cipher, and a 16-byte content key for AEGIS-128X2. All
//! key material is zeroized on drop.

use std::sync::Arc;

use ct_codecs::Decoder;
use vstd::prelude::*;
use vstd::utf8::encode_utf8;

use crate::hkdf;
use crate::text;
use crate::wipe;

pub mod content;
pub mod path;
pub mod url;

verus! {

/// Name of the bucket-root directory under which all encrypted objects are
/// stored. A directory name, not a path.
pub const ENC_ROOT: &'static str = ".enc";

pub const MASTER_KEY_LEN: usize = 32;

pub const PATH_KEY_LEN: usize = 16;

pub const CONTENT_KEY_LEN: usize = 16;

/// Failure modes when loading the master key.
#[derive(Debug, Clone)]
pub enum KeyError {
    Io(String),
    BadLength(usize),
    InvalidHex,
}

impl KeyError {
    /// The message of this error.
    pub open spec fn message(self) -> Seq<char> {
        match self {
            KeyError::Io(e) => "reading encryption key file: "@ + e@,
            KeyError::BadLength(n) => {
                "encryption key must be 32 raw bytes or 64 hex characters, got "@ + text::decimal(
                    n as nat,
                ) + " bytes"@
            },
            KeyError::InvalidHex => "encryption key is not valid hexadecimal"@,
        }
    }

    /// The message of this error, as a string.
    pub fn to_string(&self) -> (s: String)
        ensures
            s@ == self.message(),
    {
        match self {
            KeyError::Io(e) => {
                let mut s: String = "reading encryption key file: ".to_owned();
                s.push_str(e.as_str());
                s
            },
            KeyError::BadLength(n) => {
                let mut s: String =
                    "encryption key must be 32 raw bytes or 64 hex characters, got ".to_owned();
                text::push_decimal(&mut s, *n as u64);
                s.push_str(" bytes");
                s
            },
            KeyError::InvalidHex => "encryption key is not valid hexadecimal".to_owned(),
        }
    }
}

/// Whether `b` is a hexadecimal digit, in upper or lower case.
pub open spec fn is_hex(b: u8) -> bool {
    0x30 <= b <= 0x39 || 0x41 <= b <= 0x46 || 0x61 <= b <= 0x66
}

/// The value of a hexadecimal digit.
pub open spec fn hex_value(b: u8) -> int {
    if b <= 0x39 {
        b - 0x30
    } else if b <= 0x46 {
        b - 0x37
    } else {
        b - 0x57
    }
}

/// The bytes that hexadecimal digits write, two digits each.
pub open spec fn hex_bytes(digits: Seq<u8>) -> Seq<u8> {
    Seq::new(
        digits.len() / 2,
        |i: int| (16 * hex_value(digits[2 * i]) + hex_value(digits[2 * i + 1])) as u8,
    )
}

/// The bytes that `text` writes in hexadecimal, if it holds digits and bytes of
/// `ignore` only, an even number of digits, and at most `2 * max` of them.
pub open spec fn hex_decoded(text: Seq<u8>, max: nat, ignore: Seq<u8>) -> Option<Seq<u8>> {
    let digits = text.filter(|b: u8| is_hex(b));
    if (forall|i: int|
        0 <= i < text.len() ==> is_hex(#[trigger] text[i]) || ignore.contains(text[i]))
        && digits.len() % 2 == 0 && digits.len() <= 2 * max {
        Some(hex_bytes(digits))
    } else {
        None
    }
}

/// `Hex::decode` of ct-codecs into a buffer that the caller owns and clears:
/// bytes that are no hexadecimal digit are skipped if they are among `ignore`,
/// else the text is refused, as it is where digits are left over or the buffer
/// is too small. It gives the number of bytes decoded, which stand at the front
/// of the buffer.
#[verifier::external_body]
fn hex_decode(buffer: &mut [u8; MASTER_KEY_LEN], text: &[u8], ignore: &[u8]) -> (r: Option<usize>)
    ensures
        r is Some <==> hex_decoded(text@, MASTER_KEY_LEN as nat, ignore@) is Some,
        r matches Some(n) ==> n <= MASTER_KEY_LEN && hex_decoded(
            text@,
            MASTER_KEY_LEN as nat,
            ignore@,
        ) == Some(final(buffer)@.take(n as int)),
{
    ct_codecs::Hex::decode(buffer, text, Some(ignore)).ok().map(|bytes| bytes.len())
}

/// The master key that the content of a key file gives, or what is wrong with
/// it: 32 bytes are the key itself, anything else is hexadecimal with white
/// space in it.
pub open spec fn master_key(raw: Seq<u8>) -> Result<Seq<u8>, KeyError> {
    if raw.len() == MASTER_KEY_LEN {
        Ok(raw)
    } else {
        match hex_decoded(raw, MASTER_KEY_LEN as nat, encode_utf8(" \t\r\n"@)) {
            None => Err(KeyError::InvalidHex),
            Some(key) => if key.len() == MASTER_KEY_LEN {
                Ok(key)
            } else {
                Err(KeyError::BadLength(raw.len() as usize))
            },
        }
    }
}

/// The 32-byte master secret.
pub struct MasterKey(pub [u8; MASTER_KEY_LEN]);

impl MasterKey {
    /// Parse the master key from in-memory bytes. Exactly 32 bytes are taken
    /// verbatim; otherwise the input is decoded as hexadecimal.
    pub fn from_bytes(raw: &[u8]) -> (r: Result<MasterKey, KeyError>)
        ensures
            match r {
                Ok(key) => master_key(raw@) == Ok::<Seq<u8>, KeyError>(key.0@),
                Err(e) => master_key(raw@) == Err::<Seq<u8>, KeyError>(e),
            },
    {
        if raw.len() == MASTER_KEY_LEN {
            return Ok(MasterKey(hkdf::array32(raw)));
        }
        let mut key: [u8; MASTER_KEY_LEN] = [0u8; MASTER_KEY_LEN];
        let decoded: usize = match hex_decode(&mut key, raw, " \t\r\n".as_bytes()) {
            Some(n) => n,
            None => {
                wipe::wipe(&mut key);
                return Err(KeyError::InvalidHex);
            },
        };
        if decoded != MASTER_KEY_LEN {
            wipe::wipe(&mut key);
            return Err(KeyError::BadLength(raw.len()));
        }
        assert(key@.take(MASTER_KEY_LEN as int) =~= key@);
        let master: MasterKey = MasterKey(key);
        wipe::wipe(&mut key);
        Ok(master)
    }

    /// Derive the path and content subkeys with HKDF-SHA256.
    pub fn derive_keys(&self) -> (keys: DerivedKeys)
        ensures
            keys.path_key@ == path_key(self.0@),
            keys.content_key@ == content_key(self.0@),
    {
        let mut prk: [u8; 32] = hkdf::hkdf_extract("hf-mount/v1".as_bytes(), self.0.as_slice());
        let mut path_key: Vec<u8> = hkdf::hkdf_expand(
            prk.as_slice(),
            "hf-mount path-encryption-key hctr2-aes128 v1".as_bytes(),
            PATH_KEY_LEN,
        );
        let mut content_key: Vec<u8> = hkdf::hkdf_expand(
            prk.as_slice(),
            "hf-mount file-content-key aegis-128x2 v1".as_bytes(),
            CONTENT_KEY_LEN,
        );
        let keys: DerivedKeys = DerivedKeys {
            path_key: hkdf::array16(&path_key),
            content_key: hkdf::array16(&content_key),
        };
        wipe::wipe(&mut prk);
        wipe::wipe_vec(&mut path_key);
        wipe::wipe_vec(&mut content_key);
        keys
    }
}

/// The master secret is cleared from memory when it goes away.
impl Drop for MasterKey {
    fn drop(&mut self)
        ensures
            final(self).0@ == wipe::zeros(MASTER_KEY_LEN as nat),
        opens_invariants none
        no_unwind
    {
        wipe::wipe(&mut self.0);
    }
}

/// The pseudorandom key of a master key.
pub open spec fn master_prk(master: Seq<u8>) -> Seq<u8> {
    hkdf::hkdf_extracted(encode_utf8("hf-mount/v1"@), master)
}

/// The path key of a master key.
pub open spec fn path_key(master: Seq<u8>) -> Seq<u8> {
    hkdf::hkdf_expanded(
        master_prk(master),
        encode_utf8("hf-mount path-encryption-key hctr2-aes128 v1"@),
        16,
    )
}

/// The content key of a master key.
pub open spec fn content_key(master: Seq<u8>) -> Seq<u8> {
    hkdf::hkdf_expanded(
        master_prk(master),
        encode_utf8("hf-mount file-content-key aegis-128x2 v1"@),
        16,
    )
}

/// The two subkeys derived from the master key.
pub struct DerivedKeys {
    pub path_key: [u8; PATH_KEY_LEN],
    pub content_key: [u8; CONTENT_KEY_LEN],
}

/// The subkeys are cleared from memory when they go away.
impl Drop for DerivedKeys {
    fn drop(&mut self)
        ensures
            final(self).path_key@ == wipe::zeros(PATH_KEY_LEN as nat),
            final(self).content_key@ == wipe::zeros(CONTENT_KEY_LEN as nat),
        opens_invariants none
        no_unwind
    {
        wipe::wipe(&mut self.path_key);
        wipe::wipe(&mut self.content_key);
    }
}

/// The runtime encryption handle: a ready-to-use path cipher for filenames plus
/// the content key and algorithm for file bodies. Built once at startup and
/// shared (via `Arc`) by the Hub client and the virtual filesystem.
pub struct Encryptor {
    pub path_cipher: Arc<path::PathCipher>,
    pub content_key: [u8; CONTENT_KEY_LEN],
    pub algorithm: u8,
}

impl Encryptor {
    /// Derive the subkeys from `master` and assemble the handle for `algorithm`
    /// (an HFEB algorithm byte, e.g. [`content::ALG_AEGIS_128X2`]).
    pub fn from_master_key(master: &MasterKey, algorithm: u8) -> (e: Self)
        ensures
            e.path_cipher.key() == path_key(master.0@),
            e.content_key@ == content_key(master.0@),
            e.algorithm == algorithm,
    {
        let keys: DerivedKeys = master.derive_keys();
        Encryptor {
            path_cipher: Arc::new(path::PathCipher::new(keys.path_key)),
            content_key: keys.content_key,
            algorithm,
        }
    }
}

/// The content key is cleared from memory when the handle goes away.
impl Drop for Encryptor {
    fn drop(&mut self)
        ensures
            final(self).content_key@ == wipe::zeros(CONTENT_KEY_LEN as nat),
            final(self).path_cipher == old(self).path_cipher,
            final(self).algorithm == old(self).algorithm,
        opens_invariants none
        no_unwind
    {
        wipe::wipe(&mut self.content_key);
    }
}

/// Map an `--encryption-algorithm` CLI value to its HFEB algorithm byte. Only
/// AEGIS-128X2 is wired up for now; other names are reserved.
pub fn algorithm_byte(name: &str) -> (r: Option<u8>)
    ensures
        r == if name@ == "aegis-128x2"@ {
            Some(content::ALG_AEGIS_128X2)
        } else {
            None
        },
{
    if text::eq(name, "aegis-128x2") {
        Some(content::ALG_AEGIS_128X2)
    } else {
        None
    }
}

/// The hexadecimal digit of `n` in ASCII, in upper or lower case.
pub open spec fn hex_ascii(n: int, upper: bool) -> u8 {
    if n < 10 {
        (0x30 + n) as u8
    } else if upper {
        (0x41 + n - 10) as u8
    } else {
        (0x61 + n - 10) as u8
    }
}

/// A key in hexadecimal, two digits a byte, the upper half first.
pub open spec fn hex_key(key: Seq<u8>, upper: bool) -> Seq<u8> {
    Seq::new(
        2 * key.len(),
        |i: int|
            if i % 2 == 0 {
                hex_ascii(key[i / 2] as int / 16, upper)
            } else {
                hex_ascii(key[i / 2] as int % 16, upper)
            },
    )
}

proof fn lemma_hex_filter(digits: Seq<u8>, blank: Seq<u8>)
    requires
        forall|i: int| 0 <= i < digits.len() ==> is_hex(#[trigger] digits[i]),
        forall|i: int| 0 <= i < blank.len() ==> !is_hex(#[trigger] blank[i]),
    ensures
        (digits + blank).filter(|b: u8| is_hex(b)) == digits,
    decreases digits.len() + blank.len(),
{
    reveal(Seq::filter);
    let all = digits + blank;
    if blank.len() > 0 {
        assert(all.drop_last() =~= digits + blank.drop_last());
        assert(all.last() == blank[blank.len() - 1]);
        assert forall|i: int| 0 <= i < blank.drop_last().len() implies !is_hex(
            #[trigger] blank.drop_last()[i],
        ) by {
            assert(blank.drop_last()[i] == blank[i]);
        }
        lemma_hex_filter(digits, blank.drop_last());
    } else if digits.len() > 0 {
        let rest = digits.drop_last();
        assert(all =~= digits);
        assert(rest + blank =~= rest);
        assert forall|i: int| 0 <= i < rest.len() implies is_hex(#[trigger] rest[i]) by {
            assert(rest[i] == digits[i]);
        }
        lemma_hex_filter(rest, blank);
        assert(rest.filter(|b: u8| is_hex(b)) == rest);
        assert(is_hex(digits[digits.len() - 1]));
        assert(rest.push(digits.last()) =~= digits);
    } else {
        assert(all =~= Seq::empty());
    }
}

proof fn lemma_hex_digit(n: int, upper: bool)
    requires
        0 <= n < 16,
    ensures
        is_hex(hex_ascii(n, upper)),
        hex_value(hex_ascii(n, upper)) == n,
{
}

proof fn lemma_hex_key(key: Seq<u8>, upper: bool)
    ensures
        forall|i: int| 0 <= i < 2 * key.len() ==> is_hex(#[trigger] hex_key(key, upper)[i]),
        hex_bytes(hex_key(key, upper)) == key,
{
    let digits = hex_key(key, upper);
    assert forall|i: int| 0 <= i < digits.len() implies is_hex(#[trigger] digits[i]) by {
        lemma_hex_digit(key[i / 2] as int / 16, upper);
        lemma_hex_digit(key[i / 2] as int % 16, upper);
    }
    assert forall|i: int| 0 <= i < key.len() implies #[trigger] hex_bytes(digits)[i] == key[i] by {
        let b = key[i] as int;
        assert(2 * i / 2 == i && (2 * i + 1) / 2 == i);
        assert(2 * i % 2 == 0 && (2 * i + 1) % 2 == 1);
        assert(digits[2 * i] == hex_ascii(b / 16, upper));
        assert(digits[2 * i + 1] == hex_ascii(b % 16, upper));
        lemma_hex_digit(b / 16, upper);
        lemma_hex_digit(b % 16, upper);
        assert(16 * (b / 16) + b % 16 == b);
    }
    assert(hex_bytes(digits) =~= key);
}

/// A key in hexadecimal, with white space behind it, decodes to the key.
proof fn lemma_hex_text(key: Seq<u8>, upper: bool, blank: Seq<u8>)
    requires
        key.len() <= 32,
        forall|i: int|
            0 <= i < blank.len() ==> (#[trigger] blank[i] == 0x20 || blank[i] == 0x09 || blank[i]
                == 0x0D || blank[i] == 0x0A),
    ensures
        hex_decoded(hex_key(key, upper) + blank, 32, encode_utf8(" \t\r\n"@)) == Some(key),
{
    let digits = hex_key(key, upper);
    let raw = digits + blank;
    let ignore = encode_utf8(" \t\r\n"@);
    reveal_strlit(" \t\r\n");
    vstd::utf8::is_ascii_chars_encode_utf8(" \t\r\n"@);
    assert(ignore[0] == 0x20 && ignore[1] == 0x09 && ignore[2] == 0x0D && ignore[3] == 0x0A);
    lemma_hex_key(key, upper);
    assert forall|i: int| 0 <= i < blank.len() implies !is_hex(#[trigger] blank[i]) by {}
    lemma_hex_filter(digits, blank);
    assert forall|i: int| 0 <= i < raw.len() implies is_hex(#[trigger] raw[i]) || ignore.contains(
        raw[i],
    ) by {
        if i < digits.len() {
            assert(raw[i] == digits[i]);
            assert(is_hex(digits[i]));
        } else {
            assert(raw[i] == blank[i - digits.len()]);
        }
    }
}

/// A key file that holds a key in hexadecimal, in upper or lower case and with white
/// space behind it, gives that key.
pub proof fn law_hexadecimal_keys_are_read(key: Seq<u8>, upper: bool, blank: Seq<u8>)
    requires
        key.len() == 32,
        forall|i: int|
            0 <= i < blank.len() ==> (#[trigger] blank[i] == 0x20 || blank[i] == 0x09 || blank[i]
                == 0x0D || blank[i] == 0x0A),
    ensures
        master_key(hex_key(key, upper) + blank) == Ok::<Seq<u8>, KeyError>(key),
{
    lemma_hex_text(key, upper, blank);
    assert((hex_key(key, upper) + blank).len() >= 64);
}

/// A key file of 32 bytes is the key itself, whatever the bytes are; one that is
/// neither that nor hexadecimal is refused.
pub proof fn law_raw_keys_are_taken_as_they_are(raw: Seq<u8>, i: int)
    ensures
        raw.len() == 32 ==> master_key(raw) == Ok::<Seq<u8>, KeyError>(raw),
        master_key(raw) matches Ok(key) ==> key.len() == 32,
        raw.len() != 32 && 0 <= i < raw.len() && !is_hex(raw[i]) && raw[i] != 0x20 && raw[i] != 0x09
            && raw[i] != 0x0D && raw[i] != 0x0A ==> master_key(raw) == Err::<Seq<u8>, KeyError>(
            KeyError::InvalidHex,
        ),
{
    let ignore = encode_utf8(" \t\r\n"@);
    reveal_strlit(" \t\r\n");
    vstd::utf8::is_ascii_chars_encode_utf8(" \t\r\n"@);
    if 0 <= i < raw.len() && ignore.contains(raw[i]) {
        let j = choose|j: int| 0 <= j < ignore.len() && ignore[j] == raw[i];
        assert(j == 0 || j == 1 || j == 2 || j == 3);
    }
}

/// The path key and the content key of one master key are derived for two different
/// purposes, and are the same in every mount.
pub proof fn law_subkeys_are_apart(master: Seq<u8>) -> (r: (Seq<u8>, Seq<u8>))
    ensures
        r.0 != r.1,
        path_key(master) == hkdf::hkdf_expanded(
            hkdf::hkdf_extracted(encode_utf8("hf-mount/v1"@), master),
            r.0,
            16,
        ),
        content_key(master) == hkdf::hkdf_expanded(
            hkdf::hkdf_extracted(encode_utf8("hf-mount/v1"@), master),
            r.1,
            16,
        ),
        r.0 == encode_utf8("hf-mount path-encryption-key hctr2-aes128 v1"@),
        r.1 == encode_utf8("hf-mount file-content-key aegis-128x2 v1"@),
{
    let a = "hf-mount path-encryption-key hctr2-aes128 v1"@;
    let b = "hf-mount file-content-key aegis-128x2 v1"@;
    reveal_strlit("hf-mount path-encryption-key hctr2-aes128 v1");
    reveal_strlit("hf-mount file-content-key aegis-128x2 v1");
    vstd::utf8::is_ascii_chars_encode_utf8(a);
    vstd::utf8::is_ascii_chars_encode_utf8(b);
    assert(encode_utf8(a)[9] == a[9] as u8 && encode_utf8(b)[9] == b[9] as u8);
    (encode_utf8(a), encode_utf8(b))
}

/// A key in hexadecimal that is not 32 bytes long is refused with the length of what
/// was read, white space and all.
pub proof fn law_short_keys_are_refused(key: Seq<u8>, upper: bool, blank: Seq<u8>)
    requires
        key.len() < 32,
        2 * key.len() + blank.len() != 32,
        forall|i: int|
            0 <= i < blank.len() ==> (#[trigger] blank[i] == 0x20 || blank[i] == 0x09 || blank[i]
                == 0x0D || blank[i] == 0x0A),
    ensures
        master_key(hex_key(key, upper) + blank) == Err::<Seq<u8>, KeyError>(
            KeyError::BadLength((2 * key.len() + blank.len()) as usize),
        ),
{
    lemma_hex_text(key, upper, blank);
    assert((hex_key(key, upper) + blank).len() == 2 * key.len() + blank.len());
}

/// Only the one algorithm that is written has a byte of its own.
pub proof fn law_algorithm_bytes(name: &str, r: Option<u8>)
    requires
        call_ensures(algorithm_byte, (name,), r),
    ensures
        name@ == "aegis-128x2"@ ==> r == Some(2u8),
        name@ != "aegis-128x2"@ ==> r is None,
{
}

/// The handle of a mount has the path key for names and the content key for bodies,
/// as the master key gives them, and the algorithm that was chosen.
pub proof fn law_handles_have_their_own_keys(
    master: MasterKey,
    algorithm: u8,
    e: Encryptor,
    keys: DerivedKeys,
)
    requires
        call_ensures(Encryptor::from_master_key, (&master, algorithm), e),
        call_ensures(MasterKey::derive_keys, (&master,), keys),
    ensures
        e.path_cipher.key() == keys.path_key@,
        e.content_key@ == keys.content_key@,
        keys.path_key@ == path_key(master.0@),
        keys.content_key@ == content_key(master.0@),
        e.algorithm == algorithm,
{
}

} // verus!
