//! Filename path cipher.
//!
//! Each path component is encrypted independently with HCTR2-AES-128, a
//! length-preserving wide-block cipher, then base91-encoded into a single
//! filesystem-safe component. The plaintext path of the parent directory is
//! the HCTR2 tweak, so every component stays bound to the directory above it.
//!
//! Authentication comes from padding: before encryption a name is prefixed
//! with at least [`MIN_ZERO_PAD`] zero bytes (rounded up to a 32-byte block
//! when that still fits, to hide short-name lengths). Because HCTR2 is a
//! strong tweakable pseudorandom permutation over the whole block, a forged,
//! tampered, or relocated ciphertext decrypts to uniformly random bytes, so
//! the constant-time check that the first 12 bytes are zero passes with
//! probability 2^-96. Decryption strips leading NULs, which recovers both
//! the padded and exact-length cases without recording which one was used.

use vstd::prelude::*;
use vstd::utf8::{decode_utf8, encode_utf8, valid_utf8};

use crate::base91;
use crate::encryption::PATH_KEY_LEN;
use crate::hctr2;
use crate::text;
use crate::wipe;

verus! {

/// Names are padded up to a multiple of this many bytes where that fits.
pub const PAD_BLOCK: usize = 32;

/// Every encrypted name starts with at least this many zero bytes.
pub const MIN_ZERO_PAD: usize = 12;

/// Longest stored name, in bytes.
pub const NAME_MAX: usize = 255;

/// Errors from name encryption. Decryption failures are reported as `None`
/// instead, so an undecryptable entry can be silently skipped.
#[derive(Debug, Clone, Copy, PartialEq, Eq, Structural)]
pub enum PathError {
    /// Empty component, or one containing NUL or '/'.
    InvalidName,
    /// The encrypted form would exceed `NAME_MAX`.
    NameTooLong,
}

impl PathError {
    /// The message of this error.
    pub open spec fn message(self) -> Seq<char> {
        match self {
            PathError::InvalidName => "invalid file name"@,
            PathError::NameTooLong => "file name too long once encrypted"@,
        }
    }

    /// The message of this error, as a string.
    pub fn to_string(&self) -> (s: String)
        ensures
            s@ == self.message(),
    {
        match self {
            PathError::InvalidName => "invalid file name".to_owned(),
            PathError::NameTooLong => "file name too long once encrypted".to_owned(),
        }
    }
}

/// Whether `name` can be a path component: not empty, without NUL and `/`.
pub open spec fn valid_name(name: Seq<char>) -> bool {
    &&& name.len() > 0
    &&& !name.contains('\0')
    &&& !name.contains('/')
}

/// Whether `n` bytes always fit in a stored name once encoded.
pub open spec fn fits(n: nat) -> bool {
    base91::encoded_len_bound(n) <= NAME_MAX
}

/// `n` rounded up to a multiple of the pad block.
pub open spec fn block_multiple(n: nat) -> nat {
    (n + 31) / 32 * 32
}

/// The plaintext length to encrypt for an `n`-byte name: the name plus the
/// mandatory zeros, rounded up to a whole block when that still fits.
pub open spec fn input_len(n: nat) -> Option<nat> {
    if fits(block_multiple(n + 12)) {
        Some(block_multiple(n + 12))
    } else if fits(n + 12) {
        Some(n + 12)
    } else {
        None
    }
}

/// `bytes` behind as many zeros as make it `n` bytes long.
pub open spec fn zero_padded(bytes: Seq<u8>, n: nat) -> Seq<u8> {
    Seq::new((n - bytes.len()) as nat, |i: int| 0u8) + bytes
}

/// `bytes` without its leading zeros.
pub open spec fn without_leading_zeros(bytes: Seq<u8>) -> Seq<u8>
    decreases bytes.len(),
{
    if bytes.len() > 0 && bytes[0] == 0 {
        without_leading_zeros(bytes.drop_first())
    } else {
        bytes
    }
}

/// Why `name` cannot be encrypted, if it cannot.
pub open spec fn name_error(name: Seq<char>) -> Option<PathError> {
    if !valid_name(name) {
        Some(PathError::InvalidName)
    } else if input_len(encode_utf8(name).len()) is None {
        Some(PathError::NameTooLong)
    } else {
        None
    }
}

/// The stored form of `name` in the directory `parent`.
pub open spec fn stored_name(key: Seq<u8>, name: Seq<char>, parent: Seq<char>) -> Seq<char> {
    let bytes = encode_utf8(name);
    base91::encoded(
        hctr2::hctr2_encrypted(
            key,
            encode_utf8(parent),
            zero_padded(bytes, input_len(bytes.len())->0),
        ),
    )
}

/// The name that a decrypted block holds, if it holds one: enough zeros in
/// front, and behind the zeros a valid name.
pub open spec fn name_in_block(plain: Seq<u8>) -> Option<Seq<char>> {
    let bytes = without_leading_zeros(plain);
    if (forall|i: int| 0 <= i < MIN_ZERO_PAD ==> #[trigger] plain[i] == 0) && valid_utf8(bytes)
        && valid_name(decode_utf8(bytes)) {
        Some(decode_utf8(bytes))
    } else {
        None
    }
}

/// The name that `stored` holds in the directory `parent`, if it holds one: it
/// is base91 of at least a block that decrypts to enough zeros and a valid
/// name.
pub open spec fn plain_name(key: Seq<u8>, stored: Seq<char>, parent: Seq<char>) -> Option<
    Seq<char>,
> {
    match base91::decoded(stored) {
        Ok(cipher) => if cipher.len() >= PAD_BLOCK {
            name_in_block(hctr2::hctr2_decrypted(key, encode_utf8(parent), cipher))
        } else {
            None
        },
        Err(_) => None,
    }
}

/// The error of the first name that cannot be encrypted.
pub open spec fn first_name_error(names: Seq<Seq<char>>) -> Option<PathError>
    decreases names.len(),
{
    if names.len() == 0 {
        None
    } else if name_error(names[0]) is Some {
        name_error(names[0])
    } else {
        first_name_error(names.drop_first())
    }
}

/// The stored names of a path, each in the directory that the names before it
/// make up.
pub open spec fn stored_names(key: Seq<u8>, names: Seq<Seq<char>>) -> Seq<Seq<char>> {
    Seq::new(
        names.len(),
        |i: int| stored_name(key, names[i], text::join(names.take(i), '/')),
    )
}

/// What a plaintext path is stored as.
pub open spec fn stored_path(key: Seq<u8>, path: Seq<char>) -> Result<Seq<char>, PathError> {
    let names = text::split(path, '/');
    if path.len() == 0 {
        Ok(path)
    } else {
        match first_name_error(names) {
            Some(e) => Err(e),
            None => Ok(text::join(stored_names(key, names), '/')),
        }
    }
}

/// The plaintext names of stored names, if every one of them decrypts in the
/// directory that those before it decrypt to.
pub open spec fn plain_names(key: Seq<u8>, stored: Seq<Seq<char>>) -> Option<Seq<Seq<char>>>
    decreases stored.len(),
{
    if stored.len() == 0 {
        Some(Seq::empty())
    } else {
        match plain_names(key, stored.drop_last()) {
            None => None,
            Some(names) => match plain_name(key, stored.last(), text::join(names, '/')) {
                None => None,
                Some(name) => Some(names.push(name)),
            },
        }
    }
}

/// What a stored path decrypts to.
pub open spec fn plain_path(key: Seq<u8>, stored: Seq<char>) -> Option<Seq<char>> {
    if stored.len() == 0 {
        Some(stored)
    } else {
        match plain_names(key, text::split(stored, '/')) {
            None => None,
            Some(names) => Some(text::join(names, '/')),
        }
    }
}

/// Whether `stored` is base91 of as many bytes as an `n`-byte name is padded to.
pub open spec fn stored_len_is(stored: Seq<char>, n: nat) -> bool {
    base91::decoded(stored) matches Ok(cipher) && input_len(n) == Some(cipher.len())
}

/// What holds of a stored name: it is one legal path component, ASCII and of
/// at most `NAME_MAX` bytes, decrypts to `name` in the directory `parent`, and
/// is base91 of as many bytes as the name is padded to.
pub open spec fn stored_well(
    key: Seq<u8>,
    stored: Seq<char>,
    name: Seq<char>,
    parent: Seq<char>,
) -> bool {
    &&& valid_name(stored)
    &&& vstd::utf8::is_ascii_chars(stored)
    &&& stored.len() <= NAME_MAX
    &&& plain_name(key, stored, parent) == Some(name)
    &&& stored_len_is(stored, encode_utf8(name).len())
}

/// The path of `name` in the directory `parent`.
pub open spec fn child_path(parent: Seq<char>, name: Seq<char>) -> Seq<char> {
    if parent.len() == 0 {
        name
    } else {
        parent.push('/') + name
    }
}

/// A name that does not start with NUL is not encoded with a zero byte first.
proof fn lemma_first_byte(name: Seq<char>)
    requires
        name.len() > 0,
        name[0] != '\0',
    ensures
        encode_utf8(name).len() > 0,
        encode_utf8(name)[0] != 0,
{
    let c = name[0] as u32;
    vstd::utf8::char_u32_cast(name[0], c);
    vstd::utf8::char_is_scalar(name[0]);
    assert(1 <= c <= 0x7F ==> (c & 0x7F) as u8 != 0) by (bit_vector);
    let a: u8 = ((c >> 6) & 0x1F) as u8;
    let b: u8 = ((c >> 12) & 0x0F) as u8;
    let d: u8 = ((c >> 18) & 0x7) as u8;
    assert(0xC0 | a != 0) by (bit_vector);
    assert(0xE0 | b != 0) by (bit_vector);
    assert(0xF0 | d != 0) by (bit_vector);
    assert(encode_utf8(name)[0] == vstd::utf8::encode_scalar(c)[0]);
}

/// Padding a name and stripping the zeros again gives the name back.
proof fn lemma_strip_padding(bytes: Seq<u8>, n: nat)
    requires
        bytes.len() > 0,
        bytes[0] != 0,
        n >= bytes.len(),
    ensures
        without_leading_zeros(zero_padded(bytes, n)) == bytes,
    decreases n,
{
    let padded = zero_padded(bytes, n);
    if n > bytes.len() {
        assert(padded.drop_first() =~= zero_padded(bytes, (n - 1) as nat));
        lemma_strip_padding(bytes, (n - 1) as nat);
    } else {
        assert(padded =~= bytes);
    }
}

/// How long the padded form of a name is.
pub proof fn lemma_input_len(n: nat)
    ensures
        input_len(n) matches Some(m) ==> {
            &&& m >= n + MIN_ZERO_PAD
            &&& m >= PAD_BLOCK
            &&& fits(m)
        },
{
    if !fits(block_multiple(n + 12)) {
        assert(block_multiple(n + 12) >= 199);
        assert(n + 12 >= 168);
    }
}

/// Names of at most 20 bytes share one padded length of 32 bytes.
pub proof fn law_short_names_share_a_block(n: nat)
    requires
        n <= 20,
    ensures
        input_len(n) == Some(32nat),
{
}

/// Two names of one padded length are stored as ciphertexts of one length, in
/// whatever directories they stand. All that is left to see in their stored
/// forms is how many characters base91 takes for that many bytes, which hangs
/// on the ciphertext and lies between the same two bounds for both.
pub proof fn law_padding_hides_name_length(
    key: Seq<u8>,
    stored: Seq<char>,
    name: Seq<char>,
    parent: Seq<char>,
    other_stored: Seq<char>,
    other: Seq<char>,
    other_parent: Seq<char>,
)
    requires
        stored_well(key, stored, name, parent),
        stored_well(key, other_stored, other, other_parent),
        input_len(encode_utf8(name).len()) == input_len(encode_utf8(other).len()),
    ensures
        base91::decoded(stored)->Ok_0.len() == base91::decoded(other_stored)->Ok_0.len(),
        ({
            let n = input_len(encode_utf8(name).len())->0;
            &&& base91::encoded_len_floor(n) <= stored.len() <= base91::encoded_len_bound(n)
            &&& base91::encoded_len_floor(n) <= other_stored.len() <= base91::encoded_len_bound(n)
        }),
{
    base91::law_encode_inverts_decode(stored);
    base91::law_encode_inverts_decode(other_stored);
    base91::law_encoded_len_within_bound(base91::decoded(stored)->Ok_0);
    base91::law_encoded_len_within_bound(base91::decoded(other_stored)->Ok_0);
}

/// The stored form of a name of at most 20 bytes is 37 to 40 characters long.
pub proof fn law_short_names_store_alike(
    key: Seq<u8>,
    stored: Seq<char>,
    name: Seq<char>,
    parent: Seq<char>,
)
    requires
        stored_well(key, stored, name, parent),
        encode_utf8(name).len() <= 20,
    ensures
        base91::decoded(stored)->Ok_0.len() == 32,
        37 <= stored.len() <= 40,
{
    law_short_names_share_a_block(encode_utf8(name).len());
    law_padding_hides_name_length(key, stored, name, parent, stored, name, parent);
}

/// A name can be encrypted if and only if it is valid and its UTF-8 form is at
/// most 194 bytes long.
pub proof fn law_longest_name(name: Seq<char>)
    ensures
        name_error(name) is None <==> valid_name(name) && encode_utf8(name).len() <= 194,
{
    let n = encode_utf8(name).len();
    if n <= 194 {
        assert(fits(n + 12));
    } else {
        assert(block_multiple(n + 12) >= 207);
        assert(!fits(n + 12));
        assert(!fits(block_multiple(n + 12)));
    }
}

proof fn lemma_encoded_not_empty(bytes: Seq<u8>)
    requires
        bytes.len() > 0,
    ensures
        base91::encoded(bytes).len() > 0,
{
}

/// Where a prefix of the stored names does not decrypt, the whole does not.
proof fn lemma_plain_names_prefix(key: Seq<u8>, stored: Seq<Seq<char>>, k: int)
    requires
        0 <= k <= stored.len(),
        plain_names(key, stored.take(k)) is None,
    ensures
        plain_names(key, stored) is None,
    decreases stored.len(),
{
    if k == stored.len() {
        assert(stored.take(k) =~= stored);
    } else {
        assert(stored.drop_last().take(k) =~= stored.take(k));
        lemma_plain_names_prefix(key, stored.drop_last(), k);
    }
}

/// Stored names that decrypt one by one decrypt together.
proof fn lemma_plain_names(key: Seq<u8>, stored: Seq<Seq<char>>, names: Seq<Seq<char>>)
    requires
        stored.len() == names.len(),
        forall|i: int|
            0 <= i < names.len() ==> plain_name(
                key,
                #[trigger] stored[i],
                text::join(names.take(i), '/'),
            ) == Some(names[i]),
    ensures
        plain_names(key, stored) == Some(names),
    decreases names.len(),
{
    if names.len() > 0 {
        let s = stored.drop_last();
        let n = names.drop_last();
        assert forall|i: int| 0 <= i < n.len() implies plain_name(
            key,
            #[trigger] s[i],
            text::join(n.take(i), '/'),
        ) == Some(n[i]) by {
            assert(s[i] == stored[i]);
            assert(n.take(i) =~= names.take(i));
        }
        lemma_plain_names(key, s, n);
        let last = names.len() - 1;
        assert(stored[last] == stored.last());
        assert(names.take(last) =~= n);
        assert(n.push(names[last]) =~= names);
    } else {
        assert(names =~= Seq::empty());
    }
}

/// Every name in a decrypted path is a valid name, so a stored path cannot
/// change the shape of the plaintext path.
pub proof fn law_plain_names_are_valid(key: Seq<u8>, stored: Seq<Seq<char>>)
    ensures
        plain_names(key, stored) matches Some(names) ==> names.len() == stored.len() && forall|i: int|
            0 <= i < names.len() ==> valid_name(#[trigger] names[i]),
    decreases stored.len(),
{
    if stored.len() > 0 {
        law_plain_names_are_valid(key, stored.drop_last());
    }
}

/// The plaintext path that a stored path decrypts to has as many components
/// as the stored path, each of them a valid name.
pub proof fn law_plain_path_keeps_shape(key: Seq<u8>, stored: Seq<char>)
    requires
        stored.len() > 0,
    ensures
        plain_path(key, stored) matches Some(path) ==> {
            let names = text::split(path, '/');
            &&& names.len() == text::split(stored, '/').len()
            &&& forall|i: int| 0 <= i < names.len() ==> valid_name(#[trigger] names[i])
        },
{
    let parts = text::split(stored, '/');
    law_plain_names_are_valid(key, parts);
    text::lemma_join_split(stored, '/');
    if let Some(names) = plain_names(key, parts) {
        assert forall|i: int| 0 <= i < names.len() implies !(#[trigger] names[i]).contains('/') by {
            assert(valid_name(names[i]));
        }
        text::lemma_split_join(names, '/');
    }
}

proof fn lemma_first_name_error(names: Seq<Seq<char>>, k: int)
    requires
        0 <= k < names.len(),
        forall|i: int| 0 <= i < k ==> name_error(#[trigger] names[i]) is None,
        name_error(names[k]) is Some,
    ensures
        first_name_error(names) == name_error(names[k]),
    decreases names.len(),
{
    if k > 0 {
        let rest = names.drop_first();
        assert(name_error(names[0]) is None);
        assert forall|i: int| 0 <= i < k - 1 implies name_error(#[trigger] rest[i]) is None by {
            assert(rest[i] == names[i + 1]);
        }
        lemma_first_name_error(rest, k - 1);
    }
}

proof fn lemma_no_name_error(names: Seq<Seq<char>>)
    requires
        forall|i: int| 0 <= i < names.len() ==> name_error(#[trigger] names[i]) is None,
    ensures
        first_name_error(names) is None,
    decreases names.len(),
{
    if names.len() > 0 {
        let rest = names.drop_first();
        assert forall|i: int| 0 <= i < rest.len() implies name_error(#[trigger] rest[i]) is None by {
            assert(rest[i] == names[i + 1]);
        }
        lemma_no_name_error(rest);
    }
}

proof fn lemma_join_not_empty(names: Seq<Seq<char>>)
    requires
        names.len() > 0,
        names[0].len() > 0,
    ensures
        text::join(names, '/').len() > 0,
{
}

proof fn lemma_join_ascii(parts: Seq<Seq<char>>)
    requires
        forall|i: int| 0 <= i < parts.len() ==> vstd::utf8::is_ascii_chars(#[trigger] parts[i]),
    ensures
        vstd::utf8::is_ascii_chars(text::join(parts, '/')),
    decreases parts.len(),
{
    if parts.len() > 1 {
        let rest = parts.drop_first();
        assert forall|i: int| 0 <= i < rest.len() implies vstd::utf8::is_ascii_chars(
            #[trigger] rest[i],
        ) by {
            assert(rest[i] == parts[i + 1]);
        }
        lemma_join_ascii(rest);
        let head = parts[0].push('/');
        assert(vstd::utf8::is_ascii_chars(parts[0]));
    }
}

proof fn lemma_without_leading_zeros_len(bytes: Seq<u8>)
    ensures
        without_leading_zeros(bytes).len() <= bytes.len(),
    decreases bytes.len(),
{
    if bytes.len() > 0 && bytes[0] == 0 {
        lemma_without_leading_zeros_len(bytes.drop_first());
    }
}

/// A path whose names are all stored well is stored well as a whole.
proof fn lemma_stored_path(key: Seq<u8>, path: Seq<char>)
    requires
        path.len() > 0,
        forall|i: int|
            0 <= i < text::split(path, '/').len() ==> name_error(
                #[trigger] text::split(path, '/')[i],
            ) is None,
        forall|i: int|
            0 <= i < text::split(path, '/').len() ==> stored_well(
                key,
                #[trigger] stored_names(key, text::split(path, '/'))[i],
                text::split(path, '/')[i],
                text::join(text::split(path, '/').take(i), '/'),
            ),
    ensures
        ({
            let names = text::split(path, '/');
            let parts = stored_names(key, names);
            let stored = text::join(parts, '/');
            &&& stored_path(key, path) == Ok::<Seq<char>, PathError>(stored)
            &&& plain_path(key, stored) == Some(path)
            &&& vstd::utf8::is_ascii_chars(stored)
            &&& text::split(stored, '/') == parts
            &&& forall|i: int|
                0 <= i < parts.len() ==> valid_name(#[trigger] parts[i]) && parts[i].len()
                    <= NAME_MAX && stored_len_is(
                    parts[i],
                    encode_utf8(text::split(path, '/')[i]).len(),
                )
        }),
{
    let names = text::split(path, '/');
    let parts = stored_names(key, names);
    text::lemma_join_split(path, '/');
    lemma_no_name_error(names);
    lemma_plain_names(key, parts, names);
    text::lemma_split_join(parts, '/');
    assert(stored_well(key, parts[0], names[0], text::join(names.take(0), '/')));
    lemma_join_not_empty(parts);
    lemma_join_ascii(parts);
}

/// Checks that `name` can be a path component.
pub fn validate_name(name: &str) -> (r: Result<(), PathError>)
    ensures
        r == if valid_name(name@) {
            Ok::<(), PathError>(())
        } else {
            Err(PathError::InvalidName)
        },
{
    let mut empty: bool = true;
    let mut bad: bool = false;
    for c in it: name.chars()
        invariant
            it.seq() == name@,
            empty == (it.index() == 0),
            bad == (exists|j: int|
                0 <= j < it.index() && (#[trigger] name@[j] == '\0' || name@[j] == '/')),
    {
        empty = false;
        let ghost at = it.index() as int;
        if c == '\0' || c == '/' {
            assert(name@[at] == '\0' || name@[at] == '/');
            bad = true;
        }
    }
    proof {
        if bad {
            let j = choose|j: int|
                0 <= j < name@.len() && (#[trigger] name@[j] == '\0' || name@[j] == '/');
            assert(name@.contains(name@[j]));
        } else {
            if name@.contains('\0') {
                let j = choose|j: int| 0 <= j < name@.len() && name@[j] == '\0';
                assert(name@[j] == '\0');
            }
            if name@.contains('/') {
                let j = choose|j: int| 0 <= j < name@.len() && name@[j] == '/';
                assert(name@[j] == '/');
            }
        }
    }
    if empty || bad {
        return Err(PathError::InvalidName);
    }
    Ok(())
}

/// Whether `input_len` bytes always fit in a stored name once encoded.
pub fn encoded_fits(input_len: usize) -> (r: bool)
    requires
        input_len * 8 <= usize::MAX,
    ensures
        r == fits(input_len as nat),
{
    base91::encoded_len_upper_bound(input_len) <= NAME_MAX
}

/// The plaintext length to encrypt for a `name_len`-byte name, or `None` when
/// the name is too long.
pub fn encrypt_input_len(name_len: usize) -> (r: Option<usize>)
    ensures
        r is Some <==> input_len(name_len as nat) is Some,
        r matches Some(n) ==> input_len(name_len as nat) == Some(n as nat),
{
    if name_len > NAME_MAX {
        assert(!fits((name_len + 12) as nat));
        assert(!fits(block_multiple((name_len + 12) as nat)));
        return None;
    }
    let min_len: usize = name_len + MIN_ZERO_PAD;
    let padded: usize = (min_len + (PAD_BLOCK - 1)) / PAD_BLOCK * PAD_BLOCK;
    if encoded_fits(padded) {
        Some(padded)
    } else if encoded_fits(min_len) {
        Some(min_len)
    } else {
        None
    }
}

/// `bytes` without its leading NULs.
pub fn strip_leading_nuls(bytes: &[u8]) -> (r: &[u8])
    ensures
        r@ == without_leading_zeros(bytes@),
{
    let mut start: usize = 0;
    assert(bytes@.skip(0) =~= bytes@);
    while start < bytes.len() && bytes[start] == 0
        invariant
            start <= bytes@.len(),
            without_leading_zeros(bytes@) == without_leading_zeros(bytes@.skip(start as int)),
        decreases bytes@.len() - start,
    {
        assert(bytes@.skip(start as int).drop_first() =~= bytes@.skip(start + 1));
        start = start + 1;
    }
    let n: usize = bytes.len();
    assert(bytes@.skip(start as int) =~= bytes@.subrange(start as int, n as int));
    vstd::slice::slice_subrange(bytes, start, n)
}

/// The block to encrypt for a name: its bytes behind zeros.
pub fn pad_name(name: &str) -> (r: Result<Vec<u8>, PathError>)
    ensures
        match r {
            Err(e) => name_error(name@) == Some(e),
            Ok(block) => {
                &&& name_error(name@) is None
                &&& block@ == zero_padded(
                    encode_utf8(name@),
                    input_len(encode_utf8(name@).len())->0,
                )
                &&& block@.len() == input_len(encode_utf8(name@).len())->0
                &&& block@.len() >= PAD_BLOCK
            },
        },
{
    match validate_name(name) {
        Err(e) => {
            return Err(e);
        },
        Ok(_) => {},
    }
    let name_bytes: &[u8] = name.as_bytes();
    let name_len: usize = name_bytes.len();
    let input_len: usize = match encrypt_input_len(name_len) {
        Some(n) => n,
        None => {
            return Err(PathError::NameTooLong);
        },
    };
    proof {
        lemma_input_len(name_len as nat);
    }
    let mut buf: Vec<u8> = Vec::new();
    while buf.len() < input_len - name_len
        invariant
            name_len <= input_len,
            buf@.len() <= input_len - name_len,
            buf@ == Seq::new(buf@.len(), |i: int| 0u8),
        decreases input_len - name_len - buf@.len(),
    {
        buf.push(0);
        assert(buf@ =~= Seq::new(buf@.len(), |i: int| 0u8));
    }
    buf.extend_from_slice(name_bytes);
    assert(buf@ =~= zero_padded(name_bytes@, input_len as nat));
    Ok(buf)
}

/// The name that a decrypted block holds, if it holds one.
pub fn name_from_block(plain: &[u8]) -> (r: Option<String>)
    requires
        plain@.len() >= MIN_ZERO_PAD,
    ensures
        match r {
            None => name_in_block(plain@) is None,
            Some(name) => name_in_block(plain@) == Some(name@),
        },
{
    // The zero padding is the MAC: accumulate the first MIN_ZERO_PAD bytes
    // branch-free and compare once, so the check runs in constant time.
    let mut acc: u8 = 0;
    let mut i: usize = 0;
    while i < MIN_ZERO_PAD
        invariant
            i <= MIN_ZERO_PAD <= plain@.len(),
            acc == 0 <==> (forall|j: int| 0 <= j < i ==> #[trigger] plain@[j] == 0),
        decreases MIN_ZERO_PAD - i,
    {
        let b: u8 = plain[i];
        assert(acc | b == 0 <==> acc == 0 && b == 0) by (bit_vector);
        acc = acc | b;
        i = i + 1;
    }
    if acc != 0 {
        return None;
    }
    let stripped: Vec<u8> = vstd::slice::slice_to_vec(strip_leading_nuls(plain));
    let name: String = match text::string_from_utf8(stripped) {
        Ok(s) => s,
        Err(_) => {
            return None;
        },
    };
    match validate_name(name.as_str()) {
        Ok(_) => Some(name),
        Err(_) => None,
    }
}

/// Extends the path `parent` by one component.
pub fn push_component(parent: &mut String, comp: &str)
    ensures
        final(parent)@ == child_path(old(parent)@, comp@),
{
    if !parent.as_str().is_empty() {
        parent.push('/');
    }
    parent.push_str(comp);
}

/// Encrypts and decrypts path components with the derived path key.
pub struct PathCipher {
    path_key: [u8; PATH_KEY_LEN],
}

impl PathCipher {
    /// The key that this cipher works under.
    pub closed spec fn key(&self) -> Seq<u8> {
        self.path_key@
    }

    pub fn new(path_key: [u8; PATH_KEY_LEN]) -> (c: Self)
        ensures
            c.key() == path_key@,
    {
        PathCipher { path_key }
    }

    /// Verify that `name` will fit in `NAME_MAX` once encrypted. Cheap enough
    /// to run before any local inode mutation.
    pub fn check_name_len(&self, name: &str) -> (r: Result<(), PathError>)
        ensures
            r == match name_error(name@) {
                Some(e) => Err::<(), PathError>(e),
                None => Ok(()),
            },
    {
        match validate_name(name) {
            Err(e) => {
                return Err(e);
            },
            Ok(_) => {},
        }
        match encrypt_input_len(name.as_bytes().len()) {
            Some(_) => Ok(()),
            None => Err(PathError::NameTooLong),
        }
    }

    /// Encrypt one name in the directory `parent`. What comes out is a single
    /// legal path component of at most `NAME_MAX` bytes that decrypts to
    /// `name` in the same directory and is base91 of as many bytes as the name
    /// is padded to.
    pub fn encrypt_component(&self, name: &str, parent: &str) -> (r: Result<String, PathError>)
        requires
            hctr2::text_fits(parent@),
        ensures
            match r {
                Err(e) => name_error(name@) == Some(e),
                Ok(stored) => {
                    &&& name_error(name@) is None
                    &&& stored@ == stored_name(self.key(), name@, parent@)
                    &&& stored_well(self.key(), stored@, name@, parent@)
                },
            },
    {
        let buf: Vec<u8> = match pad_name(name) {
            Ok(buf) => buf,
            Err(e) => {
                return Err(e);
            },
        };
        let cipher: Vec<u8> = hctr2::hctr2_encrypt(
            &self.path_key,
            parent.as_bytes(),
            buf.as_slice(),
        );
        proof {
            let name_seq = name@;
            let name_bytes = encode_utf8(name_seq);
            lemma_input_len(name_bytes.len());
            base91::law_decode_inverts_encode(cipher@);
            base91::law_encoded_is_filesystem_safe(cipher@);
            base91::law_encoded_len_within_bound(cipher@);
            lemma_encoded_not_empty(cipher@);
            assert(name_seq.contains(name_seq[0]));
            lemma_first_byte(name_seq);
            lemma_strip_padding(name_bytes, input_len(name_bytes.len())->0);
            vstd::utf8::encode_utf8_valid_utf8(name_seq);
            vstd::utf8::encode_utf8_decode_utf8(name_seq);
        }
        Ok(base91::encode(cipher.as_slice()))
    }

    /// Decrypt one stored name in the directory `parent`.
    pub fn decrypt_component(&self, stored: &str, parent: &str) -> (r: Option<String>)
        requires
            hctr2::text_fits(parent@),
        ensures
            match r {
                None => plain_name(self.key(), stored@, parent@) is None,
                Some(name) => {
                    &&& plain_name(self.key(), stored@, parent@) == Some(name@)
                    &&& encode_utf8(name@).len() <= stored@.len()
                },
            },
    {
        let cipher: Vec<u8> = match base91::decode(stored) {
            Ok(c) => c,
            Err(_) => {
                return None;
            },
        };
        if cipher.len() < PAD_BLOCK {
            return None;
        }
        let plain: Vec<u8> = hctr2::hctr2_decrypt(
            &self.path_key,
            parent.as_bytes(),
            cipher.as_slice(),
        );
        proof {
            base91::law_decoded_len_within_text(stored@);
            lemma_without_leading_zeros_len(plain@);
            let stripped = without_leading_zeros(plain@);
            if valid_utf8(stripped) {
                vstd::utf8::decode_utf8_encode_utf8(stripped);
            }
        }
        name_from_block(plain.as_slice())
    }

    /// Encrypt a full plaintext path (bucket-relative, '/'-separated) into the
    /// stored path. Each component is bound to the plaintext path above it.
    /// A stored path has the components of the plaintext path, each at most
    /// `NAME_MAX` bytes long and of the length of its padded name, and decrypts
    /// to the plaintext path.
    pub fn encrypt_path(&self, plaintext_path: &str) -> (r: Result<String, PathError>)
        requires
            hctr2::text_fits(plaintext_path@),
        ensures
            match r {
                Err(e) => stored_path(self.key(), plaintext_path@) == Err::<Seq<char>, PathError>(
                    e,
                ),
                Ok(stored) => {
                    &&& stored_path(self.key(), plaintext_path@) == Ok::<Seq<char>, PathError>(
                        stored@,
                    )
                    &&& plain_path(self.key(), stored@) == Some(plaintext_path@)
                    &&& vstd::utf8::is_ascii_chars(stored@)
                    &&& plaintext_path@.len() > 0 ==> {
                        let names = text::split(stored@, '/');
                        &&& names.len() == text::split(plaintext_path@, '/').len()
                        &&& forall|i: int|
                            0 <= i < names.len() ==> valid_name(#[trigger] names[i])
                                && names[i].len() <= NAME_MAX && stored_len_is(
                                names[i],
                                encode_utf8(text::split(plaintext_path@, '/')[i]).len(),
                            )
                    }
                },
            },
    {
        if plaintext_path.is_empty() {
            assert(plaintext_path@ =~= Seq::empty());
            return Ok(String::new());
        }
        let comps: Vec<String> = text::split_on(plaintext_path, '/');
        let ghost names = text::split(plaintext_path@, '/');
        let ghost key = self.key();
        let mut parent: String = String::new();
        let mut encoded: Vec<String> = Vec::new();
        let mut i: usize = 0;
        proof {
            text::lemma_join_split(plaintext_path@, '/');
        }
        while i < comps.len()
            invariant
                i <= comps@.len(),
                key == self.key(),
                names == text::views(comps@),
                names == text::split(plaintext_path@, '/'),
                plaintext_path@.len() > 0,
                text::join(names, '/') == plaintext_path@,
                hctr2::text_fits(plaintext_path@),
                parent@ == text::join(names.take(i as int), '/'),
                encoded@.len() == i,
                forall|j: int| 0 <= j < i ==> name_error(#[trigger] names[j]) is None,
                forall|j: int|
                    0 <= j < i ==> {
                        &&& (#[trigger] encoded@[j])@ == stored_names(key, names)[j]
                        &&& stored_well(
                            key,
                            encoded@[j]@,
                            names[j],
                            text::join(names.take(j), '/'),
                        )
                    },
            decreases comps@.len() - i,
        {
            proof {
                text::lemma_encode_join_take(names, i as int, '/');
                assert(names[i as int] == comps@[i as int]@);
            }
            let stored: String = match self.encrypt_component(
                comps[i].as_str(),
                parent.as_str(),
            ) {
                Ok(s) => s,
                Err(e) => {
                    proof {
                        lemma_first_name_error(names, i as int);
                    }
                    return Err(e);
                },
            };
            encoded.push(stored);
            push_component(&mut parent, comps[i].as_str());
            proof {
                let before = names.take(i as int);
                assert(names.take(i + 1) =~= before.push(names[i as int]));
                text::lemma_join_push(before, names[i as int], '/');
                if i > 0 {
                    // The path so far is not empty: its first name is not.
                    assert(name_error(names[0]) is None);
                    lemma_join_not_empty(before);
                }
            }
            i = i + 1;
        }
        proof {
            let parts = text::views(encoded@);
            assert(parts =~= stored_names(key, names));
            assert forall|j: int| 0 <= j < parts.len() implies stored_well(
                key,
                #[trigger] parts[j],
                names[j],
                text::join(names.take(j), '/'),
            ) by {
                assert(parts[j] == encoded@[j]@);
            }
            lemma_stored_path(key, plaintext_path@);
        }
        Ok(text::join_with(&encoded, '/'))
    }

    /// Decrypt a stored path back to plaintext, or `None` if any component
    /// fails to decode, authenticate, or strip cleanly (the caller drops such
    /// entries).
    pub fn decrypt_path(&self, stored_path: &str) -> (r: Option<String>)
        requires
            hctr2::text_fits(stored_path@),
        ensures
            match r {
                None => plain_path(self.key(), stored_path@) is None,
                Some(path) => plain_path(self.key(), stored_path@) == Some(path@),
            },
    {
        if stored_path.is_empty() {
            return Some(String::new());
        }
        let comps: Vec<String> = text::split_on(stored_path, '/');
        let ghost stored = text::split(stored_path@, '/');
        let ghost key = self.key();
        let mut parent: String = String::new();
        let mut plain: Vec<String> = Vec::new();
        let mut i: usize = 0;
        proof {
            text::lemma_join_split(stored_path@, '/');
            assert(text::views(plain@) =~= Seq::empty());
        }
        while i < comps.len()
            invariant
                i <= comps@.len(),
                key == self.key(),
                stored == text::views(comps@),
                stored == text::split(stored_path@, '/'),
                text::join(stored, '/') == stored_path@,
                stored_path@.len() > 0,
                hctr2::text_fits(stored_path@),
                plain@.len() == i,
                parent@ == text::join(text::views(plain@), '/'),
                plain_names(key, stored.take(i as int)) == Some(text::views(plain@)),
                i > 0 ==> parent@.len() > 0,
                encode_utf8(parent@).len() <= text::join(stored.take(i as int), '/').len(),
            decreases comps@.len() - i,
        {
            proof {
                text::lemma_encode_join_take(stored, i as int, '/');
                text::lemma_encode_len(text::join(stored.take(i as int), '/'));
                assert(stored[i as int] == comps@[i as int]@);
                assert(stored.take(i + 1).drop_last() =~= stored.take(i as int));
                assert(stored.take(i + 1).last() == stored[i as int]);
            }
            let name: String = match self.decrypt_component(comps[i].as_str(), parent.as_str()) {
                Some(n) => n,
                None => {
                    proof {
                        lemma_plain_names_prefix(key, stored, i + 1);
                    }
                    return None;
                },
            };
            let ghost before = text::views(plain@);
            let ghost old_parent = parent@;
            push_component(&mut parent, name.as_str());
            plain.push(name);
            proof {
                assert(text::views(plain@) =~= before.push(name@));
                text::lemma_join_push(before, name@, '/');
                text::lemma_encode_join_push(before, name@, '/');
                text::lemma_join_push(stored.take(i as int), stored[i as int], '/');
                assert(stored.take(i + 1) =~= stored.take(i as int).push(stored[i as int]));
            }
            i = i + 1;
        }
        assert(stored.take(stored.len() as int) =~= stored);
        Some(text::join_with(&plain, '/'))
    }
}

/// The key is cleared from memory when the cipher goes away.
impl Drop for PathCipher {
    fn drop(&mut self)
        ensures
            final(self).key() == wipe::zeros(PATH_KEY_LEN as nat),
        opens_invariants none
        no_unwind
    {
        wipe::wipe(&mut self.path_key);
    }
}

/// The padded length of a name of up to 180 bytes is the next multiple of 32 that
/// leaves room for 12 zeros; of up to 194 bytes it is 12 more than the name's, and
/// longer names have none.
pub proof fn law_padded_lengths(n: nat)
    ensures
        n <= 180 ==> (input_len(n) matches Some(m) && m % 32 == 0 && n + 12 <= m < n + 44),
        180 < n <= 194 ==> input_len(n) == Some(n + 12),
        n > 194 ==> input_len(n) is None,
{
    let b = block_multiple(n + 12);
    if n <= 180 {
        assert(b <= 192);
        assert(fits(b)) by {
            assert(8 * b / 13 <= 118);
        }
    } else if n <= 194 {
        assert(b >= 224);
        assert(8 * b / 13 >= 137);
        assert(8 * (n + 12) / 13 <= 126);
    } else {
        assert(b >= 224);
        assert(8 * b / 13 >= 137);
        assert(8 * (n + 12) / 13 >= 127);
    }
}

/// The block that is encrypted for a name is zeros, at least twelve of them, and
/// then the name.
pub proof fn law_name_stands_behind_zeros(name: &str, block: Vec<u8>, i: int)
    requires
        call_ensures(pad_name, (name,), Ok(block)),
    ensures
        ({
            let bytes = encode_utf8(name@);
            let zeros = block@.len() - bytes.len();
            &&& zeros >= 12
            &&& block@.skip(zeros) == bytes
            &&& 0 <= i < zeros ==> block@[i] == 0
        }),
{
    let bytes = encode_utf8(name@);
    lemma_input_len(bytes.len());
    let zeros = block@.len() - bytes.len();
    assert(block@.skip(zeros) =~= bytes);
}

/// Stripping zeros takes off all that stand in front and nothing else.
pub proof fn law_leading_zeros_are_stripped(bytes: Seq<u8>, i: int)
    ensures
        ({
            let rest = without_leading_zeros(bytes);
            let zeros = bytes.len() - rest.len();
            &&& zeros >= 0
            &&& rest == bytes.skip(zeros)
            &&& rest.len() > 0 ==> rest[0] != 0
            &&& 0 <= i < zeros ==> bytes[i] == 0
        }),
    decreases bytes.len(),
{
    if bytes.len() > 0 && bytes[0] == 0 {
        let rest = bytes.drop_first();
        law_leading_zeros_are_stripped(rest, i - 1);
        let zeros = bytes.len() - without_leading_zeros(bytes).len();
        assert(rest.skip(zeros - 1) =~= bytes.skip(zeros));
        if 0 < i < bytes.len() {
            assert(rest[i - 1] == bytes[i]);
        }
    } else {
        assert(bytes.skip(0) =~= bytes);
    }
}

/// A decrypted block is taken for a name exactly where at least twelve zeros stand
/// in front of it.
pub proof fn law_twelve_zeros_authenticate(name: Seq<char>, zeros: nat)
    requires
        valid_name(name),
        zeros + encode_utf8(name).len() >= 12,
    ensures
        name_in_block(Seq::new(zeros, |i: int| 0u8) + encode_utf8(name)) == if zeros >= 12 {
            Some(name)
        } else {
            None
        },
{
    let bytes = encode_utf8(name);
    let block = Seq::new(zeros, |i: int| 0u8) + bytes;
    if name[0] == '\0' {
        assert(name.contains(name[0]));
    }
    lemma_first_byte(name);
    assert(block =~= zero_padded(bytes, zeros + bytes.len()));
    lemma_strip_padding(bytes, zeros + bytes.len());
    vstd::utf8::encode_utf8_valid_utf8(name);
    vstd::utf8::encode_utf8_decode_utf8(name);
    if zeros < 12 {
        assert(block[zeros as int] == bytes[0]);
    } else {
        assert forall|i: int| 0 <= i < MIN_ZERO_PAD implies #[trigger] block[i] == 0 by {}
    }
}

/// A stored name is bound to its directory: what it decrypts to is read under the
/// path of that directory, from at least 32 bytes of ciphertext, and is the name
/// behind twelve zeros or more.
pub proof fn law_names_are_bound_to_their_directory(
    key: Seq<u8>,
    stored: Seq<char>,
    parent: Seq<char>,
    name: Seq<char>,
    i: int,
)
    requires
        plain_name(key, stored, parent) == Some(name),
    ensures
        base91::decoded(stored) is Ok,
        ({
            let cipher = base91::decoded(stored)->Ok_0;
            let block = hctr2::hctr2_decrypted(key, encode_utf8(parent), cipher);
            &&& cipher.len() >= 32
            &&& 0 <= i < 12 ==> block[i] == 0
            &&& without_leading_zeros(block) == encode_utf8(name)
            &&& name.len() > 0 && !name.contains('/') && !name.contains('\0')
        }),
{
    let cipher = base91::decoded(stored)->Ok_0;
    let block = hctr2::hctr2_decrypted(key, encode_utf8(parent), cipher);
    vstd::utf8::decode_utf8_encode_utf8(without_leading_zeros(block));
    assert(0 <= i < 12 ==> block[i] == 0);
}

/// A path is stored name by name, each as it is stored by itself in the directory
/// that the names before it lead to.
pub proof fn law_paths_are_stored_name_by_name(
    cipher: PathCipher,
    path: &str,
    stored: String,
    i: int,
    name: &str,
    parent: &str,
    part: String,
)
    requires
        call_ensures(PathCipher::encrypt_path, (&cipher, path), Ok(stored)),
        path@.len() > 0,
        0 <= i < text::split(path@, '/').len(),
        name@ == text::split(path@, '/')[i],
        parent@ == text::join(text::split(path@, '/').take(i), '/'),
        call_ensures(PathCipher::encrypt_component, (&cipher, name, parent), Ok(part)),
    ensures
        text::split(stored@, '/').len() == text::split(path@, '/').len(),
        text::split(stored@, '/')[i] == part@,
{
    let names = text::split(path@, '/');
    let parts = stored_names(cipher.key(), names);
    text::lemma_join_split(path@, '/');
    assert forall|j: int| 0 <= j < parts.len() implies !(#[trigger] parts[j]).contains('/') by {
        let parent = text::join(names.take(j), '/');
        let bytes = encode_utf8(names[j]);
        let block = hctr2::hctr2_encrypted(
            cipher.key(),
            encode_utf8(parent),
            zero_padded(bytes, input_len(bytes.len())->0),
        );
        base91::law_encoded_is_filesystem_safe(block);
        if parts[j].contains('/') {
            let k = choose|k: int| 0 <= k < parts[j].len() && parts[j][k] == '/';
            assert(base91::encoded(block)[k] == '/');
        }
    }
    text::lemma_split_join(parts, '/');
}

/// What was stored is found again: decrypting what a path was stored as gives the
/// path, and no two paths are stored as one.
pub proof fn law_stored_paths_come_back(
    cipher: PathCipher,
    a: &str,
    b: &str,
    stored_a: String,
    stored_b: String,
)
    requires
        call_ensures(PathCipher::encrypt_path, (&cipher, a), Ok(stored_a)),
        call_ensures(PathCipher::encrypt_path, (&cipher, b), Ok(stored_b)),
    ensures
        plain_path(cipher.key(), stored_a@) == Some(a@),
        stored_a@ == stored_b@ ==> a@ == b@,
{
}

/// A name is valid exactly where it is not empty and holds neither a slash nor a
/// NUL.
pub proof fn law_valid_names(name: &str, r: Result<(), PathError>)
    requires
        call_ensures(validate_name, (name,), r),
    ensures
        r is Err <==> name@.len() == 0 || exists|i: int|
            0 <= i < name@.len() && (#[trigger] name@[i] == '/' || name@[i] == '\0'),
        r matches Err(e) ==> e == PathError::InvalidName,
{
    if name@.contains('/') {
        let i = choose|i: int| 0 <= i < name@.len() && name@[i] == '/';
        assert(name@[i] == '/');
    }
    if name@.contains('\0') {
        let i = choose|i: int| 0 <= i < name@.len() && name@[i] == '\0';
        assert(name@[i] == '\0');
    }
    if exists|i: int| 0 <= i < name@.len() && (#[trigger] name@[i] == '/' || name@[i] == '\0') {
        let i = choose|i: int|
            0 <= i < name@.len() && (#[trigger] name@[i] == '/' || name@[i] == '\0');
        assert(name@.contains(name@[i]));
    }
}

/// A path is refused for the first name in it that cannot be stored: for being no
/// name, or for being longer than 194 bytes. A path of names that can all be stored
/// is stored, and so is the empty path, as itself.
pub proof fn law_paths_are_refused_for_their_first_bad_name(
    key: Seq<u8>,
    names: Seq<Seq<char>>,
    k: int,
)
    requires
        names.len() > 0,
        text::join(names, '/').len() > 0,
        forall|i: int| 0 <= i < names.len() ==> !(#[trigger] names[i]).contains('/'),
        0 <= k <= names.len(),
        forall|i: int|
            0 <= i < k ==> (#[trigger] names[i]).len() > 0 && !names[i].contains('\0')
                && encode_utf8(names[i]).len() <= 194,
    ensures
        ({
            let r = stored_path(key, text::join(names, '/'));
            &&& k == names.len() ==> r is Ok
            &&& k < names.len() && (names[k].len() == 0 || names[k].contains('\0')) ==> r == Err::<
                Seq<char>,
                PathError,
            >(PathError::InvalidName)
            &&& k < names.len() && names[k].len() > 0 && !names[k].contains('\0') && encode_utf8(
                names[k],
            ).len() > 194 ==> r == Err::<Seq<char>, PathError>(PathError::NameTooLong)
        }),
        stored_path(key, Seq::empty()) == Ok::<Seq<char>, PathError>(Seq::empty()),
{
    text::lemma_split_join(names, '/');
    assert forall|i: int| 0 <= i < k implies name_error(#[trigger] names[i]) is None by {
        law_longest_name(names[i]);
    }
    if k < names.len() {
        law_longest_name(names[k]);
        if name_error(names[k]) is Some {
            lemma_first_name_error(names, k);
        }
    } else {
        lemma_no_name_error(names);
    }
}

/// A stored path is read name by name, each in the directory that the names before
/// it were read as, and is not read at all where one of them is not.
pub proof fn law_stored_names_are_read_in_turn(key: Seq<u8>, stored: Seq<Seq<char>>, i: int)
    requires
        0 <= i < stored.len(),
    ensures
        plain_names(key, stored) matches Some(names) ==> names.len() == stored.len() && plain_name(
            key,
            stored[i],
            text::join(names.take(i), '/'),
        ) == Some(names[i]),
        plain_names(key, stored.take(i)) matches Some(names) ==> (plain_name(
            key,
            stored[i],
            text::join(names, '/'),
        ) is None ==> plain_names(key, stored) is None),
    decreases stored.len(),
{
    let rest = stored.drop_last();
    let last = stored.len() - 1;
    law_plain_names_are_valid(key, stored);
    law_plain_names_are_valid(key, rest);
    if i < last {
        law_stored_names_are_read_in_turn(key, rest, i);
        assert(rest[i] == stored[i]);
        assert(rest.take(i) =~= stored.take(i));
        if let Some(names) = plain_names(key, stored) {
            let before = plain_names(key, rest)->0;
            assert(names.take(i) =~= before.take(i));
        }
    } else {
        assert(stored.take(i) =~= rest);
        if let Some(names) = plain_names(key, stored) {
            assert(names.take(i) =~= plain_names(key, rest)->0);
        }
    }
}

} // verus!
