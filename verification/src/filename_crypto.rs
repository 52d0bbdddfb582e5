//! Deterministic filename encryption without authentication: a name is padded
//! with zeros behind it, encrypted with HCTR2-AES-128, and base91-encoded.

use vstd::prelude::*;
use vstd::utf8::{decode_utf8, encode_utf8, valid_utf8};

use crate::base91;
use crate::error::{Error, Result};
use crate::hctr2;
use crate::text;

verus! {

/// Names are padded to at least this many bytes.
pub const MIN_PADDED_LEN: usize = 16;

/// Longest encrypted name, in bytes.
pub const FILESYSTEM_NAME_LIMIT: usize = 255;

/// What `{:?}` writes for a character.
pub uninterp spec fn debug_char(c: char) -> Seq<char>;

/// The `Debug` form of `char`, through `format`: it depends on the character
/// alone.
#[verifier::external_body]
fn format_debug_char(c: char) -> (s: String)
    ensures
        s@ == debug_char(c),
{
    format!("{c:?}")
}

/// The first byte that is no base91 symbol, if there is one.
pub open spec fn first_bad_byte(bytes: Seq<u8>) -> Option<u8>
    decreases bytes.len(),
{
    if bytes.len() == 0 {
        None
    } else if !base91::is_symbol(bytes[0] as char) {
        Some(bytes[0])
    } else {
        first_bad_byte(bytes.drop_first())
    }
}

/// What is said of text that is not base91.
pub open spec fn base91_error(name: Seq<char>, e: base91::Error) -> Seq<char> {
    match e {
        base91::Error::InvalidCharacter => "invalid base91 character: "@ + debug_char(
            first_bad_byte(encode_utf8(name))->0 as char,
        ),
        base91::Error::InvalidPadding => "invalid base91 padding"@,
    }
}

/// `bytes` with zeros behind it, up to the least length that is encrypted.
pub open spec fn tail_padded(bytes: Seq<u8>) -> Seq<u8> {
    if bytes.len() < MIN_PADDED_LEN {
        bytes + Seq::new((MIN_PADDED_LEN - bytes.len()) as nat, |i: int| 0u8)
    } else {
        bytes
    }
}

/// `bytes` without its trailing zeros.
pub open spec fn without_trailing_zeros(bytes: Seq<u8>) -> Seq<u8>
    decreases bytes.len(),
{
    if bytes.len() > 0 && bytes.last() == 0 {
        without_trailing_zeros(bytes.drop_last())
    } else {
        bytes
    }
}

/// Whether `name` is one of the two entries that stand for directories.
pub open spec fn is_dot(name: Seq<char>) -> bool {
    name == "."@ || name == ".."@
}

/// What is said of a name whose encrypted form is `n` bytes long.
pub open spec fn too_long(n: nat) -> Seq<char> {
    "encrypted filename exceeds 255 bytes ("@ + text::decimal(n) + " bytes)"@
}

/// The encrypted form of a name, or what is wrong with it.
pub open spec fn encrypted_filename(key: Seq<u8>, name: Seq<char>) -> core::result::Result<
    Seq<char>,
    Seq<char>,
> {
    let encoded = base91::encoded(
        hctr2::hctr2_encrypted(key, Seq::empty(), tail_padded(encode_utf8(name))),
    );
    if is_dot(name) {
        Ok(name)
    } else if encoded.len() > FILESYSTEM_NAME_LIMIT {
        Err(too_long(encoded.len()))
    } else {
        Ok(encoded)
    }
}

/// The name that decrypted bytes hold, or what is wrong with them.
pub open spec fn name_in_padded(plain: Seq<u8>) -> core::result::Result<Seq<char>, Seq<char>> {
    let bytes = without_trailing_zeros(plain);
    if valid_utf8(bytes) {
        Ok(decode_utf8(bytes))
    } else {
        Err("decrypted filename is not UTF-8: "@ + text::utf8_error_text(bytes))
    }
}

/// The name that an encrypted form holds, or what is wrong with it.
pub open spec fn decrypted_filename(key: Seq<u8>, name: Seq<char>) -> core::result::Result<
    Seq<char>,
    Seq<char>,
> {
    if is_dot(name) {
        Ok(name)
    } else {
        match base91::unpacked(name) {
            Err(e) => Err(base91_error(name, e)),
            Ok(cipher) => if cipher.len() < MIN_PADDED_LEN {
                Err("ciphertext too short for HCTR2"@)
            } else {
                name_in_padded(hctr2::hctr2_decrypted(key, Seq::empty(), cipher))
            },
        }
    }
}

/// The pieces of a path that are not empty.
pub open spec fn not_empty(parts: Seq<Seq<char>>) -> Seq<Seq<char>>
    decreases parts.len(),
{
    if parts.len() == 0 {
        parts
    } else if parts.last().len() == 0 {
        not_empty(parts.drop_last())
    } else {
        not_empty(parts.drop_last()).push(parts.last())
    }
}

/// `f` of every part, or the first error.
pub open spec fn all_of(
    f: spec_fn(Seq<char>) -> core::result::Result<Seq<char>, Seq<char>>,
    parts: Seq<Seq<char>>,
) -> core::result::Result<Seq<Seq<char>>, Seq<char>>
    decreases parts.len(),
{
    if parts.len() == 0 {
        Ok(Seq::empty())
    } else {
        match all_of(f, parts.drop_last()) {
            Err(e) => Err(e),
            Ok(done) => match f(parts.last()) {
                Err(e) => Err(e),
                Ok(part) => Ok(done.push(part)),
            },
        }
    }
}

/// `f` of every component of a path, joined again, or the first error.
pub open spec fn per_component(
    f: spec_fn(Seq<char>) -> core::result::Result<Seq<char>, Seq<char>>,
    path: Seq<char>,
) -> core::result::Result<Seq<char>, Seq<char>> {
    match all_of(f, not_empty(text::split(path, '/'))) {
        Err(e) => Err(e),
        Ok(parts) => Ok(text::join(parts, '/')),
    }
}

/// The encrypted form of a path, component by component.
pub open spec fn encrypted_path(key: Seq<u8>, path: Seq<char>) -> core::result::Result<
    Seq<char>,
    Seq<char>,
> {
    per_component(|name: Seq<char>| encrypted_filename(key, name), path)
}

/// The path that an encrypted path holds, component by component.
pub open spec fn decrypted_path(key: Seq<u8>, path: Seq<char>) -> core::result::Result<
    Seq<char>,
    Seq<char>,
> {
    per_component(|name: Seq<char>| decrypted_filename(key, name), path)
}

/// `path` without empty components.
pub open spec fn normalized(path: Seq<char>) -> Seq<char> {
    text::join(not_empty(text::split(path, '/')), '/')
}

/// Whether `name` survives having its trailing NULs stripped.
pub open spec fn no_trailing_nul(name: Seq<char>) -> bool {
    name.len() > 0 ==> name.last() != '\0'
}

/// Encode bytes as base91.
pub fn base91_encode(src: &[u8]) -> (s: String)
    ensures
        s@ == base91::encoded(src@),
{
    base91::encode(src)
}

proof fn lemma_bad_byte(name: Seq<char>)
    requires
        base91::unpacked(name) == Err::<Seq<u8>, base91::Error>(base91::Error::InvalidCharacter),
    ensures
        first_bad_byte(encode_utf8(name)) is Some,
{
    let bytes = encode_utf8(name);
    if first_bad_byte(bytes) is None {
        lemma_no_bad_byte(bytes);
        assert forall|i: int| 0 <= i < bytes.len() implies #[trigger] bytes[i] < 0x80 by {
            assert(base91::is_symbol(bytes[i] as char));
            base91::lemma_symbol_is_ascii(bytes[i] as char);
        }
        text::lemma_ascii_bytes(name);
        assert forall|i: int| 0 <= i < name.len() implies base91::is_symbol(#[trigger] name[i]) by {
            assert(base91::is_symbol(bytes[i] as char));
        }
    }
}

proof fn lemma_no_bad_byte(bytes: Seq<u8>)
    requires
        first_bad_byte(bytes) is None,
    ensures
        forall|i: int| 0 <= i < bytes.len() ==> base91::is_symbol(#[trigger] bytes[i] as char),
    decreases bytes.len(),
{
    if bytes.len() > 0 {
        let rest = bytes.drop_first();
        lemma_no_bad_byte(rest);
        assert forall|i: int| 0 <= i < bytes.len() implies base91::is_symbol(
            #[trigger] bytes[i] as char,
        ) by {
            if i > 0 {
                assert(bytes[i] == rest[i - 1]);
            }
        }
    }
}

/// The first byte of `bytes` that is no base91 symbol.
fn find_bad_byte(bytes: &[u8]) -> (b: u8)
    requires
        first_bad_byte(bytes@) is Some,
    ensures
        first_bad_byte(bytes@) == Some(b),
{
    let mut i: usize = 0;
    assert(bytes@.skip(0) =~= bytes@);
    while base91::has_symbol(bytes[i] as char)
        invariant
            i < bytes@.len(),
            first_bad_byte(bytes@) is Some,
            first_bad_byte(bytes@) == first_bad_byte(bytes@.skip(i as int)),
        decreases bytes@.len() - i,
    {
        assert(bytes@.skip(i as int).drop_first() =~= bytes@.skip(i + 1));
        i = i + 1;
    }
    bytes[i]
}

/// Decode base91 text.
pub fn base91_decode(src: &str) -> (r: Result<Vec<u8>>)
    ensures
        match r {
            Ok(bytes) => base91::unpacked(src@) == Ok::<Seq<u8>, base91::Error>(bytes@),
            Err(e) => base91::unpacked(src@) matches Err(cause) && e.is_encryption(
                base91_error(src@, cause),
            ),
        },
{
    match base91::unpack(src) {
        Ok(bytes) => Ok(bytes),
        Err(base91::Error::InvalidCharacter) => {
            proof {
                lemma_bad_byte(src@);
            }
            let bad: u8 = find_bad_byte(src.as_bytes());
            let mut message: String = "invalid base91 character: ".to_owned();
            message.push_str(format_debug_char(bad as char).as_str());
            Err(Error::Encryption(message))
        },
        Err(base91::Error::InvalidPadding) => Err(
            Error::Encryption("invalid base91 padding".to_owned()),
        ),
    }
}

fn is_dot_entry(name: &str) -> (r: bool)
    ensures
        r == is_dot(name@),
{
    text::eq(name, ".") || text::eq(name, "..")
}

proof fn lemma_strip_tail(bytes: Seq<u8>, k: nat)
    requires
        bytes.len() > 0 ==> bytes.last() != 0,
    ensures
        without_trailing_zeros(bytes + Seq::new(k, |i: int| 0u8)) == bytes,
    decreases k,
{
    let padded = bytes + Seq::new(k, |i: int| 0u8);
    if k > 0 {
        assert(padded.drop_last() =~= bytes + Seq::new((k - 1) as nat, |i: int| 0u8));
        lemma_strip_tail(bytes, (k - 1) as nat);
    } else {
        assert(padded =~= bytes);
    }
}

/// A name that does not end in NUL is not encoded with a zero byte last.
proof fn lemma_last_byte(name: Seq<char>)
    requires
        name.len() > 0,
        name.last() != '\0',
    ensures
        encode_utf8(name).len() > 0,
        encode_utf8(name).last() != 0,
{
    let c = name.last() as u32;
    vstd::utf8::char_u32_cast(name.last(), c);
    vstd::utf8::char_is_scalar(name.last());
    assert(name =~= name.drop_last() + seq![name.last()]);
    text::lemma_encode_concat(name.drop_last(), seq![name.last()]);
    let one = seq![name.last()];
    assert(one.drop_first() =~= Seq::empty());
    reveal_with_fuel(encode_utf8, 2);
    assert(encode_utf8(one.drop_first()).len() == 0);
    assert(encode_utf8(one) =~= vstd::utf8::encode_scalar(c));
    assert(1 <= c <= 0x7F ==> (c & 0x7F) as u8 != 0) by (bit_vector);
    let a: u8 = (c & 0x3F) as u8;
    assert(0x80 | a != 0) by (bit_vector);
    assert(encode_utf8(name).last() == encode_utf8(one).last());
}

/// Encrypt one name. `.` and `..` stand for themselves. What comes out
/// decrypts to the name, unless the name ends in NUL.
pub fn encrypt_filename(name: &str, key: &[u8; 16]) -> (r: Result<String>)
    ensures
        match r {
            Ok(s) => {
                &&& encrypted_filename(key@, name@) == Ok::<Seq<char>, Seq<char>>(s@)
                &&& no_trailing_nul(name@) ==> decrypted_filename(key@, s@) == Ok::<
                    Seq<char>,
                    Seq<char>,
                >(name@)
                &&& s@.len() > 0
                &&& !s@.contains('/')
            },
            Err(e) => encrypted_filename(key@, name@) matches Err(m) && e.is_encryption(m),
        },
{
    if is_dot_entry(name) {
        proof {
            reveal_strlit(".");
            reveal_strlit("..");
        }
        return Ok(name.to_owned());
    }
    let bytes: &[u8] = name.as_bytes();
    let mut padded: Vec<u8> = vstd::slice::slice_to_vec(bytes);
    while padded.len() < MIN_PADDED_LEN
        invariant
            padded@.len() >= bytes@.len(),
            padded@ == bytes@ + Seq::new((padded@.len() - bytes@.len()) as nat, |i: int| 0u8),
            padded@.len() > bytes@.len() ==> padded@.len() <= MIN_PADDED_LEN,
        decreases MIN_PADDED_LEN - padded@.len(),
    {
        padded.push(0);
        assert(padded@ =~= bytes@ + Seq::new((padded@.len() - bytes@.len()) as nat, |i: int| 0u8));
    }
    let ghost extra = (padded@.len() - bytes@.len()) as nat;
    assert(padded@ =~= tail_padded(bytes@));
    let tweak: Vec<u8> = Vec::new();
    let cipher: Vec<u8> = hctr2::hctr2_encrypt(key, tweak.as_slice(), padded.as_slice());
    let encoded: String = base91_encode(cipher.as_slice());
    assert(tweak@ =~= Seq::empty());
    proof {
        base91::law_encoded_is_filesystem_safe(cipher@);
        base91::law_encoded_len_within_bound(cipher@);
        base91::lemma_unpack_inverts_encode(cipher@);
        base91::lemma_encoded_at_least(cipher@);
        vstd::utf8::is_ascii_chars_encode_utf8(encoded@);
        reveal_strlit(".");
        reveal_strlit("..");
        if no_trailing_nul(name@) {
            if name@.len() > 0 {
                lemma_last_byte(name@);
            }
            lemma_strip_tail(bytes@, extra);
            vstd::utf8::encode_utf8_valid_utf8(name@);
            vstd::utf8::encode_utf8_decode_utf8(name@);
        }
    }
    let len: usize = encoded.as_str().as_bytes().len();
    if len > FILESYSTEM_NAME_LIMIT {
        let mut message: String = "encrypted filename exceeds 255 bytes (".to_owned();
        text::push_decimal(&mut message, len as u64);
        message.push_str(" bytes)");
        return Err(Error::Encryption(message));
    }
    Ok(encoded)
}

/// Decrypt one name.
pub fn decrypt_filename(name: &str, key: &[u8; 16]) -> (r: Result<String>)
    ensures
        match r {
            Ok(s) => decrypted_filename(key@, name@) == Ok::<Seq<char>, Seq<char>>(s@),
            Err(e) => decrypted_filename(key@, name@) matches Err(m) && e.is_encryption(m),
        },
{
    if is_dot_entry(name) {
        return Ok(name.to_owned());
    }
    let cipher: Vec<u8> = match base91_decode(name) {
        Ok(c) => c,
        Err(e) => {
            return Err(e);
        },
    };
    if cipher.len() < MIN_PADDED_LEN {
        return Err(Error::Encryption("ciphertext too short for HCTR2".to_owned()));
    }
    let tweak: Vec<u8> = Vec::new();
    let plain: Vec<u8> = hctr2::hctr2_decrypt(key, tweak.as_slice(), cipher.as_slice());
    assert(tweak@ =~= Seq::empty());
    name_from_padded(plain)
}

/// The name that decrypted bytes hold: what is left without trailing zeros, if
/// that is text.
pub fn name_from_padded(plain: Vec<u8>) -> (r: Result<String>)
    ensures
        match r {
            Ok(s) => name_in_padded(plain@) == Ok::<Seq<char>, Seq<char>>(s@),
            Err(e) => name_in_padded(plain@) matches Err(m) && e.is_encryption(m),
        },
{
    let mut bytes: Vec<u8> = plain;
    let ghost padded = plain@;
    while bytes.len() > 0 && bytes[bytes.len() - 1] == 0
        invariant
            without_trailing_zeros(padded) == without_trailing_zeros(bytes@),
        decreases bytes@.len(),
    {
        let ghost before = bytes@;
        bytes.pop();
        assert(bytes@ =~= before.drop_last());
    }
    match text::string_from_utf8(bytes) {
        Ok(s) => Ok(s),
        Err(why) => {
            let mut message: String = "decrypted filename is not UTF-8: ".to_owned();
            message.push_str(why.as_str());
            Err(Error::Encryption(message))
        },
    }
}

/// Components without `/` that are not empty are what a split of their joined
/// path finds again.
proof fn lemma_not_empty_of_split(parts: Seq<Seq<char>>)
    requires
        forall|i: int|
            0 <= i < parts.len() ==> (#[trigger] parts[i]).len() > 0 && !parts[i].contains('/'),
    ensures
        not_empty(text::split(text::join(parts, '/'), '/')) == parts,
{
    if parts.len() == 0 {
        let s = text::join(parts, '/');
        assert(text::split(s, '/') =~= seq![s]);
        let one = seq![s];
        assert(one.drop_last() =~= Seq::empty());
        reveal_with_fuel(not_empty, 2);
        assert(not_empty(one) =~= parts);
    } else {
        text::lemma_split_join(parts, '/');
        lemma_not_empty_identity(parts);
    }
}

proof fn lemma_not_empty_identity(parts: Seq<Seq<char>>)
    requires
        forall|i: int| 0 <= i < parts.len() ==> (#[trigger] parts[i]).len() > 0,
    ensures
        not_empty(parts) == parts,
    decreases parts.len(),
{
    if parts.len() > 0 {
        assert(parts[parts.len() - 1].len() > 0);
        lemma_not_empty_identity(parts.drop_last());
        assert(parts.drop_last().push(parts.last()) =~= parts);
    }
}

/// An error in the first parts is the error of the whole.
proof fn lemma_all_of_prefix(
    f: spec_fn(Seq<char>) -> core::result::Result<Seq<char>, Seq<char>>,
    parts: Seq<Seq<char>>,
    k: int,
)
    requires
        0 <= k <= parts.len(),
        all_of(f, parts.take(k)) is Err,
    ensures
        all_of(f, parts) == all_of(f, parts.take(k)),
    decreases parts.len(),
{
    if k == parts.len() {
        assert(parts.take(k) =~= parts);
    } else {
        assert(parts.drop_last().take(k) =~= parts.take(k));
        lemma_all_of_prefix(f, parts.drop_last(), k);
    }
}

/// The first parts of a list that count are the first of those that count.
proof fn lemma_not_empty_prefix(parts: Seq<Seq<char>>, k: int)
    requires
        0 <= k <= parts.len(),
    ensures
        not_empty(parts.take(k)).len() <= not_empty(parts).len(),
        not_empty(parts).take(not_empty(parts.take(k)).len() as int) == not_empty(parts.take(k)),
    decreases parts.len(),
{
    if k == parts.len() {
        assert(parts.take(k) =~= parts);
        assert(not_empty(parts).take(not_empty(parts).len() as int) =~= not_empty(parts));
    } else {
        let rest = parts.drop_last();
        assert(rest.take(k) =~= parts.take(k));
        lemma_not_empty_prefix(rest, k);
        let n = not_empty(parts.take(k)).len() as int;
        assert(not_empty(parts).take(n) =~= not_empty(rest).take(n));
    }
}

/// Parts that `g` takes back one by one are taken back together.
proof fn lemma_all_of_inverse(
    g: spec_fn(Seq<char>) -> core::result::Result<Seq<char>, Seq<char>>,
    coded: Seq<Seq<char>>,
    parts: Seq<Seq<char>>,
)
    requires
        coded.len() == parts.len(),
        forall|i: int|
            0 <= i < parts.len() ==> g(#[trigger] coded[i]) == Ok::<Seq<char>, Seq<char>>(parts[i]),
    ensures
        all_of(g, coded) == Ok::<Seq<Seq<char>>, Seq<char>>(parts),
    decreases parts.len(),
{
    if parts.len() > 0 {
        let c = coded.drop_last();
        let p = parts.drop_last();
        assert forall|i: int| 0 <= i < p.len() implies g(#[trigger] c[i]) == Ok::<
            Seq<char>,
            Seq<char>,
        >(p[i]) by {
            assert(c[i] == coded[i]);
        }
        lemma_all_of_inverse(g, c, p);
        assert(coded[coded.len() - 1] == coded.last());
        assert(p.push(parts.last()) =~= parts);
    } else {
        assert(parts =~= Seq::empty());
    }
}

/// Encrypt a path, component by component; empty components are dropped. What
/// comes out decrypts to the path without them, unless a component ends in
/// NUL.
pub fn encrypt_path(path: &str, key: &[u8; 16]) -> (r: Result<String>)
    ensures
        match r {
            Ok(s) => {
                &&& encrypted_path(key@, path@) == Ok::<Seq<char>, Seq<char>>(s@)
                &&& (forall|i: int|
                    0 <= i < text::split(path@, '/').len() ==> no_trailing_nul(
                        #[trigger] text::split(path@, '/')[i],
                    )) ==> decrypted_path(key@, s@) == Ok::<Seq<char>, Seq<char>>(
                    normalized(path@),
                )
            },
            Err(e) => encrypted_path(key@, path@) matches Err(m) && e.is_encryption(m),
        },
{
    let comps: Vec<String> = text::split_on(path, '/');
    let ghost pieces = text::split(path@, '/');
    let ghost f = |name: Seq<char>| encrypted_filename(key@, name);
    let ghost g = |name: Seq<char>| decrypted_filename(key@, name);
    let mut out: Vec<String> = Vec::new();
    let ghost mut names: Seq<Seq<char>> = Seq::empty();
    let mut i: usize = 0;
    proof {
        text::lemma_split_pieces(path@, '/');
        assert(text::views(out@) =~= Seq::empty());
        assert(pieces.take(0) =~= Seq::empty());
    }
    while i < comps.len()
        invariant
            i <= comps@.len(),
            pieces == text::views(comps@),
            pieces == text::split(path@, '/'),
            f == (|name: Seq<char>| encrypted_filename(key@, name)),
            names == not_empty(pieces.take(i as int)),
            out@.len() == names.len(),
            all_of(f, names) == Ok::<Seq<Seq<char>>, Seq<char>>(text::views(out@)),
            forall|j: int|
                0 <= j < out@.len() ==> {
                    &&& (#[trigger] out@[j])@.len() > 0
                    &&& !out@[j]@.contains('/')
                    &&& no_trailing_nul(names[j]) ==> decrypted_filename(key@, out@[j]@) == Ok::<
                        Seq<char>,
                        Seq<char>,
                    >(names[j])
                },
        decreases comps@.len() - i,
    {
        let ghost piece = pieces[i as int];
        proof {
            assert(piece == comps@[i as int]@);
            assert(pieces.take(i + 1).drop_last() =~= pieces.take(i as int));
            assert(pieces.take(i + 1).last() == piece);
            lemma_not_empty_prefix(pieces, i + 1);
        }
        if !comps[i].as_str().is_empty() {
            let ghost next = names.push(piece);
            assert(next.drop_last() =~= names);
            match encrypt_filename(comps[i].as_str(), key) {
                Ok(part) => {
                    let ghost before = out@;
                    out.push(part);
                    proof {
                        assert(text::views(out@) =~= text::views(before).push(part@));
                        names = next;
                    }
                },
                Err(e) => {
                    proof {
                        assert(all_of(f, next) is Err);
                        lemma_all_of_prefix(f, not_empty(pieces), next.len() as int);
                    }
                    return Err(e);
                },
            }
        }
        i = i + 1;
    }
    proof {
        assert(pieces.take(pieces.len() as int) =~= pieces);
        let coded = text::views(out@);
        assert forall|j: int| 0 <= j < coded.len() implies (#[trigger] coded[j]).len() > 0
            && !coded[j].contains('/') by {
            assert(coded[j] == out@[j]@);
        }
        lemma_not_empty_of_split(coded);
        if forall|j: int| 0 <= j < pieces.len() ==> no_trailing_nul(#[trigger] pieces[j]) {
            lemma_not_empty_from(pieces);
            assert forall|j: int| 0 <= j < names.len() implies g(#[trigger] coded[j]) == Ok::<
                Seq<char>,
                Seq<char>,
            >(names[j]) by {
                assert(coded[j] == out@[j]@);
                assert(pieces.contains(names[j]));
                let k = choose|k: int| 0 <= k < pieces.len() && pieces[k] == names[j];
                assert(no_trailing_nul(pieces[k]));
            }
            lemma_all_of_inverse(g, coded, names);
        }
    }
    Ok(text::join_with(&out, '/'))
}

proof fn lemma_not_empty_from(parts: Seq<Seq<char>>)
    ensures
        forall|i: int| 0 <= i < not_empty(parts).len() ==> parts.contains(
            #[trigger] not_empty(parts)[i],
        ),
    decreases parts.len(),
{
    if parts.len() > 0 {
        let rest = parts.drop_last();
        lemma_not_empty_from(rest);
        assert forall|i: int| 0 <= i < not_empty(parts).len() implies parts.contains(
            #[trigger] not_empty(parts)[i],
        ) by {
            if i < not_empty(rest).len() {
                assert(not_empty(parts)[i] == not_empty(rest)[i]);
                let k = choose|k: int| 0 <= k < rest.len() && rest[k] == not_empty(rest)[i];
                assert(parts[k] == not_empty(parts)[i]);
            } else {
                assert(parts[parts.len() - 1] == not_empty(parts)[i]);
            }
        }
    }
}

/// Decrypt a path, component by component; empty components are dropped.
pub fn decrypt_path(path: &str, key: &[u8; 16]) -> (r: Result<String>)
    ensures
        match r {
            Ok(s) => decrypted_path(key@, path@) == Ok::<Seq<char>, Seq<char>>(s@),
            Err(e) => decrypted_path(key@, path@) matches Err(m) && e.is_encryption(m),
        },
{
    let comps: Vec<String> = text::split_on(path, '/');
    let ghost pieces = text::split(path@, '/');
    let ghost g = |name: Seq<char>| decrypted_filename(key@, name);
    let mut out: Vec<String> = Vec::new();
    let mut i: usize = 0;
    proof {
        assert(text::views(out@) =~= Seq::empty());
        assert(pieces.take(0) =~= Seq::empty());
    }
    while i < comps.len()
        invariant
            i <= comps@.len(),
            pieces == text::views(comps@),
            pieces == text::split(path@, '/'),
            g == (|name: Seq<char>| decrypted_filename(key@, name)),
            all_of(g, not_empty(pieces.take(i as int))) == Ok::<Seq<Seq<char>>, Seq<char>>(
                text::views(out@),
            ),
        decreases comps@.len() - i,
    {
        let ghost names = not_empty(pieces.take(i as int));
        let ghost piece = pieces[i as int];
        proof {
            assert(piece == comps@[i as int]@);
            assert(pieces.take(i + 1).drop_last() =~= pieces.take(i as int));
            assert(pieces.take(i + 1).last() == piece);
            lemma_not_empty_prefix(pieces, i + 1);
        }
        if !comps[i].as_str().is_empty() {
            let ghost next = names.push(piece);
            assert(next.drop_last() =~= names);
            match decrypt_filename(comps[i].as_str(), key) {
                Ok(part) => {
                    let ghost before = out@;
                    out.push(part);
                    assert(text::views(out@) =~= text::views(before).push(part@));
                },
                Err(e) => {
                    proof {
                        assert(all_of(g, next) is Err);
                        lemma_all_of_prefix(g, not_empty(pieces), next.len() as int);
                    }
                    return Err(e);
                },
            }
        }
        i = i + 1;
    }
    assert(pieces.take(pieces.len() as int) =~= pieces);
    Ok(text::join_with(&out, '/'))
}

/// Short names are padded with zeros to sixteen bytes, and longer ones are left as
/// they are.
pub proof fn law_short_names_are_padded(bytes: Seq<u8>, i: int)
    ensures
        ({
            let padded = tail_padded(bytes);
            &&& bytes.len() <= 16 ==> padded.len() == 16
            &&& bytes.len() >= 16 ==> padded == bytes
            &&& padded.take(bytes.len() as int) == bytes
            &&& bytes.len() <= i < padded.len() ==> padded[i] == 0
        }),
{
    assert(tail_padded(bytes).take(bytes.len() as int) =~= bytes);
    assert(bytes.len() == 16 ==> tail_padded(bytes) =~= bytes);
}

/// Stripping zeros takes off all that stand at the end and nothing else.
pub proof fn law_trailing_zeros_are_stripped(bytes: Seq<u8>, i: int)
    ensures
        ({
            let rest = without_trailing_zeros(bytes);
            &&& rest.len() <= bytes.len()
            &&& rest == bytes.take(rest.len() as int)
            &&& rest.len() > 0 ==> rest.last() != 0
            &&& rest.len() <= i < bytes.len() ==> bytes[i] == 0
        }),
    decreases bytes.len(),
{
    if bytes.len() > 0 && bytes.last() == 0 {
        let rest = bytes.drop_last();
        law_trailing_zeros_are_stripped(rest, i);
        let n = without_trailing_zeros(bytes).len() as int;
        assert(rest.take(n) =~= bytes.take(n));
        if 0 <= i < rest.len() {
            assert(rest[i] == bytes[i]);
        }
    } else {
        assert(bytes.take(bytes.len() as int) =~= bytes);
    }
}

/// The entries for a directory itself and for the one above it stand for
/// themselves.
pub proof fn law_dots_stand_for_themselves(key: Seq<u8>)
    ensures
        encrypted_filename(key, seq!['.']) == Ok::<Seq<char>, Seq<char>>(seq!['.']),
        encrypted_filename(key, seq!['.', '.']) == Ok::<Seq<char>, Seq<char>>(seq!['.', '.']),
        decrypted_filename(key, seq!['.']) == Ok::<Seq<char>, Seq<char>>(seq!['.']),
        decrypted_filename(key, seq!['.', '.']) == Ok::<Seq<char>, Seq<char>>(seq!['.', '.']),
{
    reveal_strlit(".");
    reveal_strlit("..");
    assert("."@ =~= seq!['.']);
    assert(".."@ =~= seq!['.', '.']);
}

/// Every other name is encrypted as a whole: what it is encrypted as is base91 of
/// its ciphertext, whatever directory it stands in, or it is refused for its length.
pub proof fn law_names_are_encrypted_whole(key: Seq<u8>, name: Seq<char>)
    requires
        name != seq!['.'],
        name != seq!['.', '.'],
    ensures
        ({
            let bytes = encode_utf8(name);
            let zeros = if bytes.len() < 16 {
                (16 - bytes.len()) as nat
            } else {
                0
            };
            let cipher = hctr2::hctr2_encrypted(
                key,
                Seq::empty(),
                bytes + Seq::new(zeros, |i: int| 0u8),
            );
            &&& encrypted_filename(key, name) is Ok <==> base91::encoded(cipher).len() <= 255
            &&& encrypted_filename(key, name) is Ok ==> encrypted_filename(key, name)->Ok_0
                == base91::encoded(cipher)
        }),
{
    reveal_strlit(".");
    reveal_strlit("..");
    assert("."@ =~= seq!['.']);
    assert(".."@ =~= seq!['.', '.']);
    let bytes = encode_utf8(name);
    assert(bytes.len() >= 16 ==> bytes + Seq::new(0, |i: int| 0u8) =~= bytes);
}

/// What was encrypted is found again: decrypting the encrypted form of a name gives
/// the name, and no two names have one encrypted form. (Names that end in NUL are
/// not found again.)
pub proof fn law_encrypted_names_come_back(
    key: [u8; 16],
    a: &str,
    b: &str,
    coded_a: String,
    coded_b: String,
    coded: &str,
    plain: Result<String>,
)
    requires
        call_ensures(encrypt_filename, (a, &key), Ok(coded_a)),
        call_ensures(encrypt_filename, (b, &key), Ok(coded_b)),
        coded@ == coded_a@,
        call_ensures(decrypt_filename, (coded, &key), plain),
        a@.len() > 0 ==> a@.last() != '\0',
        b@.len() > 0 ==> b@.last() != '\0',
    ensures
        plain is Ok && plain->Ok_0@ == a@,
        coded_a@ == coded_b@ ==> a@ == b@,
{
}

/// Empty components are those that do not count.
pub proof fn law_empty_components_do_not_count(parts: Seq<Seq<char>>)
    ensures
        not_empty(parts) == parts.filter(|p: Seq<char>| p.len() > 0),
    decreases parts.len(),
{
    reveal(Seq::filter);
    if parts.len() > 0 {
        law_empty_components_do_not_count(parts.drop_last());
    }
}

/// A path is worked on component by component: where `f` makes something of every
/// component, it makes that of the path, with slashes in between.
pub proof fn law_paths_are_worked_on_by_component(
    f: spec_fn(Seq<char>) -> core::result::Result<Seq<char>, Seq<char>>,
    parts: Seq<Seq<char>>,
    coded: Seq<Seq<char>>,
)
    requires
        coded.len() == parts.len(),
        forall|i: int|
            0 <= i < parts.len() ==> (#[trigger] parts[i]).len() > 0 && !parts[i].contains('/')
                && f(parts[i]) == Ok::<Seq<char>, Seq<char>>(coded[i]),
    ensures
        per_component(f, text::join(parts, '/')) == Ok::<Seq<char>, Seq<char>>(
            text::join(coded, '/'),
        ),
{
    assert forall|i: int| 0 <= i < parts.len() implies (#[trigger] parts[i]).len() > 0
        && !parts[i].contains('/') by {}
    lemma_not_empty_of_split(parts);
    lemma_all_of_inverse(f, parts, coded);
}

/// Slashes that lead nowhere do not count, at the beginning, at the end or in a row.
pub proof fn law_needless_slashes_do_not_count(
    f: spec_fn(Seq<char>) -> core::result::Result<Seq<char>, Seq<char>>,
    parts: Seq<Seq<char>>,
    at: int,
)
    requires
        parts.len() > 0,
        0 <= at <= parts.len(),
        forall|i: int| 0 <= i < parts.len() ==> !(#[trigger] parts[i]).contains('/'),
    ensures
        per_component(f, text::join(parts.insert(at, Seq::empty()), '/')) == per_component(
            f,
            text::join(parts, '/'),
        ),
{
    let more = parts.insert(at, Seq::empty());
    assert forall|i: int| 0 <= i < more.len() implies !(#[trigger] more[i]).contains('/') by {
        if i < at {
            assert(more[i] == parts[i]);
        } else if i > at {
            assert(more[i] == parts[i - 1]);
        }
    }
    text::lemma_split_join(parts, '/');
    text::lemma_split_join(more, '/');
    lemma_not_empty_insert(parts, at);
}

proof fn lemma_not_empty_insert(parts: Seq<Seq<char>>, at: int)
    requires
        0 <= at <= parts.len(),
    ensures
        not_empty(parts.insert(at, Seq::empty())) == not_empty(parts),
    decreases parts.len(),
{
    let more = parts.insert(at, Seq::empty());
    if at == parts.len() {
        assert(more.drop_last() =~= parts);
    } else {
        let rest = parts.drop_last();
        lemma_not_empty_insert(rest, at);
        assert(more.drop_last() =~= rest.insert(at, Seq::empty()));
        assert(more.last() == parts.last());
    }
}

/// A ciphertext of at least sixteen bytes is decrypted and read, whatever directory
/// it stands in; a shorter one is refused, and so is text that is no base91.
pub proof fn law_short_ciphertexts_are_refused(key: Seq<u8>, name: Seq<char>)
    requires
        name != seq!['.'],
        name != seq!['.', '.'],
    ensures
        base91::unpacked(name) is Err ==> decrypted_filename(key, name) is Err,
        base91::unpacked(name) matches Ok(cipher) ==> (cipher.len() < 16 ==> decrypted_filename(
            key,
            name,
        ) is Err),
        base91::unpacked(name) matches Ok(cipher) ==> (cipher.len() >= 16 ==> decrypted_filename(
            key,
            name,
        ) == name_in_padded(hctr2::hctr2_decrypted(key, Seq::empty(), cipher))),
{
    reveal_strlit(".");
    reveal_strlit("..");
    assert("."@ =~= seq!['.']);
    assert(".."@ =~= seq!['.', '.']);
}

/// Decrypted bytes hold the name in front of their zeros, if that is text.
pub proof fn law_name_stands_before_zeros(name: Seq<char>, zeros: nat)
    requires
        name.len() > 0 ==> name.last() != '\0',
    ensures
        name_in_padded(encode_utf8(name) + Seq::new(zeros, |i: int| 0u8)) == Ok::<
            Seq<char>,
            Seq<char>,
        >(name),
{
    if name.len() > 0 {
        lemma_last_byte(name);
    } else {
        assert(encode_utf8(name).len() == 0);
    }
    lemma_strip_tail(encode_utf8(name), zeros);
    vstd::utf8::encode_utf8_valid_utf8(name);
    vstd::utf8::encode_utf8_decode_utf8(name);
}

} // verus!
