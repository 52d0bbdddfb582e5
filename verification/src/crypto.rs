//! Per-file content encryption: algorithms, keys, and the content type that
//! describes an encrypted object.

use base64::engine::{DecodePaddingMode, GeneralPurpose, GeneralPurposeConfig};
use vstd::prelude::*;
use vstd::utf8::{decode_utf8, encode_utf8, valid_utf8};

use crate::error::{Error, Result};
use crate::hkdf;
use crate::text;

verus! {

pub const MASTER_KEY_LEN: usize = 32;

/// Chunk size of an encrypted file whose metadata names none.
pub const DEFAULT_CHUNK_SIZE: u32 = 65536;

/// How much is moved at a time when a file is encrypted or decrypted.
pub const COPY_BUF_SIZE: usize = 65536;

/// Media type of encrypted objects.
pub const CONTENT_TYPE_PREFIX: &'static str = "application/vnd.hf-mount+enc";

/// The AEGIS variant that a file is encrypted with.
#[derive(Debug, Clone, Copy, PartialEq, Eq, Structural)]
pub enum Algorithm {
    Aegis128L,
    Aegis128X2,
    Aegis128X4,
    Aegis256,
    Aegis256X2,
    Aegis256X4,
}

impl Algorithm {
    /// Key length in bytes.
    pub open spec fn spec_key_len(self) -> usize {
        match self {
            Algorithm::Aegis128L => 16,
            Algorithm::Aegis128X2 => 16,
            Algorithm::Aegis128X4 => 16,
            Algorithm::Aegis256 => 32,
            Algorithm::Aegis256X2 => 32,
            Algorithm::Aegis256X4 => 32,
        }
    }

    /// The name of this algorithm.
    pub open spec fn name(self) -> Seq<char> {
        match self {
            Algorithm::Aegis128L => "aegis-128l"@,
            Algorithm::Aegis128X2 => "aegis-128x2"@,
            Algorithm::Aegis128X4 => "aegis-128x4"@,
            Algorithm::Aegis256 => "aegis-256"@,
            Algorithm::Aegis256X2 => "aegis-256x2"@,
            Algorithm::Aegis256X4 => "aegis-256x4"@,
        }
    }

    /// The scheme that metadata gives for this algorithm.
    pub open spec fn scheme_name(self) -> Seq<char> {
        match self {
            Algorithm::Aegis128L => "aegis-128l-raf"@,
            Algorithm::Aegis128X2 => "aegis-128x2-raf"@,
            Algorithm::Aegis128X4 => "aegis-128x4-raf"@,
            Algorithm::Aegis256 => "aegis-256-raf"@,
            Algorithm::Aegis256X2 => "aegis-256x2-raf"@,
            Algorithm::Aegis256X4 => "aegis-256x4-raf"@,
        }
    }

    /// Key length in bytes.
    pub fn key_len(self) -> (n: usize)
        ensures
            n == self.spec_key_len(),
    {
        match self {
            Algorithm::Aegis128L => 16,
            Algorithm::Aegis128X2 => 16,
            Algorithm::Aegis128X4 => 16,
            Algorithm::Aegis256 => 32,
            Algorithm::Aegis256X2 => 32,
            Algorithm::Aegis256X4 => 32,
        }
    }

    /// The scheme that metadata gives for this algorithm.
    pub fn scheme(self) -> (s: &'static str)
        ensures
            s@ == self.scheme_name(),
    {
        match self {
            Algorithm::Aegis128L => "aegis-128l-raf",
            Algorithm::Aegis128X2 => "aegis-128x2-raf",
            Algorithm::Aegis128X4 => "aegis-128x4-raf",
            Algorithm::Aegis256 => "aegis-256-raf",
            Algorithm::Aegis256X2 => "aegis-256x2-raf",
            Algorithm::Aegis256X4 => "aegis-256x4-raf",
        }
    }

    /// The algorithm of a scheme.
    pub fn from_scheme(s: &str) -> (r: Option<Algorithm>)
        ensures
            r == algorithm_of_scheme(s@),
    {
        if text::eq(s, "aegis-128l-raf") {
            Some(Algorithm::Aegis128L)
        } else if text::eq(s, "aegis-128x2-raf") {
            Some(Algorithm::Aegis128X2)
        } else if text::eq(s, "aegis-128x4-raf") {
            Some(Algorithm::Aegis128X4)
        } else if text::eq(s, "aegis-256-raf") {
            Some(Algorithm::Aegis256)
        } else if text::eq(s, "aegis-256x2-raf") {
            Some(Algorithm::Aegis256X2)
        } else if text::eq(s, "aegis-256x4-raf") {
            Some(Algorithm::Aegis256X4)
        } else {
            None
        }
    }

    /// The name of this algorithm.
    pub fn to_string(&self) -> (s: String)
        ensures
            s@ == self.name(),
    {
        match self {
            Algorithm::Aegis128L => "aegis-128l".to_owned(),
            Algorithm::Aegis128X2 => "aegis-128x2".to_owned(),
            Algorithm::Aegis128X4 => "aegis-128x4".to_owned(),
            Algorithm::Aegis256 => "aegis-256".to_owned(),
            Algorithm::Aegis256X2 => "aegis-256x2".to_owned(),
            Algorithm::Aegis256X4 => "aegis-256x4".to_owned(),
        }
    }

    /// The algorithm with the given name.
    pub fn from_name(s: &str) -> (r: Result<Algorithm>)
        ensures
            match r {
                Ok(a) => algorithm_of_name(s@) == Some(a),
                Err(e) => algorithm_of_name(s@) is None && e.is_encryption(
                    "unknown algorithm: "@ + s@,
                ),
            },
    {
        if text::eq(s, "aegis-128l") {
            Ok(Algorithm::Aegis128L)
        } else if text::eq(s, "aegis-128x2") {
            Ok(Algorithm::Aegis128X2)
        } else if text::eq(s, "aegis-128x4") {
            Ok(Algorithm::Aegis128X4)
        } else if text::eq(s, "aegis-256") {
            Ok(Algorithm::Aegis256)
        } else if text::eq(s, "aegis-256x2") {
            Ok(Algorithm::Aegis256X2)
        } else if text::eq(s, "aegis-256x4") {
            Ok(Algorithm::Aegis256X4)
        } else {
            let mut message: String = "unknown algorithm: ".to_owned();
            message.push_str(s);
            Err(Error::Encryption(message))
        }
    }
}

impl core::str::FromStr for Algorithm {
    type Err = Error;

    fn from_str(s: &str) -> (r: Result<Self>)
        ensures
            match r {
                Ok(a) => algorithm_of_name(s@) == Some(a),
                Err(e) => algorithm_of_name(s@) is None && e.is_encryption(
                    "unknown algorithm: "@ + s@,
                ),
            },
    {
        Algorithm::from_name(s)
    }
}

/// The algorithm whose scheme is `s`.
pub open spec fn algorithm_of_scheme(s: Seq<char>) -> Option<Algorithm> {
    if s == "aegis-128l-raf"@ {
        Some(Algorithm::Aegis128L)
    } else if s == "aegis-128x2-raf"@ {
        Some(Algorithm::Aegis128X2)
    } else if s == "aegis-128x4-raf"@ {
        Some(Algorithm::Aegis128X4)
    } else if s == "aegis-256-raf"@ {
        Some(Algorithm::Aegis256)
    } else if s == "aegis-256x2-raf"@ {
        Some(Algorithm::Aegis256X2)
    } else if s == "aegis-256x4-raf"@ {
        Some(Algorithm::Aegis256X4)
    } else {
        None
    }
}

/// The algorithm whose name is `s`.
pub open spec fn algorithm_of_name(s: Seq<char>) -> Option<Algorithm> {
    if s == "aegis-128l"@ {
        Some(Algorithm::Aegis128L)
    } else if s == "aegis-128x2"@ {
        Some(Algorithm::Aegis128X2)
    } else if s == "aegis-128x4"@ {
        Some(Algorithm::Aegis128X4)
    } else if s == "aegis-256"@ {
        Some(Algorithm::Aegis256)
    } else if s == "aegis-256x2"@ {
        Some(Algorithm::Aegis256X2)
    } else if s == "aegis-256x4"@ {
        Some(Algorithm::Aegis256X4)
    } else {
        None
    }
}

/// Every algorithm is found again by its scheme.
pub proof fn law_scheme_round_trip(a: Algorithm)
    ensures
        algorithm_of_scheme(a.scheme_name()) == Some(a),
{
    reveal_strlit("aegis-128l-raf");
    reveal_strlit("aegis-128x2-raf");
    reveal_strlit("aegis-128x4-raf");
    reveal_strlit("aegis-256-raf");
    reveal_strlit("aegis-256x2-raf");
    reveal_strlit("aegis-256x4-raf");
    let s = a.scheme_name();
    assert(s[6] == a.scheme_name()[6] && s[9] == a.scheme_name()[9] && s[10] == a.scheme_name()[10]);
    assert("aegis-128l-raf"@[9] == 'l' && "aegis-128l-raf"@[6] == '1');
    assert("aegis-128x2-raf"@[10] == '2' && "aegis-128x2-raf"@[6] == '1');
    assert("aegis-128x4-raf"@[10] == '4' && "aegis-128x4-raf"@[6] == '1');
    assert("aegis-256-raf"@[9] == '-' && "aegis-256-raf"@[6] == '2');
    assert("aegis-256x2-raf"@[10] == '2' && "aegis-256x2-raf"@[6] == '2');
    assert("aegis-256x4-raf"@[10] == '4' && "aegis-256x4-raf"@[6] == '2');
    assert("aegis-128x2-raf"@[9] == 'x' && "aegis-128x4-raf"@[9] == 'x');
    assert("aegis-256x2-raf"@[9] == 'x' && "aegis-256x4-raf"@[9] == 'x');
}

/// Every algorithm is found again by its name.
pub proof fn law_name_round_trip(a: Algorithm)
    ensures
        algorithm_of_name(a.name()) == Some(a),
{
    reveal_strlit("aegis-128l");
    reveal_strlit("aegis-128x2");
    reveal_strlit("aegis-128x4");
    reveal_strlit("aegis-256");
    reveal_strlit("aegis-256x2");
    reveal_strlit("aegis-256x4");
    assert("aegis-128l"@.len() == 10 && "aegis-256"@.len() == 9);
    assert("aegis-128x2"@[10] == '2' && "aegis-128x2"@[6] == '1');
    assert("aegis-128x4"@[10] == '4' && "aegis-128x4"@[6] == '1');
    assert("aegis-256x2"@[10] == '2' && "aegis-256x2"@[6] == '2');
    assert("aegis-256x4"@[10] == '4' && "aegis-256x4"@[6] == '2');
}

/// What metadata says of an encrypted object.
#[derive(Debug, Clone, Copy, PartialEq, Eq, Structural)]
pub struct EncryptedFileInfo {
    pub algorithm: Algorithm,
    pub plaintext_size: u64,
    pub ciphertext_size: u64,
    pub chunk_size: u32,
}

/// The content type of an encrypted object.
pub open spec fn content_type(info: EncryptedFileInfo) -> Seq<char> {
    CONTENT_TYPE_PREFIX@ + "; scheme="@ + info.algorithm.scheme_name() + "; chunk="@
        + text::decimal(info.chunk_size as nat) + "; size="@ + text::decimal(
        info.plaintext_size as nat,
    ) + "; stored="@ + text::decimal(info.ciphertext_size as nat)
}

/// The content type of an encrypted object.
pub fn format_content_type(info: &EncryptedFileInfo) -> (s: String)
    ensures
        s@ == content_type(*info),
{
    let mut s: String = CONTENT_TYPE_PREFIX.to_owned();
    s.push_str("; scheme=");
    s.push_str(info.algorithm.scheme());
    s.push_str("; chunk=");
    text::push_decimal(&mut s, info.chunk_size as u64);
    s.push_str("; size=");
    text::push_decimal(&mut s, info.plaintext_size);
    s.push_str("; stored=");
    text::push_decimal(&mut s, info.ciphertext_size);
    s
}

/// The key of a `key=value` parameter, without white space around it.
pub open spec fn param_key(param: Seq<char>) -> Seq<char> {
    let p = text::trimmed(param);
    text::trimmed(p.take(text::find(p, '=') as int))
}

/// The value of a `key=value` parameter, without white space around it.
pub open spec fn param_value(param: Seq<char>) -> Seq<char> {
    let p = text::trimmed(param);
    text::trimmed(p.skip(text::find(p, '=') as int + 1))
}

/// Whether `param` is a `key=value` parameter with the given key.
pub open spec fn has_key(param: Seq<char>, key: Seq<char>) -> bool {
    text::trimmed(param).contains('=') && param_key(param) == key
}

/// What is wrong with the value of a parameter, if its key is known and
/// something is wrong.
pub open spec fn param_error(param: Seq<char>) -> Option<Seq<char>> {
    let value = param_value(param);
    if has_key(param, "scheme"@) && algorithm_of_scheme(value) is None {
        Some("unknown encryption scheme: "@ + value)
    } else if has_key(param, "chunk"@) && text::parsed(value, u32::MAX as nat) is None {
        Some("invalid chunk size: "@ + value)
    } else if has_key(param, "size"@) && text::parsed(value, u64::MAX as nat) is None {
        Some("invalid plaintext size: "@ + value)
    } else if has_key(param, "stored"@) && text::parsed(value, u64::MAX as nat) is None {
        Some("invalid ciphertext size: "@ + value)
    } else {
        None
    }
}

/// The first thing wrong with a list of parameters.
pub open spec fn first_param_error(params: Seq<Seq<char>>) -> Option<Seq<char>>
    decreases params.len(),
{
    if params.len() == 0 {
        None
    } else if param_error(params[0]) is Some {
        param_error(params[0])
    } else {
        first_param_error(params.drop_first())
    }
}

/// The value of the last parameter with the given key.
pub open spec fn last_value(params: Seq<Seq<char>>, key: Seq<char>) -> Option<Seq<char>>
    decreases params.len(),
{
    if params.len() == 0 {
        None
    } else if has_key(params.last(), key) {
        Some(param_value(params.last()))
    } else {
        last_value(params.drop_last(), key)
    }
}

/// The algorithm that the parameters name.
pub open spec fn params_scheme(params: Seq<Seq<char>>) -> Option<Algorithm> {
    match last_value(params, "scheme"@) {
        Some(v) => algorithm_of_scheme(v),
        None => None,
    }
}

/// The number of at most `max` that the parameters give for `key`.
pub open spec fn params_number(params: Seq<Seq<char>>, key: Seq<char>, max: nat) -> Option<nat> {
    match last_value(params, key) {
        Some(v) => text::parsed(v, max),
        None => None,
    }
}

/// The parameters of a content type, as they stand between the `;`.
pub open spec fn content_type_params(ct: Seq<char>) -> Seq<Seq<char>> {
    text::split(ct.skip(CONTENT_TYPE_PREFIX@.len() as int), ';')
}

/// What a content type says of the object: nothing if it is not that of an
/// encrypted object, else its algorithm and sizes, where the last parameter
/// with a key counts, or what is wrong with it.
pub open spec fn parsed_content_type(ct: Seq<char>) -> core::result::Result<
    Option<EncryptedFileInfo>,
    Seq<char>,
> {
    let params = content_type_params(ct);
    if !CONTENT_TYPE_PREFIX@.is_prefix_of(ct) {
        Ok(None)
    } else if first_param_error(params) is Some {
        Err(first_param_error(params)->0)
    } else if params_scheme(params) is None {
        Err("missing scheme in encryption metadata"@)
    } else if params_number(params, "size"@, u64::MAX as nat) is None {
        Err("missing size in encryption metadata"@)
    } else if params_number(params, "stored"@, u64::MAX as nat) is None {
        Err("missing stored size in encryption metadata"@)
    } else {
        Ok(
            Some(
                EncryptedFileInfo {
                    algorithm: params_scheme(params)->0,
                    plaintext_size: params_number(params, "size"@, u64::MAX as nat)->0 as u64,
                    ciphertext_size: params_number(params, "stored"@, u64::MAX as nat)->0 as u64,
                    chunk_size: match params_number(params, "chunk"@, u32::MAX as nat) {
                        Some(n) => n as u32,
                        None => DEFAULT_CHUNK_SIZE,
                    },
                },
            ),
        )
    }
}

/// The keys of the parameters that are understood are four different ones.
proof fn lemma_keys_distinct()
    ensures
        "scheme"@ != "chunk"@,
        "scheme"@ != "size"@,
        "scheme"@ != "stored"@,
        "chunk"@ != "size"@,
        "chunk"@ != "stored"@,
        "size"@ != "stored"@,
{
    reveal_strlit("scheme");
    reveal_strlit("chunk");
    reveal_strlit("size");
    reveal_strlit("stored");
    assert("scheme"@.len() == 6 && "chunk"@.len() == 5 && "size"@.len() == 4);
    assert("scheme"@[1] == 'c' && "stored"@[1] == 't' && "stored"@.len() == 6);
}

proof fn lemma_first_param_error(params: Seq<Seq<char>>, k: int)
    requires
        0 <= k < params.len(),
        forall|i: int| 0 <= i < k ==> param_error(#[trigger] params[i]) is None,
        param_error(params[k]) is Some,
    ensures
        first_param_error(params) == param_error(params[k]),
    decreases params.len(),
{
    if k > 0 {
        let rest = params.drop_first();
        assert(param_error(params[0]) is None);
        assert forall|i: int| 0 <= i < k - 1 implies param_error(#[trigger] rest[i]) is None by {
            assert(rest[i] == params[i + 1]);
        }
        lemma_first_param_error(rest, k - 1);
    }
}

proof fn lemma_no_param_error(params: Seq<Seq<char>>)
    requires
        forall|i: int| 0 <= i < params.len() ==> param_error(#[trigger] params[i]) is None,
    ensures
        first_param_error(params) is None,
    decreases params.len(),
{
    if params.len() > 0 {
        let rest = params.drop_first();
        assert forall|i: int| 0 <= i < rest.len() implies param_error(#[trigger] rest[i]) is None by {
            assert(rest[i] == params[i + 1]);
        }
        lemma_no_param_error(rest);
    }
}

/// Cuts a `key=value` parameter in two.
fn split_param(param: &str) -> (r: Option<(String, String)>)
    ensures
        r is Some <==> text::trimmed(param@).contains('='),
        r matches Some((k, v)) ==> k@ == param_key(param@) && v@ == param_value(param@),
{
    let p: String = text::trim(param);
    let v: Vec<char> = text::chars_of(p.as_str());
    let i: usize = text::find_from(&v, 0, '=');
    let n: usize = v.len();
    proof {
        assert(v@.skip(0) =~= v@);
        text::lemma_find(v@, '=');
    }
    if i == n {
        return None;
    }
    let key: String = text::string_of(&v, 0, i);
    let value: String = text::string_of(&v, i + 1, n);
    assert(key@ =~= v@.take(i as int));
    assert(value@ =~= v@.skip(i + 1));
    Some((text::trim(key.as_str()), text::trim(value.as_str())))
}

/// An encryption error that says `what` of `value`.
fn metadata_error(what: &str, value: &str) -> (e: Error)
    ensures
        e.is_encryption(what@ + value@),
{
    let mut message: String = what.to_owned();
    message.push_str(value);
    Error::Encryption(message)
}

/// Reads the content type of an object: `None` if it is not that of an
/// encrypted object.
pub fn parse_content_type(ct: &str) -> (r: Result<Option<EncryptedFileInfo>>)
    ensures
        match r {
            Ok(info) => parsed_content_type(ct@) == Ok::<Option<EncryptedFileInfo>, Seq<char>>(
                info,
            ),
            Err(e) => parsed_content_type(ct@) is Err && e.is_encryption(
                parsed_content_type(ct@)->Err_0,
            ),
        },
{
    let rest: String = match text::strip_prefix(ct, CONTENT_TYPE_PREFIX) {
        Some(rest) => rest,
        None => {
            return Ok(None);
        },
    };
    let pieces: Vec<String> = text::split_on(rest.as_str(), ';');
    let ghost params = text::split(ct@.skip(CONTENT_TYPE_PREFIX@.len() as int), ';');
    let mut scheme: Option<Algorithm> = None;
    let mut chunk: Option<u32> = None;
    let mut size: Option<u64> = None;
    let mut stored: Option<u64> = None;
    let mut i: usize = 0;
    proof {
        lemma_keys_distinct();
    }
    while i < pieces.len()
        invariant
            i <= pieces@.len(),
            params == text::views(pieces@),
            CONTENT_TYPE_PREFIX@.is_prefix_of(ct@),
            params == text::split(ct@.skip(CONTENT_TYPE_PREFIX@.len() as int), ';'),
            "scheme"@ != "chunk"@,
            "scheme"@ != "size"@,
            "scheme"@ != "stored"@,
            "chunk"@ != "size"@,
            "chunk"@ != "stored"@,
            "size"@ != "stored"@,
            forall|j: int| 0 <= j < i ==> param_error(#[trigger] params[j]) is None,
            scheme == params_scheme(params.take(i as int)),
            chunk is Some <==> params_number(params.take(i as int), "chunk"@, u32::MAX as nat) is Some,
            chunk matches Some(n) ==> params_number(
                params.take(i as int),
                "chunk"@,
                u32::MAX as nat,
            ) == Some(n as nat),
            size is Some <==> params_number(params.take(i as int), "size"@, u64::MAX as nat) is Some,
            size matches Some(n) ==> params_number(params.take(i as int), "size"@, u64::MAX as nat)
                == Some(n as nat),
            stored is Some <==> params_number(params.take(i as int), "stored"@, u64::MAX as nat) is Some,
            stored matches Some(n) ==> params_number(
                params.take(i as int),
                "stored"@,
                u64::MAX as nat,
            ) == Some(n as nat),
        decreases pieces@.len() - i,
    {
        let ghost param = params[i as int];
        proof {
            assert(param == pieces@[i as int]@);
            assert(params.take(i + 1).drop_last() =~= params.take(i as int));
            assert(params.take(i + 1).last() == param);
        }
        match split_param(pieces[i].as_str()) {
            Some((key, value)) => {
                if text::eq(key.as_str(), "scheme") {
                    match Algorithm::from_scheme(value.as_str()) {
                        Some(a) => {
                            scheme = Some(a);
                        },
                        None => {
                            proof {
                                lemma_first_param_error(params, i as int);
                            }
                            return Err(
                                metadata_error("unknown encryption scheme: ", value.as_str()),
                            );
                        },
                    }
                } else if text::eq(key.as_str(), "chunk") {
                    match text::parse_u32(value.as_str()) {
                        Some(n) => {
                            chunk = Some(n);
                        },
                        None => {
                            proof {
                                lemma_first_param_error(params, i as int);
                            }
                            return Err(metadata_error("invalid chunk size: ", value.as_str()));
                        },
                    }
                } else if text::eq(key.as_str(), "size") {
                    match text::parse_u64(value.as_str()) {
                        Some(n) => {
                            size = Some(n);
                        },
                        None => {
                            proof {
                                lemma_first_param_error(params, i as int);
                            }
                            return Err(metadata_error("invalid plaintext size: ", value.as_str()));
                        },
                    }
                } else if text::eq(key.as_str(), "stored") {
                    match text::parse_u64(value.as_str()) {
                        Some(n) => {
                            stored = Some(n);
                        },
                        None => {
                            proof {
                                lemma_first_param_error(params, i as int);
                            }
                            return Err(metadata_error("invalid ciphertext size: ", value.as_str()));
                        },
                    }
                }
            },
            None => {},
        }
        i = i + 1;
    }
    proof {
        assert(params.take(params.len() as int) =~= params);
        lemma_no_param_error(params);
    }
    let algorithm: Algorithm = match scheme {
        Some(a) => a,
        None => {
            return Err(Error::Encryption("missing scheme in encryption metadata".to_owned()));
        },
    };
    let plaintext_size: u64 = match size {
        Some(n) => n,
        None => {
            return Err(Error::Encryption("missing size in encryption metadata".to_owned()));
        },
    };
    let ciphertext_size: u64 = match stored {
        Some(n) => n,
        None => {
            return Err(Error::Encryption("missing stored size in encryption metadata".to_owned()));
        },
    };
    let chunk_size: u32 = match chunk {
        Some(n) => n,
        None => DEFAULT_CHUNK_SIZE,
    };
    Ok(Some(EncryptedFileInfo { algorithm, plaintext_size, ciphertext_size, chunk_size }))
}

/// A parameter with a key and a value that need no trimming reads as them.
proof fn lemma_param(key: Seq<char>, value: Seq<char>)
    requires
        key.len() > 0,
        value.len() > 0,
        !key.contains('='),
        !text::is_space(key[0]),
        !text::is_space(key.last()),
        !text::is_space(value[0]),
        !text::is_space(value.last()),
    ensures
        ({
            let param = seq![' '] + key + seq!['='] + value;
            &&& text::trimmed(param).contains('=')
            &&& param_key(param) == key
            &&& param_value(param) == value
        }),
{
    let param = seq![' '] + key + seq!['='] + value;
    let p = key + seq!['='] + value;
    assert(param.drop_first() =~= p);
    text::lemma_trim_leading(param);
    assert(p.last() == value.last());
    text::lemma_trim_identity(p);
    let n = key.len() as int;
    assert(p[n] == '=');
    assert forall|j: int| 0 <= j < n implies #[trigger] p[j] != '=' by {
        assert(p[j] == key[j]);
        assert(key.contains(key[j]));
    }
    text::lemma_find_unique(p, '=', n);
    assert(p.take(n) =~= key);
    assert(p.skip(n + 1) =~= value);
    text::lemma_trim_identity(key);
    text::lemma_trim_identity(value);
}

/// A decimal number holds neither separators nor white space.
proof fn lemma_decimal_plain(n: nat)
    ensures
        text::decimal(n).len() > 0,
        !text::decimal(n).contains(';'),
        !text::is_space(text::decimal(n)[0]),
        !text::is_space(text::decimal(n).last()),
{
    text::lemma_decimal(n);
    let s = text::decimal(n);
    assert(text::is_digit(s[0]));
    assert(text::is_digit(s[s.len() - 1]));
    if s.contains(';') {
        let j = choose|j: int| 0 <= j < s.len() && s[j] == ';';
        assert(text::is_digit(s[j]));
    }
}

/// A scheme holds neither separators nor white space.
proof fn lemma_scheme_plain(a: Algorithm)
    ensures
        a.scheme_name().len() > 0,
        !a.scheme_name().contains(';'),
        !text::is_space(a.scheme_name()[0]),
        !text::is_space(a.scheme_name().last()),
{
    reveal_strlit("aegis-128l-raf");
    reveal_strlit("aegis-128x2-raf");
    reveal_strlit("aegis-128x4-raf");
    reveal_strlit("aegis-256-raf");
    reveal_strlit("aegis-256x2-raf");
    reveal_strlit("aegis-256x4-raf");
}

/// The parameters that a content type is made of.
spec fn content_params(info: EncryptedFileInfo) -> Seq<Seq<char>> {
    seq![
        Seq::empty(),
        seq![' '] + "scheme"@ + seq!['='] + info.algorithm.scheme_name(),
        seq![' '] + "chunk"@ + seq!['='] + text::decimal(info.chunk_size as nat),
        seq![' '] + "size"@ + seq!['='] + text::decimal(info.plaintext_size as nat),
        seq![' '] + "stored"@ + seq!['='] + text::decimal(info.ciphertext_size as nat),
    ]
}

proof fn lemma_content_literals()
    ensures
        "; scheme="@ == seq![';', ' '] + "scheme"@ + seq!['='],
        "; chunk="@ == seq![';', ' '] + "chunk"@ + seq!['='],
        "; size="@ == seq![';', ' '] + "size"@ + seq!['='],
        "; stored="@ == seq![';', ' '] + "stored"@ + seq!['='],
        !"scheme"@.contains(';'),
        !"chunk"@.contains(';'),
        !"size"@.contains(';'),
        !"stored"@.contains(';'),
{
    reveal_strlit("; scheme=");
    reveal_strlit("; chunk=");
    reveal_strlit("; size=");
    reveal_strlit("; stored=");
    reveal_strlit("scheme");
    reveal_strlit("chunk");
    reveal_strlit("size");
    reveal_strlit("stored");
    assert("; scheme="@ =~= seq![';', ' '] + "scheme"@ + seq!['=']);
    assert("; chunk="@ =~= seq![';', ' '] + "chunk"@ + seq!['=']);
    assert("; size="@ =~= seq![';', ' '] + "size"@ + seq!['=']);
    assert("; stored="@ =~= seq![';', ' '] + "stored"@ + seq!['=']);
}

/// One more parameter in front of a joined list of parameters.
proof fn lemma_join_param(key: Seq<char>, value: Seq<char>, rest: Seq<Seq<char>>)
    requires
        rest.len() > 0,
    ensures
        text::join(seq![seq![' '] + key + seq!['='] + value] + rest, ';') == seq![' '] + key + seq![
            '=',
        ] + value + seq![';'] + text::join(rest, ';'),
{
    let param = seq![' '] + key + seq!['='] + value;
    let all = seq![param] + rest;
    assert(all.drop_first() =~= rest);
    assert(param.push(';') =~= param + seq![';']);
}

proof fn lemma_content_params(info: EncryptedFileInfo)
    ensures
        CONTENT_TYPE_PREFIX@.is_prefix_of(content_type(info)),
        text::split(content_type(info).skip(CONTENT_TYPE_PREFIX@.len() as int), ';')
            == content_params(info),
{
    let params = content_params(info);
    let ct = content_type(info);
    let n = CONTENT_TYPE_PREFIX@.len() as int;
    let c = text::decimal(info.chunk_size as nat);
    let p = text::decimal(info.plaintext_size as nat);
    let t = text::decimal(info.ciphertext_size as nat);
    let a = info.algorithm.scheme_name();
    lemma_content_literals();
    let k1 = "scheme"@;
    let k2 = "chunk"@;
    let k3 = "size"@;
    let k4 = "stored"@;
    let j4 = seq![' '] + k4 + seq!['='] + t;
    let j3 = seq![' '] + k3 + seq!['='] + p + seq![';'] + j4;
    let j2 = seq![' '] + k2 + seq!['='] + c + seq![';'] + j3;
    let j1 = seq![' '] + k1 + seq!['='] + a + seq![';'] + j2;
    assert(params.skip(4) =~= seq![j4]);
    assert(text::join(params.skip(4), ';') == j4);
    assert(params.skip(3) =~= seq![params[3]] + params.skip(4));
    lemma_join_param(k3, p, params.skip(4));
    assert(params.skip(2) =~= seq![params[2]] + params.skip(3));
    lemma_join_param(k2, c, params.skip(3));
    assert(params.skip(1) =~= seq![params[1]] + params.skip(2));
    lemma_join_param(k1, a, params.skip(2));
    assert(text::join(params.skip(1), ';') == j1);
    assert(params.drop_first() =~= params.skip(1));
    assert(text::join(params, ';') =~= seq![';'] + j1);
    assert(CONTENT_TYPE_PREFIX@ =~= ct.subrange(0, n));
    assert(ct.skip(n) =~= seq![';'] + j1) by {
        lemma_concat_tail(info);
    }
    lemma_scheme_plain(info.algorithm);
    lemma_decimal_plain(info.chunk_size as nat);
    lemma_decimal_plain(info.plaintext_size as nat);
    lemma_decimal_plain(info.ciphertext_size as nat);
    lemma_param_no_separator(k1, a);
    lemma_param_no_separator(k2, c);
    lemma_param_no_separator(k3, p);
    lemma_param_no_separator(k4, t);
    text::lemma_split_join(params, ';');
}

/// What follows the media type in a content type.
proof fn lemma_concat_tail(info: EncryptedFileInfo)
    ensures
        ({
            let c = text::decimal(info.chunk_size as nat);
            let p = text::decimal(info.plaintext_size as nat);
            let t = text::decimal(info.ciphertext_size as nat);
            let a = info.algorithm.scheme_name();
            let j4 = seq![' '] + "stored"@ + seq!['='] + t;
            let j3 = seq![' '] + "size"@ + seq!['='] + p + seq![';'] + j4;
            let j2 = seq![' '] + "chunk"@ + seq!['='] + c + seq![';'] + j3;
            let j1 = seq![' '] + "scheme"@ + seq!['='] + a + seq![';'] + j2;
            content_type(info).skip(CONTENT_TYPE_PREFIX@.len() as int) == seq![';'] + j1
        }),
{
    lemma_content_literals();
    let c = text::decimal(info.chunk_size as nat);
    let p = text::decimal(info.plaintext_size as nat);
    let t = text::decimal(info.ciphertext_size as nat);
    let a = info.algorithm.scheme_name();
    let k1 = "scheme"@;
    let k2 = "chunk"@;
    let k3 = "size"@;
    let k4 = "stored"@;
    let pre = CONTENT_TYPE_PREFIX@;
    let sp = seq![';', ' '];
    let eq = seq!['='];
    let j4 = seq![' '] + k4 + eq + t;
    let j3 = seq![' '] + k3 + eq + p + seq![';'] + j4;
    let j2 = seq![' '] + k2 + eq + c + seq![';'] + j3;
    let j1 = seq![' '] + k1 + eq + a + seq![';'] + j2;
    let s1 = pre + (sp + k1 + eq) + a;
    let s2 = s1 + (sp + k2 + eq) + c;
    let s3 = s2 + (sp + k3 + eq) + p;
    let s4 = s3 + (sp + k4 + eq) + t;
    assert(content_type(info) == s4);
    assert(s4 =~= s3 + (seq![';'] + j4));
    assert(s3 + (seq![';'] + j4) =~= s2 + (seq![';'] + j3));
    assert(s2 + (seq![';'] + j3) =~= s1 + (seq![';'] + j2));
    assert(s1 + (seq![';'] + j2) =~= pre + (seq![';'] + j1));
    assert((pre + (seq![';'] + j1)).skip(pre.len() as int) =~= seq![';'] + j1);
}

proof fn lemma_param_no_separator(key: Seq<char>, value: Seq<char>)
    requires
        !key.contains(';'),
        !value.contains(';'),
    ensures
        !(seq![' '] + key + seq!['='] + value).contains(';'),
{
    let s = seq![' '] + key + seq!['='] + value;
    if s.contains(';') {
        let j = choose|j: int| 0 <= j < s.len() && s[j] == ';';
        if 1 <= j < 1 + key.len() {
            assert(key[j - 1] == ';');
        } else if j >= key.len() + 2 {
            assert(value[j - 2 - key.len()] == ';');
        }
    }
}

/// Reading a content type gives back what it was made of.
pub proof fn law_parse_inverts_format(info: EncryptedFileInfo)
    ensures
        parsed_content_type(content_type(info)) == Ok::<Option<EncryptedFileInfo>, Seq<char>>(
            Some(info),
        ),
{
    let params = content_params(info);
    let c = text::decimal(info.chunk_size as nat);
    let p = text::decimal(info.plaintext_size as nat);
    let t = text::decimal(info.ciphertext_size as nat);
    let a = info.algorithm.scheme_name();
    lemma_content_params(info);
    lemma_keys_distinct();
    law_scheme_round_trip(info.algorithm);
    lemma_scheme_plain(info.algorithm);
    lemma_decimal_plain(info.chunk_size as nat);
    lemma_decimal_plain(info.plaintext_size as nat);
    lemma_decimal_plain(info.ciphertext_size as nat);
    text::lemma_parse_decimal(info.chunk_size as nat, u32::MAX as nat);
    text::lemma_parse_decimal(info.plaintext_size as nat, u64::MAX as nat);
    text::lemma_parse_decimal(info.ciphertext_size as nat, u64::MAX as nat);
    reveal_strlit("scheme");
    reveal_strlit("chunk");
    reveal_strlit("size");
    reveal_strlit("stored");
    lemma_param("scheme"@, a);
    lemma_param("chunk"@, c);
    lemma_param("size"@, p);
    lemma_param("stored"@, t);
    assert(text::trimmed(params[0]) =~= Seq::empty());
    assert(params.drop_last() =~= params.take(4));
    assert(params.take(4).drop_last() =~= params.take(3));
    assert(params.take(3).drop_last() =~= params.take(2));
    assert(params.take(2).drop_last() =~= params.take(1));
    assert forall|i: int| 0 <= i < params.len() implies param_error(#[trigger] params[i]) is None by {
        assert(i == 0 || i == 1 || i == 2 || i == 3 || i == 4);
    }
    lemma_no_param_error(params);
    reveal_with_fuel(last_value, 5);
    assert(last_value(params, "stored"@) == Some(t));
    assert(last_value(params, "size"@) == Some(p));
    assert(last_value(params, "chunk"@) == Some(c));
    assert(last_value(params, "scheme"@) == Some(a));
}

/// Whether `key` is one that the parameters of a content type are read for.
pub open spec fn is_known_key(key: Seq<char>) -> bool {
    key == "scheme"@ || key == "chunk"@ || key == "size"@ || key == "stored"@
}

/// Whether some parameter gives `value` for `key`.
pub open spec fn gives(params: Seq<Seq<char>>, key: Seq<char>, value: Seq<char>) -> bool {
    exists|i: int|
        0 <= i < params.len() && has_key(#[trigger] params[i], key) && param_value(params[i])
            == value
}

/// Whether two lists of parameters give the same values for the known keys, and
/// never two values for one.
pub open spec fn give_alike(a: Seq<Seq<char>>, b: Seq<Seq<char>>) -> bool {
    &&& forall|key: Seq<char>, value: Seq<char>|
        #![trigger gives(a, key, value)]
        #![trigger gives(b, key, value)]
        is_known_key(key) ==> (gives(a, key, value) <==> gives(b, key, value))
    &&& forall|key: Seq<char>, v: Seq<char>, w: Seq<char>|
        is_known_key(key) && #[trigger] gives(a, key, v) && #[trigger] gives(a, key, w) ==> v == w
}

/// Whether two readings agree: both fail, or both succeed with the same result.
pub open spec fn read_alike(
    a: core::result::Result<Option<EncryptedFileInfo>, Seq<char>>,
    b: core::result::Result<Option<EncryptedFileInfo>, Seq<char>>,
) -> bool {
    &&& a is Err <==> b is Err
    &&& a is Ok ==> a == b
}

proof fn lemma_last_value(params: Seq<Seq<char>>, key: Seq<char>)
    ensures
        match last_value(params, key) {
            Some(v) => gives(params, key, v),
            None => forall|v: Seq<char>| !#[trigger] gives(params, key, v),
        },
    decreases params.len(),
{
    if params.len() > 0 {
        let rest = params.drop_last();
        let last = params.len() - 1;
        lemma_last_value(rest, key);
        if has_key(params[last], key) {
            assert(gives(params, key, param_value(params[last])));
        } else if last_value(rest, key) is Some {
            let v = last_value(rest, key)->0;
            let i = choose|i: int|
                0 <= i < rest.len() && has_key(#[trigger] rest[i], key) && param_value(rest[i]) == v;
            assert(has_key(params[i], key));
        } else {
            assert forall|v: Seq<char>| !#[trigger] gives(params, key, v) by {
                if gives(params, key, v) {
                    let i = choose|i: int|
                        0 <= i < params.len() && has_key(#[trigger] params[i], key) && param_value(
                            params[i],
                        ) == v;
                    assert(has_key(rest[i], key));
                    assert(gives(rest, key, v));
                }
            }
        }
    }
}

proof fn lemma_some_param_error(params: Seq<Seq<char>>, k: int)
    requires
        0 <= k < params.len(),
        param_error(params[k]) is Some,
    ensures
        first_param_error(params) is Some,
    decreases params.len(),
{
    if k > 0 {
        assert(params.drop_first()[k - 1] == params[k]);
        lemma_some_param_error(params.drop_first(), k - 1);
    }
}

/// What is wrong with one list of parameters is wrong with another that gives
/// the same values.
proof fn lemma_same_param_errors(a: Seq<Seq<char>>, b: Seq<Seq<char>>)
    requires
        forall|key: Seq<char>, value: Seq<char>|
            is_known_key(key) ==> (#[trigger] gives(a, key, value) ==> gives(b, key, value)),
        first_param_error(a) is Some,
    ensures
        first_param_error(b) is Some,
{
    lemma_keys_distinct();
    if forall|i: int| 0 <= i < a.len() ==> param_error(#[trigger] a[i]) is None {
        lemma_no_param_error(a);
    }
    let i = choose|i: int| 0 <= i < a.len() && param_error(#[trigger] a[i]) is Some;
    let key = param_key(a[i]);
    let value = param_value(a[i]);
    assert(has_key(a[i], key) && is_known_key(key));
    assert(gives(a, key, value));
    let j = choose|j: int|
        0 <= j < b.len() && has_key(#[trigger] b[j], key) && param_value(b[j]) == value;
    assert(param_error(b[j]) is Some);
    lemma_some_param_error(b, j);
}

/// A content type is what its parameters give: two that give the same values
/// for the known keys, and no two values for one key, are read alike. So the
/// order of the parameters does not count, nor does white space around keys and
/// values, nor does a parameter that is empty, has no `=` or an unknown key.
pub proof fn law_content_type_is_what_its_parameters_give(a: Seq<char>, b: Seq<char>)
    requires
        CONTENT_TYPE_PREFIX@.is_prefix_of(a),
        CONTENT_TYPE_PREFIX@.is_prefix_of(b),
        give_alike(content_type_params(a), content_type_params(b)),
    ensures
        read_alike(parsed_content_type(a), parsed_content_type(b)),
{
    let p = content_type_params(a);
    let q = content_type_params(b);
    assert forall|key: Seq<char>| #[trigger] is_known_key(key) implies last_value(p, key)
        == last_value(q, key) by {
        lemma_last_value(p, key);
        lemma_last_value(q, key);
    }
    assert(is_known_key("scheme"@) && is_known_key("chunk"@));
    assert(is_known_key("size"@) && is_known_key("stored"@));
    if first_param_error(p) is Some {
        lemma_same_param_errors(p, q);
    }
    if first_param_error(q) is Some {
        lemma_same_param_errors(q, p);
    }
}

/// The order of the parameters does not count, as long as no known key is given
/// two values.
pub proof fn law_parameter_order_does_not_count(a: Seq<char>, b: Seq<char>)
    requires
        CONTENT_TYPE_PREFIX@.is_prefix_of(a),
        CONTENT_TYPE_PREFIX@.is_prefix_of(b),
        content_type_params(a).to_multiset() == content_type_params(b).to_multiset(),
        give_alike(content_type_params(a), content_type_params(a)),
    ensures
        read_alike(parsed_content_type(a), parsed_content_type(b)),
{
    let p = content_type_params(a);
    let q = content_type_params(b);
    assert forall|key: Seq<char>, value: Seq<char>| #[trigger]
        gives(p, key, value) <==> gives(q, key, value) by {
        lemma_gives_by_contents(p, q, key, value);
        lemma_gives_by_contents(q, p, key, value);
    }
    law_content_type_is_what_its_parameters_give(a, b);
}

proof fn lemma_gives_by_contents(
    p: Seq<Seq<char>>,
    q: Seq<Seq<char>>,
    key: Seq<char>,
    value: Seq<char>,
)
    requires
        p.to_multiset() == q.to_multiset(),
    ensures
        gives(p, key, value) ==> gives(q, key, value),
{
    if gives(p, key, value) {
        let i = choose|i: int|
            0 <= i < p.len() && has_key(#[trigger] p[i], key) && param_value(p[i]) == value;
        vstd::seq_lib::to_multiset_contains(p, p[i]);
        vstd::seq_lib::to_multiset_contains(q, p[i]);
        assert(p.contains(p[i]));
        let j = choose|j: int| 0 <= j < q.len() && q[j] == p[i];
        assert(has_key(q[j], key));
    }
}

/// A parameter that is empty, has no `=` or an unknown key does not count,
/// wherever it stands, as long as no known key is given two values.
pub proof fn law_foreign_parameters_do_not_count(a: Seq<char>, b: Seq<char>, at: int)
    requires
        CONTENT_TYPE_PREFIX@.is_prefix_of(a),
        CONTENT_TYPE_PREFIX@.is_prefix_of(b),
        0 <= at < content_type_params(b).len(),
        content_type_params(b).remove(at) == content_type_params(a),
        ({
            let param = content_type_params(b)[at];
            !text::trimmed(param).contains('=') || !is_known_key(param_key(param))
        }),
        give_alike(content_type_params(a), content_type_params(a)),
    ensures
        read_alike(parsed_content_type(a), parsed_content_type(b)),
{
    let p = content_type_params(a);
    let q = content_type_params(b);
    assert forall|key: Seq<char>, value: Seq<char>| is_known_key(key) implies (#[trigger] gives(
        p,
        key,
        value,
    ) <==> gives(q, key, value)) by {
        if gives(p, key, value) {
            let i = choose|i: int|
                0 <= i < p.len() && has_key(#[trigger] p[i], key) && param_value(p[i]) == value;
            let j = if i < at {
                i
            } else {
                i + 1
            };
            assert(q[j] == p[i]);
            assert(has_key(q[j], key));
        }
        if gives(q, key, value) {
            let j = choose|j: int|
                0 <= j < q.len() && has_key(#[trigger] q[j], key) && param_value(q[j]) == value;
            let i = if j < at {
                j
            } else {
                j - 1
            };
            assert(p[i] == q[j]);
            assert(has_key(p[i], key));
        }
    }
    law_content_type_is_what_its_parameters_give(a, b);
}

/// White space around the key and around the value of a parameter does not
/// count.
pub proof fn law_parameters_are_trimmed(
    before: Seq<char>,
    key: Seq<char>,
    after_key: Seq<char>,
    before_value: Seq<char>,
    value: Seq<char>,
    after: Seq<char>,
)
    requires
        text::all_space(before),
        text::all_space(after_key),
        text::all_space(before_value),
        text::all_space(after),
        !key.contains('='),
    ensures
        ({
            let param = before + key + after_key + seq!['='] + (before_value + value + after);
            &&& text::trimmed(param).contains('=')
            &&& param_key(param) == text::trimmed(key)
            &&& param_value(param) == text::trimmed(value)
        }),
{
    let left = before + key + after_key;
    let right = before_value + value + after;
    let param = left + seq!['='] + right;
    let p = text::trimmed(param);
    let l = text::trim_start(left);
    let n = l.len() as int;
    text::lemma_trim_sides(left, '=', right);
    assert(p == l + seq!['='] + text::trim_end(right));
    assert(p[n] == '=');
    text::lemma_trim_start(left);
    assert forall|j: int| 0 <= j < n implies #[trigger] p[j] != '=' by {
        let i = j + left.len() - n;
        assert(p[j] == left[i]);
        if i < before.len() {
            assert(text::is_space(before[i]));
        } else if i < before.len() + key.len() {
            assert(key[i - before.len()] == left[i]);
            assert(key.contains(key[i - before.len()]));
        } else {
            assert(text::is_space(after_key[i - before.len() - key.len()]));
        }
    }
    text::lemma_find_unique(p, '=', n);
    assert(p.take(n) =~= l);
    assert(p.skip(n + 1) =~= text::trim_end(right));
    text::lemma_trim_again(left);
    text::lemma_trim_again(right);
    text::lemma_trim_around(before, key, after_key);
    text::lemma_trim_around(before_value, value, after);
}

/// What content encryption needs to know of a mount.
#[derive(Clone)]
pub struct EncryptionConfig {
    pub prk: [u8; 32],
    pub source_context: String,
    pub algorithm: Algorithm,
    pub chunk_size: u32,
    pub filename_key: [u8; 16],
}

impl EncryptionConfig {
    /// The content key of this mount for `algorithm`.
    pub fn derive_key(&self, algorithm: Algorithm) -> (key: Vec<u8>)
        ensures
            key@ == derived_key(self.prk@, self.source_context@, algorithm),
            key@.len() == algorithm.spec_key_len(),
    {
        derive_key(&self.prk, self.source_context.as_str(), algorithm)
    }
}

/// The low 16 bits of `n`, high byte first.
pub open spec fn be16(n: nat) -> Seq<u8> {
    seq![(n / 256 % 256) as u8, (n % 256) as u8]
}

/// The HKDF info of a content key: a label, then the source and the scheme,
/// each behind its length.
pub open spec fn key_info(source: Seq<char>, algorithm: Algorithm) -> Seq<u8> {
    encode_utf8("hf-mount-derive-v1"@) + be16(encode_utf8(source).len()) + encode_utf8(source)
        + be16(encode_utf8(algorithm.scheme_name()).len()) + encode_utf8(algorithm.scheme_name())
}

/// The names of schemes are short: they differ by less than what the length of a
/// source is cut off at.
proof fn lemma_scheme_len(a: Algorithm)
    ensures
        13 <= encode_utf8(a.scheme_name()).len() <= 15,
{
    reveal_strlit("aegis-128l-raf");
    reveal_strlit("aegis-128x2-raf");
    reveal_strlit("aegis-128x4-raf");
    reveal_strlit("aegis-256-raf");
    reveal_strlit("aegis-256x2-raf");
    reveal_strlit("aegis-256x4-raf");
    vstd::utf8::is_ascii_chars_encode_utf8(a.scheme_name());
}

/// Different sources and different algorithms never share an HKDF info.
pub proof fn law_key_info_is_unambiguous(
    source: Seq<char>,
    algorithm: Algorithm,
    other: Seq<char>,
    other_algorithm: Algorithm,
)
    requires
        key_info(source, algorithm) == key_info(other, other_algorithm),
    ensures
        source == other,
        algorithm == other_algorithm,
{
    let label = encode_utf8("hf-mount-derive-v1"@).len() as int;
    let info = key_info(source, algorithm);
    let again = key_info(other, other_algorithm);
    let a = encode_utf8(source);
    let b = encode_utf8(other);
    assert(info[label] == be16(a.len())[0] && info[label + 1] == be16(a.len())[1]);
    assert(again[label] == be16(b.len())[0] && again[label + 1] == be16(b.len())[1]);
    lemma_scheme_len(algorithm);
    lemma_scheme_len(other_algorithm);
    assert(a.len() % 65536 == b.len() % 65536);
    assert(info.len() == label + 4 + a.len() + encode_utf8(algorithm.scheme_name()).len());
    assert(again.len() == label + 4 + b.len() + encode_utf8(other_algorithm.scheme_name()).len());
    assert(-2 <= a.len() - b.len() <= 2);
    assert(a.len() == b.len());
    assert(info.subrange(label + 2, label + 2 + a.len()) =~= a);
    assert(again.subrange(label + 2, label + 2 + a.len()) =~= b);
    vstd::utf8::encode_utf8_decode_utf8(source);
    vstd::utf8::encode_utf8_decode_utf8(other);
    let x = encode_utf8(algorithm.scheme_name());
    let y = encode_utf8(other_algorithm.scheme_name());
    assert(info.skip(label + 4 + a.len()) =~= x);
    assert(again.skip(label + 4 + a.len()) =~= y);
    vstd::utf8::encode_utf8_decode_utf8(algorithm.scheme_name());
    vstd::utf8::encode_utf8_decode_utf8(other_algorithm.scheme_name());
    law_scheme_round_trip(algorithm);
    law_scheme_round_trip(other_algorithm);
}

/// The HKDF info of a filename key.
pub open spec fn filename_info(source: Seq<char>) -> Seq<u8> {
    encode_utf8("hf-mount-filename-v1"@) + be16(encode_utf8(source).len()) + encode_utf8(source)
}

/// Content keys and filename keys are derived from different HKDF infos,
/// whatever the sources.
pub proof fn law_filename_keys_are_apart(source: Seq<char>, other: Seq<char>, algorithm: Algorithm)
    ensures
        filename_info(source) != key_info(other, algorithm),
{
    reveal_strlit("hf-mount-derive-v1");
    reveal_strlit("hf-mount-filename-v1");
    vstd::utf8::is_ascii_chars_encode_utf8("hf-mount-derive-v1"@);
    vstd::utf8::is_ascii_chars_encode_utf8("hf-mount-filename-v1"@);
    assert(filename_info(source)[9] == "hf-mount-filename-v1"@[9] as u8);
    assert(key_info(other, algorithm)[9] == "hf-mount-derive-v1"@[9] as u8);
}

/// The pseudorandom key of a master key.
pub open spec fn extracted_prk(master_key: Seq<u8>) -> Seq<u8> {
    hkdf::hkdf_extracted(encode_utf8("hf-mount-v1"@), master_key)
}

/// The content key of a source for an algorithm.
pub open spec fn derived_key(prk: Seq<u8>, source: Seq<char>, algorithm: Algorithm) -> Seq<u8> {
    hkdf::hkdf_expanded(prk, key_info(source, algorithm), algorithm.spec_key_len() as nat)
}

/// Appends the low 16 bits of `n`, high byte first.
fn push_be16(out: &mut Vec<u8>, n: usize)
    ensures
        final(out)@ == old(out)@ + be16(n as nat),
{
    out.push((n / 256 % 256) as u8);
    out.push((n % 256) as u8);
}

/// The HKDF info of a content key.
pub fn build_info(source_context: &str, algorithm: Algorithm) -> (info: Vec<u8>)
    ensures
        info@ == key_info(source_context@, algorithm),
{
    let scheme: &str = algorithm.scheme();
    let mut info: Vec<u8> = Vec::new();
    info.extend_from_slice("hf-mount-derive-v1".as_bytes());
    push_be16(&mut info, source_context.as_bytes().len());
    info.extend_from_slice(source_context.as_bytes());
    push_be16(&mut info, scheme.as_bytes().len());
    info.extend_from_slice(scheme.as_bytes());
    assert(info@ =~= key_info(source_context@, algorithm));
    info
}

/// The pseudorandom key of a master key.
pub fn extract_prk(master_key: &[u8; MASTER_KEY_LEN]) -> (prk: [u8; 32])
    ensures
        prk@ == extracted_prk(master_key@),
{
    hkdf::hkdf_extract("hf-mount-v1".as_bytes(), master_key.as_slice())
}

/// The content key of a source for an algorithm.
pub fn derive_key(prk: &[u8; 32], source_context: &str, algorithm: Algorithm) -> (key: Vec<u8>)
    ensures
        key@ == derived_key(prk@, source_context@, algorithm),
        key@.len() == algorithm.spec_key_len(),
{
    let info: Vec<u8> = build_info(source_context, algorithm);
    hkdf::hkdf_expand(prk.as_slice(), info.as_slice(), algorithm.key_len())
}

/// The filename key of a source.
pub fn derive_filename_key(prk: &[u8; 32], source_context: &str) -> (key: [u8; 16])
    ensures
        key@ == hkdf::hkdf_expanded(prk@, filename_info(source_context@), 16),
{
    let mut info: Vec<u8> = Vec::new();
    info.extend_from_slice("hf-mount-filename-v1".as_bytes());
    push_be16(&mut info, source_context.as_bytes().len());
    info.extend_from_slice(source_context.as_bytes());
    assert(info@ =~= filename_info(source_context@));
    let key: Vec<u8> = hkdf::hkdf_expand(prk.as_slice(), info.as_slice(), 16);
    hkdf::array16(&key)
}

/// What `text` decodes to as base64 over the standard alphabet, with or
/// without padding.
pub uninterp spec fn base64_standard(text: Seq<char>) -> Option<Seq<u8>>;

/// What `text` decodes to as base64 over the URL-safe alphabet, with or
/// without padding.
pub uninterp spec fn base64_url_safe(text: Seq<char>) -> Option<Seq<u8>>;

/// `Engine::decode` of a `GeneralPurpose` engine over the standard alphabet
/// that accepts padded and unpadded input: its result depends on the text
/// alone.
#[verifier::external_body]
fn decode_base64_standard(text: &str) -> (r: Option<Vec<u8>>)
    ensures
        r is Some <==> base64_standard(text@) is Some,
        r matches Some(bytes) ==> base64_standard(text@) == Some(bytes@),
{
    let config = GeneralPurposeConfig::new()
        .with_decode_padding_mode(DecodePaddingMode::Indifferent);
    let engine = GeneralPurpose::new(&base64::alphabet::STANDARD, config);
    base64::Engine::decode(&engine, text).ok()
}

/// `Engine::decode` of a `GeneralPurpose` engine over the URL-safe alphabet
/// that accepts padded and unpadded input: its result depends on the text
/// alone.
#[verifier::external_body]
fn decode_base64_url_safe(text: &str) -> (r: Option<Vec<u8>>)
    ensures
        r is Some <==> base64_url_safe(text@) is Some,
        r matches Some(bytes) ==> base64_url_safe(text@) == Some(bytes@),
{
    let config = GeneralPurposeConfig::new()
        .with_decode_padding_mode(DecodePaddingMode::Indifferent);
    let engine = GeneralPurpose::new(&base64::alphabet::URL_SAFE, config);
    base64::Engine::decode(&engine, text).ok()
}

/// What `text` decodes to as base64: over the standard alphabet, else over the
/// URL-safe one.
pub open spec fn base64_decoded(text: Seq<char>) -> Option<Seq<u8>> {
    if base64_standard(text) is Some {
        base64_standard(text)
    } else {
        base64_url_safe(text)
    }
}

fn base64_decode(s: &str) -> (r: Option<Vec<u8>>)
    ensures
        r is Some <==> base64_decoded(s@) is Some,
        r matches Some(bytes) ==> base64_decoded(s@) == Some(bytes@),
{
    match decode_base64_standard(s) {
        Some(bytes) => Some(bytes),
        None => decode_base64_url_safe(s),
    }
}

/// The text of a key file: its content without white space around it, if it
/// is text.
pub open spec fn key_text(raw: Seq<u8>) -> Seq<char> {
    if valid_utf8(raw) {
        text::trimmed(decode_utf8(raw))
    } else {
        Seq::empty()
    }
}

/// The key that a key file holds, given what its text decodes to.
pub open spec fn master_key_of(raw: Seq<u8>, decoded: Option<Seq<u8>>) -> Option<Seq<u8>> {
    if raw.len() == MASTER_KEY_LEN {
        Some(raw)
    } else if key_text(raw).len() > 0 && decoded is Some && decoded->0.len() == MASTER_KEY_LEN {
        decoded
    } else {
        None
    }
}

/// What is said of a key file of `n` bytes that holds no key.
pub open spec fn key_file_error(n: nat) -> Seq<char> {
    "key file must contain exactly 32 bytes (raw) or base64-encoded, got "@ + text::decimal(n)
        + " bytes"@
}

/// The text of a key file, without white space around it: empty if the file
/// is not text.
fn key_file_text(raw: &[u8]) -> (t: String)
    ensures
        t@ == key_text(raw@),
{
    match text::string_from_utf8(vstd::slice::slice_to_vec(raw)) {
        Ok(s) => text::trim(s.as_str()),
        Err(_) => String::new(),
    }
}

/// The master key in a key file whose text decodes to `decoded`: the file
/// itself if it is 32 bytes long, else what it decodes to if that is.
pub fn select_master_key(raw: &[u8], decoded: Option<Vec<u8>>) -> (r: Result<
    [u8; MASTER_KEY_LEN],
>)
    ensures
        match r {
            Ok(key) => master_key_of(
                raw@,
                match decoded {
                    Some(d) => Some(d@),
                    None => None,
                },
            ) == Some(key@),
            Err(e) => master_key_of(
                raw@,
                match decoded {
                    Some(d) => Some(d@),
                    None => None,
                },
            ) is None && e.is_encryption(key_file_error(raw@.len())),
        },
{
    if raw.len() == MASTER_KEY_LEN {
        return Ok(hkdf::array32(raw));
    }
    let t: String = key_file_text(raw);
    if !t.as_str().is_empty() {
        match decoded {
            Some(d) => {
                if d.len() == MASTER_KEY_LEN {
                    return Ok(hkdf::array32(d.as_slice()));
                }
            },
            None => {},
        }
    }
    let mut message: String =
        "key file must contain exactly 32 bytes (raw) or base64-encoded, got ".to_owned();
    text::push_decimal(&mut message, raw.len() as u64);
    message.push_str(" bytes");
    Err(Error::Encryption(message))
}

/// The master key that the content of a key file holds: 32 raw bytes, or
/// base64 of 32 bytes with white space around it.
pub fn parse_master_key(raw: &[u8]) -> (r: Result<[u8; MASTER_KEY_LEN]>)
    ensures
        match r {
            Ok(key) => master_key_of(raw@, base64_decoded(key_text(raw@))) == Some(key@),
            Err(e) => master_key_of(raw@, base64_decoded(key_text(raw@))) is None
                && e.is_encryption(key_file_error(raw@.len())),
        },
{
    let t: String = key_file_text(raw);
    select_master_key(raw, base64_decode(t.as_str()))
}

/// Checks that a key has the length that the algorithm takes.
pub fn check_key_len(key: &[u8], algorithm: Algorithm) -> (r: Result<()>)
    ensures
        match r {
            Ok(_) => key@.len() == algorithm.spec_key_len(),
            Err(e) => key@.len() != algorithm.spec_key_len() && e.is_encryption(
                "key length mismatch for "@ + algorithm.name(),
            ),
        },
{
    if key.len() == algorithm.key_len() {
        Ok(())
    } else {
        Err(metadata_error("key length mismatch for ", algorithm.to_string().as_str()))
    }
}

/// `what` with two sizes in it.
pub open spec fn size_disagreement(what: Seq<char>, found: u64, stated: u64) -> Seq<char> {
    what + " ("@ + text::decimal(found as nat) + ") disagrees with metadata ("@ + text::decimal(
        stated as nat,
    ) + ")"@
}

fn size_error(what: &str, found: u64, stated: u64) -> (e: Error)
    ensures
        e.is_encryption(size_disagreement(what@, found, stated)),
{
    let mut message: String = what.to_owned();
    message.push_str(" (");
    text::push_decimal(&mut message, found);
    message.push_str(") disagrees with metadata (");
    text::push_decimal(&mut message, stated);
    message.push_str(")");
    Error::Encryption(message)
}

/// Checks the plaintext size that an opened container reports against the
/// metadata of the object.
pub fn check_plaintext_size(found: u64, info: &EncryptedFileInfo) -> (r: Result<()>)
    ensures
        match r {
            Ok(_) => found == info.plaintext_size,
            Err(e) => found != info.plaintext_size && e.is_encryption(
                size_disagreement("RAF plaintext size"@, found, info.plaintext_size),
            ),
        },
{
    if found == info.plaintext_size {
        Ok(())
    } else {
        Err(size_error("RAF plaintext size", found, info.plaintext_size))
    }
}

/// Checks the length of a ciphertext file against the metadata of the object.
pub fn check_ciphertext_size(found: u64, info: &EncryptedFileInfo) -> (r: Result<()>)
    ensures
        match r {
            Ok(_) => found == info.ciphertext_size,
            Err(e) => found != info.ciphertext_size && e.is_encryption(
                size_disagreement("ciphertext file size"@, found, info.ciphertext_size),
            ),
        },
{
    if found == info.ciphertext_size {
        Ok(())
    } else {
        Err(size_error("ciphertext file size", found, info.ciphertext_size))
    }
}

/// How much of a file to read next: what is left of it, at most one buffer,
/// and nothing at or past its end.
pub fn next_copy_len(size: u64, offset: u64) -> (n: usize)
    ensures
        n == if offset >= size {
            0
        } else if size - offset < COPY_BUF_SIZE {
            size - offset
        } else {
            COPY_BUF_SIZE as int
        },
{
    if offset >= size {
        0
    } else if size - offset < COPY_BUF_SIZE as u64 {
        (size - offset) as usize
    } else {
        COPY_BUF_SIZE
    }
}

/// The scheme of an algorithm is its name with what follows for its containers, and
/// only the algorithms have a scheme and a name.
pub proof fn law_schemes_go_by_the_name(a: Algorithm, s: Seq<char>)
    ensures
        a.scheme_name() == a.name() + seq!['-', 'r', 'a', 'f'],
        algorithm_of_scheme(s) matches Some(b) ==> b.scheme_name() == s,
        algorithm_of_name(s) matches Some(b) ==> b.name() == s,
{
    reveal_strlit("aegis-128l-raf");
    reveal_strlit("aegis-128x2-raf");
    reveal_strlit("aegis-128x4-raf");
    reveal_strlit("aegis-256-raf");
    reveal_strlit("aegis-256x2-raf");
    reveal_strlit("aegis-256x4-raf");
    reveal_strlit("aegis-128l");
    reveal_strlit("aegis-128x2");
    reveal_strlit("aegis-128x4");
    reveal_strlit("aegis-256");
    reveal_strlit("aegis-256x2");
    reveal_strlit("aegis-256x4");
    assert(a.scheme_name() =~= a.name() + seq!['-', 'r', 'a', 'f']);
}

/// The length of a key is the number of bits that the name of the algorithm gives.
pub proof fn law_key_lengths_go_by_the_name(a: Algorithm)
    ensures
        a.name().len() >= 9,
        text::decimal_value(a.name().subrange(6, 9)) == 8 * a.spec_key_len(),
{
    reveal_strlit("aegis-128l");
    reveal_strlit("aegis-128x2");
    reveal_strlit("aegis-128x4");
    reveal_strlit("aegis-256");
    reveal_strlit("aegis-256x2");
    reveal_strlit("aegis-256x4");
    let d = a.name().subrange(6, 9);
    let e = if a.spec_key_len() == 16 {
        seq!['1', '2', '8']
    } else {
        seq!['2', '5', '6']
    };
    assert(d =~= e);
    assert(e.drop_last() =~= seq![e[0], e[1]]);
    assert(e.drop_last().drop_last() =~= seq![e[0]]);
    assert(e.drop_last().drop_last().drop_last() =~= Seq::empty());
    reveal_with_fuel(text::decimal_value, 4);
}

/// What does not start with the media type of encrypted objects is no encrypted
/// object, whatever it says.
pub proof fn law_other_types_are_not_encrypted(ct: Seq<char>)
    requires
        !"application/vnd.hf-mount+enc"@.is_prefix_of(ct),
    ensures
        parsed_content_type(ct) == Ok::<Option<EncryptedFileInfo>, Seq<char>>(None),
{
}

/// The content type of an object gives the scheme, the chunk size, the size of the
/// plaintext and that of the object, in this order.
pub proof fn law_content_type_layout(info: EncryptedFileInfo)
    ensures
        content_type(info) == "application/vnd.hf-mount+enc"@ + seq![';'] + text::join(
            seq![
                " scheme="@ + info.algorithm.name() + "-raf"@,
                " chunk="@ + text::decimal(info.chunk_size as nat),
                " size="@ + text::decimal(info.plaintext_size as nat),
                " stored="@ + text::decimal(info.ciphertext_size as nat),
            ],
            ';',
        ),
{
    reveal_strlit("; scheme=");
    reveal_strlit("; chunk=");
    reveal_strlit("; size=");
    reveal_strlit("; stored=");
    reveal_strlit(" scheme=");
    reveal_strlit(" chunk=");
    reveal_strlit(" size=");
    reveal_strlit(" stored=");
    reveal_strlit("-raf");
    law_schemes_go_by_the_name(info.algorithm, Seq::empty());
    let a = " scheme="@ + info.algorithm.name() + "-raf"@;
    let b = " chunk="@ + text::decimal(info.chunk_size as nat);
    let c = " size="@ + text::decimal(info.plaintext_size as nat);
    let d = " stored="@ + text::decimal(info.ciphertext_size as nat);
    let all = seq![a, b, c, d];
    assert(all.drop_first() =~= seq![b, c, d]);
    assert(seq![b, c, d].drop_first() =~= seq![c, d]);
    assert(seq![c, d].drop_first() =~= seq![d]);
    assert(text::join(seq![d], ';') == d);
    assert(text::join(seq![c, d], ';') == c.push(';') + d);
    assert(text::join(seq![b, c, d], ';') == b.push(';') + (c.push(';') + d));
    assert(text::join(all, ';') == a.push(';') + (b.push(';') + (c.push(';') + d)));
    assert(" scheme="@ + info.algorithm.name() + "-raf"@ =~= " scheme="@
        + info.algorithm.scheme_name());
    assert("; scheme="@ =~= seq![';'] + " scheme="@);
    assert("; chunk="@ =~= seq![';'] + " chunk="@);
    assert("; size="@ =~= seq![';'] + " size="@);
    assert("; stored="@ =~= seq![';'] + " stored="@);
    assert(content_type(info) =~= "application/vnd.hf-mount+enc"@ + seq![';'] + text::join(
        all,
        ';',
    ));
}

/// What the parameters of a content type give is what is read: the value that stands
/// last for each key, and a chunk of 65536 bytes where none is given.
pub proof fn law_last_values_are_read(ct: Seq<char>, info: EncryptedFileInfo)
    requires
        parsed_content_type(ct) == Ok::<Option<EncryptedFileInfo>, Seq<char>>(Some(info)),
    ensures
        ({
            let params = content_type_params(ct);
            &&& last_value(params, "scheme"@) == Some(info.algorithm.scheme_name())
            &&& last_value(params, "size"@) matches Some(v) && text::parsed(v, u64::MAX as nat)
                == Some(info.plaintext_size as nat)
            &&& last_value(params, "stored"@) matches Some(v) && text::parsed(v, u64::MAX as nat)
                == Some(info.ciphertext_size as nat)
            &&& last_value(params, "chunk"@) matches Some(v) ==> text::parsed(v, u32::MAX as nat)
                == Some(info.chunk_size as nat)
            &&& last_value(params, "chunk"@) is None ==> info.chunk_size == 65536
        }),
{
    let params = content_type_params(ct);
    let v = last_value(params, "scheme"@);
    law_schemes_go_by_the_name(info.algorithm, v->0);
    if last_value(params, "chunk"@) is Some {
        lemma_chunk_is_sound(params, params);
    }
}

proof fn lemma_chunk_is_sound(params: Seq<Seq<char>>, all: Seq<Seq<char>>)
    requires
        params.is_prefix_of(all),
        first_param_error(all) is None,
        last_value(params, "chunk"@) is Some,
    ensures
        text::parsed(last_value(params, "chunk"@)->0, u32::MAX as nat) is Some,
    decreases params.len(),
{
    lemma_keys_distinct();
    let k = params.len() - 1;
    assert(params[k] == all[k]);
    if has_key(params.last(), "chunk"@) {
        if param_error(all[k]) is Some {
            lemma_some_param_error(all, k);
        }
    } else {
        assert(params.drop_last().is_prefix_of(all)) by {
            assert(params.drop_last() =~= all.subrange(0, k));
        }
        lemma_chunk_is_sound(params.drop_last(), all);
    }
}

/// A content type with an unknown scheme, or with a size that is no number, is
/// refused, wherever that stands; so is one without a scheme, a size or a stored
/// size.
pub proof fn law_unsound_parameters_are_refused(ct: Seq<char>, i: int)
    requires
        "application/vnd.hf-mount+enc"@.is_prefix_of(ct),
    ensures
        ({
            let params = content_type_params(ct);
            let value = param_value(params[i]);
            &&& 0 <= i < params.len() && has_key(params[i], "scheme"@) && algorithm_of_scheme(value)
                is None ==> parsed_content_type(ct) is Err
            &&& 0 <= i < params.len() && has_key(params[i], "chunk"@) && text::parsed(
                value,
                0xFFFF_FFFF,
            ) is None ==> parsed_content_type(ct) is Err
            &&& 0 <= i < params.len() && (has_key(params[i], "size"@) || has_key(
                params[i],
                "stored"@,
            )) && text::parsed(value, 0xFFFF_FFFF_FFFF_FFFF) is None ==> parsed_content_type(ct) is Err
            &&& last_value(params, "scheme"@) is None || last_value(params, "size"@) is None
                || last_value(params, "stored"@) is None ==> parsed_content_type(ct) is Err
        }),
{
    lemma_keys_distinct();
    let params = content_type_params(ct);
    if 0 <= i < params.len() && param_error(params[i]) is Some {
        lemma_some_param_error(params, i);
    }
}

/// A length is written with its high byte first, cut off at sixteen bits.
pub proof fn law_lengths_are_written_high_byte_first(n: nat)
    ensures
        be16(n).len() == 2,
        256 * be16(n)[0] + be16(n)[1] == n % 65536,
{
}

/// The info of a key starts with what the key is for and its version, and then gives
/// the source behind its length; that of a content key ends with the scheme behind
/// its length.
pub proof fn law_key_info_layout(source: Seq<char>, a: Algorithm)
    ensures
        ({
            let s = encode_utf8(source);
            let scheme = encode_utf8(a.scheme_name());
            let info = key_info(source, a);
            let name = filename_info(source);
            &&& info.take(18) == encode_utf8("hf-mount-derive-v1"@)
            &&& info.len() == 22 + s.len() + scheme.len()
            &&& info.subrange(20, 20 + s.len() as int) == s
            &&& 256 * info[18] + info[19] == s.len() % 65536
            &&& 256 * info[20 + s.len() as int] + info[21 + s.len() as int] == scheme.len()
            &&& info.skip(22 + s.len() as int) == scheme
            &&& name.take(20) == encode_utf8("hf-mount-filename-v1"@)
            &&& name.len() == 22 + s.len()
            &&& 256 * name[20] + name[21] == s.len() % 65536
            &&& name.skip(22) == s
        }),
{
    let s = encode_utf8(source);
    let scheme = encode_utf8(a.scheme_name());
    let info = key_info(source, a);
    let name = filename_info(source);
    reveal_strlit("hf-mount-derive-v1");
    reveal_strlit("hf-mount-filename-v1");
    vstd::utf8::is_ascii_chars_encode_utf8("hf-mount-derive-v1"@);
    vstd::utf8::is_ascii_chars_encode_utf8("hf-mount-filename-v1"@);
    lemma_scheme_len(a);
    let n = s.len() as int;
    assert(info.take(18) =~= encode_utf8("hf-mount-derive-v1"@));
    assert(info.subrange(20, 20 + n) =~= s);
    assert(info[18] == be16(s.len())[0] && info[19] == be16(s.len())[1]);
    assert(info[20 + n] == be16(scheme.len())[0] && info[21 + n] == be16(scheme.len())[1]);
    assert(info.skip(22 + n) =~= scheme);
    assert(name.take(20) =~= encode_utf8("hf-mount-filename-v1"@));
    assert(name[20] == be16(s.len())[0] && name[21] == be16(s.len())[1]);
    assert(name.skip(22) =~= s);
}

/// A content key is derived for its source and algorithm, as long as the algorithm
/// takes it, from the key that is extracted with the salt of the first version.
pub proof fn law_content_keys_are_derived(master: [u8; 32], prk: [u8; 32], source: &str, a: Algorithm, key: Vec<u8>)
    requires
        call_ensures(extract_prk, (&master,), prk),
        call_ensures(derive_key, (&prk, source, a), key),
    ensures
        prk@ == hkdf::hkdf_extracted(encode_utf8("hf-mount-v1"@), master@),
        8 * key@.len() == text::decimal_value(a.name().subrange(6, 9)),
        key@ == hkdf::hkdf_expanded(prk@, key_info(source@, a), key@.len()),
{
    law_key_lengths_go_by_the_name(a);
}

/// A key file of 32 bytes is the key itself; any other that is text holds a key if
/// its text decodes to 32 bytes, and that is the key. All else is refused.
pub proof fn law_key_files_hold_32_bytes(
    raw: &[u8],
    decoded: Option<Vec<u8>>,
    r: Result<[u8; 32]>,
)
    requires
        call_ensures(select_master_key, (raw, decoded), r),
    ensures
        raw@.len() == 32 ==> r is Ok && r->Ok_0@ == raw@,
        raw@.len() != 32 && decoded is Some && decoded->0@.len() == 32 && valid_utf8(raw@)
            && text::trimmed(decode_utf8(raw@)).len() > 0 ==> r is Ok && r->Ok_0@ == decoded->0@,
        raw@.len() != 32 && decoded is None ==> r is Err,
        raw@.len() != 32 && decoded is Some && decoded->0@.len() != 32 ==> r is Err,
        raw@.len() != 32 && !valid_utf8(raw@) ==> r is Err,
{
}

/// Base64 is read over the standard alphabet, and over the one for URLs where that
/// fails.
pub proof fn law_both_alphabets_are_read(s: Seq<char>)
    ensures
        base64_standard(s) is Some ==> base64_decoded(s) == base64_standard(s),
        base64_standard(s) is None ==> base64_decoded(s) == base64_url_safe(s),
{
}

/// A file is copied in steps of 65536 bytes, the last of which ends with the file:
/// a step makes headway until the end and never reaches past it.
pub proof fn law_copies_end_with_the_file(size: u64, offset: u64, n: usize)
    requires
        call_ensures(next_copy_len, (size, offset), n),
    ensures
        n == 0 <==> offset >= size,
        offset <= size ==> offset + n <= size,
        n <= 65536,
        n < 65536 ==> offset + n >= size,
{
}

/// The first thing that is wrong with the parameters of a content type is what is
/// said of it, and the value that is wrong stands at the end.
pub proof fn law_first_fault_is_reported(ct: Seq<char>, k: int)
    requires
        "application/vnd.hf-mount+enc"@.is_prefix_of(ct),
        0 <= k < content_type_params(ct).len(),
        param_error(content_type_params(ct)[k]) is Some,
        forall|i: int|
            0 <= i < k ==> param_error(#[trigger] content_type_params(ct)[i]) is None,
    ensures
        parsed_content_type(ct) is Err,
        ({
            let said = parsed_content_type(ct)->Err_0;
            let value = param_value(content_type_params(ct)[k]);
            said.len() >= value.len() && said.skip(said.len() - value.len()) == value
        }),
{
    let params = content_type_params(ct);
    let value = param_value(params[k]);
    lemma_first_param_error(params, k);
    let said = param_error(params[k])->0;
    assert(said.skip(said.len() - value.len()) =~= value);
}

/// A size that disagrees with the metadata is refused, and one that agrees is not.
pub proof fn law_sizes_must_agree(
    found: u64,
    info: EncryptedFileInfo,
    plain: Result<()>,
    cipher: Result<()>,
)
    requires
        call_ensures(check_plaintext_size, (found, &info), plain),
        call_ensures(check_ciphertext_size, (found, &info), cipher),
    ensures
        plain is Ok <==> found == info.plaintext_size,
        cipher is Ok <==> found == info.ciphertext_size,
{
}

/// A mount derives its content keys from its own key and source, and a filename key
/// is derived for the source by another info.
pub proof fn law_mounts_derive_their_own_keys(
    c: EncryptionConfig,
    a: Algorithm,
    key: Vec<u8>,
    source: &str,
    name_key: [u8; 16],
)
    requires
        call_ensures(EncryptionConfig::derive_key, (&c, a), key),
        call_ensures(derive_filename_key, (&c.prk, source), name_key),
    ensures
        key@ == hkdf::hkdf_expanded(
            c.prk@,
            key_info(c.source_context@, a),
            if text::decimal_value(a.name().subrange(6, 9)) == 256 {
                32
            } else {
                16
            },
        ),
        name_key@ == hkdf::hkdf_expanded(c.prk@, filename_info(source@), 16),
{
    law_key_lengths_go_by_the_name(a);
}

/// Of several parameters with one key the last one counts: what stands in it is what
/// is read.
pub proof fn law_later_parameters_win(ct: Seq<char>, info: EncryptedFileInfo, k: int)
    requires
        parsed_content_type(ct) == Ok::<Option<EncryptedFileInfo>, Seq<char>>(Some(info)),
        0 <= k < content_type_params(ct).len(),
        text::trimmed(content_type_params(ct)[k]).contains('='),
        forall|j: int|
            k < j < content_type_params(ct).len() ==> param_key(
                #[trigger] content_type_params(ct)[j],
            ) != param_key(content_type_params(ct)[k]),
    ensures
        ({
            let key = param_key(content_type_params(ct)[k]);
            let value = param_value(content_type_params(ct)[k]);
            &&& key == "scheme"@ ==> value == info.algorithm.name() + seq!['-', 'r', 'a', 'f']
            &&& key == "size"@ ==> text::parsed(value, 0xFFFF_FFFF_FFFF_FFFF) == Some(
                info.plaintext_size as nat,
            )
            &&& key == "stored"@ ==> text::parsed(value, 0xFFFF_FFFF_FFFF_FFFF) == Some(
                info.ciphertext_size as nat,
            )
            &&& key == "chunk"@ ==> text::parsed(value, 0xFFFF_FFFF) == Some(
                info.chunk_size as nat,
            )
        }),
{
    let params = content_type_params(ct);
    let key = param_key(params[k]);
    lemma_value_of_last(params, key, k);
    law_last_values_are_read(ct, info);
    law_schemes_go_by_the_name(info.algorithm, Seq::empty());
}

proof fn lemma_value_of_last(params: Seq<Seq<char>>, key: Seq<char>, k: int)
    requires
        0 <= k < params.len(),
        has_key(params[k], key),
        forall|j: int| k < j < params.len() ==> param_key(#[trigger] params[j]) != key,
    ensures
        last_value(params, key) == Some(param_value(params[k])),
    decreases params.len(),
{
    let last = params.len() - 1;
    if k < last {
        let rest = params.drop_last();
        assert(params[last] == params.last());
        assert(rest[k] == params[k]);
        assert forall|j: int| k < j < rest.len() implies param_key(#[trigger] rest[j]) != key by {
            assert(rest[j] == params[j]);
        }
        lemma_value_of_last(rest, key, k);
    }
}

} // verus!
