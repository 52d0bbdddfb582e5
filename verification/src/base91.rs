//! Base91 binary-to-text encoding over a filesystem-safe alphabet.
//!
//! The filesystem alphabet is the standard basE91 alphabet with `/` swapped
//! for `'`, so an encoded value is always a single legal path component: it
//! never contains `/` or NUL.
//!
//! A message is read as one little-endian number. [`encode`] cuts that number
//! into groups of 13 or 14 bits and writes each group as two base-91 digits;
//! [`decode`] puts the groups back together.
//!
//! Encrypted filenames are both produced and consumed by this crate, so the
//! property that matters is that [`encode`] and [`decode`] are exact inverses:
//! text that no bytes are written as is refused. [`unpack`] is the reading of
//! the groups alone.

use vstd::arithmetic::power2::{lemma2_to64, lemma_pow2_adds, lemma_pow2_pos, pow2};
use vstd::bits::lemma_u32_shl_is_mul;
use vstd::prelude::*;

use crate::text;

verus! {

/// The 91 symbols, in digit order.
pub const ALPHABET: [u8; 91] = [
    // ABCDEFGHIJKLM
    65, 66, 67, 68, 69, 70, 71, 72, 73, 74, 75, 76, 77,
    // NOPQRSTUVWXYZ
    78, 79, 80, 81, 82, 83, 84, 85, 86, 87, 88, 89, 90,
    // abcdefghijklm
    97, 98, 99, 100, 101, 102, 103, 104, 105, 106, 107, 108, 109,
    // nopqrstuvwxyz
    110, 111, 112, 113, 114, 115, 116, 117, 118, 119, 120, 121, 122,
    // 0123456789
    48, 49, 50, 51, 52, 53, 54, 55, 56, 57,
    // !#$%&()*+,.':
    33, 35, 36, 37, 38, 40, 41, 42, 43, 44, 46, 39, 58,
    // ;<=>?@[]^_`{|}~"
    59, 60, 61, 62, 63, 64, 91, 93, 94, 95, 96, 123, 124, 125, 126, 34,
];

/// Failure modes when decoding malformed base91 input.
#[derive(Debug, Clone, Copy, PartialEq, Eq, Structural)]
pub enum Error {
    /// A character that is not part of the filesystem alphabet.
    InvalidCharacter,
    /// Trailing bits that cannot correspond to any encoded input.
    InvalidPadding,
}

impl Error {
    /// The message of this error.
    pub open spec fn message(self) -> Seq<char> {
        match self {
            Error::InvalidCharacter => "invalid base91 character"@,
            Error::InvalidPadding => "invalid base91 padding"@,
        }
    }

    /// The message of this error, as a string.
    pub fn to_string(&self) -> (s: String)
        ensures
            s@ == self.message(),
    {
        match self {
            Error::InvalidCharacter => "invalid base91 character".to_owned(),
            Error::InvalidPadding => "invalid base91 padding".to_owned(),
        }
    }
}

/// The number that `bytes` spell, least significant byte first.
pub open spec fn le_value(bytes: Seq<u8>) -> nat
    decreases bytes.len(),
{
    if bytes.len() == 0 {
        0
    } else {
        bytes[0] as nat + 256 * le_value(bytes.drop_first())
    }
}

/// The `n` low bytes of `value`, least significant byte first.
pub open spec fn le_bytes(value: nat, n: nat) -> Seq<u8>
    decreases n,
{
    if n == 0 {
        Seq::empty()
    } else {
        seq![(value % 256) as u8] + le_bytes(value / 256, (n - 1) as nat)
    }
}

/// The symbol of digit `d`.
pub open spec fn symbol(d: nat) -> char {
    ALPHABET[d as int] as char
}

/// Whether `c` belongs to the alphabet.
pub open spec fn is_symbol(c: char) -> bool {
    exists|d: nat| d < 91 && #[trigger] symbol(d) == c
}

/// The digit that `c` stands for, where `c` is a symbol.
pub open spec fn digit_of(c: char) -> nat {
    choose|d: nat| d < 91 && #[trigger] symbol(d) == c
}

/// The two base-91 digits of `v`, low digit first.
pub open spec fn digit_pair(v: nat) -> Seq<nat> {
    seq![v % 91, v / 91]
}

/// The digits of a `bits`-bit number `value`. While more than 13 bits remain a
/// group is 13 bits wide, or 14 where the low 13 bits are at most 88: those
/// are the 14-bit values that still fit in two digits. What remains at the end
/// takes one digit if it is at most 7 bits wide and fits, else two.
pub open spec fn digits_of_value(value: nat, bits: nat) -> Seq<nat>
    decreases bits,
{
    if bits > 13 {
        if value % 8192 > 88 {
            digit_pair(value % 8192) + digits_of_value(value / 8192, (bits - 13) as nat)
        } else {
            digit_pair(value % 16384) + digits_of_value(value / 16384, (bits - 14) as nat)
        }
    } else if bits == 0 {
        Seq::empty()
    } else if bits <= 7 && value <= 90 {
        seq![value]
    } else {
        digit_pair(value)
    }
}

/// The base91 text of `bytes`.
pub open spec fn encoded(bytes: Seq<u8>) -> Seq<char> {
    digits_of_value(le_value(bytes), 8 * bytes.len()).map_values(|d: nat| symbol(d))
}

/// How many bits a group with value `v` carries.
pub open spec fn group_width(v: nat) -> nat {
    if v % 8192 > 88 {
        13
    } else {
        14
    }
}

/// The number that a string of digits carries.
pub open spec fn digits_value(digits: Seq<nat>) -> nat
    decreases digits.len(),
{
    if digits.len() == 0 {
        0
    } else if digits.len() == 1 {
        digits[0]
    } else {
        let v = digits[0] + 91 * digits[1];
        v + pow2(group_width(v)) * digits_value(digits.skip(2))
    }
}

/// How many bits the digit pairs of `digits` carry.
pub open spec fn digits_bits(digits: Seq<nat>) -> nat
    decreases digits.len(),
{
    if digits.len() < 2 {
        0
    } else {
        group_width(digits[0] + 91 * digits[1]) + digits_bits(digits.skip(2))
    }
}

/// How many bytes `digits` decode to: the whole bytes in its pairs, and one
/// more for a digit without a partner.
pub open spec fn digits_bytes(digits: Seq<nat>) -> nat {
    digits_bits(digits) / 8 + digits.len() % 2
}

/// What the groups of `text` hold: the bytes of the number that its digits
/// carry, if every character is a symbol and no bit lies beyond the last whole
/// byte.
pub open spec fn unpacked(text: Seq<char>) -> Result<Seq<u8>, Error> {
    let digits = text.map_values(|c: char| digit_of(c));
    if !(forall|i: int| 0 <= i < text.len() ==> is_symbol(#[trigger] text[i])) {
        Err(Error::InvalidCharacter)
    } else if digits_value(digits) >= pow2(8 * digits_bytes(digits)) {
        Err(Error::InvalidPadding)
    } else {
        Ok(le_bytes(digits_value(digits), digits_bytes(digits)))
    }
}

/// What `text` decodes to: the bytes in its groups, if those bytes are written
/// as `text`.
pub open spec fn decoded(text: Seq<char>) -> Result<Seq<u8>, Error> {
    match unpacked(text) {
        Ok(bytes) => if encoded(bytes) == text {
            Ok(bytes)
        } else {
            Err(Error::InvalidPadding)
        },
        Err(e) => Err(e),
    }
}

/// The bound that [`encoded_len_upper_bound`] gives for `n` bytes.
pub open spec fn encoded_len_bound(n: nat) -> nat {
    2 * (8 * n / 13) + if 8 * n % 13 > 0 {
        2nat
    } else {
        0nat
    }
}

/// The greatest length that the text of `n` bytes can have: what is left behind
/// the groups of 13 bits takes one digit if it is at most 6 bits wide, else two.
pub open spec fn encoded_len_worst(n: nat) -> nat {
    2 * (8 * n / 13) + tail_len_worst(8 * n % 13)
}

/// The most digits that fewer than 13 bits can take.
pub open spec fn tail_len_worst(bits: nat) -> nat {
    if bits == 0 {
        0
    } else if bits <= 6 {
        1
    } else {
        2
    }
}

/// The least length that the text of `n` bytes can have.
pub open spec fn encoded_len_floor(n: nat) -> nat {
    2 * (8 * n / 14) + if 8 * n % 14 > 0 {
        1nat
    } else {
        0nat
    }
}

proof fn lemma_symbol_injective(d: nat, e: nat)
    requires
        d < 91,
        e < 91,
        symbol(d) == symbol(e),
    ensures
        d == e,
{
    assert(ALPHABET[d as int] == ALPHABET[e as int]);
}

proof fn lemma_digit_of_symbol(d: nat)
    requires
        d < 91,
    ensures
        is_symbol(symbol(d)),
        digit_of(symbol(d)) == d,
{
    let c = symbol(d);
    assert(symbol(d) == c);
    let e = choose|e: nat| e < 91 && #[trigger] symbol(e) == c;
    lemma_symbol_injective(d, e);
}

proof fn lemma_le_value_bound(bytes: Seq<u8>)
    ensures
        le_value(bytes) < pow2(8 * bytes.len()),
    decreases bytes.len(),
{
    lemma2_to64();
    if bytes.len() > 0 {
        let rest = bytes.drop_first();
        lemma_le_value_bound(rest);
        lemma_pow2_adds(8, 8 * rest.len());
        assert(8 * bytes.len() == 8 + 8 * rest.len());
    }
}

proof fn lemma_le_value_push(bytes: Seq<u8>, b: u8)
    ensures
        le_value(bytes.push(b)) == le_value(bytes) + pow2(8 * bytes.len()) * b,
    decreases bytes.len(),
{
    lemma2_to64();
    if bytes.len() == 0 {
        assert(bytes.push(b).drop_first() =~= Seq::<u8>::empty());
        assert(le_value(bytes.push(b).drop_first()) == 0);
        assert(pow2(0) * b == b) by (nonlinear_arith)
            requires
                pow2(0) == 1,
        ;
    } else {
        let rest = bytes.drop_first();
        assert(bytes.push(b).drop_first() =~= rest.push(b));
        lemma_le_value_push(rest, b);
        lemma_pow2_adds(8, 8 * rest.len());
        assert(8 * bytes.len() == 8 + 8 * rest.len());
        let p = pow2(8 * rest.len());
        assert(256 * (p * b) == (256 * p) * b) by (nonlinear_arith);
    }
}

proof fn lemma_le_bytes_of_value(bytes: Seq<u8>)
    ensures
        le_bytes(le_value(bytes), bytes.len()) == bytes,
    decreases bytes.len(),
{
    if bytes.len() > 0 {
        let rest = bytes.drop_first();
        lemma_le_bytes_of_value(rest);
        assert(le_value(bytes) % 256 == bytes[0]);
        assert(le_value(bytes) / 256 == le_value(rest));
        assert(bytes =~= seq![bytes[0]] + rest);
    } else {
        assert(bytes =~= Seq::empty());
    }
}

/// Dropping the low `w` bits of `lo + 2^(w+k) * hi`, where `lo` is shorter.
proof fn lemma_split_low(lo: nat, w: nat, k: nat, hi: nat)
    ensures
        (lo + pow2(w + k) * hi) % pow2(w) == lo % pow2(w),
        (lo + pow2(w + k) * hi) / pow2(w) == lo / pow2(w) + pow2(k) * hi,
{
    let p = pow2(w);
    let m = pow2(k) * hi;
    lemma_pow2_pos(w);
    lemma_pow2_adds(w, k);
    assert(pow2(w + k) * hi == p * m) by (nonlinear_arith)
        requires
            pow2(w + k) == p * pow2(k),
            m == pow2(k) * hi,
    ;
    vstd::arithmetic::div_mod::lemma_hoist_over_denominator(lo as int, m as int, p);
    vstd::arithmetic::div_mod::lemma_mod_multiples_vanish(m as int, lo as int, p as int);
}

proof fn lemma_low_bits_bound(value: nat, bits: nat, w: nat)
    requires
        w <= bits,
        value < pow2(bits),
    ensures
        value / pow2(w) < pow2((bits - w) as nat),
{
    lemma_pow2_pos(w);
    lemma_pow2_adds(w, (bits - w) as nat);
    vstd::arithmetic::div_mod::lemma_div_by_multiple_is_strongly_ordered(
        value as int,
        pow2(bits) as int,
        pow2((bits - w) as nat) as int,
        pow2(w) as int,
    );
    vstd::arithmetic::div_mod::lemma_div_by_multiple(pow2((bits - w) as nat) as int, pow2(w) as int);
    assert(pow2((bits - w) as nat) * pow2(w) == pow2(w) * pow2((bits - w) as nat))
        by (nonlinear_arith);
}

/// A pair of digits in front of `rest` adds one group below what `rest` carries.
proof fn lemma_digits_cons(v: nat, rest: Seq<nat>)
    ensures
        digits_value(digit_pair(v) + rest) == v + pow2(group_width(v)) * digits_value(rest),
        digits_bits(digit_pair(v) + rest) == group_width(v) + digits_bits(rest),
{
    let d = digit_pair(v) + rest;
    assert(d.skip(2) =~= rest);
    assert(d[0] == v % 91 && d[1] == v / 91);
    assert(d[0] + 91 * d[1] == v);
}

/// The group that the encoder takes from `value` is the low bits of `value`.
proof fn lemma_group(value: nat) -> (v: nat)
    ensures
        v == (if value % 8192 > 88 {
            value % 8192
        } else {
            value % 16384
        }),
        v <= 8280,
        group_width(v) == (if value % 8192 > 88 {
            13nat
        } else {
            14nat
        }),
        v == value % pow2(group_width(v)),
        v + pow2(group_width(v)) * (value / pow2(group_width(v))) == value,
{
    assert(pow2(13) == 8192 && pow2(14) == 16384) by {
        lemma2_to64();
    }
    let v = if value % 8192 > 88 {
        value % 8192
    } else {
        value % 16384
    };
    assert(group_width(v) == 13 || group_width(v) == 14);
    vstd::arithmetic::div_mod::lemma_fundamental_div_mod(
        value as int,
        pow2(group_width(v)) as int,
    );
    v
}

/// What [`law_decode_inverts_encode`] needs to know of the digits of a number.
spec fn digits_carry(digits: Seq<nat>, value: nat, bits: nat) -> bool {
    &&& digits_value(digits) == value
    &&& digits.len() % 2 == 0 ==> bits <= digits_bits(digits) <= bits + 7
    &&& digits.len() % 2 == 1 ==> bits - 7 <= digits_bits(digits) <= bits - 1
    &&& forall|i: int| 0 <= i < digits.len() ==> #[trigger] digits[i] < 91
}

proof fn lemma_digits_tail(value: nat, bits: nat)
    requires
        value < pow2(bits),
        bits <= 13,
    ensures
        digits_carry(digits_of_value(value, bits), value, bits),
{
    let d = digits_of_value(value, bits);
    assert(pow2(0) == 1 && pow2(6) == 64 && pow2(13) == 8192) by {
        lemma2_to64();
    }
    if bits == 0 {
    } else if bits <= 7 && value <= 90 {
    } else {
        if bits < 13 {
            vstd::arithmetic::power2::lemma_pow2_strictly_increases(bits, 13);
        }
        if bits < 6 {
            vstd::arithmetic::power2::lemma_pow2_strictly_increases(bits, 6);
        }
        assert(bits >= 7);
        lemma_digits_cons(value, Seq::empty());
        assert(d =~= digit_pair(value) + Seq::empty());
        assert(digits_value(Seq::empty()) == 0 && digits_bits(Seq::empty()) == 0);
    }
}

/// The digits of a number carry that number, and the number of bits in their
/// pairs is within a byte of the width that was encoded.
proof fn lemma_digits_round_trip(value: nat, bits: nat)
    requires
        value < pow2(bits),
    ensures
        digits_carry(digits_of_value(value, bits), value, bits),
    decreases bits,
{
    if bits > 13 {
        let d = digits_of_value(value, bits);
        let v = lemma_group(value);
        let w = group_width(v);
        assert(pow2(13) == 8192 && pow2(14) == 16384) by {
            lemma2_to64();
        }
        lemma_low_bits_bound(value, bits, w);
        let rest = digits_of_value(value / pow2(w), (bits - w) as nat);
        lemma_digits_round_trip(value / pow2(w), (bits - w) as nat);
        assert(d == digit_pair(v) + rest);
        lemma_digits_cons(v, rest);
        assert forall|i: int| 0 <= i < d.len() implies #[trigger] d[i] < 91 by {
            if i >= 2 {
                assert(d[i] == rest[i - 2]);
            }
        }
    } else {
        lemma_digits_tail(value, bits);
    }
}

/// [`decode`] undoes [`encode`]: every byte string comes back from its text.
pub proof fn law_decode_inverts_encode(bytes: Seq<u8>)
    ensures
        decoded(encoded(bytes)) == Ok::<Seq<u8>, Error>(bytes),
{
    lemma_unpack_inverts_encode(bytes);
}

/// [`encode`] undoes [`decode`]: text that decodes is the text of what it
/// decodes to.
pub proof fn law_encode_inverts_decode(text: Seq<char>)
    ensures
        decoded(text) matches Ok(bytes) ==> encoded(bytes) == text,
{
}

/// The groups of encoded text hold what was encoded.
pub proof fn lemma_unpack_inverts_encode(bytes: Seq<u8>)
    ensures
        unpacked(encoded(bytes)) == Ok::<Seq<u8>, Error>(bytes),
{
    let value = le_value(bytes);
    let digits = digits_of_value(value, 8 * bytes.len());
    let text = encoded(bytes);
    lemma_le_value_bound(bytes);
    lemma_digits_round_trip(value, 8 * bytes.len());
    assert forall|i: int| 0 <= i < text.len() implies is_symbol(#[trigger] text[i]) && digit_of(
        text[i],
    ) == digits[i] by {
        lemma_digit_of_symbol(digits[i]);
    }
    assert(text.map_values(|c: char| digit_of(c)) =~= digits);
    assert(digits_bytes(digits) == bytes.len());
    lemma_le_bytes_of_value(bytes);
}

proof fn lemma_digits_len(value: nat, bits: nat)
    ensures
        digits_of_value(value, bits).len() <= 2 * (bits / 13) + if bits % 13 > 0 {
            2nat
        } else {
            0nat
        },
        digits_of_value(value, bits).len() >= 2 * (bits / 14) + if bits % 14 > 0 {
            1nat
        } else {
            0nat
        },
    decreases bits,
{
    if bits > 13 {
        if value % 8192 > 88 {
            lemma_digits_len(value / 8192, (bits - 13) as nat);
        } else {
            lemma_digits_len(value / 16384, (bits - 14) as nat);
        }
    }
}

/// The text of `n` bytes is never longer than the bound for `n`, and never
/// shorter than the floor for `n`.
pub proof fn law_encoded_len_within_bound(bytes: Seq<u8>)
    ensures
        encoded_len_floor(bytes.len()) <= encoded(bytes).len() <= encoded_len_bound(bytes.len()),
{
    lemma_digits_len(le_value(bytes), 8 * bytes.len());
}

proof fn lemma_digits_len_worst(value: nat, bits: nat)
    requires
        value < pow2(bits),
    ensures
        digits_of_value(value, bits).len() <= 2 * (bits / 13) + tail_len_worst(bits % 13),
    decreases bits,
{
    assert(pow2(6) == 64 && pow2(13) == 8192 && pow2(14) == 16384) by {
        lemma2_to64();
    }
    if bits > 13 {
        if value % 8192 > 88 {
            lemma_low_bits_bound(value, bits, 13);
            lemma_digits_len_worst(value / 8192, (bits - 13) as nat);
        } else {
            lemma_low_bits_bound(value, bits, 14);
            lemma_digits_len_worst(value / 16384, (bits - 14) as nat);
        }
    } else if bits < 6 {
        vstd::arithmetic::power2::lemma_pow2_strictly_increases(bits, 6);
    }
}

/// A number whose bits are all set has the longest digits of its width.
proof fn lemma_ones_take_most_digits(bits: nat)
    ensures
        digits_of_value((pow2(bits) - 1) as nat, bits).len() == 2 * (bits / 13) + tail_len_worst(
            bits % 13,
        ),
    decreases bits,
{
    assert(pow2(0) == 1 && pow2(6) == 64 && pow2(7) == 128 && pow2(13) == 8192) by {
        lemma2_to64();
    }
    lemma_pow2_pos(bits);
    if bits > 13 {
        let rest = (bits - 13) as nat;
        lemma_pow2_adds(13, rest);
        lemma_pow2_pos(rest);
        assert((pow2(bits) - 1) % 8192 == 8191);
        assert((pow2(bits) - 1) / 8192 == pow2(rest) - 1);
        lemma_ones_take_most_digits(rest);
    } else if bits < 6 {
        vstd::arithmetic::power2::lemma_pow2_strictly_increases(bits, 6);
    }
}

proof fn lemma_le_value_of_ones(n: nat)
    ensures
        le_value(Seq::new(n, |i: int| 255u8)) == pow2(8 * n) - 1,
    decreases n,
{
    let bytes = Seq::new(n, |i: int| 255u8);
    assert(pow2(0) == 1 && pow2(8) == 256) by {
        lemma2_to64();
    }
    if n > 0 {
        let rest = (n - 1) as nat;
        assert(bytes.drop_first() =~= Seq::new(rest, |i: int| 255u8));
        lemma_le_value_of_ones(rest);
        lemma_pow2_adds(8, 8 * rest);
        assert(8 * n == 8 + 8 * rest);
    }
}

/// No `n` bytes have longer text than [`encoded_len_worst`] says, and some have
/// text of that length.
pub proof fn law_longest_text(n: nat)
    ensures
        forall|bytes: Seq<u8>|
            bytes.len() == n ==> #[trigger] encoded(bytes).len() <= encoded_len_worst(n),
        exists|bytes: Seq<u8>|
            bytes.len() == n && #[trigger] encoded(bytes).len() == encoded_len_worst(n),
{
    assert forall|bytes: Seq<u8>| bytes.len() == n implies #[trigger] encoded(bytes).len()
        <= encoded_len_worst(n) by {
        lemma_le_value_bound(bytes);
        lemma_digits_len_worst(le_value(bytes), 8 * n);
    }
    let ones = Seq::new(n, |i: int| 255u8);
    lemma_le_value_of_ones(n);
    lemma_ones_take_most_digits(8 * n);
    assert(encoded(ones).len() == encoded_len_worst(n));
}

/// The bound is exact for the worst case: some `n` bytes have text as long as the
/// bound for `n`, unless what is left behind the groups of 13 bits is 1 to 6 bits
/// wide. Those take one digit where the bound counts two.
pub proof fn law_bound_is_attained(n: nat)
    ensures
        (exists|bytes: Seq<u8>|
            bytes.len() == n && #[trigger] encoded(bytes).len() == encoded_len_bound(n)) <==> 8 * n
            % 13 == 0 || 8 * n % 13 >= 7,
{
    law_longest_text(n);
}

/// Encoded text is one legal path component: ASCII, without `/` and NUL.
pub proof fn law_encoded_is_filesystem_safe(bytes: Seq<u8>)
    ensures
        forall|i: int|
            0 <= i < encoded(bytes).len() ==> {
                &&& #[trigger] encoded(bytes)[i] != '/'
                &&& encoded(bytes)[i] != '\0'
                &&& (encoded(bytes)[i] as u32) < 128
            },
{
    let digits = digits_of_value(le_value(bytes), 8 * bytes.len());
    lemma_le_value_bound(bytes);
    lemma_digits_round_trip(le_value(bytes), 8 * bytes.len());
    assert forall|i: int| 0 <= i < encoded(bytes).len() implies {
        &&& #[trigger] encoded(bytes)[i] != '/'
        &&& encoded(bytes)[i] != '\0'
        &&& (encoded(bytes)[i] as u32) < 128
    } by {
        assert(digits[i] < 91);
        let b = ALPHABET[digits[i] as int];
        assert(b != 47 && b != 0 && b < 128);
    }
}

/// Every symbol is an ASCII character.
pub proof fn lemma_symbol_is_ascii(c: char)
    requires
        is_symbol(c),
    ensures
        (c as u32) < 0x80,
{
    let d = choose|d: nat| d < 91 && #[trigger] symbol(d) == c;
    assert(ALPHABET[d as int] < 128);
}

proof fn lemma_digits_len_lower(value: nat, bits: nat)
    ensures
        7 * digits_of_value(value, bits).len() >= bits,
    decreases bits,
{
    if bits > 13 {
        if value % 8192 > 88 {
            lemma_digits_len_lower(value / 8192, (bits - 13) as nat);
        } else {
            lemma_digits_len_lower(value / 16384, (bits - 14) as nat);
        }
    }
}

/// Encoded text is at least as long as the bytes that it carries.
pub proof fn lemma_encoded_at_least(bytes: Seq<u8>)
    ensures
        encoded(bytes).len() >= bytes.len(),
{
    lemma_digits_len_lower(le_value(bytes), 8 * bytes.len());
}

proof fn lemma_digits_bits_bound(digits: Seq<nat>)
    ensures
        digits_bits(digits) <= 7 * digits.len(),
    decreases digits.len(),
{
    if digits.len() >= 2 {
        lemma_digits_bits_bound(digits.skip(2));
    }
}

/// Text never decodes to more bytes than it has characters.
pub proof fn law_decoded_len_within_text(text: Seq<char>)
    ensures
        unpacked(text) matches Ok(bytes) ==> bytes.len() <= text.len(),
        decoded(text) matches Ok(bytes) ==> bytes.len() <= text.len(),
{
    let digits = text.map_values(|c: char| digit_of(c));
    lemma_digits_bits_bound(digits);
    lemma_le_bytes_len(digits_value(digits), digits_bytes(digits));
}

proof fn lemma_le_bytes_len(value: nat, n: nat)
    ensures
        le_bytes(value, n).len() == n,
    decreases n,
{
    if n > 0 {
        lemma_le_bytes_len(value / 256, (n - 1) as nat);
    }
}

/// Upper bound on the encoded length of `src_len` input bytes, which is what
/// callers use to enforce a name-length limit. It is exact for the worst case
/// where [`law_bound_is_attained`] says so, and one more elsewhere.
pub fn encoded_len_upper_bound(src_len: usize) -> (n: usize)
    requires
        src_len * 8 <= usize::MAX,
    ensures
        n == encoded_len_bound(src_len as nat),
{
    let input_bits: usize = src_len * 8;
    let full_blocks: usize = input_bits / 13;
    let remaining_bits: usize = input_bits % 13;
    let mut out: usize = full_blocks * 2;
    if remaining_bits > 0 {
        out += 2;
    }
    out
}

/// Taking in one more byte above the `num_bits` bits already held.
proof fn lemma_absorb(acc: nat, num_bits: nat, bytes: Seq<u8>)
    requires
        num_bits <= 13,
        acc < pow2(num_bits),
        bytes.len() > 0,
    ensures
        bytes[0] * pow2(num_bits) <= 255 * 8192,
        acc + bytes[0] * pow2(num_bits) < pow2(num_bits + 8),
        acc + pow2(num_bits) * le_value(bytes) == (acc + bytes[0] * pow2(num_bits)) + pow2(
            num_bits + 8,
        ) * le_value(bytes.drop_first()),
{
    assert(pow2(8) == 256 && pow2(13) == 8192) by {
        lemma2_to64();
    }
    let p = pow2(num_bits);
    let x = bytes[0] as nat;
    let rest = le_value(bytes.drop_first());
    if num_bits < 13 {
        vstd::arithmetic::power2::lemma_pow2_strictly_increases(num_bits, 13);
    }
    lemma_pow2_adds(num_bits, 8);
    assert(x * p <= 255 * 8192) by (nonlinear_arith)
        requires
            x <= 255,
            p <= 8192,
    ;
    assert(acc + x * p < p * 256) by (nonlinear_arith)
        requires
            x <= 255,
            acc < p,
    ;
    assert(acc + p * (x + 256 * rest) == (acc + x * p) + (p * 256) * rest) by (nonlinear_arith);
}

/// Writing one group out of an accumulator that holds at least 14 bits, with
/// `8 * more` bits of the number still above it.
proof fn lemma_emit(acc: nat, num_bits: nat, rest: nat, more: nat) -> (v: nat)
    requires
        14 <= num_bits,
        acc < pow2(num_bits),
    ensures
        v == (if acc % 8192 > 88 {
            acc % 8192
        } else {
            acc % 16384
        }),
        v <= 8280,
        group_width(v) == (if acc % 8192 > 88 {
            13nat
        } else {
            14nat
        }),
        pow2(13) == 8192,
        pow2(14) == 16384,
        acc / pow2(group_width(v)) < pow2((num_bits - group_width(v)) as nat),
        digits_of_value(acc + pow2(num_bits) * rest, num_bits + 8 * more) == digit_pair(v)
            + digits_of_value(
            acc / pow2(group_width(v)) + pow2((num_bits - group_width(v)) as nat) * rest,
            (num_bits - group_width(v)) as nat + 8 * more,
        ),
{
    assert(pow2(13) == 8192 && pow2(14) == 16384) by {
        lemma2_to64();
    }
    let v = lemma_group(acc);
    let w = group_width(v);
    lemma_split_low(acc, 13, (num_bits - 13) as nat, rest);
    lemma_split_low(acc, 14, (num_bits - 14) as nat, rest);
    lemma_low_bits_bound(acc, num_bits, w);
    let value = acc + pow2(num_bits) * rest;
    assert(value % 8192 == acc % 8192);
    assert(value % 16384 == acc % 16384);
    v
}

/// Encode bytes as a base91 string over the filesystem alphabet.
pub fn encode(src: &[u8]) -> (out: String)
    ensures
        out@ == encoded(src@),
{
    let mut out: String = String::new();
    let mut acc: u32 = 0;
    let mut num_bits: u32 = 0;
    let ghost mut digits: Seq<nat> = Seq::empty();
    let n: usize = src.len();
    let mut i: usize = 0;
    proof {
        lemma2_to64();
        assert(src@.skip(0) =~= src@);
        assert(pow2(0) * le_value(src@) == le_value(src@)) by (nonlinear_arith)
            requires
                pow2(0) == 1,
        ;
    }
    while i < n
        invariant
            i <= n == src@.len(),
            num_bits <= 13,
            acc < pow2(num_bits as nat),
            out@ == digits.map_values(|d: nat| symbol(d)),
            digits_of_value(le_value(src@), 8 * src@.len()) == digits + digits_of_value(
                acc as nat + pow2(num_bits as nat) * le_value(src@.skip(i as int)),
                num_bits as nat + 8 * (n - i) as nat,
            ),
        decreases n - i,
    {
        let x: u32 = src[i] as u32;
        let ghost rest = le_value(src@.skip(i + 1));
        proof {
            lemma_absorb(acc as nat, num_bits as nat, src@.skip(i as int));
            assert(src@.skip(i as int).drop_first() =~= src@.skip(i + 1));
            lemma_u32_shl_is_mul(x, num_bits);
            assert(pow2(13) == 8192) by {
                lemma2_to64();
            }
            if num_bits < 13 {
                vstd::arithmetic::power2::lemma_pow2_strictly_increases(num_bits as nat, 13);
            }
        }
        acc = acc + (x << num_bits);
        num_bits = num_bits + 8;
        i = i + 1;
        if num_bits > 13 {
            let ghost old_digits = digits;
            let ghost g = lemma_emit(acc as nat, num_bits as nat, rest, (n - i) as nat);
            let mut v: u32 = acc % 8192;
            if v > 88 {
                acc = acc / 8192;
                num_bits = num_bits - 13;
            } else {
                v = acc % 16384;
                acc = acc / 16384;
                num_bits = num_bits - 14;
            }
            out.push(ALPHABET[(v % 91) as usize] as char);
            out.push(ALPHABET[(v / 91) as usize] as char);
            proof {
                digits = old_digits + digit_pair(g);
                assert(digits.map_values(|d: nat| symbol(d)) =~= old_digits.map_values(
                    |d: nat| symbol(d),
                ).push(symbol(g % 91)).push(symbol(g / 91)));
                let tail = digits_of_value(
                    acc as nat + pow2(num_bits as nat) * rest,
                    num_bits as nat + 8 * (n - i) as nat,
                );
                assert(old_digits + (digit_pair(g) + tail) =~= digits + tail);
            }
        }
    }
    proof {
        assert(src@.skip(n as int) =~= Seq::empty());
        assert(pow2(num_bits as nat) * 0 == 0);
        assert(pow2(13) == 8192) by {
            lemma2_to64();
        }
        if num_bits < 13 {
            vstd::arithmetic::power2::lemma_pow2_strictly_increases(num_bits as nat, 13);
        }
    }
    let ghost tail = digits_of_value(acc as nat, num_bits as nat);
    if num_bits > 0 {
        out.push(ALPHABET[(acc % 91) as usize] as char);
        if num_bits > 7 || acc > 90 {
            out.push(ALPHABET[(acc / 91) as usize] as char);
        }
    }
    assert(out@ =~= (digits + tail).map_values(|d: nat| symbol(d)));
    out
}

/// The digit that `c` stands for.
fn digit(c: char) -> (d: Option<u32>)
    ensures
        d is Some <==> is_symbol(c),
        d matches Some(d) ==> d < 91 && d == digit_of(c),
{
    let code: u32 = c as u32;
    let mut d: u32 = 0;
    if 65 <= code && code <= 90 {
        d = code - 65;
    } else if 97 <= code && code <= 122 {
        d = code - 71;
    } else if 48 <= code && code <= 57 {
        d = code + 4;
    } else {
        let mut k: usize = 62;
        while k < 91 && ALPHABET[k] as u32 != code
            invariant
                62 <= k <= 91,
                forall|j: int| 62 <= j < k ==> #[trigger] ALPHABET[j] as u32 != code,
            decreases 91 - k,
        {
            k = k + 1;
        }
        if k == 91 {
            assert forall|e: nat| e < 91 implies #[trigger] symbol(e) != c by {
                assert(ALPHABET[e as int] as u32 != code);
            }
            return None;
        }
        d = k as u32;
    }
    assert(ALPHABET[d as int] as u32 == code);
    assert(symbol(d as nat) == c);
    proof {
        lemma_digit_of_symbol(d as nat);
    }
    Some(d)
}

/// Whether `c` belongs to the alphabet.
pub fn has_symbol(c: char) -> (r: bool)
    ensures
        r == is_symbol(c),
{
    digit(c).is_some()
}

/// Adding a group above the `num_bits` bits already held.
proof fn lemma_join(b: nat, num_bits: nat, digits: Seq<nat>)
    requires
        num_bits <= 7,
        b < pow2(num_bits),
        digits.len() >= 2,
        digits[0] < 91,
        digits[1] < 91,
    ensures
        ({
            let v = digits[0] + 91 * digits[1];
            let w = group_width(v);
            &&& v * pow2(num_bits) <= 8280 * 128
            &&& b + v * pow2(num_bits) < pow2(num_bits + w) <= 2097152
            &&& b + pow2(num_bits) * digits_value(digits) == (b + v * pow2(num_bits)) + pow2(
                num_bits + w,
            ) * digits_value(digits.skip(2))
        }),
{
    let v = digits[0] + 91 * digits[1];
    let w = group_width(v);
    assert(pow2(7) == 128 && pow2(13) == 8192 && pow2(14) == 16384 && pow2(21) == 2097152) by {
        lemma2_to64();
    }
    let p = pow2(num_bits);
    let q = pow2(w);
    let rest = digits_value(digits.skip(2));
    assert(v < q);
    if num_bits < 7 {
        vstd::arithmetic::power2::lemma_pow2_strictly_increases(num_bits, 7);
    }
    if num_bits + w < 21 {
        vstd::arithmetic::power2::lemma_pow2_strictly_increases(num_bits + w, 21);
    }
    lemma_pow2_adds(num_bits, w);
    assert(v * p <= 8280 * 128) by (nonlinear_arith)
        requires
            v <= 8280,
            p <= 128,
    ;
    assert(b + v * p < p * q) by (nonlinear_arith)
        requires
            v + 1 <= q,
            b < p,
    ;
    assert(b + p * (v + q * rest) == (b + v * p) + (p * q) * rest) by (nonlinear_arith);
}

/// Moving the low byte of `b` to the end of the bytes already written.
proof fn lemma_flush(out: Seq<u8>, b: nat, num_bits: nat, rest: nat)
    requires
        8 <= num_bits,
        b < pow2(num_bits),
    ensures
        b / 256 < pow2((num_bits - 8) as nat),
        le_value(out) + pow2(8 * out.len()) * (b + pow2(num_bits) * rest) == le_value(
            out.push((b % 256) as u8),
        ) + pow2(8 * (out.len() + 1)) * (b / 256 + pow2((num_bits - 8) as nat) * rest),
{
    assert(pow2(8) == 256) by {
        lemma2_to64();
    }
    let k = (num_bits - 8) as nat;
    lemma_low_bits_bound(b, num_bits, 8);
    lemma_le_value_push(out, (b % 256) as u8);
    lemma_pow2_adds(8 * out.len(), 8);
    lemma_pow2_adds(8, k);
    assert(8 * (out.len() + 1) == 8 * out.len() + 8);
    let p = pow2(8 * out.len());
    let q = pow2(k);
    let lo = b % 256;
    let hi = b / 256;
    assert(p * (b + (256 * q) * rest) == p * lo + (p * 256) * (hi + q * rest)) by (nonlinear_arith)
        requires
            b == lo + 256 * hi,
    ;
}

/// Decode a base91 string produced by [`encode`].
pub fn decode(src: &str) -> (r: Result<Vec<u8>, Error>)
    ensures
        r is Ok <==> decoded(src@) is Ok,
        r matches Ok(bytes) ==> decoded(src@) == Ok::<Seq<u8>, Error>(bytes@),
        r matches Err(e) ==> decoded(src@) == Err::<Seq<u8>, Error>(e),
{
    match unpack(src) {
        Ok(bytes) => {
            if text::eq(encode(bytes.as_slice()).as_str(), src) {
                Ok(bytes)
            } else {
                Err(Error::InvalidPadding)
            }
        },
        Err(e) => Err(e),
    }
}

/// Read the groups of base91 text, without asking whether [`encode`] would
/// write the bytes in them that way.
pub fn unpack(src: &str) -> (r: Result<Vec<u8>, Error>)
    ensures
        r is Ok <==> unpacked(src@) is Ok,
        r matches Ok(bytes) ==> unpacked(src@) == Ok::<Seq<u8>, Error>(bytes@),
        r matches Err(e) ==> unpacked(src@) == Err::<Seq<u8>, Error>(e),
{
    let mut out: Vec<u8> = Vec::new();
    let mut acc: Option<u32> = None;
    let mut b: u32 = 0;
    let mut num_bits: u32 = 0;
    let ghost digits: Seq<nat> = src@.map_values(|c: char| digit_of(c));
    let ghost mut taken: int = 0;
    proof {
        lemma2_to64();
        assert(digits.skip(0) =~= digits);
        assert(pow2(8 * out@.len()) * (b + pow2(num_bits as nat) * digits_value(digits))
            == digits_value(digits)) by (nonlinear_arith)
            requires
                pow2(8 * out@.len()) == 1,
                pow2(num_bits as nat) == 1,
                b == 0,
        ;
    }
    for c in it: src.chars()
        invariant
            it.seq() == src@,
            digits == src@.map_values(|c: char| digit_of(c)),
            forall|j: int| 0 <= j < it.index() ==> is_symbol(#[trigger] src@[j]),
            forall|j: int| 0 <= j < it.index() ==> #[trigger] digits[j] < 91,
            taken == it.index() - (if acc is Some { 1int } else { 0 }),
            taken % 2 == 0,
            acc matches Some(a) ==> taken < digits.len() && a == digits[taken] && a < 91,
            num_bits <= 7,
            b < pow2(num_bits as nat),
            digits_value(digits) == le_value(out@) + pow2(8 * out@.len()) * (b + pow2(
                num_bits as nat,
            ) * digits_value(digits.skip(taken))),
            digits_bits(digits) == 8 * out@.len() + num_bits + digits_bits(digits.skip(taken)),
    {
        let d = match digit(c) {
            Some(d) => d,
            None => {
                assert(!is_symbol(src@[it.index()]));
                return Err(Error::InvalidCharacter);
            },
        };
        assert(digits[it.index()] == d);
        match acc {
            Some(low) => {
                let a: u32 = low + d * 91;
                let ghost group = digits.skip(taken);
                let ghost rest = digits_value(digits.skip(taken + 2));
                proof {
                    lemma_join(b as nat, num_bits as nat, group);
                    assert(group.skip(2) =~= digits.skip(taken + 2));
                    lemma_u32_shl_is_mul(a, num_bits);
                }
                b = b + (a << num_bits);
                if a % 8192 > 88 {
                    num_bits = num_bits + 13;
                } else {
                    num_bits = num_bits + 14;
                }
                proof {
                    taken = taken + 2;
                }
                while num_bits > 7
                    invariant
                        num_bits <= 21,
                        b < pow2(num_bits as nat),
                        digits_value(digits) == le_value(out@) + pow2(8 * out@.len()) * (b + pow2(
                            num_bits as nat,
                        ) * rest),
                        rest == digits_value(digits.skip(taken)),
                        digits_bits(digits) == 8 * out@.len() + num_bits + digits_bits(
                            digits.skip(taken),
                        ),
                    decreases num_bits,
                {
                    proof {
                        lemma_flush(out@, b as nat, num_bits as nat, rest);
                    }
                    out.push((b % 256) as u8);
                    b = b / 256;
                    num_bits = num_bits - 8;
                }
                acc = None;
            },
            None => {
                acc = Some(d);
            },
        }
    }
    let ghost p = pow2(8 * out@.len());
    let ghost bytes = digits_bytes(digits);
    proof {
        lemma_le_value_bound(out@);
        lemma_le_bytes_of_value(out@);
    }
    match acc {
        Some(a) => {
            proof {
                assert(digits.skip(taken) =~= seq![a as nat]);
                assert(pow2(7) == 128 && pow2(8) == 256) by {
                    lemma2_to64();
                }
                if num_bits < 7 {
                    vstd::arithmetic::power2::lemma_pow2_strictly_increases(num_bits as nat, 7);
                }
                assert(a * pow2(num_bits as nat) <= 90 * 128) by (nonlinear_arith)
                    requires
                        a <= 90,
                        pow2(num_bits as nat) <= 128,
                ;
                lemma_u32_shl_is_mul(a, num_bits);
                assert(a * pow2(num_bits as nat) == pow2(num_bits as nat) * a) by (nonlinear_arith);
            }
            let last: u32 = b + (a << num_bits);
            proof {
                assert(digits_bits(digits.skip(taken)) == 0);
                assert(bytes == out@.len() + 1);
                assert(digits_value(digits) == le_value(out@) + p * last);
                lemma_pow2_adds(8 * out@.len(), 8);
                assert(8 * bytes == 8 * out@.len() + 8);
            }
            if last > 255 {
                assert(p * last >= p * 256) by (nonlinear_arith)
                    requires
                        last >= 256,
                ;
                return Err(Error::InvalidPadding);
            }
            proof {
                let full = out@.push(last as u8);
                lemma_le_value_push(out@, last as u8);
                lemma_le_value_bound(full);
                lemma_le_bytes_of_value(full);
            }
            out.push(last as u8);
        },
        None => {
            proof {
                assert(digits.skip(taken) =~= Seq::empty());
                assert(bytes == out@.len());
                assert(pow2(num_bits as nat) * 0 == 0);
                assert(digits_value(digits) == le_value(out@) + p * b);
            }
            if b != 0 {
                assert(p * b >= p) by (nonlinear_arith)
                    requires
                        b >= 1,
                ;
                return Err(Error::InvalidPadding);
            }
            assert(p * 0 == 0);
        },
    }
    Ok(out)
}

/// The first symbols are the letters and the digits, in order: upper case, lower
/// case, digits. The others are printable ASCII too, but for the blank, the hyphen,
/// the slash and the backslash.
pub proof fn law_alphabet(d: nat)
    requires
        d < 91,
    ensures
        d < 26 ==> symbol(d) as u32 == 'A' as u32 + d,
        26 <= d < 52 ==> symbol(d) as u32 == 'a' as u32 + (d - 26),
        52 <= d < 62 ==> symbol(d) as u32 == '0' as u32 + (d - 52),
        62 <= d < 75 ==> symbol(d) == seq![
            '!',
            '#',
            '$',
            '%',
            '&',
            '(',
            ')',
            '*',
            '+',
            ',',
            '.',
            '\'',
            ':',
        ][d - 62],
        75 <= d ==> symbol(d) == seq![
            ';',
            '<',
            '=',
            '>',
            '?',
            '@',
            '[',
            ']',
            '^',
            '_',
            '`',
            '{',
            '|',
            '}',
            '~',
            '"',
        ][d - 75],
        symbol(d) != ' ' && symbol(d) != '-' && symbol(d) != '/' && symbol(d) != '\\',
{
}

/// Text is as short as pairs of digits can make it: the first pair carries fourteen
/// bits where those make a number that two digits can write whatever the topmost of
/// them is, else thirteen, and the others carry what is left.
pub proof fn law_pairs_carry_as_much_as_they_can(value: nat, bits: nat)
    requires
        bits > 13,
    ensures
        ({
            let wide = 8192 + value % 8192 < 91 * 91;
            let width = if wide {
                14nat
            } else {
                13nat
            };
            let size = if wide {
                16384nat
            } else {
                8192nat
            };
            let digits = digits_of_value(value, bits);
            &&& digits.len() >= 2
            &&& digits[0] < 91
            &&& digits[1] < 91
            &&& digits[0] + 91 * digits[1] == value % size
            &&& digits.skip(2) == digits_of_value(value / size, (bits - width) as nat)
        }),
{
    let digits = digits_of_value(value, bits);
    if value % 8192 > 88 {
        assert(digits.skip(2) =~= digits_of_value(value / 8192, (bits - 13) as nat));
    } else {
        assert(value % 16384 == value % 8192 || value % 16384 == value % 8192 + 8192);
        assert(digits.skip(2) =~= digits_of_value(value / 16384, (bits - 14) as nat));
    }
}

/// What is left at the end takes one digit where it is narrow enough and one digit
/// can write it, else two.
pub proof fn law_the_rest_takes_one_digit_or_two(value: nat, bits: nat)
    requires
        0 < bits <= 13,
        value < 91 * 91,
    ensures
        ({
            let digits = digits_of_value(value, bits);
            &&& bits <= 7 && value < 91 ==> digits == seq![value]
            &&& bits > 7 || value >= 91 ==> digits.len() == 2 && digits[0] < 91 && digits[1] < 91
                && digits[0] + 91 * digits[1] == value
        }),
{
}

/// The bytes of a number come least significant first, and give the number back.
pub proof fn law_bytes_and_numbers(bytes: Seq<u8>, b: u8)
    ensures
        le_value(seq![b] + bytes) == b + 256 * le_value(bytes),
        le_bytes(le_value(bytes), bytes.len()) == bytes,
    decreases bytes.len(),
{
    assert((seq![b] + bytes).drop_first() =~= bytes);
    if bytes.len() > 0 {
        let rest = bytes.drop_first();
        law_bytes_and_numbers(rest, bytes[0]);
        let v = le_value(bytes);
        assert(v % 256 == bytes[0] && v / 256 == le_value(rest));
        assert(seq![bytes[0]] + rest =~= bytes);
    }
}

/// Text is refused for its characters exactly where one of them is no symbol.
pub proof fn law_foreign_characters_are_refused(text: Seq<char>)
    ensures
        unpacked(text) == Err::<Seq<u8>, Error>(Error::InvalidCharacter) <==> exists|i: int|
            0 <= i < text.len() && !is_symbol(#[trigger] text[i]),
        decoded(text) == Err::<Seq<u8>, Error>(Error::InvalidCharacter) <==> exists|i: int|
            0 <= i < text.len() && !is_symbol(#[trigger] text[i]),
        unpacked(text) is Err ==> decoded(text) == unpacked(text),
        decoded(text) is Ok ==> decoded(text) == unpacked(text),
{
}

} // verus!
