//! Percent-encoding for URL construction.
//!
//! Encrypted names are filesystem-safe but contain URL-reserved characters
//! (`?`, `#`, `%`, ...). The Hub's GET-style endpoints interpolate paths
//! straight into a URL, so each segment is escaped here while the `/`
//! separators are preserved. Paths carried in JSON request bodies are left raw.

use vstd::prelude::*;
use vstd::utf8::encode_utf8;

verus! {

/// Whether `b` is in the URI unreserved set: `A-Za-z0-9` and `-._~`.
pub open spec fn is_unreserved(b: u8) -> bool {
    ||| 0x41 <= b <= 0x5A
    ||| 0x61 <= b <= 0x7A
    ||| 0x30 <= b <= 0x39
    ||| b == 0x2D
    ||| b == 0x2E
    ||| b == 0x5F
    ||| b == 0x7E
}

/// The upper-case hexadecimal digit of `n`.
pub open spec fn hex_digit(n: int) -> char {
    if n < 10 {
        (0x30 + n) as char
    } else {
        (0x37 + n) as char
    }
}

/// The value of an upper-case hexadecimal digit.
pub open spec fn hex_value(c: char) -> int {
    if c <= '9' {
        c as u32 - 0x30
    } else {
        c as u32 - 0x37
    }
}

/// How one byte of a path is written in a URL.
pub open spec fn escaped_byte(b: u8) -> Seq<char> {
    if is_unreserved(b) || b == 0x2F {
        seq![b as char]
    } else {
        seq!['%', hex_digit(b as int / 16), hex_digit(b as int % 16)]
    }
}

/// How the bytes of a path are written in a URL.
pub open spec fn escaped(bytes: Seq<u8>) -> Seq<char>
    decreases bytes.len(),
{
    if bytes.len() == 0 {
        Seq::empty()
    } else {
        escaped(bytes.drop_last()) + escaped_byte(bytes.last())
    }
}

/// The bytes that percent-encoded text stands for.
pub open spec fn percent_decoded(s: Seq<char>) -> Seq<u8>
    decreases s.len(),
{
    if s.len() == 0 {
        Seq::empty()
    } else if s[0] == '%' && s.len() >= 3 {
        seq![(16 * hex_value(s[1]) + hex_value(s[2])) as u8] + percent_decoded(s.skip(3))
    } else {
        seq![s[0] as u8] + percent_decoded(s.skip(1))
    }
}

/// Whether `c` has no special meaning in the path of a URL, or separates
/// segments, or introduces an escape.
pub open spec fn is_url_path_char(c: char) -> bool {
    (c as u32) < 128 && (is_unreserved(c as u8) || c == '/' || c == '%')
}

proof fn lemma_decode_byte(b: u8, rest: Seq<char>)
    ensures
        percent_decoded(escaped_byte(b) + rest) == seq![b] + percent_decoded(rest),
{
    let s = escaped_byte(b) + rest;
    if is_unreserved(b) || b == 0x2F {
        assert(s.skip(1) =~= rest);
        assert(s[0] == b as char);
        assert(s[0] != '%');
    } else {
        assert(s.skip(3) =~= rest);
        assert(16 * (b as int / 16) + b as int % 16 == b);
    }
}

proof fn lemma_decode_escaped(bytes: Seq<u8>, rest: Seq<char>)
    ensures
        percent_decoded(escaped(bytes) + rest) == bytes + percent_decoded(rest),
    decreases bytes.len(),
{
    if bytes.len() > 0 {
        let head = bytes.drop_last();
        let b = bytes.last();
        assert(escaped(bytes) + rest =~= escaped(head) + (escaped_byte(b) + rest));
        lemma_decode_escaped(head, escaped_byte(b) + rest);
        lemma_decode_byte(b, rest);
        assert(head + (seq![b] + percent_decoded(rest)) =~= bytes + percent_decoded(rest));
    } else {
        assert(escaped(bytes) + rest =~= rest);
        assert(bytes + percent_decoded(rest) =~= percent_decoded(rest));
    }
}

/// Percent-decoding gives back the path that was encoded.
pub proof fn law_percent_decode_inverts(path: Seq<char>)
    ensures
        percent_decoded(escaped(encode_utf8(path))) == encode_utf8(path),
{
    let bytes = encode_utf8(path);
    lemma_decode_escaped(bytes, Seq::empty());
    assert(escaped(bytes) + Seq::empty() =~= escaped(bytes));
    assert(percent_decoded(Seq::empty()) =~= Seq::empty());
    assert(bytes + Seq::<u8>::empty() =~= bytes);
}

/// Encoded paths hold no character that could end the path of a URL.
pub proof fn law_escaped_is_url_safe(bytes: Seq<u8>)
    ensures
        forall|i: int| 0 <= i < escaped(bytes).len() ==> is_url_path_char(#[trigger] escaped(bytes)[i]),
    decreases bytes.len(),
{
    if bytes.len() > 0 {
        let head = escaped(bytes.drop_last());
        let tail = escaped_byte(bytes.last());
        law_escaped_is_url_safe(bytes.drop_last());
        assert forall|i: int| 0 <= i < escaped(bytes).len() implies is_url_path_char(
            #[trigger] escaped(bytes)[i],
        ) by {
            if i < head.len() {
                assert(escaped(bytes)[i] == head[i]);
            } else {
                assert(escaped(bytes)[i] == tail[i - head.len()]);
            }
        }
    }
}

/// The upper-case hexadecimal digit of `n`.
fn hex_char(n: u8) -> (c: char)
    requires
        n < 16,
    ensures
        c == hex_digit(n as int),
{
    if n < 10 {
        (0x30 + n) as char
    } else {
        (0x37 + n) as char
    }
}

/// Percent-encode every path segment, leaving `/` separators intact. Everything
/// outside the URI unreserved set (`A-Za-z0-9` and `-._~`) is escaped.
pub fn encode_path_segments(path: &str) -> (out: String)
    ensures
        out@ == escaped(encode_utf8(path@)),
{
    let bytes: &[u8] = path.as_bytes();
    let mut out: String = String::new();
    let mut i: usize = 0;
    while i < bytes.len()
        invariant
            i <= bytes@.len(),
            out@ == escaped(bytes@.take(i as int)),
        decreases bytes@.len() - i,
    {
        let b: u8 = bytes[i];
        let ghost before = out@;
        if (0x41 <= b && b <= 0x5A) || (0x61 <= b && b <= 0x7A) || (0x30 <= b && b <= 0x39) || b
            == 0x2D || b == 0x2E || b == 0x5F || b == 0x7E || b == 0x2F {
            out.push(b as char);
        } else {
            out.push('%');
            out.push(hex_char(b / 16));
            out.push(hex_char(b % 16));
        }
        proof {
            assert(bytes@.take(i + 1).drop_last() =~= bytes@.take(i as int));
            assert(out@ =~= before + escaped_byte(b));
        }
        i = i + 1;
    }
    assert(bytes@.take(bytes@.len() as int) =~= bytes@);
    out
}

/// A path is encoded byte by byte.
pub proof fn law_encoding_goes_byte_by_byte(a: Seq<u8>, b: Seq<u8>)
    ensures
        escaped(a + b) == escaped(a) + escaped(b),
    decreases b.len(),
{
    if b.len() == 0 {
        assert(a + b =~= a);
        assert(escaped(a) + escaped(b) =~= escaped(a));
    } else {
        let rest = b.drop_last();
        assert((a + b).drop_last() =~= a + rest);
        assert((a + b).last() == b.last());
        law_encoding_goes_byte_by_byte(a, rest);
        assert(escaped(a) + (escaped(rest) + escaped_byte(b.last())) =~= (escaped(a) + escaped(
            rest,
        )) + escaped_byte(b.last()));
    }
}

/// Letters, digits, hyphens, dots, underscores, tildes and slashes stand for
/// themselves; every other byte is written as a percent sign and its two
/// hexadecimal digits in upper case.
pub proof fn law_only_reserved_bytes_are_escaped(b: u8)
    ensures
        ({
            let c = b as char;
            let plain = ('A' <= c && c <= 'Z') || ('a' <= c && c <= 'z') || ('0' <= c && c <= '9')
                || c == '-' || c == '.' || c == '_' || c == '~' || c == '/';
            let digits = seq![
                '0',
                '1',
                '2',
                '3',
                '4',
                '5',
                '6',
                '7',
                '8',
                '9',
                'A',
                'B',
                'C',
                'D',
                'E',
                'F',
            ];
            escaped(seq![b]) == if plain {
                seq![c]
            } else {
                seq!['%', digits[b as int / 16], digits[b as int % 16]]
            }
        }),
{
    let one = seq![b];
    assert(one.drop_last() =~= Seq::empty());
    reveal_with_fuel(escaped, 2);
    assert(escaped(one) =~= escaped_byte(b));
}

} // verus!
