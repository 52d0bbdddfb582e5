//! Text operations on Unicode strings, stated over sequences of characters.

use vstd::prelude::*;
use vstd::utf8::{decode_utf8, encode_utf8, valid_utf8};

verus! {

/// `String::push` appends one character.
pub assume_specification[ String::push ](s: &mut String, c: char)
    ensures
        final(s)@ == old(s)@.push(c),
;

/// `String::push_str` appends the characters of a string slice.
pub assume_specification[ String::push_str ](s: &mut String, t: &str)
    ensures
        final(s)@ == old(s)@ + t@,
;

/// What `String::from_utf8` says of bytes that are not UTF-8.
pub uninterp spec fn utf8_error_text(bytes: Seq<u8>) -> Seq<char>;

/// `String::from_utf8` accepts exactly the valid UTF-8 byte strings, and the
/// string it makes is what those bytes decode to. What it says of other bytes
/// depends on them alone.
#[verifier::external_body]
pub(crate) fn string_from_utf8(bytes: Vec<u8>) -> (s: Result<String, String>)
    ensures
        s is Ok <==> valid_utf8(bytes@),
        s matches Ok(s) ==> s@ == decode_utf8(bytes@),
        s matches Err(e) ==> e@ == utf8_error_text(bytes@),
{
    String::from_utf8(bytes).map_err(|e| e.to_string())
}

/// The texts that a sequence of strings holds.
pub open spec fn views(strings: Seq<String>) -> Seq<Seq<char>> {
    strings.map_values(|s: String| s@)
}

/// Position of the first `c` in `s`, or the length of `s` if there is none.
pub open spec fn find(s: Seq<char>, c: char) -> nat
    decreases s.len(),
{
    if s.len() == 0 || s[0] == c {
        0
    } else {
        1 + find(s.drop_first(), c)
    }
}

/// The pieces of `s` between separators; `s` without a separator is one piece.
pub open spec fn split(s: Seq<char>, sep: char) -> Seq<Seq<char>>
    decreases s.len(),
{
    let i = find(s, sep) as int;
    if i >= s.len() {
        seq![s]
    } else {
        seq![s.take(i)] + split(s.skip(i + 1), sep)
    }
}

/// The pieces one after the other, with a separator between neighbours.
pub open spec fn join(parts: Seq<Seq<char>>, sep: char) -> Seq<char>
    decreases parts.len(),
{
    if parts.len() == 0 {
        Seq::empty()
    } else if parts.len() == 1 {
        parts[0]
    } else {
        parts[0].push(sep) + join(parts.drop_first(), sep)
    }
}

/// Whether `c` has the Unicode property `White_Space`.
pub open spec fn is_space(c: char) -> bool {
    let u = c as u32;
    ||| 9 <= u <= 13
    ||| u == 0x20
    ||| u == 0x85
    ||| u == 0xA0
    ||| u == 0x1680
    ||| 0x2000 <= u <= 0x200A
    ||| u == 0x2028
    ||| u == 0x2029
    ||| u == 0x202F
    ||| u == 0x205F
    ||| u == 0x3000
}

/// `s` without its leading white space.
pub open spec fn trim_start(s: Seq<char>) -> Seq<char>
    decreases s.len(),
{
    if s.len() > 0 && is_space(s[0]) {
        trim_start(s.drop_first())
    } else {
        s
    }
}

/// `s` without its trailing white space.
pub open spec fn trim_end(s: Seq<char>) -> Seq<char>
    decreases s.len(),
{
    if s.len() > 0 && is_space(s.last()) {
        trim_end(s.drop_last())
    } else {
        s
    }
}

/// `s` without white space at either end.
pub open spec fn trimmed(s: Seq<char>) -> Seq<char> {
    trim_end(trim_start(s))
}

/// Whether `s` is made of white space.
pub open spec fn all_space(s: Seq<char>) -> bool {
    forall|i: int| 0 <= i < s.len() ==> is_space(#[trigger] s[i])
}

/// `s` without any `c` at its end.
pub open spec fn trim_end_char(s: Seq<char>, c: char) -> Seq<char>
    decreases s.len(),
{
    if s.len() > 0 && s.last() == c {
        trim_end_char(s.drop_last(), c)
    } else {
        s
    }
}

/// `s` without any `c` at its beginning.
pub open spec fn trim_start_char(s: Seq<char>, c: char) -> Seq<char>
    decreases s.len(),
{
    if s.len() > 0 && s[0] == c {
        trim_start_char(s.drop_first(), c)
    } else {
        s
    }
}

/// Whether `part` occurs somewhere in `s`.
pub open spec fn has_part(s: Seq<char>, part: Seq<char>) -> bool {
    exists|i: int| 0 <= i <= s.len() - part.len() && #[trigger] s.subrange(i, i + part.len()) == part
}

/// Whether `c` is one of `0` to `9`.
pub open spec fn is_digit(c: char) -> bool {
    '0' <= c <= '9'
}

/// Whether `s` holds decimal digits only.
pub open spec fn all_digits(s: Seq<char>) -> bool {
    forall|i: int| 0 <= i < s.len() ==> is_digit(#[trigger] s[i])
}

/// The number that a string of decimal digits writes.
pub open spec fn decimal_value(s: Seq<char>) -> nat
    decreases s.len(),
{
    if s.len() == 0 {
        0
    } else {
        10 * decimal_value(s.drop_last()) + (s.last() as u32 - '0' as u32) as nat
    }
}

/// `n` in decimal, without leading zeros.
pub open spec fn decimal(n: nat) -> Seq<char>
    decreases n,
{
    if n < 10 {
        seq![('0' as u32 + n) as char]
    } else {
        decimal(n / 10).push(('0' as u32 + n % 10) as char)
    }
}

/// The number that `s` writes, if it is an unsigned decimal number of at most
/// `max`: digits, at least one of them, after an optional `+`.
pub open spec fn parsed(s: Seq<char>, max: nat) -> Option<nat> {
    let digits = if s.len() > 0 && s[0] == '+' {
        s.drop_first()
    } else {
        s
    };
    if digits.len() > 0 && all_digits(digits) && decimal_value(digits) <= max {
        Some(decimal_value(digits))
    } else {
        None
    }
}

pub proof fn lemma_find(s: Seq<char>, c: char)
    ensures
        find(s, c) <= s.len(),
        find(s, c) < s.len() ==> s[find(s, c) as int] == c,
        forall|i: int| 0 <= i < find(s, c) ==> #[trigger] s[i] != c,
        find(s, c) == s.len() <==> !s.contains(c),
    decreases s.len(),
{
    if s.len() == 0 || s[0] == c {
        if s.len() > 0 {
            assert(s.contains(c));
        }
    } else {
        let rest = s.drop_first();
        lemma_find(rest, c);
        assert forall|i: int| 0 <= i < find(s, c) implies #[trigger] s[i] != c by {
            if i > 0 {
                assert(s[i] == rest[i - 1]);
            }
        }
        if rest.contains(c) {
            let j = choose|j: int| 0 <= j < rest.len() && rest[j] == c;
            assert(s[j + 1] == c);
        }
        if s.contains(c) {
            let j = choose|j: int| 0 <= j < s.len() && s[j] == c;
            assert(rest[j - 1] == c);
        }
    }
}

/// `find` is determined by what it says: no `c` before `i`, and `c` at `i`.
pub proof fn lemma_find_unique(s: Seq<char>, c: char, i: int)
    requires
        0 <= i <= s.len(),
        i < s.len() ==> s[i] == c,
        forall|j: int| 0 <= j < i ==> #[trigger] s[j] != c,
    ensures
        find(s, c) == i,
{
    lemma_find(s, c);
    let f = find(s, c) as int;
    if f < i {
        assert(s[f] != c);
    }
    if i < f {
        assert(s[i] != c);
    }
}

/// Splitting and joining again gives the text back.
pub proof fn lemma_join_split(s: Seq<char>, sep: char)
    ensures
        join(split(s, sep), sep) == s,
        split(s, sep).len() >= 1,
    decreases s.len(),
{
    lemma_find(s, sep);
    let i = find(s, sep) as int;
    if i < s.len() {
        let rest = s.skip(i + 1);
        lemma_join_split(rest, sep);
        assert(split(s, sep).drop_first() =~= split(rest, sep));
        assert(s =~= s.take(i).push(sep) + rest);
    }
}

/// Pieces without a separator, joined, split into themselves.
pub proof fn lemma_split_join(parts: Seq<Seq<char>>, sep: char)
    requires
        parts.len() >= 1,
        forall|i: int| 0 <= i < parts.len() ==> !(#[trigger] parts[i]).contains(sep),
    ensures
        split(join(parts, sep), sep) == parts,
    decreases parts.len(),
{
    let s = join(parts, sep);
    let head = parts[0];
    let n = head.len() as int;
    if parts.len() == 1 {
        lemma_find(s, sep);
        assert(split(s, sep) =~= parts);
    } else {
        let rest = parts.drop_first();
        assert forall|i: int| 0 <= i < rest.len() implies !(#[trigger] rest[i]).contains(sep) by {
            assert(rest[i] == parts[i + 1]);
        }
        lemma_split_join(rest, sep);
        assert(s[n] == sep);
        assert forall|j: int| 0 <= j < n implies #[trigger] s[j] != sep by {
            assert(s[j] == head[j]);
            assert(head.contains(head[j]));
        }
        lemma_find_unique(s, sep, n);
        assert(s.take(n) =~= head);
        assert(s.skip(n + 1) =~= join(rest, sep));
        assert(parts =~= seq![head] + rest);
    }
}

/// No piece of a split holds the separator.
pub proof fn lemma_split_pieces(s: Seq<char>, sep: char)
    ensures
        forall|i: int|
            0 <= i < split(s, sep).len() ==> !(#[trigger] split(s, sep)[i]).contains(sep),
    decreases s.len(),
{
    lemma_find(s, sep);
    let i = find(s, sep) as int;
    let parts = split(s, sep);
    if i < s.len() {
        let rest = s.skip(i + 1);
        lemma_split_pieces(rest, sep);
        assert forall|k: int| 0 <= k < parts.len() implies !(#[trigger] parts[k]).contains(sep) by {
            if k == 0 {
                let head = s.take(i);
                if head.contains(sep) {
                    let j = choose|j: int| 0 <= j < head.len() && head[j] == sep;
                    assert(s[j] == sep);
                }
            } else {
                assert(parts[k] == split(rest, sep)[k - 1]);
            }
        }
    }
}

/// Joining one more piece puts a separator in front of it.
pub proof fn lemma_join_push(parts: Seq<Seq<char>>, last: Seq<char>, sep: char)
    ensures
        join(parts.push(last), sep) == if parts.len() == 0 {
            last
        } else {
            join(parts, sep).push(sep) + last
        },
    decreases parts.len(),
{
    if parts.len() == 0 {
    } else if parts.len() == 1 {
        assert(parts.push(last).drop_first() =~= seq![last]);
        assert(join(seq![last], sep) == last);
    } else {
        let rest = parts.drop_first();
        lemma_join_push(rest, last, sep);
        assert(parts.push(last).drop_first() =~= rest.push(last));
        assert(parts[0].push(sep) + (join(rest, sep).push(sep) + last) =~= (parts[0].push(sep)
            + join(rest, sep)).push(sep) + last);
    }
}

/// The UTF-8 form of a concatenation is the concatenation of the UTF-8 forms.
pub proof fn lemma_encode_concat(a: Seq<char>, b: Seq<char>)
    ensures
        encode_utf8(a + b) == encode_utf8(a) + encode_utf8(b),
    decreases a.len(),
{
    if a.len() == 0 {
        assert(a + b =~= b);
        assert(encode_utf8(a) + encode_utf8(b) =~= encode_utf8(b));
    } else {
        lemma_encode_concat(a.drop_first(), b);
        assert((a + b).drop_first() =~= a.drop_first() + b);
        assert(encode_utf8(a + b) =~= encode_utf8(a) + encode_utf8(b));
    }
}

/// A text takes at least a byte per character.
pub proof fn lemma_encode_len(s: Seq<char>)
    ensures
        encode_utf8(s).len() >= s.len(),
    decreases s.len(),
{
    if s.len() > 0 {
        lemma_encode_len(s.drop_first());
    }
}

/// Text whose UTF-8 bytes are all ASCII has one character per byte.
pub proof fn lemma_ascii_bytes(s: Seq<char>)
    requires
        forall|i: int| 0 <= i < encode_utf8(s).len() ==> #[trigger] encode_utf8(s)[i] < 0x80,
    ensures
        encode_utf8(s).len() == s.len(),
        forall|i: int| 0 <= i < s.len() ==> #[trigger] s[i] == encode_utf8(s)[i] as char,
    decreases s.len(),
{
    if s.len() > 0 {
        let bytes = encode_utf8(s);
        let rest = s.drop_first();
        let c = s[0] as u32;
        let head = vstd::utf8::encode_scalar(c);
        vstd::utf8::char_is_scalar(s[0]);
        vstd::utf8::char_u32_cast(s[0], c);
        assert(bytes == head + encode_utf8(rest));
        assert(head[0] == bytes[0]);
        let a: u8 = ((c >> 6) & 0x1F) as u8;
        let b: u8 = ((c >> 12) & 0x0F) as u8;
        let d: u8 = ((c >> 18) & 0x7) as u8;
        assert(0xC0 | a >= 0x80) by (bit_vector);
        assert(0xE0 | b >= 0x80) by (bit_vector);
        assert(0xF0 | d >= 0x80) by (bit_vector);
        assert(c <= 0x7F ==> (c & 0x7F) as u8 == c) by (bit_vector);
        assert(c <= 0x7F);
        assert(head.len() == 1);
        assert forall|i: int| 0 <= i < encode_utf8(rest).len() implies #[trigger] encode_utf8(
            rest,
        )[i] < 0x80 by {
            assert(encode_utf8(rest)[i] == bytes[i + 1]);
        }
        lemma_ascii_bytes(rest);
        assert forall|i: int| 0 <= i < s.len() implies #[trigger] s[i] == bytes[i] as char by {
            if i > 0 {
                assert(s[i] == rest[i - 1]);
                assert(bytes[i] == encode_utf8(rest)[i - 1]);
            }
        }
    }
}

/// How many bytes a joined text takes: those of its pieces and one for each
/// ASCII separator.
pub proof fn lemma_encode_join_push(parts: Seq<Seq<char>>, last: Seq<char>, sep: char)
    requires
        (sep as u32) < 128,
    ensures
        encode_utf8(join(parts.push(last), sep)).len() <= encode_utf8(join(parts, sep)).len() + 1
            + encode_utf8(last).len(),
{
    lemma_join_push(parts, last, sep);
    if parts.len() > 0 {
        let head = join(parts, sep);
        let one = seq![sep];
        assert(head.push(sep) =~= head + one);
        lemma_encode_concat(head.push(sep), last);
        lemma_encode_concat(head, one);
        assert(one.drop_first() =~= Seq::empty());
        assert(encode_utf8(one.drop_first()).len() == 0);
        assert(encode_utf8(one).len() == 1);
    }
}

/// The first pieces of a joined text take no more bytes than the whole.
pub proof fn lemma_encode_join_take(parts: Seq<Seq<char>>, k: int, sep: char)
    requires
        0 <= k <= parts.len(),
    ensures
        encode_utf8(join(parts.take(k), sep)).len() <= encode_utf8(join(parts, sep)).len(),
    decreases parts.len() - k,
{
    if k < parts.len() {
        lemma_encode_join_take(parts, k + 1, sep);
        let a = parts.take(k);
        assert(parts.take(k + 1) =~= a.push(parts[k]));
        lemma_join_push(a, parts[k], sep);
        if k > 0 {
            lemma_encode_concat(join(a, sep).push(sep), parts[k]);
            assert(join(a, sep).push(sep) =~= join(a, sep) + seq![sep]);
            lemma_encode_concat(join(a, sep), seq![sep]);
        } else {
            assert(encode_utf8(join(a, sep)).len() == 0);
        }
    } else {
        assert(parts.take(k) =~= parts);
    }
}

/// A decimal number reads back as itself.
pub proof fn lemma_parse_decimal(n: nat, max: nat)
    requires
        n <= max,
    ensures
        parsed(decimal(n), max) == Some(n),
{
    lemma_decimal(n);
    assert(is_digit(decimal(n)[0]));
}

pub proof fn lemma_decimal(n: nat)
    ensures
        decimal(n).len() >= 1,
        all_digits(decimal(n)),
        decimal_value(decimal(n)) == n,
    decreases n,
{
    if n < 10 {
        let s = decimal(n);
        assert(s.drop_last() =~= Seq::empty());
        assert(decimal_value(s.drop_last()) == 0);
    } else {
        lemma_decimal(n / 10);
        let s = decimal(n);
        assert(s.drop_last() =~= decimal(n / 10));
    }
}

pub proof fn lemma_trim_start(s: Seq<char>)
    ensures
        trim_start(s).len() <= s.len(),
        trim_start(s) == s.skip(s.len() - trim_start(s).len()),
        trim_start(s).len() > 0 ==> !is_space(trim_start(s)[0]),
        forall|i: int| 0 <= i < s.len() - trim_start(s).len() ==> is_space(#[trigger] s[i]),
    decreases s.len(),
{
    if s.len() > 0 && is_space(s[0]) {
        let rest = s.drop_first();
        lemma_trim_start(rest);
        let k = s.len() - trim_start(s).len();
        assert(s.skip(k) =~= rest.skip(k - 1));
        assert forall|i: int| 0 <= i < k implies is_space(#[trigger] s[i]) by {
            if i > 0 {
                assert(s[i] == rest[i - 1]);
            }
        }
    } else {
        assert(s.skip(0) =~= s);
    }
}

/// Text with no white space at either end is its own trimming.
pub proof fn lemma_trim_identity(s: Seq<char>)
    requires
        s.len() > 0 ==> !is_space(s[0]) && !is_space(s.last()),
    ensures
        trimmed(s) == s,
{
}

/// Leading white space has no effect on a trimming.
pub proof fn lemma_trim_leading(s: Seq<char>)
    requires
        s.len() > 0,
        is_space(s[0]),
    ensures
        trimmed(s) == trimmed(s.drop_first()),
{
}

/// Trailing white space has no effect on a trimming.
pub proof fn lemma_trim_trailing(s: Seq<char>)
    requires
        s.len() > 0,
        is_space(s.last()),
    ensures
        trimmed(s) == trimmed(s.drop_last()),
    decreases s.len(),
{
    if is_space(s[0]) {
        if s.len() > 1 {
            let rest = s.drop_first();
            lemma_trim_trailing(rest);
            assert(rest.drop_last() =~= s.drop_last().drop_first());
        } else {
            assert(s.drop_first() =~= s.drop_last());
        }
    }
}

/// White space on either side has no effect on a trimming.
pub proof fn lemma_trim_around(before: Seq<char>, s: Seq<char>, after: Seq<char>)
    requires
        all_space(before),
        all_space(after),
    ensures
        trimmed(before + s + after) == trimmed(s),
    decreases before.len() + after.len(),
{
    let all = before + s + after;
    if before.len() > 0 {
        let rest = before.drop_first();
        assert(all[0] == before[0]);
        assert forall|i: int| 0 <= i < rest.len() implies is_space(#[trigger] rest[i]) by {
            assert(rest[i] == before[i + 1]);
        }
        assert(all.drop_first() =~= rest + s + after);
        lemma_trim_around(rest, s, after);
    } else if after.len() > 0 {
        let rest = after.drop_last();
        assert(all.last() == after[after.len() - 1]);
        assert forall|i: int| 0 <= i < rest.len() implies is_space(#[trigger] rest[i]) by {
            assert(rest[i] == after[i]);
        }
        assert(all.drop_last() =~= before + s + rest);
        lemma_trim_trailing(all);
        lemma_trim_around(before, s, rest);
    } else {
        assert(all =~= s);
    }
}

/// A trimming at one end only is undone by none at both.
pub proof fn lemma_trim_again(s: Seq<char>)
    ensures
        trimmed(trim_start(s)) == trimmed(s),
        trimmed(trim_end(s)) == trimmed(s),
    decreases s.len(),
{
    lemma_trim_start(s);
    if s.len() > 0 && is_space(s.last()) {
        lemma_trim_trailing(s);
        lemma_trim_again(s.drop_last());
    }
}

/// What lies on the outside of a character that is no white space is trimmed on
/// its own.
pub proof fn lemma_trim_sides(left: Seq<char>, c: char, right: Seq<char>)
    requires
        !is_space(c),
    ensures
        trimmed(left + seq![c] + right) == trim_start(left) + seq![c] + trim_end(right),
    decreases left.len() + right.len(),
{
    let all = left + seq![c] + right;
    if left.len() > 0 && is_space(left[0]) {
        assert(all.drop_first() =~= left.drop_first() + seq![c] + right);
        lemma_trim_sides(left.drop_first(), c, right);
    } else if right.len() > 0 && is_space(right.last()) {
        assert(all.drop_last() =~= left + seq![c] + right.drop_last());
        lemma_trim_trailing(all);
        lemma_trim_sides(left, c, right.drop_last());
    } else {
        lemma_trim_identity(all);
    }
}

/// The characters of a string slice.
pub fn chars_of(s: &str) -> (v: Vec<char>)
    ensures
        v@ == s@,
{
    let mut v: Vec<char> = Vec::new();
    for c in it: s.chars()
        invariant
            it.seq() == s@,
            v@ == s@.take(it.index() as int),
    {
        v.push(c);
        assert(v@ =~= s@.take(it.index() + 1));
    }
    assert(s@.take(s@.len() as int) =~= s@);
    v
}

/// The string made of the characters from `from` to before `to`.
pub fn string_of(v: &Vec<char>, from: usize, to: usize) -> (s: String)
    requires
        from <= to <= v@.len(),
    ensures
        s@ == v@.subrange(from as int, to as int),
{
    let mut s: String = String::new();
    let mut i: usize = from;
    while i < to
        invariant
            from <= i <= to <= v@.len(),
            s@ == v@.subrange(from as int, i as int),
        decreases to - i,
    {
        s.push(v[i]);
        i = i + 1;
        assert(s@ =~= v@.subrange(from as int, i as int));
    }
    s
}

/// Whether two string slices hold the same text.
pub fn eq(a: &str, b: &str) -> (r: bool)
    ensures
        r == (a@ == b@),
{
    let x: &[u8] = a.as_bytes();
    let y: &[u8] = b.as_bytes();
    proof {
        vstd::utf8::encode_utf8_decode_utf8(a@);
        vstd::utf8::encode_utf8_decode_utf8(b@);
    }
    if x.len() != y.len() {
        return false;
    }
    let mut i: usize = 0;
    while i < x.len()
        invariant
            i <= x@.len() == y@.len(),
            x@ == encode_utf8(a@),
            y@ == encode_utf8(b@),
            forall|j: int| 0 <= j < i ==> x@[j] == y@[j],
        decreases x@.len() - i,
    {
        if x[i] != y[i] {
            return false;
        }
        i = i + 1;
    }
    assert(x@ =~= y@);
    true
}

/// Position of the first `c` at or after `from`, counted in characters.
pub fn find_from(v: &Vec<char>, from: usize, c: char) -> (i: usize)
    requires
        from <= v@.len(),
    ensures
        i == from + find(v@.skip(from as int), c),
        from <= i <= v@.len(),
{
    let mut i: usize = from;
    while i < v.len() && v[i] != c
        invariant
            from <= i <= v@.len(),
            forall|j: int| from <= j < i ==> #[trigger] v@[j] != c,
        decreases v@.len() - i,
    {
        i = i + 1;
    }
    proof {
        let s = v@.skip(from as int);
        assert forall|j: int| 0 <= j < i - from implies #[trigger] s[j] != c by {
            assert(s[j] == v@[from + j]);
        }
        lemma_find_unique(s, c, i - from);
    }
    i
}

/// The pieces of `s` between separators.
pub fn split_on(s: &str, sep: char) -> (parts: Vec<String>)
    ensures
        views(parts@) == split(s@, sep),
{
    let v: Vec<char> = chars_of(s);
    let mut parts: Vec<String> = Vec::new();
    let mut start: usize = 0;
    assert(v@.skip(0) =~= v@);
    loop
        invariant_except_break
            start <= v@.len(),
            split(v@, sep) == views(parts@) + split(v@.skip(start as int), sep),
        ensures
            split(v@, sep) == views(parts@),
        decreases v@.len() - start,
    {
        let i: usize = find_from(&v, start, sep);
        let part: String = string_of(&v, start, i);
        let ghost rest = v@.skip(start as int);
        let ghost before = views(parts@);
        parts.push(part);
        assert(views(parts@) =~= before.push(part@));
        if i == v.len() {
            assert(part@ =~= rest);
            assert(views(parts@) =~= before + seq![rest]);
            break;
        }
        assert(part@ =~= rest.take(i - start));
        assert(v@.skip(i + 1) =~= rest.skip(i - start + 1));
        assert(before + (seq![part@] + split(v@.skip(i + 1), sep)) =~= views(parts@) + split(
            v@.skip(i + 1),
            sep,
        ));
        start = i + 1;
    }
    parts
}

/// The pieces one after the other, with a separator between neighbours.
pub fn join_with(parts: &Vec<String>, sep: char) -> (s: String)
    ensures
        s@ == join(views(parts@), sep),
{
    let mut s: String = String::new();
    let mut i: usize = 0;
    while i < parts.len()
        invariant
            i <= parts@.len(),
            s@ == join(views(parts@).take(i as int), sep),
        decreases parts@.len() - i,
    {
        proof {
            lemma_join_push(views(parts@).take(i as int), parts@[i as int]@, sep);
            assert(views(parts@).take(i + 1) =~= views(parts@).take(i as int).push(
                parts@[i as int]@,
            ));
        }
        if i > 0 {
            s.push(sep);
        }
        s.push_str(parts[i].as_str());
        i = i + 1;
    }
    assert(views(parts@).take(parts@.len() as int) =~= views(parts@));
    s
}

/// Whether `c` is white space.
pub fn is_whitespace(c: char) -> (r: bool)
    ensures
        r == is_space(c),
{
    let u: u32 = c as u32;
    (9 <= u && u <= 13) || u == 0x20 || u == 0x85 || u == 0xA0 || u == 0x1680 || (0x2000 <= u && u
        <= 0x200A) || u == 0x2028 || u == 0x2029 || u == 0x202F || u == 0x205F || u == 0x3000
}

proof fn lemma_trim_end_step(s: Seq<char>, from: int, to: int)
    requires
        0 <= from < to <= s.len(),
        is_space(s[to - 1]),
    ensures
        trim_end(s.subrange(from, to)) == trim_end(s.subrange(from, to - 1)),
{
    assert(s.subrange(from, to).drop_last() =~= s.subrange(from, to - 1));
}

/// `s` without white space at either end.
pub fn trim(s: &str) -> (r: String)
    ensures
        r@ == trimmed(s@),
{
    let v: Vec<char> = chars_of(s);
    let n: usize = v.len();
    let mut from: usize = 0;
    assert(v@.skip(0) =~= v@);
    while from < n && is_whitespace(v[from])
        invariant
            from <= n == v@.len(),
            trim_start(v@) == trim_start(v@.skip(from as int)),
        decreases n - from,
    {
        assert(v@.skip(from as int).drop_first() =~= v@.skip(from + 1));
        from = from + 1;
    }
    assert(trim_start(v@) == v@.skip(from as int));
    let mut to: usize = n;
    assert(v@.subrange(from as int, n as int) =~= v@.skip(from as int));
    while to > from && is_whitespace(v[to - 1])
        invariant
            from <= to <= n == v@.len(),
            trimmed(v@) == trim_end(v@.subrange(from as int, to as int)),
        decreases to,
    {
        proof {
            lemma_trim_end_step(v@, from as int, to as int);
        }
        to = to - 1;
    }
    string_of(&v, from, to)
}

proof fn lemma_decimal_value_monotone(s: Seq<char>, k: int)
    requires
        0 <= k <= s.len(),
        all_digits(s),
    ensures
        decimal_value(s.take(k)) <= decimal_value(s),
    decreases s.len(),
{
    if k < s.len() {
        lemma_decimal_value_monotone(s.drop_last(), k);
        assert(s.drop_last().take(k) =~= s.take(k));
    } else {
        assert(s.take(k) =~= s);
    }
}

/// The number that `s` writes in decimal, if it fits in 64 bits.
pub fn parse_u64(s: &str) -> (r: Option<u64>)
    ensures
        r is Some <==> parsed(s@, u64::MAX as nat) is Some,
        r matches Some(n) ==> parsed(s@, u64::MAX as nat) == Some(n as nat),
{
    let v: Vec<char> = chars_of(s);
    let mut i: usize = 0;
    if v.len() > 0 && v[0] == '+' {
        i = 1;
    }
    let start: usize = i;
    let ghost digits = v@.skip(start as int);
    assert(start == 0 ==> digits =~= v@);
    assert(start == 1 ==> digits =~= v@.drop_first());
    if i == v.len() {
        return None;
    }
    let mut n: u64 = 0;
    assert(digits.take(0) =~= Seq::empty());
    while i < v.len()
        invariant
            start <= i <= v@.len(),
            digits == v@.skip(start as int),
            forall|j: int| 0 <= j < i - start ==> is_digit(#[trigger] digits[j]),
            n == decimal_value(digits.take(i - start)),
            parsed(s@, u64::MAX as nat) == if all_digits(digits) && decimal_value(digits) <= u64::MAX {
                Some(decimal_value(digits))
            } else {
                None
            },
        decreases v@.len() - i,
    {
        let c: char = v[i];
        assert(c == digits[i - start]);
        if !('0' <= c && c <= '9') {
            assert(!is_digit(digits[i - start]));
            return None;
        }
        let d: u64 = (c as u32 - '0' as u32) as u64;
        proof {
            assert(digits.take(i - start + 1).drop_last() =~= digits.take(i - start));
            if all_digits(digits) {
                lemma_decimal_value_monotone(digits, i - start + 1);
            }
        }
        if n > (u64::MAX - d) / 10 {
            return None;
        }
        n = 10 * n + d;
        i = i + 1;
    }
    assert(digits.take(digits.len() as int) =~= digits);
    Some(n)
}

/// The number that `s` writes in decimal, if it fits in 32 bits.
pub fn parse_u32(s: &str) -> (r: Option<u32>)
    ensures
        r is Some <==> parsed(s@, u32::MAX as nat) is Some,
        r matches Some(n) ==> parsed(s@, u32::MAX as nat) == Some(n as nat),
{
    match parse_u64(s) {
        Some(n) => if n <= u32::MAX as u64 {
            Some(n as u32)
        } else {
            None
        },
        None => None,
    }
}

/// Appends `n` in decimal.
pub fn push_decimal(s: &mut String, n: u64)
    ensures
        final(s)@ == old(s)@ + decimal(n as nat),
    decreases n,
{
    let ghost start = s@;
    if n >= 10 {
        push_decimal(s, n / 10);
    }
    s.push(('0' as u8 + (n % 10) as u8) as char);
    proof {
        if n >= 10 {
            assert(s@ =~= start + decimal((n / 10) as nat).push(s@.last()));
        } else {
            assert(s@ =~= start + decimal(n as nat));
        }
    }
}

/// Whether `s` begins with `prefix`.
pub fn starts_with(s: &str, prefix: &str) -> (r: bool)
    ensures
        r == prefix@.is_prefix_of(s@),
{
    let v: Vec<char> = chars_of(s);
    let p: Vec<char> = chars_of(prefix);
    if p.len() > v.len() {
        return false;
    }
    let mut i: usize = 0;
    while i < p.len()
        invariant
            i <= p@.len() <= v@.len(),
            p@ == prefix@,
            v@ == s@,
            forall|j: int| 0 <= j < i ==> p@[j] == v@[j],
        decreases p@.len() - i,
    {
        if p[i] != v[i] {
            assert(prefix@[i as int] != s@.subrange(0, prefix@.len() as int)[i as int]);
            return false;
        }
        i = i + 1;
    }
    assert(prefix@ =~= s@.subrange(0, prefix@.len() as int));
    true
}

/// What follows `prefix` in `s`, if `s` begins with it.
pub fn strip_prefix(s: &str, prefix: &str) -> (r: Option<String>)
    ensures
        r is Some <==> prefix@.is_prefix_of(s@),
        r matches Some(rest) ==> rest@ == s@.skip(prefix@.len() as int),
{
    if starts_with(s, prefix) {
        let v: Vec<char> = chars_of(s);
        let p: Vec<char> = chars_of(prefix);
        let n: usize = v.len();
        let rest: String = string_of(&v, p.len(), n);
        assert(rest@ =~= s@.skip(prefix@.len() as int));
        Some(rest)
    } else {
        None
    }
}

/// `s` without any `c` at its end.
pub fn trim_end_matches(s: &str, c: char) -> (r: String)
    ensures
        r@ == trim_end_char(s@, c),
{
    let v: Vec<char> = chars_of(s);
    let mut to: usize = v.len();
    assert(v@.take(to as int) =~= v@);
    while to > 0 && v[to - 1] == c
        invariant
            to <= v@.len(),
            trim_end_char(v@, c) == trim_end_char(v@.take(to as int), c),
        decreases to,
    {
        assert(v@.take(to as int).drop_last() =~= v@.take(to - 1));
        to = to - 1;
    }
    assert(v@.subrange(0, to as int) =~= v@.take(to as int));
    string_of(&v, 0, to)
}

/// `s` without any `c` at either end.
pub fn trim_matches(s: &str, c: char) -> (r: String)
    ensures
        r@ == trim_end_char(trim_start_char(s@, c), c),
{
    let v: Vec<char> = chars_of(s);
    let n: usize = v.len();
    let mut from: usize = 0;
    assert(v@.skip(0) =~= v@);
    while from < n && v[from] == c
        invariant
            from <= n == v@.len(),
            trim_start_char(v@, c) == trim_start_char(v@.skip(from as int), c),
        decreases n - from,
    {
        assert(v@.skip(from as int).drop_first() =~= v@.skip(from + 1));
        from = from + 1;
    }
    let rest: String = string_of(&v, from, n);
    assert(rest@ =~= v@.skip(from as int));
    trim_end_matches(rest.as_str(), c)
}

/// Whether `part` occurs somewhere in `s`.
pub fn contains(s: &str, part: &str) -> (r: bool)
    ensures
        r == has_part(s@, part@),
{
    let v: Vec<char> = chars_of(s);
    let p: Vec<char> = chars_of(part);
    let n: usize = v.len();
    let k: usize = p.len();
    if k > n {
        return false;
    }
    let mut i: usize = 0;
    while i <= n - k
        invariant
            k <= n,
            n == v@.len(),
            k == p@.len(),
            v@ == s@,
            p@ == part@,
            i <= n - k + 1,
            forall|j: int| 0 <= j < i ==> #[trigger] s@.subrange(j, j + part@.len()) != part@,
        decreases n + 1 - i,
    {
        let mut j: usize = 0;
        while j < k && v[i + j] == p[j]
            invariant
                j <= k,
                i + k <= n,
                n == v@.len(),
                k == p@.len(),
                forall|m: int| 0 <= m < j ==> v@[i + m] == #[trigger] p@[m],
            decreases k - j,
        {
            j = j + 1;
        }
        if j == k {
            assert(s@.subrange(i as int, i + part@.len()) =~= part@);
            return true;
        }
        assert(s@.subrange(i as int, i + part@.len())[j as int] != part@[j as int]);
        i = i + 1;
    }
    false
}

/// Whether `c` occurs in `s`.
pub fn contains_char(s: &str, c: char) -> (r: bool)
    ensures
        r == s@.contains(c),
{
    let v: Vec<char> = chars_of(s);
    assert(v@.skip(0) =~= v@);
    proof {
        lemma_find(v@, c);
    }
    find_from(&v, 0, c) < v.len()
}

/// Of the ASCII characters, white space is the blank and those that move the
/// cursor: tab, line feed, vertical tab, form feed and carriage return.
pub proof fn law_ascii_white_space(c: char)
    requires
        (c as u32) < 128,
    ensures
        is_space(c) <==> c == ' ' || c == '\t' || c == '\n' || c == '\x0B' || c == '\x0C' || c
            == '\r',
{
}

/// Outside ASCII, white space is the next line, the blanks that do not break or
/// have a width of their own, and the separators of lines and paragraphs.
pub proof fn law_other_white_space(c: char)
    requires
        (c as u32) >= 128,
    ensures
        is_space(c) <==> c == '\u{85}' || c == '\u{A0}' || c == '\u{1680}' || ('\u{2000}' <= c
            && c <= '\u{200A}') || c == '\u{2028}' || c == '\u{2029}' || c == '\u{202F}' || c
            == '\u{205F}' || c == '\u{3000}',
{
}

/// Taking a character off the end takes off all of it and nothing else.
pub proof fn law_trim_end_takes_all(s: Seq<char>, c: char, i: int)
    ensures
        ({
            let t = trim_end_char(s, c);
            &&& t.len() <= s.len()
            &&& t == s.take(t.len() as int)
            &&& t.len() > 0 ==> t.last() != c
            &&& t.len() <= i < s.len() ==> s[i] == c
        }),
    decreases s.len(),
{
    if s.len() > 0 && s.last() == c {
        let rest = s.drop_last();
        law_trim_end_takes_all(rest, c, i);
        let n = trim_end_char(s, c).len() as int;
        assert(rest.take(n) =~= s.take(n));
        if 0 <= i < rest.len() {
            assert(rest[i] == s[i]);
        }
    } else {
        assert(s.take(s.len() as int) =~= s);
    }
}

/// Taking a character off the beginning takes off all of it and nothing else.
pub proof fn law_trim_start_takes_all(s: Seq<char>, c: char, i: int)
    ensures
        ({
            let t = trim_start_char(s, c);
            let n = s.len() - t.len();
            &&& n >= 0
            &&& t == s.skip(n)
            &&& t.len() > 0 ==> t[0] != c
            &&& 0 <= i < n ==> s[i] == c
        }),
    decreases s.len(),
{
    if s.len() > 0 && s[0] == c {
        let rest = s.drop_first();
        law_trim_start_takes_all(rest, c, i - 1);
        let n = s.len() - trim_start_char(s, c).len();
        assert(rest.skip(n - 1) =~= s.skip(n));
        if 0 < i < s.len() {
            assert(rest[i - 1] == s[i]);
        }
    } else {
        assert(s.skip(0) =~= s);
    }
}

/// A number is read whatever zeros and plus sign stand in front of it, and nothing
/// but digits is read as a number.
pub proof fn law_numbers_are_digits(s: Seq<char>, max: nat)
    ensures
        parsed(seq!['+'] + s, max) == if s.len() > 0 && s[0] == '+' {
            None
        } else {
            parsed(s, max)
        },
        s.len() > 0 && s[0] != '+' ==> parsed(seq!['0'] + s, max) == parsed(s, max),
        parsed(s, max) matches Some(n) ==> n <= max,
        parsed(Seq::empty(), max) is None,
        (exists|i: int| 0 < i < s.len() && !is_digit(#[trigger] s[i])) ==> parsed(s, max) is None,
{
    let plus = seq!['+'] + s;
    assert(plus.drop_first() =~= s);
    if s.len() > 0 && s[0] == '+' {
        assert(!is_digit(s[0]));
    }
    if s.len() > 0 && s[0] != '+' {
        let z = seq!['0'] + s;
        lemma_leading_zero(s);
        if all_digits(s) {
            assert forall|i: int| 0 <= i < z.len() implies is_digit(#[trigger] z[i]) by {
                if i > 0 {
                    assert(is_digit(s[i - 1]));
                }
            }
        }
        if all_digits(z) {
            assert forall|i: int| 0 <= i < s.len() implies is_digit(#[trigger] s[i]) by {
                assert(is_digit(z[i + 1]));
            }
        }
    }
    if exists|i: int| 0 < i < s.len() && !is_digit(#[trigger] s[i]) {
        let i = choose|i: int| 0 < i < s.len() && !is_digit(#[trigger] s[i]);
        if s[0] == '+' {
            assert(s.drop_first()[i - 1] == s[i]);
        }
    }
}

proof fn lemma_leading_zero(s: Seq<char>)
    ensures
        decimal_value(seq!['0'] + s) == decimal_value(s),
    decreases s.len(),
{
    let z = seq!['0'] + s;
    if s.len() == 0 {
        assert(z.drop_last() =~= Seq::empty());
        assert(decimal_value(Seq::empty()) == 0);
    } else {
        lemma_leading_zero(s.drop_last());
        assert(z.drop_last() =~= seq!['0'] + s.drop_last());
    }
}

/// Each digit behind a number makes it ten times as large and adds its own value.
pub proof fn law_digits_count_by_ten(s: Seq<char>, d: char)
    requires
        is_digit(d),
    ensures
        decimal_value(s.push(d)) == 10 * decimal_value(s) + (d as u32 - '0' as u32),
{
    assert(s.push(d).drop_last() =~= s);
}

/// A number is written without zeros in front, so that no two texts write one.
pub proof fn law_numbers_have_no_zeros_in_front(n: nat, s: Seq<char>)
    ensures
        n > 0 ==> decimal(n)[0] != '0',
        n == 0 ==> decimal(n) == seq!['0'],
        s.len() > 0 && all_digits(s) && (s.len() == 1 || s[0] != '0') ==> decimal(decimal_value(s))
            == s,
    decreases n + s.len(),
{
    if n >= 10 {
        law_numbers_have_no_zeros_in_front(n / 10, Seq::empty());
        lemma_decimal(n / 10);
    }
    if s.len() > 0 && all_digits(s) && (s.len() == 1 || s[0] != '0') {
        lemma_written_number(s);
    }
}

proof fn lemma_written_number(s: Seq<char>)
    requires
        s.len() > 0,
        all_digits(s),
        s.len() == 1 || s[0] != '0',
    ensures
        decimal(decimal_value(s)) == s,
        s.len() > 1 ==> decimal_value(s) >= 10,
        s[0] != '0' ==> decimal_value(s) > 0,
    decreases s.len(),
{
    let rest = s.drop_last();
    let d = s.last();
    assert(is_digit(s[s.len() - 1]));
    assert(is_digit(s[0]));
    let v = (d as u32 - '0' as u32) as nat;
    if s.len() == 1 {
        assert(rest =~= Seq::empty());
        assert(decimal_value(rest) == 0);
        assert(decimal_value(s) == v);
        assert(decimal(v) =~= s);
    } else {
        assert forall|i: int| 0 <= i < rest.len() implies is_digit(#[trigger] rest[i]) by {
            assert(rest[i] == s[i]);
        }
        lemma_written_number(rest);
        let n = decimal_value(s);
        assert(n == 10 * decimal_value(rest) + v);
        assert(n / 10 == decimal_value(rest) && n % 10 == v);
        assert(decimal(n) =~= s);
    }
}

} // verus!
