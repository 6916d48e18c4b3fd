//! Byte-level helpers over UTF-8 encoded text: counting characters and
//! UTF-16 code units, clipping a string to a number of characters or code
//! units, and encoding a single character.

use vstd::prelude::*;
use vstd::utf8::*;

verus! {

broadcast use vstd::seq_lib::group_seq_lib_default;

/// UTF-16 code units taken by one character: two for supplementary-plane
/// characters, one otherwise.
pub open spec fn utf16_weight(c: char) -> int {
    if c as u32 >= 0x10000 {
        2
    } else {
        1
    }
}

/// UTF-16 code units taken by a character sequence.
pub open spec fn utf16_of_chars(s: Seq<char>) -> int
    decreases s.len(),
{
    if s.len() == 0 {
        0
    } else {
        utf16_weight(s[0]) + utf16_of_chars(s.drop_first())
    }
}

/// UTF-16 length of a UTF-8 byte sequence.
pub open spec fn utf16_len(b: Seq<u8>) -> int {
    utf16_of_chars(decode_utf8(b))
}

/// Number of characters encoded by a UTF-8 byte sequence.
pub open spec fn char_len(b: Seq<u8>) -> int {
    decode_utf8(b).len() as int
}

/// Byte width of the scalar encoding that starts with the given leading byte.
pub open spec fn scalar_width_of(byte: u8) -> int {
    if is_leading_byte_width_1(byte) {
        1
    } else if is_leading_byte_width_2(byte) {
        2
    } else if is_leading_byte_width_3(byte) {
        3
    } else {
        4
    }
}

pub proof fn lemma_utf16_of_chars_concat(a: Seq<char>, b: Seq<char>)
    ensures
        utf16_of_chars(a + b) == utf16_of_chars(a) + utf16_of_chars(b),
    decreases a.len(),
{
    if a.len() == 0 {
        assert(a + b =~= b);
    } else {
        assert((a + b).drop_first() =~= a.drop_first() + b);
        lemma_utf16_of_chars_concat(a.drop_first(), b);
    }
}

/// Concatenating two valid UTF-8 sequences decodes, and counts, piecewise.
pub proof fn lemma_bytes_concat(a: Seq<u8>, b: Seq<u8>)
    requires
        valid_utf8(a),
        valid_utf8(b),
    ensures
        valid_utf8(a + b),
        decode_utf8(a + b) == decode_utf8(a) + decode_utf8(b),
        utf16_len(a + b) == utf16_len(a) + utf16_len(b),
        char_len(a + b) == char_len(a) + char_len(b),
{
    valid_utf8_concat(a, b);
    if b.len() == 0 {
        assert(a + b =~= a);
        assert(decode_utf8(a) + decode_utf8(b) =~= decode_utf8(a));
    } else {
        let c = a + b;
        assert(!is_continuation_byte(b[0]));
        assert(c[a.len() as int] == b[0]);
        if a.len() < c.len() {
            is_char_boundary_iff_not_is_continuation_byte(c, a.len() as int);
        } else {
            is_char_boundary_start_end_of_seq(c);
        }
        decode_utf8_split(c, a.len() as int);
        assert(c.subrange(0, a.len() as int) =~= a);
        assert(c.subrange(a.len() as int, c.len() as int) =~= b);
        lemma_utf16_of_chars_concat(decode_utf8(a), decode_utf8(b));
    }
}

/// A character boundary inside a valid sequence is exactly a position that
/// does not carry a continuation byte.
pub proof fn lemma_boundary_char(b: Seq<u8>, i: int)
    requires
        valid_utf8(b),
        0 <= i <= b.len(),
    ensures
        is_char_boundary(b, i) <==> (i == b.len() || !is_continuation_byte(b[i])),
{
    if i == b.len() {
        is_char_boundary_start_end_of_seq(b);
    } else {
        is_char_boundary_iff_not_is_continuation_byte(b, i);
    }
}

/// A sequence holding exactly one well-formed scalar encoding is valid UTF-8
/// and decodes to that one character.
proof fn lemma_single_scalar(mid: Seq<u8>)
    requires
        mid.len() > 0,
        valid_first_scalar(mid),
        length_of_first_scalar(mid) == mid.len(),
    ensures
        valid_utf8(mid),
        decode_utf8(mid) =~= seq![decode_first_scalar(mid) as char],
{
    reveal_with_fuel(valid_utf8, 3);
    reveal_with_fuel(decode_utf8, 3);
    assert(pop_first_scalar(mid) =~= Seq::<u8>::empty());
}

/// Walking one scalar forward from a character boundary: the width read from
/// the leading byte is right, the next boundary follows, and the character
/// and UTF-16 counts of the consumed prefix grow by one step.
pub proof fn lemma_step(b: Seq<u8>, i: int)
    requires
        valid_utf8(b),
        is_char_boundary(b, i),
        0 <= i < b.len(),
    ensures
        !is_continuation_byte(b[i]),
        is_leading_byte_width_1(b[i]) || is_leading_byte_width_2(b[i]) || is_leading_byte_width_3(
            b[i],
        ) || is_leading_byte_width_4(b[i]),
        i + scalar_width_of(b[i]) <= b.len(),
        is_char_boundary(b, i + scalar_width_of(b[i])),
        valid_utf8(b.subrange(0, i)),
        valid_utf8(b.subrange(0, i + scalar_width_of(b[i]))),
        char_len(b.subrange(0, i + scalar_width_of(b[i]))) == char_len(b.subrange(0, i)) + 1,
        utf16_len(b.subrange(0, i + scalar_width_of(b[i]))) == utf16_len(b.subrange(0, i)) + (
        if scalar_width_of(b[i]) == 4 {
            2int
        } else {
            1int
        }),
        valid_first_scalar(b.subrange(i, b.len() as int)),
        length_of_first_scalar(b.subrange(i, b.len() as int)) == scalar_width_of(b[i]),
        valid_utf8(b.subrange(i, b.len() as int)),
        valid_utf8(b.subrange(i + scalar_width_of(b[i]), b.len() as int)),
        forall|j: int| i < j < i + scalar_width_of(b[i]) ==> is_continuation_byte(#[trigger] b[j]),
{
    valid_utf8_split(b, i);
    let t = b.subrange(i, b.len() as int);
    assert(t.len() > 0);
    assert(valid_utf8(t));
    assert(valid_first_scalar(t));
    assert(t[0] == b[i]);
    let w = scalar_width_of(b[i]);
    assert(length_of_first_scalar(t) == w);
    assert(i + w <= b.len());
    assert forall|j: int| i < j < i + w implies is_continuation_byte(#[trigger] b[j]) by {
        assert(b[j] == t[j - i]);
    }
    // the next position is a boundary: either the end, or a fresh leading byte
    if i + w < b.len() {
        let rest = pop_first_scalar(t);
        assert(rest =~= b.subrange(i + w, b.len() as int));
        assert(valid_utf8(rest));
        assert(rest.len() > 0);
        assert(valid_first_scalar(rest));
        assert(rest[0] == b[i + w]);
        assert(!is_continuation_byte(b[i + w]));
        is_char_boundary_iff_not_is_continuation_byte(b, i + w);
    } else {
        is_char_boundary_start_end_of_seq(b);
    }
    valid_utf8_split(b, i + w);
    let p0 = b.subrange(0, i);
    let p1 = b.subrange(0, i + w);
    let mid = b.subrange(i, i + w);
    assert(mid =~= take_first_scalar(t));
    // the bytes of the middle piece are the first bytes of the tail
    assert(mid.len() == w);
    assert(forall|k: int| 0 <= k < w ==> mid[k] == t[k]);
    assert(valid_leading_and_continuation_bytes_first_codepoint(mid));
    assert(decode_first_codepoint(mid) == decode_first_codepoint(t));
    assert(length_of_first_codepoint(mid) == length_of_first_codepoint(t));
    assert(valid_first_scalar(mid));
    assert(length_of_first_scalar(mid) == w);
    lemma_single_scalar(mid);
    assert(p1 =~= p0 + mid);
    lemma_bytes_concat(p0, mid);
    // the middle decodes to exactly one character, whose UTF-16 weight is
    // two exactly for a four-byte encoding
    let c = decode_first_scalar(mid) as char;
    assert(decode_utf8(mid) =~= seq![c]);
    decode_utf8_first_scalar(mid);
    assert(encode_scalar(c as u32) == take_first_scalar(mid));
    assert(take_first_scalar(mid) =~= mid);
    assert(utf16_of_chars(seq![c]) == utf16_weight(c) + utf16_of_chars(seq![c].drop_first()));
    assert(seq![c].drop_first() =~= Seq::<char>::empty());
    assert(utf16_weight(c) == if w == 4 {
        2int
    } else {
        1int
    }) by {
        assert(encode_scalar(c as u32).len() == w);
        if w == 4 {
            assert(has_width_4_encoding(c as u32));
        } else {
            assert(!has_width_4_encoding(c as u32));
        }
    }
}

/// A valid text never needs more UTF-16 code units, nor holds more
/// characters, than it has UTF-8 bytes.
pub proof fn lemma_counts_le_len(b: Seq<u8>)
    requires
        valid_utf8(b),
    ensures
        0 <= char_len(b) <= b.len(),
        char_len(b) <= utf16_len(b) <= b.len(),
        b.len() > 0 ==> char_len(b) > 0,
    decreases b.len(),
{
    if b.len() == 0 {
    } else {
        assert(is_char_boundary(b, 0));
        lemma_step(b, 0);
        let w = scalar_width_of(b[0]);
        let head = b.subrange(0, w);
        let tail = b.subrange(w, b.len() as int);
        assert(b =~= head + tail);
        lemma_counts_le_len(tail);
        lemma_bytes_concat(head, tail);
        assert(b.subrange(0, 0) =~= Seq::<u8>::empty());
        assert(char_len(head) == 1);
        assert(utf16_len(head) == if w == 4 {
            2int
        } else {
            1int
        });
    }
}

/// A non-empty valid text starts with a leading byte.
pub proof fn lemma_valid_first_byte(s: Seq<u8>)
    requires
        valid_utf8(s),
        s.len() > 0,
    ensures
        !is_continuation_byte(s[0]),
{
    assert(valid_first_scalar(s));
}

/// Cutting a valid text at two character boundaries leaves three valid
/// pieces whose counts add up.
pub proof fn lemma_subrange_split3(c: Seq<u8>, a: int, b: int)
    requires
        valid_utf8(c),
        0 <= a <= b <= c.len(),
        is_char_boundary(c, a),
        is_char_boundary(c, b),
    ensures
        valid_utf8(c.subrange(0, a)),
        valid_utf8(c.subrange(a, b)),
        valid_utf8(c.subrange(b, c.len() as int)),
        utf16_len(c) == utf16_len(c.subrange(0, a)) + utf16_len(c.subrange(a, b)) + utf16_len(
            c.subrange(b, c.len() as int),
        ),
        char_len(c) == char_len(c.subrange(0, a)) + char_len(c.subrange(a, b)) + char_len(
            c.subrange(b, c.len() as int),
        ),
{
    valid_utf8_split(c, a);
    let c1 = c.subrange(0, a);
    let c2 = c.subrange(a, c.len() as int);
    assert(is_char_boundary(c2, b - a)) by {
        if b == c.len() {
            is_char_boundary_start_end_of_seq(c2);
        } else {
            lemma_boundary_char(c, b);
            assert(c2[b - a] == c[b]);
            lemma_boundary_char(c2, b - a);
        }
    }
    valid_utf8_split(c2, b - a);
    let mid = c.subrange(a, b);
    let last = c.subrange(b, c.len() as int);
    assert(mid =~= c2.subrange(0, b - a));
    assert(last =~= c2.subrange(b - a, c2.len() as int));
    lemma_bytes_concat(mid, last);
    assert(c2 =~= mid + last);
    lemma_bytes_concat(c1, c2);
    assert(c =~= c1 + c2);
}

/// A boundary seen inside a suffix is a boundary of the whole text.
pub proof fn lemma_boundary_shift(s: Seq<u8>, a: int, j: int)
    requires
        valid_utf8(s),
        is_char_boundary(s, a),
        0 <= a,
        0 <= j,
        a + j <= s.len(),
        is_char_boundary(s.subrange(a, s.len() as int), j),
    ensures
        is_char_boundary(s, a + j),
{
    valid_utf8_split(s, a);
    let t = s.subrange(a, s.len() as int);
    if a + j == s.len() {
        is_char_boundary_start_end_of_seq(s);
    } else {
        assert(t[j] == s[a + j]);
        lemma_boundary_char(t, j);
        lemma_boundary_char(s, a + j);
    }
}

/// A boundary seen inside a prefix cut at a boundary is a boundary of the
/// whole text.
pub proof fn lemma_boundary_prefix(s: Seq<u8>, a: int, j: int)
    requires
        valid_utf8(s),
        is_char_boundary(s, a),
        0 <= j <= a <= s.len(),
        is_char_boundary(s.subrange(0, a), j),
    ensures
        is_char_boundary(s, j),
{
    valid_utf8_split(s, a);
    let t = s.subrange(0, a);
    if j == a {
    } else {
        assert(t[j] == s[j]);
        lemma_boundary_char(t, j);
        lemma_boundary_char(s, j);
    }
}

/// Byte length of the longest prefix holding at most `n` characters.
pub open spec fn first_chars_len(b: Seq<u8>, n: int) -> int
    decreases b.len(),
    when valid_utf8(b)
{
    if b.len() == 0 || n <= 0 {
        0
    } else {
        length_of_first_scalar(b) + first_chars_len(pop_first_scalar(b), n - 1)
    }
}

/// Byte length of the longest prefix holding at most `n` UTF-16 code units.
pub open spec fn first_units_len(b: Seq<u8>, n: int) -> int
    decreases b.len(),
    when valid_utf8(b)
{
    if b.len() == 0 {
        0
    } else {
        let w = length_of_first_scalar(b);
        let u: int = if w == 4 {
            2
        } else {
            1
        };
        if u > n {
            0
        } else {
            w + first_units_len(pop_first_scalar(b), n - u)
        }
    }
}

/// Clipping to a number of UTF-16 code units never takes more units than
/// allowed, cuts at a character boundary, takes everything that fits, and
/// falls short of the allowance by at most one unit (a supplementary-plane
/// character refusing to split).
pub proof fn lemma_first_units_bound(b: Seq<u8>, n: int)
    requires
        valid_utf8(b),
        0 <= n,
    ensures
        0 <= first_units_len(b, n) <= b.len(),
        is_char_boundary(b, first_units_len(b, n)),
        valid_utf8(b.take(first_units_len(b, n))),
        utf16_len(b.take(first_units_len(b, n))) <= n,
        utf16_len(b) <= n ==> first_units_len(b, n) == b.len(),
        utf16_len(b) > n ==> utf16_len(b.take(first_units_len(b, n))) >= n - 1,
    decreases b.len(),
{
    if b.len() == 0 {
        assert(b.take(0) =~= b);
        is_char_boundary_start_end_of_seq(b);
    } else {
        assert(is_char_boundary(b, 0));
        lemma_step(b, 0);
        let w = scalar_width_of(b[0]);
        let u: int = if w == 4 {
            2
        } else {
            1
        };
        let head = b.subrange(0, w);
        let tail = b.subrange(w, b.len() as int);
        assert(b =~= head + tail);
        lemma_bytes_concat(head, tail);
        assert(utf16_len(head) == u) by {
            assert(b.subrange(0, 0) =~= Seq::<u8>::empty());
        }
        lemma_counts_le_len(tail);
        if u > n {
            assert(first_units_len(b, n) == 0);
            assert(b.take(0) =~= Seq::<u8>::empty());
            assert(utf16_len(b) > n);
        } else {
            assert(pop_first_scalar(b.subrange(0, b.len() as int)) =~= tail) by {
                assert(b.subrange(0, b.len() as int) =~= b);
            }
            assert(pop_first_scalar(b) =~= tail);
            lemma_first_units_bound(tail, n - u);
            let r2 = first_units_len(tail, n - u);
            let r = first_units_len(b, n);
            assert(r == w + r2);
            assert(b.take(r) =~= head + tail.take(r2));
            lemma_bytes_concat(head, tail.take(r2));
            assert(is_char_boundary(b, r)) by {
                lemma_boundary_shift(b, w, r2);
            }
        }
    }
}

/// The length in bytes of the first n characters of a UTF-8 string.
///
/// If the string has fewer than n characters, returns the length of the
/// whole string.
pub fn len_of_first_n_chars(text: &[u8], n: usize) -> (r: usize)
    requires
        valid_utf8(text@),
    ensures
        r == first_chars_len(text@, n as int),
        r <= text@.len(),
        is_char_boundary(text@, r as int),
{
    let ghost b = text@;
    let mut i: usize = 0;
    let mut k: usize = 0;
    proof {
        is_char_boundary_start_end_of_seq(b);
        assert(b.subrange(0, b.len() as int) =~= b);
    }
    while i < text.len() && k < n
        invariant
            valid_utf8(b),
            b == text@,
            i <= b.len(),
            k <= n,
            is_char_boundary(b, i as int),
            first_chars_len(b, n as int) == i + first_chars_len(
                b.subrange(i as int, b.len() as int),
                n - k,
            ),
        decreases b.len() - i,
    {
        proof {
            lemma_step(b, i as int);
        }
        let byte = text[i];
        let w: usize = if byte < 0x80 {
            1
        } else if byte < 0xE0 {
            2
        } else if byte < 0xF0 {
            3
        } else {
            4
        };
        proof {
            assert(w == scalar_width_of(byte));
            let t = b.subrange(i as int, b.len() as int);
            assert(pop_first_scalar(t) =~= b.subrange(i + w, b.len() as int));
        }
        i = i + w;
        k = k + 1;
    }
    proof {
        valid_utf8_split(b, i as int);
        if i == b.len() {
            assert(b.subrange(i as int, b.len() as int) =~= Seq::<u8>::empty());
        }
        assert(first_chars_len(b.subrange(i as int, b.len() as int), n - k) == 0);
    }
    i
}

/// The length in bytes of the first n code units of a string when encoded
/// in UTF-16.
///
/// If the string is fewer than n code units, returns the length of the
/// whole string.
pub fn len_of_first_n_code_units(text: &[u8], n: usize) -> (r: usize)
    requires
        valid_utf8(text@),
    ensures
        r == first_units_len(text@, n as int),
        r <= text@.len(),
        is_char_boundary(text@, r as int),
{
    let ghost b = text@;
    let mut i: usize = 0;
    let mut m: usize = n;
    proof {
        is_char_boundary_start_end_of_seq(b);
        assert(b.subrange(0, b.len() as int) =~= b);
    }
    while i < text.len()
        invariant
            valid_utf8(b),
            b == text@,
            i <= b.len(),
            m <= n,
            is_char_boundary(b, i as int),
            first_units_len(b, n as int) == i + first_units_len(
                b.subrange(i as int, b.len() as int),
                m as int,
            ),
        decreases b.len() - i,
    {
        proof {
            lemma_step(b, i as int);
        }
        let byte = text[i];
        let w: usize = if byte < 0x80 {
            1
        } else if byte < 0xE0 {
            2
        } else if byte < 0xF0 {
            3
        } else {
            4
        };
        let u: usize = if w == 4 {
            2
        } else {
            1
        };
        proof {
            assert(w == scalar_width_of(byte));
            let t = b.subrange(i as int, b.len() as int);
            assert(pop_first_scalar(t) =~= b.subrange(i + w, b.len() as int));
        }
        if u > m {
            proof {
                valid_utf8_split(b, i as int);
                assert(first_units_len(b.subrange(i as int, b.len() as int), m as int) == 0);
            }
            return i;
        }
        i = i + w;
        m = m - u;
    }
    proof {
        valid_utf8_split(b, i as int);
        assert(b.subrange(i as int, b.len() as int) =~= Seq::<u8>::empty());
        assert(first_units_len(b.subrange(i as int, b.len() as int), m as int) == 0);
    }
    i
}

/// Number of UTF-16 code units needed for the given UTF-8 bytes.
pub fn utf16_count(text: &[u8]) -> (r: usize)
    requires
        valid_utf8(text@),
    ensures
        r == utf16_len(text@),
{
    let ghost b = text@;
    let mut i: usize = 0;
    let mut acc: usize = 0;
    proof {
        is_char_boundary_start_end_of_seq(b);
        assert(b.subrange(0, 0) =~= Seq::<u8>::empty());
        assert(utf16_len(b.subrange(0, 0)) == 0);
    }
    while i < text.len()
        invariant
            valid_utf8(b),
            b == text@,
            i <= b.len(),
            acc <= i,
            is_char_boundary(b, i as int),
            acc == utf16_len(b.subrange(0, i as int)),
        decreases b.len() - i,
    {
        proof {
            lemma_step(b, i as int);
        }
        let byte = text[i];
        let w: usize = if byte < 0x80 {
            1
        } else if byte < 0xE0 {
            2
        } else if byte < 0xF0 {
            3
        } else {
            4
        };
        proof {
            assert(w == scalar_width_of(byte));
        }
        acc = acc + (if w == 4 {
            2
        } else {
            1
        });
        i = i + w;
    }
    proof {
        assert(b.subrange(0, i as int) =~= b);
    }
    acc
}

/// Number of characters encoded by the given UTF-8 bytes.
pub fn char_count(text: &[u8]) -> (r: usize)
    requires
        valid_utf8(text@),
    ensures
        r == char_len(text@),
{
    let ghost b = text@;
    let mut i: usize = 0;
    let mut acc: usize = 0;
    proof {
        is_char_boundary_start_end_of_seq(b);
        assert(b.subrange(0, 0) =~= Seq::<u8>::empty());
        assert(char_len(b.subrange(0, 0)) == 0);
    }
    while i < text.len()
        invariant
            valid_utf8(b),
            b == text@,
            i <= b.len(),
            acc <= i,
            is_char_boundary(b, i as int),
            acc == char_len(b.subrange(0, i as int)),
        decreases b.len() - i,
    {
        proof {
            lemma_step(b, i as int);
        }
        let byte = text[i];
        let w: usize = if byte < 0x80 {
            1
        } else if byte < 0xE0 {
            2
        } else if byte < 0xF0 {
            3
        } else {
            4
        };
        proof {
            assert(w == scalar_width_of(byte));
        }
        acc = acc + 1;
        i = i + w;
    }
    proof {
        assert(b.subrange(0, i as int) =~= b);
    }
    acc
}

/// The largest character boundary at or below `i`.
pub open spec fn clamp_boundary(s: Seq<u8>, i: int) -> int
    decreases i,
{
    if i <= 0 {
        0
    } else if is_char_boundary(s, i) {
        i
    } else {
        clamp_boundary(s, i - 1)
    }
}

/// The clamped position never exceeds the given one and stays at or above
/// the start.
pub proof fn lemma_clamp_boundary_le(s: Seq<u8>, i: int)
    ensures
        0 <= clamp_boundary(s, i),
        i >= 0 ==> clamp_boundary(s, i) <= i,
    decreases i,
{
    if i > 0 && !is_char_boundary(s, i) {
        lemma_clamp_boundary_le(s, i - 1);
    }
}

/// Clamping to a boundary preserves the order of positions.
pub proof fn lemma_clamp_boundary_mono(s: Seq<u8>, a: int, b: int)
    requires
        0 <= a <= b,
    ensures
        clamp_boundary(s, a) <= clamp_boundary(s, b),
    decreases b,
{
    lemma_clamp_boundary_le(s, a);
    if a < b && !is_char_boundary(s, b) {
        lemma_clamp_boundary_mono(s, a, b - 1);
    }
}

/// The clamped position lies on a character boundary.
pub proof fn lemma_clamp_boundary_is_boundary(s: Seq<u8>, i: int)
    requires
        valid_utf8(s),
        i <= s.len(),
    ensures
        is_char_boundary(s, clamp_boundary(s, i)),
    decreases i,
{
    if i <= 0 {
        assert(is_char_boundary(s, 0));
    } else if !is_char_boundary(s, i) {
        lemma_clamp_boundary_is_boundary(s, i - 1);
    }
}

/// Move a position down to the nearest character boundary.
pub fn clamp_to_boundary(line: &[u8], i: usize) -> (r: usize)
    requires
        valid_utf8(line@),
        i <= line@.len(),
    ensures
        r == clamp_boundary(line@, i as int),
        r <= i,
        is_char_boundary(line@, r as int),
{
    let ghost b = line@;
    let mut j = i;
    while j > 0 && j < line.len() && line[j] >= 0x80 && line[j] < 0xC0
        invariant
            b == line@,
            valid_utf8(b),
            j <= i <= b.len(),
            clamp_boundary(b, i as int) == clamp_boundary(b, j as int),
        decreases j,
    {
        proof {
            lemma_boundary_char(b, j as int);
            assert(!is_char_boundary(b, j as int));
        }
        j = j - 1;
    }
    proof {
        lemma_boundary_char(b, j as int);
        assert(is_char_boundary(b, j as int));
    }
    j
}

/// UTF-8 encoding of one character.
pub fn encode_char(c: char) -> (r: Vec<u8>)
    ensures
        r@ == encode_scalar(c as u32),
        valid_utf8(r@),
        decode_utf8(r@) =~= seq![c],
        1 <= r@.len() <= 4,
        utf16_len(r@) == utf16_weight(c),
        char_len(r@) == 1,
{
    proof {
        reveal_with_fuel(encode_utf8, 2);
        reveal_with_fuel(utf16_of_chars, 2);
        char_is_scalar(c);
        encode_utf8_valid_utf8(seq![c]);
        encode_utf8_decode_utf8(seq![c]);
        assert(seq![c].drop_first() =~= Seq::<char>::empty());
        assert(encode_utf8(seq![c]) =~= encode_scalar(c as u32));
        assert(utf16_of_chars(seq![c]) == utf16_weight(c));
    }
    let u = c as u32;
    if u < 0x80 {
        let r = vec![(u & 0x7F) as u8];
        proof {
            assert(r@ =~= encode_scalar(c as u32));
        }
        r
    } else if u < 0x800 {
        let r = vec![0xC0u8 | ((u >> 6) & 0x1F) as u8, 0x80u8 | (u & 0x3F) as u8];
        proof {
            assert(r@ =~= encode_scalar(c as u32));
        }
        r
    } else if u < 0x10000 {
        let r = vec![
            0xE0u8 | ((u >> 12) & 0x0F) as u8,
            0x80u8 | ((u >> 6) & 0x3F) as u8,
            0x80u8 | (u & 0x3F) as u8,
        ];
        proof {
            assert(r@ =~= encode_scalar(c as u32));
        }
        r
    } else {
        let r = vec![
            0xF0u8 | ((u >> 18) & 0x7) as u8,
            0x80u8 | ((u >> 12) & 0x3F) as u8,
            0x80u8 | ((u >> 6) & 0x3F) as u8,
            0x80u8 | (u & 0x3F) as u8,
        ];
        proof {
            assert(r@ =~= encode_scalar(c as u32));
        }
        r
    }
}

} // verus!
