//! The mathematical model of line-structured content: joining lines with
//! newlines, splitting text into lines, and converting between byte offsets
//! and (line, index) positions.

use vstd::prelude::*;
use vstd::utf8::*;

use crate::unicode::{char_len, lemma_bytes_concat, lemma_step, scalar_width_of, utf16_len};

verus! {

broadcast use vstd::seq::group_seq_axioms, vstd::seq_lib::group_seq_lib_default;

/// The whole content: lines joined by a single newline byte.
pub open spec fn join_nl(lines: Seq<Seq<u8>>) -> Seq<u8>
    decreases lines.len(),
{
    if lines.len() == 0 {
        Seq::empty()
    } else if lines.len() == 1 {
        lines[0]
    } else {
        lines[0] + seq![10u8] + join_nl(lines.drop_first())
    }
}

/// Byte offset of the start of line `k`: every earlier line plus one
/// newline each.
pub open spec fn prefix_off(lines: Seq<Seq<u8>>, k: int) -> int
    decreases k,
{
    if k <= 0 {
        0
    } else {
        prefix_off(lines, k - 1) + lines[k - 1].len() + 1
    }
}

/// True when the sequence holds no newline byte.
pub open spec fn no_nl(s: Seq<u8>) -> bool {
    forall|i: int| 0 <= i < s.len() ==> s[i] != 10
}

/// True when the sequence holds neither newline nor carriage-return bytes.
pub open spec fn no_line_break(s: Seq<u8>) -> bool {
    forall|i: int| 0 <= i < s.len() ==> s[i] != 10 && s[i] != 13
}

/// A single ASCII byte is a valid one-character UTF-8 sequence.
pub proof fn lemma_ascii_byte(x: u8)
    requires
        x < 0x80,
    ensures
        valid_utf8(seq![x]),
        char_len(seq![x]) == 1,
        utf16_len(seq![x]) == 1,
{
    reveal_with_fuel(valid_utf8, 3);
    reveal_with_fuel(decode_utf8, 3);
    reveal_with_fuel(crate::unicode::utf16_of_chars, 3);
    let s = seq![x];
    assert(is_leading_byte_width_1(x));
    assert(length_of_first_scalar(s) == 1);
    assert(decode_first_codepoint(s) == codepoint_width_1(x));
    assert(codepoint_width_1(x) == (x & 0x7f) as u32);
    assert((x & 0x7f) as u32 == x as u32) by (bit_vector)
        requires
            x < 0x80,
    ;
    assert(pop_first_scalar(s) =~= Seq::<u8>::empty());
    let c = decode_first_scalar(s) as char;
    assert(decode_utf8(s) =~= seq![c]);
    decode_utf8_first_scalar(s);
    assert(encode_scalar(c as u32).len() == 1);
    assert(!has_width_4_encoding(c as u32));
    assert(crate::unicode::utf16_weight(c) == 1);
}

/// Appending one more line to a non-empty sequence of lines appends a
/// newline and that line to the joined content.
pub proof fn lemma_join_push(s: Seq<Seq<u8>>, x: Seq<u8>)
    requires
        s.len() >= 1,
    ensures
        join_nl(s.push(x)) == join_nl(s) + seq![10u8] + x,
    decreases s.len(),
{
    if s.len() == 1 {
        assert(s.push(x).drop_first() =~= seq![x]);
        assert(join_nl(seq![x]) == x);
        assert(join_nl(s.push(x)) == s[0] + seq![10u8] + x);
        assert(join_nl(s) == s[0]);
    } else {
        assert(s.push(x).drop_first() =~= s.drop_first().push(x));
        lemma_join_push(s.drop_first(), x);
        assert(join_nl(s.push(x)) == s[0] + seq![10u8] + join_nl(s.drop_first().push(x)));
        assert(s[0] + seq![10u8] + (join_nl(s.drop_first()) + seq![10u8] + x) =~= (s[0] + seq![10u8]
            + join_nl(s.drop_first())) + seq![10u8] + x);
    }
}

/// The start offset of line `k`, seen from the tail of the line sequence.
pub proof fn lemma_prefix_off_drop(lines: Seq<Seq<u8>>, k: int)
    requires
        1 <= k <= lines.len(),
    ensures
        prefix_off(lines, k) == lines[0].len() + 1 + prefix_off(lines.drop_first(), k - 1),
    decreases k,
{
    if k == 1 {
        assert(prefix_off(lines, 0) == 0);
        assert(prefix_off(lines.drop_first(), 0) == 0);
    } else {
        lemma_prefix_off_drop(lines, k - 1);
        assert(lines.drop_first()[k - 2] == lines[k - 1]);
    }
}

/// Line-start offsets are non-negative and grow at least one per line.
pub proof fn lemma_prefix_off_nonneg(lines: Seq<Seq<u8>>, k: int)
    requires
        0 <= k,
    ensures
        prefix_off(lines, k) >= k,
    decreases k,
{
    if k > 0 {
        lemma_prefix_off_nonneg(lines, k - 1);
    }
}

/// Joined content of valid UTF-8 lines is valid UTF-8, and its counts are
/// the per-line counts plus one for each newline.
pub proof fn lemma_join_valid(lines: Seq<Seq<u8>>)
    requires
        lines.len() >= 1,
        forall|i: int| 0 <= i < lines.len() ==> valid_utf8(#[trigger] lines[i]),
    ensures
        valid_utf8(join_nl(lines)),
    decreases lines.len(),
{
    if lines.len() == 1 {
    } else {
        lemma_join_valid(lines.drop_first());
        lemma_ascii_byte(10);
        lemma_bytes_concat(lines[0], seq![10u8]);
        lemma_bytes_concat(lines[0] + seq![10u8], join_nl(lines.drop_first()));
    }
}

/// Each line sits in the joined content at its prefix offset, followed by a
/// newline byte unless it is the last line.
pub proof fn lemma_line_decomp(lines: Seq<Seq<u8>>, k: int)
    requires
        0 <= k < lines.len(),
    ensures
        prefix_off(lines, k) + lines[k].len() <= join_nl(lines).len(),
        join_nl(lines).subrange(prefix_off(lines, k), prefix_off(lines, k) + lines[k].len())
            == lines[k],
        k < lines.len() - 1 ==> prefix_off(lines, k) + lines[k].len() < join_nl(lines).len()
            && join_nl(lines)[prefix_off(lines, k) + lines[k].len()] == 10,
        k == lines.len() - 1 ==> prefix_off(lines, k) + lines[k].len() == join_nl(lines).len(),
    decreases k,
{
    if k == 0 {
        if lines.len() == 1 {
            assert(join_nl(lines) == lines[0]);
            assert(join_nl(lines).subrange(0, lines[0].len() as int) =~= lines[0]);
        } else {
            let rest = join_nl(lines.drop_first());
            assert(join_nl(lines) == lines[0] + seq![10u8] + rest);
            assert(join_nl(lines).subrange(0, lines[0].len() as int) =~= lines[0]);
            assert(join_nl(lines)[lines[0].len() as int] == 10);
        }
    } else {
        let d = lines.drop_first();
        lemma_line_decomp(d, k - 1);
        lemma_prefix_off_drop(lines, k);
        assert(d[k - 1] == lines[k]);
        let rest = join_nl(d);
        let head = lines[0] + seq![10u8];
        assert(join_nl(lines) == head + rest);
        assert(head.len() == lines[0].len() + 1);
        let base = prefix_off(lines, k);
        let dbase = prefix_off(d, k - 1);
        assert(base == lines[0].len() + 1 + dbase);
        assert(dbase + lines[k].len() <= rest.len());
        lemma_prefix_off_nonneg(d, k - 1);
        assert(join_nl(lines).len() == head.len() + rest.len());
        assert forall|i: int| 0 <= i < lines[k].len() implies join_nl(lines)[base + i] == #[trigger] rest[dbase + i] by {
            assert(head.add(rest)[base + i] == rest[base + i - head.len()]);
        }
        assert(join_nl(lines).subrange(base, base + lines[k].len()) =~= rest.subrange(
            dbase,
            dbase + lines[k].len(),
        ));
        if k < lines.len() - 1 {
            assert(head.add(rest)[base + lines[k].len()] == rest[dbase + lines[k].len()]);
            assert(join_nl(lines)[base + lines[k].len()] == rest[dbase + lines[k].len()]);
        }
    }
}

/// The per-element views of a sequence of byte vectors.
pub open spec fn views(s: Seq<Vec<u8>>) -> Seq<Seq<u8>> {
    s.map_values(|v: Vec<u8>| v@)
}

/// Split on newline bytes only, as the selection-replacing splice does.
pub open spec fn split_nl(b: Seq<u8>) -> Seq<Seq<u8>>
    decreases b.len(),
{
    if b.len() == 0 {
        seq![Seq::<u8>::empty()]
    } else if b[0] == 10 {
        seq![Seq::<u8>::empty()] + split_nl(b.drop_first())
    } else {
        let r = split_nl(b.drop_first());
        seq![seq![b[0]] + r[0]] + r.drop_first()
    }
}

/// Split on newline or carriage-return bytes, a carriage return directly
/// followed by a newline counting as a single break, as setting content does.
pub open spec fn split_content(b: Seq<u8>) -> Seq<Seq<u8>>
    decreases b.len(),
{
    if b.len() == 0 {
        seq![Seq::<u8>::empty()]
    } else if b[0] == 13 {
        if b.len() >= 2 && b[1] == 10 {
            seq![Seq::<u8>::empty()] + split_content(b.subrange(2, b.len() as int))
        } else {
            seq![Seq::<u8>::empty()] + split_content(b.drop_first())
        }
    } else if b[0] == 10 {
        seq![Seq::<u8>::empty()] + split_content(b.drop_first())
    } else {
        let r = split_content(b.drop_first());
        seq![seq![b[0]] + r[0]] + r.drop_first()
    }
}

/// Splitting always yields at least one line, the lines hold no separator,
/// and joining the newline-split lines restores the text.
pub proof fn lemma_split_nl_basic(b: Seq<u8>)
    ensures
        split_nl(b).len() >= 1,
        forall|i: int| 0 <= i < split_nl(b).len() ==> no_nl(#[trigger] split_nl(b)[i]),
        join_nl(split_nl(b)) == b,
    decreases b.len(),
{
    if b.len() == 0 {
        assert(join_nl(split_nl(b)) =~= b);
    } else if b[0] == 10 {
        lemma_split_nl_basic(b.drop_first());
        let r = split_nl(b.drop_first());
        let s = seq![Seq::<u8>::empty()] + r;
        assert(s.drop_first() =~= r);
        assert(s.len() >= 2);
        assert(join_nl(s) == s[0] + seq![10u8] + join_nl(r));
        assert(s[0] + seq![10u8] + join_nl(r) =~= b);
    } else {
        lemma_split_nl_basic(b.drop_first());
        let r = split_nl(b.drop_first());
        let s = seq![seq![b[0]] + r[0]] + r.drop_first();
        assert(s[0] == seq![b[0]] + r[0]);
        assert(no_nl(s[0]));
        assert(forall|i: int| 1 <= i < s.len() ==> s[i] == r[i]);
        if r.len() == 1 {
            assert(s.len() == 1);
            assert(join_nl(s) == s[0]);
            assert(join_nl(r) == r[0]);
            assert(seq![b[0]] + r[0] =~= b);
        } else {
            assert(s.drop_first() =~= r.drop_first());
            assert(join_nl(s) == s[0] + seq![10u8] + join_nl(r.drop_first()));
            assert(join_nl(r) == r[0] + seq![10u8] + join_nl(r.drop_first()));
            assert(s[0] + seq![10u8] + join_nl(r.drop_first()) =~= seq![b[0]] + (r[0] + seq![10u8]
                + join_nl(r.drop_first())));
            assert(seq![b[0]] + join_nl(r) =~= b);
        }
    }
}

/// Pushing a separator-free prefix in front of a text extends the text's
/// first line by that prefix.
pub proof fn lemma_split_nl_prepend(a: Seq<u8>, t: Seq<u8>)
    requires
        no_nl(a),
    ensures
        split_nl(a + t) == seq![a + split_nl(t)[0]] + split_nl(t).drop_first(),
    decreases a.len(),
{
    lemma_split_nl_basic(t);
    if a.len() == 0 {
        assert(a + t =~= t);
        assert(a + split_nl(t)[0] =~= split_nl(t)[0]);
        assert(seq![split_nl(t)[0]] + split_nl(t).drop_first() =~= split_nl(t));
    } else {
        let c = a + t;
        assert(c[0] == a[0]);
        assert(c[0] != 10);
        assert(c.drop_first() =~= a.drop_first() + t);
        lemma_split_nl_prepend(a.drop_first(), t);
        let r = split_nl(c.drop_first());
        assert(r == seq![a.drop_first() + split_nl(t)[0]] + split_nl(t).drop_first());
        assert(r[0] == a.drop_first() + split_nl(t)[0]);
        assert(r.drop_first() =~= split_nl(t).drop_first());
        assert(seq![c[0]] + r[0] =~= a + split_nl(t)[0]);
        assert(split_nl(c) == seq![seq![c[0]] + r[0]] + r.drop_first());
        assert(split_nl(c) =~= seq![a + split_nl(t)[0]] + split_nl(t).drop_first());
    }
}

/// Splitting a valid UTF-8 text on newlines yields valid UTF-8 lines.
pub proof fn lemma_split_nl_valid(b: Seq<u8>)
    requires
        valid_utf8(b),
    ensures
        forall|i: int| 0 <= i < split_nl(b).len() ==> valid_utf8(#[trigger] split_nl(b)[i]),
    decreases b.len(),
{
    reveal_with_fuel(valid_utf8, 2);
    if b.len() == 0 {
    } else {
        assert(is_char_boundary(b, 0));
        lemma_step(b, 0);
        let w = scalar_width_of(b[0]);
        if b[0] == 10 {
            assert(w == 1);
            assert(b.subrange(1, b.len() as int) =~= b.drop_first());
            lemma_split_nl_valid(b.drop_first());
            assert forall|i: int| 0 <= i < split_nl(b).len() implies valid_utf8(
                #[trigger] split_nl(b)[i],
            ) by {
                if i >= 1 {
                    assert(split_nl(b)[i] == split_nl(b.drop_first())[i - 1]);
                } else {
                    assert(split_nl(b)[0] =~= Seq::<u8>::empty());
                }
            }
        } else {
            let s1 = b.subrange(0, w);
            let t = b.subrange(w, b.len() as int);
            assert(b =~= s1 + t);
            assert(no_nl(s1)) by {
                assert(s1[0] == b[0]);
                assert(forall|k: int| 0 < k < w ==> is_continuation_byte(#[trigger] b[k]));
                assert(forall|k: int| 0 < k < w ==> s1[k] == b[k]);
            }
            lemma_split_nl_prepend(s1, t);
            lemma_split_nl_valid(t);
            lemma_split_nl_basic(t);
            lemma_bytes_concat(s1, split_nl(t)[0]);
            assert(split_nl(b) == seq![s1 + split_nl(t)[0]] + split_nl(t).drop_first());
            assert forall|i: int| 0 <= i < split_nl(b).len() implies valid_utf8(
                #[trigger] split_nl(b)[i],
            ) by {
                if i >= 1 {
                    assert(split_nl(b)[i] == split_nl(t).drop_first()[i - 1]);
                    assert(split_nl(t).drop_first()[i - 1] == split_nl(t)[i]);
                } else {
                    assert(split_nl(b)[0] == s1 + split_nl(t)[0]);
                }
            }
        }
    }
}

/// Splitting always yields at least one line and the lines hold no line
/// break of either kind.
pub proof fn lemma_split_content_basic(b: Seq<u8>)
    ensures
        split_content(b).len() >= 1,
        forall|i: int|
            0 <= i < split_content(b).len() ==> no_line_break(#[trigger] split_content(b)[i]),
    decreases b.len(),
{
    if b.len() == 0 {
    } else if b[0] == 13 && b.len() >= 2 && b[1] == 10 {
        lemma_split_content_basic(b.subrange(2, b.len() as int));
    } else if b[0] == 13 || b[0] == 10 {
        lemma_split_content_basic(b.drop_first());
    } else {
        lemma_split_content_basic(b.drop_first());
        let r = split_content(b.drop_first());
        let s = seq![seq![b[0]] + r[0]] + r.drop_first();
        assert(s[0] == seq![b[0]] + r[0]);
        assert(no_line_break(s[0]));
        assert(forall|i: int| 1 <= i < s.len() ==> s[i] == r[i]);
    }
}

/// Pushing a break-free prefix in front of a text extends the text's first
/// line by that prefix.
pub proof fn lemma_split_content_prepend(a: Seq<u8>, t: Seq<u8>)
    requires
        no_line_break(a),
    ensures
        split_content(a + t) == seq![a + split_content(t)[0]] + split_content(t).drop_first(),
    decreases a.len(),
{
    lemma_split_content_basic(t);
    if a.len() == 0 {
        assert(a + t =~= t);
        assert(a + split_content(t)[0] =~= split_content(t)[0]);
        assert(seq![split_content(t)[0]] + split_content(t).drop_first() =~= split_content(t));
    } else {
        let c = a + t;
        assert(c[0] == a[0]);
        assert(c[0] != 10 && c[0] != 13);
        assert(c.drop_first() =~= a.drop_first() + t);
        lemma_split_content_prepend(a.drop_first(), t);
        let r = split_content(c.drop_first());
        assert(r[0] == a.drop_first() + split_content(t)[0]);
        assert(r.drop_first() =~= split_content(t).drop_first());
        assert(seq![c[0]] + r[0] =~= a + split_content(t)[0]);
        assert(split_content(c) == seq![seq![c[0]] + r[0]] + r.drop_first());
        assert(split_content(c) =~= seq![a + split_content(t)[0]] + split_content(t).drop_first());
    }
}

/// Splitting the joined content of break-free lines restores the lines.
pub proof fn lemma_split_content_of_join(lines: Seq<Seq<u8>>)
    requires
        lines.len() >= 1,
        forall|i: int| 0 <= i < lines.len() ==> no_line_break(#[trigger] lines[i]),
    ensures
        split_content(join_nl(lines)) == lines,
    decreases lines.len(),
{
    if lines.len() == 1 {
        lemma_split_content_prepend(lines[0], Seq::<u8>::empty());
        assert(lines[0] + Seq::<u8>::empty() =~= lines[0]);
        assert(split_content(Seq::<u8>::empty()) == seq![Seq::<u8>::empty()]);
        assert(lines[0] + split_content(Seq::<u8>::empty())[0] =~= lines[0]);
        assert(split_content(join_nl(lines)) =~= lines);
    } else {
        let d = lines.drop_first();
        lemma_split_content_of_join(d);
        let rest = join_nl(d);
        let tail = seq![10u8] + rest;
        assert(join_nl(lines) == lines[0] + seq![10u8] + rest);
        assert(lines[0] + seq![10u8] + rest =~= lines[0] + tail);
        lemma_split_content_prepend(lines[0], tail);
        assert(tail.drop_first() =~= rest);
        assert(tail[0] == 10);
        assert(split_content(tail) == seq![Seq::<u8>::empty()] + split_content(rest));
        assert(split_content(tail)[0] =~= Seq::<u8>::empty());
        assert(lines[0] + split_content(tail)[0] =~= lines[0]);
        assert(split_content(tail).drop_first() =~= split_content(rest));
        assert(split_content(join_nl(lines)) == seq![lines[0]] + d);
        assert(seq![lines[0]] + d =~= lines);
    }
}

/// Splitting a valid UTF-8 text on line breaks yields valid UTF-8 lines.
pub proof fn lemma_split_content_valid(b: Seq<u8>)
    requires
        valid_utf8(b),
    ensures
        forall|i: int|
            0 <= i < split_content(b).len() ==> valid_utf8(#[trigger] split_content(b)[i]),
    decreases b.len(),
{
    reveal_with_fuel(valid_utf8, 2);
    if b.len() == 0 {
    } else {
        assert(is_char_boundary(b, 0));
        lemma_step(b, 0);
        let w = scalar_width_of(b[0]);
        if b[0] == 13 && b.len() >= 2 && b[1] == 10 {
            assert(w == 1);
            lemma_step(b, 1);
            let t = b.subrange(2, b.len() as int);
            lemma_split_content_valid(t);
            assert forall|i: int| 0 <= i < split_content(b).len() implies valid_utf8(
                #[trigger] split_content(b)[i],
            ) by {
                if i >= 1 {
                    assert(split_content(b)[i] == split_content(t)[i - 1]);
                } else {
                    assert(split_content(b)[0] =~= Seq::<u8>::empty());
                }
            }
        } else if b[0] == 13 || b[0] == 10 {
            assert(w == 1);
            assert(b.subrange(1, b.len() as int) =~= b.drop_first());
            lemma_split_content_valid(b.drop_first());
            assert forall|i: int| 0 <= i < split_content(b).len() implies valid_utf8(
                #[trigger] split_content(b)[i],
            ) by {
                if i >= 1 {
                    assert(split_content(b)[i] == split_content(b.drop_first())[i - 1]);
                } else {
                    assert(split_content(b)[0] =~= Seq::<u8>::empty());
                }
            }
        } else {
            let s1 = b.subrange(0, w);
            let t = b.subrange(w, b.len() as int);
            assert(b =~= s1 + t);
            assert(no_line_break(s1)) by {
                assert(s1[0] == b[0]);
                assert(forall|k: int| 0 < k < w ==> is_continuation_byte(#[trigger] b[k]));
                assert(forall|k: int| 0 < k < w ==> s1[k] == b[k]);
            }
            lemma_split_content_prepend(s1, t);
            lemma_split_content_valid(t);
            lemma_split_content_basic(t);
            lemma_bytes_concat(s1, split_content(t)[0]);
            assert(split_content(b) == seq![s1 + split_content(t)[0]] + split_content(
                t,
            ).drop_first());
            assert forall|i: int| 0 <= i < split_content(b).len() implies valid_utf8(
                #[trigger] split_content(b)[i],
            ) by {
                if i >= 1 {
                    assert(split_content(b)[i] == split_content(t).drop_first()[i - 1]);
                    assert(split_content(t).drop_first()[i - 1] == split_content(t)[i]);
                } else {
                    assert(split_content(b)[0] == s1 + split_content(t)[0]);
                }
            }
        }
    }
}

/// The lines a control stores for a given text: split at line breaks when
/// multiline, the text itself as the single line otherwise.
pub open spec fn content_lines(multiline: bool, b: Seq<u8>) -> Seq<Seq<u8>> {
    if multiline {
        split_content(b)
    } else {
        seq![b]
    }
}

/// The joined length of the first `k` lines is the start offset of line `k`
/// minus the newline that would follow.
pub proof fn lemma_join_take_len(lines: Seq<Seq<u8>>, k: int)
    requires
        1 <= k <= lines.len(),
    ensures
        join_nl(lines.take(k)).len() == prefix_off(lines, k) - 1,
    decreases k,
{
    if k == 1 {
        assert(lines.take(1) =~= seq![lines[0]]);
        assert(join_nl(seq![lines[0]]) == lines[0]);
        assert(prefix_off(lines, 0) == 0);
    } else {
        lemma_join_take_len(lines, k - 1);
        assert(lines.take(k) =~= lines.take(k - 1).push(lines[k - 1]));
        lemma_join_push(lines.take(k - 1), lines[k - 1]);
    }
}

/// Replacing line breaks while splitting never lengthens the joined text.
pub proof fn lemma_split_content_join_len(b: Seq<u8>)
    ensures
        join_nl(split_content(b)).len() <= b.len(),
    decreases b.len(),
{
    lemma_split_content_basic(b);
    if b.len() == 0 {
    } else if b[0] == 13 && b.len() >= 2 && b[1] == 10 {
        let t = b.subrange(2, b.len() as int);
        lemma_split_content_join_len(t);
        let r = split_content(t);
        let s = seq![Seq::<u8>::empty()] + r;
        assert(s.drop_first() =~= r);
        assert(join_nl(s) == s[0] + seq![10u8] + join_nl(r));
        assert(join_nl(s).len() == 1 + join_nl(r).len());
    } else if b[0] == 13 || b[0] == 10 {
        let t = b.drop_first();
        lemma_split_content_join_len(t);
        let r = split_content(t);
        let s = seq![Seq::<u8>::empty()] + r;
        assert(s.drop_first() =~= r);
        assert(join_nl(s) == s[0] + seq![10u8] + join_nl(r));
        assert(join_nl(s).len() == 1 + join_nl(r).len());
    } else {
        let t = b.drop_first();
        lemma_split_content_join_len(t);
        let r = split_content(t);
        let s = seq![seq![b[0]] + r[0]] + r.drop_first();
        if r.len() == 1 {
            assert(s.len() == 1);
            assert(join_nl(s) == s[0]);
            assert(join_nl(r) == r[0]);
            assert(s[0].len() == 1 + r[0].len());
        } else {
            assert(s.drop_first() =~= r.drop_first());
            assert(join_nl(s) == s[0] + seq![10u8] + join_nl(r.drop_first()));
            assert(join_nl(r) == r[0] + seq![10u8] + join_nl(r.drop_first()));
            assert(join_nl(s).len() == 1 + join_nl(r).len());
        }
    }
}

/// One step of a left-to-right walk over the lines of a buffer: joining one
/// more line appends a newline and that line, and the counts grow by the
/// line's counts plus one.
pub proof fn lemma_take_step(lines: Seq<Seq<u8>>, i: int)
    requires
        0 <= i < lines.len(),
        forall|k: int| 0 <= k < lines.len() ==> valid_utf8(#[trigger] lines[k]),
        valid_utf8(join_nl(lines.take(i))),
    ensures
        valid_utf8(join_nl(lines.take(i + 1))),
        i == 0 ==> join_nl(lines.take(1)) == lines[0],
        i >= 1 ==> join_nl(lines.take(i + 1)) == join_nl(lines.take(i)) + seq![10u8] + lines[i],
        i >= 1 ==> utf16_len(join_nl(lines.take(i + 1))) == utf16_len(join_nl(lines.take(i))) + 1
            + utf16_len(lines[i]),
        i >= 1 ==> char_len(join_nl(lines.take(i + 1))) == char_len(join_nl(lines.take(i))) + 1
            + char_len(lines[i]),
        join_nl(lines.take(i + 1)).len() <= join_nl(lines).len(),
        utf16_len(join_nl(lines.take(i + 1))) <= join_nl(lines.take(i + 1)).len(),
        char_len(join_nl(lines.take(i + 1))) <= join_nl(lines.take(i + 1)).len(),
        0 <= utf16_len(join_nl(lines.take(i + 1))),
        0 <= char_len(join_nl(lines.take(i + 1))),
{
    if i == 0 {
        assert(lines.take(1) =~= seq![lines[0]]);
        assert(join_nl(lines.take(1)) == lines[0]);
    } else {
        assert(lines.take(i + 1) =~= lines.take(i).push(lines[i]));
        lemma_join_push(lines.take(i), lines[i]);
        lemma_ascii_byte(10);
        lemma_bytes_concat(join_nl(lines.take(i)), seq![10u8]);
        lemma_bytes_concat(join_nl(lines.take(i)) + seq![10u8], lines[i]);
    }
    crate::unicode::lemma_counts_le_len(join_nl(lines.take(i + 1)));
    lemma_join_take_len(lines, i + 1);
    lemma_prefix_off_mono(lines, i + 1, lines.len() as int);
    lemma_line_decomp(lines, lines.len() - 1);
}

/// Joining two stretches of lines joins their contents around one newline.
pub proof fn lemma_join_concat(x: Seq<Seq<u8>>, y: Seq<Seq<u8>>)
    requires
        x.len() >= 1,
        y.len() >= 1,
    ensures
        join_nl(x + y) == join_nl(x) + seq![10u8] + join_nl(y),
    decreases x.len(),
{
    if x.len() == 1 {
        assert((x + y)[0] == x[0]);
        assert((x + y).drop_first() =~= y);
        assert(join_nl(x + y) == x[0] + seq![10u8] + join_nl(y));
        assert(join_nl(x) == x[0]);
    } else {
        assert((x + y)[0] == x[0]);
        assert((x + y).drop_first() =~= x.drop_first() + y);
        lemma_join_concat(x.drop_first(), y);
        assert(join_nl(x + y) == x[0] + seq![10u8] + (join_nl(x.drop_first()) + seq![10u8]
            + join_nl(y)));
        assert(x[0] + seq![10u8] + (join_nl(x.drop_first()) + seq![10u8] + join_nl(y)) =~= (x[0]
            + seq![10u8] + join_nl(x.drop_first())) + seq![10u8] + join_nl(y));
    }
}

/// Extending the first line at its front extends the joined content at its
/// front.
pub proof fn lemma_join_prepend_first(s: Seq<Seq<u8>>, p: Seq<u8>)
    requires
        s.len() >= 1,
    ensures
        join_nl(seq![p + s[0]] + s.drop_first()) == p + join_nl(s),
{
    let t = seq![p + s[0]] + s.drop_first();
    assert(t[0] == p + s[0]);
    if s.len() == 1 {
        assert(t.len() == 1);
        assert(join_nl(t) == p + s[0]);
        assert(join_nl(s) == s[0]);
    } else {
        assert(t.drop_first() =~= s.drop_first());
        assert(join_nl(t) == (p + s[0]) + seq![10u8] + join_nl(s.drop_first()));
        assert(join_nl(s) == s[0] + seq![10u8] + join_nl(s.drop_first()));
        assert((p + s[0]) + seq![10u8] + join_nl(s.drop_first()) =~= p + (s[0] + seq![10u8]
            + join_nl(s.drop_first())));
    }
}

/// Extending the last line at its back extends the joined content at its
/// back.
pub proof fn lemma_join_append_last(s: Seq<Seq<u8>>, suf: Seq<u8>)
    requires
        s.len() >= 1,
    ensures
        join_nl(s.take(s.len() - 1).push(s.last() + suf)) == join_nl(s) + suf,
    decreases s.len(),
{
    let t = s.take(s.len() - 1).push(s.last() + suf);
    if s.len() == 1 {
        assert(t =~= seq![s[0] + suf]);
        assert(join_nl(t) == s[0] + suf);
        assert(join_nl(s) == s[0]);
    } else {
        lemma_join_append_last(s.drop_first(), suf);
        assert(t[0] == s[0]);
        assert(t.drop_first() =~= s.drop_first().take(s.drop_first().len() - 1).push(
            s.drop_first().last() + suf,
        ));
        assert(s.drop_first().last() == s.last());
        assert(join_nl(t) == s[0] + seq![10u8] + (join_nl(s.drop_first()) + suf));
        assert(join_nl(s) == s[0] + seq![10u8] + join_nl(s.drop_first()));
        assert(s[0] + seq![10u8] + (join_nl(s.drop_first()) + suf) =~= (s[0] + seq![10u8]
            + join_nl(s.drop_first())) + suf);
    }
}

/// A stretch of a single line, seen inside the joined content.
pub proof fn lemma_content_line_seg(lines: Seq<Seq<u8>>, l: int, a: int, b: int)
    requires
        0 <= l < lines.len(),
        0 <= a <= b <= lines[l].len(),
    ensures
        join_nl(lines).subrange(prefix_off(lines, l) + a, prefix_off(lines, l) + b)
            == lines[l].subrange(a, b),
{
    lemma_line_decomp(lines, l);
    lemma_prefix_off_nonneg(lines, l);
    let base = prefix_off(lines, l);
    let whole = join_nl(lines).subrange(base, base + lines[l].len());
    assert(whole == lines[l]);
    assert(join_nl(lines).subrange(base + a, base + b) =~= whole.subrange(a, b));
    assert(whole.subrange(a, b) == lines[l].subrange(a, b));
}

/// The lines after replacing the span from (sl, si) to (el, ei) by the given
/// insert lines: the text before the span joins the first insert line, the
/// text after it joins the last.
pub open spec fn spliced(
    lines: Seq<Seq<u8>>,
    sl: int,
    si: int,
    el: int,
    ei: int,
    ins_lines: Seq<Seq<u8>>,
) -> Seq<Seq<u8>> {
    let prefix = lines[sl].subrange(0, si);
    let suffix = lines[el].subrange(ei, lines[el].len() as int);
    let k = ins_lines.len() - 1;
    let mid = if k == 0 {
        seq![prefix + ins_lines[0] + suffix]
    } else {
        seq![prefix + ins_lines[0]] + ins_lines.subrange(1, k) + seq![ins_lines[k] + suffix]
    };
    lines.subrange(0, sl) + mid + lines.subrange(el + 1, lines.len() as int)
}

/// The middle block of a splice joins to prefix, insert text, suffix.
proof fn lemma_splice_mid(ins_lines: Seq<Seq<u8>>, prefix: Seq<u8>, suffix: Seq<u8>)
    requires
        ins_lines.len() >= 1,
    ensures
        ({
            let k = ins_lines.len() - 1;
            let mid = if k == 0 {
                seq![prefix + ins_lines[0] + suffix]
            } else {
                seq![prefix + ins_lines[0]] + ins_lines.subrange(1, k) + seq![ins_lines[k] + suffix]
            };
            join_nl(mid) == prefix + join_nl(ins_lines) + suffix
        }),
{
    let k = ins_lines.len() - 1;
    if k == 0 {
        assert(join_nl(seq![prefix + ins_lines[0] + suffix]) == prefix + ins_lines[0] + suffix);
        assert(join_nl(ins_lines) == ins_lines[0]);
        assert(prefix + ins_lines[0] + suffix =~= prefix + (ins_lines[0]) + suffix);
    } else {
        let appended = ins_lines.take(k).push(ins_lines.last() + suffix);
        lemma_join_append_last(ins_lines, suffix);
        assert(join_nl(appended) == join_nl(ins_lines) + suffix);
        let mid = seq![prefix + ins_lines[0]] + ins_lines.subrange(1, k) + seq![ins_lines[k]
            + suffix];
        assert(appended[0] == ins_lines[0]);
        assert(mid =~= seq![prefix + appended[0]] + appended.drop_first());
        lemma_join_prepend_first(appended, prefix);
        assert(join_nl(mid) == prefix + (join_nl(ins_lines) + suffix));
        assert(prefix + (join_nl(ins_lines) + suffix) =~= prefix + join_nl(ins_lines) + suffix);
    }
}

/// Replacing a span of the lines splices the corresponding byte span of the
/// joined content.
#[verifier::rlimit(60)]
pub proof fn lemma_splice(
    lines: Seq<Seq<u8>>,
    sl: int,
    si: int,
    el: int,
    ei: int,
    ins_lines: Seq<Seq<u8>>,
)
    requires
        0 <= sl <= el < lines.len(),
        0 <= si <= lines[sl].len(),
        0 <= ei <= lines[el].len(),
        sl == el ==> si <= ei,
        ins_lines.len() >= 1,
    ensures
        ({
            let s_off = prefix_off(lines, sl) + si;
            let e_off = prefix_off(lines, el) + ei;
            let c = join_nl(lines);
            &&& 0 <= s_off <= e_off <= c.len()
            &&& join_nl(spliced(lines, sl, si, el, ei, ins_lines)) == c.subrange(0, s_off)
                + join_nl(ins_lines) + c.subrange(e_off, c.len() as int)
            &&& spliced(lines, sl, si, el, ei, ins_lines).len() == sl + ins_lines.len() + (
            lines.len() - el - 1)
        }),
{
    let c = join_nl(lines);
    let s_off = prefix_off(lines, sl) + si;
    let e_off = prefix_off(lines, el) + ei;
    let prefix = lines[sl].subrange(0, si);
    let suffix = lines[el].subrange(ei, lines[el].len() as int);
    let k = ins_lines.len() - 1;
    let mid = if k == 0 {
        seq![prefix + ins_lines[0] + suffix]
    } else {
        seq![prefix + ins_lines[0]] + ins_lines.subrange(1, k) + seq![ins_lines[k] + suffix]
    };
    let res = spliced(lines, sl, si, el, ei, ins_lines);
    lemma_splice_mid(ins_lines, prefix, suffix);
    lemma_prefix_off_nonneg(lines, sl);
    lemma_prefix_off_nonneg(lines, el);
    lemma_line_decomp(lines, sl);
    lemma_line_decomp(lines, el);
    if sl < el {
        lemma_prefix_off_mono(lines, sl + 1, el);
        assert(prefix_off(lines, sl + 1) == prefix_off(lines, sl) + lines[sl].len() + 1);
        assert(s_off <= e_off);
    }
    // the content before the span
    let before = c.subrange(0, s_off);
    assert(before == (if sl == 0 {
        prefix
    } else {
        join_nl(lines.take(sl)) + seq![10u8] + prefix
    })) by {
        if sl == 0 {
            lemma_content_line_seg(lines, 0, 0, si);
            assert(prefix_off(lines, 0) == 0);
            assert(c.subrange(0, si) == lines[0].subrange(0, si));
        } else {
            assert(lines =~= lines.take(sl) + lines.skip(sl));
            lemma_join_concat(lines.take(sl), lines.skip(sl));
            assert(c == join_nl(lines.take(sl)) + seq![10u8] + join_nl(lines.skip(sl)));
            lemma_join_take_len(lines, sl);
            let hd = join_nl(lines.take(sl)) + seq![10u8];
            assert(hd.len() == prefix_off(lines, sl));
            lemma_content_line_seg(lines, sl, 0, si);
            assert(c.subrange(prefix_off(lines, sl), s_off) == prefix);
            assert(before =~= hd + prefix);
            assert(hd + prefix =~= join_nl(lines.take(sl)) + seq![10u8] + prefix);
        }
    }
    // the content after the span
    let after = c.subrange(e_off, c.len() as int);
    assert(after == (if el == lines.len() - 1 {
        suffix
    } else {
        suffix + seq![10u8] + join_nl(lines.skip(el + 1))
    })) by {
        if el == lines.len() - 1 {
            assert(prefix_off(lines, el) + lines[el].len() == c.len());
            lemma_content_line_seg(lines, el, ei, lines[el].len() as int);
            assert(after =~= c.subrange(e_off, prefix_off(lines, el) + lines[el].len()));
        } else {
            assert(lines =~= lines.take(el + 1) + lines.skip(el + 1));
            lemma_join_concat(lines.take(el + 1), lines.skip(el + 1));
            assert(c == join_nl(lines.take(el + 1)) + seq![10u8] + join_nl(lines.skip(el + 1)));
            lemma_join_take_len(lines, el + 1);
            assert(join_nl(lines.take(el + 1)).len() == prefix_off(lines, el + 1) - 1);
            assert(prefix_off(lines, el + 1) == prefix_off(lines, el) + lines[el].len() + 1);
            lemma_content_line_seg(lines, el, ei, lines[el].len() as int);
            assert(c.subrange(e_off, prefix_off(lines, el) + lines[el].len()) == suffix);
            assert(after =~= suffix + seq![10u8] + join_nl(lines.skip(el + 1)));
        }
    }
    // the spliced lines join to before + insert + after
    let a_part = lines.subrange(0, sl);
    let b_part = lines.subrange(el + 1, lines.len() as int);
    assert(a_part =~= lines.take(sl));
    assert(b_part =~= lines.skip(el + 1));
    assert(mid.len() >= 1);
    if sl == 0 {
        if el == lines.len() - 1 {
            assert(res =~= mid);
            assert(join_nl(res) == prefix + join_nl(ins_lines) + suffix);
        } else {
            assert(res =~= mid + b_part);
            lemma_join_concat(mid, b_part);
            assert(join_nl(res) == (prefix + join_nl(ins_lines) + suffix) + seq![10u8] + join_nl(
                b_part,
            ));
        }
    } else {
        if el == lines.len() - 1 {
            assert(res =~= a_part + mid);
            lemma_join_concat(a_part, mid);
            assert(join_nl(res) == join_nl(a_part) + seq![10u8] + (prefix + join_nl(ins_lines)
                + suffix));
        } else {
            assert(res =~= a_part + (mid + b_part));
            lemma_join_concat(mid, b_part);
            lemma_join_concat(a_part, mid + b_part);
            assert(join_nl(res) == join_nl(a_part) + seq![10u8] + ((prefix + join_nl(ins_lines)
                + suffix) + seq![10u8] + join_nl(b_part)));
        }
    }
    assert(join_nl(res) =~= before + join_nl(ins_lines) + after);
}

/// The (line, index) position of a byte offset: offsets walk each line and
/// one newline between lines; an offset at a line end stays on that line.
pub open spec fn offset_point(lines: Seq<Seq<u8>>, off: int) -> (int, int)
    decreases lines.len(),
{
    if lines.len() <= 1 || off <= lines[0].len() {
        (0, off)
    } else {
        let p = offset_point(lines.drop_first(), off - lines[0].len() - 1);
        (p.0 + 1, p.1)
    }
}

/// An offset within the content resolves to a position inside the lines,
/// and mapping that position back gives the same offset.
pub proof fn lemma_offset_point_props(lines: Seq<Seq<u8>>, off: int)
    requires
        lines.len() >= 1,
        0 <= off <= join_nl(lines).len(),
    ensures
        0 <= offset_point(lines, off).0 < lines.len(),
        0 <= offset_point(lines, off).1 <= lines[offset_point(lines, off).0].len(),
        prefix_off(lines, offset_point(lines, off).0) + offset_point(lines, off).1 == off,
    decreases lines.len(),
{
    if lines.len() == 1 || off <= lines[0].len() {
        assert(prefix_off(lines, 0) == 0);
    } else {
        let d = lines.drop_first();
        let rest = join_nl(d);
        assert(join_nl(lines) == lines[0] + seq![10u8] + rest);
        assert(join_nl(lines).len() == lines[0].len() + 1 + rest.len());
        lemma_offset_point_props(d, off - lines[0].len() - 1);
        let p = offset_point(d, off - lines[0].len() - 1);
        assert(d[p.0] == lines[p.0 + 1]);
        lemma_prefix_off_drop(lines, p.0 + 1);
    }
}

/// Line-start offsets only depend on the lines before the given one.
pub proof fn lemma_prefix_off_congruence(a: Seq<Seq<u8>>, b: Seq<Seq<u8>>, k: int)
    requires
        forall|j: int| 0 <= j < k ==> a[j] == b[j],
    ensures
        prefix_off(a, k) == prefix_off(b, k),
    decreases k,
{
    if k > 0 {
        lemma_prefix_off_congruence(a, b, k - 1);
    }
}

/// Mapping a position to its offset and back gives the position again.
pub proof fn lemma_point_off_inverse(lines: Seq<Seq<u8>>, l: int, i: int)
    requires
        0 <= l < lines.len(),
        0 <= i <= lines[l].len(),
    ensures
        offset_point(lines, prefix_off(lines, l) + i) == (l, i),
    decreases l,
{
    if l == 0 {
        assert(prefix_off(lines, 0) == 0);
    } else {
        let d = lines.drop_first();
        lemma_prefix_off_drop(lines, l);
        assert(d[l - 1] == lines[l]);
        lemma_prefix_off_congruence(d, lines.drop_first(), l - 1);
        lemma_point_off_inverse(d, l - 1, i);
        lemma_prefix_off_nonneg(d, l - 1);
        let off = prefix_off(lines, l) + i;
        assert(off - lines[0].len() - 1 == prefix_off(d, l - 1) + i);
        assert(off > lines[0].len());
    }
}

/// Line-start offsets are monotone in the line number.
pub proof fn lemma_prefix_off_mono(lines: Seq<Seq<u8>>, a: int, b: int)
    requires
        0 <= a <= b,
    ensures
        prefix_off(lines, a) <= prefix_off(lines, b),
    decreases b,
{
    if a < b {
        lemma_prefix_off_mono(lines, a, b - 1);
    }
}

/// Offset order maps to lexicographic position order.
pub proof fn lemma_offset_point_le(lines: Seq<Seq<u8>>, off1: int, off2: int)
    requires
        lines.len() >= 1,
        0 <= off1 <= off2 <= join_nl(lines).len(),
    ensures
        ({
            let p1 = offset_point(lines, off1);
            let p2 = offset_point(lines, off2);
            p1.0 < p2.0 || (p1.0 == p2.0 && p1.1 <= p2.1)
        }),
{
    let p1 = offset_point(lines, off1);
    let p2 = offset_point(lines, off2);
    lemma_offset_point_props(lines, off1);
    lemma_offset_point_props(lines, off2);
    if p1.0 > p2.0 {
        lemma_prefix_off_mono(lines, p2.0 + 1, p1.0);
        assert(prefix_off(lines, p2.0 + 1) == prefix_off(lines, p2.0) + lines[p2.0].len() + 1);
        assert(off1 >= prefix_off(lines, p1.0));
        assert(false);
    } else if p1.0 == p2.0 && p1.1 > p2.1 {
        assert(false);
    }
}

} // verus!
