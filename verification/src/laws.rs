//! General properties of the text-input state, stated and proved over the
//! same models the operation contracts use.

use vstd::prelude::*;

use crate::clipboard::ClipboardProvider;
use crate::input::{point_ok, TextInput};
use crate::model::{
    content_lines, join_nl, lemma_offset_point_props, lemma_split_content_basic,
    lemma_split_content_of_join, offset_point, prefix_off,
};
use crate::navigate::clamped;
use crate::types::{Direction, Selection, TextPoint};
use crate::unicode::{clamp_boundary, first_units_len, lemma_bytes_concat, lemma_first_units_bound, lemma_subrange_split3, utf16_len};
use vstd::utf8::{encode_utf8, encode_utf8_valid_utf8};

verus! {

broadcast use vstd::seq::group_seq_axioms, vstd::seq_lib::group_seq_lib_default;

/// Converting any byte offset of the content to a position and back yields
/// the same offset, for every offset from the start to one past the last
/// byte.
pub proof fn lemma_offset_round_trip<T: ClipboardProvider>(t: TextInput<T>, x: int)
    requires
        t.wf(),
        0 <= x <= t.spec_content().len(),
    ensures
        ({
            let p = offset_point(t.lines_view(), x);
            &&& 0 <= p.0 < t.lines_view().len()
            &&& 0 <= p.1 <= t.lines_view()[p.0].len()
            &&& prefix_off(t.lines_view(), p.0) + p.1 == x
        }),
{
    lemma_offset_point_props(t.lines_view(), x);
}

/// Setting the content to the current content is idempotent: the lines a
/// round trip produces reproduce themselves on one more round trip, and a
/// clamped edit point that already lies in those lines stays where it is.
pub proof fn lemma_set_content_round_trip<T: ClipboardProvider>(t: TextInput<T>)
    requires
        t.wf(),
    ensures
        ({
            let l1 = content_lines(t.multiline, t.spec_content());
            let l2 = content_lines(t.multiline, join_nl(l1));
            l2 == l1
        }),
        forall|p: TextPoint|
            #[trigger] point_ok(content_lines(t.multiline, t.spec_content()), p) ==> clamp_boundary(
                content_lines(t.multiline, t.spec_content())[p.line as int],
                p.index as int,
            ) == p.index,
{
    let l1 = content_lines(t.multiline, t.spec_content());
    if t.multiline {
        lemma_split_content_basic(t.spec_content());
        lemma_split_content_of_join(l1);
    } else {
        assert(l1 == seq![t.spec_content()]);
        assert(join_nl(l1) == t.spec_content());
    }
    assert forall|p: TextPoint| #[trigger] point_ok(l1, p) implies clamp_boundary(
        l1[p.line as int],
        p.index as int,
    ) == p.index by {
        if p.index == 0 {
        } else {
            assert(clamp_boundary(l1[p.line as int], p.index as int) == p.index);
        }
    }
}

/// Replacing the selection under a UTF-16 length limit either changes
/// nothing, or leaves the content within the limit: the insert text is
/// truncated to exactly the room the limit leaves after the selected text
/// is deleted.
pub proof fn lemma_limit_respected<T: ClipboardProvider>(
    pre: TextInput<T>,
    post: TextInput<T>,
    ins_chars: Seq<char>,
    m: usize,
)
    requires
        pre.wf(),
        pre.max_length == Some(m),
        pre.replace_post(ins_chars, post),
    ensures
        post == pre || utf16_len(post.spec_content()) <= m,
        (pre.selection_origin.is_some() && utf16_len(pre.spec_content()) - utf16_len(
            pre.spec_selection_text(),
        ) < m && pre.spec_content().len() + encode_utf8(ins_chars).len() < isize::MAX) ==> ({
            let c = pre.spec_content();
            let allowed = m - (utf16_len(c) - utf16_len(pre.spec_selection_text()));
            let ins_all = encode_utf8(ins_chars);
            &&& utf16_len(post.spec_content()) <= m
            &&& (utf16_len(ins_all) > allowed ==> utf16_len(post.spec_content()) >= m - 1)
            &&& (utf16_len(ins_all) <= allowed ==> post.spec_content() == c.subrange(
                0,
                pre.spec_start_off(),
            ) + ins_all + c.subrange(pre.spec_end_off(), c.len() as int))
        }),
{
    if pre.selection_origin is None {
    } else {
        let c = pre.spec_content();
        let sel_u = utf16_len(pre.spec_selection_text());
        let total_u = utf16_len(c);
        if total_u - sel_u >= m {
        } else {
            let ins_all = encode_utf8(ins_chars);
            let allowed = m - (total_u - sel_u);
            pre.lemma_selection_invariants();
            encode_utf8_valid_utf8(ins_chars);
            lemma_first_units_bound(ins_all, allowed);
            let ins = ins_all.take(first_units_len(ins_all, allowed));
            let s_off = pre.spec_start_off();
            let e_off = pre.spec_end_off();
            if c.len() - (e_off - s_off) + ins.len() >= isize::MAX {
                assert(c.len() + ins_all.len() >= isize::MAX);
            } else {
                let before = c.subrange(0, s_off);
                let after = c.subrange(e_off, c.len() as int);
                lemma_subrange_split3(c, s_off, e_off);
                lemma_bytes_concat(before, ins);
                lemma_bytes_concat(before + ins, after);
                assert(post.spec_content() == before + ins + after);
                assert(utf16_len(before) + utf16_len(after) == total_u - sel_u);
                assert(utf16_len(ins) <= allowed);
                if utf16_len(ins_all) <= allowed {
                    assert(ins =~= ins_all);
                }
            }
        }
    }
}

/// Stepping one grapheme backward never moves the caret forward, never
/// underflows past the start of the document, and stays put exactly at the
/// start; with the strict-progress clause of the stepping operation itself,
/// repeated backward steps from the end reach the start after one step for
/// each grapheme cluster or line break of the content.
pub proof fn lemma_backward_step_no_underflow<T: ClipboardProvider>(
    pre: TextInput<T>,
    post: TextInput<T>,
)
    requires
        pre.wf(),
        pre.selection_origin.is_none(),
        pre.moved_to(
            clamped(
                pre.spec_edit_off() + pre.grapheme_step(Direction::Backward),
                pre.spec_content().len() as int,
            ),
            Direction::Backward,
            Selection::NotSelected,
            post,
        ),
    ensures
        0 <= post.spec_edit_off() <= pre.spec_edit_off(),
        pre.spec_edit_off() == 0 ==> post.spec_edit_off() == 0 && post.edit_point.line == 0
            && post.edit_point.index == 0,
{
    let lv = pre.lines_view();
    let step = pre.grapheme_step(Direction::Backward);
    assert(step <= 0);
    let tgt = clamped(pre.spec_edit_off() + step, pre.spec_content().len() as int);
    pre.lemma_selection_invariants();
    crate::input::lemma_point_boundary(lv, pre.edit_point);
    lemma_offset_point_props(lv, tgt);
    crate::model::lemma_prefix_off_nonneg(lv, offset_point(lv, tgt).0);
    assert(post.spec_edit_off() == tgt);
    if pre.spec_edit_off() == 0 {
        assert(tgt == 0);
        assert(offset_point(lv, 0) == (0int, 0int));
    }
}

} // verus!
