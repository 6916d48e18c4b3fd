//! The text-input state itself: content lines, caret, selection, and the
//! invariants every operation preserves.

use vstd::prelude::*;
use vstd::utf8::*;

use crate::clipboard::ClipboardProvider;
use crate::model::{
    content_lines, join_nl, lemma_join_push, lemma_join_valid, lemma_line_decomp,
    lemma_offset_point_props, lemma_prefix_off_mono, lemma_prefix_off_nonneg,
    lemma_split_content_basic, lemma_split_content_join_len, lemma_split_content_valid,
    no_line_break, no_nl, offset_point, prefix_off, split_content, views,
};
use crate::segment::string_from_utf8;
use crate::types::{Lines, SelectionDirection, SelectionState, TextPoint};
use crate::unicode::{
    char_count, char_len, clamp_boundary, clamp_to_boundary, lemma_bytes_concat,
    lemma_counts_le_len, utf16_count, utf16_len,
};
use vstd::string::StrSliceExecFns;

verus! {

broadcast use vstd::seq::group_seq_axioms, vstd::seq_lib::group_seq_lib_default;

/// Encapsulated state for handling keyboard input in a single or multiline
/// text input control.
pub struct TextInput<T: ClipboardProvider> {
    /// Current text input content, split across lines without trailing
    /// newline bytes (in multiline mode).
    pub lines: Vec<Vec<u8>>,
    /// Current cursor input point.
    pub edit_point: TextPoint,
    /// The current selection goes from the selection_origin until the
    /// edit_point. Note that the selection_origin may be after the
    /// edit_point, in the case of a backward selection.
    pub selection_origin: Option<TextPoint>,
    /// Is this a multiline input?
    pub multiline: bool,
    pub clipboard_provider: T,
    /// The maximum number of UTF-16 code units this text input is allowed
    /// to hold.
    pub max_length: Option<usize>,
    pub min_length: Option<usize>,
    pub selection_direction: SelectionDirection,
}

/// A position that lies inside the given lines, on a character boundary.
pub open spec fn point_ok(lines: Seq<Seq<u8>>, p: TextPoint) -> bool {
    &&& (p.line as int) < lines.len()
    &&& (p.index as int) <= lines[p.line as int].len()
    &&& is_char_boundary(lines[p.line as int], p.index as int)
}

/// Byte offset of a position from the start of the joined content.
pub open spec fn point_off(lines: Seq<Seq<u8>>, p: TextPoint) -> int {
    prefix_off(lines, p.line as int) + p.index
}

/// The direction value made consistent with the actual order of selection
/// origin and caret; it is left alone whenever that order already fits.
pub open spec fn normalized_direction(
    dir: SelectionDirection,
    origin: Option<TextPoint>,
    edit: TextPoint,
) -> SelectionDirection {
    match origin {
        Option::Some(o) => {
            if dir is Backward {
                if edit.spec_le(o) {
                    dir
                } else {
                    SelectionDirection::Forward
                }
            } else {
                if o.spec_le(edit) {
                    dir
                } else {
                    SelectionDirection::Backward
                }
            }
        },
        Option::None => dir,
    }
}

impl<T: ClipboardProvider> TextInput<T> {
    /// The lines as a sequence of byte sequences.
    pub open spec fn lines_view(&self) -> Seq<Seq<u8>> {
        views(self.lines@)
    }

    /// The whole content: lines joined by newlines.
    pub open spec fn spec_content(&self) -> Seq<u8> {
        join_nl(self.lines_view())
    }

    /// Well-formed content: at least one line, all lines valid UTF-8, the
    /// total length bounded, no stray newline inside a line of a multiline
    /// control, and exactly one line in a single-line control.
    pub open spec fn wf_buffer(&self) -> bool {
        &&& self.lines_view().len() >= 1
        &&& (forall|i: int|
            0 <= i < self.lines_view().len() ==> valid_utf8(#[trigger] self.lines_view()[i]))
        &&& self.spec_content().len() < isize::MAX
        &&& (self.multiline ==> forall|i: int|
            0 <= i < self.lines_view().len() ==> no_nl(#[trigger] self.lines_view()[i]))
        &&& (!self.multiline ==> self.lines_view().len() == 1)
    }

    /// Well-formed caret and selection: both lie in the buffer on character
    /// boundaries, and the selection direction matches the order of origin
    /// and caret.
    pub open spec fn wf_selection(&self) -> bool {
        &&& point_ok(self.lines_view(), self.edit_point)
        &&& match self.selection_origin {
            Option::Some(o) => {
                &&& point_ok(self.lines_view(), o)
                &&& if self.selection_direction is Backward {
                    self.edit_point.spec_le(o)
                } else {
                    o.spec_le(self.edit_point)
                }
            },
            Option::None => true,
        }
    }

    /// The full invariant, preserved by every operation.
    pub open spec fn wf(&self) -> bool {
        self.wf_buffer() && self.wf_selection()
    }

    /// Byte offset of the selection start.
    pub open spec fn spec_start_off(&self) -> int {
        point_off(self.lines_view(), self.spec_selection_start())
    }

    /// Byte offset of the selection end.
    pub open spec fn spec_end_off(&self) -> int {
        point_off(self.lines_view(), self.spec_selection_end())
    }

    /// The selected bytes: the byte span of the content between the
    /// selection start and end offsets.
    pub open spec fn spec_selection_text(&self) -> Seq<u8> {
        self.spec_content().subrange(self.spec_start_off(), self.spec_end_off())
    }

    /// The selection origin, or the edit point if there is no selection.
    pub open spec fn spec_selection_origin_or_edit_point(&self) -> TextPoint {
        match self.selection_origin {
            Option::Some(o) => o,
            Option::None => self.edit_point,
        }
    }

    /// Where the selection starts, independent of its direction.
    pub open spec fn spec_selection_start(&self) -> TextPoint {
        match self.selection_direction {
            SelectionDirection::NoDirection | SelectionDirection::Forward
                => self.spec_selection_origin_or_edit_point(),
            SelectionDirection::Backward => self.edit_point,
        }
    }

    /// Where the selection ends, independent of its direction.
    pub open spec fn spec_selection_end(&self) -> TextPoint {
        match self.selection_direction {
            SelectionDirection::NoDirection | SelectionDirection::Forward => self.edit_point,
            SelectionDirection::Backward => self.spec_selection_origin_or_edit_point(),
        }
    }

    /// The selection origin, or the edit point if there is no selection. Note that the selection
    /// origin may be after the edit point, in the case of a backward selection.
    pub fn selection_origin_or_edit_point(&self) -> (r: TextPoint)
        ensures
            r == self.spec_selection_origin_or_edit_point(),
    {
        match self.selection_origin {
            Some(o) => o,
            None => self.edit_point,
        }
    }

    /// The start of the selection (or the edit point, if there is no selection). Always less than
    /// or equal to selection_end(), regardless of the selection direction.
    pub fn selection_start(&self) -> (r: TextPoint)
        ensures
            r == self.spec_selection_start(),
    {
        match self.selection_direction {
            SelectionDirection::NoDirection | SelectionDirection::Forward
                => self.selection_origin_or_edit_point(),
            SelectionDirection::Backward => self.edit_point,
        }
    }

    /// The end of the selection (or the edit point, if there is no selection). Always greater
    /// than or equal to selection_start(), regardless of the selection direction.
    pub fn selection_end(&self) -> (r: TextPoint)
        ensures
            r == self.spec_selection_end(),
    {
        match self.selection_direction {
            SelectionDirection::NoDirection | SelectionDirection::Forward => self.edit_point,
            SelectionDirection::Backward => self.selection_origin_or_edit_point(),
        }
    }

    /// Whether or not there is an active selection (the selection may be zero-length)
    #[inline]
    pub fn has_selection(&self) -> (r: bool)
        ensures
            r == self.selection_origin.is_some(),
    {
        self.selection_origin.is_some()
    }

    /// Returns a tuple of (start, end) giving the bounds of the current selection. start is always
    /// less than or equal to end.
    pub fn sorted_selection_bounds(&self) -> (r: (TextPoint, TextPoint))
        ensures
            r.0 == self.spec_selection_start(),
            r.1 == self.spec_selection_end(),
    {
        (self.selection_start(), self.selection_end())
    }

    /// The state of the current selection. Can be used to compare whether selection state has changed.
    pub fn selection_state(&self) -> (r: SelectionState)
        ensures
            r.start == self.spec_selection_start(),
            r.end == self.spec_selection_end(),
            r.direction == self.selection_direction,
    {
        SelectionState {
            start: self.selection_start(),
            end: self.selection_end(),
            direction: self.selection_direction,
        }
    }

    /// Remove the current selection.
    pub fn clear_selection(&mut self)
        ensures
            *final(self) == (TextInput {
                selection_origin: None,
                selection_direction: SelectionDirection::NoDirection,
                ..*old(self)
            }),
    {
        self.selection_origin = None;
        self.selection_direction = SelectionDirection::NoDirection;
    }

    /// Return the length in UTF-8 bytes of the current line under the editing point.
    pub fn current_line_length(&self) -> (r: usize)
        requires
            self.wf(),
        ensures
            r == self.lines_view()[self.edit_point.line as int].len(),
    {
        self.lines[self.edit_point.line].len()
    }

    /// Make the direction consistent with the actual order of origin and
    /// caret, leaving it alone whenever that order already fits.
    pub(crate) fn normalize_direction(&mut self)
        ensures
            *final(self) == (TextInput {
                selection_direction: normalized_direction(
                    old(self).selection_direction,
                    old(self).selection_origin,
                    old(self).edit_point,
                ),
                ..*old(self)
            }),
    {
        let edit = self.edit_point;
        match self.selection_origin {
            Some(o) => {
                match self.selection_direction {
                    SelectionDirection::Backward => {
                        if !edit.le(&o) {
                            self.selection_direction = SelectionDirection::Forward;
                        }
                    },
                    _ => {
                        if !o.le(&edit) {
                            self.selection_direction = SelectionDirection::Backward;
                        }
                    },
                }
            },
            None => {},
        }
    }
}

/// Append the bytes of a slice to a vector.
pub(crate) fn append_bytes(dst: &mut Vec<u8>, src: &[u8])
    ensures
        final(dst)@ == old(dst)@ + src@,
{
    let mut j: usize = 0;
    while j < src.len()
        invariant
            j <= src@.len(),
            dst@ == old(dst)@ + src@.subrange(0, j as int),
        decreases src@.len() - j,
    {
        dst.push(src[j]);
        proof {
            assert(old(dst)@ + src@.subrange(0, j as int) + seq![src@[j as int]] =~= old(dst)@
                + src@.subrange(0, j + 1));
        }
        j = j + 1;
    }
    proof {
        assert(src@.subrange(0, src@.len() as int) =~= src@);
    }
}

/// A fresh copy of a byte vector.
pub(crate) fn copy_bytes(src: &[u8]) -> (r: Vec<u8>)
    ensures
        r@ == src@,
{
    let mut r: Vec<u8> = Vec::new();
    append_bytes(&mut r, src);
    proof {
        assert(Seq::<u8>::empty() + src@ =~= src@);
    }
    r
}

impl<T: ClipboardProvider> TextInput<T> {
    /// The length of the content in bytes.
    pub fn len(&self) -> (r: usize)
        requires
            self.wf(),
        ensures
            r as int == self.spec_content().len(),
    {
        let ghost lv = self.lines_view();
        let n = self.lines.len();
        let mut acc: usize = 0;
        let mut i: usize = 0;
        while i < n
            invariant
                self.wf(),
                lv == self.lines_view(),
                n == lv.len(),
                i <= n,
                acc as int == prefix_off(lv, i as int),
            decreases n - i,
        {
            proof {
                lemma_line_decomp(lv, i as int);
            }
            acc = acc + self.lines[i].len() + 1;
            i = i + 1;
        }
        proof {
            lemma_line_decomp(lv, n as int - 1);
            lemma_prefix_off_nonneg(lv, n as int);
        }
        acc - 1
    }

    /// The length of the content in UTF-16 code units.
    pub fn utf16_len(&self) -> (r: usize)
        requires
            self.wf(),
        ensures
            r as int == utf16_len(self.spec_content()),
    {
        let ghost lv = self.lines_view();
        let n = self.lines.len();
        let mut acc: usize = 0;
        let mut i: usize = 0;
        while i < n
            invariant
                self.wf(),
                lv == self.lines_view(),
                n == lv.len(),
                i <= n,
                valid_utf8(join_nl(lv.take(i as int))),
                i >= 1 ==> acc as int == utf16_len(join_nl(lv.take(i as int))) + 1,
                i >= 1 ==> acc as int <= join_nl(lv.take(i as int)).len() + 1,
                i >= 1 ==> acc >= 1,
                i == 0 ==> acc == 0,
            decreases n - i,
        {
            proof {
                assert(valid_utf8(lv[i as int]));
                crate::model::lemma_take_step(lv, i as int);
            }
            let u = utf16_count(self.lines[i].as_slice());
            acc = acc + u + 1;
            i = i + 1;
        }
        proof {
            assert(lv.take(n as int) =~= lv);
        }
        acc - 1
    }

    /// The length of the content in characters.
    pub fn char_count(&self) -> (r: usize)
        requires
            self.wf(),
        ensures
            r as int == char_len(self.spec_content()),
    {
        let ghost lv = self.lines_view();
        let n = self.lines.len();
        let mut acc: usize = 0;
        let mut i: usize = 0;
        while i < n
            invariant
                self.wf(),
                lv == self.lines_view(),
                n == lv.len(),
                i <= n,
                valid_utf8(join_nl(lv.take(i as int))),
                i >= 1 ==> acc as int == char_len(join_nl(lv.take(i as int))) + 1,
                i >= 1 ==> acc as int <= join_nl(lv.take(i as int)).len() + 1,
                i >= 1 ==> acc >= 1,
                i == 0 ==> acc == 0,
            decreases n - i,
        {
            proof {
                assert(valid_utf8(lv[i as int]));
                crate::model::lemma_take_step(lv, i as int);
            }
            let u = char_count(self.lines[i].as_slice());
            acc = acc + u + 1;
            i = i + 1;
        }
        proof {
            assert(lv.take(n as int) =~= lv);
        }
        acc - 1
    }

    /// Whether the content is empty.
    pub fn is_empty(&self) -> (r: bool)
        requires
            self.wf(),
        ensures
            r == (self.spec_content().len() == 0),
    {
        proof {
            lemma_line_decomp(self.lines_view(), 0);
        }
        if self.lines.len() > 1 {
            false
        } else {
            self.lines[0].len() == 0
        }
    }

    /// Convert a position into a byte offset from the start of the content.
    pub fn text_point_to_offset(&self, text_point: &TextPoint) -> (r: usize)
        requires
            self.wf(),
            (text_point.line as int) < self.lines_view().len(),
            text_point.index as int <= self.lines_view()[text_point.line as int].len(),
        ensures
            r as int == point_off(self.lines_view(), *text_point),
            r as int <= self.spec_content().len(),
    {
        let ghost lv = self.lines_view();
        let mut acc: usize = 0;
        let mut i: usize = 0;
        while i < text_point.line
            invariant
                self.wf(),
                lv == self.lines_view(),
                (text_point.line as int) < lv.len(),
                i <= text_point.line,
                acc as int == prefix_off(lv, i as int),
            decreases text_point.line - i,
        {
            proof {
                lemma_line_decomp(lv, i as int);
            }
            acc = acc + self.lines[i].len() + 1;
            i = i + 1;
        }
        proof {
            lemma_line_decomp(lv, text_point.line as int);
        }
        acc + text_point.index
    }

    /// Convert a byte offset from the start of the content into a position.
    pub fn offset_to_text_point(&self, abs_point: usize) -> (r: TextPoint)
        requires
            self.wf(),
            abs_point as int <= self.spec_content().len(),
        ensures
            (r.line as int, r.index as int) == offset_point(self.lines_view(), abs_point as int),
            (r.line as int) < self.lines_view().len(),
            r.index as int <= self.lines_view()[r.line as int].len(),
            point_off(self.lines_view(), r) == abs_point as int,
    {
        let ghost lv = self.lines_view();
        let n = self.lines.len();
        let mut line: usize = 0;
        let mut index: usize = abs_point;
        proof {
            assert(lv.skip(0) =~= lv);
            lemma_offset_point_props(lv, abs_point as int);
        }
        while line + 1 < n && index > self.lines[line].len()
            invariant
                self.wf(),
                lv == self.lines_view(),
                n == lv.len(),
                (line as int) < lv.len(),
                0 <= index as int <= join_nl(lv.skip(line as int)).len(),
                offset_point(lv, abs_point as int) == (
                    line + offset_point(lv.skip(line as int), index as int).0,
                    offset_point(lv.skip(line as int), index as int).1,
                ),
            decreases n - line,
        {
            let ghost suf = lv.skip(line as int);
            proof {
                assert(suf.len() >= 2);
                assert(suf[0] == lv[line as int]);
                assert(join_nl(suf) == suf[0] + seq![10u8] + join_nl(suf.drop_first()));
                assert(suf.drop_first() =~= lv.skip(line + 1));
            }
            index = index - (self.lines[line].len() + 1);
            line = line + 1;
        }
        proof {
            let suf = lv.skip(line as int);
            assert(suf[0] == lv[line as int]);
            if line + 1 == n {
                assert(suf.len() == 1);
                assert(join_nl(suf) == suf[0]);
            }
            assert(offset_point(suf, index as int) == (0int, index as int));
            lemma_offset_point_props(lv, abs_point as int);
        }
        TextPoint { line, index }
    }

    /// Get the current contents of the text input. Multiple lines are joined by \n.
    pub fn get_content(&self) -> (r: String)
        requires
            self.wf(),
        ensures
            r@ == decode_utf8(self.spec_content()),
            encode_utf8(r@) == self.spec_content(),
    {
        let ghost lv = self.lines_view();
        let n = self.lines.len();
        let mut content: Vec<u8> = Vec::new();
        let mut i: usize = 0;
        while i < n
            invariant
                self.wf(),
                lv == self.lines_view(),
                n == lv.len(),
                i <= n,
                valid_utf8(content@),
                i == 0 ==> content@ == Seq::<u8>::empty(),
                i >= 1 ==> content@ == join_nl(lv.take(i as int)),
            decreases n - i,
        {
            proof {
                lemma_counts_le_len(lv[i as int]);
            }
            if i > 0 {
                content.push(10);
                proof {
                    crate::model::lemma_ascii_byte(10);
                    assert(content@ =~= join_nl(lv.take(i as int)) + seq![10u8]);
                    lemma_bytes_concat(join_nl(lv.take(i as int)), seq![10u8]);
                }
            }
            let ghost before = content@;
            append_bytes(&mut content, self.lines[i].as_slice());
            proof {
                lemma_bytes_concat(before, lv[i as int]);
                if i == 0 {
                    assert(lv.take(1) =~= seq![lv[0]]);
                    assert(Seq::<u8>::empty() + lv[0] =~= lv[0]);
                    assert(join_nl(lv.take(1)) == lv[0]);
                } else {
                    assert(lv.take(i + 1) =~= lv.take(i as int).push(lv[i as int]));
                    lemma_join_push(lv.take(i as int), lv[i as int]);
                }
            }
            i = i + 1;
        }
        proof {
            assert(lv.take(n as int) =~= lv);
            vstd::utf8::decode_utf8_encode_utf8(content@);
        }
        string_from_utf8(content)
    }

    /// Get the contents of a single-line text input. The buffer is never
    /// handed out mutably: every change goes through the operations, which
    /// keep the invariants.
    pub fn single_line_content(&self) -> (r: String)
        requires
            self.wf(),
            !self.multiline,
        ensures
            encode_utf8(r@) == self.lines_view()[0],
            r@ == decode_utf8(self.lines_view()[0]),
    {
        let b = copy_bytes(self.lines[0].as_slice());
        proof {
            vstd::utf8::decode_utf8_encode_utf8(b@);
        }
        string_from_utf8(b)
    }
}

/// A position that lies in the buffer on a character boundary also lies on a
/// character boundary of the joined content.
pub proof fn lemma_point_boundary(lines: Seq<Seq<u8>>, p: TextPoint)
    requires
        lines.len() >= 1,
        forall|i: int| 0 <= i < lines.len() ==> valid_utf8(#[trigger] lines[i]),
        point_ok(lines, p),
    ensures
        is_char_boundary(join_nl(lines), point_off(lines, p)),
        0 <= point_off(lines, p) <= join_nl(lines).len(),
{
    lemma_join_valid(lines);
    lemma_line_decomp(lines, p.line as int);
    lemma_prefix_off_nonneg(lines, p.line as int);
    let c = join_nl(lines);
    let base = prefix_off(lines, p.line as int);
    let line = lines[p.line as int];
    let off = point_off(lines, p);
    if (p.index as int) < line.len() {
        assert(c.subrange(base, base + line.len())[p.index as int] == line[p.index as int]);
        assert(c[off] == line[p.index as int]);
        crate::unicode::lemma_boundary_char(line, p.index as int);
        crate::unicode::lemma_boundary_char(c, off);
    } else {
        if (p.line as int) < lines.len() - 1 {
            assert(c[off] == 10);
            crate::unicode::lemma_boundary_char(c, off);
        } else {
            assert(off == c.len());
            is_char_boundary_start_end_of_seq(c);
        }
    }
}

/// Position order maps to offset order.
pub proof fn lemma_point_off_le(lines: Seq<Seq<u8>>, p: TextPoint, q: TextPoint)
    requires
        (p.line as int) < lines.len(),
        p.index as int <= lines[p.line as int].len(),
        (q.line as int) < lines.len(),
        p.spec_le(q),
    ensures
        point_off(lines, p) <= point_off(lines, q),
{
    if p.line == q.line {
    } else {
        assert(prefix_off(lines, p.line + 1) == prefix_off(lines, p.line as int) + lines[p.line as int].len() + 1);
        lemma_prefix_off_mono(lines, p.line + 1, q.line as int);
    }
}

/// An offset on a character boundary of the content resolves to a position
/// that lies on a character boundary of its line.
pub proof fn lemma_offset_boundary(lines: Seq<Seq<u8>>, off: int)
    requires
        lines.len() >= 1,
        forall|i: int| 0 <= i < lines.len() ==> valid_utf8(#[trigger] lines[i]),
        0 <= off <= join_nl(lines).len(),
        is_char_boundary(join_nl(lines), off),
    ensures
        ({
            let p = offset_point(lines, off);
            &&& 0 <= p.0 < lines.len()
            &&& 0 <= p.1 <= lines[p.0].len()
            &&& is_char_boundary(lines[p.0], p.1)
            &&& prefix_off(lines, p.0) + p.1 == off
        }),
{
    lemma_offset_point_props(lines, off);
    lemma_join_valid(lines);
    let p = offset_point(lines, off);
    let line = lines[p.0];
    let c = join_nl(lines);
    lemma_line_decomp(lines, p.0);
    lemma_prefix_off_nonneg(lines, p.0);
    if p.1 < line.len() {
        assert(c.subrange(prefix_off(lines, p.0), prefix_off(lines, p.0) + line.len())[p.1]
            == line[p.1]);
        assert(c[off] == line[p.1]);
        crate::unicode::lemma_boundary_char(c, off);
        crate::unicode::lemma_boundary_char(line, p.1);
    } else {
        is_char_boundary_start_end_of_seq(line);
    }
}

/// After reconciling, the direction's ordering constraint holds.
pub proof fn lemma_normalized_ok(dir: SelectionDirection, origin: Option<TextPoint>, edit: TextPoint)
    ensures
        match origin {
            Option::Some(o) => {
                if normalized_direction(dir, origin, edit) is Backward {
                    edit.spec_le(o)
                } else {
                    o.spec_le(edit)
                }
            },
            Option::None => true,
        },
{
}

impl<T: ClipboardProvider> TextInput<T> {
    /// Set the current contents of the text input. If this control supports
    /// multiple lines, any line break encountered forces a new logical line.
    /// Clears the selection; when asked, clamps the edit point into the new
    /// buffer (down to a character boundary).
    pub fn set_content(&mut self, content: &str, update_text_cursor: bool)
        requires
            old(self).wf(),
            encode_utf8(content@).len() < isize::MAX as int,
            !update_text_cursor ==> point_ok(
                content_lines(old(self).multiline, encode_utf8(content@)),
                old(self).edit_point,
            ),
        ensures
            final(self).wf(),
            final(self).lines_view() == content_lines(old(self).multiline, encode_utf8(content@)),
            final(self).selection_origin.is_none(),
            final(self).selection_direction == SelectionDirection::NoDirection,
            final(self).multiline == old(self).multiline,
            final(self).max_length == old(self).max_length,
            final(self).min_length == old(self).min_length,
            final(self).clipboard_provider == old(self).clipboard_provider,
            !update_text_cursor ==> final(self).edit_point == old(self).edit_point,
            update_text_cursor ==> ({
                let nl = content_lines(old(self).multiline, encode_utf8(content@));
                let l: int = if (old(self).edit_point.line as int) < nl.len() {
                    old(self).edit_point.line as int
                } else {
                    nl.len() - 1
                };
                let cap: int = if (old(self).edit_point.index as int) <= nl[l].len() {
                    old(self).edit_point.index as int
                } else {
                    nl[l].len() as int
                };
                final(self).edit_point.line as int == l && final(self).edit_point.index as int
                    == clamp_boundary(nl[l], cap)
            }),
    {
        let ghost target = content_lines(self.multiline, encode_utf8(content@));
        let bytes: Vec<u8> = content.as_bytes_vec();
        proof {
            vstd::utf8::encode_utf8_valid_utf8(content@);
        }
        if self.multiline {
            let new_lines = split_content_bytes(bytes.as_slice());
            proof {
                lemma_split_content_basic(bytes@);
                lemma_split_content_valid(bytes@);
                lemma_split_content_join_len(bytes@);
            }
            self.lines = new_lines;
        } else {
            let mut one: Vec<Vec<u8>> = Vec::new();
            one.push(bytes);
            proof {
                assert(views(one@) =~= target);
            }
            self.lines = one;
        }
        proof {
            assert(self.lines_view() == target);
            assert(forall|i: int|
                0 <= i < target.len() ==> valid_utf8(#[trigger] self.lines_view()[i]));
            if self.multiline {
                assert forall|i: int| 0 <= i < target.len() implies no_nl(
                    #[trigger] self.lines_view()[i],
                ) by {
                    assert(no_line_break(split_content(bytes@)[i]));
                }
            }
        }
        if update_text_cursor {
            let nlines = self.lines.len();
            if self.edit_point.line > nlines - 1 {
                self.edit_point.line = nlines - 1;
            }
            let ll = self.lines[self.edit_point.line].len();
            let capped = if self.edit_point.index > ll {
                ll
            } else {
                self.edit_point.index
            };
            proof {
                assert(valid_utf8(self.lines_view()[self.edit_point.line as int]));
            }
            self.edit_point.index = clamp_to_boundary(
                self.lines[self.edit_point.line].as_slice(),
                capped,
            );
        }
        self.selection_origin = None;
        self.selection_direction = SelectionDirection::NoDirection;
    }

    /// Instantiate a new text input control.
    pub fn new(
        lines: Lines,
        initial: &str,
        clipboard_provider: T,
        max_length: Option<usize>,
        min_length: Option<usize>,
        selection_direction: SelectionDirection,
    ) -> (r: TextInput<T>)
        requires
            encode_utf8(initial@).len() < isize::MAX as int,
        ensures
            r.wf(),
            r.multiline == (lines == Lines::Multiple),
            r.lines_view() == content_lines(lines == Lines::Multiple, encode_utf8(initial@)),
            r.edit_point == (TextPoint { line: 0, index: 0 }),
            r.selection_origin.is_none(),
            r.selection_direction == selection_direction,
            r.max_length == max_length,
            r.min_length == min_length,
    {
        let mut empty_line: Vec<Vec<u8>> = Vec::new();
        empty_line.push(Vec::new());
        let mut i = TextInput {
            lines: empty_line,
            edit_point: TextPoint { line: 0, index: 0 },
            selection_origin: None,
            multiline: lines == Lines::Multiple,
            clipboard_provider,
            max_length,
            min_length,
            selection_direction,
        };
        proof {
            assert(i.lines_view() =~= seq![Seq::<u8>::empty()]);
            assert(i.lines_view()[0] =~= Seq::<u8>::empty());
            assert(i.spec_content() == Seq::<u8>::empty());
            reveal_with_fuel(valid_utf8, 2);
            assert(i.wf());
            let nl = content_lines(i.multiline, encode_utf8(initial@));
            vstd::utf8::encode_utf8_valid_utf8(initial@);
            lemma_split_content_basic(encode_utf8(initial@));
            lemma_split_content_valid(encode_utf8(initial@));
            assert(nl.len() >= 1);
            assert(valid_utf8(nl[0]));
            assert(is_char_boundary(nl[0], 0));
            assert(point_ok(nl, i.edit_point));
        }
        i.set_content(initial, false);
        i.selection_direction = selection_direction;
        i
    }

    /// What selecting the whole document leaves: the anchor at the origin
    /// of the buffer, the caret at the very end, and the direction
    /// reconciled with that order.
    pub open spec fn select_all_post(self, post: TextInput<T>) -> bool {
        let lv = self.lines_view();
        let ep = TextPoint { line: (lv.len() - 1) as usize, index: lv.last().len() as usize };
        post == (TextInput {
            selection_origin: Some(TextPoint { line: 0, index: 0 }),
            edit_point: ep,
            selection_direction: normalized_direction(
                self.selection_direction,
                Some(TextPoint { line: 0, index: 0 }),
                ep,
            ),
            ..self
        })
    }

    /// Select all text in the input control.
    pub fn select_all(&mut self)
        requires
            old(self).wf(),
        ensures
            final(self).wf(),
            old(self).select_all_post(*final(self)),
    {
        self.selection_origin = Some(TextPoint { line: 0, index: 0 });
        let last_line = self.lines.len() - 1;
        self.edit_point.line = last_line;
        self.edit_point.index = self.lines[last_line].len();
        self.normalize_direction();
        proof {
            let lv = self.lines_view();
            assert(valid_utf8(lv[last_line as int]));
            is_char_boundary_start_end_of_seq(lv[last_line as int]);
            assert(valid_utf8(lv[0]));
            is_char_boundary_start_end_of_seq(lv[0]);
            lemma_normalized_ok(
                old(self).selection_direction,
                Some(TextPoint { line: 0, index: 0 }),
                self.edit_point,
            );
        }
    }

    /// The UTF-8 byte offset of the selection start.
    pub fn selection_start_offset(&self) -> (r: usize)
        requires
            self.wf(),
        ensures
            r as int == point_off(self.lines_view(), self.spec_selection_start()),
            r as int <= self.spec_content().len(),
    {
        let p = self.selection_start();
        self.text_point_to_offset(&p)
    }

    /// The UTF-8 byte offset of the selection end.
    pub fn selection_end_offset(&self) -> (r: usize)
        requires
            self.wf(),
        ensures
            r as int == point_off(self.lines_view(), self.spec_selection_end()),
            r as int <= self.spec_content().len(),
    {
        let p = self.selection_end();
        self.text_point_to_offset(&p)
    }

    /// In every well-formed state the selection start never lies after the
    /// selection end, both resolve to positions inside the buffer on
    /// character boundaries, and their byte offsets are ordered within the
    /// content.
    pub proof fn lemma_selection_invariants(&self)
        requires
            self.wf(),
        ensures
            self.spec_selection_start().spec_le(self.spec_selection_end()),
            point_ok(self.lines_view(), self.spec_selection_start()),
            point_ok(self.lines_view(), self.spec_selection_end()),
            0 <= self.spec_start_off() <= self.spec_end_off() <= self.spec_content().len(),
            is_char_boundary(self.spec_content(), self.spec_start_off()),
            is_char_boundary(self.spec_content(), self.spec_end_off()),
            valid_utf8(self.spec_content()),
            valid_utf8(self.spec_selection_text()),
            utf16_len(self.spec_selection_text()) + utf16_len(
                self.spec_content().subrange(0, self.spec_start_off()),
            ) + utf16_len(
                self.spec_content().subrange(self.spec_end_off(), self.spec_content().len() as int),
            ) == utf16_len(self.spec_content()),
            0 <= utf16_len(self.spec_selection_text()) <= utf16_len(self.spec_content()),
    {
        let lv = self.lines_view();
        let start = self.spec_selection_start();
        let end = self.spec_selection_end();
        lemma_join_valid(lv);
        lemma_point_boundary(lv, start);
        lemma_point_boundary(lv, end);
        lemma_point_off_le(lv, start, end);
        crate::unicode::lemma_subrange_split3(
            self.spec_content(),
            self.spec_start_off(),
            self.spec_end_off(),
        );
        lemma_counts_le_len(self.spec_content().subrange(0, self.spec_start_off()));
        lemma_counts_le_len(self.spec_selection_text());
        lemma_counts_le_len(
            self.spec_content().subrange(self.spec_end_off(), self.spec_content().len() as int),
        );
    }

    /// Return the selection range as UTF-8 byte offsets from the start of
    /// the content.
    ///
    /// If there is no selection, returns an empty range at the edit point.
    pub fn sorted_selection_offsets_range(&self) -> (r: core::ops::Range<usize>)
        requires
            self.wf(),
        ensures
            r.start as int == point_off(self.lines_view(), self.spec_selection_start()),
            r.end as int == point_off(self.lines_view(), self.spec_selection_end()),
    {
        self.selection_start_offset()..self.selection_end_offset()
    }
}

/// Split a text into lines at newline or carriage-return bytes, a carriage
/// return followed by a newline counting once.
pub(crate) fn split_content_bytes(b: &[u8]) -> (r: Vec<Vec<u8>>)
    ensures
        views(r@) == split_content(b@),
{
    let mut out: Vec<Vec<u8>> = Vec::new();
    let mut cur: Vec<u8> = Vec::new();
    let mut i: usize = 0;
    proof {
        assert(b@.skip(0) =~= b@);
        assert(views(out@) =~= Seq::<Seq<u8>>::empty());
        lemma_split_content_basic(b@);
        assert(split_content(b@) =~= views(out@) + seq![cur@ + split_content(b@.skip(0))[0]]
            + split_content(b@.skip(0)).drop_first());
    }
    while i < b.len()
        invariant
            i <= b@.len(),
            split_content(b@) == views(out@) + seq![cur@ + split_content(b@.skip(i as int))[0]]
                + split_content(b@.skip(i as int)).drop_first(),
        decreases b@.len() - i,
    {
        let ghost suf = b@.skip(i as int);
        let ghost out0 = out@;
        let ghost cur0 = cur@;
        proof {
            lemma_split_content_basic(suf);
            assert(suf[0] == b@[i as int]);
        }
        let byte = b[i];
        if byte == 13 {
            out.push(cur);
            cur = Vec::new();
            if i + 1 < b.len() && b[i + 1] == 10 {
                proof {
                    assert(suf.len() >= 2 && suf[1] == b@[i + 1]);
                    let r = split_content(b@.skip(i + 2));
                    assert(suf.subrange(2, suf.len() as int) =~= b@.skip(i + 2));
                    assert(split_content(suf) == seq![Seq::<u8>::empty()] + r);
                    lemma_split_content_basic(b@.skip(i + 2));
                }
                i = i + 2;
            } else {
                proof {
                    let r = split_content(b@.skip(i + 1));
                    assert(suf.drop_first() =~= b@.skip(i + 1));
                    assert(split_content(suf) == seq![Seq::<u8>::empty()] + r);
                    lemma_split_content_basic(b@.skip(i + 1));
                }
                i = i + 1;
            }
            proof {
                let r = split_content(b@.skip(i as int));
                assert(split_content(suf)[0] =~= Seq::<u8>::empty());
                assert(split_content(suf).drop_first() =~= r);
                assert(cur0 + split_content(suf)[0] =~= cur0);
                assert(r =~= seq![r[0]] + r.drop_first());
                assert(views(out@) =~= views(out0).push(cur0));
                assert(cur@ + r[0] =~= r[0]);
                assert(views(out0) + seq![cur0] + (seq![r[0]] + r.drop_first()) =~= views(out@)
                    + seq![cur@ + r[0]] + r.drop_first());
                assert(split_content(b@) == views(out@) + seq![cur@ + r[0]] + r.drop_first());
            }
        } else if byte == 10 {
            out.push(cur);
            cur = Vec::new();
            i = i + 1;
            proof {
                let r = split_content(b@.skip(i as int));
                assert(suf.drop_first() =~= b@.skip(i as int));
                assert(split_content(suf) == seq![Seq::<u8>::empty()] + r);
                lemma_split_content_basic(b@.skip(i as int));
                assert(split_content(suf)[0] =~= Seq::<u8>::empty());
                assert(split_content(suf).drop_first() =~= r);
                assert(cur0 + split_content(suf)[0] =~= cur0);
                assert(r =~= seq![r[0]] + r.drop_first());
                assert(views(out@) =~= views(out0).push(cur0));
                assert(cur@ + r[0] =~= r[0]);
                assert(views(out0) + seq![cur0] + (seq![r[0]] + r.drop_first()) =~= views(out@)
                    + seq![cur@ + r[0]] + r.drop_first());
                assert(split_content(b@) == views(out@) + seq![cur@ + r[0]] + r.drop_first());
            }
        } else {
            cur.push(byte);
            i = i + 1;
            proof {
                let r = split_content(b@.skip(i as int));
                assert(suf.drop_first() =~= b@.skip(i as int));
                assert(split_content(suf) == seq![seq![suf[0]] + r[0]] + r.drop_first());
                assert(cur@ =~= cur0 + seq![byte]);
                assert(cur0 + (seq![suf[0]] + r[0]) =~= cur@ + r[0]);
                assert(split_content(b@) == views(out@) + seq![cur@ + r[0]] + r.drop_first());
            }
        }
    }
    let ghost out0 = out@;
    let ghost cur0 = cur@;
    out.push(cur);
    proof {
        assert(b@.skip(i as int) =~= Seq::<u8>::empty());
        assert(split_content(Seq::<u8>::empty()) == seq![Seq::<u8>::empty()]);
        assert(cur0 + split_content(Seq::<u8>::empty())[0] =~= cur0);
        assert(split_content(Seq::<u8>::empty()).drop_first() =~= Seq::<Seq<u8>>::empty());
        assert(views(out@) =~= views(out0).push(cur0));
        assert(views(out0) + seq![cur0] + Seq::<Seq<u8>>::empty() =~= views(out0).push(cur0));
        assert(split_content(b@) == views(out@));
    }
    out
}

} // verus!
