//! Caret movement: byte-wise horizontal moves across line boundaries,
//! grapheme steps, word-boundary moves, line and document limits, and
//! vertical moves that keep the column.

use vstd::prelude::*;
use vstd::slice::slice_subrange;
use vstd::utf8::*;

use crate::clipboard::ClipboardProvider;
use crate::input::{
    lemma_offset_boundary, lemma_point_boundary, normalized_direction, point_off, point_ok,
    TextInput,
};
use crate::model::{
    join_nl, lemma_join_valid, lemma_line_decomp, lemma_offset_point_le, lemma_offset_point_props,
    lemma_point_off_inverse, lemma_prefix_off_nonneg, offset_point, prefix_off,
};
use crate::segment::{grapheme_lens, grapheme_split, has_alnum, has_alphanumeric, sum_prefix,
    word_bound_lens, word_split};
use crate::types::{Direction, Selection, SelectionDirection, TextPoint};

verus! {

broadcast use vstd::seq::group_seq_axioms, vstd::seq_lib::group_seq_lib_default;

/// An offset clamped into the content: never before its start, never past
/// its end.
pub open spec fn clamped(off: int, len: int) -> int {
    if off < 0 {
        0
    } else if off > len {
        len
    } else {
        off
    }
}

impl<T: ClipboardProvider> TextInput<T> {
    /// Byte offset of the caret from the start of the content.
    pub open spec fn spec_edit_off(&self) -> int {
        point_off(self.lines_view(), self.edit_point)
    }

    /// The buffer is well formed and caret and origin lie inside it; the
    /// direction's ordering is not yet demanded.
    pub open spec fn wf_points(&self) -> bool {
        &&& self.wf_buffer()
        &&& point_ok(self.lines_view(), self.edit_point)
        &&& match self.selection_origin {
            Option::Some(o) => point_ok(self.lines_view(), o),
            Option::None => true,
        }
    }

    /// What collapsing the selection on a caret move without shift leaves:
    /// the caret on the selection's near edge, no selection.
    pub open spec fn collapsed(self, adjust: Direction, post: TextInput<T>) -> bool {
        post == (TextInput {
            edit_point: if adjust is Backward {
                self.spec_selection_start()
            } else {
                self.spec_selection_end()
            },
            selection_origin: Option::<TextPoint>::None,
            selection_direction: SelectionDirection::NoDirection,
            ..self
        })
    }

    /// What a horizontal move to clamped target offset `tgt` leaves: the
    /// caret at that offset's position, the selection anchored (shift) or
    /// absent, and the direction following the movement.
    pub open spec fn moved_to(self, tgt: int, dir: Direction, select: Selection, post: TextInput<
        T,
    >) -> bool {
        let lv = self.lines_view();
        let origin2 = if select is Selected {
            Some(self.spec_selection_origin_or_edit_point())
        } else {
            Option::<TextPoint>::None
        };
        let p = offset_point(lv, tgt);
        &&& post.lines == self.lines
        &&& post.multiline == self.multiline
        &&& post.max_length == self.max_length
        &&& post.min_length == self.min_length
        &&& post.clipboard_provider == self.clipboard_provider
        &&& post.edit_point.line as int == p.0
        &&& post.edit_point.index as int == p.1
        &&& post.selection_origin == origin2
        &&& (select is Selected ==> post.selection_direction == normalized_direction(
            if dir is Backward {
                SelectionDirection::Backward
            } else {
                SelectionDirection::Forward
            },
            origin2,
            post.edit_point,
        ))
        &&& (select is NotSelected ==> post.selection_direction == (
        if post.edit_point.line != self.edit_point.line {
            SelectionDirection::NoDirection
        } else {
            self.selection_direction
        }))
    }

    /// What a grapheme-step move leaves: the collapse, or the caret one
    /// cluster (or line break) over.
    pub open spec fn by_one_post(self, direction: Direction, select: Selection, post: TextInput<
        T,
    >) -> bool {
        if select is NotSelected && self.selection_origin.is_some() {
            self.collapsed(direction, post)
        } else {
            self.moved_to(
                clamped(
                    self.spec_edit_off() + self.grapheme_step(direction),
                    self.spec_content().len() as int,
                ),
                direction,
                select,
                post,
            )
        }
    }

    /// What a word-boundary move leaves: the collapse, or the caret moved by
    /// the word scan.
    pub open spec fn by_word_post(self, direction: Direction, select: Selection, post: TextInput<
        T,
    >) -> bool {
        if select is NotSelected && self.selection_origin.is_some() {
            self.collapsed(direction, post)
        } else {
            self.moved_to(
                clamped(
                    self.spec_edit_off() + self.word_step(direction),
                    self.spec_content().len() as int,
                ),
                direction,
                select,
                post,
            )
        }
    }

    /// What a move to the edge of the current line leaves.
    pub open spec fn line_end_post(self, direction: Direction, select: Selection, post: TextInput<
        T,
    >) -> bool {
        if select is NotSelected && self.selection_origin.is_some() {
            self.collapsed(direction, post)
        } else {
            let line = self.edit_point.line as int;
            let tgt = if direction is Backward {
                prefix_off(self.lines_view(), line)
            } else {
                prefix_off(self.lines_view(), line) + self.lines_view()[line].len()
            };
            &&& self.moved_to(tgt, direction, select, post)
            &&& post.edit_point.line == self.edit_point.line
            &&& post.edit_point.index as int == (if direction is Backward {
                0int
            } else {
                self.lines_view()[line].len() as int
            })
        }
    }

    /// What a move to the document limit leaves: the collapse, or the caret
    /// at the very start or end when asked to update it.
    pub open spec fn limit_post(
        self,
        direction: Direction,
        select: Selection,
        update_text_cursor: bool,
        post: TextInput<T>,
    ) -> bool {
        if select is NotSelected && self.selection_origin.is_some() {
            self.collapsed(direction, post)
        } else {
            let lv = self.lines_view();
            let limit = if direction is Backward {
                TextPoint { line: 0, index: 0 }
            } else {
                TextPoint { line: (lv.len() - 1) as usize, index: lv.last().len() as usize }
            };
            let origin2 = if select is Selected {
                Some(self.spec_selection_origin_or_edit_point())
            } else {
                Option::<TextPoint>::None
            };
            let dir0 = if select is Selected {
                if direction is Backward {
                    SelectionDirection::Backward
                } else {
                    SelectionDirection::Forward
                }
            } else {
                self.selection_direction
            };
            &&& post.lines == self.lines
            &&& post.multiline == self.multiline
            &&& post.max_length == self.max_length
            &&& post.min_length == self.min_length
            &&& post.clipboard_provider == self.clipboard_provider
            &&& post.selection_origin == origin2
            &&& post.edit_point == (if update_text_cursor {
                limit
            } else {
                self.edit_point
            })
            &&& post.selection_direction == normalized_direction(dir0, origin2, post.edit_point)
        }
    }

    /// What a vertical move leaves: nothing in a single-line control, else
    /// the caret on the clamped target line at the column-preserving index.
    pub open spec fn vertical_post(self, adjust: isize, select: Selection, post: TextInput<
        T,
    >) -> bool {
        if !self.multiline {
            post == self
        } else {
            let lv = self.lines_view();
            let origin2 = if select is Selected {
                Some(self.spec_selection_origin_or_edit_point())
            } else {
                Option::<TextPoint>::None
            };
            let dir0 = if select is Selected {
                self.selection_direction
            } else {
                SelectionDirection::NoDirection
            };
            let t = self.edit_point.line + adjust;
            let target_edit = if t < 0 {
                TextPoint { line: 0, index: 0 }
            } else if t >= lv.len() {
                TextPoint { line: (lv.len() - 1) as usize, index: lv.last().len() as usize }
            } else {
                TextPoint {
                    line: t as usize,
                    index: crate::unicode::first_chars_len(
                        lv[t],
                        crate::unicode::char_len(
                            lv[self.edit_point.line as int].subrange(
                                0,
                                self.edit_point.index as int,
                            ),
                        ),
                    ) as usize,
                }
            };
            &&& post.lines == self.lines
            &&& post.multiline == self.multiline
            &&& post.max_length == self.max_length
            &&& post.min_length == self.min_length
            &&& post.clipboard_provider == self.clipboard_provider
            &&& post.selection_origin == origin2
            &&& post.edit_point == target_edit
            &&& post.selection_direction == normalized_direction(dir0, origin2, target_edit)
        }
    }

    /// Handle the selection before a horizontal caret move. With shift the
    /// selection is anchored (establishing the origin if needed) and the
    /// direction set to the movement; without shift an active selection
    /// collapses to its near edge. Returns whether to cancel the caret
    /// move.
    fn adjust_selection_for_horizontal_change(
        &mut self,
        adjust: Direction,
        select: Selection,
    ) -> (r: bool)
        requires
            old(self).wf(),
        ensures
            final(self).wf_points(),
            final(self).lines == old(self).lines,
            final(self).multiline == old(self).multiline,
            final(self).max_length == old(self).max_length,
            final(self).min_length == old(self).min_length,
            final(self).clipboard_provider == old(self).clipboard_provider,
            select is Selected ==> !r && final(self).edit_point == old(self).edit_point && final(self).selection_origin == Some(old(self).spec_selection_origin_or_edit_point()) && final(self).selection_direction == (if adjust is Backward {
                SelectionDirection::Backward
            } else {
                SelectionDirection::Forward
            }),
            select is NotSelected && old(self).selection_origin.is_some() ==> r && final(self).wf() && old(self).collapsed(adjust, *final(self)),
            select is NotSelected && old(self).selection_origin.is_none() ==> !r && *final(self)
                == *old(self),
    {
        proof {
            self.lemma_selection_invariants();
        }
        if select == Selection::Selected {
            if self.selection_origin.is_none() {
                self.selection_origin = Some(self.edit_point);
            }
            self.selection_direction = match adjust {
                Direction::Backward => SelectionDirection::Backward,
                Direction::Forward => SelectionDirection::Forward,
            };
        } else {
            if self.has_selection() {
                self.edit_point = match adjust {
                    Direction::Backward => self.selection_start(),
                    Direction::Forward => self.selection_end(),
                };
                self.clear_selection();
                return true;
            }
        }
        false
    }

    /// Move the caret by a signed number of bytes, crossing line boundaries
    /// where the current line does not suffice (a line break counting one
    /// byte), and clamping at the ends of the document.
    fn perform_horizontal_adjustment(&mut self, adjust: isize, select: Selection)
        requires
            old(self).wf_points(),
            (select is Selected) == old(self).selection_origin.is_some(),
            is_char_boundary(
                old(self).spec_content(),
                clamped(old(self).spec_edit_off() + adjust, old(self).spec_content().len() as int),
            ),
        ensures
            final(self).wf_points(),
            final(self).lines == old(self).lines,
            final(self).multiline == old(self).multiline,
            final(self).max_length == old(self).max_length,
            final(self).min_length == old(self).min_length,
            final(self).clipboard_provider == old(self).clipboard_provider,
            final(self).selection_origin == old(self).selection_origin,
            ({
                let p = offset_point(
                    old(self).lines_view(),
                    clamped(
                        old(self).spec_edit_off() + adjust,
                        old(self).spec_content().len() as int,
                    ),
                );
                final(self).edit_point.line as int == p.0 && final(self).edit_point.index as int
                    == p.1
            }),
            select is Selected ==> final(self).selection_direction == old(
                self,
            ).selection_direction,
            select is NotSelected ==> final(self).selection_direction == (
            if final(self).edit_point.line != old(self).edit_point.line {
                SelectionDirection::NoDirection
            } else {
                old(self).selection_direction
            }),
        decreases
                (if adjust < 0 {
                    -(adjust as int)
                } else {
                    adjust as int
                }),
    {
        let ghost lv = self.lines_view();
        let ghost c = self.spec_content();
        let ghost off0 = self.spec_edit_off();
        let ghost tgt = clamped(off0 + adjust, c.len() as int);
        let line = self.edit_point.line;
        let idx = self.edit_point.index;
        proof {
            lemma_line_decomp(lv, line as int);
            lemma_prefix_off_nonneg(lv, line as int);
        }
        if adjust < 0 {
            let remaining = idx;
            if adjust + (remaining as isize) < 0 && line > 0 {
                if select == Selection::NotSelected {
                    self.clear_selection();
                }
                let prev_len = self.lines[line - 1].len();
                self.edit_point = TextPoint { line: line - 1, index: prev_len };
                proof {
                    lemma_line_decomp(lv, line - 1);
                    assert(prefix_off(lv, line as int) == prefix_off(lv, line - 1) + lv[line
                        - 1].len() + 1);
                    assert(point_off(lv, self.edit_point) == prefix_off(lv, line as int) - 1);
                    is_char_boundary_start_end_of_seq(lv[line - 1]);
                    assert(point_ok(lv, self.edit_point));
                }
                self.perform_horizontal_adjustment(adjust + (remaining as isize) + 1, select);
                proof {
                    lemma_point_off_inverse(lv, line - 1, lv[line - 1].len() as int);
                    lemma_offset_point_le(lv, tgt, prefix_off(lv, line as int) - 1);
                    assert(self.edit_point.line < line);
                }
            } else {
                let idx_i = (idx as isize) + adjust;
                let new_idx = if idx_i < 0 {
                    0
                } else {
                    idx_i as usize
                };
                self.edit_point = TextPoint { line, index: new_idx };
                proof {
                    if idx_i >= 0 {
                        assert(tgt == prefix_off(lv, line as int) + new_idx);
                        lemma_point_off_inverse(lv, line as int, new_idx as int);
                    } else {
                        assert(line == 0);
                        assert(off0 + adjust < 0);
                        assert(tgt == 0);
                        lemma_point_off_inverse(lv, 0, 0);
                    }
                    lemma_offset_boundary(lv, tgt);
                    assert(point_ok(lv, self.edit_point));
                }
            }
        } else {
            let line_len = self.lines[line].len();
            let remaining = line_len - idx;
            if adjust > (remaining as isize) && line + 1 < self.lines.len() {
                if select == Selection::NotSelected {
                    self.clear_selection();
                }
                self.edit_point = TextPoint { line: line + 1, index: 0 };
                proof {
                    lemma_line_decomp(lv, line + 1);
                    assert(prefix_off(lv, line + 1) == prefix_off(lv, line as int) + lv[
                        line as int].len() + 1);
                    assert(point_off(lv, self.edit_point) == off0 + remaining + 1);
                    assert(is_char_boundary(lv[line + 1], 0));
                    assert(point_ok(lv, self.edit_point));
                }
                self.perform_horizontal_adjustment(adjust - (remaining as isize) - 1, select);
                proof {
                    lemma_point_off_inverse(lv, line + 1, 0);
                    lemma_offset_point_le(lv, prefix_off(lv, line + 1), tgt);
                    assert(self.edit_point.line > line);
                }
            } else {
                let new_idx = if (adjust as usize) > remaining {
                    line_len
                } else {
                    idx + (adjust as usize)
                };
                self.edit_point = TextPoint { line, index: new_idx };
                proof {
                    if adjust <= remaining as isize {
                        assert(tgt == prefix_off(lv, line as int) + new_idx);
                    } else {
                        assert(line + 1 == lv.len());
                        assert(off0 + adjust > prefix_off(lv, line as int) + line_len);
                        assert(prefix_off(lv, line as int) + line_len == c.len());
                        assert(tgt == c.len());
                        assert(tgt == prefix_off(lv, line as int) + new_idx);
                    }
                    lemma_point_off_inverse(lv, line as int, new_idx as int);
                    lemma_offset_boundary(lv, tgt);
                    assert(point_ok(lv, self.edit_point));
                }
            }
        }
    }

    /// Adjust the editing point position by a given number of bytes. If the
    /// adjustment requested is larger than is available in the current
    /// line, the editing point is adjusted vertically and the process
    /// repeats with the remaining adjustment requested.
    pub fn adjust_horizontal(&mut self, adjust: isize, select: Selection)
        requires
            old(self).wf(),
            (select is Selected || old(self).selection_origin.is_none()) ==> is_char_boundary(
                old(self).spec_content(),
                clamped(old(self).spec_edit_off() + adjust, old(self).spec_content().len() as int),
            ),
        ensures
            final(self).wf(),
            ({
                let dir = if adjust >= 0 {
                    Direction::Forward
                } else {
                    Direction::Backward
                };
                if select is NotSelected && old(self).selection_origin.is_some() {
                    old(self).collapsed(dir, *final(self))
                } else {
                    old(self).moved_to(
                        clamped(
                            old(self).spec_edit_off() + adjust,
                            old(self).spec_content().len() as int,
                        ),
                        dir,
                        select,
                        *final(self),
                    )
                }
            }),
    {
        let direction = if adjust >= 0 {
            Direction::Forward
        } else {
            Direction::Backward
        };
        if self.adjust_selection_for_horizontal_change(direction, select) {
            return ;
        }
        self.perform_horizontal_adjustment(adjust, select);
        self.normalize_direction();
        proof {
            crate::input::lemma_normalized_ok(
                self.selection_direction,
                self.selection_origin,
                self.edit_point,
            );
        }
    }
    /// The signed byte step of one grapheme-cluster move, one byte standing
    /// for the crossing of a line boundary.
    pub open spec fn grapheme_step(self, direction: Direction) -> int {
        let line = self.lines_view()[self.edit_point.line as int];
        match direction {
            Direction::Forward => if self.edit_point.index == line.len() {
                1
            } else {
                grapheme_split(line.subrange(self.edit_point.index as int, line.len() as int))[0] as int
            },
            Direction::Backward => if self.edit_point.index == 0 {
                -1
            } else {
                -(grapheme_split(line.subrange(0, self.edit_point.index as int)).last() as int)
            },
        }
    }

    /// Move the caret one grapheme cluster (or one line break) in the given
    /// direction, or collapse the selection without moving when one is
    /// active and shift is not held.
    #[verifier::rlimit(100)]
    #[verifier::spinoff_prover]
    pub fn adjust_horizontal_by_one(&mut self, direction: Direction, select: Selection)
        requires
            old(self).wf(),
        ensures
            final(self).wf(),
            old(self).by_one_post(direction, select, *final(self)),
            direction is Backward && !(select is NotSelected && old(
                self,
            ).selection_origin.is_some()) ==> final(self).spec_edit_off() <= old(
                self,
            ).spec_edit_off() && (old(self).spec_edit_off() > 0 ==> final(self).spec_edit_off()
                < old(self).spec_edit_off()),
    {
        if self.adjust_selection_for_horizontal_change(direction, select) {
            return ;
        }
        let ghost lv = self.lines_view();
        let ghost c = self.spec_content();
        let ghost off0 = self.spec_edit_off();
        let line = self.edit_point.line;
        let idx = self.edit_point.index;
        let line_len = self.lines[line].len();
        proof {
            lemma_join_valid(lv);
            lemma_line_decomp(lv, line as int);
            lemma_prefix_off_nonneg(lv, line as int);
        }
        let adjust: isize;
        match direction {
            Direction::Forward => {
                if idx == line_len {
                    adjust = 1;
                    proof {
                        if line + 1 < lv.len() {
                            assert(prefix_off(lv, line + 1) == prefix_off(lv, line as int) + lv[
                                line as int].len() + 1);
                            assert(is_char_boundary(lv[line + 1], 0));
                            lemma_point_boundary(lv, TextPoint { line: (line + 1) as usize, index: 0 });
                            assert(off0 + 1 == point_off(
                                lv,
                                TextPoint { line: (line + 1) as usize, index: 0 },
                            ));
                        } else {
                            assert(off0 == c.len());
                            is_char_boundary_start_end_of_seq(c);
                        }
                    }
                } else {
                    proof {
                        valid_utf8_split(lv[line as int], idx as int);
                    }
                    let suffix = slice_subrange(self.lines[line].as_slice(), idx, line_len);
                    let g = grapheme_lens(suffix);
                    proof {
                        assert(sum_prefix(g@, 0) == 0);
                        if g@.len() == 0 {
                            assert(sum_prefix(g@, g@.len() as int) == 0);
                            assert(false);
                        }
                        lemma_sum_prefix_mono(g@, 1, g@.len() as int);
                        assert(sum_prefix(g@, 1) == g@[0]);
                    }
                    adjust = g[0] as isize;
                    proof {
                        let step = g@[0] as int;
                        crate::unicode::lemma_boundary_shift(lv[line as int], idx as int, step);
                        lemma_point_boundary(
                            lv,
                            TextPoint { line, index: (idx + g@[0]) as usize },
                        );
                    }
                }
            },
            Direction::Backward => {
                if idx == 0 {
                    adjust = -1;
                    proof {
                        if line > 0 {
                            lemma_line_decomp(lv, line - 1);
                            assert(prefix_off(lv, line as int) == prefix_off(lv, line - 1) + lv[
                                line - 1].len() + 1);
                            is_char_boundary_start_end_of_seq(lv[line - 1]);
                            lemma_point_boundary(
                                lv,
                                TextPoint { line: (line - 1) as usize, index: self.lines[line - 1].len() },
                            );
                        } else {
                            assert(off0 == 0);
                            assert(is_char_boundary(c, 0));
                        }
                    }
                } else {
                    proof {
                        valid_utf8_split(lv[line as int], idx as int);
                    }
                    let prefix = slice_subrange(self.lines[line].as_slice(), 0, idx);
                    let g = grapheme_lens(prefix);
                    proof {
                        assert(sum_prefix(g@, 0) == 0);
                        if g@.len() == 0 {
                            assert(sum_prefix(g@, g@.len() as int) == 0);
                            assert(false);
                        }
                        lemma_sum_prefix_mono(g@, g@.len() - 1, g@.len() as int);
                        assert(sum_prefix(g@, g@.len() as int) == sum_prefix(g@, g@.len() - 1)
                            + g@.last());
                    }
                    let last = g[g.len() - 1];
                    adjust = -(last as isize);
                    proof {
                        let j = idx - g@.last();
                        crate::unicode::lemma_boundary_prefix(lv[line as int], idx as int, j as int);
                        lemma_point_boundary(lv, TextPoint { line, index: j as usize });
                    }
                }
            },
        }
        self.perform_horizontal_adjustment(adjust, select);
        self.normalize_direction();
        proof {
            crate::input::lemma_normalized_ok(
                self.selection_direction,
                self.selection_origin,
                self.edit_point,
            );
            let tgt = clamped(off0 + adjust, c.len() as int);
            lemma_offset_point_props(lv, tgt);
            lemma_prefix_off_nonneg(lv, offset_point(lv, tgt).0);
            assert(self.spec_edit_off() == tgt);
        }
    }

    /// Move the caret to the start or end of the current physical line, or
    /// collapse the selection without moving when one is active and shift
    /// is not held.
    pub fn adjust_horizontal_to_line_end(&mut self, direction: Direction, select: Selection)
        requires
            old(self).wf(),
        ensures
            final(self).wf(),
            old(self).line_end_post(direction, select, *final(self)),
    {
        if self.adjust_selection_for_horizontal_change(direction, select) {
            return ;
        }
        let ghost lv = self.lines_view();
        let line = self.edit_point.line;
        let idx = self.edit_point.index;
        let line_len = self.lines[line].len();
        proof {
            lemma_join_valid(lv);
            lemma_line_decomp(lv, line as int);
            lemma_prefix_off_nonneg(lv, line as int);
        }
        let shift: isize = match direction {
            Direction::Backward => -(idx as isize),
            Direction::Forward => (line_len - idx) as isize,
        };
        proof {
            match direction {
                Direction::Backward => {
                    assert(is_char_boundary(lv[line as int], 0));
                    lemma_point_boundary(lv, TextPoint { line, index: 0 });
                },
                Direction::Forward => {
                    is_char_boundary_start_end_of_seq(lv[line as int]);
                    lemma_point_boundary(lv, TextPoint { line, index: line_len });
                },
            }
        }
        self.perform_horizontal_adjustment(shift, select);
        self.normalize_direction();
        proof {
            crate::input::lemma_normalized_ok(
                self.selection_direction,
                self.selection_origin,
                self.edit_point,
            );
            match direction {
                Direction::Backward => {
                    lemma_point_off_inverse(lv, line as int, 0);
                },
                Direction::Forward => {
                    lemma_point_off_inverse(lv, line as int, lv[line as int].len() as int);
                },
            }
        }
    }

    /// Move the caret to the very start or end of the whole document when
    /// asked to update it; always handles the selection first, collapsing
    /// it when shift is not held.
    pub fn adjust_horizontal_to_limit(
        &mut self,
        direction: Direction,
        select: Selection,
        update_text_cursor: bool,
    )
        requires
            old(self).wf(),
        ensures
            final(self).wf(),
            old(self).limit_post(direction, select, update_text_cursor, *final(self)),
    {
        if self.adjust_selection_for_horizontal_change(direction, select) {
            return ;
        }
        let ghost lv = self.lines_view();
        if update_text_cursor {
            match direction {
                Direction::Backward => {
                    self.edit_point = TextPoint { line: 0, index: 0 };
                    proof {
                        assert(is_char_boundary(lv[0], 0));
                    }
                },
                Direction::Forward => {
                    let last_line = self.lines.len() - 1;
                    let last_len = self.lines[last_line].len();
                    self.edit_point = TextPoint { line: last_line, index: last_len };
                    proof {
                        is_char_boundary_start_end_of_seq(lv[last_line as int]);
                    }
                },
            }
        }
        self.normalize_direction();
        proof {
            crate::input::lemma_normalized_ok(
                self.selection_direction,
                self.selection_origin,
                self.edit_point,
            );
        }
    }

    /// Remove the current selection and move the caret to the start or end
    /// of the content.
    pub fn clear_selection_to_limit(&mut self, direction: Direction, update_text_cursor: bool)
        requires
            old(self).wf(),
        ensures
            final(self).wf(),
            ({
                let lv = old(self).lines_view();
                let limit = if direction is Backward {
                    TextPoint { line: 0, index: 0 }
                } else {
                    TextPoint {
                        line: (lv.len() - 1) as usize,
                        index: lv.last().len() as usize,
                    }
                };
                *final(self) == (TextInput {
                    edit_point: if update_text_cursor {
                        limit
                    } else {
                        old(self).edit_point
                    },
                    selection_origin: Option::<TextPoint>::None,
                    selection_direction: SelectionDirection::NoDirection,
                    ..*old(self)
                })
            }),
    {
        self.clear_selection();
        self.adjust_horizontal_to_limit(direction, Selection::NotSelected, update_text_cursor);
    }
}

/// Byte count consumed scanning word-bounded segments forward from segment
/// `j`, stopping once a segment holding an alphanumeric character has been
/// taken; all of the text when none has one.
pub open spec fn word_scan_fwd(b: Seq<u8>, j: int) -> int
    decreases word_split(b).len() - j,
    when 0 <= j <= word_split(b).len()
{
    let lens = word_split(b);
    if j >= lens.len() {
        sum_prefix(lens, lens.len() as int)
    } else if has_alnum(b.subrange(sum_prefix(lens, j), sum_prefix(lens, j + 1))) {
        sum_prefix(lens, j + 1)
    } else {
        word_scan_fwd(b, j + 1)
    }
}

/// Byte count consumed scanning word-bounded segments backward from the end
/// of segment `j`, stopping once a segment holding an alphanumeric
/// character has been taken; all of the text when none has one.
pub open spec fn word_scan_back(b: Seq<u8>, j: int) -> int
    decreases j,
    when 0 <= j <= word_split(b).len()
{
    let lens = word_split(b);
    if j <= 0 {
        b.len() as int
    } else if has_alnum(b.subrange(sum_prefix(lens, j - 1), sum_prefix(lens, j))) {
        b.len() - sum_prefix(lens, j - 1)
    } else {
        word_scan_back(b, j - 1)
    }
}

/// Bytes to step over scanning forward for the next word.
#[verifier::loop_isolation(false)]
fn scan_words_fwd(seg: &[u8]) -> (r: usize)
    requires
        valid_utf8(seg@),
    ensures
        r as int == word_scan_fwd(seg@, 0),
        r <= seg@.len(),
        is_char_boundary(seg@, r as int),
{
    let total = seg.len();
    let lens = word_bound_lens(seg);
    let ghost ls = lens@;
    let mut acc: usize = 0;
    let mut j: usize = 0;
    proof {
        assert(sum_prefix(ls, 0) == 0);
        assert(total as int == seg@.len());
    }
    while j < lens.len()
        invariant
            j <= ls.len(),
            acc as int == sum_prefix(ls, j as int),
            word_scan_fwd(seg@, 0) == word_scan_fwd(seg@, j as int),
        decreases ls.len() - j,
    {
        proof {
            assert(sum_prefix(ls, j + 1) == sum_prefix(ls, j as int) + ls[j as int]);
            lemma_sum_prefix_mono(ls, j + 1, ls.len() as int);
            assert(sum_prefix(ls, j + 1) <= seg@.len());
            lemma_sum_prefix_mono(ls, 0, j as int);
            crate::unicode::lemma_subrange_split3(
                seg@,
                sum_prefix(ls, j as int),
                sum_prefix(ls, j + 1),
            );
        }
        let w = lens[j];
        let piece = slice_subrange(seg, acc, acc + w);
        if has_alphanumeric(piece) {
            proof {
                assert(word_scan_fwd(seg@, j as int) == sum_prefix(ls, j + 1));
            }
            return acc + w;
        }
        proof {
            assert(word_scan_fwd(seg@, j as int) == word_scan_fwd(seg@, j + 1));
        }
        acc = acc + w;
        j = j + 1;
    }
    acc
}

/// Bytes to step over scanning backward for the previous word.
#[verifier::loop_isolation(false)]
fn scan_words_back(seg: &[u8]) -> (r: usize)
    requires
        valid_utf8(seg@),
    ensures
        r as int == word_scan_back(seg@, word_split(seg@).len() as int),
        r <= seg@.len(),
        is_char_boundary(seg@, seg@.len() - r),
{
    let lens = word_bound_lens(seg);
    let ghost ls = lens@;
    let mut acc: usize = seg.len();
    let mut j: usize = lens.len();
    proof {
        assert(acc as int == sum_prefix(ls, j as int));
    }
    while j > 0
        invariant
            j <= ls.len(),
            acc as int == sum_prefix(ls, j as int),
            word_scan_back(seg@, ls.len() as int) == word_scan_back(seg@, j as int),
        decreases j,
    {
        proof {
            assert(sum_prefix(ls, j as int) == sum_prefix(ls, j - 1) + ls[j - 1]);
            lemma_sum_prefix_mono(ls, 0, j - 1);
            lemma_sum_prefix_mono(ls, j as int, ls.len() as int);
            crate::unicode::lemma_subrange_split3(
                seg@,
                sum_prefix(ls, j - 1),
                sum_prefix(ls, j as int),
            );
        }
        let w = lens[j - 1];
        let lo = acc - w;
        let piece = slice_subrange(seg, lo, acc);
        if has_alphanumeric(piece) {
            proof {
                assert(word_scan_back(seg@, j as int) == seg@.len() - sum_prefix(ls, j - 1));
            }
            return seg.len() - lo;
        }
        proof {
            assert(word_scan_back(seg@, j as int) == word_scan_back(seg@, j - 1));
        }
        acc = lo;
        j = j - 1;
    }
    proof {
        is_char_boundary_start_end_of_seq(seg@);
    }
    seg.len()
}

impl<T: ClipboardProvider> TextInput<T> {
    /// The signed byte step of a word-boundary move: word segments are
    /// consumed until one holding an alphanumeric character has been taken;
    /// from a line edge the scan crosses into the neighbouring line for one
    /// extra byte.
    pub open spec fn word_step(self, direction: Direction) -> int {
        let lv = self.lines_view();
        let line = lv[self.edit_point.line as int];
        match direction {
            Direction::Forward => {
                if self.edit_point.index == line.len() && self.edit_point.line + 1 < lv.len() {
                    word_scan_fwd(lv[self.edit_point.line + 1], 0) + 1
                } else {
                    word_scan_fwd(
                        line.subrange(self.edit_point.index as int, line.len() as int),
                        0,
                    )
                }
            },
            Direction::Backward => {
                if self.edit_point.index == 0 && self.edit_point.line > 0 {
                    -(word_scan_back(
                        lv[self.edit_point.line - 1],
                        word_split(lv[self.edit_point.line - 1]).len() as int,
                    ) + 1)
                } else {
                    -(word_scan_back(
                        line.subrange(0, self.edit_point.index as int),
                        word_split(line.subrange(0, self.edit_point.index as int)).len() as int,
                    ))
                }
            },
        }
    }

    /// Move the caret to the next word boundary in the given direction,
    /// skipping runs without alphanumeric characters, or collapse the
    /// selection without moving when one is active and shift is not held.
    #[verifier::loop_isolation(false)]
    #[verifier::rlimit(100)]
    pub fn adjust_horizontal_by_word(&mut self, direction: Direction, select: Selection)
        requires
            old(self).wf(),
        ensures
            final(self).wf(),
            old(self).by_word_post(direction, select, *final(self)),
    {
        if self.adjust_selection_for_horizontal_change(direction, select) {
            return ;
        }
        let ghost lv = self.lines_view();
        let ghost c = self.spec_content();
        let ghost off0 = self.spec_edit_off();
        let line = self.edit_point.line;
        let idx = self.edit_point.index;
        let line_len = self.lines[line].len();
        proof {
            lemma_join_valid(lv);
            lemma_line_decomp(lv, line as int);
            lemma_prefix_off_nonneg(lv, line as int);
        }
        let shift: isize;
        match direction {
            Direction::Backward => {
                if idx == 0 && line > 0 {
                    let prev = line - 1;
                    proof {
                        lemma_line_decomp(lv, prev as int);
                        lemma_prefix_off_nonneg(lv, prev as int);
                        assert(lv[prev as int].len() + 1 <= c.len());
                    }
                    let s = scan_words_back(self.lines[prev].as_slice());
                    shift = -((s as isize) + 1);
                    proof {
                        assert(prefix_off(lv, line as int) == prefix_off(lv, prev as int) + lv[
                            prev as int].len() + 1);
                        lemma_point_boundary(
                            lv,
                            TextPoint { line: prev, index: (lv[prev as int].len() - s) as usize },
                        );
                    }
                } else {
                    proof {
                        valid_utf8_split(lv[line as int], idx as int);
                    }
                    let s = scan_words_back(slice_subrange(self.lines[line].as_slice(), 0, idx));
                    proof {
                        assert(s <= idx);
                        assert(idx <= lv[line as int].len());
                    }
                    shift = -(s as isize);
                    proof {
                        assert(is_char_boundary(
                            lv[line as int].subrange(0, idx as int),
                            idx - s,
                        ));
                        crate::unicode::lemma_boundary_prefix(
                            lv[line as int],
                            idx as int,
                            idx - s,
                        );
                        lemma_point_boundary(lv, TextPoint { line, index: (idx - s) as usize });
                    }
                }
            },
            Direction::Forward => {
                if idx == line_len && line + 1 < self.lines.len() {
                    let nxt = line + 1;
                    proof {
                        lemma_line_decomp(lv, nxt as int);
                        lemma_prefix_off_nonneg(lv, nxt as int);
                        assert(lv[nxt as int].len() + 1 <= c.len());
                    }
                    let s = scan_words_fwd(self.lines[nxt].as_slice());
                    shift = (s as isize) + 1;
                    proof {
                        assert(prefix_off(lv, nxt as int) == prefix_off(lv, line as int) + lv[
                            line as int].len() + 1);
                        lemma_point_boundary(lv, TextPoint { line: nxt, index: s });
                    }
                } else {
                    proof {
                        valid_utf8_split(lv[line as int], idx as int);
                    }
                    let s = scan_words_fwd(
                        slice_subrange(self.lines[line].as_slice(), idx, line_len),
                    );
                    shift = s as isize;
                    proof {
                        crate::unicode::lemma_boundary_shift(lv[line as int], idx as int, s as int);
                        lemma_point_boundary(lv, TextPoint { line, index: (idx + s) as usize });
                    }
                }
            },
        }
        self.perform_horizontal_adjustment(shift, select);
        self.normalize_direction();
        proof {
            crate::input::lemma_normalized_ok(
                self.selection_direction,
                self.selection_origin,
                self.edit_point,
            );
        }
    }

    /// Adjust the editing point position by a given number of lines. The
    /// resulting column is as close to the original column position as
    /// possible.
    pub fn adjust_vertical(&mut self, adjust: isize, select: Selection)
        requires
            old(self).wf(),
        ensures
            final(self).wf(),
            old(self).vertical_post(adjust, select, *final(self)),
    {
        if !self.multiline {
            return ;
        }
        if select == Selection::Selected {
            if self.selection_origin.is_none() {
                self.selection_origin = Some(self.edit_point);
            }
        } else {
            self.clear_selection();
        }
        let ghost lv = self.lines_view();
        let line = self.edit_point.line;
        let idx = self.edit_point.index;
        proof {
            self.lemma_selection_invariants_weak();
        }
        let t: i128 = line as i128 + adjust as i128;
        if t < 0 {
            self.edit_point = TextPoint { line: 0, index: 0 };
            self.normalize_direction();
            proof {
                assert(is_char_boundary(lv[0], 0));
                crate::input::lemma_normalized_ok(
                    self.selection_direction,
                    self.selection_origin,
                    self.edit_point,
                );
            }
            return ;
        }
        let n = self.lines.len();
        if t >= n as i128 {
            let last = n - 1;
            let ll = self.lines[last].len();
            self.edit_point = TextPoint { line: last, index: ll };
            self.normalize_direction();
            proof {
                is_char_boundary_start_end_of_seq(lv[last as int]);
                crate::input::lemma_normalized_ok(
                    self.selection_direction,
                    self.selection_origin,
                    self.edit_point,
                );
            }
            return ;
        }
        let target = t as usize;
        proof {
            valid_utf8_split(lv[line as int], idx as int);
            crate::unicode::lemma_counts_le_len(lv[line as int].subrange(0, idx as int));
        }
        let col = crate::unicode::char_count(
            slice_subrange(self.lines[line].as_slice(), 0, idx),
        );
        let new_idx = crate::unicode::len_of_first_n_chars(self.lines[target].as_slice(), col);
        self.edit_point = TextPoint { line: target, index: new_idx };
        self.normalize_direction();
        proof {
            crate::input::lemma_normalized_ok(
                self.selection_direction,
                self.selection_origin,
                self.edit_point,
            );
        }
    }

    /// A weaker form of the selection facts, usable while the direction may
    /// still disagree with the order of origin and caret.
    proof fn lemma_selection_invariants_weak(&self)
        requires
            self.wf_points(),
        ensures
            self.edit_point.index as int <= self.lines_view()[self.edit_point.line as int].len(),
            (self.edit_point.line as int) < self.lines_view().len(),
    {
    }

    /// Set the selection to the given byte-offset range of the content,
    /// clamping the end into the content, the start below the end, and each
    /// offset down to a character boundary. The anchor and the caret follow
    /// the given direction.
    pub fn set_selection_range(&mut self, start: u32, end: u32, direction: SelectionDirection)
        requires
            old(self).wf(),
        ensures
            final(self).wf(),
            final(self).lines == old(self).lines,
            final(self).multiline == old(self).multiline,
            final(self).max_length == old(self).max_length,
            final(self).min_length == old(self).min_length,
            final(self).clipboard_provider == old(self).clipboard_provider,
            final(self).selection_direction == direction,
            ({
                let lv = old(self).lines_view();
                let c = old(self).spec_content();
                let e: int = if end as int > c.len() {
                    c.len() as int
                } else {
                    end as int
                };
                let s: int = if start as int > e {
                    e
                } else {
                    start as int
                };
                let sp = offset_point(lv, s);
                let ep = offset_point(lv, e);
                let spt = TextPoint {
                    line: sp.0 as usize,
                    index: crate::unicode::clamp_boundary(lv[sp.0], sp.1) as usize,
                };
                let ept = TextPoint {
                    line: ep.0 as usize,
                    index: crate::unicode::clamp_boundary(lv[ep.0], ep.1) as usize,
                };
                match direction {
                    SelectionDirection::Backward => final(self).selection_origin == Some(ept)
                        && final(self).edit_point == spt,
                    _ => final(self).selection_origin == Some(spt) && final(self).edit_point
                        == ept,
                }
            }),
    {
        let ghost lv = self.lines_view();
        let ghost c = self.spec_content();
        let text_end = self.len();
        let end_c: usize = if (end as usize) > text_end {
            text_end
        } else {
            end as usize
        };
        let start_c: usize = if (start as usize) > end_c {
            end_c
        } else {
            start as usize
        };
        proof {
            lemma_join_valid(lv);
            lemma_offset_point_props(lv, start_c as int);
            lemma_offset_point_props(lv, end_c as int);
            lemma_offset_point_le(lv, start_c as int, end_c as int);
        }
        let sp_raw = self.offset_to_text_point(start_c);
        let ep_raw = self.offset_to_text_point(end_c);
        proof {
            assert(valid_utf8(lv[sp_raw.line as int]));
            assert(valid_utf8(lv[ep_raw.line as int]));
        }
        let sp = TextPoint {
            line: sp_raw.line,
            index: crate::unicode::clamp_to_boundary(
                self.lines[sp_raw.line].as_slice(),
                sp_raw.index,
            ),
        };
        let ep = TextPoint {
            line: ep_raw.line,
            index: crate::unicode::clamp_to_boundary(
                self.lines[ep_raw.line].as_slice(),
                ep_raw.index,
            ),
        };
        proof {
            if sp_raw.line == ep_raw.line {
                crate::unicode::lemma_clamp_boundary_mono(
                    lv[sp_raw.line as int],
                    sp_raw.index as int,
                    ep_raw.index as int,
                );
            }
            assert(sp.spec_le(ep));
        }
        self.selection_direction = direction;
        match direction {
            SelectionDirection::NoDirection | SelectionDirection::Forward => {
                self.selection_origin = Some(sp);
                self.edit_point = ep;
            },
            SelectionDirection::Backward => {
                self.selection_origin = Some(ep);
                self.edit_point = sp;
            },
        }
    }

    /// Place the caret on the current line after the given number of
    /// grapheme clusters, saturating at the end of the line.
    #[verifier::loop_isolation(false)]
    pub fn set_edit_point_index(&mut self, index: usize)
        requires
            old(self).wf(),
        ensures
            final(self).wf(),
            ({
                let lv = old(self).lines_view();
                let g = grapheme_split(lv[old(self).edit_point.line as int]);
                let m: int = if index as int <= g.len() {
                    index as int
                } else {
                    g.len() as int
                };
                let target_edit = TextPoint {
                    line: old(self).edit_point.line,
                    index: sum_prefix(g, m) as usize,
                };
                *final(self) == (TextInput {
                    edit_point: target_edit,
                    selection_direction: normalized_direction(
                        old(self).selection_direction,
                        old(self).selection_origin,
                        target_edit,
                    ),
                    ..*old(self)
                })
            }),
    {
        let ghost lv = self.lines_view();
        let line = self.edit_point.line;
        proof {
            self.lemma_selection_invariants();
        }
        let ll = self.lines[line].len();
        let g = grapheme_lens(self.lines[line].as_slice());
        let ghost gs = g@;
        proof {
            assert(ll as int == lv[line as int].len());
        }
        let m: usize = if index < g.len() {
            index
        } else {
            g.len()
        };
        let mut acc: usize = 0;
        let mut j: usize = 0;
        proof {
            assert(sum_prefix(gs, 0) == 0);
        }
        while j < m
            invariant
                j <= m <= gs.len(),
                acc as int == sum_prefix(gs, j as int),
                gs == grapheme_split(lv[line as int]),
                sum_prefix(gs, gs.len() as int) == lv[line as int].len(),
                forall|k: int|
                    0 <= k <= gs.len() ==> is_char_boundary(lv[line as int], sum_prefix(gs, k)),
            decreases m - j,
        {
            proof {
                assert(sum_prefix(gs, j + 1) == sum_prefix(gs, j as int) + gs[j as int]);
                lemma_sum_prefix_mono(gs, j + 1, gs.len() as int);
            }
            acc = acc + g[j];
            j = j + 1;
        }
        self.edit_point = TextPoint { line, index: acc };
        self.normalize_direction();
        proof {
            lemma_sum_prefix_mono(gs, m as int, gs.len() as int);
            crate::input::lemma_normalized_ok(
                self.selection_direction,
                self.selection_origin,
                self.edit_point,
            );
        }
    }

    /// What deleting in the given direction leaves: with no selection, or a
    /// zero-width one, the selection is first extended one grapheme step
    /// that way; then the selection is replaced by nothing, honouring the
    /// UTF-16 length limit as replacing does.
    pub open spec fn delete_post(self, dir: Direction, post: TextInput<T>) -> bool {
        let base = if self.selection_origin.is_none() || self.selection_origin == Some(
            self.edit_point,
        ) {
            let lv = self.lines_view();
            let tgt = clamped(
                self.spec_edit_off() + self.grapheme_step(dir),
                self.spec_content().len() as int,
            );
            let p = offset_point(lv, tgt);
            let ep = TextPoint { line: p.0 as usize, index: p.1 as usize };
            let dirsel = if dir is Backward {
                SelectionDirection::Backward
            } else {
                SelectionDirection::Forward
            };
            TextInput {
                selection_origin: Some(self.edit_point),
                edit_point: ep,
                selection_direction: normalized_direction(dirsel, Some(self.edit_point), ep),
                ..self
            }
        } else {
            self
        };
        base.replace_post(Seq::<char>::empty(), post)
    }

    /// Remove one grapheme cluster next to the caret in the given
    /// direction, or the selected text when a non-empty selection is
    /// active; honours the UTF-16 length limit as replacing does.
    pub fn delete_char(&mut self, dir: Direction)
        requires
            old(self).wf(),
        ensures
            final(self).wf(),
            old(self).delete_post(dir, *final(self)),
    {
        let no_sel = self.selection_origin.is_none();
        let zero_sel = match self.selection_origin {
            Some(o) => o == self.edit_point,
            None => false,
        };
        if no_sel || zero_sel {
            self.adjust_horizontal_by_one(dir, Selection::Selected);
        }
        self.replace_selection("");
        proof {
            reveal_strlit("");
            assert(""@ =~= Seq::<char>::empty());
        }
    }
}

/// Sums of the leading entries grow with how many are taken.
pub proof fn lemma_sum_prefix_mono(s: Seq<usize>, a: int, b: int)
    requires
        0 <= a <= b,
    ensures
        sum_prefix(s, a) <= sum_prefix(s, b),
    decreases b,
{
    if a < b {
        lemma_sum_prefix_mono(s, a, b - 1);
    }
}

} // verus!
