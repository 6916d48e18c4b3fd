//! Behavioural tests for the text-input state, run against the real
//! segmentation crate.

use textinput::{
    Direction, Key, KeyReaction, Lines, Modifiers, Platform, Selection, SelectionDirection,
    TextInput, TextPoint,
};

/// A clipboard living in the test process.
struct TestClipboard {
    content: String,
}

impl textinput::ClipboardProvider for TestClipboard {
    fn clipboard_contents(&mut self) -> String {
        self.content.clone()
    }

    fn set_clipboard_contents(&mut self, contents: String) {
        self.content = contents;
    }
}

fn new_input(lines: Lines, initial: &str) -> TextInput<TestClipboard> {
    TextInput::new(
        lines,
        initial,
        TestClipboard { content: String::new() },
        None,
        None,
        SelectionDirection::NoDirection,
    )
}

fn new_input_max(lines: Lines, initial: &str, max: usize) -> TextInput<TestClipboard> {
    TextInput::new(
        lines,
        initial,
        TestClipboard { content: String::new() },
        Some(max),
        None,
        SelectionDirection::NoDirection,
    )
}

fn no_mods() -> Modifiers {
    Modifiers { shift: false, control: false, alt: false, meta: false }
}

#[test]
fn vertical_moves_keep_column_and_clamp() {
    let mut i = new_input(Lines::Multiple, "abc\nde");
    i.adjust_horizontal_to_limit(Direction::Forward, Selection::NotSelected, true);
    assert_eq!(i.edit_point, TextPoint { line: 1, index: 2 });
    i.adjust_vertical(-1, Selection::NotSelected);
    assert_eq!(i.edit_point, TextPoint { line: 0, index: 2 });
    i.adjust_vertical(-1, Selection::NotSelected);
    assert_eq!(i.edit_point, TextPoint { line: 0, index: 0 });
}

#[test]
fn insert_string_at_end() {
    let mut i = new_input(Lines::Single, "hello");
    i.adjust_horizontal_to_limit(Direction::Forward, Selection::NotSelected, true);
    assert_eq!(i.edit_point.index, 5);
    i.insert_string(" world");
    assert_eq!(i.get_content(), "hello world");
    assert_eq!(i.edit_point, TextPoint { line: 0, index: 11 });
    assert!(!i.has_selection());
}

#[test]
fn word_move_backward_lands_on_word_start() {
    let mut i = new_input(Lines::Single, "foo bar");
    i.adjust_horizontal_to_limit(Direction::Forward, Selection::NotSelected, true);
    assert_eq!(i.edit_point.index, 7);
    i.adjust_horizontal_by_word(Direction::Backward, Selection::NotSelected);
    assert_eq!(i.edit_point.index, 4);
}

#[test]
fn word_move_crosses_lines() {
    let mut i = new_input(Lines::Multiple, "foo\nbar baz");
    i.adjust_horizontal_to_limit(Direction::Forward, Selection::NotSelected, true);
    i.adjust_horizontal_by_word(Direction::Backward, Selection::NotSelected);
    assert_eq!(i.edit_point, TextPoint { line: 1, index: 4 });
    i.adjust_horizontal_to_line_end(Direction::Backward, Selection::NotSelected);
    assert_eq!(i.edit_point, TextPoint { line: 1, index: 0 });
    i.adjust_horizontal_by_word(Direction::Backward, Selection::NotSelected);
    assert_eq!(i.edit_point, TextPoint { line: 0, index: 0 });
}

#[test]
fn selection_range_reports_offsets() {
    let mut i = new_input(Lines::Single, "abcdef");
    i.set_selection_range(2, 5, SelectionDirection::Forward);
    assert_eq!(i.selection_start_offset(), 2);
    assert_eq!(i.selection_end_offset(), 5);
    assert!(i.has_selection());
    let r = i.sorted_selection_offsets_range();
    assert_eq!(r.start, 2);
    assert_eq!(r.end, 5);
}

#[test]
fn selection_range_clamps_out_of_range() {
    let mut i = new_input(Lines::Single, "abc");
    i.set_selection_range(10, 99, SelectionDirection::Forward);
    assert_eq!(i.selection_start_offset(), 3);
    assert_eq!(i.selection_end_offset(), 3);
}

#[test]
fn backward_selection_range_swaps_anchor() {
    let mut i = new_input(Lines::Single, "abcdef");
    i.set_selection_range(2, 5, SelectionDirection::Backward);
    assert_eq!(i.selection_origin, Some(TextPoint { line: 0, index: 5 }));
    assert_eq!(i.edit_point, TextPoint { line: 0, index: 2 });
    assert_eq!(i.selection_start_offset(), 2);
    assert_eq!(i.selection_end_offset(), 5);
}

#[test]
fn max_length_truncates_insert_exactly() {
    let mut i = new_input_max(Lines::Single, "", 5);
    i.insert_string("hello world");
    assert_eq!(i.get_content(), "hello");
    assert_eq!(i.utf16_len(), 5);
}

#[test]
fn max_length_counts_utf16_units() {
    // a supplementary-plane character takes two UTF-16 units, so only one
    // fits under a limit of three
    let mut i = new_input_max(Lines::Single, "", 3);
    i.insert_string("\u{1F600}\u{1F600}");
    assert_eq!(i.utf16_len(), 2);
    assert_eq!(i.get_content(), "\u{1F600}");
}

#[test]
fn at_limit_insert_with_selection_still_replaces_when_room_appears() {
    let mut i = new_input_max(Lines::Single, "hello", 5);
    i.set_selection_range(1, 3, SelectionDirection::Forward);
    i.replace_selection("xy");
    assert_eq!(i.get_content(), "hxylo");
}

#[test]
fn over_limit_replace_is_refused() {
    let mut i = new_input_max(Lines::Single, "hello", 3);
    i.set_selection_range(0, 1, SelectionDirection::Forward);
    i.replace_selection("z");
    assert_eq!(i.get_content(), "hello");
    // the selection also stays, since nothing changed
    assert!(i.has_selection());
}

#[test]
fn length_queries_count_bytes_units_chars() {
    let i = new_input(Lines::Single, "a\u{E9}\u{1F600}");
    assert_eq!(i.len(), 7);
    assert_eq!(i.utf16_len(), 4);
    assert_eq!(i.char_count(), 3);
    let m = new_input(Lines::Multiple, "ab\ncd");
    assert_eq!(m.len(), 5);
    assert_eq!(m.utf16_len(), 5);
    assert_eq!(m.char_count(), 5);
}

#[test]
fn backward_steps_reach_start_without_underflow() {
    let mut i = new_input(Lines::Single, "a\u{E9}\u{1F600}");
    i.adjust_horizontal_to_limit(Direction::Forward, Selection::NotSelected, true);
    let mut steps = 0;
    while i.edit_point.index > 0 {
        i.adjust_horizontal_by_one(Direction::Backward, Selection::NotSelected);
        steps += 1;
        assert!(steps <= 10);
    }
    assert_eq!(steps, i.char_count());
    i.adjust_horizontal_by_one(Direction::Backward, Selection::NotSelected);
    assert_eq!(i.edit_point, TextPoint { line: 0, index: 0 });
}

#[test]
fn combining_mark_steps_as_one_cluster() {
    // 'e' followed by a combining acute accent is a single grapheme cluster
    let mut i = new_input(Lines::Single, "e\u{301}");
    i.adjust_horizontal_to_limit(Direction::Forward, Selection::NotSelected, true);
    assert_eq!(i.edit_point.index, 3);
    i.adjust_horizontal_by_one(Direction::Backward, Selection::NotSelected);
    assert_eq!(i.edit_point.index, 0);
}

#[test]
fn grapheme_steps_cross_lines() {
    let mut i = new_input(Lines::Multiple, "ab\ncd");
    i.adjust_horizontal_to_limit(Direction::Forward, Selection::NotSelected, true);
    i.adjust_horizontal_by_one(Direction::Backward, Selection::NotSelected);
    i.adjust_horizontal_by_one(Direction::Backward, Selection::NotSelected);
    i.adjust_horizontal_by_one(Direction::Backward, Selection::NotSelected);
    assert_eq!(i.edit_point, TextPoint { line: 0, index: 2 });
}

#[test]
fn delete_char_both_directions() {
    let mut i = new_input(Lines::Single, "hello");
    i.adjust_horizontal_to_limit(Direction::Forward, Selection::NotSelected, true);
    i.delete_char(Direction::Backward);
    assert_eq!(i.get_content(), "hell");
    i.adjust_horizontal_to_limit(Direction::Backward, Selection::NotSelected, true);
    i.delete_char(Direction::Forward);
    assert_eq!(i.get_content(), "ell");
    i.delete_char(Direction::Backward);
    assert_eq!(i.get_content(), "ell");
}

#[test]
fn delete_joins_lines() {
    let mut i = new_input(Lines::Multiple, "ab\ncd");
    i.adjust_horizontal_to_limit(Direction::Forward, Selection::NotSelected, true);
    i.adjust_horizontal_to_line_end(Direction::Backward, Selection::NotSelected);
    i.delete_char(Direction::Backward);
    assert_eq!(i.get_content(), "abcd");
    assert_eq!(i.edit_point, TextPoint { line: 0, index: 2 });
}

#[test]
fn set_content_normalises_line_breaks() {
    let mut i = new_input(Lines::Multiple, "");
    i.set_content("a\r\nb\rc\nd", true);
    assert_eq!(i.get_content(), "a\nb\nc\nd");
    assert_eq!(i.lines.len(), 4);
}

#[test]
fn single_line_set_content_keeps_breaks_verbatim() {
    let mut i = new_input(Lines::Single, "");
    i.set_content("a\nb", true);
    assert_eq!(i.lines.len(), 1);
    assert_eq!(i.single_line_content(), "a\nb");
}

#[test]
fn set_content_round_trip_is_idempotent() {
    let mut i = new_input(Lines::Multiple, "one\rtwo\r\nthree");
    let c1 = i.get_content();
    i.set_content(&c1, true);
    let c2 = i.get_content();
    let lines1 = i.lines.len();
    i.set_content(&c2, true);
    assert_eq!(i.get_content(), c2);
    assert_eq!(i.lines.len(), lines1);
}

#[test]
fn select_all_spans_the_document() {
    let mut i = new_input(Lines::Multiple, "abc\nde");
    i.select_all();
    assert_eq!(i.selection_origin, Some(TextPoint { line: 0, index: 0 }));
    assert_eq!(i.edit_point, TextPoint { line: 1, index: 2 });
    let r = i.sorted_selection_offsets_range();
    assert_eq!(r.start, 0);
    assert_eq!(r.end, 6);
    assert_eq!(i.get_selection_text(), Some(String::from("abc\nde")));
}

#[test]
fn selection_state_snapshots_change() {
    let mut i = new_input(Lines::Single, "abc");
    let s0 = i.selection_state();
    i.set_selection_range(0, 2, SelectionDirection::Forward);
    let s1 = i.selection_state();
    assert!(s0 != s1);
    assert_eq!(s1.start, TextPoint { line: 0, index: 0 });
    assert_eq!(s1.end, TextPoint { line: 0, index: 2 });
}

#[test]
fn shift_extends_and_plain_collapses() {
    let mut i = new_input(Lines::Single, "abcdef");
    i.adjust_horizontal_by_one(Direction::Forward, Selection::Selected);
    i.adjust_horizontal_by_one(Direction::Forward, Selection::Selected);
    assert_eq!(i.selection_start_offset(), 0);
    assert_eq!(i.selection_end_offset(), 2);
    assert_eq!(i.selection_direction, SelectionDirection::Forward);
    // a plain move collapses the selection to its near edge
    i.adjust_horizontal_by_one(Direction::Backward, Selection::NotSelected);
    assert!(!i.has_selection());
    assert_eq!(i.edit_point.index, 0);
}

#[test]
fn keydown_dispatches_typed_characters() {
    let mut i = new_input(Lines::Single, "");
    let r = i.handle_keydown_aux(Some('x'), Key::Other, no_mods(), Platform::Other);
    assert!(matches!(r, KeyReaction::DispatchInput));
    assert_eq!(i.get_content(), "x");
}

#[test]
fn keydown_copy_and_paste_use_the_clipboard() {
    let mut i = new_input(Lines::Single, "abc");
    let ctrl = Modifiers { shift: false, control: true, alt: false, meta: false };
    let r = i.handle_keydown_aux(None, Key::A, ctrl, Platform::Other);
    assert!(matches!(r, KeyReaction::RedrawSelection));
    let r = i.handle_keydown_aux(None, Key::C, ctrl, Platform::Other);
    assert!(matches!(r, KeyReaction::DispatchInput));
    assert_eq!(i.clipboard_provider.content, "abc");
    let r = i.handle_keydown_aux(None, Key::V, ctrl, Platform::Other);
    assert!(matches!(r, KeyReaction::DispatchInput));
    assert_eq!(i.get_content(), "abc");
    assert_eq!(i.edit_point.index, 3);
}

#[test]
fn keydown_enter_depends_on_line_mode() {
    let mut s = new_input(Lines::Single, "ab");
    let r = s.handle_keydown_aux(None, Key::Enter, no_mods(), Platform::Other);
    assert!(matches!(r, KeyReaction::TriggerDefaultAction));
    assert_eq!(s.get_content(), "ab");
    let mut m = new_input(Lines::Multiple, "ab");
    m.adjust_horizontal_to_limit(Direction::Forward, Selection::NotSelected, true);
    let r = m.handle_keydown_aux(None, Key::Enter, no_mods(), Platform::Other);
    assert!(matches!(r, KeyReaction::DispatchInput));
    assert_eq!(m.get_content(), "ab\n");
    assert_eq!(m.lines.len(), 2);
}

#[test]
fn keydown_home_and_end_move_within_the_line() {
    let mut i = new_input(Lines::Single, "abc");
    i.adjust_horizontal_to_limit(Direction::Forward, Selection::NotSelected, true);
    let r = i.handle_keydown_aux(None, Key::Home, no_mods(), Platform::Other);
    assert!(matches!(r, KeyReaction::RedrawSelection));
    assert_eq!(i.edit_point.index, 0);
    i.handle_keydown_aux(None, Key::End, no_mods(), Platform::Other);
    assert_eq!(i.edit_point.index, 3);
}

#[test]
fn keydown_mac_primary_is_meta() {
    let mut i = new_input(Lines::Single, "abc");
    let meta = Modifiers { shift: false, control: false, alt: false, meta: true };
    i.handle_keydown_aux(None, Key::A, meta, Platform::Mac);
    assert!(i.has_selection());
    assert_eq!(i.selection_end_offset(), 3);
    let mut j = new_input(Lines::Single, "abc");
    j.handle_keydown_aux(None, Key::A, meta, Platform::Other);
    assert!(!j.has_selection());
}

#[test]
fn keydown_unknown_key_does_nothing() {
    let mut i = new_input(Lines::Single, "abc");
    let r = i.handle_keydown_aux(None, Key::Other, no_mods(), Platform::Other);
    assert!(matches!(r, KeyReaction::Nothing));
    assert_eq!(i.get_content(), "abc");
}

#[test]
fn first_n_chars_and_code_units_clip_at_boundaries() {
    let text = "a\u{E9}x";
    assert_eq!(textinput::len_of_first_n_chars(text.as_bytes(), 2), 3);
    assert_eq!(textinput::len_of_first_n_chars(text.as_bytes(), 9), 4);
    let emoji = "\u{1F600}a";
    assert_eq!(textinput::len_of_first_n_code_units(emoji.as_bytes(), 1), 0);
    assert_eq!(textinput::len_of_first_n_code_units(emoji.as_bytes(), 2), 4);
    assert_eq!(textinput::len_of_first_n_code_units(emoji.as_bytes(), 3), 5);
}

#[test]
fn set_edit_point_index_counts_graphemes() {
    let mut i = new_input(Lines::Single, "a\u{E9}\u{1F600}x");
    i.set_edit_point_index(2);
    assert_eq!(i.edit_point.index, 3);
    i.set_edit_point_index(3);
    assert_eq!(i.edit_point.index, 7);
    i.set_edit_point_index(99);
    assert_eq!(i.edit_point.index, 8);
}

#[test]
fn empty_buffer_reports_empty() {
    let i = new_input(Lines::Multiple, "");
    assert!(i.is_empty());
    assert_eq!(i.len(), 0);
    assert_eq!(i.utf16_len(), 0);
    assert_eq!(i.char_count(), 0);
    let j = new_input(Lines::Single, "a");
    assert!(!j.is_empty());
}

#[test]
fn direction_names_round_trip() {
    assert_eq!(
        SelectionDirection::from_string(&String::from("forward")),
        SelectionDirection::Forward
    );
    assert_eq!(
        SelectionDirection::from_string(&String::from("backward")),
        SelectionDirection::Backward
    );
    assert_eq!(
        SelectionDirection::from_string(&String::from("sideways")),
        SelectionDirection::NoDirection
    );
    assert_eq!(SelectionDirection::Forward.to_string_value(), "forward");
    assert_eq!(SelectionDirection::NoDirection.to_string_value(), "none");
}

#[test]
fn multiline_insert_splits_on_newlines() {
    let mut i = new_input(Lines::Multiple, "xy");
    i.adjust_horizontal_by_one(Direction::Forward, Selection::NotSelected);
    i.insert_string("a\nb");
    assert_eq!(i.get_content(), "xa\nby");
    assert_eq!(i.lines.len(), 2);
    assert_eq!(i.edit_point, TextPoint { line: 1, index: 1 });
}

#[test]
fn get_selection_text_is_none_when_empty() {
    let mut i = new_input(Lines::Single, "abc");
    assert_eq!(i.get_selection_text(), None);
    i.set_selection_range(1, 1, SelectionDirection::Forward);
    assert_eq!(i.get_selection_text(), None);
    i.set_selection_range(1, 2, SelectionDirection::Forward);
    assert_eq!(i.get_selection_text(), Some(String::from("b")));
}

#[test]
fn selection_range_clamps_to_char_boundaries() {
    // offset 2 falls inside the two-byte character and snaps down to 1
    let mut i = new_input(Lines::Single, "a\u{E9}b");
    i.set_selection_range(0, 2, SelectionDirection::Forward);
    assert_eq!(i.selection_start_offset(), 0);
    assert_eq!(i.selection_end_offset(), 1);
    i.set_selection_range(2, 3, SelectionDirection::Forward);
    assert_eq!(i.selection_start_offset(), 1);
    assert_eq!(i.selection_end_offset(), 3);
}

#[test]
fn set_content_clears_selection_and_direction() {
    let mut i = new_input(Lines::Single, "abcdef");
    i.set_selection_range(1, 4, SelectionDirection::Forward);
    assert_eq!(i.selection_direction, SelectionDirection::Forward);
    i.set_content("xyz", true);
    assert!(!i.has_selection());
    assert_eq!(i.selection_direction, SelectionDirection::NoDirection);
}

#[test]
fn new_keeps_the_initial_selection_direction() {
    let i = TextInput::new(
        Lines::Single,
        "abc",
        TestClipboard { content: String::new() },
        None,
        None,
        SelectionDirection::Backward,
    );
    assert_eq!(i.selection_direction, SelectionDirection::Backward);
    assert!(!i.has_selection());
}
