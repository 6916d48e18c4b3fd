//! The keyboard dispatch table: one pure decision function from a decoded
//! key event and the platform to an editing action, and the handler that
//! carries the action out.

use vstd::prelude::*;

use crate::clipboard::ClipboardProvider;
use crate::input::TextInput;
use crate::types::{Direction, Selection, SelectionDirection, TextPoint};

verus! {

broadcast use vstd::seq::group_seq_axioms, vstd::seq_lib::group_seq_lib_default;

/// Symbolic key identities the dispatcher distinguishes; any other key maps
/// to `Other`.
#[derive(Clone, Copy, PartialEq, Eq, Structural)]
pub enum Key {
    A,
    B,
    C,
    E,
    F,
    V,
    Delete,
    Backspace,
    Left,
    Right,
    Up,
    Down,
    Enter,
    KpEnter,
    Home,
    End,
    PageUp,
    PageDown,
    Other,
}

/// The modifier set accompanying a key event.
#[derive(Clone, Copy, PartialEq, Eq, Structural)]
pub struct Modifiers {
    pub shift: bool,
    pub control: bool,
    pub alt: bool,
    pub meta: bool,
}

/// The host platform, deciding which modifier is the primary one.
#[derive(Clone, Copy, PartialEq, Eq, Structural)]
pub enum Platform {
    Mac,
    Other,
}

/// Resulting action to be taken by the owner of a text input that is
/// handling an event.
#[derive(Clone, Copy, Debug, PartialEq, Eq, Structural)]
pub enum KeyReaction {
    TriggerDefaultAction,
    DispatchInput,
    RedrawSelection,
    Nothing,
}

/// The editing action a key event selects.
#[derive(Clone, Copy, PartialEq, Eq, Structural)]
pub enum KeyBinding {
    WordMove(Direction),
    LineEndMove(Direction),
    SelectAll,
    CopySelection,
    PasteClipboard,
    InsertChar(char),
    DeleteChar(Direction),
    GraphemeMove(Direction),
    LimitMove(Direction),
    VerticalMove(isize),
    ReturnKey,
    HomeKey,
    EndKey,
    NoBinding,
}

/// Whether the event carries the platform's primary modifier, exclusive of
/// the other two non-shift modifiers: command on the Mac-like platform,
/// control elsewhere.
pub open spec fn spec_is_control_key(platform: Platform, mods: Modifiers) -> bool {
    match platform {
        Platform::Mac => mods.meta && !mods.control && !mods.alt,
        Platform::Other => mods.control && !mods.meta && !mods.alt,
    }
}

/// Exactly the control held, with no other modifier.
pub open spec fn spec_control_only(mods: Modifiers) -> bool {
    mods.control && !mods.shift && !mods.alt && !mods.meta
}

/// The dispatch table: the first matching row decides.
pub open spec fn binding_spec(
    printable: Option<char>,
    key: Key,
    mods: Modifiers,
    platform: Platform,
) -> KeyBinding {
    if key is B && mods.control && mods.alt {
        KeyBinding::WordMove(Direction::Backward)
    } else if key is F && mods.control && mods.alt {
        KeyBinding::WordMove(Direction::Forward)
    } else if key is A && mods.control && mods.alt {
        KeyBinding::LineEndMove(Direction::Backward)
    } else if key is E && mods.control && mods.alt {
        KeyBinding::LineEndMove(Direction::Forward)
    } else if platform is Mac && printable is None && key is A && spec_control_only(mods) {
        KeyBinding::LineEndMove(Direction::Backward)
    } else if platform is Mac && printable is None && key is E && spec_control_only(mods) {
        KeyBinding::LineEndMove(Direction::Forward)
    } else if key is A && spec_is_control_key(platform, mods) {
        KeyBinding::SelectAll
    } else if key is C && spec_is_control_key(platform, mods) {
        KeyBinding::CopySelection
    } else if key is V && spec_is_control_key(platform, mods) {
        KeyBinding::PasteClipboard
    } else if printable is Some {
        KeyBinding::InsertChar(printable->Some_0)
    } else if key is Delete {
        KeyBinding::DeleteChar(Direction::Forward)
    } else if key is Backspace {
        KeyBinding::DeleteChar(Direction::Backward)
    } else if platform is Mac && key is Left && mods.meta {
        KeyBinding::LineEndMove(Direction::Backward)
    } else if platform is Mac && key is Right && mods.meta {
        KeyBinding::LineEndMove(Direction::Forward)
    } else if platform is Mac && key is Up && mods.meta {
        KeyBinding::LimitMove(Direction::Backward)
    } else if platform is Mac && key is Down && mods.meta {
        KeyBinding::LimitMove(Direction::Forward)
    } else if key is Left && mods.alt {
        KeyBinding::WordMove(Direction::Backward)
    } else if key is Right && mods.alt {
        KeyBinding::WordMove(Direction::Forward)
    } else if key is Left {
        KeyBinding::GraphemeMove(Direction::Backward)
    } else if key is Right {
        KeyBinding::GraphemeMove(Direction::Forward)
    } else if key is Up {
        KeyBinding::VerticalMove((-1) as isize)
    } else if key is Down {
        KeyBinding::VerticalMove(1 as isize)
    } else if key is Enter || key is KpEnter {
        KeyBinding::ReturnKey
    } else if key is Home {
        KeyBinding::HomeKey
    } else if key is End {
        KeyBinding::EndKey
    } else if key is PageUp {
        KeyBinding::VerticalMove((-28) as isize)
    } else if key is PageDown {
        KeyBinding::VerticalMove(28 as isize)
    } else {
        KeyBinding::NoBinding
    }
}

/// The reaction each action reports to the host.
pub open spec fn reaction_spec(b: KeyBinding, multiline: bool) -> KeyReaction {
    match b {
        KeyBinding::WordMove(_) => KeyReaction::RedrawSelection,
        KeyBinding::LineEndMove(_) => KeyReaction::RedrawSelection,
        KeyBinding::SelectAll => KeyReaction::RedrawSelection,
        KeyBinding::CopySelection => KeyReaction::DispatchInput,
        KeyBinding::PasteClipboard => KeyReaction::DispatchInput,
        KeyBinding::InsertChar(_) => KeyReaction::DispatchInput,
        KeyBinding::DeleteChar(_) => KeyReaction::DispatchInput,
        KeyBinding::GraphemeMove(_) => KeyReaction::RedrawSelection,
        KeyBinding::LimitMove(_) => KeyReaction::RedrawSelection,
        KeyBinding::VerticalMove(_) => KeyReaction::RedrawSelection,
        KeyBinding::ReturnKey => if multiline {
            KeyReaction::DispatchInput
        } else {
            KeyReaction::TriggerDefaultAction
        },
        KeyBinding::HomeKey => KeyReaction::RedrawSelection,
        KeyBinding::EndKey => KeyReaction::RedrawSelection,
        KeyBinding::NoBinding => KeyReaction::Nothing,
    }
}

/// Whether the event carries the platform's primary modifier.
pub fn is_control_key(platform: Platform, mods: Modifiers) -> (r: bool)
    ensures
        r == spec_is_control_key(platform, mods),
{
    match platform {
        Platform::Mac => mods.meta && !mods.control && !mods.alt,
        Platform::Other => mods.control && !mods.meta && !mods.alt,
    }
}

/// Select the editing action for a key event, by the dispatch table.
pub fn key_binding(
    printable: Option<char>,
    key: Key,
    mods: Modifiers,
    platform: Platform,
) -> (r: KeyBinding)
    ensures
        r == binding_spec(printable, key, mods, platform),
{
    let ctrl_alt = mods.control && mods.alt;
    let primary = is_control_key(platform, mods);
    let ctrl_only = mods.control && !mods.shift && !mods.alt && !mods.meta;
    if key == Key::B && ctrl_alt {
        KeyBinding::WordMove(Direction::Backward)
    } else if key == Key::F && ctrl_alt {
        KeyBinding::WordMove(Direction::Forward)
    } else if key == Key::A && ctrl_alt {
        KeyBinding::LineEndMove(Direction::Backward)
    } else if key == Key::E && ctrl_alt {
        KeyBinding::LineEndMove(Direction::Forward)
    } else if platform == Platform::Mac && printable.is_none() && key == Key::A && ctrl_only {
        KeyBinding::LineEndMove(Direction::Backward)
    } else if platform == Platform::Mac && printable.is_none() && key == Key::E && ctrl_only {
        KeyBinding::LineEndMove(Direction::Forward)
    } else if key == Key::A && primary {
        KeyBinding::SelectAll
    } else if key == Key::C && primary {
        KeyBinding::CopySelection
    } else if key == Key::V && primary {
        KeyBinding::PasteClipboard
    } else if let Some(c) = printable {
        KeyBinding::InsertChar(c)
    } else if key == Key::Delete {
        KeyBinding::DeleteChar(Direction::Forward)
    } else if key == Key::Backspace {
        KeyBinding::DeleteChar(Direction::Backward)
    } else if platform == Platform::Mac && key == Key::Left && mods.meta {
        KeyBinding::LineEndMove(Direction::Backward)
    } else if platform == Platform::Mac && key == Key::Right && mods.meta {
        KeyBinding::LineEndMove(Direction::Forward)
    } else if platform == Platform::Mac && key == Key::Up && mods.meta {
        KeyBinding::LimitMove(Direction::Backward)
    } else if platform == Platform::Mac && key == Key::Down && mods.meta {
        KeyBinding::LimitMove(Direction::Forward)
    } else if key == Key::Left && mods.alt {
        KeyBinding::WordMove(Direction::Backward)
    } else if key == Key::Right && mods.alt {
        KeyBinding::WordMove(Direction::Forward)
    } else if key == Key::Left {
        KeyBinding::GraphemeMove(Direction::Backward)
    } else if key == Key::Right {
        KeyBinding::GraphemeMove(Direction::Forward)
    } else if key == Key::Up {
        KeyBinding::VerticalMove(-1)
    } else if key == Key::Down {
        KeyBinding::VerticalMove(1)
    } else if key == Key::Enter || key == Key::KpEnter {
        KeyBinding::ReturnKey
    } else if key == Key::Home {
        KeyBinding::HomeKey
    } else if key == Key::End {
        KeyBinding::EndKey
    } else if key == Key::PageUp {
        KeyBinding::VerticalMove(-28)
    } else if key == Key::PageDown {
        KeyBinding::VerticalMove(28)
    } else {
        KeyBinding::NoBinding
    }
}

/// What pressing Home or End leaves on the non-Mac-like platform: the caret
/// at the edge of its line, the selection untouched, the direction
/// reconciled; on the Mac-like platform nothing (those edges ride on the
/// primary-modifier arrow rows there).
pub open spec fn line_edge_post<T: ClipboardProvider>(
    pre: TextInput<T>,
    platform: Platform,
    to_end: bool,
    post: TextInput<T>,
) -> bool {
    match platform {
        Platform::Mac => post == pre,
        Platform::Other => {
            let idx: int = if to_end {
                pre.lines_view()[pre.edit_point.line as int].len() as int
            } else {
                0
            };
            let ep = TextPoint { line: pre.edit_point.line, index: idx as usize };
            post == (TextInput {
                edit_point: ep,
                selection_direction: crate::input::normalized_direction(
                    pre.selection_direction,
                    pre.selection_origin,
                    ep,
                ),
                ..pre
            })
        },
    }
}

impl<T: ClipboardProvider> TextInput<T> {
    /// What carrying out each key binding leaves behind, in terms of the
    /// operations' own post-state relations; the shift state selects
    /// whether navigation anchors the selection.
    pub open spec fn binding_post(
        self,
        b: KeyBinding,
        select: Selection,
        platform: Platform,
        post: TextInput<T>,
    ) -> bool {
        match b {
            KeyBinding::WordMove(d) => self.by_word_post(d, select, post),
            KeyBinding::LineEndMove(d) => self.line_end_post(d, select, post),
            KeyBinding::SelectAll => self.select_all_post(post),
            KeyBinding::CopySelection => post == (TextInput {
                clipboard_provider: post.clipboard_provider,
                ..self
            }),
            KeyBinding::PasteClipboard => exists|s: Seq<char>|
                (TextInput {
                    clipboard_provider: post.clipboard_provider,
                    ..self
                }).with_insertion_point().replace_post(s, post),
            KeyBinding::InsertChar(c) => self.with_insertion_point().replace_post(seq![c], post),
            KeyBinding::DeleteChar(d) => self.delete_post(d, post),
            KeyBinding::GraphemeMove(d) => self.by_one_post(d, select, post),
            KeyBinding::LimitMove(d) => self.limit_post(d, select, true, post),
            KeyBinding::VerticalMove(n) => self.vertical_post(n, select, post),
            KeyBinding::ReturnKey => if self.multiline {
                self.with_insertion_point().replace_post(seq!['\n'], post)
            } else {
                post == self
            },
            KeyBinding::HomeKey => line_edge_post(self, platform, false, post),
            KeyBinding::EndKey => line_edge_post(self, platform, true, post),
            KeyBinding::NoBinding => post == self,
        }
    }

    /// Deal with a newline input: insert the newline in a multiline
    /// control, hand the event back to the host otherwise.
    pub fn handle_return(&mut self) -> (r: KeyReaction)
        requires
            old(self).wf(),
        ensures
            final(self).wf(),
            !old(self).multiline ==> r == KeyReaction::TriggerDefaultAction && *final(self) == *old(self),
            old(self).multiline ==> r == KeyReaction::DispatchInput && old(self).with_insertion_point().replace_post(seq!['\n'], *final(self)),
    {
        if !self.multiline {
            KeyReaction::TriggerDefaultAction
        } else {
            self.insert_char('\n');
            KeyReaction::DispatchInput
        }
    }

    /// Process one decoded key event: select the action by the dispatch
    /// table, carry it out, and report the reaction the host should take.
    pub fn handle_keydown_aux(
        &mut self,
        printable: Option<char>,
        key: Key,
        mods: Modifiers,
        platform: Platform,
    ) -> (r: KeyReaction)
        requires
            old(self).wf(),
        ensures
            final(self).wf(),
            r == reaction_spec(
                binding_spec(printable, key, mods, platform),
                old(self).multiline,
            ),
            old(self).binding_post(
                binding_spec(printable, key, mods, platform),
                if mods.shift {
                    Selection::Selected
                } else {
                    Selection::NotSelected
                },
                platform,
                *final(self),
            ),
            !(binding_spec(printable, key, mods, platform) is PasteClipboard || binding_spec(
                printable,
                key,
                mods,
                platform,
            ) is InsertChar || binding_spec(printable, key, mods, platform) is DeleteChar
                || binding_spec(printable, key, mods, platform) is ReturnKey) ==> final(self).lines == old(self).lines,
    {
        let maybe_select = if mods.shift {
            Selection::Selected
        } else {
            Selection::NotSelected
        };
        let b = key_binding(printable, key, mods, platform);
        match b {
            KeyBinding::WordMove(d) => {
                self.adjust_horizontal_by_word(d, maybe_select);
                KeyReaction::RedrawSelection
            },
            KeyBinding::LineEndMove(d) => {
                self.adjust_horizontal_to_line_end(d, maybe_select);
                KeyReaction::RedrawSelection
            },
            KeyBinding::SelectAll => {
                self.select_all();
                KeyReaction::RedrawSelection
            },
            KeyBinding::CopySelection => {
                let text = self.get_selection_text();
                match text {
                    Some(text) => self.clipboard_provider.set_clipboard_contents(text),
                    None => {},
                }
                KeyReaction::DispatchInput
            },
            KeyBinding::PasteClipboard => {
                let contents = self.clipboard_provider.clipboard_contents();
                let ghost mid = *self;
                self.insert_string(contents.as_str());
                proof {
                    assert(mid.with_insertion_point().replace_post(contents@, *self));
                }
                KeyReaction::DispatchInput
            },
            KeyBinding::InsertChar(c) => {
                self.insert_char(c);
                KeyReaction::DispatchInput
            },
            KeyBinding::DeleteChar(d) => {
                self.delete_char(d);
                KeyReaction::DispatchInput
            },
            KeyBinding::GraphemeMove(d) => {
                self.adjust_horizontal_by_one(d, maybe_select);
                KeyReaction::RedrawSelection
            },
            KeyBinding::LimitMove(d) => {
                self.adjust_horizontal_to_limit(d, maybe_select, true);
                KeyReaction::RedrawSelection
            },
            KeyBinding::VerticalMove(n) => {
                self.adjust_vertical(n, maybe_select);
                KeyReaction::RedrawSelection
            },
            KeyBinding::ReturnKey => self.handle_return(),
            KeyBinding::HomeKey => {
                match platform {
                    Platform::Other => {
                        proof {
                            self.lemma_selection_invariants();
                        }
                        self.edit_point = TextPoint { line: self.edit_point.line, index: 0 };
                        self.normalize_direction();
                        proof {
                            assert(vstd::utf8::is_char_boundary(
                                self.lines_view()[self.edit_point.line as int],
                                0,
                            ));
                            crate::input::lemma_normalized_ok(
                                self.selection_direction,
                                self.selection_origin,
                                self.edit_point,
                            );
                        }
                    },
                    Platform::Mac => {},
                }
                KeyReaction::RedrawSelection
            },
            KeyBinding::EndKey => {
                match platform {
                    Platform::Other => {
                        proof {
                            self.lemma_selection_invariants();
                        }
                        let ll = self.current_line_length();
                        self.edit_point = TextPoint { line: self.edit_point.line, index: ll };
                        self.normalize_direction();
                        proof {
                            vstd::utf8::is_char_boundary_start_end_of_seq(
                                self.lines_view()[self.edit_point.line as int],
                            );
                            crate::input::lemma_normalized_ok(
                                self.selection_direction,
                                self.selection_origin,
                                self.edit_point,
                            );
                        }
                    },
                    Platform::Mac => {},
                }
                KeyReaction::RedrawSelection
            },
            KeyBinding::NoBinding => KeyReaction::Nothing,
        }
    }
}

} // verus!
