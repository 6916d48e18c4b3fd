//! Editable state of a single- or multi-line text control: the caret, an
//! optional selection, the line-structured content, Unicode-aware navigation
//! and a keyboard-to-action dispatch table.
//!
//! Content is kept as lines of UTF-8 bytes; caret and selection positions are
//! byte offsets that are proved to stay on character boundaries.

pub mod clipboard;
pub mod dispatch;
pub mod edit;
pub mod input;
pub mod laws;
pub mod model;
pub mod navigate;
pub mod segment;
pub mod types;
pub mod unicode;

pub use clipboard::ClipboardProvider;
pub use dispatch::{Key, KeyBinding, KeyReaction, Modifiers, Platform};
pub use input::TextInput;
pub use types::{Direction, Lines, Selection, SelectionDirection, SelectionState, TextPoint};
pub use unicode::{len_of_first_n_chars, len_of_first_n_code_units};
