//! The narrow clipboard capability consumed by the text input: the host
//! injects an implementation at construction.

use vstd::prelude::*;

verus! {

/// A clipboard backend: read the current clipboard text, or replace it.
pub trait ClipboardProvider {
    /// Current clipboard text.
    fn clipboard_contents(&mut self) -> String;

    /// Replace the clipboard text.
    fn set_clipboard_contents(&mut self, contents: String);
}

} // verus!
