//! Plain data types shared by the text-input state: caret positions,
//! selection status and direction, and line-mode flags.

use vstd::prelude::*;
use vstd::string::StringExecFns;

verus! {

/// Whether a navigation action extends the selection (shift held) or not.
#[derive(Clone, Copy, PartialEq, Eq, Structural)]
pub enum Selection {
    Selected,
    NotSelected,
}

/// Direction of the active selection relative to its origin.
#[derive(Clone, Copy, Debug, PartialEq, Eq, Structural)]
pub enum SelectionDirection {
    Forward,
    Backward,
    NoDirection,
}

impl SelectionDirection {
    /// Parse the attribute value: `"forward"` and `"backward"` name their
    /// directions, anything else means no direction.
    pub fn from_string(s: &String) -> (r: SelectionDirection)
        ensures
            r == (if s@ == "forward"@ {
                SelectionDirection::Forward
            } else if s@ == "backward"@ {
                SelectionDirection::Backward
            } else {
                SelectionDirection::NoDirection
            }),
    {
        let forward = String::from_str("forward");
        let backward = String::from_str("backward");
        if *s == forward {
            SelectionDirection::Forward
        } else if *s == backward {
            SelectionDirection::Backward
        } else {
            SelectionDirection::NoDirection
        }
    }

    /// The attribute value naming this direction.
    pub fn to_string_value(self) -> (r: String)
        ensures
            r@ == (match self {
                SelectionDirection::Forward => "forward"@,
                SelectionDirection::Backward => "backward"@,
                SelectionDirection::NoDirection => "none"@,
            }),
    {
        match self {
            SelectionDirection::Forward => String::from_str("forward"),
            SelectionDirection::Backward => String::from_str("backward"),
            SelectionDirection::NoDirection => String::from_str("none"),
        }
    }
}

/// Control whether this control should allow multiple lines.
#[derive(Clone, Copy, PartialEq, Eq, Structural)]
pub enum Lines {
    Single,
    Multiple,
}

/// The direction in which to delete a character or move the caret.
#[derive(Clone, Copy, PartialEq, Eq, Structural)]
pub enum Direction {
    Forward,
    Backward,
}

/// A caret position: 0-based line number and 0-based byte offset within
/// that line.
#[derive(Clone, Copy, Debug, PartialEq, Eq, Structural)]
pub struct TextPoint {
    /// 0-based line number
    pub line: usize,
    /// 0-based column number in UTF-8 bytes
    pub index: usize,
}

impl TextPoint {
    /// Lexicographic order by (line, index).
    pub open spec fn spec_le(self, other: TextPoint) -> bool {
        self.line < other.line || (self.line == other.line && self.index <= other.index)
    }

    /// Compare two positions in lexicographic (line, index) order.
    pub fn le(&self, other: &TextPoint) -> (r: bool)
        ensures
            r == self.spec_le(*other),
    {
        self.line < other.line || (self.line == other.line && self.index <= other.index)
    }
}

impl Default for TextPoint {
    /// The origin of the buffer: line 0, byte 0.
    fn default() -> (r: TextPoint)
        ensures
            r.line == 0,
            r.index == 0,
    {
        TextPoint { line: 0, index: 0 }
    }
}

/// Snapshot of the selection for host-side change detection.
#[derive(Clone, Copy, PartialEq, Eq, Structural)]
pub struct SelectionState {
    pub start: TextPoint,
    pub end: TextPoint,
    pub direction: SelectionDirection,
}

} // verus!
