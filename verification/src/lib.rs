//! A streaming viewer for JSON Lines files: the verified core.
//!
//! The modules hold the logic of the viewer: the selection of lines (head,
//! range, tail, random samples), the parsing of entries as JSON (through
//! serde_json), the truncation of long JSON strings and their pretty-printing,
//! the rendering of the selected lines, and the command-line grammar. Reading
//! the file and printing are done by the program around this library.

pub mod cli;
pub mod json;
pub mod lines;
pub mod locate;
pub mod render;
pub mod sample;
pub mod tail;
pub mod text;

use vstd::prelude::*;

verus! {

/// How the selected lines are printed.
#[derive(Clone, Copy, Debug, PartialEq, Eq)]
pub struct OutputOptions {
    /// `Some(gap)`: pretty-print each entry as JSON, with `gap` blank lines
    /// between entries; `None`: print the lines as they are.
    pub pretty: Option<usize>,
    /// When pretty-printing, strings longer than this many characters are cut
    /// (0: never).
    pub max_chars: usize,
    /// Whether each entry is prefixed with `[line N]`.
    pub show_line_numbers: bool,
}

/// One line picked from the file: its one-based number, where known, and its
/// text without the line ending.
#[derive(Clone, Debug, PartialEq, Eq)]
pub struct SelectedLine {
    pub line_number: Option<usize>,
    pub content: String,
}

/// The mathematical value of a [`SelectedLine`].
pub struct SelectedLineModel {
    pub line_number: Option<usize>,
    pub content: Seq<char>,
}

impl View for SelectedLine {
    type V = SelectedLineModel;

    open spec fn view(&self) -> SelectedLineModel {
        SelectedLineModel { line_number: self.line_number, content: self.content@ }
    }
}

/// Why a request for lines was refused.
#[derive(Clone, Copy, Debug, PartialEq, Eq)]
pub enum JlvError {
    /// The number of lines asked for is 0.
    CountNotPositive,
    /// A line read from the file is not UTF-8.
    InvalidUtf8,
}

impl JlvError {
    /// The message that the program prints for this error.
    pub fn message(&self) -> (res: String)
        ensures
            res@ == match self {
                JlvError::CountNotPositive => "count must be greater than 0"@,
                JlvError::InvalidUtf8 => "stream did not contain valid UTF-8"@,
            },
    {
        match self {
            JlvError::CountNotPositive => String::from_str("count must be greater than 0"),
            JlvError::InvalidUtf8 => String::from_str("stream did not contain valid UTF-8"),
        }
    }
}

/// Refuses a count of 0.
pub fn ensure_positive(value: usize) -> (res: Result<(), JlvError>)
    ensures
        res is Err <==> value == 0,
        res is Err ==> res == Err::<(), JlvError>(JlvError::CountNotPositive),
{
    if value == 0 {
        return Err(JlvError::CountNotPositive);
    }
    Ok(())
}

} // verus!
