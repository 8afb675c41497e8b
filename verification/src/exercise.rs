//! The unit of typing practice produced by an [`crate::extractor::Extractor`].

use std::ops::Range;
use vstd::prelude::*;

verus! {

/// The dominant indent unit detected in the source file. Used by the typing
/// engine to compute the expected column on auto-indent.
#[derive(Debug, Clone, Copy, PartialEq, Eq, Structural)]
pub enum IndentUnit {
    Spaces(u8),
    Tab,
}

/// A self-contained unit of typing practice extracted from a source file.
///
/// The `text` field holds the dedented, comment-stripped string the user
/// types; the other fields are metadata pointing back to the source.
#[derive(Debug, PartialEq, Eq)]
pub struct Exercise {
    pub source_path: String,
    pub byte_range: Range<usize>,
    pub text: String,
    pub indent_unit: IndentUnit,
}

/// The mathematical content of an [`Exercise`].
pub struct ExerciseView {
    pub source_path: Seq<char>,
    pub start: usize,
    pub end: usize,
    pub text: Seq<char>,
    pub indent_unit: IndentUnit,
}

impl View for Exercise {
    type V = ExerciseView;

    open spec fn view(&self) -> ExerciseView {
        ExerciseView {
            source_path: self.source_path@,
            start: self.byte_range.start,
            end: self.byte_range.end,
            text: self.text@,
            indent_unit: self.indent_unit,
        }
    }
}

/// The views of a sequence of exercises.
pub open spec fn exercise_views(s: Seq<Exercise>) -> Seq<ExerciseView> {
    s.map_values(|e: Exercise| e@)
}

impl Clone for Exercise {
    fn clone(&self) -> (r: Exercise)
        ensures
            r@ == self@,
    {
        Exercise {
            source_path: self.source_path.clone(),
            byte_range: Range { start: self.byte_range.start, end: self.byte_range.end },
            text: self.text.clone(),
            indent_unit: self.indent_unit,
        }
    }
}

} // verus!
