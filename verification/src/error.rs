//! The ways in which processing a book can fail.

use vstd::prelude::*;

verus! {

/// Why a book could not be processed.
#[derive(Debug, PartialEq, Eq)]
pub enum ProcessorError {
    /// A placeholder names a chapter that the book does not have. Holds the
    /// name as it was looked up, in lowercase.
    ChapterNotFound(String),
    /// Two chapters have the same name but for case, and strict mode is on.
    /// Holds the name they share, in lowercase.
    DuplicateChapterNames(String),
    /// The reference of a placeholder holds more than one `#`.
    MalformedReference,
}

/// The model of a [`ProcessorError`]: the same cases, over characters.
pub ghost enum Failure {
    ChapterNotFound(Seq<char>),
    DuplicateChapterNames(Seq<char>),
    MalformedReference,
}

impl View for ProcessorError {
    type V = Failure;

    open spec fn view(&self) -> Failure {
        match self {
            ProcessorError::ChapterNotFound(name) => Failure::ChapterNotFound(name@),
            ProcessorError::DuplicateChapterNames(name) => Failure::DuplicateChapterNames(name@),
            ProcessorError::MalformedReference => Failure::MalformedReference,
        }
    }
}

impl ProcessorError {
    /// The message that tells a reader of the diagnostics what went wrong.
    pub fn message(&self) -> (text: String)
        ensures
            text@ == message_of(self@),
    {
        match self {
            ProcessorError::ChapterNotFound(name) => {
                let text = String::from_str(
                    "Error: Found request to replace link with '",
                ).concat(name.as_str()).concat("', but no chapter with that name found.");
                text
            },
            ProcessorError::DuplicateChapterNames(name) => {
                String::from_str("Error: Found duplicate chapter name ").concat(name.as_str())
            },
            ProcessorError::MalformedReference => String::from_str(
                "Invalid link parsed: Multiple '#'s detected",
            ),
        }
    }
}

/// The text of [`ProcessorError::message`].
pub open spec fn message_of(failure: Failure) -> Seq<char> {
    match failure {
        Failure::ChapterNotFound(name) => "Error: Found request to replace link with '"@ + name
            + "', but no chapter with that name found."@,
        Failure::DuplicateChapterNames(name) => "Error: Found duplicate chapter name "@ + name,
        Failure::MalformedReference => "Invalid link parsed: Multiple '#'s detected"@,
    }
}

} // verus!
