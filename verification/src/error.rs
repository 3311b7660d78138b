//! Typed errors for template processing, reported with the 0-based line
//! index they occurred on.

use vstd::prelude::*;

verus! {

/// Spec-level image of [`Error`], with payloads as character sequences.
pub enum SpecError {
    LeadingContent(Seq<char>),
    TrailingContent(Seq<char>),
    EndTagWithData(Seq<char>),
    StartTagWithoutData,
    ReentrantFragment(Seq<char>),
    UnclosedTag(Seq<char>),
    UnbalancedEndTag,
    InvalidFragmentName(Seq<char>),
    UnnamedBlock,
    MultipleNamesBlock(Seq<char>),
}

/// Errors that can occur during processing.
#[derive(Debug, Clone, PartialEq, Eq)]
pub enum Error {
    /// Non-whitespace content before the fragment tag
    LeadingContent(String),
    /// Non-whitespace content after the fragment tag
    TrailingContent(String),
    /// Endfragment tag with fragment names
    EndTagWithData(String),
    /// Fragment tag without names
    StartTagWithoutData,
    /// Fragment tag with a fragment that is already active
    ReentrantFragment(String),
    /// Tag without end tag
    UnclosedTag(String),
    /// End tag without corresponding start
    UnbalancedEndTag,
    /// Reserved fragment names (at the moment only `block`) or invalid characters
    InvalidFragmentName(String),
    /// A block fragment without a name
    UnnamedBlock,
    /// A block fragment with too many names
    MultipleNamesBlock(String),
}

impl View for Error {
    type V = SpecError;

    open spec fn view(&self) -> SpecError {
        match self {
            Error::LeadingContent(s) => SpecError::LeadingContent(s@),
            Error::TrailingContent(s) => SpecError::TrailingContent(s@),
            Error::EndTagWithData(s) => SpecError::EndTagWithData(s@),
            Error::StartTagWithoutData => SpecError::StartTagWithoutData,
            Error::ReentrantFragment(s) => SpecError::ReentrantFragment(s@),
            Error::UnclosedTag(s) => SpecError::UnclosedTag(s@),
            Error::UnbalancedEndTag => SpecError::UnbalancedEndTag,
            Error::InvalidFragmentName(s) => SpecError::InvalidFragmentName(s@),
            Error::UnnamedBlock => SpecError::UnnamedBlock,
            Error::MultipleNamesBlock(s) => SpecError::MultipleNamesBlock(s@),
        }
    }
}

impl Error {
    /// Attach the 0-based line index the error occurred on.
    pub fn at(self, line: usize) -> (r: ErrorWithLine)
        ensures
            r.0 == line,
            r.1 == self,
    {
        ErrorWithLine(line, self)
    }
}

/// An error with the 0-based line of the template it occurred on.
#[derive(Debug, Clone, PartialEq, Eq)]
pub struct ErrorWithLine(pub usize, pub Error);

impl View for ErrorWithLine {
    type V = (int, SpecError);

    open spec fn view(&self) -> (int, SpecError) {
        (self.0 as int, self.1@)
    }
}

} // verus!
