//! The ways in which a run can fail.

use vstd::prelude::*;

verus! {

/// Why a run failed. Every failure is final: nothing is retried and no
/// output is produced.
#[derive(Clone, Copy, Debug, PartialEq, Eq, Structural)]
pub enum ReplaceError {
    /// The font that the text is measured with is not available.
    FontResolution,
    /// The input document could not be read.
    AssetRead,
    /// The input document is not well-formed XML.
    XmlParse,
    /// The document has fewer than two text leaves that are not blank.
    InsufficientTextNodes,
    /// The `width` or `viewBox` attribute is missing or not numeric.
    AttributeParse,
    /// A width does not fit the range of pixel quantities.
    NumericRange,
    /// The document could not be written out.
    Serialize,
}

impl ReplaceError {
    /// A line for the diagnostic stream.
    pub fn message(&self) -> (s: String)
        ensures
            s@ == match *self {
                ReplaceError::FontResolution => "the required font family is not available"@,
                ReplaceError::AssetRead => "the input document could not be read"@,
                ReplaceError::XmlParse => "the input document is not well-formed XML"@,
                ReplaceError::InsufficientTextNodes => "the document has fewer than two text slots"@,
                ReplaceError::AttributeParse => "the width or viewBox attribute is missing or not numeric"@,
                ReplaceError::NumericRange => "a width is out of range"@,
                ReplaceError::Serialize => "the document could not be written"@,
            },
    {
        match self {
            ReplaceError::FontResolution => "the required font family is not available".to_owned(),
            ReplaceError::AssetRead => "the input document could not be read".to_owned(),
            ReplaceError::XmlParse => "the input document is not well-formed XML".to_owned(),
            ReplaceError::InsufficientTextNodes => "the document has fewer than two text slots".to_owned(),
            ReplaceError::AttributeParse => "the width or viewBox attribute is missing or not numeric".to_owned(),
            ReplaceError::NumericRange => "a width is out of range".to_owned(),
            ReplaceError::Serialize => "the document could not be written".to_owned(),
        }
    }
}

} // verus!
