use vstd::prelude::*;

verus! {

/// Why sanitizing or fragmenting failed.
#[derive(Debug, Clone, Copy, PartialEq, Eq, Structural)]
pub enum ParseError {
    /// The input ended inside a quoted string.
    UnterminatedString,
    /// A placeholder marker was not followed by a name.
    MissingPlaceholderName,
    /// The sanitized text is not valid UTF-8.
    InvalidUtf8,
}

/// Assembly met a placeholder that the replacement table does not name.
#[derive(Debug, PartialEq, Eq)]
pub struct MissingReplacement {
    /// The name of the placeholder.
    pub name: String,
}

} // verus!
