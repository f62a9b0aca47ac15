use vstd::prelude::*;

verus! {

/// Why the indentation of a line was refused.
#[derive(Debug, Clone, Copy, PartialEq, Eq, Structural)]
pub enum IndentError {
    /// Not all indentations use the same character sequence.
    ///
    /// Only returned if `allow_inconsistent_indents` is false.
    InconsistentIndent,
    /// The current indentation is not a continuation nor substring of the
    /// previous indentation.
    MixedIndent,
}

impl IndentError {
    /// A fixed, human-readable description of the error.
    pub fn message(&self) -> (r: &'static str)
        ensures
            *self == IndentError::InconsistentIndent ==> r@
                == "Not all indentations use the same character sequence."@,
            *self == IndentError::MixedIndent ==> r@
                == "The current indentation is not a continuation nor substring of the previous indentation."@,
    {
        match self {
            IndentError::InconsistentIndent => "Not all indentations use the same character sequence.",
            IndentError::MixedIndent => "The current indentation is not a continuation nor substring of the previous indentation.",
        }
    }
}

} // verus!
