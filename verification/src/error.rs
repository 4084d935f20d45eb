use vstd::prelude::*;

verus! {

/// Failures surfaced by the format engine.
///
/// The first three report a malformed format code and are never silently
/// repaired; `Unformattable` reports a value that cannot be matched to the
/// selected section (a text value reaching a placeholder-bearing section) and
/// is recoverable: the caller falls back to the raw value.
#[derive(Debug, Clone, Copy, PartialEq, Eq, Structural)]
pub enum FormatError {
    /// A double-quoted literal run is never closed.
    UnbalancedQuote,
    /// A bracketed directive is never closed.
    UnbalancedBracket,
    /// A backslash escape stands at the very end of a section.
    DanglingEscape,
    /// The value cannot be rendered against the selected section.
    Unformattable,
}

impl FormatError {
    /// A short human-readable description of the failure.
    pub fn describe(&self) -> (r: &'static str)
        ensures
            r@ == match self {
                FormatError::UnbalancedQuote => "unbalanced quote in format code"@,
                FormatError::UnbalancedBracket => "unbalanced bracket in format code"@,
                FormatError::DanglingEscape => "dangling escape in format code"@,
                FormatError::Unformattable => "value cannot be formatted by this section"@,
            },
    {
        match self {
            FormatError::UnbalancedQuote => "unbalanced quote in format code",
            FormatError::UnbalancedBracket => "unbalanced bracket in format code",
            FormatError::DanglingEscape => "dangling escape in format code",
            FormatError::Unformattable => "value cannot be formatted by this section",
        }
    }
}

} // verus!
