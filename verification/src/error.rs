use vstd::prelude::*;

verus! {

/// The two fatal conditions the parsers can report. Malformed input is
/// rejected as a whole: no partial tree or partial stylesheet is returned.
#[derive(Clone, Copy, Debug, PartialEq, Eq, Structural)]
pub enum ParseError {
    /// The markup text violated the markup grammar: a missing delimiter,
    /// an unterminated quote, a mismatched closing tag, or a premature end
    /// of input.
    MalformedMarkup,
    /// The stylesheet text violated the stylesheet grammar: an unexpected
    /// character in a selector list, or a malformed declaration or value.
    MalformedStylesheet,
}

} // verus!
