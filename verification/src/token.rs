use vstd::prelude::*;

verus! {

/// The category code assigned to an input byte, governing its lexical role.
#[derive(Debug, Clone, Copy, PartialEq, Eq, Structural)]
pub enum TokenType {
    /// Starts a control sequence; also the category of every emitted
    /// control-sequence token (including the synthetic paragraph break).
    Escape,
    BeginGroup,
    EndGroup,
    MathShift,
    AlignTab,
    /// End of a line; the cursor synthesizes exactly one per input line.
    Eol,
    Parameter,
    /// May introduce the `^^` raw-character notation.
    Superscript,
    Subscript,
    /// Dropped silently, with no token and no state change.
    Ignored,
    Space,
    Letter,
    Other,
    Active,
    /// Starts a comment that runs up to the next end of line.
    Comment,
    /// Dropped after its position is recorded on the diagnostics list.
    Invalid,
}

/// A half-open byte interval into the input handed to [`crate::lexer::Lexer::new`].
/// `0..0` marks a token with no textual origin (the synthesized paragraph break).
#[derive(Debug, Clone, Copy, PartialEq, Eq, Structural)]
pub struct Span {
    pub start: usize,
    pub end: usize,
}

/// One token of the output stream: its category, the input bytes it came
/// from, and its resolved text (escape-decoded, or an accumulated
/// control-word name, where those apply).
#[derive(Debug, Clone)]
pub struct Token {
    pub typ: TokenType,
    pub range: Span,
    pub source: Vec<u8>,
}

/// The mathematical shadow of a [`Token`]: the same data over `int` and `Seq`.
pub ghost struct TokenSpec {
    pub typ: TokenType,
    pub start: int,
    pub end: int,
    pub text: Seq<u8>,
}

impl View for Token {
    type V = TokenSpec;

    open spec fn view(&self) -> TokenSpec {
        TokenSpec {
            typ: self.typ,
            start: self.range.start as int,
            end: self.range.end as int,
            text: self.source@,
        }
    }
}

} // verus!
