use vstd::prelude::*;

verus! {

/// One lexical unit, produced by the tokenizer and consumed at once by
/// the tree builder.
#[derive(PartialEq, Clone, Debug)]
pub enum Token {
    /// Unrecognized input. Lexical anomalies funnel into this token; the
    /// tree builder turns it into an error.
    Illegal,
    /// End of the stream; returned again on every further request.
    EOF,
    /// A string literal, without its quotes, read verbatim.
    String(String),
    /// An integer literal: decimal digits without sign, fraction or
    /// exponent.
    Int(i32),
    /// `true` or `false`.
    Boolean(bool),
    Comma,
    /// The colon between a key and its value.
    DoubleDot,
    LBracket,
    RBracket,
    LBraces,
    RBraces,
}

/// A token as the specification sees it: text as a character sequence,
/// the integer unbounded.
pub enum Tok {
    Illegal,
    EOF,
    Str(Seq<char>),
    Int(int),
    Bool(bool),
    Comma,
    DoubleDot,
    LBracket,
    RBracket,
    LBraces,
    RBraces,
}

impl View for Token {
    type V = Tok;

    open spec fn view(&self) -> Tok {
        match self {
            Token::Illegal => Tok::Illegal,
            Token::EOF => Tok::EOF,
            Token::String(s) => Tok::Str(s@),
            Token::Int(n) => Tok::Int(*n as int),
            Token::Boolean(b) => Tok::Bool(*b),
            Token::Comma => Tok::Comma,
            Token::DoubleDot => Tok::DoubleDot,
            Token::LBracket => Tok::LBracket,
            Token::RBracket => Tok::RBracket,
            Token::LBraces => Tok::LBraces,
            Token::RBraces => Tok::RBraces,
        }
    }
}

} // verus!
