use vstd::prelude::*;

verus! {

/// The closed set of parse failures. The second and third variants are
/// control signals: the pair step raises `CommaEndingObject` when a
/// closing brace stands where a key was expected, and the value step
/// raises `ArrayEnd` when a closing bracket stands where a value was
/// expected. Their only clean uses are inside the object and array
/// contexts; anywhere else they surface as errors, as a bare `]` at top
/// level does.
#[derive(PartialEq, Eq, Structural, Clone, Copy, Debug)]
pub enum ParseError {
    ParsingError,
    CommaEndingObject,
    ArrayEnd,
}

pub type ParseResult<T> = Result<T, ParseError>;

impl ParseError {
    /// The fixed human-readable rendering of this failure.
    pub fn message(&self) -> (m: &'static str)
        ensures
            *self is ParsingError ==> m@ == "Parse Error"@,
            *self is CommaEndingObject ==> m@ == "Comma Ending Object"@,
            *self is ArrayEnd ==> m@ == "Array End"@,
    {
        match self {
            ParseError::ParsingError => "Parse Error",
            ParseError::CommaEndingObject => "Comma Ending Object",
            ParseError::ArrayEnd => "Array End",
        }
    }
}

} // verus!
