use vstd::prelude::*;

verus! {

/// Whether a character beyond ASCII counts as whitespace, exactly as
/// `char::is_whitespace` decides it there (Unicode `White_Space`).
pub uninterp spec fn is_white_beyond_ascii(c: char) -> bool;

/// Whether a character beyond ASCII is alphabetic, exactly as
/// `char::is_alphabetic` decides it there (Unicode `Alphabetic`).
pub uninterp spec fn is_alpha_beyond_ascii(c: char) -> bool;

/// Whitespace as `char::is_whitespace` classifies it. Within ASCII the
/// Unicode `White_Space` property holds of the horizontal tab, the line
/// feed, the vertical tab, the form feed, the carriage return and the
/// space, and of nothing else.
pub open spec fn is_white(c: char) -> bool {
    if (c as u32) < 128 {
        c as u32 == 9 || c as u32 == 10 || c as u32 == 11 || c as u32 == 12 || c as u32 == 13
            || c as u32 == 32
    } else {
        is_white_beyond_ascii(c)
    }
}

/// Alphabetic as `char::is_alphabetic` classifies it. Within ASCII the
/// Unicode `Alphabetic` property holds exactly of the letters `A` to `Z`
/// and `a` to `z`.
pub open spec fn is_alpha(c: char) -> bool {
    if (c as u32) < 128 {
        (65 <= c as u32 && c as u32 <= 90) || (97 <= c as u32 && c as u32 <= 122)
    } else {
        is_alpha_beyond_ascii(c)
    }
}

/// Relies on `char::is_whitespace`: true exactly for the characters
/// with the Unicode `White_Space` property, which within ASCII are the
/// six listed in [`is_white`].
pub assume_specification[ char::is_whitespace ](c: char) -> (r: bool)
    ensures
        r == is_white(c),
        (c as u32) >= 128 ==> r == is_white_beyond_ascii(c),
;

/// Relies on `char::is_alphabetic`: true exactly for the characters
/// with the Unicode `Alphabetic` property, which within ASCII are the
/// letters alone.
pub assume_specification[ char::is_alphabetic ](c: char) -> (r: bool)
    ensures
        r == is_alpha(c),
        (c as u32) >= 128 ==> r == is_alpha_beyond_ascii(c),
;

} // verus!
