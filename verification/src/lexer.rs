use vstd::prelude::*;
use vstd::std_specs::iter::IteratorSpec;
use crate::chars::{is_alpha, is_white};
use crate::token::{Tok, Token};

verus! {

broadcast use vstd::string::group_string_axioms;

/// What one scanning step yields: the token beginning at a position,
/// and the position just past it.
pub struct Scan {
    pub tok: Tok,
    pub end: int,
}

/// The first position at or after `i` that does not hold whitespace,
/// or the length of the text.
pub open spec fn ws_end(s: Seq<char>, i: int) -> int
    decreases s.len() - i,
{
    if i < s.len() && is_white(s[i]) {
        ws_end(s, i + 1)
    } else {
        i
    }
}

/// The first position at or after `i` that holds a double quote, or the
/// length of the text.
pub open spec fn str_end(s: Seq<char>, i: int) -> int
    decreases s.len() - i,
{
    if i < s.len() && s[i] != '"' {
        str_end(s, i + 1)
    } else {
        i
    }
}

/// An ASCII decimal digit.
pub open spec fn is_digit(c: char) -> bool {
    48 <= c as u32 && c as u32 <= 57
}

/// The numeric value of one decimal digit.
pub open spec fn digit_val(c: char) -> int {
    c as u32 - 48
}

/// The first position at or after `i` that does not hold a decimal
/// digit, or the length of the text.
pub open spec fn num_end(s: Seq<char>, i: int) -> int
    decreases s.len() - i,
{
    if i < s.len() && is_digit(s[i]) {
        num_end(s, i + 1)
    } else {
        i
    }
}

/// The numeric value of a run of decimal digits.
pub open spec fn digits_val(ds: Seq<char>) -> int
    decreases ds.len(),
{
    if ds.len() == 0 {
        0
    } else {
        digits_val(ds.drop_last()) * 10 + digit_val(ds.last())
    }
}

/// Scanning a string literal whose opening quote stands at `j`: the
/// character after the quote is taken into the text unconditionally; the
/// rest runs up to the next quote (consumed and discarded) or to the end
/// of the text. A quote as the last character of the text yields the
/// illegal token.
pub open spec fn scan_string(s: Seq<char>, j: int) -> Scan {
    if j + 1 >= s.len() {
        Scan { tok: Tok::Illegal, end: s.len() as int }
    } else {
        let e = str_end(s, j + 2);
        let body = s.subrange(j + 1, e);
        if e < s.len() {
            Scan { tok: Tok::Str(body), end: e + 1 }
        } else {
            Scan { tok: Tok::Str(body), end: e }
        }
    }
}

/// Scanning a literal that begins with a letter or an underscore at `j`:
/// four characters are taken greedily and must spell `true`, or spell
/// `fals` with a fifth character consumed that must be `e`; anything
/// else, or a text too short, yields the illegal token.
pub open spec fn scan_boolean(s: Seq<char>, j: int) -> Scan {
    if j + 4 > s.len() {
        Scan { tok: Tok::Illegal, end: s.len() as int }
    } else if s.subrange(j, j + 4) == seq!['t', 'r', 'u', 'e'] {
        Scan { tok: Tok::Bool(true), end: j + 4 }
    } else if s.subrange(j, j + 4) == seq!['f', 'a', 'l', 's'] {
        if j + 5 <= s.len() {
            if s[j + 4] == 'e' {
                Scan { tok: Tok::Bool(false), end: j + 5 }
            } else {
                Scan { tok: Tok::Illegal, end: j + 5 }
            }
        } else {
            Scan { tok: Tok::Illegal, end: s.len() as int }
        }
    } else {
        Scan { tok: Tok::Illegal, end: j + 4 }
    }
}

/// Scanning a number whose first digit stands at `j`: the maximal run of
/// digits is taken; a value beyond the signed 32-bit range yields the
/// illegal token rather than a silently truncated number.
pub open spec fn scan_number(s: Seq<char>, j: int) -> Scan {
    let e = num_end(s, j + 1);
    let v = digits_val(s.subrange(j, e));
    if v <= 2147483647 {
        Scan { tok: Tok::Int(v), end: e }
    } else {
        Scan { tok: Tok::Illegal, end: e }
    }
}

/// The token that begins at position `i` of the text, whitespace
/// skipped, and the position just past it.
pub open spec fn scan(s: Seq<char>, i: int) -> Scan {
    let j = ws_end(s, i);
    if j >= s.len() {
        Scan { tok: Tok::EOF, end: j }
    } else {
        let c = s[j];
        if c == '{' {
            Scan { tok: Tok::LBraces, end: j + 1 }
        } else if c == '}' {
            Scan { tok: Tok::RBraces, end: j + 1 }
        } else if c == '[' {
            Scan { tok: Tok::LBracket, end: j + 1 }
        } else if c == ']' {
            Scan { tok: Tok::RBracket, end: j + 1 }
        } else if c == ',' {
            Scan { tok: Tok::Comma, end: j + 1 }
        } else if c == ':' {
            Scan { tok: Tok::DoubleDot, end: j + 1 }
        } else if c == '"' {
            scan_string(s, j)
        } else if is_alpha(c) || c == '_' {
            scan_boolean(s, j)
        } else if is_digit(c) {
            scan_number(s, j)
        } else {
            Scan { tok: Tok::Illegal, end: j + 1 }
        }
    }
}

/// The run skipped by `ws_end` is whitespace and ends at a non-white
/// character or at the end of the text.
pub proof fn lemma_ws_end(s: Seq<char>, i: int)
    requires
        0 <= i <= s.len(),
    ensures
        i <= ws_end(s, i) <= s.len(),
        ws_end(s, i) < s.len() ==> !is_white(s[ws_end(s, i)]),
        forall|j: int| i <= j < ws_end(s, i) ==> is_white(s[j]),
    decreases s.len() - i,
{
    if i < s.len() && is_white(s[i]) {
        lemma_ws_end(s, i + 1);
    }
}

/// The run taken by `str_end` holds no quote and ends at a quote or at
/// the end of the text.
pub proof fn lemma_str_end(s: Seq<char>, i: int)
    requires
        0 <= i <= s.len(),
    ensures
        i <= str_end(s, i) <= s.len(),
        str_end(s, i) < s.len() ==> s[str_end(s, i)] == '"',
        forall|j: int| i <= j < str_end(s, i) ==> s[j] != '"',
    decreases s.len() - i,
{
    if i < s.len() && s[i] != '"' {
        lemma_str_end(s, i + 1);
    }
}

/// The run taken by `num_end` holds digits only and ends at a non-digit
/// or at the end of the text.
pub proof fn lemma_num_end(s: Seq<char>, i: int)
    requires
        0 <= i <= s.len(),
    ensures
        i <= num_end(s, i) <= s.len(),
        num_end(s, i) < s.len() ==> !is_digit(s[num_end(s, i)]),
        forall|j: int| i <= j < num_end(s, i) ==> is_digit(s[j]),
    decreases s.len() - i,
{
    if i < s.len() && is_digit(s[i]) {
        lemma_num_end(s, i + 1);
    }
}

/// A run of digits has a non-negative value.
pub proof fn lemma_digits_val_nonneg(ds: Seq<char>)
    requires
        forall|j: int| 0 <= j < ds.len() ==> is_digit(ds[j]),
    ensures
        digits_val(ds) >= 0,
    decreases ds.len(),
{
    if ds.len() > 0 {
        lemma_digits_val_nonneg(ds.drop_last());
    }
}

/// A scan never moves backwards nor past the end; it reports the end of
/// the stream exactly when only whitespace is left, and otherwise
/// consumes at least one character.
pub proof fn lemma_scan_bounds(s: Seq<char>, i: int)
    requires
        0 <= i <= s.len(),
    ensures
        i <= scan(s, i).end <= s.len(),
        i <= ws_end(s, i),
        scan(s, i).tok is EOF <==> ws_end(s, i) == s.len(),
        !(scan(s, i).tok is EOF) ==> ws_end(s, i) < scan(s, i).end,
        !(scan(s, i).tok is EOF) ==> i < scan(s, i).end,
        scan(s, i).tok is EOF ==> scan(s, i).end == s.len(),
{
    lemma_ws_end(s, i);
    let j = ws_end(s, i);
    if j < s.len() {
        let c = s[j];
        if c == '"' {
            if j + 1 < s.len() {
                lemma_str_end(s, j + 2);
            }
        } else if !(c == '{' || c == '}' || c == '[' || c == ']' || c == ',' || c == ':')
            && !(is_alpha(c) || c == '_') && is_digit(c) {
            lemma_num_end(s, j + 1);
        }
    }
}

/// An integer token always carries a value within the signed 32-bit
/// range, and never a negative one.
pub proof fn lemma_scan_int_range(s: Seq<char>, i: int)
    requires
        0 <= i <= s.len(),
        scan(s, i).tok is Int,
    ensures
        0 <= scan(s, i).tok->Int_0 <= 2147483647,
{
    lemma_ws_end(s, i);
    let j = ws_end(s, i);
    let e = num_end(s, j + 1);
    lemma_num_end(s, j + 1);
    let ds = s.subrange(j, e);
    assert(forall|k: int| 0 <= k < ds.len() ==> is_digit(ds[k]));
    lemma_digits_val_nonneg(ds);
}

/// Relies on `String::push`: appends one character at the end of the
/// string, changing nothing else.
#[verifier::external_body]
pub(crate) fn push_char(s: &mut String, c: char)
    ensures
        final(s)@ == old(s)@.push(c),
{
    s.push(c);
}

/// The tokenizer: an internal read cursor over the text, one character
/// of lookahead, one token handed out per request.
pub struct Lexer {
    chars: Vec<char>,
    pos: usize,
}

/// A letter or an underscore opens a `true`/`false` literal.
fn is_letter(ch: char) -> (r: bool)
    ensures
        r == (is_alpha(ch) || ch == '_'),
{
    ch.is_alphabetic() || ch == '_'
}

impl Lexer {
    /// The text being scanned.
    pub closed spec fn text(&self) -> Seq<char> {
        self.chars@
    }

    /// The read cursor: everything before it has been consumed.
    pub closed spec fn cursor(&self) -> int {
        self.pos as int
    }

    /// The cursor never stands outside the text.
    pub open spec fn wf(&self) -> bool {
        0 <= self.cursor() <= self.text().len()
    }

    /// A fresh tokenizer over the given text, its cursor at the start.
    pub fn new(input: &str) -> (l: Lexer)
        ensures
            l.wf(),
            l.text() == input@,
            l.cursor() == 0,
    {
        let mut it = input.chars();
        let mut chars: Vec<char> = Vec::new();
        proof {
            assert(it.remaining() == input@);
        }
        loop
            invariant
                chars@ + it.remaining() == input@,
                it.decrease() is Some,
            ensures
                chars@ == input@,
            decreases it.decrease()->0,
        {
            match it.next() {
                Some(c) => {
                    chars.push(c);
                }
                None => {
                    proof {
                        assert(chars@ + it.remaining() =~= chars@);
                    }
                    break;
                }
            }
        }
        Lexer { chars, pos: 0 }
    }

    /// Hands out the character under the cursor and moves past it, or
    /// reports the end of the text.
    fn read_char(&mut self) -> (r: Option<char>)
        requires
            old(self).wf(),
        ensures
            final(self).wf(),
            final(self).text() == old(self).text(),
            old(self).cursor() < old(self).text().len() ==> r == Some(
                old(self).text()[old(self).cursor()],
            ) && final(self).cursor() == old(self).cursor() + 1,
            old(self).cursor() >= old(self).text().len() ==> r is None && final(self).cursor()
                == old(self).cursor(),
    {
        if self.pos < self.chars.len() {
            let c = self.chars[self.pos];
            self.pos = self.pos + 1;
            Some(c)
        } else {
            None
        }
    }

    /// The character under the cursor, without consuming it.
    fn peek_char(&self) -> (r: Option<char>)
        requires
            self.wf(),
        ensures
            self.cursor() < self.text().len() ==> r == Some(self.text()[self.cursor()]),
            self.cursor() >= self.text().len() ==> r is None,
    {
        if self.pos < self.chars.len() {
            Some(self.chars[self.pos])
        } else {
            None
        }
    }

    /// Moves the cursor past the run of whitespace under it.
    fn skip_whitespace(&mut self)
        requires
            old(self).wf(),
        ensures
            final(self).wf(),
            final(self).text() == old(self).text(),
            final(self).cursor() == ws_end(old(self).text(), old(self).cursor()),
    {
        loop
            invariant
                self.wf(),
                self.text() == old(self).text(),
                ws_end(self.text(), self.cursor()) == ws_end(
                    old(self).text(),
                    old(self).cursor(),
                ),
            ensures
                self.wf(),
                self.text() == old(self).text(),
                self.cursor() == ws_end(old(self).text(), old(self).cursor()),
            decreases self.text().len() - self.cursor(),
        {
            match self.peek_char() {
                Some(c) => {
                    if c.is_whitespace() {
                        let _ = self.read_char();
                    } else {
                        break;
                    }
                }
                None => {
                    break;
                }
            }
        }
    }

    /// Reads a string body: `ch` is its first character, already
    /// consumed; the rest runs verbatim up to the next quote (consumed
    /// and discarded) or to the end of the text.
    fn read_string(&mut self, ch: char) -> (r: String)
        requires
            old(self).wf(),
        ensures
            final(self).wf(),
            final(self).text() == old(self).text(),
            r@ == seq![ch] + old(self).text().subrange(
                old(self).cursor(),
                str_end(old(self).text(), old(self).cursor()),
            ),
            final(self).cursor() == (if str_end(old(self).text(), old(self).cursor())
                < old(self).text().len() {
                str_end(old(self).text(), old(self).cursor()) + 1
            } else {
                str_end(old(self).text(), old(self).cursor())
            }),
    {
        let mut identifier = String::new();
        push_char(&mut identifier, ch);
        proof {
            assert(identifier@ =~= seq![ch] + self.text().subrange(
                self.cursor(),
                self.cursor(),
            ));
        }
        loop
            invariant_except_break
                str_end(self.text(), self.cursor()) == str_end(
                    old(self).text(),
                    old(self).cursor(),
                ),
                identifier@ == seq![ch] + self.text().subrange(
                    old(self).cursor(),
                    self.cursor(),
                ),
            invariant
                self.wf(),
                self.text() == old(self).text(),
                old(self).cursor() <= self.cursor() <= self.text().len(),
            ensures
                self.wf(),
                self.text() == old(self).text(),
                identifier@ == seq![ch] + self.text().subrange(
                    old(self).cursor(),
                    str_end(old(self).text(), old(self).cursor()),
                ),
                self.cursor() == (if str_end(old(self).text(), old(self).cursor())
                    < self.text().len() {
                    str_end(old(self).text(), old(self).cursor()) + 1
                } else {
                    str_end(old(self).text(), old(self).cursor())
                }),
            decreases self.text().len() - self.cursor(),
        {
            match self.peek_char() {
                Some(c) => {
                    if c != '"' {
                        let _ = self.read_char();
                        push_char(&mut identifier, c);
                        proof {
                            assert(self.text().subrange(old(self).cursor(), self.cursor())
                                =~= self.text().subrange(old(self).cursor(), self.cursor() - 1)
                                + seq![c]);
                            assert(identifier@ =~= seq![ch] + self.text().subrange(
                                old(self).cursor(),
                                self.cursor(),
                            ));
                        }
                    } else {
                        let _ = self.read_char();
                        break;
                    }
                }
                None => {
                    break;
                }
            }
        }
        identifier
    }

    /// Reads the maximal run of digits beginning with `ch`, already
    /// consumed, and yields its value, or nothing on a value beyond the
    /// signed 32-bit range.
    fn read_int(&mut self, ch: char) -> (r: Option<i32>)
        requires
            old(self).wf(),
            is_digit(ch),
        ensures
            final(self).wf(),
            final(self).text() == old(self).text(),
            final(self).cursor() == num_end(old(self).text(), old(self).cursor()),
            ({
                let v = digits_val(
                    seq![ch] + old(self).text().subrange(
                        old(self).cursor(),
                        num_end(old(self).text(), old(self).cursor()),
                    ),
                );
                &&& v <= 2147483647 ==> r == Some(v as i32)
                &&& v > 2147483647 ==> r is None
            }),
    {
        let mut acc: u64 = (ch as u32 - 48) as u64;
        proof {
            assert(seq![ch] + self.text().subrange(self.cursor(), self.cursor()) =~= seq![ch]);
            assert(seq![ch].drop_last() =~= Seq::<char>::empty());
            assert(digits_val(Seq::<char>::empty()) == 0);
            assert(seq![ch].last() == ch);
            assert(digits_val(seq![ch]) == digit_val(ch));
            assert(acc == digit_val(ch));
        }
        loop
            invariant
                self.wf(),
                self.text() == old(self).text(),
                old(self).cursor() <= self.cursor() <= self.text().len(),
                num_end(self.text(), self.cursor()) == num_end(
                    old(self).text(),
                    old(self).cursor(),
                ),
                ({
                    let p = seq![ch] + self.text().subrange(old(self).cursor(), self.cursor());
                    &&& digits_val(p) <= 2147483647 ==> acc == digits_val(p)
                    &&& digits_val(p) > 2147483647 ==> acc > 2147483647
                }),
            ensures
                self.wf(),
                self.text() == old(self).text(),
                self.cursor() == num_end(old(self).text(), old(self).cursor()),
                ({
                    let p = seq![ch] + self.text().subrange(old(self).cursor(), self.cursor());
                    &&& digits_val(p) <= 2147483647 ==> acc == digits_val(p)
                    &&& digits_val(p) > 2147483647 ==> acc > 2147483647
                }),
            decreases self.text().len() - self.cursor(),
        {
            match self.peek_char() {
                Some(c) => {
                    if 48 <= c as u32 && c as u32 <= 57 {
                        let _ = self.read_char();
                        let d = (c as u32 - 48) as u64;
                        proof {
                            let p = seq![ch] + self.text().subrange(
                                old(self).cursor(),
                                self.cursor() - 1,
                            );
                            let p2 = seq![ch] + self.text().subrange(
                                old(self).cursor(),
                                self.cursor(),
                            );
                            assert(p2 =~= p.push(c));
                            assert(p2.drop_last() =~= p);
                        }
                        if acc <= 2147483647 {
                            acc = acc * 10 + d;
                        }
                    } else {
                        break;
                    }
                }
                None => {
                    break;
                }
            }
        }
        if acc <= 2147483647 {
            Some(acc as i32)
        } else {
            None
        }
    }

    /// Reads a `true`/`false` literal: `ch` is its first character,
    /// already consumed; three more characters are taken greedily, and a
    /// fifth after `fals`.
    fn read_boolean(&mut self, ch: char) -> (r: Option<bool>)
        requires
            old(self).wf(),
            old(self).cursor() >= 1,
            old(self).text()[old(self).cursor() - 1] == ch,
        ensures
            final(self).wf(),
            final(self).text() == old(self).text(),
            ({
                let sc = scan_boolean(old(self).text(), old(self).cursor() - 1);
                &&& final(self).cursor() == sc.end
                &&& (match sc.tok {
                    Tok::Bool(b) => r == Some(b),
                    _ => r is None,
                })
            }),
    {
        let ghost j = old(self).cursor() - 1;
        let ghost s = old(self).text();
        let c1 = self.read_char();
        let c2 = self.read_char();
        let c3 = self.read_char();
        match (c1, c2, c3) {
            (Some(a), Some(b), Some(c)) => {
                proof {
                    assert(s.subrange(j, j + 4) =~= seq![ch, a, b, c]);
                }
                if ch == 't' && a == 'r' && b == 'u' && c == 'e' {
                    proof {
                        assert(seq![ch, a, b, c] =~= seq!['t', 'r', 'u', 'e']);
                    }
                    Some(true)
                } else if ch == 'f' && a == 'a' && b == 'l' && c == 's' {
                    proof {
                        assert(seq![ch, a, b, c] =~= seq!['f', 'a', 'l', 's']);
                        assert(s.subrange(j, j + 4) != seq!['t', 'r', 'u', 'e']) by {
                            assert(s.subrange(j, j + 4)[0] == 'f');
                            assert(seq!['t', 'r', 'u', 'e'][0] == 't');
                        }
                    }
                    match self.read_char() {
                        Some(e) => {
                            if e == 'e' {
                                Some(false)
                            } else {
                                None
                            }
                        }
                        None => None,
                    }
                } else {
                    proof {
                        assert(s.subrange(j, j + 4) != seq!['t', 'r', 'u', 'e'] && s.subrange(
                            j,
                            j + 4,
                        ) != seq!['f', 'a', 'l', 's']) by {
                            assert(seq![ch, a, b, c][0] == ch && seq![ch, a, b, c][1] == a
                                && seq![ch, a, b, c][2] == b && seq![ch, a, b, c][3] == c);
                        }
                    }
                    None
                }
            }
            _ => None,
        }
    }

    /// Hands out the next token of the text and moves the cursor past
    /// it; at the end of the text it reports the end-of-stream token on
    /// every further request. It never fails: unrecognized input yields
    /// the illegal token.
    pub fn next_token(&mut self) -> (t: Token)
        requires
            old(self).wf(),
        ensures
            final(self).wf(),
            final(self).text() == old(self).text(),
            t@ == scan(old(self).text(), old(self).cursor()).tok,
            final(self).cursor() == scan(old(self).text(), old(self).cursor()).end,
    {
        proof {
            lemma_ws_end(old(self).text(), old(self).cursor());
        }
        let ghost s = old(self).text();
        let ghost j = ws_end(old(self).text(), old(self).cursor());
        self.skip_whitespace();
        match self.read_char() {
            Some(c) => {
                if c == '{' {
                    Token::LBraces
                } else if c == '}' {
                    Token::RBraces
                } else if c == '[' {
                    Token::LBracket
                } else if c == ']' {
                    Token::RBracket
                } else if c == ',' {
                    Token::Comma
                } else if c == ':' {
                    Token::DoubleDot
                } else if c == '"' {
                    match self.read_char() {
                        Some(ch) => {
                            let r = self.read_string(ch);
                            proof {
                                lemma_str_end(s, j + 2);
                                let e = str_end(s, j + 2);
                                assert(seq![ch] + s.subrange(j + 2, e) =~= s.subrange(j + 1, e));
                            }
                            Token::String(r)
                        }
                        None => Token::Illegal,
                    }
                } else if is_letter(c) {
                    match self.read_boolean(c) {
                        Some(boolean) => Token::Boolean(boolean),
                        None => Token::Illegal,
                    }
                } else if 48 <= c as u32 && c as u32 <= 57 {
                    let r = self.read_int(c);
                    proof {
                        lemma_num_end(s, j + 1);
                        let e = num_end(s, j + 1);
                        assert(seq![c] + s.subrange(j + 1, e) =~= s.subrange(j, e));
                        assert(forall|k: int|
                            0 <= k < s.subrange(j, e).len() ==> is_digit(
                                #[trigger] s.subrange(j, e)[k],
                            ));
                        lemma_digits_val_nonneg(s.subrange(j, e));
                    }
                    match r {
                        Some(num) => Token::Int(num),
                        None => Token::Illegal,
                    }
                } else {
                    Token::Illegal
                }
            }
            None => Token::EOF,
        }
    }
}

} // verus!
