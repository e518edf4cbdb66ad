use vstd::prelude::*;
use crate::lexer::{lemma_scan_bounds, lemma_scan_int_range, push_char, scan, Lexer};
use crate::parse_error::{ParseError, ParseResult};
use crate::token::{Tok, Token};
use crate::value::{
    arr_view, deep_value, lemma_arr_view, lemma_pairs_view, obj_insert, pairs_map, pairs_view,
    unique_keys, JsonValue, SpecValue,
};

verus! {

/// Whether a scan that began at `i` and ended at `j` consumed at least
/// one character without running past the end of the text.
pub open spec fn step_ok(s: Seq<char>, i: int, j: int) -> bool {
    i < j <= s.len()
}

/// The decimal rendering of a non-negative integer.
pub open spec fn dec_str(n: int) -> Seq<char>
    decreases n,
    via dec_str_dec
{
    if n < 10 {
        seq![digit_char(n)]
    } else {
        dec_str(n / 10).push(digit_char(n % 10))
    }
}

#[via_fn]
proof fn dec_str_dec(n: int) {
    assert(n >= 10 ==> 0 <= n / 10 < n) by (nonlinear_arith);
}

/// The character for one decimal digit.
pub open spec fn digit_char(d: int) -> char {
    if d == 0 {
        '0'
    } else if d == 1 {
        '1'
    } else if d == 2 {
        '2'
    } else if d == 3 {
        '3'
    } else if d == 4 {
        '4'
    } else if d == 5 {
        '5'
    } else if d == 6 {
        '6'
    } else if d == 7 {
        '7'
    } else if d == 8 {
        '8'
    } else {
        '9'
    }
}

/// The value step: one token decides which kind of value follows. A
/// closing bracket raises the array-end signal; the end of the stream,
/// an illegal token or any other punctuation is a plain failure.
pub open spec fn sp_value(s: Seq<char>, i: int) -> (Result<SpecValue, ParseError>, int)
    decreases s.len() - i, 0int,
{
    let sc = scan(s, i);
    if step_ok(s, i, sc.end) {
        match sc.tok {
            Tok::LBraces => {
                let (or, j) = sp_object(s, sc.end);
                (
                    match or {
                        Ok(m) => Ok(SpecValue::Obj(m)),
                        Err(e) => Err(e),
                    },
                    j,
                )
            },
            Tok::LBracket => {
                let (ar, j) = sp_array(s, sc.end);
                (
                    match ar {
                        Ok(a) => Ok(SpecValue::Arr(a)),
                        Err(e) => Err(e),
                    },
                    j,
                )
            },
            Tok::RBracket => (Err(ParseError::ArrayEnd), sc.end),
            Tok::Bool(b) => (Ok(SpecValue::Bool(b)), sc.end),
            Tok::Int(n) => (Ok(SpecValue::Num(n)), sc.end),
            Tok::Str(t) => (Ok(SpecValue::Str(t)), sc.end),
            _ => (Err(ParseError::ParsingError), sc.end),
        }
    } else {
        (Err(ParseError::ParsingError), sc.end)
    }
}

/// The object body after its opening brace: pairs are collected until
/// the pair step reports the closing brace; among pairs with one key the
/// last write wins. Any other failure of the pair step is a plain
/// failure of the whole object.
pub open spec fn sp_object(s: Seq<char>, i: int) -> (
    Result<Map<Seq<char>, SpecValue>, ParseError>,
    int,
)
    decreases s.len() - i, 3int,
{
    let (pr, j) = sp_pair(s, i);
    match pr {
        Ok(p) => if step_ok(s, i, j) {
            let (or, j2) = sp_object(s, j);
            match or {
                Ok(m) => (
                    Ok(
                        if m.dom().contains(p.0) {
                            m
                        } else {
                            m.insert(p.0, p.1)
                        },
                    ),
                    j2,
                ),
                Err(_) => (Err(ParseError::ParsingError), j2),
            }
        } else {
            (Err(ParseError::ParsingError), j)
        },
        Err(ParseError::CommaEndingObject) => (Ok(Map::empty()), j),
        Err(_) => (Err(ParseError::ParsingError), j),
    }
}

/// The pair step: a string or integer token is a key, whose colon and
/// value must follow; a comma is skipped; a closing brace raises the
/// clean-termination signal for the object; anything else is a plain
/// failure. An integer key is rendered in decimal.
pub open spec fn sp_pair(s: Seq<char>, i: int) -> (
    Result<(Seq<char>, SpecValue), ParseError>,
    int,
)
    decreases s.len() - i, 2int,
{
    let sc = scan(s, i);
    if step_ok(s, i, sc.end) {
        match sc.tok {
            Tok::Str(key) => {
                let (vr, j) = sp_pair_value(s, sc.end);
                (
                    match vr {
                        Ok(v) => Ok((key, v)),
                        Err(_) => Err(ParseError::ParsingError),
                    },
                    j,
                )
            },
            Tok::Int(n) => {
                let (vr, j) = sp_pair_value(s, sc.end);
                (
                    match vr {
                        Ok(v) => Ok((dec_str(n), v)),
                        Err(_) => Err(ParseError::ParsingError),
                    },
                    j,
                )
            },
            Tok::Comma => sp_pair(s, sc.end),
            Tok::RBraces => (Err(ParseError::CommaEndingObject), sc.end),
            _ => (Err(ParseError::ParsingError), sc.end),
        }
    } else {
        (Err(ParseError::ParsingError), sc.end)
    }
}

/// The step after a key: a colon, then the value.
pub open spec fn sp_pair_value(s: Seq<char>, i: int) -> (Result<SpecValue, ParseError>, int)
    decreases s.len() - i, 1int,
{
    let sc = scan(s, i);
    if step_ok(s, i, sc.end) {
        match sc.tok {
            Tok::DoubleDot => sp_value(s, sc.end),
            _ => (Err(ParseError::ParsingError), sc.end),
        }
    } else {
        (Err(ParseError::ParsingError), sc.end)
    }
}

/// The array body after its opening bracket: elements are collected as
/// long as each is followed by a comma; a closing bracket after an
/// element, or the array-end signal where an element was expected, ends
/// the array cleanly; any other token after an element is a plain
/// failure rather than a crash.
pub open spec fn sp_array(s: Seq<char>, i: int) -> (Result<Seq<SpecValue>, ParseError>, int)
    decreases s.len() - i, 1int,
{
    let (vr, j) = sp_value(s, i);
    match vr {
        Ok(v) => {
            let sc = scan(s, j);
            if sc.tok is Comma && i < sc.end && sc.end <= s.len() {
                let (ar, j2) = sp_array(s, sc.end);
                (
                    match ar {
                        Ok(rest) => Ok(seq![v] + rest),
                        Err(e) => Err(e),
                    },
                    j2,
                )
            } else if sc.tok is RBracket {
                (Ok(seq![v]), sc.end)
            } else {
                (Err(ParseError::ParsingError), sc.end)
            }
        },
        Err(ParseError::ArrayEnd) => (Ok(Seq::empty()), j),
        Err(_) => (Err(ParseError::ParsingError), j),
    }
}

/// The result of parsing the whole text: the tree of the first value in
/// it, or the error on which the parse stopped. Text after that value
/// is not examined.
pub open spec fn spec_parse(s: Seq<char>) -> Result<SpecValue, ParseError> {
    sp_value(s, 0).0
}

/// A parse result as the specification sees it.
pub open spec fn result_view(r: ParseResult<JsonValue>) -> Result<SpecValue, ParseError> {
    match r {
        Ok(v) => Ok(deep_value(v)),
        Err(e) => Err(e),
    }
}

/// A key-value result as the specification sees it.
pub open spec fn pair_view(r: ParseResult<(String, JsonValue)>) -> Result<
    (Seq<char>, SpecValue),
    ParseError,
> {
    match r {
        Ok(p) => Ok((p.0@, deep_value(p.1))),
        Err(e) => Err(e),
    }
}

/// The decimal rendering of a non-negative 32-bit integer.
fn int_to_string(n: i32) -> (r: String)
    requires
        n >= 0,
    ensures
        r@ == dec_str(n as int),
{
    let mut digs: Vec<char> = Vec::new();
    let mut m: i32 = n;
    while m >= 10
        invariant
            0 <= m,
            dec_str(m as int) + digs@.reverse() == dec_str(n as int),
        decreases m,
    {
        let d = digit_char_exec(m % 10);
        proof {
            let ds = digs@;
            assert((ds.push(d)).reverse() =~= seq![d] + ds.reverse());
            assert(dec_str(m as int) == dec_str(m as int / 10).push(digit_char(m as int % 10)));
            assert(dec_str(m as int / 10).push(d) + ds.reverse() =~= dec_str(m as int / 10) + (
            seq![d] + ds.reverse()));
        }
        digs.push(d);
        m = m / 10;
    }
    let d = digit_char_exec(m);
    proof {
        let ds = digs@;
        assert((ds.push(d)).reverse() =~= seq![d] + ds.reverse());
        assert(dec_str(m as int) == seq![digit_char(m as int)]);
        assert(seq![d] + ds.reverse() =~= dec_str(m as int) + ds.reverse());
    }
    digs.push(d);
    proof {
        assert(Seq::<char>::empty() + digs@.reverse() =~= digs@.reverse());
        assert(digs@.reverse() == dec_str(n as int));
    }
    let mut r = String::new();
    let mut k: usize = digs.len();
    proof {
        assert(r@ =~= dec_str(n as int).subrange(0, 0));
    }
    while k > 0
        invariant
            0 <= k <= digs.len(),
            digs@.reverse() == dec_str(n as int),
            dec_str(n as int).len() == digs@.len(),
            r@ == dec_str(n as int).subrange(0, digs@.len() - k),
        decreases k,
    {
        k = k - 1;
        let c = digs[k];
        push_char(&mut r, c);
        proof {
            let full = dec_str(n as int);
            let l = digs@.len();
            assert(full[l - 1 - (k as int)] == digs@[k as int]) by {
                assert(digs@.reverse()[l - 1 - (k as int)] == digs@[k as int]);
            }
            assert(r@ =~= full.subrange(0, l - k));
        }
    }
    proof {
        assert(dec_str(n as int).subrange(0, dec_str(n as int).len() as int) =~= dec_str(
            n as int,
        ));
    }
    r
}

/// The character for one decimal digit.
fn digit_char_exec(d: i32) -> (c: char)
    requires
        0 <= d <= 9,
    ensures
        c == digit_char(d as int),
{
    if d == 0 {
        '0'
    } else if d == 1 {
        '1'
    } else if d == 2 {
        '2'
    } else if d == 3 {
        '3'
    } else if d == 4 {
        '4'
    } else if d == 5 {
        '5'
    } else if d == 6 {
        '6'
    } else if d == 7 {
        '7'
    } else if d == 8 {
        '8'
    } else {
        '9'
    }
}

/// The tree builder: it pulls tokens from its tokenizer and assembles a
/// value tree by recursive descent, with single-token lookahead and no
/// backtracking.
pub struct Parser {
    l: Lexer,
}

impl Parser {
    /// The text being parsed.
    pub closed spec fn text(&self) -> Seq<char> {
        self.l.text()
    }

    /// The tokenizer's read cursor.
    pub closed spec fn cursor(&self) -> int {
        self.l.cursor()
    }

    /// The cursor never stands outside the text.
    pub open spec fn wf(&self) -> bool {
        0 <= self.cursor() <= self.text().len()
    }

    /// A fresh tree builder over the given text.
    pub fn new(input: &str) -> (p: Parser)
        ensures
            p.wf(),
            p.text() == input@,
            p.cursor() == 0,
    {
        Parser { l: Lexer::new(input) }
    }

    /// Parses one value from the current position: the single entry
    /// point. On a fresh builder the result is exactly what
    /// [`spec_parse`] says of the text; the first irrecoverable mismatch
    /// aborts the whole parse with the corresponding error.
    pub fn parse(&mut self) -> (r: ParseResult<JsonValue>)
        requires
            old(self).wf(),
        ensures
            final(self).wf(),
            final(self).text() == old(self).text(),
            result_view(r) == sp_value(old(self).text(), old(self).cursor()).0,
            final(self).cursor() == sp_value(old(self).text(), old(self).cursor()).1,
            old(self).cursor() == 0 ==> result_view(r) == spec_parse(old(self).text()),
    {
        self.parse_json_value()
    }

    /// The value context of the grammar.
    fn parse_json_value(&mut self) -> (r: ParseResult<JsonValue>)
        requires
            old(self).wf(),
        ensures
            final(self).wf(),
            final(self).text() == old(self).text(),
            old(self).cursor() <= final(self).cursor(),
            result_view(r) == sp_value(old(self).text(), old(self).cursor()).0,
            final(self).cursor() == sp_value(old(self).text(), old(self).cursor()).1,
            r is Ok ==> old(self).cursor() < final(self).cursor(),
        decreases self.text().len() - self.cursor(), 0int,
    {
        let ghost s = old(self).text();
        let ghost i = old(self).cursor();
        proof {
            lemma_scan_bounds(s, i);
        }
        let t = self.l.next_token();
        proof {
            assert(self.text() == s);
            assert(self.cursor() == scan(s, i).end);
            assert(t@ == scan(s, i).tok);
        }
        match t {
            Token::LBraces => {
                proof {
                    assert(i < self.cursor());
                    assert(self.text().len() - self.cursor() < s.len() - i);
                }
                self.parse_object()
            }
            Token::LBracket => self.parse_array(),
            Token::RBracket => Err(ParseError::ArrayEnd),
            Token::Boolean(boolean) => Ok(JsonValue::Boolean(boolean)),
            Token::Int(num) => Ok(JsonValue::Number(num)),
            Token::String(string) => Ok(JsonValue::String(string)),
            _ => Err(ParseError::ParsingError),
        }
    }

    /// The object context of the grammar.
    fn parse_object(&mut self) -> (r: ParseResult<JsonValue>)
        requires
            old(self).wf(),
        ensures
            final(self).wf(),
            final(self).text() == old(self).text(),
            old(self).cursor() <= final(self).cursor(),
            result_view(r) == (match sp_object(old(self).text(), old(self).cursor()).0 {
                Ok(m) => Ok(SpecValue::Obj(m)),
                Err(e) => Err(e),
            }),
            final(self).cursor() == sp_object(old(self).text(), old(self).cursor()).1,
        decreases self.text().len() - self.cursor(), 3int,
    {
        let ghost s = old(self).text();
        let ghost i0 = old(self).cursor();
        let mut paires: Vec<(String, JsonValue)> = Vec::new();
        proof {
            assert(pairs_view(paires@) =~= Seq::<(Seq<char>, SpecValue)>::empty());
            assert(pairs_map(pairs_view(paires@)) =~= Map::<Seq<char>, SpecValue>::empty());
        }
        loop
            invariant
                s == old(self).text(),
                i0 == old(self).cursor(),
                self.wf(),
                self.text() == s,
                i0 <= self.cursor() <= s.len(),
                unique_keys(pairs_view(paires@)),
                ({
                    let full = sp_object(s, i0);
                    let rest = sp_object(s, self.cursor());
                    &&& (rest.0 is Ok ==> full.0 is Ok && full.0->Ok_0 == pairs_map(
                        pairs_view(paires@),
                    ).union_prefer_right(rest.0->Ok_0))
                    &&& (rest.0 is Err ==> full.0 == rest.0)
                    &&& full.1 == rest.1
                }),
            decreases s.len() - self.cursor(),
        {
            let ghost i = self.cursor();
            let ghost acc = pairs_map(pairs_view(paires@));
            let pr = self.parse_pair();
            match pr {
                Ok(paire) => {
                    proof {
                        let (or2, j2) = sp_object(s, self.cursor());
                        if or2 is Ok {
                            let m2 = or2->Ok_0;
                            let key = paire.0@;
                            let v = deep_value(paire.1);
                            let combined = if m2.dom().contains(key) {
                                m2
                            } else {
                                m2.insert(key, v)
                            };
                            assert(sp_object(s, i).0 == Ok::<
                                Map<Seq<char>, SpecValue>,
                                ParseError,
                            >(combined));
                            assert(acc.union_prefer_right(combined) =~= acc.insert(
                                key,
                                v,
                            ).union_prefer_right(m2));
                        }
                    }
                    obj_insert(&mut paires, paire.0, paire.1);
                }
                Err(e) => {
                    match e {
                        ParseError::CommaEndingObject => {
                            proof {
                                let full = sp_object(s, i0);
                                assert(sp_object(s, i).0 == Ok::<
                                    Map<Seq<char>, SpecValue>,
                                    ParseError,
                                >(Map::empty()));
                                assert(acc.union_prefer_right(Map::empty()) =~= acc);
                            }
                            return Ok(JsonValue::Object(paires));
                        }
                        _ => {
                            proof {
                                assert(sp_object(s, i).0 == Err::<
                                    Map<Seq<char>, SpecValue>,
                                    ParseError,
                                >(ParseError::ParsingError));
                            }
                            return Err(ParseError::ParsingError);
                        }
                    }
                }
            }
        }
    }

    /// The array context of the grammar.
    fn parse_array(&mut self) -> (r: ParseResult<JsonValue>)
        requires
            old(self).wf(),
        ensures
            final(self).wf(),
            final(self).text() == old(self).text(),
            old(self).cursor() <= final(self).cursor(),
            result_view(r) == (match sp_array(old(self).text(), old(self).cursor()).0 {
                Ok(a) => Ok(SpecValue::Arr(a)),
                Err(e) => Err(e),
            }),
            final(self).cursor() == sp_array(old(self).text(), old(self).cursor()).1,
        decreases self.text().len() - self.cursor(), 1int,
    {
        let ghost s = old(self).text();
        let ghost i0 = old(self).cursor();
        let mut json_values: Vec<JsonValue> = Vec::new();
        proof {
            assert(arr_view(json_values@) =~= Seq::<SpecValue>::empty());
        }
        loop
            invariant
                s == old(self).text(),
                i0 == old(self).cursor(),
                self.wf(),
                self.text() == s,
                i0 <= self.cursor() <= s.len(),
                ({
                    let full = sp_array(s, i0);
                    let rest = sp_array(s, self.cursor());
                    &&& (rest.0 is Ok ==> full.0 is Ok && full.0->Ok_0 == arr_view(json_values@)
                        + rest.0->Ok_0)
                    &&& (rest.0 is Err ==> full.0 == rest.0)
                    &&& full.1 == rest.1
                }),
            decreases s.len() - self.cursor(),
        {
            let ghost i = self.cursor();
            let ghost acc = arr_view(json_values@);
            let vr = self.parse_json_value();
            match vr {
                Ok(value) => {
                    let ghost v = deep_value(value);
                    let ghost lst = json_values@;
                    json_values.push(value);
                    proof {
                        assert(json_values@.drop_last() =~= lst);
                        assert(json_values@.last() == value);
                        assert(arr_view(json_values@) == acc.push(v));
                    }
                    let ghost j = self.cursor();
                    proof {
                        lemma_scan_bounds(s, j);
                    }
                    match self.l.next_token() {
                        Token::Comma => {
                            proof {
                                let ar2 = sp_array(s, self.cursor()).0;
                                assert(arr_view(json_values@) =~= acc.push(v));
                                if ar2 is Ok {
                                    assert(acc + (seq![v] + ar2->Ok_0) =~= acc.push(v)
                                        + ar2->Ok_0);
                                }
                            }
                        }
                        Token::RBracket => {
                            proof {
                                assert(arr_view(json_values@) =~= acc.push(v));
                                assert(acc + seq![v] =~= acc.push(v));
                            }
                            return Ok(JsonValue::Array(json_values));
                        }
                        _ => {
                            return Err(ParseError::ParsingError);
                        }
                    }
                }
                Err(e) => {
                    match e {
                        ParseError::ArrayEnd => {
                            proof {
                                assert(acc + Seq::<SpecValue>::empty() =~= acc);
                            }
                            return Ok(JsonValue::Array(json_values));
                        }
                        _ => {
                            return Err(ParseError::ParsingError);
                        }
                    }
                }
            }
        }
    }

    /// The pair step of the grammar.
    fn parse_pair(&mut self) -> (r: ParseResult<(String, JsonValue)>)
        requires
            old(self).wf(),
        ensures
            final(self).wf(),
            final(self).text() == old(self).text(),
            old(self).cursor() <= final(self).cursor(),
            pair_view(r) == sp_pair(old(self).text(), old(self).cursor()).0,
            final(self).cursor() == sp_pair(old(self).text(), old(self).cursor()).1,
            r is Ok ==> old(self).cursor() < final(self).cursor(),
        decreases self.text().len() - self.cursor(), 2int,
    {
        let ghost s = old(self).text();
        let ghost i = old(self).cursor();
        proof {
            lemma_scan_bounds(s, i);
        }
        match self.l.next_token() {
            Token::String(key) => {
                match self.parse_pair_value() {
                    Ok(value) => Ok((key, value)),
                    _ => Err(ParseError::ParsingError),
                }
            }
            Token::Int(num) => {
                proof {
                    lemma_scan_int_range(s, i);
                }
                let key = int_to_string(num);
                match self.parse_pair_value() {
                    Ok(value) => Ok((key, value)),
                    _ => Err(ParseError::ParsingError),
                }
            }
            Token::Comma => self.parse_pair(),
            Token::RBraces => Err(ParseError::CommaEndingObject),
            _ => Err(ParseError::ParsingError),
        }
    }

    /// The step after a key: a colon, then the value.
    fn parse_pair_value(&mut self) -> (r: ParseResult<JsonValue>)
        requires
            old(self).wf(),
        ensures
            final(self).wf(),
            final(self).text() == old(self).text(),
            old(self).cursor() <= final(self).cursor(),
            result_view(r) == sp_pair_value(old(self).text(), old(self).cursor()).0,
            final(self).cursor() == sp_pair_value(old(self).text(), old(self).cursor()).1,
        decreases self.text().len() - self.cursor(), 1int,
    {
        let ghost s = old(self).text();
        let ghost i = old(self).cursor();
        proof {
            lemma_scan_bounds(s, i);
        }
        match self.l.next_token() {
            Token::DoubleDot => self.parse_json_value(),
            _ => Err(ParseError::ParsingError),
        }
    }
}

} // verus!
