//! The library's general laws: what parsing promises of whole classes
//! of inputs, proved once and for all against the specification that
//! `Parser::parse` is verified to implement.

use vstd::prelude::*;
use crate::chars::{is_alpha, is_white};
use crate::lexer::{
    digits_val, is_digit, lemma_num_end, lemma_scan_bounds, lemma_str_end, lemma_ws_end, num_end,
    scan, str_end, ws_end,
};
use crate::parse_error::ParseError;
use crate::parser::{
    sp_array, sp_object, sp_pair, sp_pair_value, sp_value, spec_parse, step_ok,
};
use crate::value::SpecValue;

verus! {

broadcast use vstd::string::group_string_axioms;

/// A run of decimal digits is the maximal one: it ends only at the end
/// of the text.
proof fn lemma_num_end_all_digits(s: Seq<char>, i: int)
    requires
        0 <= i <= s.len(),
        forall|k: int| 0 <= k < s.len() ==> is_digit(s[k]),
    ensures
        num_end(s, i) == s.len(),
{
    lemma_num_end(s, i);
    if num_end(s, i) < s.len() {
        assert(is_digit(s[num_end(s, i)]));
    }
}

/// A top-level integer literal: a text of decimal digits alone, whose
/// value fits the signed 32-bit range, parses to exactly that number.
pub proof fn lemma_parse_int_literal(s: Seq<char>)
    requires
        s.len() >= 1,
        forall|k: int| 0 <= k < s.len() ==> is_digit(s[k]),
        digits_val(s) <= 2147483647,
    ensures
        spec_parse(s) == Ok::<SpecValue, ParseError>(SpecValue::Num(digits_val(s))),
{
    assert(is_digit(s[0]));
    assert(!is_white(s[0]));
    assert(ws_end(s, 0) == 0);
    lemma_num_end_all_digits(s, 1);
    assert(s.subrange(0, s.len() as int) =~= s);
    assert(scan(s, 0).tok == crate::token::Tok::Int(digits_val(s)));
    assert(scan(s, 0).end == s.len());
}

/// A top-level string literal: a quote, at least one character none of
/// which is a quote, and a closing quote, parses to exactly that text.
pub proof fn lemma_parse_string_literal(s: Seq<char>, body: Seq<char>)
    requires
        s =~= seq!['"'] + body + seq!['"'],
        body.len() >= 1,
        forall|k: int| 0 <= k < body.len() ==> body[k] != '"',
    ensures
        spec_parse(s) == Ok::<SpecValue, ParseError>(SpecValue::Str(body)),
{
    let n = s.len() as int;
    assert(n == body.len() + 2);
    assert(s[0] == '"');
    assert(!is_white(s[0]));
    assert(ws_end(s, 0) == 0);
    lemma_str_end(s, 2);
    let e = str_end(s, 2);
    assert(forall|k: int| 1 <= k < n - 1 ==> s[k] == body[k - 1]);
    assert(s[n - 1] == '"');
    assert(e == n - 1) by {
        if e < n - 1 {
            assert(s[e] == '"');
            assert(s[e] == body[e - 1]);
        }
        if e == n {
            assert(s[n - 1] != '"');
        }
    }
    assert(s.subrange(1, e) =~= body);
    assert(scan(s, 0).tok == crate::token::Tok::Str(body));
    assert(scan(s, 0).end == n);
}

/// The two boolean literals at top level parse to the matching leaves.
pub proof fn lemma_parse_bool_literals()
    ensures
        spec_parse("true"@) == Ok::<SpecValue, ParseError>(SpecValue::Bool(true)),
        spec_parse("false"@) == Ok::<SpecValue, ParseError>(SpecValue::Bool(false)),
{
    reveal_strlit("true");
    reveal_strlit("false");
    let t = "true"@;
    assert(t.len() == 4 && t[0] == 't' && t[1] == 'r' && t[2] == 'u' && t[3] == 'e');
    assert(!is_white(t[0]));
    assert(ws_end(t, 0) == 0);
    assert(t.subrange(0, 4) =~= seq!['t', 'r', 'u', 'e']);
    assert(scan(t, 0).tok == crate::token::Tok::Bool(true));
    assert(scan(t, 0).end == 4);
    let f = "false"@;
    assert(f.len() == 5 && f[0] == 'f' && f[1] == 'a' && f[2] == 'l' && f[3] == 's' && f[4]
        == 'e');
    assert(!is_white(f[0]));
    assert(ws_end(f, 0) == 0);
    assert(f.subrange(0, 4) =~= seq!['f', 'a', 'l', 's']);
    assert(f.subrange(0, 4) != seq!['t', 'r', 'u', 'e']) by {
        assert(f.subrange(0, 4)[0] == 'f');
        assert(seq!['t', 'r', 'u', 'e'][0] == 't');
    }
    assert(scan(f, 0).tok == crate::token::Tok::Bool(false));
    assert(scan(f, 0).end == 5);
}

/// `s2` holds `s1` as its tail, after `d` other characters.
pub open spec fn tail_of(s2: Seq<char>, d: int, s1: Seq<char>) -> bool {
    &&& 0 <= d
    &&& s2.len() == s1.len() + d
    &&& forall|k: int| 0 <= k < s1.len() ==> s2[d + k] == s1[k]
}

proof fn lemma_ws_end_shift(s1: Seq<char>, s2: Seq<char>, d: int, i: int)
    requires
        tail_of(s2, d, s1),
        0 <= i <= s1.len(),
    ensures
        ws_end(s2, d + i) == d + ws_end(s1, i),
    decreases s1.len() - i,
{
    if i < s1.len() {
        assert(s2[d + i] == s1[i]);
        if is_white(s1[i]) {
            lemma_ws_end_shift(s1, s2, d, i + 1);
        }
    }
}

proof fn lemma_str_end_shift(s1: Seq<char>, s2: Seq<char>, d: int, i: int)
    requires
        tail_of(s2, d, s1),
        0 <= i <= s1.len(),
    ensures
        str_end(s2, d + i) == d + str_end(s1, i),
    decreases s1.len() - i,
{
    if i < s1.len() {
        assert(s2[d + i] == s1[i]);
        if s1[i] != '"' {
            lemma_str_end_shift(s1, s2, d, i + 1);
        }
    }
}

proof fn lemma_num_end_shift(s1: Seq<char>, s2: Seq<char>, d: int, i: int)
    requires
        tail_of(s2, d, s1),
        0 <= i <= s1.len(),
    ensures
        num_end(s2, d + i) == d + num_end(s1, i),
    decreases s1.len() - i,
{
    if i < s1.len() {
        assert(s2[d + i] == s1[i]);
        if is_digit(s1[i]) {
            lemma_num_end_shift(s1, s2, d, i + 1);
        }
    }
}

/// A scan depends only on the text from its own position on.
proof fn lemma_scan_shift(s1: Seq<char>, s2: Seq<char>, d: int, i: int)
    requires
        tail_of(s2, d, s1),
        0 <= i <= s1.len(),
    ensures
        scan(s2, d + i).tok == scan(s1, i).tok,
        scan(s2, d + i).end == d + scan(s1, i).end,
{
    lemma_ws_end_shift(s1, s2, d, i);
    lemma_ws_end(s1, i);
    let j = ws_end(s1, i);
    if j < s1.len() {
        assert(s2[d + j] == s1[j]);
        let c = s1[j];
        if c == '"' {
            if j + 1 < s1.len() {
                lemma_str_end_shift(s1, s2, d, j + 2);
                lemma_str_end(s1, j + 2);
                let e = str_end(s1, j + 2);
                assert(s2.subrange(d + j + 1, d + e) =~= s1.subrange(j + 1, e));
            }
        } else if !(c == '{' || c == '}' || c == '[' || c == ']' || c == ',' || c == ':') {
            if is_alpha(c) || c == '_' {
                if j + 4 <= s1.len() {
                    assert(s2.subrange(d + j, d + j + 4) =~= s1.subrange(j, j + 4));
                    if s1.subrange(j, j + 4) == seq!['f', 'a', 'l', 's'] && j + 5 <= s1.len() {
                        assert(s2[d + j + 4] == s1[j + 4]);
                    }
                }
            } else if is_digit(c) {
                lemma_num_end_shift(s1, s2, d, j + 1);
                lemma_num_end(s1, j + 1);
                let e = num_end(s1, j + 1);
                assert(s2.subrange(d + j, d + e) =~= s1.subrange(j, e));
            }
        }
    }
}

/// The value step depends only on the text from its own position on.
proof fn lemma_sp_value_shift(s1: Seq<char>, s2: Seq<char>, d: int, i: int)
    requires
        tail_of(s2, d, s1),
        0 <= i <= s1.len(),
    ensures
        sp_value(s2, d + i).0 == sp_value(s1, i).0,
        sp_value(s2, d + i).1 == d + sp_value(s1, i).1,
        i <= sp_value(s1, i).1 <= s1.len(),
        !(scan(s1, i).tok is EOF) ==> sp_value(s1, i).1 >= scan(s1, i).end,
    decreases s1.len() - i, 0int,
{
    lemma_scan_shift(s1, s2, d, i);
    lemma_scan_bounds(s1, i);
    let sc = scan(s1, i);
    if step_ok(s1, i, sc.end) {
        match sc.tok {
            crate::token::Tok::LBraces => {
                lemma_sp_object_shift(s1, s2, d, sc.end);
            }
            crate::token::Tok::LBracket => {
                lemma_sp_array_shift(s1, s2, d, sc.end);
            }
            _ => {}
        }
    }
}

/// The object body depends only on the text from its own position on.
proof fn lemma_sp_object_shift(s1: Seq<char>, s2: Seq<char>, d: int, i: int)
    requires
        tail_of(s2, d, s1),
        0 <= i <= s1.len(),
    ensures
        sp_object(s2, d + i).0 == sp_object(s1, i).0,
        sp_object(s2, d + i).1 == d + sp_object(s1, i).1,
        i <= sp_object(s1, i).1 <= s1.len(),
        !(scan(s1, i).tok is EOF) ==> sp_object(s1, i).1 >= scan(s1, i).end,
    decreases s1.len() - i, 3int,
{
    lemma_sp_pair_shift(s1, s2, d, i);
    let (pr, j) = sp_pair(s1, i);
    if pr is Ok && step_ok(s1, i, j) {
        lemma_sp_object_shift(s1, s2, d, j);
    }
}

/// The pair step depends only on the text from its own position on.
proof fn lemma_sp_pair_shift(s1: Seq<char>, s2: Seq<char>, d: int, i: int)
    requires
        tail_of(s2, d, s1),
        0 <= i <= s1.len(),
    ensures
        sp_pair(s2, d + i).0 == sp_pair(s1, i).0,
        sp_pair(s2, d + i).1 == d + sp_pair(s1, i).1,
        i <= sp_pair(s1, i).1 <= s1.len(),
        !(scan(s1, i).tok is EOF) ==> sp_pair(s1, i).1 >= scan(s1, i).end,
    decreases s1.len() - i, 2int,
{
    lemma_scan_shift(s1, s2, d, i);
    lemma_scan_bounds(s1, i);
    let sc = scan(s1, i);
    if step_ok(s1, i, sc.end) {
        match sc.tok {
            crate::token::Tok::Str(_) => {
                lemma_sp_pair_value_shift(s1, s2, d, sc.end);
            }
            crate::token::Tok::Int(_) => {
                lemma_sp_pair_value_shift(s1, s2, d, sc.end);
            }
            crate::token::Tok::Comma => {
                lemma_sp_pair_shift(s1, s2, d, sc.end);
            }
            _ => {}
        }
    }
}

/// The step after a key depends only on the text from its own position on.
proof fn lemma_sp_pair_value_shift(s1: Seq<char>, s2: Seq<char>, d: int, i: int)
    requires
        tail_of(s2, d, s1),
        0 <= i <= s1.len(),
    ensures
        sp_pair_value(s2, d + i).0 == sp_pair_value(s1, i).0,
        sp_pair_value(s2, d + i).1 == d + sp_pair_value(s1, i).1,
        i <= sp_pair_value(s1, i).1 <= s1.len(),
        !(scan(s1, i).tok is EOF) ==> sp_pair_value(s1, i).1 >= scan(s1, i).end,
    decreases s1.len() - i, 1int,
{
    lemma_scan_shift(s1, s2, d, i);
    lemma_scan_bounds(s1, i);
    let sc = scan(s1, i);
    if step_ok(s1, i, sc.end) {
        if sc.tok is DoubleDot {
            lemma_sp_value_shift(s1, s2, d, sc.end);
        }
    }
}

/// The array body depends only on the text from its own position on.
proof fn lemma_sp_array_shift(s1: Seq<char>, s2: Seq<char>, d: int, i: int)
    requires
        tail_of(s2, d, s1),
        0 <= i <= s1.len(),
    ensures
        sp_array(s2, d + i).0 == sp_array(s1, i).0,
        sp_array(s2, d + i).1 == d + sp_array(s1, i).1,
        i <= sp_array(s1, i).1 <= s1.len(),
        !(scan(s1, i).tok is EOF) ==> sp_array(s1, i).1 >= scan(s1, i).end,
    decreases s1.len() - i, 1int,
{
    lemma_sp_value_shift(s1, s2, d, i);
    let (vr, j) = sp_value(s1, i);
    if vr is Ok {
        lemma_scan_shift(s1, s2, d, j);
        lemma_scan_bounds(s1, j);
        let sc = scan(s1, j);
        if sc.tok is Comma && i < sc.end && sc.end <= s1.len() {
            lemma_sp_array_shift(s1, s2, d, sc.end);
        }
    }
}

proof fn lemma_ws_prefix_skip(s2: Seq<char>, wlen: int, k: int)
    requires
        0 <= k <= wlen <= s2.len(),
        forall|j: int| 0 <= j < wlen ==> is_white(s2[j]),
    ensures
        ws_end(s2, k) == ws_end(s2, wlen),
    decreases wlen - k,
{
    if k < wlen {
        lemma_ws_prefix_skip(s2, wlen, k + 1);
    }
}

/// A run of whitespace before the first token never changes the parsed
/// result: the whole parse of the text behind it is the parse of the
/// text alone.
pub proof fn lemma_parse_ws_prefix(w: Seq<char>, s: Seq<char>)
    requires
        forall|k: int| 0 <= k < w.len() ==> is_white(w[k]),
    ensures
        spec_parse(w + s) == spec_parse(s),
{
    let s2 = w + s;
    let d = w.len() as int;
    assert(forall|k: int| 0 <= k < d ==> s2[k] == w[k]);
    lemma_ws_prefix_skip(s2, d, 0);
    assert(tail_of(s2, d, s));
    lemma_sp_value_shift(s, s2, d, 0);
    lemma_scan_bounds(s2, d);
    lemma_ws_end(s2, d);
    let sc = scan(s2, d);
    assert(scan(s2, 0) == sc) by {
        assert(ws_end(s2, 0) == ws_end(s2, d));
    }
    assert(sp_value(s2, 0).0 == sp_value(s2, d).0) by {
        if step_ok(s2, 0, sc.end) != step_ok(s2, d, sc.end) {
            assert(sc.tok is EOF);
        }
    }
}

/// A parse of a value behind a run of whitespace alone.
proof fn lemma_sp_value_front(u: Seq<char>, t: Seq<char>)
    requires
        forall|k: int| 0 <= k < u.len() ==> is_white(u[k]),
    ensures
        sp_value(u + t, 0).0 == sp_value(t, 0).0,
        sp_value(u + t, 0).1 == u.len() + sp_value(t, 0).1,
{
    let x = u + t;
    let d = u.len() as int;
    assert(forall|k: int| 0 <= k < d ==> x[k] == u[k]);
    assert(tail_of(x, d, t));
    lemma_sp_value_shift(t, x, d, 0);
    lemma_sp_value_ws_run(x, 0, d);
}

proof fn lemma_sp_pair_front(u: Seq<char>, t: Seq<char>)
    requires
        forall|k: int| 0 <= k < u.len() ==> is_white(u[k]),
    ensures
        sp_pair(u + t, 0).0 == sp_pair(t, 0).0,
        sp_pair(u + t, 0).1 == u.len() + sp_pair(t, 0).1,
{
    let x = u + t;
    let d = u.len() as int;
    assert(forall|k: int| 0 <= k < d ==> x[k] == u[k]);
    assert(tail_of(x, d, t));
    lemma_sp_pair_shift(t, x, d, 0);
    lemma_sp_pair_ws_run(x, 0, d);
}

proof fn lemma_sp_pair_value_front(u: Seq<char>, t: Seq<char>)
    requires
        forall|k: int| 0 <= k < u.len() ==> is_white(u[k]),
    ensures
        sp_pair_value(u + t, 0).0 == sp_pair_value(t, 0).0,
        sp_pair_value(u + t, 0).1 == u.len() + sp_pair_value(t, 0).1,
{
    let x = u + t;
    let d = u.len() as int;
    assert(forall|k: int| 0 <= k < d ==> x[k] == u[k]);
    assert(tail_of(x, d, t));
    lemma_sp_pair_value_shift(t, x, d, 0);
    lemma_sp_pair_value_ws_run(x, 0, d);
}

proof fn lemma_sp_object_front(u: Seq<char>, t: Seq<char>)
    requires
        forall|k: int| 0 <= k < u.len() ==> is_white(u[k]),
    ensures
        sp_object(u + t, 0).0 == sp_object(t, 0).0,
        sp_object(u + t, 0).1 == u.len() + sp_object(t, 0).1,
{
    let x = u + t;
    let d = u.len() as int;
    assert(forall|k: int| 0 <= k < d ==> x[k] == u[k]);
    assert(tail_of(x, d, t));
    lemma_sp_object_shift(t, x, d, 0);
    lemma_sp_object_ws_run(x, 0, d);
}

proof fn lemma_sp_array_front(u: Seq<char>, t: Seq<char>)
    requires
        forall|k: int| 0 <= k < u.len() ==> is_white(u[k]),
    ensures
        sp_array(u + t, 0).0 == sp_array(t, 0).0,
        sp_array(u + t, 0).1 == u.len() + sp_array(t, 0).1,
{
    let x = u + t;
    let d = u.len() as int;
    assert(forall|k: int| 0 <= k < d ==> x[k] == u[k]);
    assert(tail_of(x, d, t));
    lemma_sp_array_shift(t, x, d, 0);
    lemma_sp_array_ws_run(x, 0, d);
}

/// A parse step launched where a token begins consumes at least that
/// token: its end lands strictly inside the text or past the token.
proof fn lemma_sp_value_min(t: Seq<char>)
    requires
        t.len() >= 1,
        !is_white(t[0]),
    ensures
        sp_value(t, 0).1 >= 1,
{
    assert(ws_end(t, 0) == 0);
    lemma_scan_bounds(t, 0);
    lemma_sp_value_shift(t, t, 0, 0);
}

proof fn lemma_sp_pair_min(t: Seq<char>)
    requires
        t.len() >= 1,
        !is_white(t[0]),
    ensures
        sp_pair(t, 0).1 >= 1,
{
    assert(ws_end(t, 0) == 0);
    lemma_scan_bounds(t, 0);
    lemma_sp_pair_shift(t, t, 0, 0);
}

proof fn lemma_sp_pair_value_min(t: Seq<char>)
    requires
        t.len() >= 1,
        !is_white(t[0]),
    ensures
        sp_pair_value(t, 0).1 >= 1,
{
    assert(ws_end(t, 0) == 0);
    lemma_scan_bounds(t, 0);
    lemma_sp_pair_value_shift(t, t, 0, 0);
}

proof fn lemma_sp_object_min(t: Seq<char>)
    requires
        t.len() >= 1,
        !is_white(t[0]),
    ensures
        sp_object(t, 0).1 >= 1,
{
    assert(ws_end(t, 0) == 0);
    lemma_scan_bounds(t, 0);
    lemma_sp_object_shift(t, t, 0, 0);
}

proof fn lemma_sp_array_min(t: Seq<char>)
    requires
        t.len() >= 1,
        !is_white(t[0]),
    ensures
        sp_array(t, 0).1 >= 1,
{
    assert(ws_end(t, 0) == 0);
    lemma_scan_bounds(t, 0);
    lemma_sp_array_shift(t, t, 0, 0);
}

/// Inserting a run of whitespace where a token of the text begins never
/// changes the parsed result. `b` is any position on the token-boundary
/// chain walked from the start; the run goes in where the token after
/// `b` starts, anywhere before the end of the text.
pub proof fn lemma_parse_ws_insert(s: Seq<char>, b: int, w: Seq<char>)
    requires
        boundary(s, 0, b),
        ws_end(s, b) < s.len(),
        forall|k: int| 0 <= k < w.len() ==> is_white(w[k]),
    ensures
        spec_parse(s.take(ws_end(s, b)) + w + s.skip(ws_end(s, b))) == spec_parse(s),
{
    lemma_boundary_bounds(s, 0, b);
    lemma_ws_end(s, b);
    let p = ws_end(s, b);
    let s2 = s.take(p) + w + s.skip(p);
    if w.len() == 0 {
        assert(s2 =~= s);
    } else {
        lemma_sp_value_wsi(s, s2, w, b, p, 0);
    }
}

proof fn lemma_ws_run(s: Seq<char>, i: int, j: int)
    requires
        0 <= i <= j <= s.len(),
        forall|k: int| i <= k < j ==> is_white(s[k]),
    ensures
        ws_end(s, i) == ws_end(s, j),
    decreases j - i,
{
    if i < j {
        lemma_ws_run(s, i + 1, j);
    }
}

/// A scan from a position below a run of leading whitespace finds the
/// same token as a scan from just past that run.
proof fn lemma_scan_ws_run(s: Seq<char>, i: int, j: int)
    requires
        0 <= i <= j <= s.len(),
        forall|k: int| i <= k < j ==> is_white(s[k]),
    ensures
        scan(s, i) == scan(s, j),
{
    lemma_ws_run(s, i, j);
}

/// A parse step from a position below a run of leading whitespace gives
/// what the step from just past that run gives.
proof fn lemma_sp_value_ws_run(s: Seq<char>, i: int, j: int)
    requires
        0 <= i <= j <= s.len(),
        forall|k: int| i <= k < j ==> is_white(s[k]),
    ensures
        sp_value(s, i) == sp_value(s, j),
{
    lemma_scan_ws_run(s, i, j);
    lemma_scan_bounds(s, j);
    lemma_ws_end(s, j);
    let sc = scan(s, j);
    if step_ok(s, i, sc.end) != step_ok(s, j, sc.end) {
        assert(sc.tok is EOF);
    }
}

proof fn lemma_sp_pair_ws_run(s: Seq<char>, i: int, j: int)
    requires
        0 <= i <= j <= s.len(),
        forall|k: int| i <= k < j ==> is_white(s[k]),
    ensures
        sp_pair(s, i) == sp_pair(s, j),
{
    lemma_scan_ws_run(s, i, j);
    lemma_scan_bounds(s, j);
    lemma_ws_end(s, j);
    let sc = scan(s, j);
    if step_ok(s, i, sc.end) != step_ok(s, j, sc.end) {
        assert(sc.tok is EOF);
    }
}

proof fn lemma_sp_pair_value_ws_run(s: Seq<char>, i: int, j: int)
    requires
        0 <= i <= j <= s.len(),
        forall|k: int| i <= k < j ==> is_white(s[k]),
    ensures
        sp_pair_value(s, i) == sp_pair_value(s, j),
{
    lemma_scan_ws_run(s, i, j);
    lemma_scan_bounds(s, j);
    lemma_ws_end(s, j);
    let sc = scan(s, j);
    if step_ok(s, i, sc.end) != step_ok(s, j, sc.end) {
        assert(sc.tok is EOF);
    }
}

proof fn lemma_sp_object_ws_run(s: Seq<char>, i: int, j: int)
    requires
        0 <= i <= j <= s.len(),
        forall|k: int| i <= k < j ==> is_white(s[k]),
    ensures
        sp_object(s, i).0 == sp_object(s, j).0,
        sp_object(s, i).1 == sp_object(s, j).1,
{
    lemma_sp_pair_ws_run(s, i, j);
    lemma_sp_pair_shift(s, s, 0, j);
    lemma_scan_bounds(s, j);
    let (pr, e) = sp_pair(s, j);
    if pr is Ok {
        if step_ok(s, i, e) != step_ok(s, j, e) {
            // A successful pair consumed its key token, so its end lies
            // past the scan that began it; both steps are in range.
            assert(!(scan(s, j).tok is EOF));
            assert(e >= scan(s, j).end);
            lemma_ws_end(s, j);
            assert(false);
        }
    }
}

proof fn lemma_sp_array_ws_run(s: Seq<char>, i: int, j: int)
    requires
        0 <= i <= j <= s.len(),
        forall|k: int| i <= k < j ==> is_white(s[k]),
    ensures
        sp_array(s, i).0 == sp_array(s, j).0,
        sp_array(s, i).1 == sp_array(s, j).1,
{
    lemma_sp_value_ws_run(s, i, j);
    lemma_sp_value_shift(s, s, 0, j);
    let (vr, e) = sp_value(s, j);
    if vr is Ok {
        lemma_scan_bounds(s, e);
        lemma_scan_bounds(s, j);
        let sc = scan(s, e);
        if sc.tok is Comma {
            assert(!(scan(s, j).tok is EOF));
            assert(e >= scan(s, j).end);
            lemma_ws_end(s, j);
            assert(i < sc.end && j < sc.end);
        }
    }
}

/// Position `q` lies on the token-boundary chain of the text, walked
/// from position `i`.
pub open spec fn boundary(s: Seq<char>, i: int, q: int) -> bool
    decreases s.len() - i,
{
    i == q || {
        let sc = scan(s, i);
        &&& !(sc.tok is EOF)
        &&& step_ok(s, i, sc.end)
        &&& boundary(s, sc.end, q)
    }
}

proof fn lemma_boundary_bounds(s: Seq<char>, i: int, q: int)
    requires
        0 <= i <= s.len(),
        boundary(s, i, q),
    ensures
        i <= q <= s.len(),
    decreases s.len() - i,
{
    if i != q {
        lemma_boundary_bounds(s, scan(s, i).end, q);
    }
}

/// What the inserted text looks like around the insertion point.
pub open spec fn inserted(s: Seq<char>, p: int, w: Seq<char>, s2: Seq<char>) -> bool {
    &&& 0 <= p < s.len()
    &&& w.len() >= 1
    &&& (forall|k: int| 0 <= k < w.len() ==> is_white(w[k]))
    &&& s2 == s.take(p) + w + s.skip(p)
}

proof fn lemma_ws_end_local(s: Seq<char>, s2: Seq<char>, p: int, i: int)
    requires
        0 <= i <= s.len(),
        p <= s.len(),
        p <= s2.len(),
        forall|k: int| 0 <= k < p ==> s2[k] == s[k],
        ws_end(s, i) < p,
    ensures
        ws_end(s2, i) == ws_end(s, i),
    decreases s.len() - i,
{
    lemma_ws_end(s, i);
    if i < s.len() && is_white(s[i]) {
        lemma_ws_end_local(s, s2, p, i + 1);
    }
}

proof fn lemma_str_end_local(s: Seq<char>, s2: Seq<char>, p: int, i: int)
    requires
        0 <= i <= s.len(),
        p <= s.len(),
        p <= s2.len(),
        forall|k: int| 0 <= k < p ==> s2[k] == s[k],
        str_end(s, i) < p,
    ensures
        str_end(s2, i) == str_end(s, i),
    decreases s.len() - i,
{
    lemma_str_end(s, i);
    if i < s.len() && s[i] != '"' {
        lemma_str_end_local(s, s2, p, i + 1);
    }
}

proof fn lemma_num_end_local(s: Seq<char>, s2: Seq<char>, p: int, i: int)
    requires
        0 <= i <= s.len(),
        p < s.len(),
        p < s2.len(),
        forall|k: int| 0 <= k < p ==> s2[k] == s[k],
        !is_digit(s2[p]),
        num_end(s, i) <= p,
    ensures
        num_end(s2, i) == num_end(s, i),
    decreases s.len() - i,
{
    lemma_num_end(s, i);
    if i < s.len() && is_digit(s[i]) {
        lemma_num_end_local(s, s2, p, i + 1);
    }
}

/// A scan that ends at or before the insertion point is untouched by
/// the insertion: it reads nothing past its own end but one character
/// of lookahead, which the inserted whitespace cannot turn into a digit.
proof fn lemma_scan_local(s: Seq<char>, s2: Seq<char>, p: int, i: int)
    requires
        0 <= i <= s.len(),
        0 <= p < s.len(),
        p < s2.len(),
        forall|k: int| 0 <= k < p ==> s2[k] == s[k],
        !is_digit(s2[p]),
        scan(s, i).end <= p,
    ensures
        scan(s2, i).tok == scan(s, i).tok,
        scan(s2, i).end == scan(s, i).end,
{
    lemma_ws_end(s, i);
    lemma_scan_bounds(s, i);
    let j = ws_end(s, i);
    assert(!(scan(s, i).tok is EOF));
    assert(j < scan(s, i).end);
    lemma_ws_end_local(s, s2, p, i);
    assert(s2[j] == s[j]);
    let c = s[j];
    if c == '"' {
        assert(j + 1 < s.len());
        lemma_str_end(s, j + 2);
        let e = str_end(s, j + 2);
        assert(e < s.len() && scan(s, i).end == e + 1);
        lemma_str_end_local(s, s2, p, j + 2);
        assert(s2.subrange(j + 1, e) =~= s.subrange(j + 1, e));
    } else if !(c == '{' || c == '}' || c == '[' || c == ']' || c == ',' || c == ':') {
        if is_alpha(c) || c == '_' {
            assert(j + 4 <= s.len());
            assert(j + 4 <= p || (j + 5 <= p && s.subrange(j, j + 4) == seq!['f', 'a', 'l', 's']));
            assert(s2.subrange(j, j + 4) =~= s.subrange(j, j + 4));
            if s.subrange(j, j + 4) == seq!['f', 'a', 'l', 's'] {
                assert(j + 5 <= s.len());
                assert(s2[j + 4] == s[j + 4]);
            }
        } else if is_digit(c) {
            lemma_num_end(s, j + 1);
            let e = num_end(s, j + 1);
            lemma_num_end_local(s, s2, p, j + 1);
            assert(s2.subrange(j, e) =~= s.subrange(j, e));
        }
    }
}

/// The value step is untouched by whitespace inserted at a boundary of
/// the chain it walks.
#[verifier::rlimit(100)]
#[verifier::spinoff_prover]
proof fn lemma_sp_value_wsi(s: Seq<char>, s2: Seq<char>, w: Seq<char>, b: int, p: int, i: int)
    requires
        0 <= i <= s.len(),
        0 <= b <= s.len(),
        boundary(s, i, b),
        p == ws_end(s, b),
        inserted(s, p, w, s2),
    ensures
        sp_value(s2, i).0 == sp_value(s, i).0,
        sp_value(s2, i).1 == (if sp_value(s, i).1 <= b {
            sp_value(s, i).1
        } else {
            sp_value(s, i).1 + w.len()
        }),
        i <= sp_value(s, i).1 <= s.len(),
        boundary(s, sp_value(s, i).1, b) || sp_value(s, i).1 > p,
    decreases s.len() - i, 0int,
{
    lemma_ws_end(s, b);
    lemma_insert_facts(s, s2, w, p);
    lemma_boundary_bounds(s, i, b);
    if i == b {
        let t = s.skip(p);
        let u1 = s.subrange(b, p);
        let u2 = s.subrange(b, p) + w;
        assert(s.skip(b) =~= u1 + t);
        assert(s2.skip(b) =~= u2 + t);
        lemma_sp_value_front(u1, t);
        lemma_sp_value_front(u2, t);
        lemma_sp_value_shift(s.skip(b), s, b, 0);
        lemma_sp_value_shift(s2.skip(b), s2, b, 0);
        lemma_sp_value_min(t);
        assert(sp_value(s, b).0 == sp_value(t, 0).0);
        assert(sp_value(s, b).1 == p + sp_value(t, 0).1);
        assert(sp_value(s2, b).0 == sp_value(t, 0).0);
        assert(sp_value(s2, b).1 == p + w.len() + sp_value(t, 0).1);
        assert(sp_value(s, b).1 > p >= b);
    } else {
        lemma_scan_bounds(s, i);
        let sc = scan(s, i);
        lemma_boundary_bounds(s, sc.end, b);
        lemma_scan_local(s, s2, p, i);
        if step_ok(s, i, sc.end) {
            match sc.tok {
                crate::token::Tok::LBraces => {
                    lemma_sp_object_wsi(s, s2, w, b, p, sc.end);
                }
                crate::token::Tok::LBracket => {
                    lemma_sp_array_wsi(s, s2, w, b, p, sc.end);
                }
                _ => {}
            }
        }
    }
}

/// The object body is untouched by whitespace inserted at a boundary.
#[verifier::rlimit(100)]
#[verifier::spinoff_prover]
proof fn lemma_sp_object_wsi(s: Seq<char>, s2: Seq<char>, w: Seq<char>, b: int, p: int, i: int)
    requires
        0 <= i <= s.len(),
        0 <= b <= s.len(),
        boundary(s, i, b),
        p == ws_end(s, b),
        inserted(s, p, w, s2),
    ensures
        sp_object(s2, i).0 == sp_object(s, i).0,
        sp_object(s2, i).1 == (if sp_object(s, i).1 <= b {
            sp_object(s, i).1
        } else {
            sp_object(s, i).1 + w.len()
        }),
        i <= sp_object(s, i).1 <= s.len(),
        boundary(s, sp_object(s, i).1, b) || sp_object(s, i).1 > p,
    decreases s.len() - i, 3int,
{
    lemma_ws_end(s, b);
    lemma_insert_facts(s, s2, w, p);
    lemma_boundary_bounds(s, i, b);
    if i == b {
        let t = s.skip(p);
        let u1 = s.subrange(b, p);
        let u2 = s.subrange(b, p) + w;
        assert(s.skip(b) =~= u1 + t);
        assert(s2.skip(b) =~= u2 + t);
        lemma_sp_object_front(u1, t);
        lemma_sp_object_front(u2, t);
        lemma_sp_object_shift(s.skip(b), s, b, 0);
        lemma_sp_object_shift(s2.skip(b), s2, b, 0);
        lemma_sp_object_min(t);
        assert(sp_object(s, b).0 == sp_object(t, 0).0);
        assert(sp_object(s, b).1 == p + sp_object(t, 0).1);
        assert(sp_object(s2, b).0 == sp_object(t, 0).0);
        assert(sp_object(s2, b).1 == p + w.len() + sp_object(t, 0).1);
        assert(sp_object(s, b).1 > p >= b);
    } else {
        lemma_sp_pair_wsi(s, s2, w, b, p, i);
        let (pr, j) = sp_pair(s, i);
        if pr is Ok && step_ok(s, i, j) {
            if boundary(s, j, b) {
                lemma_boundary_bounds(s, j, b);
                lemma_sp_object_wsi(s, s2, w, b, p, j);
            } else {
                // The pair ran past the insertion point: the rest of the
                // object is a pure shift.
                assert(j > p);
                let t = s.skip(p);
                assert(tail_of(s, p, t));
                assert(tail_of(s2, p + w.len(), t));
                lemma_sp_object_shift(t, s, p, j - p);
                lemma_sp_object_shift(t, s2, p + w.len() as int, j - p);
            }
        }
    }
}

/// The pair step is untouched by whitespace inserted at a boundary.
#[verifier::rlimit(100)]
#[verifier::spinoff_prover]
proof fn lemma_sp_pair_wsi(s: Seq<char>, s2: Seq<char>, w: Seq<char>, b: int, p: int, i: int)
    requires
        0 <= i <= s.len(),
        0 <= b <= s.len(),
        boundary(s, i, b),
        p == ws_end(s, b),
        inserted(s, p, w, s2),
    ensures
        sp_pair(s2, i).0 == sp_pair(s, i).0,
        sp_pair(s2, i).1 == (if sp_pair(s, i).1 <= b {
            sp_pair(s, i).1
        } else {
            sp_pair(s, i).1 + w.len()
        }),
        i <= sp_pair(s, i).1 <= s.len(),
        boundary(s, sp_pair(s, i).1, b) || sp_pair(s, i).1 > p,
    decreases s.len() - i, 2int,
{
    lemma_ws_end(s, b);
    lemma_insert_facts(s, s2, w, p);
    lemma_boundary_bounds(s, i, b);
    if i == b {
        let t = s.skip(p);
        let u1 = s.subrange(b, p);
        let u2 = s.subrange(b, p) + w;
        assert(s.skip(b) =~= u1 + t);
        assert(s2.skip(b) =~= u2 + t);
        lemma_sp_pair_front(u1, t);
        lemma_sp_pair_front(u2, t);
        lemma_sp_pair_shift(s.skip(b), s, b, 0);
        lemma_sp_pair_shift(s2.skip(b), s2, b, 0);
        lemma_sp_pair_min(t);
        assert(sp_pair(s, b).0 == sp_pair(t, 0).0);
        assert(sp_pair(s, b).1 == p + sp_pair(t, 0).1);
        assert(sp_pair(s2, b).0 == sp_pair(t, 0).0);
        assert(sp_pair(s2, b).1 == p + w.len() + sp_pair(t, 0).1);
        assert(sp_pair(s, b).1 > p >= b);
    } else {
        lemma_scan_bounds(s, i);
        let sc = scan(s, i);
        lemma_boundary_bounds(s, sc.end, b);
        lemma_scan_local(s, s2, p, i);
        if step_ok(s, i, sc.end) {
            match sc.tok {
                crate::token::Tok::Str(_) => {
                    lemma_sp_pair_value_wsi(s, s2, w, b, p, sc.end);
                }
                crate::token::Tok::Int(_) => {
                    lemma_sp_pair_value_wsi(s, s2, w, b, p, sc.end);
                }
                crate::token::Tok::Comma => {
                    lemma_sp_pair_wsi(s, s2, w, b, p, sc.end);
                }
                _ => {}
            }
        }
    }
}

/// The step after a key is untouched by whitespace inserted at a boundary.
#[verifier::rlimit(100)]
#[verifier::spinoff_prover]
proof fn lemma_sp_pair_value_wsi(
    s: Seq<char>,
    s2: Seq<char>,
    w: Seq<char>,
    b: int,
    p: int,
    i: int,
)
    requires
        0 <= i <= s.len(),
        0 <= b <= s.len(),
        boundary(s, i, b),
        p == ws_end(s, b),
        inserted(s, p, w, s2),
    ensures
        sp_pair_value(s2, i).0 == sp_pair_value(s, i).0,
        sp_pair_value(s2, i).1 == (if sp_pair_value(s, i).1 <= b {
            sp_pair_value(s, i).1
        } else {
            sp_pair_value(s, i).1 + w.len()
        }),
        i <= sp_pair_value(s, i).1 <= s.len(),
        boundary(s, sp_pair_value(s, i).1, b) || sp_pair_value(s, i).1 > p,
    decreases s.len() - i, 1int,
{
    lemma_ws_end(s, b);
    lemma_insert_facts(s, s2, w, p);
    lemma_boundary_bounds(s, i, b);
    if i == b {
        let t = s.skip(p);
        let u1 = s.subrange(b, p);
        let u2 = s.subrange(b, p) + w;
        assert(s.skip(b) =~= u1 + t);
        assert(s2.skip(b) =~= u2 + t);
        lemma_sp_pair_value_front(u1, t);
        lemma_sp_pair_value_front(u2, t);
        lemma_sp_pair_value_shift(s.skip(b), s, b, 0);
        lemma_sp_pair_value_shift(s2.skip(b), s2, b, 0);
        lemma_sp_pair_value_min(t);
        assert(sp_pair_value(s, b).0 == sp_pair_value(t, 0).0);
        assert(sp_pair_value(s, b).1 == p + sp_pair_value(t, 0).1);
        assert(sp_pair_value(s2, b).0 == sp_pair_value(t, 0).0);
        assert(sp_pair_value(s2, b).1 == p + w.len() + sp_pair_value(t, 0).1);
        assert(sp_pair_value(s, b).1 > p >= b);
    } else {
        lemma_scan_bounds(s, i);
        let sc = scan(s, i);
        lemma_boundary_bounds(s, sc.end, b);
        lemma_scan_local(s, s2, p, i);
        if step_ok(s, i, sc.end) {
            if sc.tok is DoubleDot {
                lemma_sp_value_wsi(s, s2, w, b, p, sc.end);
            }
        }
    }
}


/// The array step launched exactly at the boundary: the widened text
/// shifts it whole.
#[verifier::rlimit(100)]
#[verifier::spinoff_prover]
proof fn lemma_sp_array_at_boundary(s: Seq<char>, s2: Seq<char>, w: Seq<char>, b: int, p: int)
    requires
        0 <= b <= s.len(),
        p == ws_end(s, b),
        inserted(s, p, w, s2),
    ensures
        sp_array(s2, b).0 == sp_array(s, b).0,
        sp_array(s2, b).1 == sp_array(s, b).1 + w.len(),
        b <= sp_array(s, b).1 <= s.len(),
        sp_array(s, b).1 > p,
{
    lemma_ws_end(s, b);
    lemma_insert_facts(s, s2, w, p);
    let t = s.skip(p);
    let u1 = s.subrange(b, p);
    let u2 = s.subrange(b, p) + w;
    assert(s.skip(b) =~= u1 + t);
    assert(s2.skip(b) =~= u2 + t);
    lemma_sp_array_front(u1, t);
    lemma_sp_array_front(u2, t);
    lemma_sp_array_shift(s.skip(b), s, b, 0);
    lemma_sp_array_shift(s2.skip(b), s2, b, 0);
    lemma_sp_array_min(t);
    assert(sp_array(s, b).0 == sp_array(t, 0).0);
    assert(sp_array(s, b).1 == p + sp_array(t, 0).1);
    assert(sp_array(s2, b).0 == sp_array(t, 0).0);
    assert(sp_array(s2, b).1 == p + w.len() + sp_array(t, 0).1);
}

/// The array body is untouched by whitespace inserted at a boundary.
#[verifier::rlimit(100)]
#[verifier::spinoff_prover]
proof fn lemma_sp_array_wsi(s: Seq<char>, s2: Seq<char>, w: Seq<char>, b: int, p: int, i: int)
    requires
        0 <= i <= s.len(),
        0 <= b <= s.len(),
        boundary(s, i, b),
        p == ws_end(s, b),
        inserted(s, p, w, s2),
    ensures
        sp_array(s2, i).0 == sp_array(s, i).0,
        sp_array(s2, i).1 == (if sp_array(s, i).1 <= b {
            sp_array(s, i).1
        } else {
            sp_array(s, i).1 + w.len()
        }),
        i <= sp_array(s, i).1 <= s.len(),
        boundary(s, sp_array(s, i).1, b) || sp_array(s, i).1 > p,
    decreases s.len() - i, 1int,
{
    lemma_ws_end(s, b);
    lemma_insert_facts(s, s2, w, p);
    lemma_boundary_bounds(s, i, b);
    if i == b {
        lemma_sp_array_at_boundary(s, s2, w, b, p);
    } else {
        lemma_sp_value_wsi(s, s2, w, b, p, i);
        let (vr, j) = sp_value(s, i);
        if vr is Ok {
            if boundary(s, j, b) {
                lemma_boundary_bounds(s, j, b);
                lemma_scan_bounds(s, j);
                let sc = scan(s, j);
                if j == b {
                    // The separator after the element is the token at the
                    // boundary itself: past it everything is a pure shift.
                    lemma_scan_at_boundary(s, s2, w, b, p);
                    if sc.tok is Comma && i < sc.end && sc.end <= s.len() {
                        let t = s.skip(p);
                        lemma_sp_array_shift(t, s, p, sc.end - p);
                        lemma_sp_array_shift(t, s2, p + w.len() as int, sc.end - p);
                    }
                } else {
                    lemma_boundary_bounds(s, sc.end, b);
                    lemma_scan_local(s, s2, p, j);
                    if sc.tok is Comma && i < sc.end && sc.end <= s.len() {
                        lemma_sp_array_wsi(s, s2, w, b, p, sc.end);
                    }
                }
            } else {
                // The element ran past the insertion point: the rest of
                // the array is a pure shift.
                assert(j > p);
                let t = s.skip(p);
                assert(tail_of(s, p, t));
                assert(tail_of(s2, p + w.len(), t));
                lemma_scan_shift(t, s, p, j - p);
                lemma_scan_shift(t, s2, p + w.len() as int, j - p);
                lemma_scan_bounds(s, j);
                let sc = scan(s, j);
                if sc.tok is Comma && i < sc.end && sc.end <= s.len() {
                    lemma_sp_array_shift(t, s, p, sc.end - p);
                    lemma_sp_array_shift(t, s2, p + w.len() as int, sc.end - p);
                }
            }
        }
    }
}

/// The token at the boundary itself: in the widened text it stands
/// after the inserted run, shifted whole.
#[verifier::rlimit(50)]
proof fn lemma_scan_at_boundary(s: Seq<char>, s2: Seq<char>, w: Seq<char>, b: int, p: int)
    requires
        0 <= b <= s.len(),
        p == ws_end(s, b),
        inserted(s, p, w, s2),
    ensures
        scan(s2, b).tok == scan(s, b).tok,
        scan(s2, b).end == scan(s, b).end + w.len(),
        scan(s, b).end > p,
        !(scan(s, b).tok is EOF),
    decreases 0int,
{
    lemma_ws_end(s, b);
    lemma_insert_facts(s, s2, w, p);
    let t = s.skip(p);
    let d = w.len() as int;
    assert(tail_of(s, p, t));
    assert(tail_of(s2, p + d, t));
    lemma_scan_shift(t, s, p, 0);
    lemma_scan_shift(t, s2, p + d, 0);
    lemma_scan_bounds(t, 0);
    assert(ws_end(t, 0) == 0) by {
        assert(!is_white(t[0]));
    }
    lemma_ws_run(s, b, p);
    assert(scan(s, b) == scan(s, p)) by {
        assert(ws_end(s, p) == p) by {
            assert(!is_white(s[p]));
        }
    }
    lemma_ws_run(s2, b, p + d);
    assert(scan(s2, b) == scan(s2, p + d)) by {
        assert(ws_end(s2, p + d) == p + d) by {
            assert(s2[p + d] == s[p]);
            assert(!is_white(s2[p + d]));
        }
    }
}

/// Common arithmetic about the widened text.
proof fn lemma_insert_facts(s: Seq<char>, s2: Seq<char>, w: Seq<char>, p: int)
    requires
        inserted(s, p, w, s2),
    ensures
        s2.len() == s.len() + w.len(),
        forall|k: int| 0 <= k < p ==> s2[k] == s[k],
        forall|k: int| 0 <= k < w.len() ==> s2[p + k] == w[k],
        tail_of(s2, p + w.len(), s.skip(p)),
        tail_of(s, p, s.skip(p)),
        !is_digit(s2[p]),
{
    assert(is_white(s2[p]));
}

} // verus!
