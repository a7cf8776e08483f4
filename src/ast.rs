//! Expression trees of dice notation and the parser that builds them.
//!
//! An expression is split at the rightmost occurrence of an operator that stands outside
//! every parenthesis pair, trying the operators from the loosest binding to the tightest:
//! `+ - * / cs<= cs< kh d`.
use vstd::prelude::*;
use vstd::string::{StrSliceExecFns, StringExecFns};

use crate::Int;

verus! {

/// Why an expression could not be parsed.
#[derive(Debug, PartialEq, Eq)]
pub enum ValueParseError {
    /// The fragments that are neither digits, whitespace, nor operators.
    InvalidOperators(Vec<String>),
    /// Opening and closing parentheses do not pair up.
    InvalidParentheses,
}

/// A node of an expression tree.
#[derive(Debug, PartialEq, Eq)]
pub enum Value {
    /// An operand that was left out.
    Default,
    Constant(Int),
    Operator(Box<Operator>),
}

/// A binary operation over two operands.
#[derive(Debug, PartialEq, Eq)]
pub enum Operator {
    Plus(Value, Value),
    Minus(Value, Value),
    Multiply(Value, Value),
    Divide(Value, Value),
    KeepHighest(Value, Value),
    CountSuccesses(Value, Value),
    Dice(Value, Value),
}

/// The operator tokens of the notation.
#[derive(Clone, Copy, Debug, PartialEq, Eq)]
pub enum Token {
    Plus,
    Minus,
    Times,
    Over,
    AtMost,
    Below,
    Keep,
    Die,
}

/// The text of a token.
pub open spec fn token_text(tok: Token) -> Seq<char> {
    match tok {
        Token::Plus => seq!['+'],
        Token::Minus => seq!['-'],
        Token::Times => seq!['*'],
        Token::Over => seq!['/'],
        Token::AtMost => seq!['c', 's', '<', '='],
        Token::Below => seq!['c', 's', '<'],
        Token::Keep => seq!['k', 'h'],
        Token::Die => seq!['d'],
    }
}

/// The tokens in the order in which the parser tries them.
pub open spec fn token_of_rank(n: int) -> Token {
    if n <= 0 {
        Token::Plus
    } else if n == 1 {
        Token::Minus
    } else if n == 2 {
        Token::Times
    } else if n == 3 {
        Token::Over
    } else if n == 4 {
        Token::AtMost
    } else if n == 5 {
        Token::Below
    } else if n == 6 {
        Token::Keep
    } else {
        Token::Die
    }
}

/// The operator node that the token makes of its two operands; `l cs<= r` counts the
/// faces above `r + 1`.
pub open spec fn build(tok: Token, l: Value, r: Value) -> Operator {
    match tok {
        Token::Plus => Operator::Plus(l, r),
        Token::Minus => Operator::Minus(l, r),
        Token::Times => Operator::Multiply(l, r),
        Token::Over => Operator::Divide(l, r),
        Token::AtMost => Operator::CountSuccesses(
            l,
            Value::Operator(Box::new(Operator::Plus(r, Value::Constant(1)))),
        ),
        Token::Below => Operator::CountSuccesses(l, r),
        Token::Keep => Operator::KeepHighest(l, r),
        Token::Die => Operator::Dice(l, r),
    }
}

/// `char::is_whitespace`: the characters of Unicode's White_Space property.
pub open spec fn is_ws(c: char) -> bool {
    let u = c as u32;
    (9 <= u <= 13) || u == 32 || u == 0x85 || u == 0xA0 || u == 0x1680 || (0x2000 <= u <= 0x200A)
        || u == 0x2028 || u == 0x2029 || u == 0x202F || u == 0x205F || u == 0x3000
}

/// The whitespace that separates invalid fragments: space, tab, line feed, form feed,
/// carriage return.
pub open spec fn is_ascii_ws(c: char) -> bool {
    c == ' ' || c == '\t' || c == '\n' || c == '\x0C' || c == '\r'
}

pub open spec fn is_digit(c: char) -> bool {
    '0' <= c <= '9'
}

pub open spec fn skip_front(t: Seq<char>, lo: int, hi: int) -> int
    decreases hi - lo,
{
    if lo < hi && is_ws(t[lo]) {
        skip_front(t, lo + 1, hi)
    } else {
        lo
    }
}

pub open spec fn skip_back(t: Seq<char>, lo: int, hi: int) -> int
    decreases hi - lo,
{
    if lo < hi && is_ws(t[hi - 1]) {
        skip_back(t, lo, hi - 1)
    } else {
        hi
    }
}

/// Start of `t[lo..hi]` with leading whitespace removed.
pub open spec fn trim_lo(t: Seq<char>, lo: int, hi: int) -> int {
    let a = skip_front(t, lo, hi);
    if lo <= a <= hi {
        a
    } else {
        lo
    }
}

/// End of `t[lo..hi]` with trailing whitespace removed.
pub open spec fn trim_hi(t: Seq<char>, lo: int, hi: int) -> int {
    let a = trim_lo(t, lo, hi);
    let b = skip_back(t, a, hi);
    if a <= b <= hi {
        b
    } else {
        hi
    }
}

/// Opening minus closing parentheses in `t[lo..p]`.
pub open spec fn depth(t: Seq<char>, lo: int, p: int) -> int
    decreases p - lo,
{
    if p <= lo {
        0
    } else {
        depth(t, lo, p - 1) + paren_step(t[p - 1])
    }
}

pub open spec fn paren_step(c: char) -> int {
    if c == '(' {
        1
    } else if c == ')' {
        -1
    } else {
        0
    }
}

/// `t[lo..hi]` is one parenthesis pair around the rest.
pub open spec fn wrapped(t: Seq<char>, lo: int, hi: int) -> bool {
    &&& hi - lo >= 2
    &&& t[lo] == '('
    &&& t[hi - 1] == ')'
    &&& depth(t, lo, hi) == 0
    &&& forall|q: int| lo < q < hi ==> depth(t, lo, q) > 0
}

/// The token's text starts at `i` and ends by `hi`.
pub open spec fn occurs(t: Seq<char>, i: int, hi: int, tok: Token) -> bool {
    &&& 0 <= i
    &&& i + token_text(tok).len() <= hi
    &&& t.subrange(i, i + token_text(tok).len()) == token_text(tok)
}

/// The token occurs at `p` outside every parenthesis pair of `t[lo..hi]`.
pub open spec fn is_split(t: Seq<char>, lo: int, hi: int, tok: Token, p: int) -> bool {
    lo <= p && occurs(t, p, hi, tok) && depth(t, lo, p) == 0
}

pub open spec fn has_split(t: Seq<char>, lo: int, hi: int, tok: Token) -> bool {
    exists|p: int| is_split(t, lo, hi, tok, p)
}

/// The rightmost place where the token splits `t[lo..hi]`.
pub open spec fn split_point(t: Seq<char>, lo: int, hi: int, tok: Token) -> int {
    choose|p: int|
        is_split(t, lo, hi, tok, p) && forall|q: int| q > p ==> !is_split(t, lo, hi, tok, q)
}

/// The first token, from rank `n` on, that splits `t[lo..hi]`.
pub open spec fn first_token(t: Seq<char>, lo: int, hi: int, n: int) -> Option<Token>
    decreases 8 - n,
{
    if n >= 8 {
        None
    } else if has_split(t, lo, hi, token_of_rank(n)) {
        Some(token_of_rank(n))
    } else {
        first_token(t, lo, hi, n + 1)
    }
}

/// The number written by the decimal digits `t[a..b]`.
pub open spec fn digits_value(t: Seq<char>, a: int, b: int) -> int
    decreases b - a,
{
    if b <= a {
        0
    } else {
        digits_value(t, a, b - 1) * 10 + ((t[b - 1] as u32) - ('0' as u32))
    }
}

/// The integer that `t[lo..hi]` writes as an optional sign and decimal digits, where it
/// fits in an `Int`.
pub open spec fn int_value(t: Seq<char>, lo: int, hi: int) -> Option<int> {
    let signed = lo < hi && (t[lo] == '-' || t[lo] == '+');
    let a = if signed {
        lo + 1
    } else {
        lo
    };
    let v = if signed && t[lo] == '-' {
        -digits_value(t, a, hi)
    } else {
        digits_value(t, a, hi)
    };
    if a < hi && (forall|q: int| a <= q < hi ==> is_digit(#[trigger] t[q])) && Int::MIN <= v
        <= Int::MAX {
        Some(v)
    } else {
        None
    }
}

/// Length of the token that a scan for invalid fragments removes at `i`: an operator
/// (tried in order) or a digit; 0 where there is none.
pub open spec fn removed_len(t: Seq<char>, i: int, hi: int) -> int {
    if occurs(t, i, hi, Token::Plus) || occurs(t, i, hi, Token::Minus) || occurs(
        t,
        i,
        hi,
        Token::Times,
    ) || occurs(t, i, hi, Token::Over) {
        1
    } else if occurs(t, i, hi, Token::AtMost) {
        4
    } else if occurs(t, i, hi, Token::Below) {
        3
    } else if occurs(t, i, hi, Token::Keep) {
        2
    } else if occurs(t, i, hi, Token::Die) || (0 <= i < hi && is_digit(t[i])) {
        1
    } else {
        0
    }
}

/// The fragment `t[start..i]`, if it is not empty.
pub open spec fn flush(t: Seq<char>, start: int, i: int) -> Seq<Seq<char>> {
    if start < i {
        seq![t.subrange(start, i)]
    } else {
        seq![]
    }
}

/// The fragments of `t[i..hi]` left between removed tokens and ASCII whitespace, the
/// current one having begun at `start`.
pub open spec fn fragments(t: Seq<char>, start: int, i: int, hi: int) -> Seq<Seq<char>>
    decreases hi - i,
{
    if i >= hi {
        flush(t, start, i)
    } else {
        let n = removed_len(t, i, hi);
        if n > 0 {
            flush(t, start, i) + fragments(t, i + n, i + n, hi)
        } else if is_ascii_ws(t[i]) {
            flush(t, start, i) + fragments(t, i + 1, i + 1, hi)
        } else {
            fragments(t, start, i + 1, hi)
        }
    }
}

/// What parsing `t[lo..hi]` gives: a tree, or `Err(None)` for unpaired parentheses, or
/// `Err(Some(f))` for the invalid fragments `f`.
pub open spec fn parse_range(t: Seq<char>, lo: int, hi: int) -> Result<
    Value,
    Option<Seq<Seq<char>>>,
>
    decreases hi - lo,
{
    let a = trim_lo(t, lo, hi);
    let b = trim_hi(t, lo, hi);
    if a >= b {
        Ok(Value::Default)
    } else if wrapped(t, a, b) {
        parse_range(t, a + 1, b - 1)
    } else if int_value(t, a, b) is Some {
        Ok(Value::Constant(int_value(t, a, b).unwrap() as Int))
    } else {
        match first_token(t, a, b, 0) {
            Some(tok) => {
                let p = split_point(t, a, b, tok);
                let n = token_text(tok).len() as int;
                if !(a <= p && p + n <= b) {
                    Ok(Value::Default)
                } else {
                    match parse_range(t, a, p) {
                        Err(e) => Err(e),
                        Ok(l) => match parse_range(t, p + n, b) {
                            Err(e) => Err(e),
                            Ok(r) => Ok(Value::Operator(Box::new(build(tok, l, r)))),
                        },
                    }
                }
            },
            None => if depth(t, a, b) != 0 {
                Err(None)
            } else {
                Err(Some(fragments(t, a, a, b)))
            },
        }
    }
}

/// The executable result agrees with the parse model.
pub open spec fn parsed_as(r: Result<Value, ValueParseError>, m: Result<Value, Option<Seq<Seq<char>>>>) -> bool {
    match r {
        Ok(v) => m == Ok::<Value, Option<Seq<Seq<char>>>>(v),
        Err(ValueParseError::InvalidParentheses) => m == Err::<Value, Option<Seq<Seq<char>>>>(
            None,
        ),
        Err(ValueParseError::InvalidOperators(f)) => m == Err::<Value, Option<Seq<Seq<char>>>>(
            Some(f@.map_values(|x: String| x@)),
        ),
    }
}

} // verus!

verus! {

/// The characters of `s`.
fn chars_of(s: &str) -> (v: Vec<char>)
    ensures
        v@ == s@,
{
    let n = s.unicode_len();
    let mut v: Vec<char> = Vec::new();
    let mut i: usize = 0;
    while i < n
        invariant
            n == s@.len(),
            i <= n,
            v@ =~= s@.take(i as int),
        decreases n - i,
    {
        v.push(s.get_char(i));
        i = i + 1;
    }
    assert(s@.take(n as int) =~= s@);
    v
}

fn ws(c: char) -> (r: bool)
    ensures
        r == is_ws(c),
{
    let u = c as u32;
    (9 <= u && u <= 13) || u == 32 || u == 0x85 || u == 0xA0 || u == 0x1680 || (0x2000 <= u && u
        <= 0x200A) || u == 0x2028 || u == 0x2029 || u == 0x202F || u == 0x205F || u == 0x3000
}

fn trim_range(t: &Vec<char>, lo: usize, hi: usize) -> (r: (usize, usize))
    requires
        lo <= hi <= t.len(),
    ensures
        r.0 == trim_lo(t@, lo as int, hi as int),
        r.1 == trim_hi(t@, lo as int, hi as int),
        lo <= r.0,
        r.1 <= hi,
{
    let mut i = lo;
    while i < hi && ws(t[i])
        invariant
            lo <= i <= hi <= t.len(),
            skip_front(t@, i as int, hi as int) == skip_front(t@, lo as int, hi as int),
        decreases hi - i,
    {
        i = i + 1;
    }
    let mut j = hi;
    while j > i && ws(t[j - 1])
        invariant
            i <= j <= hi <= t.len(),
            skip_back(t@, i as int, j as int) == skip_back(t@, i as int, hi as int),
        decreases j,
    {
        j = j - 1;
    }
    (i, j)
}

fn token_chars(tok: Token) -> (v: Vec<char>)
    ensures
        v@ == token_text(tok),
{
    let v = match tok {
        Token::Plus => vec!['+'],
        Token::Minus => vec!['-'],
        Token::Times => vec!['*'],
        Token::Over => vec!['/'],
        Token::AtMost => vec!['c', 's', '<', '='],
        Token::Below => vec!['c', 's', '<'],
        Token::Keep => vec!['k', 'h'],
        Token::Die => vec!['d'],
    };
    assert(v@ =~= token_text(tok));
    v
}

fn rank_token(n: usize) -> (tok: Token)
    ensures
        tok == token_of_rank(n as int),
{
    if n == 0 {
        Token::Plus
    } else if n == 1 {
        Token::Minus
    } else if n == 2 {
        Token::Times
    } else if n == 3 {
        Token::Over
    } else if n == 4 {
        Token::AtMost
    } else if n == 5 {
        Token::Below
    } else if n == 6 {
        Token::Keep
    } else {
        Token::Die
    }
}

fn occurs_at(t: &Vec<char>, i: usize, hi: usize, tok: Token) -> (r: bool)
    requires
        hi <= t.len(),
    ensures
        r == occurs(t@, i as int, hi as int, tok),
{
    let text = token_chars(tok);
    if i > hi || text.len() > hi - i {
        return false;
    }
    let mut k: usize = 0;
    while k < text.len()
        invariant
            text@ == token_text(tok),
            i + text.len() <= hi <= t.len(),
            k <= text.len(),
            forall|q: int| 0 <= q < k ==> t@[i + q] == text@[q],
        decreases text.len() - k,
    {
        if t[i + k] != text[k] {
            assert(t@.subrange(i as int, i + text.len())[k as int] != token_text(tok)[k as int]);
            return false;
        }
        k = k + 1;
    }
    assert(t@.subrange(i as int, i + text.len()) =~= token_text(tok));
    true
}

fn paren_delta(c: char) -> (d: i128)
    ensures
        d == paren_step(c),
{
    if c == '(' {
        1
    } else if c == ')' {
        -1
    } else {
        0
    }
}

fn depth_of(t: &Vec<char>, lo: usize, hi: usize) -> (d: i128)
    requires
        lo <= hi <= t.len(),
    ensures
        d == depth(t@, lo as int, hi as int),
{
    let mut d: i128 = 0;
    let mut i = lo;
    while i < hi
        invariant
            lo <= i <= hi <= t.len(),
            d == depth(t@, lo as int, i as int),
            -(i - lo) <= d <= i - lo,
        decreases hi - i,
    {
        d = d + paren_delta(t[i]);
        i = i + 1;
    }
    d
}

proof fn lemma_split_point(t: Seq<char>, lo: int, hi: int, tok: Token, p: int)
    requires
        is_split(t, lo, hi, tok, p),
        forall|q: int| q > p ==> !is_split(t, lo, hi, tok, q),
    ensures
        split_point(t, lo, hi, tok) == p,
{
    let c = split_point(t, lo, hi, tok);
    assert(is_split(t, lo, hi, tok, c) && forall|q: int| q > c ==> !is_split(t, lo, hi, tok, q));
    if c < p {
        assert(!is_split(t, lo, hi, tok, p));
    } else if c > p {
        assert(!is_split(t, lo, hi, tok, c));
    }
}

/// The rightmost place where `tok` splits `t[lo..hi]`.
fn find_split(t: &Vec<char>, lo: usize, hi: usize, tok: Token) -> (r: Option<usize>)
    requires
        lo <= hi <= t.len(),
    ensures
        match r {
            Some(p) => lo <= p < hi && is_split(t@, lo as int, hi as int, tok, p as int)
                && split_point(t@, lo as int, hi as int, tok) == p,
            None => !has_split(t@, lo as int, hi as int, tok),
        },
{
    let mut best: Option<usize> = None;
    let mut d: i128 = 0;
    let mut i = lo;
    while i < hi
        invariant
            lo <= i <= hi <= t.len(),
            d == depth(t@, lo as int, i as int),
            -(i - lo) <= d <= i - lo,
            match best {
                Some(p) => lo <= p < i && is_split(t@, lo as int, hi as int, tok, p as int)
                    && forall|q: int| p < q < i ==> !is_split(t@, lo as int, hi as int, tok, q),
                None => forall|q: int| lo <= q < i ==> !is_split(t@, lo as int, hi as int, tok, q),
            },
        decreases hi - i,
    {
        if d == 0 && occurs_at(t, i, hi, tok) {
            best = Some(i);
        }
        d = d + paren_delta(t[i]);
        i = i + 1;
    }
    match best {
        Some(p) => {
            proof {
                lemma_split_point(t@, lo as int, hi as int, tok, p as int);
            }
        },
        None => {},
    }
    best
}

fn is_wrapped(t: &Vec<char>, lo: usize, hi: usize) -> (r: bool)
    requires
        lo <= hi <= t.len(),
    ensures
        r == wrapped(t@, lo as int, hi as int),
{
    if hi - lo < 2 || t[lo] != '(' || t[hi - 1] != ')' {
        return false;
    }
    let mut d: i128 = 0;
    let mut i = lo;
    while i < hi
        invariant
            lo <= i <= hi <= t.len(),
            hi - lo >= 2,
            d == depth(t@, lo as int, i as int),
            -(i - lo) <= d <= i - lo,
            forall|q: int| lo < q <= i && q < hi ==> depth(t@, lo as int, q) > 0,
        decreases hi - i,
    {
        d = d + paren_delta(t[i]);
        i = i + 1;
        if i < hi && d <= 0 {
            assert(depth(t@, lo as int, i as int) <= 0);
            return false;
        }
    }
    d == 0
}

proof fn lemma_digits_mono(t: Seq<char>, a: int, b: int, c: int)
    requires
        a <= b <= c,
        forall|q: int| a <= q < c ==> is_digit(#[trigger] t[q]),
    ensures
        0 <= digits_value(t, a, b) <= digits_value(t, a, c),
    decreases c - a,
{
    if b < c {
        lemma_digits_mono(t, a, b, c - 1);
    } else if a < b {
        lemma_digits_mono(t, a, b - 1, b - 1);
    }
}

fn parse_int(t: &Vec<char>, lo: usize, hi: usize) -> (r: Option<Int>)
    requires
        lo <= hi <= t.len(),
    ensures
        match int_value(t@, lo as int, hi as int) {
            Some(v) => r == Some(v as Int),
            None => r is None,
        },
{
    let signed = lo < hi && (t[lo] == '-' || t[lo] == '+');
    let negative = signed && t[lo] == '-';
    let a = if signed {
        lo + 1
    } else {
        lo
    };
    if a >= hi {
        return None;
    }
    let mut v: i64 = 0;
    let mut i = a;
    while i < hi
        invariant
            signed == (lo < hi && (t@[lo as int] == '-' || t@[lo as int] == '+')),
            negative == (signed && t@[lo as int] == '-'),
            a == if signed {
                lo + 1
            } else {
                lo as int
            },
            a <= i <= hi <= t.len(),
            a < hi,
            v == digits_value(t@, a as int, i as int),
            0 <= v <= 0x8000_0000,
            forall|q: int| a <= q < i ==> is_digit(#[trigger] t@[q]),
        decreases hi - i,
    {
        let c = t[i];
        if !('0' <= c && c <= '9') {
            assert(!is_digit(t@[i as int]));
            assert(!(forall|q: int| a <= q < hi ==> is_digit(#[trigger] t@[q])));
            assert(int_value(t@, lo as int, hi as int) is None);
            return None;
        }
        v = v * 10 + (c as u32 - '0' as u32) as i64;
        i = i + 1;
        if v > 0x8000_0000 {
            proof {
                if forall|q: int| a <= q < hi ==> is_digit(#[trigger] t@[q]) {
                    lemma_digits_mono(t@, a as int, i as int, hi as int);
                    assert(digits_value(t@, a as int, hi as int) > 0x8000_0000);
                }
                assert(int_value(t@, lo as int, hi as int) is None);
            }
            return None;
        }
    }
    if negative {
        Some((-v) as Int)
    } else if v > Int::MAX as i64 {
        None
    } else {
        Some(v as Int)
    }
}

fn removed_len_at(t: &Vec<char>, i: usize, hi: usize) -> (n: usize)
    requires
        i < hi <= t.len(),
    ensures
        n == removed_len(t@, i as int, hi as int),
{
    if occurs_at(t, i, hi, Token::Plus) || occurs_at(t, i, hi, Token::Minus) || occurs_at(
        t,
        i,
        hi,
        Token::Times,
    ) || occurs_at(t, i, hi, Token::Over) {
        1
    } else if occurs_at(t, i, hi, Token::AtMost) {
        4
    } else if occurs_at(t, i, hi, Token::Below) {
        3
    } else if occurs_at(t, i, hi, Token::Keep) {
        2
    } else if occurs_at(t, i, hi, Token::Die) || ('0' <= t[i] && t[i] <= '9') {
        1
    } else {
        0
    }
}

fn piece(s: &str, start: usize, i: usize) -> (r: String)
    requires
        start <= i <= s@.len(),
    ensures
        r@ == s@.subrange(start as int, i as int),
{
    s.substring_char(start, i).to_owned()
}

fn scan_fragments(s: &str, t: &Vec<char>, lo: usize, hi: usize) -> (r: Vec<String>)
    requires
        t@ == s@,
        lo <= hi <= t.len(),
    ensures
        r@.map_values(|x: String| x@) == fragments(t@, lo as int, lo as int, hi as int),
{
    let mut out: Vec<String> = Vec::new();
    let mut start = lo;
    let mut i = lo;
    while i < hi
        invariant
            t@ == s@,
            lo <= start <= i <= hi <= t.len(),
            out@.map_values(|x: String| x@) + fragments(t@, start as int, i as int, hi as int)
                == fragments(t@, lo as int, lo as int, hi as int),
        decreases hi - i,
    {
        let n = removed_len_at(t, i, hi);
        let c = t[i];
        if n > 0 || c == ' ' || c == '\t' || c == '\n' || c == '\x0C' || c == '\r' {
            let step = if n > 0 {
                n
            } else {
                1
            };
            let ghost before = out@.map_values(|x: String| x@);
            if start < i {
                out.push(piece(s, start, i));
            }
            assert(out@.map_values(|x: String| x@) =~= before + flush(t@, start as int, i as int));
            assert(before + (flush(t@, start as int, i as int) + fragments(
                t@,
                i + step,
                i + step,
                hi as int,
            )) =~= before + flush(t@, start as int, i as int) + fragments(
                t@,
                i + step,
                i + step,
                hi as int,
            ));
            i = i + step;
            start = i;
        } else {
            i = i + 1;
        }
    }
    let ghost before = out@.map_values(|x: String| x@);
    if start < i {
        out.push(piece(s, start, i));
    }
    assert(out@.map_values(|x: String| x@) =~= before + flush(t@, start as int, i as int));
    out
}

fn build_node(tok: Token, l: Value, r: Value) -> (o: Operator)
    ensures
        o == build(tok, l, r),
{
    match tok {
        Token::Plus => Operator::Plus(l, r),
        Token::Minus => Operator::Minus(l, r),
        Token::Times => Operator::Multiply(l, r),
        Token::Over => Operator::Divide(l, r),
        Token::AtMost => Operator::CountSuccesses(
            l,
            Value::Operator(Box::new(Operator::Plus(r, Value::Constant(1)))),
        ),
        Token::Below => Operator::CountSuccesses(l, r),
        Token::Keep => Operator::KeepHighest(l, r),
        Token::Die => Operator::Dice(l, r),
    }
}

fn token_len(tok: Token) -> (n: usize)
    ensures
        n == token_text(tok).len(),
        n >= 1,
{
    match tok {
        Token::AtMost => 4,
        Token::Below => 3,
        Token::Keep => 2,
        _ => 1,
    }
}

/// The first token in order that splits `t[lo..hi]`, with its rightmost split point.
fn first_split(t: &Vec<char>, lo: usize, hi: usize) -> (r: Option<(Token, usize)>)
    requires
        lo <= hi <= t.len(),
    ensures
        match first_token(t@, lo as int, hi as int, 0) {
            Some(tok) => r matches Some((k, p)) && k == tok && lo <= p && p + token_text(tok).len()
                <= hi && p == split_point(t@, lo as int, hi as int, tok),
            None => r is None,
        },
{
    let mut rank: usize = 0;
    while rank < 8
        invariant
            lo <= hi <= t.len(),
            rank <= 8,
            first_token(t@, lo as int, hi as int, 0) == first_token(
                t@,
                lo as int,
                hi as int,
                rank as int,
            ),
        decreases 8 - rank,
    {
        let tok = rank_token(rank);
        if let Some(p) = find_split(t, lo, hi, tok) {
            return Some((tok, p));
        }
        rank = rank + 1;
    }
    None
}

proof fn lemma_token_text_injective(a: Token, b: Token)
    requires
        token_text(a) == token_text(b),
    ensures
        a == b,
{
    let ta = token_text(a);
    let tb = token_text(b);
    assert(ta.len() == tb.len() && ta[0] == tb[0]);
    match a {
        Token::Plus => assert(tb[0] == '+'),
        Token::Minus => assert(tb[0] == '-'),
        Token::Times => assert(tb[0] == '*'),
        Token::Over => assert(tb[0] == '/'),
        Token::AtMost => assert(tb.len() == 4),
        Token::Below => assert(tb.len() == 3),
        Token::Keep => assert(tb.len() == 2),
        Token::Die => assert(tb[0] == 'd'),
    }
}

fn parse_chars(s: &str, t: &Vec<char>, lo: usize, hi: usize) -> (r: Result<Value, ValueParseError>)
    requires
        t@ == s@,
        lo <= hi <= t.len(),
    ensures
        parsed_as(r, parse_range(t@, lo as int, hi as int)),
    decreases hi - lo,
{
    let (a, b) = trim_range(t, lo, hi);
    if a >= b {
        return Ok(Value::Default);
    }
    if is_wrapped(t, a, b) {
        return parse_chars(s, t, a + 1, b - 1);
    }
    if let Some(v) = parse_int(t, a, b) {
        return Ok(Value::Constant(v));
    }
    if let Some((tok, p)) = first_split(t, a, b) {
        let n = token_len(tok);
        let l = match parse_chars(s, t, a, p) {
            Ok(l) => l,
            Err(e) => {
                return Err(e);
            },
        };
        let r = match parse_chars(s, t, p + n, b) {
            Ok(r) => r,
            Err(e) => {
                return Err(e);
            },
        };
        return Ok(Value::Operator(Box::new(build_node(tok, l, r))));
    }
    if depth_of(t, a, b) != 0 {
        Err(ValueParseError::InvalidParentheses)
    } else {
        Err(ValueParseError::InvalidOperators(scan_fragments(s, t, a, b)))
    }
}

impl Value {
    /// Parses an expression of dice notation.
    pub fn parse(s: &str) -> (r: Result<Value, ValueParseError>)
        ensures
            parsed_as(r, parse_range(s@, 0, s@.len() as int)),
    {
        let t = chars_of(s);
        parse_chars(s, &t, 0, t.len())
    }
}

impl std::str::FromStr for Value {
    type Err = ValueParseError;

    fn from_str(s: &str) -> Result<Value, ValueParseError> {
        Value::parse(s)
    }
}

impl Operator {
    /// The node that the operator text `op` makes of `l` and `r`; `None` for any other text.
    pub fn new(op: &str, l: Value, r: Value) -> (o: Option<Self>)
        ensures
            o is Some <==> exists|tok: Token| op@ == token_text(tok),
            forall|tok: Token| op@ == token_text(tok) ==> o == Some(build(tok, l, r)),
    {
        let t = chars_of(op);
        let mut rank: usize = 0;
        while rank < 8
            invariant
                t@ == op@,
                rank <= 8,
                forall|q: int| 0 <= q < rank ==> op@ != token_text(token_of_rank(q)),
            decreases 8 - rank,
        {
            let tok = rank_token(rank);
            if token_len(tok) == t.len() && occurs_at(&t, 0, t.len(), tok) {
                assert(t@.subrange(0, t@.len() as int) =~= t@);
                proof {
                    assert forall|other: Token| op@ == token_text(other) implies other == tok by {
                        lemma_token_text_injective(other, tok);
                    }
                }
                return Some(build_node(tok, l, r));
            }
            proof {
                if op@ == token_text(tok) {
                    assert(t@.subrange(0, t@.len() as int) =~= t@);
                }
            }
            rank = rank + 1;
        }
        proof {
            assert forall|tok: Token| op@ != token_text(tok) by {
                let q: int = match tok {
                    Token::Plus => 0,
                    Token::Minus => 1,
                    Token::Times => 2,
                    Token::Over => 3,
                    Token::AtMost => 4,
                    Token::Below => 5,
                    Token::Keep => 6,
                    Token::Die => 7,
                };
                assert(token_of_rank(q) == tok);
            }
        }
        None
    }
}

} // verus!

verus! {

/// The decimal digit of `d`, which is below 10.
pub open spec fn digit_char(d: nat) -> char {
    if d == 0 {
        '0'
    } else if d == 1 {
        '1'
    } else if d == 2 {
        '2'
    } else if d == 3 {
        '3'
    } else if d == 4 {
        '4'
    } else if d == 5 {
        '5'
    } else if d == 6 {
        '6'
    } else if d == 7 {
        '7'
    } else if d == 8 {
        '8'
    } else {
        '9'
    }
}

/// The decimal digits of `n`, without leading zeros.
pub open spec fn decimal_digits(n: nat) -> Seq<char>
    decreases n,
{
    if n < 10 {
        seq![digit_char(n)]
    } else {
        decimal_digits(n / 10).push(digit_char(n % 10))
    }
}

/// The printed form of `v`: a minus sign for a negative number, then its digits.
pub open spec fn decimal(v: int) -> Seq<char> {
    if v < 0 {
        seq!['-'] + decimal_digits((-v) as nat)
    } else {
        decimal_digits(v as nat)
    }
}

proof fn lemma_digits_value_prefix(t: Seq<char>, c: char, a: int, b: int)
    requires
        0 <= a <= b <= t.len(),
    ensures
        digits_value(t.push(c), a, b) == digits_value(t, a, b),
    decreases b - a,
{
    if a < b {
        lemma_digits_value_prefix(t, c, a, b - 1);
    }
}

proof fn lemma_digits_value_shift(p: Seq<char>, t: Seq<char>, b: int)
    requires
        0 <= b <= t.len(),
    ensures
        digits_value(p + t, p.len() as int, p.len() + b) == digits_value(t, 0, b),
    decreases b,
{
    if b > 0 {
        lemma_digits_value_shift(p, t, b - 1);
        assert((p + t)[p.len() + b - 1] == t[b - 1]);
    }
}

proof fn lemma_decimal_digits(n: nat)
    ensures
        decimal_digits(n).len() >= 1,
        forall|q: int| 0 <= q < decimal_digits(n).len() ==> is_digit(#[trigger] decimal_digits(n)[q]),
        digits_value(decimal_digits(n), 0, decimal_digits(n).len() as int) == n,
    decreases n,
{
    let d = n % 10;
    assert(is_digit(digit_char(d)));
    assert((digit_char(d) as u32) - ('0' as u32) == d);
    if n < 10 {
        assert(n % 10 == n);
        let t = decimal_digits(n);
        assert(digits_value(t, 0, 1) == digits_value(t, 0, 0) * 10 + ((t[0] as u32) - ('0' as u32)));
    }
    if n >= 10 {
        let p = decimal_digits(n / 10);
        lemma_decimal_digits(n / 10);
        lemma_digits_value_prefix(p, digit_char(d), 0, p.len() as int);
        assert(p.push(digit_char(d))[p.len() as int] == digit_char(d));
        assert((n / 10) * 10 + n % 10 == n) by (nonlinear_arith);
        let t = p.push(digit_char(d));
        assert(decimal_digits(n) == t);
        assert(digits_value(t, 0, t.len() as int) == digits_value(t, 0, p.len() as int) * 10 + ((
        t[p.len() as int] as u32) - ('0' as u32)));
        assert(digits_value(t, 0, t.len() as int) == (n / 10) * 10 + n % 10);
        assert forall|q: int|
            0 <= q < decimal_digits(n).len() implies is_digit(#[trigger] decimal_digits(n)[q]) by {
            if q < p.len() {
                assert(decimal_digits(n)[q] == p[q]);
            }
        }
    }
}

/// Parsing the printed form of an integer gives that integer as a constant, and parsing
/// nothing gives a left-out value.
pub proof fn lemma_parse_decimal(v: Int)
    ensures
        parse_range(decimal(v as int), 0, decimal(v as int).len() as int) == Ok::<
            Value,
            Option<Seq<Seq<char>>>,
        >(Value::Constant(v)),
        parse_range(Seq::empty(), 0, 0) == Ok::<Value, Option<Seq<Seq<char>>>>(Value::Default),
{
    let t = decimal(v as int);
    let m: nat = if v < 0 {
        (-v) as nat
    } else {
        v as nat
    };
    let ds = decimal_digits(m);
    lemma_decimal_digits(m);
    let a: int = if v < 0 {
        1
    } else {
        0
    };
    if v < 0 {
        lemma_digits_value_shift(seq!['-'], ds, ds.len() as int);
        assert forall|q: int| a <= q < t.len() implies is_digit(#[trigger] t[q]) by {
            assert(t[q] == ds[q - 1]);
        }
    } else {
        assert(t =~= ds);
    }
    assert(!is_ws(t[0]));
    assert(!is_ws(t[t.len() - 1]));
    assert(skip_front(t, 0, t.len() as int) == 0);
    assert(skip_back(t, 0, t.len() as int) == t.len());
    assert(int_value(t, 0, t.len() as int) == Some(v as int));
}

} // verus!

verus! {

/// One line for each invalid fragment.
pub open spec fn operators_message(f: Seq<Seq<char>>) -> Seq<char>
    decreases f.len(),
{
    if f.len() == 0 {
        Seq::empty()
    } else {
        operators_message(f.drop_last()) + "Invalid Operator: "@ + f.last() + "\n"@
    }
}

impl ValueParseError {
    /// A message for people.
    pub fn message(&self) -> (r: String)
        ensures
            r@ == match self {
                ValueParseError::InvalidOperators(f) => operators_message(
                    f@.map_values(|x: String| x@),
                ),
                ValueParseError::InvalidParentheses => "Invalid Parentheses"@,
            },
    {
        match self {
            ValueParseError::InvalidOperators(f) => {
                let ghost g = f@.map_values(|x: String| x@);
                let mut r = String::new();
                let mut i: usize = 0;
                while i < f.len()
                    invariant
                        g == f@.map_values(|x: String| x@),
                        i <= f.len(),
                        r@ == operators_message(g.take(i as int)),
                    decreases f.len() - i,
                {
                    assert(g.take(i + 1).drop_last() =~= g.take(i as int));
                    r.append("Invalid Operator: ");
                    r.append(f[i].as_str());
                    r.append("\n");
                    i = i + 1;
                }
                assert(g.take(f.len() as int) =~= g);
                r
            },
            ValueParseError::InvalidParentheses => "Invalid Parentheses".to_owned(),
        }
    }
}

} // verus!
