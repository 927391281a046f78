//! Safe expression language of placeholders: parsing into an AST.
use vstd::prelude::*;

verus! {

/// Mathematical model of an expression.
pub enum SpecExpr {
    Ident(Seq<char>),
    StringLit(Seq<char>),
    NumberLit(Seq<char>),
    Member(Box<SpecExpr>, Seq<char>),
    Index(Box<SpecExpr>, usize),
    Call(Seq<char>, Seq<SpecExpr>),
}

/// Expression AST. A number literal keeps the literal text as written.
#[derive(Debug, PartialEq)]
pub enum Expr {
    Ident(String),
    StringLit(String),
    NumberLit(String),
    Member(Box<Expr>, String),
    Index(Box<Expr>, usize),
    Call(String, Vec<Expr>),
}

pub open spec fn expr_view(e: Expr) -> SpecExpr
    decreases e,
{
    match e {
        Expr::Ident(s) => SpecExpr::Ident(s@),
        Expr::StringLit(s) => SpecExpr::StringLit(s@),
        Expr::NumberLit(s) => SpecExpr::NumberLit(s@),
        Expr::Member(t, p) => SpecExpr::Member(Box::new(expr_view(*t)), p@),
        Expr::Index(t, i) => SpecExpr::Index(Box::new(expr_view(*t)), i),
        Expr::Call(n, args) => SpecExpr::Call(n@, exprs_view(args@)),
    }
}

pub open spec fn exprs_view(args: Seq<Expr>) -> Seq<SpecExpr>
    decreases args,
{
    if args.len() == 0 {
        Seq::empty()
    } else {
        exprs_view(args.drop_last()).push(expr_view(args.last()))
    }
}

impl View for Expr {
    type V = SpecExpr;

    open spec fn view(&self) -> SpecExpr {
        expr_view(*self)
    }
}

} // verus!

verus! {

pub proof fn lemma_exprs_view_push(s: Seq<Expr>, x: Expr)
    ensures
        exprs_view(s.push(x)) == exprs_view(s).push(expr_view(x)),
{
    assert(s.push(x).drop_last() == s);
}

pub proof fn lemma_exprs_view_empty()
    ensures
        exprs_view(Seq::<Expr>::empty()) == Seq::<SpecExpr>::empty(),
{
}

/// `char::is_alphabetic`, the Unicode `Alphabetic` property.
pub uninterp spec fn char_is_alphabetic(c: char) -> bool;

/// Calls `char::is_alphabetic`. Its result is the Unicode `Alphabetic`
/// property of `c`, which is named and not written out; the one fact stated
/// is that among ASCII characters exactly the letters are alphabetic.
#[verifier::external_body]
fn is_alphabetic(c: char) -> (b: bool)
    ensures
        b == char_is_alphabetic(c),
        (c as u32) < 128 ==> (b <==> (('a' <= c && c <= 'z') || ('A' <= c && c <= 'Z'))),
{
    c.is_alphabetic()
}

/// ASCII whitespace as tested by `u8::is_ascii_whitespace`.
pub open spec fn is_ascii_ws(c: char) -> bool {
    c == ' ' || c == '\t' || c == '\n' || c == '\x0C' || c == '\r'
}

/// `char::is_alphabetic` spelled out for ASCII: the ASCII letters, and
/// beyond ASCII the Unicode `Alphabetic` property.
pub open spec fn is_alphabetic_char(c: char) -> bool {
    ('a' <= c && c <= 'z') || ('A' <= c && c <= 'Z') || ((c as u32) >= 128 && char_is_alphabetic(c))
}

/// Characters that may continue an identifier.
pub open spec fn is_ident_char(c: char) -> bool {
    ('a' <= c && c <= 'z') || ('A' <= c && c <= 'Z') || ('0' <= c && c <= '9') || c == '_' || c == '$'
}

pub open spec fn is_digit(c: char) -> bool {
    '0' <= c && c <= '9'
}

pub open spec fn skip_ascii_ws(t: Seq<char>, p: int) -> int
    decreases t.len() - p,
{
    if 0 <= p < t.len() && is_ascii_ws(t[p]) {
        skip_ascii_ws(t, p + 1)
    } else {
        p
    }
}

pub open spec fn scan_ident(t: Seq<char>, p: int) -> int
    decreases t.len() - p,
{
    if 0 <= p < t.len() && is_ident_char(t[p]) {
        scan_ident(t, p + 1)
    } else {
        p
    }
}

pub open spec fn scan_digits(t: Seq<char>, p: int) -> int
    decreases t.len() - p,
{
    if 0 <= p < t.len() && is_digit(t[p]) {
        scan_digits(t, p + 1)
    } else {
        p
    }
}

/// End of a number literal: digits with at most one decimal point.
pub open spec fn scan_number(t: Seq<char>, p: int, has_dot: bool) -> int
    decreases t.len() - p,
{
    if 0 <= p < t.len() && is_digit(t[p]) {
        scan_number(t, p + 1, has_dot)
    } else if 0 <= p < t.len() && t[p] == '.' && !has_dot {
        scan_number(t, p + 1, true)
    } else {
        p
    }
}

/// First position at or after `p` holding `q` (or the end).
pub open spec fn scan_until(t: Seq<char>, p: int, q: char) -> int
    decreases t.len() - p,
{
    if 0 <= p < t.len() && t[p] != q {
        scan_until(t, p + 1, q)
    } else {
        p
    }
}

pub proof fn lemma_skip_ascii_ws(t: Seq<char>, p: int)
    requires
        0 <= p <= t.len(),
    ensures
        p <= skip_ascii_ws(t, p) <= t.len(),
        skip_ascii_ws(t, p) < t.len() ==> !is_ascii_ws(t[skip_ascii_ws(t, p)]),
        skip_ascii_ws(t, skip_ascii_ws(t, p)) == skip_ascii_ws(t, p),
    decreases t.len() - p,
{
    if p < t.len() && is_ascii_ws(t[p]) {
        lemma_skip_ascii_ws(t, p + 1);
    }
}

pub proof fn lemma_scan_ident(t: Seq<char>, p: int)
    requires
        0 <= p <= t.len(),
    ensures
        p <= scan_ident(t, p) <= t.len(),
    decreases t.len() - p,
{
    if p < t.len() && is_ident_char(t[p]) {
        lemma_scan_ident(t, p + 1);
    }
}

pub proof fn lemma_scan_digits(t: Seq<char>, p: int)
    requires
        0 <= p <= t.len(),
    ensures
        p <= scan_digits(t, p) <= t.len(),
        forall|i: int| p <= i < scan_digits(t, p) ==> is_digit(#[trigger] t[i]),
    decreases t.len() - p,
{
    if p < t.len() && is_digit(t[p]) {
        lemma_scan_digits(t, p + 1);
    }
}

pub proof fn lemma_scan_number(t: Seq<char>, p: int, has_dot: bool)
    requires
        0 <= p <= t.len(),
    ensures
        p <= scan_number(t, p, has_dot) <= t.len(),
    decreases t.len() - p,
{
    if p < t.len() && is_digit(t[p]) {
        lemma_scan_number(t, p + 1, has_dot);
    } else if p < t.len() && t[p] == '.' && !has_dot {
        lemma_scan_number(t, p + 1, true);
    }
}

pub proof fn lemma_scan_until(t: Seq<char>, p: int, q: char)
    requires
        0 <= p <= t.len(),
    ensures
        p <= scan_until(t, p, q) <= t.len(),
        scan_until(t, p, q) < t.len() ==> t[scan_until(t, p, q)] == q,
    decreases t.len() - p,
{
    if p < t.len() && t[p] != q {
        lemma_scan_until(t, p + 1, q);
    }
}

/// Value of a sequence of decimal digits.
pub open spec fn digits_value(d: Seq<char>) -> nat
    decreases d.len(),
{
    if d.len() == 0 {
        0
    } else {
        digits_value(d.drop_last()) * 10 + ((d.last() as u32) - ('0' as u32)) as nat
    }
}

/// Outcome of parsing one piece: a value and the position after it, or an
/// error message.
pub type Parsed<T> = Result<(T, int), Seq<char>>;

pub open spec fn p_ident(t: Seq<char>, p: int) -> Parsed<Seq<char>> {
    let e = scan_ident(t, p);
    if e == p {
        Err("Expected identifier"@)
    } else {
        Ok((t.subrange(p, e), e))
    }
}

pub open spec fn p_integer(t: Seq<char>, p: int) -> Parsed<usize> {
    let e = scan_digits(t, p);
    if e == p {
        Err("Expected array index integer"@)
    } else if digits_value(t.subrange(p, e)) > usize::MAX {
        Err("Invalid array index: "@ + t.subrange(p, e))
    } else {
        Ok((digits_value(t.subrange(p, e)) as usize, e))
    }
}

/// String literal whose opening quote `q` is at `p`.
pub open spec fn p_string(t: Seq<char>, p: int, q: char) -> Parsed<SpecExpr> {
    let e = scan_until(t, p + 1, q);
    if e < t.len() {
        Ok((SpecExpr::StringLit(t.subrange(p + 1, e)), e + 1))
    } else {
        Err("Unterminated string literal"@)
    }
}

pub open spec fn p_number(t: Seq<char>, p: int) -> Parsed<SpecExpr> {
    let e = scan_number(t, p, false);
    Ok((SpecExpr::NumberLit(t.subrange(p, e)), e))
}

/// Member accesses `.name` and indexings `[n]` following `acc`, from `p`.
pub open spec fn p_postfix(t: Seq<char>, acc: SpecExpr, p: int) -> Parsed<SpecExpr>
    decreases t.len() - p,
{
    if p < 0 || p > t.len() {
        Err(Seq::empty())
    } else {
        let q = skip_ascii_ws(t, p);
        proof {
            lemma_skip_ascii_ws(t, p);
        }
        if q < t.len() && t[q] == '.' {
            let r = skip_ascii_ws(t, q + 1);
            proof {
                lemma_skip_ascii_ws(t, q + 1);
                lemma_scan_ident(t, r);
            }
            match p_ident(t, r) {
                Err(m) => Err(m),
                Ok((name, r2)) => p_postfix(t, SpecExpr::Member(Box::new(acc), name), r2),
            }
        } else if q < t.len() && t[q] == '[' {
            let r = skip_ascii_ws(t, q + 1);
            proof {
                lemma_skip_ascii_ws(t, q + 1);
                lemma_scan_digits(t, r);
            }
            match p_integer(t, r) {
                Err(m) => Err(m),
                Ok((idx, r2)) => {
                    let r3 = skip_ascii_ws(t, r2);
                    proof {
                        lemma_skip_ascii_ws(t, r2);
                    }
                    if r3 < t.len() && t[r3] == ']' {
                        p_postfix(t, SpecExpr::Index(Box::new(acc), idx), r3 + 1)
                    } else {
                        Err("Expected ']' after array index"@)
                    }
                },
            }
        } else {
            Ok((acc, q))
        }
    }
}

/// A full expression starting at `p`: a primary followed by postfix operations.
pub open spec fn p_expr(t: Seq<char>, p: int) -> Parsed<SpecExpr>
    decreases t.len() - p, 2int,
{
    if p < 0 || p > t.len() {
        Err(Seq::empty())
    } else {
        match p_primary(t, p) {
            Err(m) => Err(m),
            Ok((e, r)) => p_postfix(t, e, r),
        }
    }
}

/// A primary expression: string or number literal, identifier, or call.
pub open spec fn p_primary(t: Seq<char>, p: int) -> Parsed<SpecExpr>
    decreases t.len() - p, 1int,
{
    if p < 0 || p > t.len() {
        Err(Seq::empty())
    } else {
        let q = skip_ascii_ws(t, p);
        proof {
            lemma_skip_ascii_ws(t, p);
        }
        if q >= t.len() {
            Err("Unexpected end of input"@)
        } else {
            let c = t[q];
            if c == '"' || c == '\'' {
                p_string(t, q, c)
            } else if is_digit(c) {
                p_number(t, q)
            } else if is_alphabetic_char(c) || c == '_' || c == '$' {
                proof {
                    lemma_scan_ident(t, q);
                }
                match p_ident(t, q) {
                    Err(m) => Err(m),
                    Ok((name, r)) => {
                        let r1 = skip_ascii_ws(t, r);
                        proof {
                            lemma_skip_ascii_ws(t, r);
                        }
                        if r1 < t.len() && t[r1] == '(' {
                            let r2 = skip_ascii_ws(t, r1 + 1);
                            proof {
                                lemma_skip_ascii_ws(t, r1 + 1);
                            }
                            if r2 < t.len() && t[r2] == ')' {
                                Ok((SpecExpr::Call(name, Seq::empty()), r2 + 1))
                            } else {
                                match p_args(t, r2, Seq::empty()) {
                                    Err(m) => Err(m),
                                    Ok((args, r3)) => {
                                        let r4 = skip_ascii_ws(t, r3);
                                        if r4 < t.len() && t[r4] == ')' {
                                            Ok((SpecExpr::Call(name, args), r4 + 1))
                                        } else {
                                            Err("Expected ')' after function arguments"@)
                                        }
                                    },
                                }
                            }
                        } else {
                            Ok((SpecExpr::Ident(name), r1))
                        }
                    },
                }
            } else {
                Err("Unexpected character '"@ + seq![c] + "'"@)
            }
        }
    }
}

/// Comma-separated call arguments from `p`, appended to `acc`.
pub open spec fn p_args(t: Seq<char>, p: int, acc: Seq<SpecExpr>) -> Parsed<Seq<SpecExpr>>
    decreases t.len() - p, 3int,
{
    if p < 0 || p > t.len() {
        Err(Seq::empty())
    } else {
        match p_expr(t, p) {
            Err(m) => Err(m),
            Ok((e, r)) => {
                let r1 = skip_ascii_ws(t, r);
                if r1 < t.len() && t[r1] == ',' {
                    if r1 + 1 <= p || r1 + 1 > t.len() {
                        Err(Seq::empty())
                    } else {
                        proof {
                            lemma_skip_ascii_ws(t, r1 + 1);
                        }
                        p_args(t, skip_ascii_ws(t, r1 + 1), acc.push(e))
                    }
                } else {
                    Ok((acc.push(e), r1))
                }
            },
        }
    }
}

/// The result of `ExpressionParser::parse_expression` on `input`: the
/// expression, or the error's expression text and message.
pub open spec fn parse_expression_spec(input: Seq<char>) -> Result<SpecExpr, (Seq<char>, Seq<char>)> {
    let t = crate::text::trim(input);
    if t.len() == 0 {
        Err((input, "Empty expression"@))
    } else {
        match p_expr(t, 0) {
            Err(m) => Err((t, m)),
            Ok((e, r)) => {
                let q = skip_ascii_ws(t, r);
                if q < t.len() {
                    Err((input, "Unexpected characters after expression at index "@
                        + crate::text::decimal(vstd::utf8::encode_utf8(t.subrange(0, q)).len())))
                } else {
                    Ok(e)
                }
            },
        }
    }
}

} // verus!

verus! {

/// A malformed expression: the text that was parsed and what was wrong.
#[derive(Clone, Debug, PartialEq)]
pub struct ExpressionError {
    pub expression: String,
    pub message: String,
}

/// Recursive-descent parser over the characters of an expression.
pub struct ExpressionParser<'a> {
    input: &'a str,
    chars: Vec<char>,
    pos: usize,
}

fn is_ascii_whitespace_char(c: char) -> (b: bool)
    ensures
        b == is_ascii_ws(c),
{
    c == ' ' || c == '\t' || c == '\n' || c == '\x0C' || c == '\r'
}

fn is_ident_char_exec(c: char) -> (b: bool)
    ensures
        b == is_ident_char(c),
{
    ('a' <= c && c <= 'z') || ('A' <= c && c <= 'Z') || ('0' <= c && c <= '9') || c == '_' || c == '$'
}

fn is_digit_exec(c: char) -> (b: bool)
    ensures
        b == is_digit(c),
{
    '0' <= c && c <= '9'
}

impl<'a> ExpressionParser<'a> {
    /// The text being parsed.
    pub closed spec fn spec_input(&self) -> Seq<char> {
        self.input@
    }

    /// The current position, in characters.
    pub closed spec fn spec_pos(&self) -> int {
        self.pos as int
    }

    closed spec fn wf(&self) -> bool {
        self.chars@ == self.input@ && self.pos <= self.chars@.len() && self.chars@.len() <= usize::MAX
    }

    /// A parser positioned at the start of `input`.
    pub fn new(input: &'a str) -> (p: Self)
        ensures
            p.spec_input() == input@,
            p.spec_pos() == 0,
    {
        let chars = crate::text::chars_of(input);
        let _n = chars.len();
        ExpressionParser { input, chars, pos: 0 }
    }

    fn error(&self, message: String) -> (e: ExpressionError)
        ensures
            e.expression@ == self.input@,
            e.message == message,
    {
        ExpressionError { expression: crate::text::to_owned_string(self.input), message }
    }

    fn skip_whitespace(&mut self)
        requires
            old(self).wf(),
        ensures
            final(self).wf(),
            final(self).input == old(self).input,
            final(self).chars@ == old(self).chars@,
            final(self).pos == skip_ascii_ws(old(self).chars@, old(self).pos as int),
    {
        proof {
            lemma_skip_ascii_ws(self.chars@, self.pos as int);
        }
        while self.pos < self.chars.len() && is_ascii_whitespace_char(self.chars[self.pos])
            invariant
                self.wf(),
                self.input == old(self).input,
                self.chars@ == old(self).chars@,
                skip_ascii_ws(self.chars@, self.pos as int) == skip_ascii_ws(
                    old(self).chars@,
                    old(self).pos as int,
                ),
            decreases self.chars@.len() - self.pos,
        {
            self.pos = self.pos + 1;
        }
    }

    fn peek(&self) -> (r: Option<char>)
        requires
            self.wf(),
        ensures
            r == (if self.pos < self.chars@.len() {
                Some(self.chars@[self.pos as int])
            } else {
                None
            }),
    {
        if self.pos < self.chars.len() {
            Some(self.chars[self.pos])
        } else {
            None
        }
    }

    fn peek_is(&self, c: char) -> (b: bool)
        requires
            self.wf(),
        ensures
            b == (self.pos < self.chars@.len() && self.chars@[self.pos as int] == c),
    {
        match self.peek() {
            Some(x) => x == c,
            None => false,
        }
    }

    fn parse_identifier(&mut self) -> (r: Result<String, ExpressionError>)
        requires
            old(self).wf(),
        ensures
            final(self).wf(),
            final(self).input == old(self).input,
            final(self).chars@ == old(self).chars@,
            match p_ident(old(self).chars@, old(self).pos as int) {
                Ok((name, e)) => r matches Ok(s) && s@ == name && final(self).pos == e,
                Err(m) => r matches Err(er) && er.message@ == m && er.expression@ == old(self).input@,
            },
    {
        let start = self.pos;
        proof {
            lemma_scan_ident(self.chars@, start as int);
        }
        while self.pos < self.chars.len() && is_ident_char_exec(self.chars[self.pos])
            invariant
                self.wf(),
                self.input == old(self).input,
                self.chars@ == old(self).chars@,
                start <= self.pos,
                start == old(self).pos,
                scan_ident(self.chars@, self.pos as int) == scan_ident(self.chars@, start as int),
            decreases self.chars@.len() - self.pos,
        {
            self.pos = self.pos + 1;
        }
        if self.pos == start {
            return Err(self.error(String::from_str("Expected identifier")));
        }
        Ok(crate::text::to_owned_string(self.input.substring_char(start, self.pos)))
    }

    fn parse_integer(&mut self) -> (r: Result<usize, ExpressionError>)
        requires
            old(self).wf(),
        ensures
            final(self).wf(),
            final(self).input == old(self).input,
            final(self).chars@ == old(self).chars@,
            match p_integer(old(self).chars@, old(self).pos as int) {
                Ok((v, e)) => r == Ok::<usize, ExpressionError>(v) && final(self).pos == e,
                Err(m) => r matches Err(er) && er.message@ == m && er.expression@ == old(self).input@,
            },
    {
        let start = self.pos;
        let ghost t = self.chars@;
        proof {
            lemma_scan_digits(t, start as int);
        }
        let mut value: usize = 0;
        let mut overflow = false;
        while self.pos < self.chars.len() && is_digit_exec(self.chars[self.pos])
            invariant
                self.wf(),
                self.input == old(self).input,
                self.chars@ == t,
                t == old(self).chars@,
                start <= self.pos,
                start == old(self).pos,
                scan_digits(t, self.pos as int) == scan_digits(t, start as int),
                !overflow ==> value == digits_value(t.subrange(start as int, self.pos as int)),
                overflow ==> digits_value(t.subrange(start as int, self.pos as int)) > usize::MAX,
            decreases self.chars@.len() - self.pos,
        {
            let c = self.chars[self.pos];
            let d = (c as u32 - '0' as u32) as usize;
            let ghost prev = t.subrange(start as int, self.pos as int);
            assert(t.subrange(start as int, self.pos + 1).drop_last() == prev);
            if !overflow {
                match value.checked_mul(10) {
                    Some(v10) => match v10.checked_add(d) {
                        Some(v) => {
                            value = v;
                        },
                        None => {
                            overflow = true;
                        },
                    },
                    None => {
                        overflow = true;
                    },
                }
            } else {
                assert(digits_value(prev) * 10 >= digits_value(prev)) by (nonlinear_arith);
            }
            self.pos = self.pos + 1;
        }
        if self.pos == start {
            return Err(self.error(String::from_str("Expected array index integer")));
        }
        if overflow {
            let mut m = String::from_str("Invalid array index: ");
            m.append(self.input.substring_char(start, self.pos));
            return Err(self.error(m));
        }
        Ok(value)
    }
}

} // verus!

verus! {

impl<'a> ExpressionParser<'a> {
    fn parse_string_lit(&mut self, quote: char) -> (r: Result<Expr, ExpressionError>)
        requires
            old(self).wf(),
            old(self).pos < old(self).chars@.len(),
            old(self).chars@[old(self).pos as int] == quote,
        ensures
            final(self).wf(),
            final(self).input == old(self).input,
            final(self).chars@ == old(self).chars@,
            match p_string(old(self).chars@, old(self).pos as int, quote) {
                Ok((e, q)) => r matches Ok(x) && x@ == e && final(self).pos == q,
                Err(m) => r matches Err(er) && er.message@ == m && er.expression@ == old(self).input@,
            },
    {
        let n = self.chars.len();
        self.pos = self.pos + 1;
        let start = self.pos;
        proof {
            lemma_scan_until(self.chars@, start as int, quote);
        }
        while self.pos < self.chars.len()
            invariant
                self.wf(),
                self.input == old(self).input,
                self.chars@ == old(self).chars@,
                start <= self.pos,
                start == old(self).pos + 1,
                scan_until(self.chars@, self.pos as int, quote) == scan_until(
                    self.chars@,
                    start as int,
                    quote,
                ),
            decreases self.chars@.len() - self.pos,
        {
            if self.chars[self.pos] == quote {
                let s = crate::text::to_owned_string(self.input.substring_char(start, self.pos));
                self.pos = self.pos + 1;
                return Ok(Expr::StringLit(s));
            }
            self.pos = self.pos + 1;
        }
        Err(self.error(String::from_str("Unterminated string literal")))
    }

    fn parse_number_lit(&mut self) -> (r: Result<Expr, ExpressionError>)
        requires
            old(self).wf(),
        ensures
            final(self).wf(),
            final(self).input == old(self).input,
            final(self).chars@ == old(self).chars@,
            match p_number(old(self).chars@, old(self).pos as int) {
                Ok((e, q)) => r matches Ok(x) && x@ == e && final(self).pos == q,
                Err(m) => false,
            },
    {
        let start = self.pos;
        let mut has_dot = false;
        proof {
            lemma_scan_number(self.chars@, start as int, false);
        }
        while self.pos < self.chars.len()
            invariant_except_break
                self.wf(),
                self.input == old(self).input,
                self.chars@ == old(self).chars@,
                start <= self.pos,
                start == old(self).pos,
                scan_number(self.chars@, self.pos as int, has_dot) == scan_number(
                    self.chars@,
                    start as int,
                    false,
                ),
            ensures
                self.wf(),
                self.input == old(self).input,
                self.chars@ == old(self).chars@,
                start <= self.pos,
                self.pos == scan_number(self.chars@, start as int, false),
            decreases self.chars@.len() - self.pos,
        {
            let c = self.chars[self.pos];
            if is_digit_exec(c) {
                self.pos = self.pos + 1;
            } else if c == '.' && !has_dot {
                has_dot = true;
                self.pos = self.pos + 1;
            } else {
                break;
            }
        }
        Ok(Expr::NumberLit(crate::text::to_owned_string(self.input.substring_char(start, self.pos))))
    }
}

} // verus!

verus! {

proof fn lemma_primary_skip(t: Seq<char>, p: int)
    requires
        0 <= p <= t.len(),
    ensures
        p_primary(t, skip_ascii_ws(t, p)) == p_primary(t, p),
{
    lemma_skip_ascii_ws(t, p);
}

impl<'a> ExpressionParser<'a> {
    fn parse_expr(&mut self) -> (r: Result<Expr, ExpressionError>)
        requires
            old(self).wf(),
        ensures
            final(self).wf(),
            final(self).input == old(self).input,
            final(self).chars@ == old(self).chars@,
            r is Ok ==> final(self).pos > old(self).pos,
            match p_expr(old(self).chars@, old(self).pos as int) {
                Ok((e, q)) => r matches Ok(x) && x@ == e && final(self).pos == q,
                Err(m) => r matches Err(er) && er.message@ == m && er.expression@ == old(self).input@,
            },
        decreases old(self).chars@.len() - old(self).pos, 2int,
    {
        let ghost t = self.chars@;
        let ghost p0 = self.pos as int;
        proof {
            lemma_primary_skip(t, p0);
            lemma_skip_ascii_ws(t, p0);
        }
        self.skip_whitespace();
        let primary = match self.parse_primary() {
            Ok(e) => e,
            Err(e) => return Err(e),
        };
        let ghost prim = primary@;
        let ghost r0 = self.pos as int;
        let mut acc = primary;
        loop
            invariant_except_break
                self.wf(),
                self.input == old(self).input,
                self.chars@ == t,
                t == old(self).chars@,
                p0 == old(self).pos,
                self.pos >= r0,
                r0 > p0,
                p_expr(t, p0) == p_postfix(t, prim, r0),
                p_postfix(t, acc@, self.pos as int) == p_postfix(t, prim, r0),
            ensures
                self.wf(),
                self.input == old(self).input,
                self.chars@ == t,
                self.pos > p0,
                p_expr(t, p0) == Ok::<(SpecExpr, int), Seq<char>>((acc@, self.pos as int)),
            decreases t.len() - self.pos,
        {
            let ghost pi = self.pos as int;
            proof {
                lemma_skip_ascii_ws(t, pi);
            }
            self.skip_whitespace();
            if self.peek_is('.') {
                self.pos = self.pos + 1;
                proof {
                    lemma_skip_ascii_ws(t, self.pos as int);
                }
                self.skip_whitespace();
                proof {
                    lemma_scan_ident(t, self.pos as int);
                }
                let prop = match self.parse_identifier() {
                    Ok(p) => p,
                    Err(e) => return Err(e),
                };
                acc = Expr::Member(Box::new(acc), prop);
            } else if self.peek_is('[') {
                self.pos = self.pos + 1;
                proof {
                    lemma_skip_ascii_ws(t, self.pos as int);
                }
                self.skip_whitespace();
                proof {
                    lemma_scan_digits(t, self.pos as int);
                }
                let idx = match self.parse_integer() {
                    Ok(i) => i,
                    Err(e) => return Err(e),
                };
                proof {
                    lemma_skip_ascii_ws(t, self.pos as int);
                }
                self.skip_whitespace();
                if self.peek_is(']') {
                    self.pos = self.pos + 1;
                    acc = Expr::Index(Box::new(acc), idx);
                } else {
                    return Err(self.error(String::from_str("Expected ']' after array index")));
                }
            } else {
                break;
            }
        }
        Ok(acc)
    }

    fn parse_primary(&mut self) -> (r: Result<Expr, ExpressionError>)
        requires
            old(self).wf(),
        ensures
            final(self).wf(),
            final(self).input == old(self).input,
            final(self).chars@ == old(self).chars@,
            r is Ok ==> final(self).pos > old(self).pos,
            match p_primary(old(self).chars@, old(self).pos as int) {
                Ok((e, q)) => r matches Ok(x) && x@ == e && final(self).pos == q,
                Err(m) => r matches Err(er) && er.message@ == m && er.expression@ == old(self).input@,
            },
        decreases old(self).chars@.len() - old(self).pos, 1int,
    {
        let ghost t = self.chars@;
        let ghost p0 = self.pos as int;
        proof {
            lemma_skip_ascii_ws(t, p0);
        }
        self.skip_whitespace();
        let c = match self.peek() {
            Some(c) => c,
            None => return Err(self.error(String::from_str("Unexpected end of input"))),
        };
        if c == '"' || c == '\'' {
            proof {
                lemma_scan_until(t, self.pos + 1, c);
            }
            return self.parse_string_lit(c);
        }
        if is_digit_exec(c) {
            proof {
                lemma_scan_number(t, self.pos + 1, false);
            }
            return self.parse_number_lit();
        }
        if is_alphabetic(c) || c == '_' || c == '$' {
            proof {
                lemma_scan_ident(t, self.pos as int);
            }
            let ident = match self.parse_identifier() {
                Ok(s) => s,
                Err(e) => return Err(e),
            };
            proof {
                lemma_skip_ascii_ws(t, self.pos as int);
            }
            self.skip_whitespace();
            if self.peek_is('(') {
                self.pos = self.pos + 1;
                let mut args: Vec<Expr> = Vec::new();
                proof {
                    lemma_skip_ascii_ws(t, self.pos as int);
                    lemma_exprs_view_empty();
                }
                self.skip_whitespace();
                let ghost r2 = self.pos as int;
                if !self.peek_is(')') {
                    loop
                        invariant_except_break
                            self.wf(),
                            self.input == old(self).input,
                            self.chars@ == t,
                            t == old(self).chars@,
                            p0 == old(self).pos,
                            self.pos > p0,
                            self.pos >= r2,
                            (p_args(t, r2, Seq::empty()) matches Err(m) ==> p_primary(t, p0)
                                == Err::<(SpecExpr, int), Seq<char>>(m)),
                            p_args(t, self.pos as int, exprs_view(args@)) == p_args(
                                t,
                                r2,
                                Seq::empty(),
                            ),
                        ensures
                            self.wf(),
                            self.input == old(self).input,
                            self.chars@ == t,
                            self.pos > p0,
                            p_args(t, r2, Seq::empty()) == Ok::<(Seq<SpecExpr>, int), Seq<char>>(
                                (exprs_view(args@), self.pos as int),
                            ),
                        decreases t.len() - self.pos,
                    {
                        let ghost pi = self.pos as int;
                        let ghost acc = exprs_view(args@);
                        let arg = match self.parse_expr() {
                            Ok(e) => e,
                            Err(e) => return Err(e),
                        };
                        proof {
                            lemma_exprs_view_push(args@, arg);
                            lemma_skip_ascii_ws(t, self.pos as int);
                        }
                        args.push(arg);
                        self.skip_whitespace();
                        if self.peek_is(',') {
                            self.pos = self.pos + 1;
                            proof {
                                lemma_skip_ascii_ws(t, self.pos as int);
                            }
                            self.skip_whitespace();
                        } else {
                            break;
                        }
                    }
                }
                proof {
                    lemma_skip_ascii_ws(t, self.pos as int);
                }
                self.skip_whitespace();
                if self.peek_is(')') {
                    self.pos = self.pos + 1;
                    Ok(Expr::Call(ident, args))
                } else {
                    Err(self.error(String::from_str("Expected ')' after function arguments")))
                }
            } else {
                Ok(Expr::Ident(ident))
            }
        } else {
            let mut m = String::from_str("Unexpected character '");
            crate::text::string_push(&mut m, c);
            m.append("'");
            assert("Unexpected character '"@.push(c) == "Unexpected character '"@ + seq![c]);
            Err(self.error(m))
        }
    }
}

} // verus!

verus! {

impl<'a> ExpressionParser<'a> {
    /// Parses a placeholder expression: member accesses (`a.b`), array indexing
    /// (`a[0]`), string and number literals, and helper calls (`f(x, y)`).
    /// Surrounding whitespace is ignored.
    pub fn parse_expression(input: &str) -> (r: Result<Expr, ExpressionError>)
        ensures
            match parse_expression_spec(input@) {
                Ok(e) => r matches Ok(x) && x@ == e,
                Err((expr, msg)) => r matches Err(er) && er.expression@ == expr && er.message@ == msg,
            },
    {
        let trimmed = crate::text::trim_str(input);
        if trimmed.is_empty() {
            return Err(
                ExpressionError {
                    expression: crate::text::to_owned_string(input),
                    message: String::from_str("Empty expression"),
                },
            );
        }
        let chars = crate::text::chars_of(trimmed);
        let _n = chars.len();
        let mut parser = ExpressionParser { input: trimmed, chars, pos: 0 };
        let expr = match parser.parse_expr() {
            Ok(e) => e,
            Err(e) => return Err(e),
        };
        proof {
            lemma_skip_ascii_ws(parser.chars@, parser.pos as int);
        }
        parser.skip_whitespace();
        if parser.pos < parser.chars.len() {
            let mut message = String::from_str("Unexpected characters after expression at index ");
            let prefix = trimmed.substring_char(0, parser.pos);
            let byte_index = prefix.as_bytes().len();
            crate::text::push_decimal(&mut message, byte_index);
            return Err(ExpressionError { expression: crate::text::to_owned_string(input), message });
        }
        Ok(expr)
    }
}

} // verus!

verus! {

proof fn lemma_scan_to_closing_quote(x: Seq<char>, body: Seq<char>, q: char, p: int)
    requires
        x == seq![q] + body + seq![q],
        !body.contains(q),
        1 <= p <= x.len() - 1,
    ensures
        scan_until(x, p, q) == x.len() - 1,
    decreases x.len() - p,
{
    if p < x.len() - 1 {
        assert(x[p] == body[p - 1]);
        if x[p] == q {
            assert(body.contains(q));
        }
        lemma_scan_to_closing_quote(x, body, q, p + 1);
    }
}

/// A string literal is exactly the characters between its quotes: the
/// expression made of a quote, any text without that quote, and the quote
/// again parses to a string literal holding that text unchanged, spaces
/// included.
pub proof fn law_string_literal_keeps_its_text(q: char, body: Seq<char>)
    requires
        q == '"' || q == '\'',
        !body.contains(q),
    ensures
        parse_expression_spec(seq![q] + body + seq![q]) == Ok::<SpecExpr, (Seq<char>, Seq<char>)>(
            SpecExpr::StringLit(body),
        ),
{
    let x = seq![q] + body + seq![q];
    let n = x.len() as int;
    assert(x[0] == q && x[n - 1] == q);
    assert(crate::text::skip_ws_forward(x, 0) == 0);
    assert(crate::text::skip_ws_backward(x, 0, n) == n);
    assert(x.subrange(0, n) =~= x);
    assert(crate::text::trim(x) == x);
    assert(skip_ascii_ws(x, 0) == 0);
    lemma_scan_to_closing_quote(x, body, q, 1);
    assert(x.subrange(1, n - 1) =~= body);
    assert(p_primary(x, 0) == Ok::<(SpecExpr, int), Seq<char>>((SpecExpr::StringLit(body), n)));
    assert(skip_ascii_ws(x, n) == n);
    assert(p_postfix(x, SpecExpr::StringLit(body), n) == Ok::<(SpecExpr, int), Seq<char>>((SpecExpr::StringLit(body), n)));
    assert(p_expr(x, 0) == Ok::<(SpecExpr, int), Seq<char>>((SpecExpr::StringLit(body), n)));
}

/// Whitespace around an expression is ignored: `" a.b "` parses to the same
/// expression as `"a.b"`, and one is malformed exactly when the other is.
pub proof fn law_surrounding_whitespace_ignored(pad_left: Seq<char>, s: Seq<char>, pad_right: Seq<char>)
    requires
        crate::text::all_whitespace(pad_left),
        crate::text::all_whitespace(pad_right),
    ensures
        parse_expression_spec(pad_left + s + pad_right) is Ok <==> parse_expression_spec(s) is Ok,
        parse_expression_spec(s) matches Ok(e) ==> parse_expression_spec(pad_left + s + pad_right)
            == Ok::<SpecExpr, (Seq<char>, Seq<char>)>(e),
{
    crate::text::lemma_trim_padding(pad_left, s, pad_right);
}

} // verus!

verus! {

/// The display text of an invalid-expression error:
/// `InvalidExpressionError in "<expression>": <message>`.
pub open spec fn describe_spec(expression: Seq<char>, message: Seq<char>) -> Seq<char> {
    "InvalidExpressionError in \""@ + expression + "\": "@ + message
}

impl ExpressionError {
    /// The error's display text (see [`describe_spec`]).
    pub fn describe(&self) -> (s: String)
        ensures
            s@ == describe_spec(self.expression@, self.message@),
    {
        let mut s = String::from_str("InvalidExpressionError in \"");
        s.append(self.expression.as_str());
        s.append("\": ");
        s.append(self.message.as_str());
        s
    }
}

} // verus!
