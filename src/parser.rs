use vstd::prelude::*;
use crate::ast::{same_expr, same_program, same_statement, BlockStatement, Expression, Identifier, Program, Statement};
use crate::lexer::{lemma_lexed_bounds, lemma_lexed_unique, lexed, same_kind, skip_spaces, Lexer};
use crate::token::{kind_text, Span, Token, TokenKind};

verus! {

/// A diagnostic: what went wrong, at which token, and what to do about it.
#[derive(Debug)]
pub struct ParseError {
    pub message: String,
    pub span: Option<Span>,
    pub hint: String,
}

fn parse_error(message: &str, span: Span, hint: &str) -> (r: ParseError)
    ensures
        r.message@ == message@,
        r.span == Some(span),
        r.hint@ == hint@,
{
    ParseError {
        message: String::from_str(message),
        span: Some(span),
        hint: String::from_str(hint),
    }
}

/// Binding power of operators, from loosest to tightest.
#[derive(Clone, Copy)]
enum Precedence {
    Lowest,
    Equals,
    LessGreater,
    Sum,
    Product,
    Prefix,
    Call,
    Index,
}

impl Precedence {
    spec fn spec_level(self) -> u8 {
        match self {
            Precedence::Lowest => 0,
            Precedence::Equals => 1,
            Precedence::LessGreater => 2,
            Precedence::Sum => 3,
            Precedence::Product => 4,
            Precedence::Prefix => 5,
            Precedence::Call => 6,
            Precedence::Index => 7,
        }
    }

    fn level(self) -> (r: u8)
        ensures
            r == self.spec_level(),
    {
        match self {
            Precedence::Lowest => 0,
            Precedence::Equals => 1,
            Precedence::LessGreater => 2,
            Precedence::Sum => 3,
            Precedence::Product => 4,
            Precedence::Prefix => 5,
            Precedence::Call => 6,
            Precedence::Index => 7,
        }
    }
}

/// How tightly a token binds when it follows an expression: operators,
/// `(` of a call and `[` of an index bind; every other token does not.
pub open spec fn binding_level(kind: TokenKind) -> u8 {
    match kind {
        TokenKind::Equal | TokenKind::NotEqual => 1,
        TokenKind::LessThan | TokenKind::GreaterThan => 2,
        TokenKind::Plus | TokenKind::Minus => 3,
        TokenKind::Slash | TokenKind::Asterisk => 4,
        TokenKind::LParen => 6,
        TokenKind::LBracket => 7,
        _ => 0,
    }
}

fn precedence_of(kind: &TokenKind) -> (r: Precedence)
    ensures
        r.spec_level() == binding_level(*kind),
{
    match kind {
        TokenKind::Equal => Precedence::Equals,
        TokenKind::NotEqual => Precedence::Equals,
        TokenKind::LessThan => Precedence::LessGreater,
        TokenKind::GreaterThan => Precedence::LessGreater,
        TokenKind::Plus => Precedence::Sum,
        TokenKind::Minus => Precedence::Sum,
        TokenKind::Slash => Precedence::Product,
        TokenKind::Asterisk => Precedence::Product,
        TokenKind::LParen => Precedence::Call,
        TokenKind::LBracket => Precedence::Index,
        _ => Precedence::Lowest,
    }
}


/// The value of a run of decimal digits.
pub open spec fn digits_value(s: Seq<char>) -> int
    decreases s.len(),
{
    if s.len() == 0 {
        0
    } else {
        digits_value(s.drop_last()) * 10 + (s.last() as int - '0' as int)
    }
}

proof fn lemma_digits_value_grows(s: Seq<char>, i: int)
    requires
        0 <= i <= s.len(),
        forall|k: int| 0 <= k < s.len() ==> '0' <= #[trigger] s[k] <= '9',
    ensures
        0 <= digits_value(s.subrange(0, i)) <= digits_value(s),
    decreases s.len() - i,
{
    if i < s.len() {
        lemma_digits_value_grows(s, i + 1);
        assert(s.subrange(0, i + 1).drop_last() =~= s.subrange(0, i));
    } else {
        assert(s.subrange(0, i) =~= s);
    }
    if i > 0 {
        lemma_digits_value_nonneg(s.subrange(0, i));
    }
}

proof fn lemma_digits_value_nonneg(s: Seq<char>)
    requires
        forall|k: int| 0 <= k < s.len() ==> '0' <= #[trigger] s[k] <= '9',
    ensures
        digits_value(s) >= 0,
    decreases s.len(),
{
    if s.len() > 0 {
        lemma_digits_value_nonneg(s.drop_last());
    }
}

pub open spec fn all_digits(s: Seq<char>) -> bool {
    forall|k: int| 0 <= k < s.len() ==> '0' <= #[trigger] s[k] <= '9'
}

/// Reads a run of decimal digits as an `i64`; `None` when it holds anything
/// but digits or does not fit.
pub fn parse_int(digits: &str) -> (r: Option<i64>)
    ensures
        match r {
            Some(v) => all_digits(digits@) && v == digits_value(digits@),
            None => !all_digits(digits@) || digits_value(digits@) > i64::MAX,
        },
{
    let n = digits.unicode_len();
    let mut acc: i64 = 0;
    let mut i: usize = 0;
    while i < n
        invariant
            n == digits@.len(),
            i <= n,
            forall|k: int| 0 <= k < i ==> '0' <= #[trigger] digits@[k] <= '9',
            acc == digits_value(digits@.subrange(0, i as int)),
            acc >= 0,
        decreases n - i,
    {
        let c = digits.get_char(i);
        if c < '0' || c > '9' {
            return None;
        }
        let d = (c as u32 - '0' as u32) as i64;
        assert(digits@.subrange(0, i + 1).drop_last() =~= digits@.subrange(0, i as int));
        if acc > (i64::MAX - d) / 10 {
            proof {
                if all_digits(digits@) {
                    lemma_digits_value_grows(digits@, i + 1);
                }
                assert(acc * 10 + d > i64::MAX) by (nonlinear_arith)
                    requires
                        acc > (i64::MAX - d) / 10,
                        0 <= d <= 9,
                ;
            }
            return None;
        }
        assert(acc * 10 + d <= i64::MAX) by (nonlinear_arith)
            requires
                acc <= (i64::MAX - d) / 10,
                0 <= d <= 9,
                acc >= 0,
        ;
        acc = acc * 10 + d;
        i = i + 1;
    }
    assert(digits@.subrange(0, n as int) =~= digits@);
    Some(acc)
}

/// The token lexed at offset `q` of `s` ends an expression parsed at binding
/// level `level`: it is a `;`, or it does not bind tighter than `level`.
pub open spec fn stops_at(s: Seq<char>, q: int, level: u8) -> bool {
    exists|t: Token, q2: int|
        #![trigger lexed(s, q, t, q2)]
        lexed(s, q, t, q2) && (t.kind == TokenKind::Semicolon || binding_level(t.kind) <= level)
}

/// A token of kind `kind` is lexed at offset `a`, and the next at `b`.
pub open spec fn token_is(s: Seq<char>, a: int, b: int, kind: TokenKind) -> bool {
    exists|t: Token| #![trigger lexed(s, a, t, b)] lexed(s, a, t, b) && t.kind == kind
}

/// A token that is a whole expression by itself: an identifier, `true`,
/// `false`, a string literal, or an integer literal that fits in an `i64`.
pub open spec fn is_atom(k: TokenKind) -> bool {
    match k {
        TokenKind::Ident(_) | TokenKind::True | TokenKind::False | TokenKind::String(_) => true,
        TokenKind::Int(d) => all_digits(d@) && digits_value(d@) <= i64::MAX,
        _ => false,
    }
}

/// From offset `a`: `=`, one atom (see `is_atom`), then `;` or a token that
/// does not continue an expression: the rest of a simple `let`.
pub open spec fn simple_binding_at(s: Seq<char>, a: int) -> bool {
    exists|t2: Token, q2: int, t3: Token, q3: int, t4: Token, q4: int|
        #![trigger lexed(s, a, t2, q2), lexed(s, q2, t3, q3), lexed(s, q3, t4, q4)]
        lexed(s, a, t2, q2) && t2.kind == TokenKind::Assign && lexed(s, q2, t3, q3) && is_atom(
            t3.kind,
        ) && lexed(s, q3, t4, q4) && (t4.kind == TokenKind::Semicolon || binding_level(t4.kind)
            == 0)
}

/// The binary operators.
pub open spec fn is_infix_kind(k: TokenKind) -> bool {
    1 <= binding_level(k) <= 4
}

pub open spec fn opener_kind(k: TokenKind, parens: bool) -> bool {
    if parens {
        k == TokenKind::LParen
    } else {
        k == TokenKind::LBracket
    }
}

pub open spec fn closer_kind(k: TokenKind, parens: bool) -> bool {
    if parens {
        k == TokenKind::RParen
    } else {
        k == TokenKind::RBracket
    }
}

/// The closing token of a list is lexed at `a`, and the next at `b`.
pub open spec fn closes(s: Seq<char>, a: int, b: int, parens: bool) -> bool {
    exists|t: Token| #![trigger lexed(s, a, t, b)] lexed(s, a, t, b) && closer_kind(t.kind, parens)
}

/// Parsing an expression whose operators bind tighter than `level`, from the
/// token lexed at offset `p` of `s`, gives `e`; the token after `e` is
/// lexed at offset `q` and does not continue it.
pub open spec fn parses_expr(s: Seq<char>, p: int, level: u8, e: Expression, q: int) -> bool
    decreases e, s.len() - p, 2nat,
{
    parses_chain(s, p, level, e, q) && stops_at(s, q, level)
}

/// `e` is an expression that starts at the token lexed at `p` followed by
/// operators, calls and indexes that each bind tighter than `level`, the
/// leftmost applied first; the token after it is lexed at `q`.
pub open spec fn parses_chain(s: Seq<char>, p: int, level: u8, e: Expression, q: int) -> bool
    decreases e, s.len() - p, 1nat,
{
    parses_prefix(s, p, e, q) || match e {
        Expression::Infix { token, operator, left, right } => exists|m1: int, m2: int|
            #![trigger lexed(s, m1, token, m2)]
            parses_chain(s, p, level, *left, m1) && lexed(s, m1, token, m2) && is_infix_kind(
                token.kind,
            ) && binding_level(token.kind) > level && operator@ == kind_text(token.kind)
                && parses_expr(s, m2, binding_level(token.kind), *right, q),
        Expression::Call { function, arguments } => exists|m1: int, m2: int|
            #![trigger token_is(s, m1, m2, TokenKind::LParen)]
            parses_chain(s, p, level, *function, m1) && 6 > level && token_is(
                s,
                m1,
                m2,
                TokenKind::LParen,
            ) && parses_list(
                s,
                m1,
                true,
                arguments,
                q,
            ),
        Expression::IndexExpr { left, index } => exists|m1: int, m2: int, m3: int|
            #![trigger parses_index(s, m1, m2, m3, q)]
            parses_chain(s, p, level, *left, m1) && 7 > level && parses_index(
                s,
                m1,
                m2,
                m3,
                q,
            ) && parses_expr(s, m2, 0, *index, m3),
        _ => false,
    }
}

/// A `[` lexed at `m1`, its index starting at `m2` and ending at `m3`, where
/// a `]` is lexed, and the token after that lexed at `q`.
pub open spec fn parses_index(s: Seq<char>, m1: int, m2: int, m3: int, q: int) -> bool {
    token_is(s, m1, m2, TokenKind::LBracket) && token_is(s, m3, q, TokenKind::RBracket)
}

/// A block: its `{` is lexed at `a`, and after its `}` the next token is
/// lexed at `b`.
pub open spec fn braced(s: Seq<char>, a: int, b: int) -> bool {
    exists|a1: int, r: int|
        #![trigger token_is(s, a, a1, TokenKind::LBrace), token_is(s, r, b, TokenKind::RBrace)]
        token_is(s, a, a1, TokenKind::LBrace) && token_is(s, r, b, TokenKind::RBrace)
}

/// The identifier `name` is lexed at `a`, and the next token at `b`.
pub open spec fn ident_is(s: Seq<char>, a: int, b: int, name: Seq<char>) -> bool {
    exists|t: Token|
        #![trigger lexed(s, a, t, b)]
        lexed(s, a, t, b) && (t.kind matches TokenKind::Ident(x) && x@ == name)
}

/// The first `n` parameter names of `v`, separated by `,`, start at the
/// token lexed at `a`; the token after them is lexed at `m`.
pub open spec fn param_names(s: Seq<char>, a: int, v: Seq<Identifier>, n: int, m: int) -> bool
    decreases n,
{
    if n <= 0 || n > v.len() {
        false
    } else if n == 1 {
        ident_is(s, a, m, v[0].0@)
    } else {
        exists|m1: int, m2: int|
            #![trigger token_is(s, m1, m2, TokenKind::Comma)]
            param_names(s, a, v, n - 1, m1) && token_is(s, m1, m2, TokenKind::Comma) && ident_is(
                s,
                m2,
                m,
                v[n - 1].0@,
            )
    }
}

proof fn lemma_names_prefix(s: Seq<char>, a: int, v1: Seq<Identifier>, v2: Seq<Identifier>, n: int, m: int)
    requires
        1 <= n <= v1.len(),
        n <= v2.len(),
        forall|k: int| 0 <= k < n ==> v1[k] == v2[k],
        param_names(s, a, v1, n, m),
    ensures
        param_names(s, a, v2, n, m),
    decreases n,
{
    if n > 1 {
        let (m1, m2) = choose|m1: int, m2: int|
            param_names(s, a, v1, n - 1, m1) && token_is(s, m1, m2, TokenKind::Comma) && ident_is(
                s,
                m2,
                m,
                v1[n - 1].0@,
            );
        lemma_names_prefix(s, a, v1, v2, n - 1, m1);
        assert(v1[n - 1] == v2[n - 1]);
    } else {
        assert(v1[0] == v2[0]);
    }
}

/// A parameter list: `(` lexed at `a`, the names of `v` separated by `,`,
/// then `)`, after which the next token is lexed at `b`.
pub open spec fn param_list(s: Seq<char>, a: int, v: Seq<Identifier>, b: int) -> bool {
    exists|a1: int|
        #![trigger token_is(s, a, a1, TokenKind::LParen)]
        token_is(s, a, a1, TokenKind::LParen) && if v.len() == 0 {
            token_is(s, a1, b, TokenKind::RParen)
        } else {
            exists|m: int|
                #![trigger token_is(s, m, b, TokenKind::RParen)]
                param_names(s, a1, v, v.len() as int, m) && token_is(s, m, b, TokenKind::RParen)
        }
}

/// One `key: value` entry of a hash literal, from the token lexed at `a`;
/// the token after it is lexed at `m`.
pub open spec fn parses_entry(s: Seq<char>, a: int, entry: (Expression, Expression), m: int) -> bool
    decreases entry, 0int, 0nat,
{
    exists|mk: int, mc: int|
        #![trigger token_is(s, mk, mc, TokenKind::Colon)]
        parses_expr(s, a, 0, entry.0, mk) && token_is(s, mk, mc, TokenKind::Colon) && parses_expr(
            s,
            mc,
            0,
            entry.1,
            m,
        )
}

/// The first `n` entries of `v`, separated by `,`, start at the token lexed
/// at `a`; the token after them is lexed at `m`.
pub open spec fn parses_entries(s: Seq<char>, a: int, v: Vec<(Expression, Expression)>, n: int, m: int) -> bool
    decreases v, n, 0nat,
{
    if n <= 0 || n > v.len() {
        false
    } else if n == 1 {
        parses_entry(s, a, v[0], m)
    } else {
        exists|m1: int, m2: int|
            #![trigger token_is(s, m1, m2, TokenKind::Comma)]
            parses_entries(s, a, v, n - 1, m1) && token_is(s, m1, m2, TokenKind::Comma)
                && parses_entry(s, m2, v[n - 1], m)
    }
}

proof fn lemma_entries_prefix(
    s: Seq<char>,
    a: int,
    v1: Vec<(Expression, Expression)>,
    v2: Vec<(Expression, Expression)>,
    n: int,
    m: int,
)
    requires
        1 <= n <= v1.len(),
        n <= v2.len(),
        forall|k: int| 0 <= k < n ==> v1[k] == v2[k],
        parses_entries(s, a, v1, n, m),
    ensures
        parses_entries(s, a, v2, n, m),
    decreases n,
{
    if n > 1 {
        let (m1, m2) = choose|m1: int, m2: int|
            parses_entries(s, a, v1, n - 1, m1) && token_is(s, m1, m2, TokenKind::Comma)
                && parses_entry(s, m2, v1[n - 1], m);
        lemma_entries_prefix(s, a, v1, v2, n - 1, m1);
        assert(v1[n - 1] == v2[n - 1]);
    } else {
        assert(v1[0] == v2[0]);
    }
}

/// An optional `,` lexed at `m`; the token after is lexed at `r`.
pub open spec fn trailing_comma(s: Seq<char>, m: int, r: int) -> bool {
    r == m || token_is(s, m, r, TokenKind::Comma)
}

/// A hash literal opened by the `{` lexed at `p`: entries separated by `,`,
/// an optional `,` after the last, then `}`, after which the next token is
/// lexed at `q`.
pub open spec fn parses_hash(s: Seq<char>, p: int, v: Vec<(Expression, Expression)>, q: int) -> bool
    decreases v, v.len() + 1, 0nat,
{
    exists|p1: int|
        #![trigger token_is(s, p, p1, TokenKind::LBrace)]
        token_is(s, p, p1, TokenKind::LBrace) && if v.len() == 0 {
            token_is(s, p1, q, TokenKind::RBrace)
        } else {
            exists|m: int, r: int|
                #![trigger trailing_comma(s, m, r), token_is(s, r, q, TokenKind::RBrace)]
                parses_entries(s, p1, v, v.len() as int, m) && trailing_comma(s, m, r) && token_is(
                    s,
                    r,
                    q,
                    TokenKind::RBrace,
                )
        }
}

/// `e` is what the token lexed at `p` starts: a literal or identifier, a
/// group in parentheses, a prefix operator with its operand, an array or
/// hash literal, an `if` with its condition and blocks, or a function
/// literal with its parameters and body (the statements inside a block are
/// stated by `parse_block_statement`); the token after it is lexed at `q`.
pub open spec fn parses_prefix(s: Seq<char>, p: int, e: Expression, q: int) -> bool
    decreases e, s.len() - p, 0nat,
{
    exists|t: Token, p1: int|
        #![trigger lexed(s, p, t, p1)]
        lexed(s, p, t, p1) && 0 <= p < p1 <= s.len() && match t.kind {
            TokenKind::Ident(x) => q == p1 && (e matches Expression::Ident(id) && id.0@ == x@),
            TokenKind::Int(d) => q == p1 && all_digits(d@) && digits_value(d@) <= i64::MAX && e
                == Expression::IntegerLiteral(digits_value(d@) as i64),
            TokenKind::True => q == p1 && e == Expression::Boolean(true),
            TokenKind::False => q == p1 && e == Expression::Boolean(false),
            TokenKind::String(x) => q == p1 && (e matches Expression::StringLiteral(y) && y@
                == x@),
            TokenKind::LParen => exists|m: int|
                #![trigger token_is(s, m, q, TokenKind::RParen)]
                parses_expr(s, p1, 0, e, m) && token_is(s, m, q, TokenKind::RParen),
            TokenKind::Minus | TokenKind::Bang => e matches Expression::Prefix {
                token,
                operator,
                right,
            } && token == t && operator@ == kind_text(t.kind) && parses_expr(s, p1, 5, *right, q),
            TokenKind::LBracket => e matches Expression::ArrayLiteral(v) && parses_list(
                s,
                p,
                false,
                v,
                q,
            ),
            TokenKind::LBrace => e matches Expression::HashLiteral(v) && parses_hash(s, p, v, q),
            TokenKind::If => e matches Expression::If { condition, alternative, .. } && exists|
                p2: int,
                m1: int,
                m2: int,
                m3: int,
            |
                #![trigger token_is(s, p1, p2, TokenKind::LParen), token_is(s, m1, m2, TokenKind::RParen), braced(s, m2, m3)]
                token_is(s, p1, p2, TokenKind::LParen) && parses_expr(s, p2, 0, *condition, m1)
                    && token_is(s, m1, m2, TokenKind::RParen) && braced(s, m2, m3) && match alternative {
                    None => q == m3,
                    Some(_) => exists|m4: int|
                        #![trigger token_is(s, m3, m4, TokenKind::Else)]
                        token_is(s, m3, m4, TokenKind::Else) && braced(s, m4, q),
                },
            TokenKind::Function => e matches Expression::FunctionLiteral { parameters, .. } && exists|
                m1: int,
            |
                #![trigger braced(s, m1, q)]
                param_list(s, p1, parameters@, m1) && braced(s, m1, q),
            _ => false,
        }
}

/// A list in parentheses (or brackets) opened by the token lexed at `p`:
/// expressions separated by `,`; the token after the closing one is lexed
/// at `q`.
pub open spec fn parses_list(s: Seq<char>, p: int, parens: bool, v: Vec<Expression>, q: int) -> bool
    decreases v, v.len() + 1, 0nat,
{
    exists|t0: Token, p1: int|
        #![trigger lexed(s, p, t0, p1)]
        lexed(s, p, t0, p1) && opener_kind(t0.kind, parens) && if v.len() == 0 {
            closes(s, p1, q, parens)
        } else {
            exists|m: int|
                #![trigger closes(s, m, q, parens)]
                parses_items(s, p1, v, v.len() as int, m) && closes(s, m, q, parens)
        }
}

/// The first `n` expressions of `v`, separated by `,`, start at the token
/// lexed at `a`; the token after them is lexed at `m`.
pub open spec fn parses_items(s: Seq<char>, a: int, v: Vec<Expression>, n: int, m: int) -> bool
    decreases v, n, 0nat,
{
    if n <= 0 || n > v.len() {
        false
    } else if n == 1 {
        parses_expr(s, a, 0, v[0], m)
    } else {
        exists|m1: int, m2: int|
            #![trigger token_is(s, m1, m2, TokenKind::Comma)]
            parses_items(s, a, v, n - 1, m1) && token_is(s, m1, m2, TokenKind::Comma)
                && parses_expr(s, m2, 0, v[n - 1], m)
    }
}

proof fn lemma_items_prefix(s: Seq<char>, a: int, v1: Vec<Expression>, v2: Vec<Expression>, n: int, m: int)
    requires
        1 <= n <= v1.len(),
        n <= v2.len(),
        forall|k: int| 0 <= k < n ==> v1[k] == v2[k],
        parses_items(s, a, v1, n, m),
    ensures
        parses_items(s, a, v2, n, m),
    decreases n,
{
    if n > 1 {
        let (m1, m2) = choose|m1: int, m2: int|
            parses_items(s, a, v1, n - 1, m1) && token_is(s, m1, m2, TokenKind::Comma)
                && parses_expr(s, m2, 0, v1[n - 1], m);
        lemma_items_prefix(s, a, v1, v2, n - 1, m1);
        assert(v1[n - 1] == v2[n - 1]);
    } else {
        assert(v1[0] == v2[0]);
    }
}

/// An optional `;` after a statement whose last token came before offset
/// `m`; the token after is lexed at `q`.
pub open spec fn optional_semicolon(s: Seq<char>, m: int, q: int) -> bool {
    q == m || token_is(s, m, q, TokenKind::Semicolon)
}

/// `st` is the statement that starts at the token lexed at `p`: `let` with a
/// name, `=` and an expression; `return` and an expression; or an
/// expression; each with an optional `;`. The token after it is lexed at `q`.
pub open spec fn parses_statement(s: Seq<char>, p: int, st: Statement, q: int) -> bool {
    match st {
        Statement::Let { token, name, value } => exists|p1: int, p2: int, p3: int, m: int|
            #![trigger lexed(s, p, token, p1), token_is(s, p2, p3, TokenKind::Assign), optional_semicolon(s, m, q)]
            lexed(s, p, token, p1) && token.kind == TokenKind::Let && token_is(
                s,
                p1,
                p2,
                TokenKind::Ident(name),
            ) && token_is(s, p2, p3, TokenKind::Assign) && parses_expr(s, p3, 0, value, m)
                && optional_semicolon(s, m, q),
        Statement::Return { token, value } => exists|p1: int, m: int|
            #![trigger lexed(s, p, token, p1), optional_semicolon(s, m, q)]
            lexed(s, p, token, p1) && token.kind == TokenKind::Return && parses_expr(
                s,
                p1,
                0,
                value,
                m,
            ) && optional_semicolon(s, m, q),
        Statement::Expr(e) => exists|m: int|
            #![trigger optional_semicolon(s, m, q)]
            parses_expr(s, p, 0, e, m) && optional_semicolon(s, m, q),
    }
}

/// `st` is a statement that parses from some place of `s`.
pub open spec fn statement_in(s: Seq<char>, st: Statement) -> bool {
    exists|a: int, b: int| parses_statement(s, a, st, b)
}

/// `spans` gives, for each statement of `p` in order, the offsets where it
/// starts and where the token after it starts; the statements parse from
/// there, in source order, without overlapping.
pub open spec fn ordered_spans(s: Seq<char>, p: Program, spans: Seq<(int, int)>) -> bool {
    &&& spans.len() == p.stmts().len()
    &&& forall|i: int|
        0 <= i < spans.len() ==> (#[trigger] spans[i]).0 <= spans[i].1 && parses_statement(
            s,
            spans[i].0,
            p.stmts()[i],
            spans[i].1,
        )
    &&& forall|i: int, j: int|
        0 <= i < j < spans.len() ==> (#[trigger] spans[i]).1 <= (#[trigger] spans[j]).0
}

/// What `parse_program` promises of the program it returns for source `s`:
/// its statements parse, in order and without overlapping, from places of
/// `s`.
pub open spec fn program_of(s: Seq<char>, p: Program) -> bool {
    exists|spans: Seq<(int, int)>| #[trigger] ordered_spans(s, p, spans)
}

/// Names a construct `x` read up to offset `m`; it holds of everything and
/// serves only to let the solver find the steps of the grammar below.
pub open spec fn read_to<T>(x: T, m: int) -> bool {
    true
}

/// The grammar of well-formed input, stated in the order a Pratt parser
/// reads it. `wf_expr(s, p, level, e, q)`: from the token lexed at offset `p`
/// of `s`, an expression whose operators bind tighter than `level` is `e`, and
/// the token after it, which does not continue it, is lexed at `q`. (This
/// grammar covers every expression.)
pub open spec fn wf_expr(s: Seq<char>, p: int, level: u8, e: Expression, q: int) -> bool
    decreases s.len() - p, 3int,
{
    exists|left: Expression, m: int|
        #![trigger read_to(left, m)]
        read_to(left, m) && p < m <= s.len() && wf_prefix(s, p, left, m) && wf_chain(
            s,
            level,
            left,
            m,
            e,
            q,
        )
}

/// What the token lexed at `p` starts: a literal or identifier, a group in
/// parentheses, a prefix operator with its operand, an array literal, an
/// `if` with its condition and blocks, or a function literal with its
/// parameters and body; the token after it is lexed at `q`.
pub open spec fn wf_prefix(s: Seq<char>, p: int, e: Expression, q: int) -> bool
    decreases s.len() - p, 2int,
{
    exists|t: Token, p1: int|
        lexed(s, p, t, p1) && 0 <= p < p1 <= s.len() && match t.kind {
            TokenKind::Ident(x) => q == p1 && (e matches Expression::Ident(id) && id.0@ == x@),
            TokenKind::Int(d) => q == p1 && all_digits(d@) && digits_value(d@) <= i64::MAX && e
                == Expression::IntegerLiteral(digits_value(d@) as i64),
            TokenKind::True => q == p1 && e == Expression::Boolean(true),
            TokenKind::False => q == p1 && e == Expression::Boolean(false),
            TokenKind::String(x) => q == p1 && (e matches Expression::StringLiteral(y) && y@
                == x@),
            TokenKind::LParen => exists|m: int|
                p1 < m <= s.len() && wf_expr(s, p1, 0, e, m) && token_is(
                    s,
                    m,
                    q,
                    TokenKind::RParen,
                ),
            TokenKind::Minus | TokenKind::Bang => e matches Expression::Prefix {
                token,
                operator,
                right,
            } && token == t && operator@ == kind_text(t.kind) && wf_expr(s, p1, 5, *right, q),
            TokenKind::LBracket => e matches Expression::ArrayLiteral(v) && wf_list(
                s,
                p1,
                false,
                v@,
                q,
            ),
            TokenKind::LBrace => e matches Expression::HashLiteral(v) && hash_rest(s, p1, v@, 0, q),
            TokenKind::If => e matches Expression::If { condition, consequence, alternative }
                && exists|p2: int, m1: int, m2: int, m3: int|
                #![trigger token_is(s, p1, p2, TokenKind::LParen), token_is(s, m1, m2, TokenKind::RParen), read_to(consequence, m3)]
                read_to(consequence, m3) && p1 < p2 < m1 < m2 < m3 <= s.len() && token_is(
                    s,
                    p1,
                    p2,
                    TokenKind::LParen,
                ) && wf_expr(s, p2, 0, *condition, m1) && token_is(s, m1, m2, TokenKind::RParen)
                    && wf_block(s, m2, consequence, m3) && match alternative {
                    None => q == m3 && no_token_at(s, m3, TokenKind::Else),
                    Some(alt) => exists|m4: int|
                        #![trigger token_is(s, m3, m4, TokenKind::Else)]
                        m3 < m4 < q <= s.len() && token_is(s, m3, m4, TokenKind::Else) && wf_block(
                            s,
                            m4,
                            alt,
                            q,
                        ),
                },
            TokenKind::Function => e matches Expression::FunctionLiteral { parameters, body }
                && exists|m1: int|
                #![trigger read_to(body, m1)]
                read_to(body, m1) && p1 < m1 < q <= s.len() && wf_params(s, p1, parameters@, m1) && wf_block(
                    s,
                    m1,
                    body,
                    q,
                ),
            _ => false,
        }
}

/// The entries of a hash literal from the `k`-th on, the next token lexed at
/// `p`: each `key: value`, separated by `,`, an optional `,` after the last,
/// then `}`, after which the next token is lexed at `q`.
pub open spec fn hash_rest(s: Seq<char>, p: int, v: Seq<(Expression, Expression)>, k: int, q: int) -> bool
    decreases s.len() - p, 4int,
{
    if k >= v.len() {
        k == v.len() && token_is(s, p, q, TokenKind::RBrace)
    } else {
        0 <= k && exists|mk: int, mc: int, mv: int|
            #![trigger token_is(s, mk, mc, TokenKind::Colon), read_to(v[k].1, mv)]
            read_to(v[k].1, mv) && p < mk < mc < mv <= s.len() && wf_expr(s, p, 0, v[k].0, mk)
                && token_is(s, mk, mc, TokenKind::Colon) && wf_expr(s, mc, 0, v[k].1, mv) && ((k
                + 1 == v.len() && token_is(s, mv, q, TokenKind::RBrace)) || exists|mm: int|
                #![trigger token_is(s, mv, mm, TokenKind::Comma)]
                mv < mm <= s.len() && token_is(s, mv, mm, TokenKind::Comma) && hash_rest(
                    s,
                    mm,
                    v,
                    k + 1,
                    q,
                ))
    }
}

/// No token of kind `kind` is lexed at `m`.
pub open spec fn no_token_at(s: Seq<char>, m: int, kind: TokenKind) -> bool {
    forall|t: Token, q: int| #[trigger] lexed(s, m, t, q) ==> t.kind != kind
}

/// A block whose `{` is lexed at `a`: the statements of `b`, one after
/// another, then `}`, after which the next token is lexed at `q`.
pub open spec fn wf_block(s: Seq<char>, a: int, b: Program, q: int) -> bool
    decreases s.len() - a, 7int,
{
    exists|a1: int|
        #![trigger token_is(s, a, a1, TokenKind::LBrace)]
        a < a1 <= s.len() && token_is(s, a, a1, TokenKind::LBrace) && wf_block_statements(
            s,
            a1,
            b.0@,
            0,
            q,
        )
}

/// From the token lexed at `p`: the statements of `stmts` from the `k`-th
/// on, one after another, then `}`, after which the next token is lexed at
/// `q`.
pub open spec fn wf_block_statements(s: Seq<char>, p: int, stmts: Seq<Statement>, k: int, q: int) -> bool
    decreases s.len() - p, 6int,
{
    if k >= stmts.len() {
        token_is(s, p, q, TokenKind::RBrace)
    } else {
        0 <= k && exists|qq: int|
            #![trigger read_to(stmts[k], qq)]
            read_to(stmts[k], qq) && p < qq <= s.len() && wf_statement(s, p, stmts[k], qq)
                && wf_block_statements(s, qq, stmts, k + 1, q)
    }
}

/// A parameter list whose `(` is lexed at `a`: the names of `v` separated by
/// `,`, then `)`, after which the next token is lexed at `b`.
pub open spec fn wf_params(s: Seq<char>, a: int, v: Seq<Identifier>, b: int) -> bool {
    exists|a1: int|
        #![trigger token_is(s, a, a1, TokenKind::LParen)]
        token_is(s, a, a1, TokenKind::LParen) && ((v.len() == 0 && token_is(
            s,
            a1,
            b,
            TokenKind::RParen,
        )) || (v.len() > 0 && exists|m: int|
            #![trigger ident_is(s, a1, m, v[0].0@)]
            ident_is(s, a1, m, v[0].0@) && wf_more_params(s, v, 1, m, b)))
}

/// The names of `v` from the `k`-th on, each after a `,`, the first `,`
/// lexed at `m`; then `)`, after which the next token is lexed at `b`.
pub open spec fn wf_more_params(s: Seq<char>, v: Seq<Identifier>, k: int, m: int, b: int) -> bool
    decreases v.len() - k,
{
    if k >= v.len() {
        k == v.len() && token_is(s, m, b, TokenKind::RParen)
    } else {
        0 <= k && exists|m1: int, m2: int|
            #![trigger token_is(s, m, m1, TokenKind::Comma), ident_is(s, m1, m2, v[k].0@)]
            token_is(s, m, m1, TokenKind::Comma) && ident_is(s, m1, m2, v[k].0@) && wf_more_params(
                s,
                v,
                k + 1,
                m2,
                b,
            )
    }
}

/// Having read `left`, with the next token lexed at `m`: either that token
/// does not continue an expression at `level` and the result is `left`, or
/// it is an operator, `(` or `[` binding tighter than `level`, whose operand,
/// arguments or index are read and the reading goes on with the new
/// expression. The result is `e`, and the token after it is lexed at `q`.
pub open spec fn wf_chain(s: Seq<char>, level: u8, left: Expression, m: int, e: Expression, q: int) -> bool
    decreases s.len() - m, 1int,
{
    (stops_at(s, m, level) && e == left && q == m) || exists|t: Token, m1: int|
        lexed(s, m, t, m1) && 0 <= m < m1 <= s.len() && t.kind != TokenKind::Semicolon
            && binding_level(t.kind) > level && ((is_infix_kind(t.kind) && exists|
            right: Expression,
            m2: int,
            node: Expression,
        |
            #![trigger read_to((right, node), m2)]
            read_to((right, node), m2) && m1 < m2 <= s.len() && wf_expr(
                s,
                m1,
                binding_level(t.kind),
                right,
                m2,
            ) && (
            node matches Expression::Infix { token, operator, left: l, right: r } && token == t
                && operator@ == kind_text(t.kind) && *l == left && *r == right) && wf_chain(
                s,
                level,
                node,
                m2,
                e,
                q,
            )) || (t.kind == TokenKind::LParen && exists|
            args: Seq<Expression>,
            m2: int,
            node: Expression,
        |
            #![trigger read_to((args, node), m2)]
            read_to((args, node), m2) && m1 < m2 <= s.len() && wf_list(s, m1, true, args, m2) && (
            node matches Expression::Call {
                function: f,
                arguments,
            } && *f == left && arguments@ == args) && wf_chain(s, level, node, m2, e, q)) || (
        t.kind == TokenKind::LBracket && exists|index: Expression, m2: int, m3: int, node: Expression|
            #![trigger read_to((index, node), m2), token_is(s, m2, m3, TokenKind::RBracket)]
            read_to((index, node), m2) && m1 < m2 < m3 <= s.len() && wf_expr(s, m1, 0, index, m2)
                && token_is(
                s,
                m2,
                m3,
                TokenKind::RBracket,
            ) && (node matches Expression::IndexExpr { left: l, index: i } && *l == left && *i
                == index) && wf_chain(s, level, node, m3, e, q)))
}

/// A list whose first token after the opening `(` (or `[`) is lexed at `a`:
/// the expressions `v` separated by `,`, then the closing token, after which
/// the next token is lexed at `q`.
pub open spec fn wf_list(s: Seq<char>, a: int, parens: bool, v: Seq<Expression>, q: int) -> bool
    decreases s.len() - a, 4int,
{
    (v.len() == 0 && closes(s, a, q, parens)) || (v.len() > 0 && exists|m: int|
        #![trigger read_to(v[0], m)]
        read_to(v[0], m) && a < m <= s.len() && wf_expr(s, a, 0, v[0], m) && wf_more(
            s,
            parens,
            v,
            1,
            m,
            q,
        ))
}

/// The items of `v` from the `k`-th on, each after a `,`, the first `,`
/// lexed at `m`; then the closing token, after which the next token is lexed
/// at `q`.
pub open spec fn wf_more(s: Seq<char>, parens: bool, v: Seq<Expression>, k: int, m: int, q: int) -> bool
    decreases s.len() - m, 0int,
{
    (k == v.len() && closes(s, m, q, parens)) || (0 <= k < v.len() && exists|m1: int, m2: int|
        #![trigger token_is(s, m, m1, TokenKind::Comma), read_to(v[k], m2)]
        read_to(v[k], m2) && m < m1 < m2 <= s.len() && token_is(s, m, m1, TokenKind::Comma) && wf_expr(
            s,
            m1,
            0,
            v[k],
            m2,
        ) && wf_more(s, parens, v, k + 1, m2, q))
}

/// No `;` is lexed at `m`.
pub open spec fn no_semicolon_at(s: Seq<char>, m: int) -> bool {
    forall|t: Token, q: int| #[trigger] lexed(s, m, t, q) ==> t.kind != TokenKind::Semicolon
}

/// After a statement whose last token came before offset `m`: a `;` if one
/// is lexed there (the next token is then lexed at `q`), else nothing and
/// `q == m`.
pub open spec fn wf_end(s: Seq<char>, m: int, q: int) -> bool {
    token_is(s, m, q, TokenKind::Semicolon) || (q == m && no_semicolon_at(s, m))
}

/// A well-formed statement from the token lexed at `p`; the token after it
/// is lexed at `q`.
pub open spec fn wf_statement(s: Seq<char>, p: int, st: Statement, q: int) -> bool
    decreases s.len() - p, 5int,
{
    match st {
        Statement::Let { token, name, value } => exists|p1: int, p2: int, p3: int, m: int|
            lexed(s, p, token, p1) && token.kind == TokenKind::Let && p < p1 < p2 < p3 <= s.len()
                && token_is(
                s,
                p1,
                p2,
                TokenKind::Ident(name),
            ) && token_is(s, p2, p3, TokenKind::Assign) && wf_expr(s, p3, 0, value, m)
                && wf_end(s, m, q),
        Statement::Return { token, value } => exists|p1: int, m: int|
            lexed(s, p, token, p1) && token.kind == TokenKind::Return && p < p1 <= s.len() && wf_expr(
                s,
                p1,
                0,
                value,
                m,
            )
                && wf_end(s, m, q),
        Statement::Expr(e) => exists|m: int| wf_expr(s, p, 0, e, m) && wf_end(s, m, q),
    }
}

/// From the token lexed at `p`, the statements `stmts` from the `k`-th on,
/// one after another, then the end of the source.
pub open spec fn wf_statements(s: Seq<char>, p: int, stmts: Seq<Statement>, k: int) -> bool
    decreases stmts.len() - k,
{
    if k >= stmts.len() {
        token_is(s, p, s.len() as int, TokenKind::Eof)
    } else {
        0 <= k && exists|q: int|
            #![trigger read_to(stmts[k], q)]
            read_to(stmts[k], q) && wf_statement(s, p, stmts[k], q) && wf_statements(
                s,
                q,
                stmts,
                k + 1,
            )
    }
}

/// The source `s` is the statements `stmts`, well formed, one after
/// another, from its start to its end.
pub open spec fn wf_program(s: Seq<char>, stmts: Seq<Statement>) -> bool {
    wf_statements(s, 0, stmts, 0)
}

/// Two lists of statements that are the same, one by one.
pub open spec fn same_statements(a: Seq<Statement>, b: Seq<Statement>) -> bool {
    a.len() == b.len() && forall|i: int| 0 <= i < a.len() ==> same_statement(#[trigger] a[i], b[i])
}

/// The well-formed reading of source `s` (see `wf_program`), when it has one.
pub open spec fn reading_of(s: Seq<char>) -> Seq<Statement> {
    choose|stmts: Seq<Statement>| wf_program(s, stmts)
}

proof fn lemma_ident_is_at(s: Seq<char>, a: int, b: int, name: Seq<char>, t2: Token, q2: int)
    requires
        ident_is(s, a, b, name),
        lexed(s, a, t2, q2),
    ensures
        t2.kind matches TokenKind::Ident(x) && x@ == name,
        b == q2,
{
    let t = choose|t: Token|
        #![trigger lexed(s, a, t, b)]
        lexed(s, a, t, b) && (t.kind matches TokenKind::Ident(x) && x@ == name);
    lemma_lexed_unique(s, a, t, b, t2, q2);
}

proof fn lemma_wf_statement_starts(s: Seq<char>, p: int, st: Statement, q: int, t2: Token, q2: int)
    requires
        wf_statement(s, p, st, q),
        lexed(s, p, t2, q2),
    ensures
        t2.kind == TokenKind::Let || t2.kind == TokenKind::Return || starts_expression(t2.kind),
{
    match st {
        Statement::Let { token, .. } => {
            let p1 = choose|p1: int|
                #![trigger lexed(s, p, token, p1)]
                lexed(s, p, token, p1) && token.kind == TokenKind::Let;
            lemma_lexed_unique(s, p, token, p1, t2, q2);
        },
        Statement::Return { token, .. } => {
            let p1 = choose|p1: int|
                #![trigger lexed(s, p, token, p1)]
                lexed(s, p, token, p1) && token.kind == TokenKind::Return;
            lemma_lexed_unique(s, p, token, p1, t2, q2);
        },
        Statement::Expr(e) => {
            let m = choose|m: int| #![trigger wf_end(s, m, q)] wf_expr(s, p, 0, e, m) && wf_end(s, m, q);
            lemma_wf_expr_starts(s, p, 0, e, m, t2, q2);
        },
    }
}

proof fn lemma_block_opens(s: Seq<char>, a: int, b: Program, q: int, t2: Token, q2: int)
    requires
        wf_block(s, a, b, q),
        lexed(s, a, t2, q2),
    ensures
        t2.kind == TokenKind::LBrace,
        wf_block_statements(s, q2, b.0@, 0, q),
{
    let a1 = choose|a1: int|
        #![trigger token_is(s, a, a1, TokenKind::LBrace)]
        a < a1 <= s.len() && token_is(s, a, a1, TokenKind::LBrace) && wf_block_statements(
            s,
            a1,
            b.0@,
            0,
            q,
        );
    lemma_token_is_at(s, a, a1, TokenKind::LBrace, t2, q2);
}

/// The kinds of token an expression can start with.
pub open spec fn starts_expression(k: TokenKind) -> bool {
    k is Ident || k is Int || k is String || k == TokenKind::True || k == TokenKind::False || k
        == TokenKind::LParen || k == TokenKind::Minus || k == TokenKind::Bang || k
        == TokenKind::LBracket || k == TokenKind::If || k == TokenKind::Function || k
        == TokenKind::LBrace
}

proof fn lemma_token_is_at(s: Seq<char>, m: int, q: int, kind: TokenKind, t2: Token, q2: int)
    requires
        token_is(s, m, q, kind),
        lexed(s, m, t2, q2),
        !(kind is Ident) && !(kind is Int) && !(kind is String),
    ensures
        t2.kind == kind,
        q == q2,
{
    let t = choose|t: Token| lexed(s, m, t, q) && t.kind == kind;
    lemma_lexed_unique(s, m, t, q, t2, q2);
}

proof fn lemma_closes_at(s: Seq<char>, m: int, q: int, parens: bool, t2: Token, q2: int)
    requires
        closes(s, m, q, parens),
        lexed(s, m, t2, q2),
    ensures
        closer_kind(t2.kind, parens),
        q == q2,
{
    let t = choose|t: Token| lexed(s, m, t, q) && closer_kind(t.kind, parens);
    lemma_lexed_unique(s, m, t, q, t2, q2);
}

proof fn lemma_wf_expr_starts(s: Seq<char>, a: int, level: u8, e: Expression, q: int, t2: Token, q2: int)
    requires
        wf_expr(s, a, level, e, q),
        lexed(s, a, t2, q2),
    ensures
        starts_expression(t2.kind),
{
    let (left, m) = choose|left: Expression, m: int|
        #![trigger read_to(left, m)]
        read_to(left, m) && a < m <= s.len() && wf_prefix(s, a, left, m) && wf_chain(
            s,
            level,
            left,
            m,
            e,
            q,
        );
    assert(exists|t: Token, p1: int| lexed(s, a, t, p1) && starts_expression(t.kind));
    let (t, p1) = choose|t: Token, p1: int| lexed(s, a, t, p1) && starts_expression(t.kind);
    lemma_lexed_unique(s, a, t, p1, t2, q2);
}

/// A Pratt parser over the tokens of one source text. It looks at the
/// current token and one token ahead.
pub struct Parser {
    lexer: Lexer,
    current_token: Token,
    peek_token: Token,
    errors: Vec<ParseError>,
    /// The offset the current token was lexed from.
    cur_at: Ghost<int>,
    /// The offset the peek token was lexed from.
    peek_at: Ghost<int>,
}

impl Parser {
    pub closed spec fn wf(&self) -> bool {
        &&& self.lexer.wf()
        &&& self.current_token.kind == TokenKind::Eof ==> self.peek_token.kind == TokenKind::Eof
        &&& self.peek_token.kind == TokenKind::Eof ==> self.lexer.pos()
            == self.lexer.source().len()
        &&& 0 <= self.cur_at@ <= self.peek_at@ <= self.lexer.pos()
        &&& lexed(self.lexer.source(), self.cur_at@, self.current_token, self.peek_at@)
        &&& lexed(self.lexer.source(), self.peek_at@, self.peek_token, self.lexer.pos())
    }

    /// The offset the current token was lexed from.
    pub closed spec fn start(&self) -> int {
        self.cur_at@
    }

    /// The offset the token after the current one was lexed from.
    pub closed spec fn next_start(&self) -> int {
        self.peek_at@
    }

    /// What is left to read: it shrinks with every token consumed before the
    /// end of the source.
    pub closed spec fn measure(&self) -> nat {
        (2 * (self.lexer.source().len() - self.lexer.pos()) + (if self.current_token.kind
            != TokenKind::Eof {
            1int
        } else {
            0
        }) + (if self.peek_token.kind != TokenKind::Eof {
            1int
        } else {
            0
        })) as nat
    }

    pub closed spec fn source(&self) -> Seq<char> {
        self.lexer.source()
    }

    /// The number of diagnostics gathered and not yet handed out.
    pub closed spec fn pending_errors(&self) -> nat {
        self.errors@.len()
    }

    /// Whether the parser has reached the end of the source.
    pub closed spec fn at_end(&self) -> bool {
        self.current_token.kind == TokenKind::Eof
    }

    closed spec fn advanced(&self, before: &Parser) -> bool {
        &&& self.wf()
        &&& self.lexer.source() == before.lexer.source()
        &&& self.measure() <= before.measure()
        &&& self.cur_at@ >= before.cur_at@
        &&& self.peek_at@ >= before.peek_at@
    }

    pub fn new(lexer: Lexer) -> (r: Parser)
        requires
            lexer.wf(),
        ensures
            r.wf(),
            r.source() == lexer.source(),
            r.pending_errors() == 0,
            lexer.pos() == 0 ==> r.start() == 0,
    {
        let mut lexer = lexer;
        let ghost p0 = lexer.pos();
        let current_token = lexer.next_token();
        let ghost p1 = lexer.pos();
        let peek_token = lexer.next_token();
        Parser {
            lexer,
            current_token,
            peek_token,
            errors: Vec::new(),
            cur_at: Ghost(p0),
            peek_at: Ghost(p1),
        }
    }

    /// Moves one token on; returns the token that was current.
    fn next_token(&mut self) -> (prev: Token)
        requires
            old(self).wf(),
        ensures
            final(self).advanced(old(self)),
            prev == old(self).current_token,
            final(self).current_token == old(self).peek_token,
            final(self).cur_at@ == old(self).peek_at@,
            final(self).peek_at@ == old(self).lexer.pos(),
            final(self).errors == old(self).errors,
            old(self).current_token.kind != TokenKind::Eof ==> final(self).measure() < old(
                self,
            ).measure(),
    {
        proof {
            self.lexer.lemma_wf();
        }
        let mut t = self.lexer.next_token();
        proof {
            if old(self).peek_token.kind == TokenKind::Eof {
                assert(skip_spaces(self.lexer.source(), old(self).lexer.pos()) == old(
                    self,
                ).lexer.pos());
            }
        }
        std::mem::swap(&mut t, &mut self.peek_token);
        std::mem::swap(&mut t, &mut self.current_token);
        self.cur_at = Ghost(self.peek_at@);
        self.peek_at = Ghost(old(self).lexer.pos());
        t
    }

    /// Parses statements up to the end of the source. A statement that fails
    /// to parse leaves a diagnostic, and parsing goes on after it.
    pub fn parse_program(&mut self) -> (r: (Program, Vec<ParseError>))
        requires
            old(self).wf(),
        ensures
            final(self).wf(),
            final(self).at_end(),
            forall|i: int|
                0 <= i < r.0.stmts().len() ==> statement_in(old(self).source(), #[trigger] r.0.stmts()[i]),
            program_of(old(self).source(), r.0),
            old(self).at_end() && old(self).pending_errors() == 0 ==> r.0.stmts().len() == 0
                && r.1@.len() == 0,
            final(self).pending_errors() == 0,
            (exists|t: Seq<Statement>| wf_program(old(self).source(), t)) && old(self).start() == 0
                && old(self).pending_errors() == 0 ==> r.1@.len() == 0 && same_statements(
                r.0.stmts(),
                reading_of(old(self).source()),
            ),
    {
        let ghost src = self.lexer.source();
        let ghost tgt = (exists|t: Seq<Statement>| wf_program(src, t)) && self.cur_at@ == 0
            && self.errors@.len() == 0;
        let ghost big_t = reading_of(src);
        let mut program = Program::new();
        let ghost mut spans: Seq<(int, int)> = Seq::empty();
        while !matches!(self.current_token.kind, TokenKind::Eof)
            invariant
                self.wf(),
                self.source() == old(self).source(),
                ordered_spans(old(self).source(), program, spans),
                spans.len() > 0 ==> spans.last().1 <= self.cur_at@,
                old(self).at_end() ==> self.current_token.kind == TokenKind::Eof
                    && program.stmts().len() == 0 && self.errors@.len() == old(
                    self,
                ).errors@.len(),
                forall|i: int|
                    0 <= i < program.stmts().len() ==> statement_in(
                        old(self).source(),
                        #[trigger] program.stmts()[i],
                    ),
                src == old(self).source(),
                big_t == reading_of(src),
                tgt == ((exists|t: Seq<Statement>| wf_program(src, t)) && old(self).cur_at@ == 0
                    && old(self).errors@.len() == 0),
                tgt ==> program.stmts().len() <= big_t.len() && wf_statements(
                    src,
                    self.cur_at@,
                    big_t,
                    program.stmts().len() as int,
                ) && (forall|i: int|
                    0 <= i < program.stmts().len() ==> same_statement(
                        #[trigger] program.stmts()[i],
                        big_t[i],
                    )) && self.errors@.len() == 0,
            decreases self.measure(),
        {
            proof {
                self.lexer.lemma_wf();
            }
            let ghost start = self.measure();
            let ghost a = self.cur_at@;
            let ghost before = program.stmts();
            let ghost k = program.stmts().len() as int;
            let ghost mut sub: Option<(Statement, int)> = None;
            proof {
                if tgt {
                    if k >= big_t.len() {
                        lemma_token_is_at(
                            src,
                            a,
                            src.len() as int,
                            TokenKind::Eof,
                            self.current_token,
                            self.peek_at@,
                        );
                    }
                    let q = choose|q: int|
                        #![trigger read_to(big_t[k], q)]
                        read_to(big_t[k], q) && wf_statement(src, a, big_t[k], q) && wf_statements(
                            src,
                            q,
                            big_t,
                            k + 1,
                        );
                    sub = Some((big_t[k], q));
                }
            }
            match self.parse_statement(Ghost(sub)) {
                Ok(stmt) => {
                    let ghost b = self.peek_at@;
                    assert(parses_statement(old(self).source(), a, stmt, b));
                    assert(statement_in(old(self).source(), stmt));
                    program.push(stmt);
                    assert(forall|i: int|
                        0 <= i < before.len() ==> program.stmts()[i] == before[i]);
                    assert(program.stmts()[before.len() as int] == stmt);
                    proof {
                        spans = spans.push((a, b));
                    }
                },
                Err(e) => self.errors.push(e),
            }
            proof {
                self.lexer.lemma_wf();
            }
            self.next_token();
            assert(self.measure() < start);
        }
        proof {
            self.lexer.lemma_wf();
            if tgt {
                let k = program.stmts().len() as int;
                if k < big_t.len() {
                    let q = choose|q: int|
                        #![trigger read_to(big_t[k], q)]
                        read_to(big_t[k], q) && wf_statement(src, self.cur_at@, big_t[k], q)
                            && wf_statements(src, q, big_t, k + 1);
                    let p = self.cur_at@;
                    match big_t[k] {
                        Statement::Let { token, .. } => {
                            let p1 = choose|p1: int| #![trigger lexed(src, p, token, p1)] lexed(src, p, token, p1) && token.kind == TokenKind::Let;
                            lemma_lexed_unique(src, p, token, p1, self.current_token, self.peek_at@);
                        },
                        Statement::Return { token, .. } => {
                            let p1 = choose|p1: int| #![trigger lexed(src, p, token, p1)] lexed(src, p, token, p1) && token.kind == TokenKind::Return;
                            lemma_lexed_unique(src, p, token, p1, self.current_token, self.peek_at@);
                        },
                        Statement::Expr(e) => {
                            let m = choose|m: int|
                                #![trigger wf_end(src, m, q)]
                                wf_expr(src, p, 0, e, m) && wf_end(src, m, q);
                            lemma_wf_expr_starts(src, p, 0, e, m, self.current_token, self.peek_at@);
                        },
                    }
                }
            }
        }
        assert(ordered_spans(old(self).source(), program, spans));
        let mut errors: Vec<ParseError> = Vec::new();
        std::mem::swap(&mut errors, &mut self.errors);
        (program, errors)
    }

    fn parse_statement(&mut self, Ghost(target): Ghost<Option<(Statement, int)>>) -> (r: Result<
        Statement,
        ParseError,
    >)
        requires
            old(self).wf(),
        ensures
            target is Some && wf_statement(
                old(self).lexer.source(),
                old(self).cur_at@,
                target->Some_0.0,
                target->Some_0.1,
            ) ==> (r matches Ok(x) && same_statement(x, target->Some_0.0) && final(self).peek_at@
                == target->Some_0.1 && final(self).pending_errors() == old(self).pending_errors()),
            final(self).advanced(old(self)),
            r matches Ok(stmt) ==> (stmt is Let <==> old(self).current_token.kind == TokenKind::Let)
                && (stmt is Return <==> old(self).current_token.kind == TokenKind::Return),
            r matches Ok(stmt) ==> parses_statement(
                old(self).lexer.source(),
                old(self).cur_at@,
                stmt,
                final(self).peek_at@,
            ),
        decreases old(self).measure(), 7nat,
    {
        proof {
            self.lexer.lemma_wf();
            if target is Some && wf_statement(
                self.lexer.source(),
                self.cur_at@,
                target->Some_0.0,
                target->Some_0.1,
            ) {
                let s = self.lexer.source();
                let p = self.cur_at@;
                match target->Some_0.0 {
                    Statement::Let { token, .. } => {
                        let p1 = choose|p1: int| #![trigger lexed(s, p, token, p1)] lexed(s, p, token, p1);
                        lemma_lexed_unique(s, p, token, p1, self.current_token, self.peek_at@);
                    },
                    Statement::Return { token, .. } => {
                        let p1 = choose|p1: int| #![trigger lexed(s, p, token, p1)] lexed(s, p, token, p1);
                        lemma_lexed_unique(s, p, token, p1, self.current_token, self.peek_at@);
                    },
                    Statement::Expr(e) => {
                        let m = choose|m: int|
                            #![trigger wf_end(s, m, target->Some_0.1)]
                            wf_expr(s, p, 0, e, m) && wf_end(s, m, target->Some_0.1);
                        lemma_wf_expr_starts(s, p, 0, e, m, self.current_token, self.peek_at@);
                    },
                }
            }
        }
        match &self.current_token.kind {
            TokenKind::Let => self.parse_let_statement(Ghost(target)),
            TokenKind::Return => self.parse_return_statement(Ghost(target)),
            _ => self.parse_expression_statement(Ghost(target)),
        }
    }

    fn parse_let_statement(&mut self, Ghost(target): Ghost<Option<(Statement, int)>>) -> (r:
        Result<Statement, ParseError>)
        requires
            old(self).wf(),
            old(self).current_token.kind == TokenKind::Let,
        ensures
            target is Some && target->Some_0.0 is Let && wf_statement(
                old(self).lexer.source(),
                old(self).cur_at@,
                target->Some_0.0,
                target->Some_0.1,
            ) ==> (r matches Ok(x) && same_statement(x, target->Some_0.0) && final(self).peek_at@
                == target->Some_0.1 && final(self).pending_errors() == old(self).pending_errors()),
            final(self).advanced(old(self)),
            r matches Ok(stmt) ==> stmt matches Statement::Let { token, name, .. } && token == old(
                self,
            ).current_token && old(self).peek_token.kind == TokenKind::Ident(name),
            !(old(self).peek_token.kind is Ident) ==> (r matches Err(err) && err.message@
                == "Expected an identifier"@ && err.span == Some(old(self).peek_token.span)),
            old(self).peek_token.kind is Ident ==> forall|t: Token, q: int|
                lexed(old(self).lexer.source(), old(self).lexer.pos(), t, q) && t.kind
                    != TokenKind::Assign ==> (r matches Err(err) && err.message@
                    == "Expected Assignment"@ && err.hint@ == "Use `=` after the identifier"@
                    && err.span == Some(t.span)),
            old(self).peek_token.kind is Ident && simple_binding_at(
                old(self).lexer.source(),
                old(self).lexer.pos(),
            ) ==> r is Ok,
            r matches Ok(stmt) ==> parses_statement(
                old(self).lexer.source(),
                old(self).cur_at@,
                stmt,
                final(self).peek_at@,
            ),
        decreases old(self).measure(), 6nat,
    {
        let ghost s = self.lexer.source();
        let ghost p = self.cur_at@;
        let ghost p1 = self.peek_at@;
        let ghost tgt = target is Some && target->Some_0.0 is Let && wf_statement(
            s,
            p,
            target->Some_0.0,
            target->Some_0.1,
        );
        let ghost mut sub: Option<(Expression, int)> = None;
        let ghost mut eq_end: int = 0;
        proof {
            self.lexer.lemma_wf();
            if tgt {
                let st = target->Some_0.0;
                let (a1, a2, a3, mm) = choose|a1: int, a2: int, a3: int, mm: int|
                    #![trigger lexed(s, p, st->Let_token, a1), token_is(s, a1, a2, TokenKind::Ident(st->Let_name)), token_is(s, a2, a3, TokenKind::Assign), wf_end(s, mm, target->Some_0.1)]
                    lexed(s, p, st->Let_token, a1) && st->Let_token.kind == TokenKind::Let && p < a1
                        && token_is(s, a1, a2, TokenKind::Ident(st->Let_name)) && token_is(
                        s,
                        a2,
                        a3,
                        TokenKind::Assign,
                    ) && wf_expr(s, a3, 0, st->Let_value, mm) && wf_end(s, mm, target->Some_0.1);
                lemma_lexed_unique(s, p, st->Let_token, a1, self.current_token, self.peek_at@);
                let t1 = choose|t: Token| #![trigger lexed(s, a1, t, a2)] lexed(s, a1, t, a2) && t.kind == TokenKind::Ident(st->Let_name);
                lemma_lexed_unique(s, a1, t1, a2, self.peek_token, self.lexer.pos());
                sub = Some((st->Let_value, mm));
                eq_end = a3;
            }
        }
        let token = self.next_token();
        let ghost p2 = self.peek_at@;
        proof {
            self.lexer.lemma_wf();
            if tgt {
                lemma_token_is_at(
                    s,
                    p2,
                    eq_end,
                    TokenKind::Assign,
                    self.peek_token,
                    self.lexer.pos(),
                );
            }
            assert forall|t: Token, q: int| lexed(s, p2, t, q) implies same_kind(
                t.kind,
                self.peek_token.kind,
            ) && t.span == self.peek_token.span && q == self.lexer.pos() by {
                lemma_lexed_unique(s, p2, t, q, self.peek_token, self.lexer.pos());
            }
        }
        let name = match &self.current_token.kind {
            TokenKind::Ident(ident) => ident.clone(),
            _ => {
                return Err(
                    parse_error(
                        "Expected an identifier",
                        self.current_token.span,
                        "Name the binding after `let`",
                    ),
                );
            },
        };
        if !matches!(self.peek_token.kind, TokenKind::Assign) {
            return Err(
                parse_error(
                    "Expected Assignment",
                    self.peek_token.span,
                    "Use `=` after the identifier",
                ),
            );
        }
        self.next_token();
        let ghost p3 = self.peek_at@;
        proof {
            assert forall|t: Token, q: int| lexed(s, p3, t, q) implies same_kind(
                t.kind,
                self.peek_token.kind,
            ) && q == self.lexer.pos() by {
                lemma_lexed_unique(s, p3, t, q, self.peek_token, self.lexer.pos());
            }
        }
        assert(token_is(s, p1, p2, TokenKind::Ident(name)));
        assert(token_is(s, p2, p3, TokenKind::Assign));
        self.next_token();
        let ghost p4 = self.peek_at@;
        proof {
            assert forall|t: Token, q: int| lexed(s, p4, t, q) implies same_kind(
                t.kind,
                self.peek_token.kind,
            ) by {
                lemma_lexed_unique(s, p4, t, q, self.peek_token, self.lexer.pos());
            }
        }
        let value = self.parse_expression(Precedence::Lowest, Ghost(sub))?;
        let ghost m = self.peek_at@;
        proof {
            self.lexer.lemma_wf();
            if tgt {
                if token_is(s, m, target->Some_0.1, TokenKind::Semicolon) {
                    lemma_token_is_at(
                        s,
                        m,
                        target->Some_0.1,
                        TokenKind::Semicolon,
                        self.peek_token,
                        self.lexer.pos(),
                    );
                } else {
                    assert(lexed(s, m, self.peek_token, self.lexer.pos()));
                }
            }
        }
        if matches!(self.peek_token.kind, TokenKind::Semicolon) {
            self.next_token();
        }
        assert(optional_semicolon(s, m, self.peek_at@));
        assert(lexed(s, p, token, p1));
        Ok(Statement::Let { token, name, value })
    }

    fn parse_return_statement(&mut self, Ghost(target): Ghost<Option<(Statement, int)>>) -> (r:
        Result<Statement, ParseError>)
        requires
            old(self).wf(),
            old(self).current_token.kind == TokenKind::Return,
        ensures
            target is Some && target->Some_0.0 is Return && wf_statement(
                old(self).lexer.source(),
                old(self).cur_at@,
                target->Some_0.0,
                target->Some_0.1,
            ) ==> (r matches Ok(x) && same_statement(x, target->Some_0.0) && final(self).peek_at@
                == target->Some_0.1 && final(self).pending_errors() == old(self).pending_errors()),
            final(self).advanced(old(self)),
            r matches Ok(stmt) ==> stmt matches Statement::Return { token, .. } && token == old(
                self,
            ).current_token,
            r matches Ok(stmt) ==> parses_statement(
                old(self).lexer.source(),
                old(self).cur_at@,
                stmt,
                final(self).peek_at@,
            ),
        decreases old(self).measure(), 6nat,
    {
        let ghost s = self.lexer.source();
        let ghost p = self.cur_at@;
        let ghost p1 = self.peek_at@;
        let ghost tgt = target is Some && target->Some_0.0 is Return && wf_statement(
            s,
            p,
            target->Some_0.0,
            target->Some_0.1,
        );
        let ghost mut sub: Option<(Expression, int)> = None;
        proof {
            self.lexer.lemma_wf();
            if tgt {
                let st = target->Some_0.0;
                let (a1, mm) = choose|a1: int, mm: int|
                    #![trigger lexed(s, p, st->Return_token, a1), wf_end(s, mm, target->Some_0.1)]
                    lexed(s, p, st->Return_token, a1) && st->Return_token.kind == TokenKind::Return
                        && wf_expr(s, a1, 0, st->Return_value, mm) && wf_end(s, mm, target->Some_0.1);
                lemma_lexed_unique(s, p, st->Return_token, a1, self.current_token, self.peek_at@);
                sub = Some((st->Return_value, mm));
            }
        }
        let token = self.next_token();
        let value = self.parse_expression(Precedence::Lowest, Ghost(sub))?;
        let ghost m = self.peek_at@;
        proof {
            self.lexer.lemma_wf();
            if tgt {
                if token_is(s, m, target->Some_0.1, TokenKind::Semicolon) {
                    lemma_token_is_at(
                        s,
                        m,
                        target->Some_0.1,
                        TokenKind::Semicolon,
                        self.peek_token,
                        self.lexer.pos(),
                    );
                } else {
                    assert(lexed(s, m, self.peek_token, self.lexer.pos()));
                }
            }
        }
        if matches!(self.peek_token.kind, TokenKind::Semicolon) {
            self.next_token();
        }
        assert(optional_semicolon(s, m, self.peek_at@));
        assert(lexed(s, p, token, p1));
        Ok(Statement::Return { token, value })
    }

    fn parse_expression_statement(&mut self, Ghost(target): Ghost<Option<(Statement, int)>>) -> (r:
        Result<Statement, ParseError>)
        requires
            old(self).wf(),
        ensures
            target is Some && target->Some_0.0 is Expr && wf_statement(
                old(self).lexer.source(),
                old(self).cur_at@,
                target->Some_0.0,
                target->Some_0.1,
            ) ==> (r matches Ok(x) && same_statement(x, target->Some_0.0) && final(self).peek_at@
                == target->Some_0.1 && final(self).pending_errors() == old(self).pending_errors()),
            final(self).advanced(old(self)),
            r matches Ok(stmt) ==> stmt is Expr,
            r matches Ok(stmt) ==> parses_statement(
                old(self).lexer.source(),
                old(self).cur_at@,
                stmt,
                final(self).peek_at@,
            ),
        decreases old(self).measure(), 6nat,
    {
        let ghost s = self.lexer.source();
        let ghost p = self.cur_at@;
        let ghost tgt = target is Some && target->Some_0.0 is Expr && wf_statement(
            s,
            p,
            target->Some_0.0,
            target->Some_0.1,
        );
        let ghost mut sub: Option<(Expression, int)> = None;
        proof {
            if tgt {
                let e = target->Some_0.0->Expr_0;
                let mm = choose|mm: int|
                    #![trigger wf_end(s, mm, target->Some_0.1)]
                    wf_expr(s, p, 0, e, mm) && wf_end(s, mm, target->Some_0.1);
                sub = Some((e, mm));
            }
        }
        let expression = self.parse_expression(Precedence::Lowest, Ghost(sub))?;
        let ghost m = self.peek_at@;
        proof {
            self.lexer.lemma_wf();
            if tgt {
                if token_is(s, m, target->Some_0.1, TokenKind::Semicolon) {
                    lemma_token_is_at(
                        s,
                        m,
                        target->Some_0.1,
                        TokenKind::Semicolon,
                        self.peek_token,
                        self.lexer.pos(),
                    );
                } else {
                    assert(lexed(s, m, self.peek_token, self.lexer.pos()));
                }
            }
        }
        if matches!(self.peek_token.kind, TokenKind::Semicolon) {
            self.next_token();
        }
        assert(optional_semicolon(s, m, self.peek_at@));
        Ok(Statement::Expr(expression))
    }

    /// Parses an expression whose operators bind tighter than `precedence`.
    /// On success the current token is the last one of the expression.
    #[verifier::rlimit(100)]
    fn parse_expression(
        &mut self,
        precedence: Precedence,
        Ghost(target): Ghost<Option<(Expression, int)>>,
    ) -> (r: Result<Expression, ParseError>)
        requires
            old(self).wf(),
        ensures
            target is Some && wf_expr(
                old(self).lexer.source(),
                old(self).cur_at@,
                precedence.spec_level(),
                target->Some_0.0,
                target->Some_0.1,
            ) ==> (r matches Ok(x) && same_expr(x, target->Some_0.0) && final(self).peek_at@
                == target->Some_0.1 && final(self).pending_errors() == old(self).pending_errors()),
            final(self).advanced(old(self)),
            r is Ok ==> final(self).current_token.kind != TokenKind::Eof,
            old(self).current_token.kind == TokenKind::Eof ==> r is Err,
            is_atom(old(self).current_token.kind) && (old(self).peek_token.kind
                == TokenKind::Semicolon || binding_level(old(self).peek_token.kind)
                <= precedence.spec_level()) ==> r is Ok,
            r matches Ok(e) ==> parses_expr(
                old(self).lexer.source(),
                old(self).cur_at@,
                precedence.spec_level(),
                e,
                final(self).peek_at@,
            ),
        decreases old(self).measure(), 5nat,
    {
        let ghost s = self.lexer.source();
        let ghost p0 = self.cur_at@;
        let ghost level = precedence.spec_level();
        let ghost tgt = target is Some && wf_expr(s, p0, level, target->Some_0.0, target->Some_0.1);
        let ghost e_t = target->Some_0.0;
        let ghost q_t = target->Some_0.1;
        let ghost mut cl: Expression = arbitrary();
        let ghost mut cm: int = 0;
        proof {
            self.lexer.lemma_wf();
            if self.current_token.kind != TokenKind::Eof {
                lemma_lexed_bounds(s, p0, self.current_token, self.peek_at@);
            }
            if tgt {
                let (l0, m0) = choose|left: Expression, m: int|
                    #![trigger read_to(left, m)]
                    read_to(left, m) && p0 < m <= s.len() && wf_prefix(s, p0, left, m) && wf_chain(
                        s,
                        level,
                        left,
                        m,
                        e_t,
                        q_t,
                    );
                cl = l0;
                cm = m0;
                assert forall|t: Token, q: int| lexed(s, p0, t, q) implies same_kind(
                    t.kind,
                    self.current_token.kind,
                ) && t.span == self.current_token.span && q == self.peek_at@ by {
                    lemma_lexed_unique(s, p0, t, q, self.current_token, self.peek_at@);
                }
            }
        }
        let mut left_exp = match &self.current_token.kind {
            TokenKind::Ident(ident) => Expression::Ident(Identifier::new(ident.clone())),
            TokenKind::Int(digits) => {
                match parse_int(digits.as_str()) {
                    Some(value) => Expression::IntegerLiteral(value),
                    None => {
                        return Err(
                            parse_error(
                                "Integer literal too large",
                                self.current_token.span,
                                "Integers are 64-bit signed",
                            ),
                        );
                    },
                }
            },
            TokenKind::True => Expression::Boolean(true),
            TokenKind::False => Expression::Boolean(false),
            TokenKind::String(text) => Expression::StringLiteral(text.clone()),
            TokenKind::LParen => self.parse_grouped_expression(
                Ghost(
                    if tgt {
                        Some((cl, cm))
                    } else {
                        None
                    },
                ),
            )?,
            TokenKind::If => self.parse_if_expression(
                Ghost(
                    if tgt {
                        Some((cl, cm))
                    } else {
                        None
                    },
                ),
            )?,
            TokenKind::Function => self.parse_function_literal(
                Ghost(
                    if tgt {
                        Some((cl, cm))
                    } else {
                        None
                    },
                ),
            )?,
            TokenKind::Minus | TokenKind::Bang => self.parse_prefix_expression(
                Ghost(
                    if tgt {
                        Some((cl, cm))
                    } else {
                        None
                    },
                ),
            )?,
            TokenKind::LBracket => {
                let elements = self.parse_expression_list(
                    false,
                    Ghost(
                        if tgt && cl is ArrayLiteral {
                            Some((cl->ArrayLiteral_0@, cm))
                        } else {
                            None
                        },
                    ),
                )?;
                proof {
                    if tgt {
                        assert(same_expr(Expression::ArrayLiteral(elements), cl));
                    }
                }
                Expression::ArrayLiteral(elements)
            },
            TokenKind::LBrace => self.parse_hash_literal(
                Ghost(
                    if tgt {
                        Some((cl, cm))
                    } else {
                        None
                    },
                ),
            )?,
            TokenKind::UnterminatedString => {
                return Err(
                    parse_error(
                        "Unterminated string literal",
                        self.current_token.span,
                        "Close the string with `\"`",
                    ),
                );
            },
            _ => {
                return Err(
                    parse_error(
                        "Unexpected token",
                        self.current_token.span,
                        "An expression cannot start here",
                    ),
                );
            },
        };
        assert(parses_prefix(s, p0, left_exp, self.peek_at@));
        assert(parses_chain(s, p0, level, left_exp, self.peek_at@));
        assert(tgt ==> same_expr(left_exp, cl) && self.peek_at@ == cm && self.pending_errors()
            == old(self).pending_errors());
        while !matches!(self.peek_token.kind, TokenKind::Semicolon) && precedence.level()
            < precedence_of(&self.peek_token.kind).level()
            invariant
                self.advanced(old(self)),
                self.current_token.kind != TokenKind::Eof,
                self.lexer.source() == s,
                level == precedence.spec_level(),
                parses_chain(s, p0, level, left_exp, self.peek_at@),
                is_atom(old(self).current_token.kind) && (old(self).peek_token.kind
                    == TokenKind::Semicolon || binding_level(old(self).peek_token.kind) <= level)
                    ==> self.peek_token == old(self).peek_token,
                tgt == (target is Some && wf_expr(s, p0, level, e_t, q_t)),
                p0 == old(self).cur_at@,
                s == old(self).lexer.source(),
                e_t == target->Some_0.0,
                q_t == target->Some_0.1,
                tgt ==> wf_chain(s, level, cl, self.peek_at@, e_t, q_t) && same_expr(left_exp, cl)
                    && self.pending_errors() == old(self).pending_errors(),
            decreases self.measure(),
        {
            let ghost m1 = self.peek_at@;
            let ghost mut nt: Token = arbitrary();
            let ghost mut nm1: int = 0;
            proof {
                self.lexer.lemma_wf();
                if tgt {
                    if stops_at(s, m1, level) {
                        let (t, q2) = choose|t: Token, q2: int|
                            lexed(s, m1, t, q2) && (t.kind == TokenKind::Semicolon || binding_level(
                                t.kind,
                            ) <= level);
                        lemma_lexed_unique(s, m1, t, q2, self.peek_token, self.lexer.pos());
                    }
                    let (t, mm1) = choose|t: Token, mm1: int|
                        #![trigger lexed(s, m1, t, mm1)]
                        lexed(s, m1, t, mm1) && 0 <= m1 < mm1 <= s.len() && t.kind
                            != TokenKind::Semicolon && binding_level(t.kind) > level && ((
                        is_infix_kind(t.kind) && exists|right: Expression, m2: int, node: Expression|
                            #![trigger read_to((right, node), m2)]
                            read_to((right, node), m2) && mm1 < m2 <= s.len() && wf_expr(
                                s,
                                mm1,
                                binding_level(t.kind),
                                right,
                                m2,
                            )
                                && (node matches Expression::Infix {
                                token,
                                operator,
                                left: l,
                                right: r,
                            } && token == t && operator@ == kind_text(t.kind) && *l == cl && *r
                                == right) && wf_chain(s, level, node, m2, e_t, q_t)) || (t.kind
                            == TokenKind::LParen && exists|
                            args: Seq<Expression>,
                            m2: int,
                            node: Expression,
                        |
                            #![trigger read_to((args, node), m2)]
                            read_to((args, node), m2) && mm1 < m2 <= s.len() && wf_list(
                                s,
                                mm1,
                                true,
                                args,
                                m2,
                            ) && (
                            node matches Expression::Call { function: f, arguments } && *f == cl
                                && arguments@ == args) && wf_chain(s, level, node, m2, e_t, q_t))
                            || (t.kind == TokenKind::LBracket && exists|
                            index: Expression,
                            m2: int,
                            m3: int,
                            node: Expression,
                        |
                            #![trigger read_to((index, node), m2), token_is(s, m2, m3, TokenKind::RBracket)]
                            read_to((index, node), m2) && mm1 < m2 < m3 <= s.len() && wf_expr(
                                s,
                                mm1,
                                0,
                                index,
                                m2,
                            ) && token_is(
                                s,
                                m2,
                                m3,
                                TokenKind::RBracket,
                            ) && (node matches Expression::IndexExpr { left: l, index: i } && *l
                                == cl && *i == index) && wf_chain(s, level, node, m3, e_t, q_t)));
                    lemma_lexed_unique(s, m1, t, mm1, self.peek_token, self.lexer.pos());
                    nt = t;
                    nm1 = mm1;
                }
            }
            self.next_token();
            let ghost m2 = self.peek_at@;
            assert(lexed(s, m1, self.current_token, m2));
            assert(token_is(s, m1, m2, self.current_token.kind));
            assert(tgt ==> nt == self.current_token && nm1 == m2);
            let ghost prev = left_exp;
            left_exp = match &self.current_token.kind {
                TokenKind::Plus
                | TokenKind::Minus
                | TokenKind::Slash
                | TokenKind::Asterisk
                | TokenKind::Equal
                | TokenKind::NotEqual
                | TokenKind::LessThan
                | TokenKind::GreaterThan => {
                    let ghost mut sub: Option<(Expression, int)> = None;
                    let ghost mut node: Expression = arbitrary();
                    let ghost mut end: int = 0;
                    proof {
                        if tgt {
                            let (right, mm2, nd) = choose|
                                right: Expression,
                                mm2: int,
                                nd: Expression,
                            |
                                #![trigger read_to((right, nd), mm2)]
                                read_to((right, nd), mm2) && m2 < mm2 <= s.len() && wf_expr(
                                    s,
                                    m2,
                                    binding_level(nt.kind),
                                    right,
                                    mm2,
                                ) && (nd matches Expression::Infix {
                                    token,
                                    operator,
                                    left: l,
                                    right: r,
                                } && token == nt && operator@ == kind_text(nt.kind) && *l == cl
                                    && *r == right) && wf_chain(s, level, nd, mm2, e_t, q_t);
                            sub = Some((right, mm2));
                            node = nd;
                            end = mm2;
                        }
                    }
                    let x = self.parse_infix_expression(left_exp, Ghost(sub))?;
                    proof {
                        if tgt {
                            assert(same_expr(x, node));
                            cl = node;
                        }
                    }
                    x
                },
                TokenKind::LParen => {
                    let ghost mut sub: Option<(Seq<Expression>, int)> = None;
                    let ghost mut node: Expression = arbitrary();
                    proof {
                        if tgt {
                            let (args, mm2, nd) = choose|
                                args: Seq<Expression>,
                                mm2: int,
                                nd: Expression,
                            |
                                #![trigger read_to((args, nd), mm2)]
                                read_to((args, nd), mm2) && m2 < mm2 <= s.len() && wf_list(
                                    s,
                                    m2,
                                    true,
                                    args,
                                    mm2,
                                ) && (
                                nd matches Expression::Call { function: f, arguments } && *f == cl
                                    && arguments@ == args) && wf_chain(s, level, nd, mm2, e_t, q_t);
                            sub = Some((args, mm2));
                            node = nd;
                        }
                    }
                    let x = self.parse_call_expression(left_exp, Ghost(sub))?;
                    proof {
                        if tgt {
                            assert(same_expr(x, node));
                            cl = node;
                        }
                    }
                    x
                },
                TokenKind::LBracket => {
                    let ghost mut sub: Option<(Expression, int, int)> = None;
                    let ghost mut node: Expression = arbitrary();
                    proof {
                        if tgt {
                            let (index, mm2, mm3, nd) = choose|
                                index: Expression,
                                mm2: int,
                                mm3: int,
                                nd: Expression,
                            |
                                #![trigger read_to((index, nd), mm2), token_is(s, mm2, mm3, TokenKind::RBracket)]
                                read_to((index, nd), mm2) && m2 < mm2 < mm3 <= s.len() && wf_expr(
                                    s,
                                    m2,
                                    0,
                                    index,
                                    mm2,
                                )
                                    && token_is(s, mm2, mm3, TokenKind::RBracket) && (
                                nd matches Expression::IndexExpr { left: l, index: i } && *l == cl
                                    && *i == index) && wf_chain(s, level, nd, mm3, e_t, q_t);
                            sub = Some((index, mm2, mm3));
                            node = nd;
                        }
                    }
                    let x = self.parse_index_expression(left_exp, Ghost(sub))?;
                    proof {
                        if tgt {
                            assert(same_expr(x, node));
                            cl = node;
                        }
                    }
                    x
                },
                _ => {
                    return Ok(left_exp);
                },
            };
            proof {
                assert(parses_chain(s, p0, level, left_exp, self.peek_at@));
            }
        }
        proof {
            self.lexer.lemma_wf();
            assert(lexed(s, self.peek_at@, self.peek_token, self.lexer.pos()));
            if tgt {
                if !(stops_at(s, self.peek_at@, level) && e_t == cl && q_t == self.peek_at@) {
                    let (t, mm1) = choose|t: Token, mm1: int|
                        lexed(s, self.peek_at@, t, mm1) && 0 <= self.peek_at@ < mm1 <= s.len()
                            && t.kind != TokenKind::Semicolon && binding_level(t.kind) > level;
                    lemma_lexed_unique(s, self.peek_at@, t, mm1, self.peek_token, self.lexer.pos());
                }
            }
        }
        Ok(left_exp)
    }

    fn parse_prefix_expression(&mut self, Ghost(target): Ghost<Option<(Expression, int)>>) -> (r:
        Result<Expression, ParseError>)
        requires
            old(self).wf(),
            old(self).current_token.kind == TokenKind::Minus || old(self).current_token.kind
                == TokenKind::Bang,
        ensures
            target is Some && wf_prefix(
                old(self).lexer.source(),
                old(self).cur_at@,
                target->Some_0.0,
                target->Some_0.1,
            ) ==> (r matches Ok(x) && same_expr(x, target->Some_0.0) && final(self).peek_at@
                == target->Some_0.1 && final(self).pending_errors() == old(self).pending_errors()),
            final(self).advanced(old(self)),
            r is Ok ==> final(self).current_token.kind != TokenKind::Eof,
            r matches Ok(e) ==> e matches Expression::Prefix { token, operator, .. } && token == old(
                self,
            ).current_token && operator@ == kind_text(token.kind),
            r matches Ok(e) ==> parses_prefix(
                old(self).lexer.source(),
                old(self).cur_at@,
                e,
                final(self).peek_at@,
            ),
        decreases old(self).measure(), 4nat,
    {
        proof {
            self.lexer.lemma_wf();
            lemma_lexed_bounds(self.lexer.source(), self.cur_at@, self.current_token, self.peek_at@);
        }
        let ghost s = self.lexer.source();
        let ghost p = self.cur_at@;
        let ghost tgt = target is Some && wf_prefix(s, p, target->Some_0.0, target->Some_0.1);
        let ghost mut sub: Option<(Expression, int)> = None;
        proof {
            if tgt {
                let (t, p1) = choose|t: Token, p1: int|
                    #![trigger lexed(s, p, t, p1)]
                    lexed(s, p, t, p1) && 0 <= p < p1 <= s.len() && (t.kind == TokenKind::Minus
                        || t.kind == TokenKind::Bang) && (target->Some_0.0 matches Expression::Prefix {
                        token,
                        operator,
                        right,
                    } && token == t && operator@ == kind_text(t.kind) && wf_expr(
                        s,
                        p1,
                        5,
                        *right,
                        target->Some_0.1,
                    ));
                lemma_lexed_unique(s, p, t, p1, self.current_token, self.peek_at@);
                sub = Some((*target->Some_0.0->Prefix_right, target->Some_0.1));
            }
        }
        let operator = self.current_token.kind.to_string();
        let token = self.next_token();
        let right = self.parse_expression(Precedence::Prefix, Ghost(sub))?;
        Ok(Expression::Prefix { token, operator, right: Box::new(right) })
    }

    fn parse_infix_expression(
        &mut self,
        left: Expression,
        Ghost(target): Ghost<Option<(Expression, int)>>,
    ) -> (r: Result<Expression, ParseError>)
        requires
            old(self).wf(),
            old(self).current_token.kind != TokenKind::Eof,
        ensures
            target is Some && wf_expr(
                old(self).lexer.source(),
                old(self).peek_at@,
                binding_level(old(self).current_token.kind),
                target->Some_0.0,
                target->Some_0.1,
            ) ==> (r matches Ok(x) && (x matches Expression::Infix { right, .. } && same_expr(
                *right,
                target->Some_0.0,
            )) && final(self).peek_at@ == target->Some_0.1 && final(self).pending_errors() == old(
                self,
            ).pending_errors()),
            final(self).advanced(old(self)),
            r is Ok ==> final(self).current_token.kind != TokenKind::Eof,
            r matches Ok(e) ==> e matches Expression::Infix { token, operator, left: l, right } && token
                == old(self).current_token && operator@ == kind_text(token.kind) && *l == left
                && lexed(old(self).lexer.source(), old(self).cur_at@, token, old(self).peek_at@)
                && parses_expr(
                old(self).lexer.source(),
                old(self).peek_at@,
                binding_level(token.kind),
                *right,
                final(self).peek_at@,
            ),
        decreases old(self).measure(), 4nat,
    {
        let operator = self.current_token.kind.to_string();
        let precedence = precedence_of(&self.current_token.kind);
        let token = self.next_token();
        let right = self.parse_expression(precedence, Ghost(target))?;
        Ok(Expression::Infix { token, operator, left: Box::new(left), right: Box::new(right) })
    }

    fn parse_grouped_expression(&mut self, Ghost(target): Ghost<Option<(Expression, int)>>) -> (r:
        Result<Expression, ParseError>)
        requires
            old(self).wf(),
            old(self).current_token.kind == TokenKind::LParen,
        ensures
            target is Some && wf_prefix(
                old(self).lexer.source(),
                old(self).cur_at@,
                target->Some_0.0,
                target->Some_0.1,
            ) ==> (r matches Ok(x) && same_expr(x, target->Some_0.0) && final(self).peek_at@
                == target->Some_0.1 && final(self).pending_errors() == old(self).pending_errors()),
            final(self).advanced(old(self)),
            r is Ok ==> final(self).current_token.kind != TokenKind::Eof,
            r matches Ok(e) ==> parses_prefix(
                old(self).lexer.source(),
                old(self).cur_at@,
                e,
                final(self).peek_at@,
            ),
        decreases old(self).measure(), 4nat,
    {
        proof {
            self.lexer.lemma_wf();
            lemma_lexed_bounds(self.lexer.source(), self.cur_at@, self.current_token, self.peek_at@);
        }
        let ghost s = self.lexer.source();
        let ghost p = self.cur_at@;
        let ghost tgt = target is Some && wf_prefix(s, p, target->Some_0.0, target->Some_0.1);
        let ghost mut sub: Option<(Expression, int)> = None;
        let ghost mut mid: int = 0;
        proof {
            if tgt {
                let (t, p1) = choose|t: Token, p1: int|
                    #![trigger lexed(s, p, t, p1)]
                    lexed(s, p, t, p1) && 0 <= p < p1 <= s.len() && t.kind == TokenKind::LParen
                        && exists|mm: int|
                        p1 < mm <= s.len() && wf_expr(s, p1, 0, target->Some_0.0, mm) && token_is(
                            s,
                            mm,
                            target->Some_0.1,
                            TokenKind::RParen,
                        );
                lemma_lexed_unique(s, p, t, p1, self.current_token, self.peek_at@);
                let mm = choose|mm: int|
                    #![trigger token_is(s, mm, target->Some_0.1, TokenKind::RParen)]
                    p1 < mm <= s.len() && wf_expr(s, p1, 0, target->Some_0.0, mm) && token_is(
                        s,
                        mm,
                        target->Some_0.1,
                        TokenKind::RParen,
                    );
                sub = Some((target->Some_0.0, mm));
                mid = mm;
            }
        }
        self.next_token();
        let expression = self.parse_expression(Precedence::Lowest, Ghost(sub))?;
        proof {
            self.lexer.lemma_wf();
            if tgt {
                lemma_token_is_at(
                    s,
                    mid,
                    target->Some_0.1,
                    TokenKind::RParen,
                    self.peek_token,
                    self.lexer.pos(),
                );
            }
        }
        if !matches!(self.peek_token.kind, TokenKind::RParen) {
            return Err(
                parse_error("Expected `)`", self.peek_token.span, "Use `)` to end the grouping"),
            );
        }
        let ghost m = self.peek_at@;
        self.next_token();
        assert(token_is(s, m, self.peek_at@, TokenKind::RParen));
        Ok(expression)
    }

    #[verifier::rlimit(100)]
    fn parse_if_expression(&mut self, Ghost(target): Ghost<Option<(Expression, int)>>) -> (r: Result<
        Expression,
        ParseError,
    >)
        requires
            old(self).wf(),
            old(self).current_token.kind == TokenKind::If,
        ensures
            target is Some && wf_prefix(
                old(self).lexer.source(),
                old(self).cur_at@,
                target->Some_0.0,
                target->Some_0.1,
            ) ==> (r matches Ok(x) && same_expr(x, target->Some_0.0) && final(self).peek_at@
                == target->Some_0.1 && final(self).pending_errors() == old(self).pending_errors()),
            final(self).advanced(old(self)),
            r is Ok ==> final(self).current_token.kind != TokenKind::Eof,
            r matches Ok(e) ==> e is If,
            old(self).peek_token.kind != TokenKind::LParen ==> (r matches Err(err) && err.message@
                == "Expected `(`"@ && err.hint@ == "Use parentheses around condition"@ && err.span
                == Some(old(self).peek_token.span)),
            r matches Ok(e) ==> parses_prefix(
                old(self).lexer.source(),
                old(self).cur_at@,
                e,
                final(self).peek_at@,
            ),
        decreases old(self).measure(), 4nat,
    {
        proof {
            self.lexer.lemma_wf();
            lemma_lexed_bounds(self.lexer.source(), self.cur_at@, self.current_token, self.peek_at@);
        }
        let ghost s = self.lexer.source();
        let ghost p1 = self.peek_at@;
        let ghost tgt = target is Some && wf_prefix(s, self.cur_at@, target->Some_0.0, target->Some_0.1);
        let ghost e = target->Some_0.0;
        let ghost q = target->Some_0.1;
        let ghost mut x2: int = 0;
        let ghost mut xm1: int = 0;
        let ghost mut xm2: int = 0;
        let ghost mut xm3: int = 0;
        proof {
            self.lexer.lemma_wf();
            if tgt {
                let p = self.cur_at@;
                assert forall|t: Token, qq: int| lexed(s, p, t, qq) implies same_kind(
                    t.kind,
                    self.current_token.kind,
                ) && qq == self.peek_at@ by {
                    lemma_lexed_unique(s, p, t, qq, self.current_token, self.peek_at@);
                }
                let (a2, a3, a4, a5) = choose|a2: int, a3: int, a4: int, a5: int|
                    #![trigger token_is(s, p1, a2, TokenKind::LParen), token_is(s, a3, a4, TokenKind::RParen), read_to(e->If_consequence, a5)]
                    read_to(e->If_consequence, a5) && p1 < a2 < a3 < a4 < a5 <= s.len() && token_is(
                        s,
                        p1,
                        a2,
                        TokenKind::LParen,
                    ) && wf_expr(s, a2, 0, *e->If_condition, a3) && token_is(
                        s,
                        a3,
                        a4,
                        TokenKind::RParen,
                    ) && wf_block(s, a4, e->If_consequence, a5) && match e->If_alternative {
                        None => q == a5 && no_token_at(s, a5, TokenKind::Else),
                        Some(alt) => exists|m4: int|
                            #![trigger token_is(s, a5, m4, TokenKind::Else)]
                            a5 < m4 < q <= s.len() && token_is(s, a5, m4, TokenKind::Else) && wf_block(
                                s,
                                m4,
                                alt,
                                q,
                            ),
                    };
                lemma_token_is_at(s, p1, a2, TokenKind::LParen, self.peek_token, self.lexer.pos());
                x2 = a2;
                xm1 = a3;
                xm2 = a4;
                xm3 = a5;
            }
        }
        if !matches!(self.peek_token.kind, TokenKind::LParen) {
            return Err(
                parse_error(
                    "Expected `(`",
                    self.peek_token.span,
                    "Use parentheses around condition",
                ),
            );
        }
        self.next_token();
        let ghost p2 = self.peek_at@;
        assert(token_is(s, p1, p2, TokenKind::LParen));
        self.next_token();
        let condition = self.parse_expression(
            Precedence::Lowest,
            Ghost(
                if tgt {
                    Some((*e->If_condition, xm1))
                } else {
                    None
                },
            ),
        )?;
        let ghost m1 = self.peek_at@;
        proof {
            self.lexer.lemma_wf();
            if tgt {
                lemma_token_is_at(s, xm1, xm2, TokenKind::RParen, self.peek_token, self.lexer.pos());
            }
        }
        if !matches!(self.peek_token.kind, TokenKind::RParen) {
            return Err(
                parse_error(
                    "Expected `)`",
                    self.peek_token.span,
                    "Use parentheses around condition",
                ),
            );
        }
        self.next_token();
        let ghost m2 = self.peek_at@;
        assert(token_is(s, m1, m2, TokenKind::RParen));
        proof {
            self.lexer.lemma_wf();
            if tgt {
                lemma_block_opens(s, xm2, e->If_consequence, xm3, self.peek_token, self.lexer.pos());
            }
        }
        if !matches!(self.peek_token.kind, TokenKind::LBrace) {
            return Err(
                parse_error(
                    "Expected `{`",
                    self.peek_token.span,
                    "Use `{` to begin the block",
                ),
            );
        }
        self.next_token();
        let consequence = self.parse_block_statement(
            Ghost(
                if tgt {
                    Some((e->If_consequence, xm3))
                } else {
                    None
                },
            ),
        )?;
        let ghost m3 = self.peek_at@;
        let ghost mut x4: int = 0;
        proof {
            self.lexer.lemma_wf();
            if tgt {
                match e->If_alternative {
                    None => {
                        assert(lexed(s, m3, self.peek_token, self.lexer.pos()));
                    },
                    Some(alt) => {
                        let m4 = choose|m4: int|
                            #![trigger token_is(s, m3, m4, TokenKind::Else)]
                            m3 < m4 < q <= s.len() && token_is(s, m3, m4, TokenKind::Else) && wf_block(
                                s,
                                m4,
                                alt,
                                q,
                            );
                        lemma_token_is_at(s, m3, m4, TokenKind::Else, self.peek_token, self.lexer.pos());
                        x4 = m4;
                    },
                }
            }
        }
        let alternative = if matches!(self.peek_token.kind, TokenKind::Else) {
            self.next_token();
            assert(token_is(s, m3, self.peek_at@, TokenKind::Else));
            proof {
                self.lexer.lemma_wf();
                if tgt {
                    lemma_block_opens(
                        s,
                        x4,
                        e->If_alternative->Some_0,
                        q,
                        self.peek_token,
                        self.lexer.pos(),
                    );
                }
            }
            if !matches!(self.peek_token.kind, TokenKind::LBrace) {
                return Err(
                    parse_error(
                        "Expected `{` after `else`",
                        self.peek_token.span,
                        "Use `{` to begin the block",
                    ),
                );
            }
            self.next_token();
            Some(
                self.parse_block_statement(
                    Ghost(
                        if tgt {
                            Some((e->If_alternative->Some_0, q))
                        } else {
                            None
                        },
                    ),
                )?,
            )
        } else {
            None
        };
        Ok(Expression::If { condition: Box::new(condition), consequence, alternative })
    }

    /// Parses the statements of a block whose `{` is the current token, up
    /// to its `}`. A statement that fails leaves a diagnostic and parsing goes
    /// on with the next one.
    fn parse_block_statement(&mut self, Ghost(target): Ghost<Option<(Program, int)>>) -> (r: Result<
        BlockStatement,
        ParseError,
    >)
        requires
            old(self).wf(),
            old(self).current_token.kind == TokenKind::LBrace,
        ensures
            target is Some && wf_block(
                old(self).lexer.source(),
                old(self).cur_at@,
                target->Some_0.0,
                target->Some_0.1,
            ) ==> (r matches Ok(b) && same_program(b, target->Some_0.0) && final(self).peek_at@
                == target->Some_0.1 && final(self).pending_errors() == old(self).pending_errors()),
            final(self).advanced(old(self)),
            r is Ok ==> final(self).current_token.kind == TokenKind::RBrace,
            r is Ok ==> braced(old(self).lexer.source(), old(self).cur_at@, final(self).peek_at@),
            r matches Ok(b) ==> forall|i: int|
                0 <= i < b.stmts().len() ==> statement_in(
                    old(self).lexer.source(),
                    #[trigger] b.stmts()[i],
                ),
            r matches Ok(b) ==> program_of(old(self).lexer.source(), b),
        decreases old(self).measure(), 3nat,
    {
        let ghost s = self.lexer.source();
        assert(token_is(s, self.cur_at@, self.peek_at@, TokenKind::LBrace));
        let ghost tgt = target is Some && wf_block(s, self.cur_at@, target->Some_0.0, target->Some_0.1);
        let ghost big = target->Some_0.0.0@;
        let ghost q = target->Some_0.1;
        proof {
            self.lexer.lemma_wf();
            if tgt {
                lemma_block_opens(s, self.cur_at@, target->Some_0.0, q, self.current_token, self.peek_at@);
            }
        }
        let mut block_statement = BlockStatement::new();
        let ghost mut spans: Seq<(int, int)> = Seq::empty();
        self.next_token();
        while !matches!(self.current_token.kind, TokenKind::RBrace) && !matches!(
            self.current_token.kind,
            TokenKind::Eof
        )
            invariant
                self.advanced(old(self)),
                self.measure() < old(self).measure(),
                self.lexer.source() == s,
                forall|i: int|
                    0 <= i < block_statement.stmts().len() ==> statement_in(
                        s,
                        #[trigger] block_statement.stmts()[i],
                    ),
                ordered_spans(s, block_statement, spans),
                spans.len() > 0 ==> spans.last().1 <= self.cur_at@,
                s == old(self).lexer.source(),
                tgt == (target is Some && wf_block(s, old(self).cur_at@, target->Some_0.0, q)),
                big == target->Some_0.0.0@,
                q == target->Some_0.1,
                tgt ==> block_statement.stmts().len() <= big.len() && wf_block_statements(
                    s,
                    self.cur_at@,
                    big,
                    block_statement.stmts().len() as int,
                    q,
                ) && (forall|i: int|
                    0 <= i < block_statement.stmts().len() ==> same_statement(
                        #[trigger] block_statement.stmts()[i],
                        big[i],
                    )) && self.pending_errors() == old(self).pending_errors(),
            decreases self.measure(),
        {
            proof {
                self.lexer.lemma_wf();
            }
            let ghost start = self.measure();
            let ghost a = self.cur_at@;
            let ghost before = block_statement.stmts();
            let ghost k = block_statement.stmts().len() as int;
            let ghost mut sub: Option<(Statement, int)> = None;
            proof {
                if tgt {
                    if k >= big.len() {
                        lemma_token_is_at(s, a, q, TokenKind::RBrace, self.current_token, self.peek_at@);
                    }
                    let qq = choose|qq: int|
                        #![trigger read_to(big[k], qq)]
                        read_to(big[k], qq) && a < qq <= s.len() && wf_statement(s, a, big[k], qq)
                            && wf_block_statements(s, qq, big, k + 1, q);
                    sub = Some((big[k], qq));
                }
            }
            match self.parse_statement(Ghost(sub)) {
                Ok(stmt) => {
                    let ghost b = self.peek_at@;
                    assert(parses_statement(s, a, stmt, b));
                    assert(statement_in(s, stmt));
                    block_statement.push(stmt);
                    assert(forall|i: int|
                        0 <= i < before.len() ==> block_statement.stmts()[i] == before[i]);
                    assert(block_statement.stmts()[before.len() as int] == stmt);
                    proof {
                        spans = spans.push((a, b));
                    }
                },
                Err(e) => self.errors.push(e),
            }
            proof {
                self.lexer.lemma_wf();
            }
            self.next_token();
            assert(self.measure() < start);
        }
        proof {
            self.lexer.lemma_wf();
            if tgt {
                let k = block_statement.stmts().len() as int;
                if k < big.len() {
                    let qq = choose|qq: int|
                        #![trigger read_to(big[k], qq)]
                        read_to(big[k], qq) && self.cur_at@ < qq <= s.len() && wf_statement(
                            s,
                            self.cur_at@,
                            big[k],
                            qq,
                        ) && wf_block_statements(s, qq, big, k + 1, q);
                    lemma_wf_statement_starts(
                        s,
                        self.cur_at@,
                        big[k],
                        qq,
                        self.current_token,
                        self.peek_at@,
                    );
                } else {
                    lemma_token_is_at(
                        s,
                        self.cur_at@,
                        q,
                        TokenKind::RBrace,
                        self.current_token,
                        self.peek_at@,
                    );
                }
            }
        }
        if matches!(self.current_token.kind, TokenKind::Eof) {
            return Err(
                parse_error(
                    "Expected `}`",
                    self.current_token.span,
                    "Close the block with `}`",
                ),
            );
        }
        assert(token_is(s, self.cur_at@, self.peek_at@, TokenKind::RBrace));
        assert(ordered_spans(s, block_statement, spans));
        Ok(block_statement)
    }

    fn parse_function_literal(&mut self, Ghost(target): Ghost<Option<(Expression, int)>>) -> (r:
        Result<Expression, ParseError>)
        requires
            old(self).wf(),
            old(self).current_token.kind == TokenKind::Function,
        ensures
            target is Some && wf_prefix(
                old(self).lexer.source(),
                old(self).cur_at@,
                target->Some_0.0,
                target->Some_0.1,
            ) ==> (r matches Ok(x) && same_expr(x, target->Some_0.0) && final(self).peek_at@
                == target->Some_0.1 && final(self).pending_errors() == old(self).pending_errors()),
            final(self).advanced(old(self)),
            r is Ok ==> final(self).current_token.kind != TokenKind::Eof,
            r matches Ok(e) ==> e is FunctionLiteral,
            r matches Ok(e) ==> parses_prefix(
                old(self).lexer.source(),
                old(self).cur_at@,
                e,
                final(self).peek_at@,
            ),
        decreases old(self).measure(), 4nat,
    {
        proof {
            self.lexer.lemma_wf();
            lemma_lexed_bounds(self.lexer.source(), self.cur_at@, self.current_token, self.peek_at@);
        }
        let ghost tgt = target is Some && wf_prefix(
            self.lexer.source(),
            self.cur_at@,
            target->Some_0.0,
            target->Some_0.1,
        );
        let ghost mut psub: Option<(Seq<Identifier>, int)> = None;
        let ghost mut bsub: Option<(Program, int)> = None;
        proof {
            let s = self.lexer.source();
            let p = self.cur_at@;
            if tgt {
                assert forall|t: Token, qq: int| lexed(s, p, t, qq) implies same_kind(
                    t.kind,
                    self.current_token.kind,
                ) && qq == self.peek_at@ by {
                    lemma_lexed_unique(s, p, t, qq, self.current_token, self.peek_at@);
                }
                let e = target->Some_0.0;
                let m1 = choose|m1: int|
                    #![trigger read_to(e->FunctionLiteral_body, m1)]
                    read_to(e->FunctionLiteral_body, m1) && self.peek_at@ < m1 < target->Some_0.1
                        <= s.len() && wf_params(s, self.peek_at@, e->FunctionLiteral_parameters@, m1)
                        && wf_block(s, m1, e->FunctionLiteral_body, target->Some_0.1);
                let x1 = choose|x1: int|
                    #![trigger token_is(s, self.peek_at@, x1, TokenKind::LParen)]
                    token_is(s, self.peek_at@, x1, TokenKind::LParen) && ((
                    e->FunctionLiteral_parameters@.len() == 0 && token_is(
                        s,
                        x1,
                        m1,
                        TokenKind::RParen,
                    )) || (e->FunctionLiteral_parameters@.len() > 0 && exists|m: int|
                        #![trigger ident_is(s, x1, m, e->FunctionLiteral_parameters@[0].0@)]
                        ident_is(s, x1, m, e->FunctionLiteral_parameters@[0].0@) && wf_more_params(
                            s,
                            e->FunctionLiteral_parameters@,
                            1,
                            m,
                            m1,
                        )));
                lemma_token_is_at(
                    s,
                    self.peek_at@,
                    x1,
                    TokenKind::LParen,
                    self.peek_token,
                    self.lexer.pos(),
                );
                psub = Some((e->FunctionLiteral_parameters@, m1));
                bsub = Some((e->FunctionLiteral_body, target->Some_0.1));
            }
        }
        if !matches!(self.peek_token.kind, TokenKind::LParen) {
            return Err(
                parse_error(
                    "Expected `(` after `fn`",
                    self.peek_token.span,
                    "List the parameters in parentheses",
                ),
            );
        }
        let ghost s = self.lexer.source();
        let ghost p1 = self.peek_at@;
        self.next_token();
        let parameters = self.parse_function_parameters(Ghost(psub))?;
        let ghost m1 = self.peek_at@;
        proof {
            self.lexer.lemma_wf();
            if tgt {
                lemma_block_opens(
                    self.lexer.source(),
                    m1,
                    bsub->Some_0.0,
                    bsub->Some_0.1,
                    self.peek_token,
                    self.lexer.pos(),
                );
            }
        }
        if !matches!(self.peek_token.kind, TokenKind::LBrace) {
            return Err(
                parse_error(
                    "Expected `{` after the parameter list",
                    self.peek_token.span,
                    "Use `{` to begin the body",
                ),
            );
        }
        self.next_token();
        let body = self.parse_block_statement(Ghost(bsub))?;
        Ok(Expression::FunctionLiteral { parameters, body })
    }

    fn current_identifier(&self) -> (r: Result<Identifier, ParseError>)
        requires
            self.wf(),
        ensures
            r matches Ok(id) ==> ident_is(self.lexer.source(), self.cur_at@, self.peek_at@, id.0@),
            self.current_token.kind is Ident ==> (r matches Ok(id) && id.0@
                == self.current_token.kind->Ident_0@),
    {
        match &self.current_token.kind {
            TokenKind::Ident(name) => Ok(Identifier::new(name.clone())),
            _ => Err(
                parse_error(
                    "Expected a parameter name",
                    self.current_token.span,
                    "Parameters are identifiers separated by `,`",
                ),
            ),
        }
    }

    fn parse_function_parameters(&mut self, Ghost(target): Ghost<Option<(Seq<Identifier>, int)>>) -> (r:
        Result<Vec<Identifier>, ParseError>)
        requires
            old(self).wf(),
            old(self).current_token.kind == TokenKind::LParen,
        ensures
            target is Some && wf_params(
                old(self).lexer.source(),
                old(self).cur_at@,
                target->Some_0.0,
                target->Some_0.1,
            ) ==> (r matches Ok(v) && v.len() == target->Some_0.0.len() && (forall|i: int|
                0 <= i < v.len() ==> (#[trigger] v[i]).0@ == target->Some_0.0[i].0@)
                && final(self).peek_at@ == target->Some_0.1 && final(self).pending_errors()
                == old(self).pending_errors()),
            final(self).advanced(old(self)),
            r is Ok ==> final(self).current_token.kind != TokenKind::Eof,
            r matches Ok(v) ==> param_list(
                old(self).lexer.source(),
                old(self).cur_at@,
                v@,
                final(self).peek_at@,
            ),
    {
        let ghost s = self.lexer.source();
        let ghost a1 = self.peek_at@;
        assert(token_is(s, self.cur_at@, a1, TokenKind::LParen));
        let ghost tgt = target is Some && wf_params(s, self.cur_at@, target->Some_0.0, target->Some_0.1);
        let ghost v = target->Some_0.0;
        let ghost b = target->Some_0.1;
        proof {
            self.lexer.lemma_wf();
            if tgt {
                let x1 = choose|x1: int|
                    #![trigger token_is(s, self.cur_at@, x1, TokenKind::LParen)]
                    token_is(s, self.cur_at@, x1, TokenKind::LParen) && ((v.len() == 0 && token_is(
                        s,
                        x1,
                        b,
                        TokenKind::RParen,
                    )) || (v.len() > 0 && exists|m: int|
                        #![trigger ident_is(s, x1, m, v[0].0@)]
                        ident_is(s, x1, m, v[0].0@) && wf_more_params(s, v, 1, m, b)));
                lemma_token_is_at(s, self.cur_at@, x1, TokenKind::LParen, self.current_token, a1);
                if v.len() == 0 {
                    lemma_token_is_at(s, a1, b, TokenKind::RParen, self.peek_token, self.lexer.pos());
                } else {
                    let m = choose|m: int|
                        #![trigger ident_is(s, a1, m, v[0].0@)]
                        ident_is(s, a1, m, v[0].0@) && wf_more_params(s, v, 1, m, b);
                    lemma_ident_is_at(s, a1, m, v[0].0@, self.peek_token, self.lexer.pos());
                }
            }
        }
        let mut identifiers: Vec<Identifier> = Vec::new();
        if matches!(self.peek_token.kind, TokenKind::RParen) {
            self.next_token();
            assert(token_is(s, a1, self.peek_at@, TokenKind::RParen));
            return Ok(identifiers);
        }
        self.next_token();
        identifiers.push(self.current_identifier()?);
        assert(param_names(s, a1, identifiers@, 1, self.peek_at@));
        while matches!(self.peek_token.kind, TokenKind::Comma)
            invariant
                self.advanced(old(self)),
                self.lexer.source() == s,
                identifiers.len() >= 1,
                param_names(s, a1, identifiers@, identifiers.len() as int, self.peek_at@),
                tgt == (target is Some && wf_params(s, old(self).cur_at@, v, b)),
                v == target->Some_0.0,
                b == target->Some_0.1,
                s == old(self).lexer.source(),
                tgt ==> identifiers.len() <= v.len() && wf_more_params(
                    s,
                    v,
                    identifiers.len() as int,
                    self.peek_at@,
                    b,
                ) && (forall|i: int|
                    0 <= i < identifiers.len() ==> (#[trigger] identifiers[i]).0@ == v[i].0@)
                    && self.pending_errors() == old(self).pending_errors(),
            decreases self.measure(),
        {
            let ghost m1 = self.peek_at@;
            let ghost k = identifiers.len() as int;
            proof {
                self.lexer.lemma_wf();
                if tgt {
                    if k >= v.len() {
                        lemma_token_is_at(s, m1, b, TokenKind::RParen, self.peek_token, self.lexer.pos());
                    }
                    let (x1, x2) = choose|x1: int, x2: int|
                        #![trigger token_is(s, m1, x1, TokenKind::Comma), ident_is(s, x1, x2, v[k].0@)]
                        token_is(s, m1, x1, TokenKind::Comma) && ident_is(s, x1, x2, v[k].0@)
                            && wf_more_params(s, v, k + 1, x2, b);
                    lemma_token_is_at(s, m1, x1, TokenKind::Comma, self.peek_token, self.lexer.pos());
                }
            }
            self.next_token();
            let ghost m2 = self.peek_at@;
            assert(token_is(s, m1, m2, TokenKind::Comma));
            self.next_token();
            proof {
                self.lexer.lemma_wf();
                if tgt {
                    let (x1, x2) = choose|x1: int, x2: int|
                        #![trigger token_is(s, m1, x1, TokenKind::Comma), ident_is(s, x1, x2, v[k].0@)]
                        token_is(s, m1, x1, TokenKind::Comma) && ident_is(s, x1, x2, v[k].0@)
                            && wf_more_params(s, v, k + 1, x2, b);
                    lemma_ident_is_at(s, x1, x2, v[k].0@, self.current_token, self.peek_at@);
                }
            }
            let id = self.current_identifier()?;
            let ghost before = identifiers@;
            identifiers.push(id);
            proof {
                lemma_names_prefix(s, a1, before, identifiers@, before.len() as int, m1);
                assert(identifiers@[before.len() as int] == id);
            }
        }
        proof {
            self.lexer.lemma_wf();
            if tgt {
                let k = identifiers.len() as int;
                if k < v.len() {
                    let (x1, x2) = choose|x1: int, x2: int|
                        #![trigger token_is(s, self.peek_at@, x1, TokenKind::Comma), ident_is(s, x1, x2, v[k].0@)]
                        token_is(s, self.peek_at@, x1, TokenKind::Comma) && ident_is(
                            s,
                            x1,
                            x2,
                            v[k].0@,
                        ) && wf_more_params(s, v, k + 1, x2, b);
                    lemma_token_is_at(
                        s,
                        self.peek_at@,
                        x1,
                        TokenKind::Comma,
                        self.peek_token,
                        self.lexer.pos(),
                    );
                }
                lemma_token_is_at(s, self.peek_at@, b, TokenKind::RParen, self.peek_token, self.lexer.pos());
            }
        }
        if !matches!(self.peek_token.kind, TokenKind::RParen) {
            return Err(
                parse_error(
                    "Expected `)`",
                    self.peek_token.span,
                    "Close the parameter list with `)`",
                ),
            );
        }
        let ghost m = self.peek_at@;
        self.next_token();
        assert(token_is(s, m, self.peek_at@, TokenKind::RParen));
        Ok(identifiers)
    }

    fn parse_call_expression(
        &mut self,
        function: Expression,
        Ghost(target): Ghost<Option<(Seq<Expression>, int)>>,
    ) -> (r: Result<Expression, ParseError>)
        requires
            old(self).wf(),
            old(self).current_token.kind == TokenKind::LParen,
        ensures
            target is Some && wf_list(
                old(self).lexer.source(),
                old(self).peek_at@,
                true,
                target->Some_0.0,
                target->Some_0.1,
            ) ==> (r matches Ok(x) && (x matches Expression::Call { arguments: v, .. } && v.len()
                == target->Some_0.0.len() && forall|i: int|
                0 <= i < v.len() ==> same_expr(#[trigger] v[i], target->Some_0.0[i]))
                && final(self).peek_at@ == target->Some_0.1 && final(self).pending_errors() == old(
                self,
            ).pending_errors()),
            final(self).advanced(old(self)),
            r is Ok ==> final(self).current_token.kind != TokenKind::Eof,
            r matches Ok(e) ==> e matches Expression::Call { function: f, arguments } && *f == function
                && parses_list(
                old(self).lexer.source(),
                old(self).cur_at@,
                true,
                arguments,
                final(self).peek_at@,
            ),
        decreases old(self).measure(), 4nat,
    {
        let arguments = self.parse_expression_list(true, Ghost(target))?;
        Ok(Expression::Call { function: Box::new(function), arguments })
    }

    /// Parses expressions separated by `,` up to the closing token: `)` when
    /// `parens`, else `]`.
    fn parse_expression_list(
        &mut self,
        parens: bool,
        Ghost(target): Ghost<Option<(Seq<Expression>, int)>>,
    ) -> (r: Result<Vec<Expression>, ParseError>)
        requires
            old(self).wf(),
            opener_kind(old(self).current_token.kind, parens),
        ensures
            target is Some && wf_list(
                old(self).lexer.source(),
                old(self).peek_at@,
                parens,
                target->Some_0.0,
                target->Some_0.1,
            ) ==> (r matches Ok(v) && v.len() == target->Some_0.0.len() && (forall|i: int|
                0 <= i < v.len() ==> same_expr(#[trigger] v[i], target->Some_0.0[i]))
                && final(self).peek_at@ == target->Some_0.1 && final(self).pending_errors() == old(
                self,
            ).pending_errors()),
            final(self).advanced(old(self)),
            r is Ok ==> final(self).current_token.kind != TokenKind::Eof,
            r matches Ok(v) ==> parses_list(
                old(self).lexer.source(),
                old(self).cur_at@,
                parens,
                v,
                final(self).peek_at@,
            ),
        decreases old(self).measure(), 3nat,
    {
        let ghost s = self.lexer.source();
        let ghost p1 = self.peek_at@;
        proof {
            assert(lexed(s, self.cur_at@, self.current_token, p1));
        }
        let ghost tgt = target is Some && wf_list(s, p1, parens, target->Some_0.0, target->Some_0.1);
        let ghost v = target->Some_0.0;
        let ghost q = target->Some_0.1;
        let ghost mut first_end: int = 0;
        proof {
            self.lexer.lemma_wf();
            if tgt {
                if v.len() == 0 {
                    lemma_closes_at(s, p1, q, parens, self.peek_token, self.lexer.pos());
                } else {
                    let mm = choose|mm: int|
                        #![trigger read_to(v[0], mm)]
                        read_to(v[0], mm) && p1 < mm <= s.len() && wf_expr(s, p1, 0, v[0], mm) && wf_more(
                            s,
                            parens,
                            v,
                            1,
                            mm,
                            q,
                        );
                    first_end = mm;
                    lemma_wf_expr_starts(s, p1, 0, v[0], mm, self.peek_token, self.lexer.pos());
                }
            }
        }
        let mut list: Vec<Expression> = Vec::new();
        if is_closer(&self.peek_token.kind, parens) {
            self.next_token();
            assert(closes(s, p1, self.peek_at@, parens));
            return Ok(list);
        }
        self.next_token();
        let first = self.parse_expression(
            Precedence::Lowest,
            Ghost(
                if tgt {
                    Some((v[0], first_end))
                } else {
                    None
                },
            ),
        )?;
        list.push(first);
        assert(parses_items(s, p1, list, 1, self.peek_at@));
        while matches!(self.peek_token.kind, TokenKind::Comma)
            invariant
                self.advanced(old(self)),
                self.measure() < old(self).measure(),
                self.lexer.source() == s,
                list.len() >= 1,
                parses_items(s, p1, list, list.len() as int, self.peek_at@),
                tgt == (target is Some && wf_list(s, p1, parens, v, q)),
                p1 == old(self).peek_at@,
                s == old(self).lexer.source(),
                v == target->Some_0.0,
                q == target->Some_0.1,
                tgt ==> list.len() <= v.len() && wf_more(
                    s,
                    parens,
                    v,
                    list.len() as int,
                    self.peek_at@,
                    q,
                ) && (forall|i: int| 0 <= i < list.len() ==> same_expr(#[trigger] list[i], v[i]))
                    && self.pending_errors() == old(self).pending_errors(),
            decreases self.measure(),
        {
            let ghost m1 = self.peek_at@;
            let ghost k = list.len() as int;
            let ghost mut item_end: int = 0;
            let ghost mut item_start: int = 0;
            proof {
                self.lexer.lemma_wf();
                if tgt {
                    if k == v.len() {
                        lemma_closes_at(s, m1, q, parens, self.peek_token, self.lexer.pos());
                    }
                    let (a1, a2) = choose|a1: int, a2: int|
                        #![trigger token_is(s, m1, a1, TokenKind::Comma), read_to(v[k], a2)]
                        read_to(v[k], a2) && m1 < a1 < a2 <= s.len() && token_is(s, m1, a1, TokenKind::Comma) && wf_expr(
                            s,
                            a1,
                            0,
                            v[k],
                            a2,
                        ) && wf_more(s, parens, v, k + 1, a2, q);
                    lemma_token_is_at(s, m1, a1, TokenKind::Comma, self.peek_token, self.lexer.pos());
                    item_start = a1;
                    item_end = a2;
                }
            }
            self.next_token();
            let ghost m2 = self.peek_at@;
            assert(token_is(s, m1, m2, TokenKind::Comma));
            self.next_token();
            let item = self.parse_expression(
                Precedence::Lowest,
                Ghost(
                    if tgt {
                        Some((v[k], item_end))
                    } else {
                        None
                    },
                ),
            )?;
            let ghost before = list;
            list.push(item);
            proof {
                lemma_items_prefix(s, p1, before, list, before.len() as int, m1);
                assert(list[before.len() as int] == item);
            }
        }
        proof {
            self.lexer.lemma_wf();
            if tgt {
                if list.len() < v.len() {
                    let (a1, a2) = choose|a1: int, a2: int|
                        #![trigger token_is(s, self.peek_at@, a1, TokenKind::Comma), read_to(v[list.len() as int], a2)]
                        read_to(v[list.len() as int], a2) && self.peek_at@ < a1 < a2 <= s.len() && token_is(
                            s,
                            self.peek_at@,
                            a1,
                            TokenKind::Comma,
                        ) && wf_expr(s, a1, 0, v[list.len() as int], a2) && wf_more(
                            s,
                            parens,
                            v,
                            list.len() + 1,
                            a2,
                            q,
                        );
                    lemma_token_is_at(
                        s,
                        self.peek_at@,
                        a1,
                        TokenKind::Comma,
                        self.peek_token,
                        self.lexer.pos(),
                    );
                }
                lemma_closes_at(s, self.peek_at@, q, parens, self.peek_token, self.lexer.pos());
            }
        }
        if !is_closer(&self.peek_token.kind, parens) {
            let message = if parens {
                "Expected `)`"
            } else {
                "Expected `]`"
            };
            return Err(parse_error(message, self.peek_token.span, "Close the list"));
        }
        let ghost m = self.peek_at@;
        self.next_token();
        assert(closes(s, m, self.peek_at@, parens));
        Ok(list)
    }

    fn parse_index_expression(
        &mut self,
        left: Expression,
        Ghost(target): Ghost<Option<(Expression, int, int)>>,
    ) -> (r: Result<Expression, ParseError>)
        requires
            old(self).wf(),
            old(self).current_token.kind == TokenKind::LBracket,
        ensures
            target is Some && wf_expr(
                old(self).lexer.source(),
                old(self).peek_at@,
                0,
                target->Some_0.0,
                target->Some_0.1,
            ) && token_is(
                old(self).lexer.source(),
                target->Some_0.1,
                target->Some_0.2,
                TokenKind::RBracket,
            ) ==> (r matches Ok(x) && (x matches Expression::IndexExpr { index, .. } && same_expr(
                *index,
                target->Some_0.0,
            )) && final(self).peek_at@ == target->Some_0.2 && final(self).pending_errors() == old(
                self,
            ).pending_errors()),
            final(self).advanced(old(self)),
            r is Ok ==> final(self).current_token.kind != TokenKind::Eof,
            r matches Ok(e) ==> e matches Expression::IndexExpr { left: l, index } && *l == left && exists|
                m3: int,
            |
                #![trigger parses_index(old(self).lexer.source(), old(self).cur_at@, old(self).peek_at@, m3, final(self).peek_at@)]
                parses_index(
                    old(self).lexer.source(),
                    old(self).cur_at@,
                    old(self).peek_at@,
                    m3,
                    final(self).peek_at@,
                ) && parses_expr(old(self).lexer.source(), old(self).peek_at@, 0, *index, m3),
        decreases old(self).measure(), 4nat,
    {
        let ghost s = self.lexer.source();
        let ghost p = self.cur_at@;
        let ghost p1 = self.peek_at@;
        assert(token_is(s, self.cur_at@, self.peek_at@, TokenKind::LBracket));
        let ghost tgt = target is Some && wf_expr(s, p1, 0, target->Some_0.0, target->Some_0.1)
            && token_is(s, target->Some_0.1, target->Some_0.2, TokenKind::RBracket);
        self.next_token();
        let index = self.parse_expression(
            Precedence::Lowest,
            Ghost(
                if tgt {
                    Some((target->Some_0.0, target->Some_0.1))
                } else {
                    None
                },
            ),
        )?;
        proof {
            self.lexer.lemma_wf();
            if tgt {
                lemma_token_is_at(
                    s,
                    target->Some_0.1,
                    target->Some_0.2,
                    TokenKind::RBracket,
                    self.peek_token,
                    self.lexer.pos(),
                );
            }
        }
        if !matches!(self.peek_token.kind, TokenKind::RBracket) {
            return Err(
                parse_error("Expected `]`", self.peek_token.span, "Close the index with `]`"),
            );
        }
        let ghost m3 = self.peek_at@;
        self.next_token();
        assert(token_is(s, m3, self.peek_at@, TokenKind::RBracket));
        assert(parses_index(s, p, p1, m3, self.peek_at@));
        Ok(Expression::IndexExpr { left: Box::new(left), index: Box::new(index) })
    }

    #[verifier::rlimit(100)]
    fn parse_hash_literal(&mut self, Ghost(target): Ghost<Option<(Expression, int)>>) -> (r: Result<
        Expression,
        ParseError,
    >)
        requires
            old(self).wf(),
            old(self).current_token.kind == TokenKind::LBrace,
        ensures
            target is Some && wf_prefix(
                old(self).lexer.source(),
                old(self).cur_at@,
                target->Some_0.0,
                target->Some_0.1,
            ) ==> (r matches Ok(x) && same_expr(x, target->Some_0.0) && final(self).peek_at@
                == target->Some_0.1 && final(self).pending_errors() == old(self).pending_errors()),
            final(self).advanced(old(self)),
            r is Ok ==> final(self).current_token.kind != TokenKind::Eof,
            r matches Ok(e) ==> e is HashLiteral,
            r matches Ok(e) ==> parses_prefix(
                old(self).lexer.source(),
                old(self).cur_at@,
                e,
                final(self).peek_at@,
            ),
        decreases old(self).measure(), 4nat,
    {
        proof {
            self.lexer.lemma_wf();
            lemma_lexed_bounds(self.lexer.source(), self.cur_at@, self.current_token, self.peek_at@);
        }
        let ghost s = self.lexer.source();
        let ghost p = self.cur_at@;
        let ghost p1 = self.peek_at@;
        assert(token_is(s, p, p1, TokenKind::LBrace));
        let ghost tgt = target is Some && wf_prefix(s, p, target->Some_0.0, target->Some_0.1);
        let ghost v = target->Some_0.0->HashLiteral_0@;
        let ghost q = target->Some_0.1;
        proof {
            if tgt {
                assert forall|t: Token, qq: int| lexed(s, p, t, qq) implies same_kind(
                    t.kind,
                    self.current_token.kind,
                ) && qq == self.peek_at@ by {
                    lemma_lexed_unique(s, p, t, qq, self.current_token, self.peek_at@);
                }
                assert(hash_rest(s, p1, v, 0, q));
            }
        }
        let ghost mut m: int = p1;
        let ghost mut comma: bool = false;
        let mut pairs: Vec<(Expression, Expression)> = Vec::new();
        while !matches!(self.peek_token.kind, TokenKind::RBrace)
            invariant
                self.advanced(old(self)),
                self.current_token.kind != TokenKind::Eof,
                self.lexer.source() == s,
                pairs.len() == 0 ==> self.peek_at@ == p1,
                pairs.len() > 0 ==> parses_entries(s, p1, pairs, pairs.len() as int, m),
                pairs.len() > 0 && comma ==> token_is(s, m, self.peek_at@, TokenKind::Comma),
                pairs.len() > 0 && !comma ==> self.peek_at@ == m && self.peek_token.kind
                    == TokenKind::RBrace,
                s == old(self).lexer.source(),
                p == old(self).cur_at@,
                tgt == (target is Some && wf_prefix(s, p, target->Some_0.0, q)),
                v == target->Some_0.0->HashLiteral_0@,
                q == target->Some_0.1,
                tgt ==> pairs.len() <= v.len() && hash_rest(
                    s,
                    self.peek_at@,
                    v,
                    pairs.len() as int,
                    q,
                ) && (forall|i: int|
                    0 <= i < pairs.len() ==> same_expr((#[trigger] pairs[i]).0, v[i].0) && same_expr(
                        pairs[i].1,
                        v[i].1,
                    )) && self.pending_errors() == old(self).pending_errors(),
            decreases self.measure(),
        {
            let ghost m_prev = m;
            let ghost k = pairs.len() as int;
            let ghost pp = self.peek_at@;
            let ghost mut xk: int = 0;
            let ghost mut xc: int = 0;
            let ghost mut xv: int = 0;
            proof {
                self.lexer.lemma_wf();
                if tgt {
                    if k >= v.len() {
                        lemma_token_is_at(s, pp, q, TokenKind::RBrace, self.peek_token, self.lexer.pos());
                    }
                    let (a1, a2, a3) = choose|a1: int, a2: int, a3: int|
                        #![trigger token_is(s, a1, a2, TokenKind::Colon), read_to(v[k].1, a3)]
                        read_to(v[k].1, a3) && pp < a1 < a2 < a3 <= s.len() && wf_expr(
                            s,
                            pp,
                            0,
                            v[k].0,
                            a1,
                        ) && token_is(s, a1, a2, TokenKind::Colon) && wf_expr(s, a2, 0, v[k].1, a3)
                            && ((k + 1 == v.len() && token_is(s, a3, q, TokenKind::RBrace))
                            || exists|mm: int|
                            #![trigger token_is(s, a3, mm, TokenKind::Comma)]
                            a3 < mm <= s.len() && token_is(s, a3, mm, TokenKind::Comma) && hash_rest(
                                s,
                                mm,
                                v,
                                k + 1,
                                q,
                            ));
                    xk = a1;
                    xc = a2;
                    xv = a3;
                }
            }
            self.next_token();
            let ghost a = self.cur_at@;
            let key = self.parse_expression(
                Precedence::Lowest,
                Ghost(
                    if tgt {
                        Some((v[k].0, xk))
                    } else {
                        None
                    },
                ),
            )?;
            let ghost mk = self.peek_at@;
            proof {
                self.lexer.lemma_wf();
                if tgt {
                    lemma_token_is_at(s, xk, xc, TokenKind::Colon, self.peek_token, self.lexer.pos());
                }
            }
            if !matches!(self.peek_token.kind, TokenKind::Colon) {
                return Err(
                    parse_error(
                        "Expected `:`",
                        self.peek_token.span,
                        "Separate each key from its value with `:`",
                    ),
                );
            }
            self.next_token();
            let ghost mc = self.peek_at@;
            assert(token_is(s, mk, mc, TokenKind::Colon));
            self.next_token();
            let value = self.parse_expression(
                Precedence::Lowest,
                Ghost(
                    if tgt {
                        Some((v[k].1, xv))
                    } else {
                        None
                    },
                ),
            )?;
            let ghost m_new = self.peek_at@;
            proof {
                self.lexer.lemma_wf();
                if tgt {
                    if token_is(s, xv, q, TokenKind::RBrace) && k + 1 == v.len() {
                        lemma_token_is_at(s, xv, q, TokenKind::RBrace, self.peek_token, self.lexer.pos());
                    } else {
                        let mm = choose|mm: int|
                            #![trigger token_is(s, xv, mm, TokenKind::Comma)]
                            xv < mm <= s.len() && token_is(s, xv, mm, TokenKind::Comma) && hash_rest(
                                s,
                                mm,
                                v,
                                k + 1,
                                q,
                            );
                        lemma_token_is_at(s, xv, mm, TokenKind::Comma, self.peek_token, self.lexer.pos());
                    }
                }
            }
            let ghost before = pairs;
            let ghost entry = (key, value);
            assert(parses_entry(s, a, entry, m_new));
            pairs.push((key, value));
            proof {
                assert(pairs[before.len() as int] == entry);
                if before.len() == 0 {
                    assert(a == p1);
                } else {
                    lemma_entries_prefix(s, p1, before, pairs, before.len() as int, m_prev);
                    assert(token_is(s, m_prev, a, TokenKind::Comma));
                }
                m = m_new;
            }
            if !matches!(self.peek_token.kind, TokenKind::RBrace) && !matches!(
                self.peek_token.kind,
                TokenKind::Comma
            ) {
                return Err(
                    parse_error(
                        "Expected `,` or `}`",
                        self.peek_token.span,
                        "Separate entries with `,`",
                    ),
                );
            }
            if matches!(self.peek_token.kind, TokenKind::Comma) {
                self.next_token();
                proof {
                    comma = true;
                }
                assert(token_is(s, m, self.peek_at@, TokenKind::Comma));
            } else {
                proof {
                    comma = false;
                }
            }
        }
        let ghost r = self.peek_at@;
        proof {
            self.lexer.lemma_wf();
            if tgt {
                let k = pairs.len() as int;
                if k < v.len() {
                    let (a1, a2, a3) = choose|a1: int, a2: int, a3: int|
                        #![trigger token_is(s, a1, a2, TokenKind::Colon), read_to(v[k].1, a3)]
                        read_to(v[k].1, a3) && r < a1 < a2 < a3 <= s.len() && wf_expr(
                            s,
                            r,
                            0,
                            v[k].0,
                            a1,
                        ) && token_is(s, a1, a2, TokenKind::Colon) && wf_expr(s, a2, 0, v[k].1, a3)
                            && ((k + 1 == v.len() && token_is(s, a3, q, TokenKind::RBrace))
                            || exists|mm: int|
                            #![trigger token_is(s, a3, mm, TokenKind::Comma)]
                            a3 < mm <= s.len() && token_is(s, a3, mm, TokenKind::Comma) && hash_rest(
                                s,
                                mm,
                                v,
                                k + 1,
                                q,
                            ));
                    lemma_wf_expr_starts(s, r, 0, v[k].0, a1, self.peek_token, self.lexer.pos());
                } else {
                    lemma_token_is_at(s, r, q, TokenKind::RBrace, self.peek_token, self.lexer.pos());
                }
            }
        }
        self.next_token();
        assert(token_is(s, r, self.peek_at@, TokenKind::RBrace));
        assert(pairs.len() > 0 ==> trailing_comma(s, m, r));
        Ok(Expression::HashLiteral(pairs))
    }
}

fn is_closer(kind: &TokenKind, parens: bool) -> (r: bool)
    ensures
        r == closer_kind(*kind, parens),
{
    if parens {
        matches!(kind, TokenKind::RParen)
    } else {
        matches!(kind, TokenKind::RBracket)
    }
}

/// Lexes and parses `input`, keeping the statements that parsed.
pub fn program_from_input(input: &str) -> (r: Program)
    ensures
        program_of(input@, r),
        (exists|t: Seq<Statement>| wf_program(input@, t)) ==> same_statements(
            r.stmts(),
            reading_of(input@),
        ),
{
    let lexer = Lexer::new(input);
    let mut parser = Parser::new(lexer);
    let (program, _errors) = parser.parse_program();
    program
}

} // verus!
