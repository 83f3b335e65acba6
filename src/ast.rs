use vstd::prelude::*;
use crate::token::{Token, TokenKind};

verus! {

/// Any of the three kinds of syntax tree the evaluator accepts.
#[derive(Debug, PartialEq, Eq)]
pub enum Node {
    Program(Program),
    Statement(Statement),
    Expression(Expression),
}

/// An ordered sequence of statements: a whole program or a block.
#[derive(Debug, PartialEq, Eq)]
pub struct Program(pub Vec<Statement>);

pub type BlockStatement = Program;

impl Program {
    pub open spec fn stmts(&self) -> Seq<Statement> {
        self.0@
    }

    pub fn new() -> (r: Program)
        ensures
            r.stmts() == Seq::<Statement>::empty(),
    {
        Program(Vec::new())
    }

    pub fn push(&mut self, stmt: Statement)
        ensures
            final(self).stmts() == old(self).stmts().push(stmt),
    {
        self.0.push(stmt)
    }

    pub fn len(&self) -> (r: usize)
        ensures
            r == self.stmts().len(),
    {
        self.0.len()
    }

    pub fn statements(&self) -> (r: &[Statement])
        ensures
            r@ == self.stmts(),
    {
        self.0.as_slice()
    }

    /// The canonical text of the program: its statements, one after another.
    pub fn to_string(&self) -> (r: String)
        ensures
            r@ == render_program(self),
    {
        let mut out = String::new();
        write_program(&mut out, self);
        out
    }
}

#[derive(Debug, PartialEq, Eq)]
pub enum Statement {
    Let { token: Token, name: String, value: Expression },
    Return { token: Token, value: Expression },
    Expr(Expression),
}

impl Statement {
    pub fn to_string(&self) -> (r: String)
        ensures
            r@ == render_statement(self),
    {
        let mut out = String::new();
        write_statement(&mut out, self);
        out
    }
}

#[derive(Debug, Clone, PartialEq, Eq)]
pub struct Identifier(pub String);

impl Identifier {
    pub open spec fn name(&self) -> Seq<char> {
        self.0@
    }

    pub fn new(identifier: String) -> (r: Identifier)
        ensures
            r.name() == identifier@,
    {
        Identifier(identifier)
    }

    pub fn value(&self) -> (r: &str)
        ensures
            r@ == self.name(),
    {
        self.0.as_str()
    }
}

#[derive(Debug, PartialEq, Eq)]
pub enum Expression {
    Ident(Identifier),
    IntegerLiteral(i64),
    Prefix { token: Token, operator: String, right: Box<Expression> },
    Infix { token: Token, operator: String, left: Box<Expression>, right: Box<Expression> },
    Boolean(bool),
    If { condition: Box<Expression>, consequence: BlockStatement, alternative: Option<BlockStatement> },
    FunctionLiteral { parameters: Vec<Identifier>, body: BlockStatement },
    Call { function: Box<Expression>, arguments: Vec<Expression> },
    StringLiteral(String),
    ArrayLiteral(Vec<Expression>),
    IndexExpr { left: Box<Expression>, index: Box<Expression> },
    HashLiteral(Vec<(Expression, Expression)>),
}

impl Expression {
    pub fn to_string(&self) -> (r: String)
        ensures
            r@ == render_expression(self),
    {
        let mut out = String::new();
        write_expression(&mut out, self);
        out
    }
}

/// The decimal digits of `n`, most significant first.
pub open spec fn nat_digits(n: nat) -> Seq<char>
    decreases n,
{
    if n < 10 {
        seq![digit_char(n)]
    } else {
        nat_digits(n / 10) + seq![digit_char(n % 10)]
    }
}

pub open spec fn digit_char(d: nat) -> char {
    if d == 0 {
        '0'
    } else if d == 1 {
        '1'
    } else if d == 2 {
        '2'
    } else if d == 3 {
        '3'
    } else if d == 4 {
        '4'
    } else if d == 5 {
        '5'
    } else if d == 6 {
        '6'
    } else if d == 7 {
        '7'
    } else if d == 8 {
        '8'
    } else {
        '9'
    }
}

/// An integer in decimal, with a leading `-` when negative.
pub open spec fn decimal(n: int) -> Seq<char> {
    if n < 0 {
        seq!['-'] + nat_digits((-n) as nat)
    } else {
        nat_digits(n as nat)
    }
}

pub open spec fn render_program(p: &Program) -> Seq<char>
    decreases p, 1nat,
{
    render_statements(&p.0, p.0.len() as int)
}

/// The first `n` statements of `v`, rendered one after another.
pub open spec fn render_statements(v: &Vec<Statement>, n: int) -> Seq<char>
    decreases v, n,
{
    if n <= 0 || n > v.len() {
        Seq::empty()
    } else {
        render_statements(v, n - 1) + render_statement(&v[n - 1])
    }
}

pub open spec fn render_statement(s: &Statement) -> Seq<char>
    decreases s, 0nat,
{
    match s {
        Statement::Let { name, value, .. } => "let "@ + name@ + " = "@ + render_expression(value)
            + ";"@,
        Statement::Return { value, .. } => "return "@ + render_expression(value) + ";"@,
        Statement::Expr(e) => render_expression(e),
    }
}

/// The first `n` expressions of `v`, separated by `, `.
pub open spec fn render_list(v: &Vec<Expression>, n: int) -> Seq<char>
    decreases v, n,
{
    if n <= 0 || n > v.len() {
        Seq::empty()
    } else if n == 1 {
        render_expression(&v[0])
    } else {
        render_list(v, n - 1) + ", "@ + render_expression(&v[n - 1])
    }
}

/// The first `n` key/value pairs of `v`, each as `key:value`, separated by `, `.
pub open spec fn render_pairs(v: &Vec<(Expression, Expression)>, n: int) -> Seq<char>
    decreases v, n,
{
    if n <= 0 || n > v.len() {
        Seq::empty()
    } else {
        let pair = render_expression(&v[n - 1].0) + ":"@ + render_expression(&v[n - 1].1);
        if n == 1 {
            pair
        } else {
            render_pairs(v, n - 1) + ", "@ + pair
        }
    }
}

/// The first `n` parameter names of `v`, separated by `, `.
pub open spec fn render_params(v: Seq<Identifier>, n: int) -> Seq<char>
    decreases n,
{
    if n <= 0 || n > v.len() {
        Seq::empty()
    } else if n == 1 {
        v[0].0@
    } else {
        render_params(v, n - 1) + ", "@ + v[n - 1].0@
    }
}

/// The canonical text of an expression: every prefix, infix and index
/// expression in parentheses, so that the text shows how it was grouped.
pub open spec fn render_expression(e: &Expression) -> Seq<char>
    decreases e, 0nat,
{
    match e {
        Expression::Ident(id) => id.0@,
        Expression::IntegerLiteral(i) => decimal(*i as int),
        Expression::Prefix { operator, right, .. } => "("@ + operator@ + render_expression(right)
            + ")"@,
        Expression::Infix { operator, left, right, .. } => "("@ + render_expression(left) + " "@
            + operator@ + " "@ + render_expression(right) + ")"@,
        Expression::Boolean(b) => if *b {
            "true"@
        } else {
            "false"@
        },
        Expression::If { condition, consequence, alternative } => "if"@ + render_expression(
            condition,
        ) + " "@ + render_program(consequence) + " "@ + match alternative {
            Some(alt) => "else "@ + render_program(alt),
            None => Seq::empty(),
        },
        Expression::FunctionLiteral { parameters, body } => "fn("@ + render_params(
            parameters@,
            parameters.len() as int,
        ) + ")"@ + render_program(body),
        Expression::Call { function, arguments } => render_expression(function) + "("@
            + render_list(arguments, arguments.len() as int) + ")"@,
        Expression::StringLiteral(s) => s@,
        Expression::ArrayLiteral(v) => "["@ + render_list(v, v.len() as int) + "]"@,
        Expression::IndexExpr { left, index } => "("@ + render_expression(left) + "["@
            + render_expression(index) + "])"@,
        Expression::HashLiteral(v) => "{"@ + render_pairs(v, v.len() as int) + "}"@,
    }
}

fn digit_str(d: u64) -> (r: &'static str)
    requires
        d < 10,
    ensures
        r@ == seq![digit_char(d as nat)],
{
    proof {
        reveal_strlit("0");
        reveal_strlit("1");
        reveal_strlit("2");
        reveal_strlit("3");
        reveal_strlit("4");
        reveal_strlit("5");
        reveal_strlit("6");
        reveal_strlit("7");
        reveal_strlit("8");
        reveal_strlit("9");
    }
    let r = if d == 0 {
        "0"
    } else if d == 1 {
        "1"
    } else if d == 2 {
        "2"
    } else if d == 3 {
        "3"
    } else if d == 4 {
        "4"
    } else if d == 5 {
        "5"
    } else if d == 6 {
        "6"
    } else if d == 7 {
        "7"
    } else if d == 8 {
        "8"
    } else {
        "9"
    };
    assert(r@ =~= seq![digit_char(d as nat)]);
    r
}

/// Appends `n` in decimal.
pub fn write_unsigned(out: &mut String, n: u64)
    ensures
        final(out)@ == old(out)@ + nat_digits(n as nat),
    decreases n,
{
    if n < 10 {
        out.append(digit_str(n));
    } else {
        write_unsigned(out, n / 10);
        out.append(digit_str(n % 10));
        assert(final(out)@ =~= old(out)@ + nat_digits(n as nat));
    }
}

/// Appends `n` in decimal.
pub fn write_integer(out: &mut String, n: i64)
    ensures
        final(out)@ == old(out)@ + decimal(n as int),
{
    if n < 0 {
        proof {
            reveal_strlit("-");
        }
        out.append("-");
        let m: u64 = (0i128 - n as i128) as u64;
        write_unsigned(out, m);
        assert(final(out)@ =~= old(out)@ + decimal(n as int));
    } else {
        write_unsigned(out, n as u64);
    }
}

pub(crate) fn write_program(out: &mut String, p: &Program)
    ensures
        final(out)@ == old(out)@ + render_program(p),
    decreases p, 1nat,
{
    let mut i: usize = 0;
    while i < p.0.len()
        invariant
            i <= p.0.len(),
            out@ == old(out)@ + render_statements(&p.0, i as int),
        decreases p.0.len() - i,
    {
        assert(decreases_to!(p.0 => p.0[i as int]));
        write_statement(out, &p.0[i]);
        i = i + 1;
        assert(out@ =~= old(out)@ + render_statements(&p.0, i as int));
    }
}

fn write_statement(out: &mut String, s: &Statement)
    ensures
        final(out)@ == old(out)@ + render_statement(s),
    decreases s, 0nat,
{
    match s {
        Statement::Let { name, value, .. } => {
            out.append("let ");
            out.append(name.as_str());
            out.append(" = ");
            write_expression(out, value);
            out.append(";");
        },
        Statement::Return { value, .. } => {
            out.append("return ");
            write_expression(out, value);
            out.append(";");
        },
        Statement::Expr(e) => {
            write_expression(out, e);
        },
    }
    assert(final(out)@ =~= old(out)@ + render_statement(s));
}

fn write_list(out: &mut String, v: &Vec<Expression>)
    ensures
        final(out)@ == old(out)@ + render_list(v, v.len() as int),
    decreases v, v.len() + 1,
{
    let mut i: usize = 0;
    while i < v.len()
        invariant
            i <= v.len(),
            out@ == old(out)@ + render_list(v, i as int),
        decreases v.len() - i,
    {
        if i > 0 {
            out.append(", ");
        }
        assert(decreases_to!(v => v[i as int]));
        write_expression(out, &v[i]);
        i = i + 1;
        assert(out@ =~= old(out)@ + render_list(v, i as int));
    }
}

fn write_pairs(out: &mut String, v: &Vec<(Expression, Expression)>)
    ensures
        final(out)@ == old(out)@ + render_pairs(v, v.len() as int),
    decreases v, v.len() + 1,
{
    let mut i: usize = 0;
    while i < v.len()
        invariant
            i <= v.len(),
            out@ == old(out)@ + render_pairs(v, i as int),
        decreases v.len() - i,
    {
        if i > 0 {
            out.append(", ");
        }
        assert(decreases_to!(v => v[i as int]));
        write_expression(out, &v[i].0);
        out.append(":");
        write_expression(out, &v[i].1);
        i = i + 1;
        assert(out@ =~= old(out)@ + render_pairs(v, i as int));
    }
}

pub(crate) fn write_params(out: &mut String, v: &Vec<Identifier>)
    ensures
        final(out)@ == old(out)@ + render_params(v@, v.len() as int),
{
    let mut i: usize = 0;
    while i < v.len()
        invariant
            i <= v.len(),
            out@ == old(out)@ + render_params(v@, i as int),
        decreases v.len() - i,
    {
        if i > 0 {
            out.append(", ");
        }
        out.append(v[i].0.as_str());
        i = i + 1;
        assert(out@ =~= old(out)@ + render_params(v@, i as int));
    }
}

fn write_expression(out: &mut String, e: &Expression)
    ensures
        final(out)@ == old(out)@ + render_expression(e),
    decreases e, 0nat,
{
    match e {
        Expression::Ident(id) => {
            out.append(id.0.as_str());
        },
        Expression::IntegerLiteral(i) => {
            write_integer(out, *i);
        },
        Expression::Prefix { operator, right, .. } => {
            out.append("(");
            out.append(operator.as_str());
            write_expression(out, right);
            out.append(")");
        },
        Expression::Infix { operator, left, right, .. } => {
            out.append("(");
            write_expression(out, left);
            out.append(" ");
            out.append(operator.as_str());
            out.append(" ");
            write_expression(out, right);
            out.append(")");
        },
        Expression::Boolean(b) => {
            if *b {
                out.append("true");
            } else {
                out.append("false");
            }
        },
        Expression::If { condition, consequence, alternative } => {
            out.append("if");
            write_expression(out, condition);
            out.append(" ");
            write_program(out, consequence);
            out.append(" ");
            match alternative {
                Some(alt) => {
                    out.append("else ");
                    write_program(out, alt);
                },
                None => {},
            }
        },
        Expression::FunctionLiteral { parameters, body } => {
            out.append("fn(");
            write_params(out, parameters);
            out.append(")");
            write_program(out, body);
        },
        Expression::Call { function, arguments } => {
            write_expression(out, function);
            out.append("(");
            write_list(out, arguments);
            out.append(")");
        },
        Expression::StringLiteral(s) => {
            out.append(s.as_str());
        },
        Expression::ArrayLiteral(v) => {
            out.append("[");
            write_list(out, v);
            out.append("]");
        },
        Expression::IndexExpr { left, index } => {
            out.append("(");
            write_expression(out, left);
            out.append("[");
            write_expression(out, index);
            out.append("])");
        },
        Expression::HashLiteral(v) => {
            out.append("{");
            write_pairs(out, v);
            out.append("}");
        },
    }
    assert(final(out)@ =~= old(out)@ + render_expression(e));
}

/// A copy of a list of identifiers.
pub fn copy_identifiers(v: &Vec<Identifier>) -> (r: Vec<Identifier>)
    ensures
        r.len() == v.len(),
        forall|i: int| 0 <= i < v.len() ==> #[trigger] r[i].0@ == v[i].0@,
{
    let mut out: Vec<Identifier> = Vec::new();
    let mut i: usize = 0;
    while i < v.len()
        invariant
            i <= v.len(),
            out.len() == i,
            forall|j: int| 0 <= j < i ==> #[trigger] out[j].0@ == v[j].0@,
        decreases v.len() - i,
    {
        out.push(Identifier(v[i].0.clone()));
        i = i + 1;
    }
    out
}

/// A copy of a token.
pub fn copy_token(t: &Token) -> (r: Token)
    ensures
        r == *t,
{
    let kind = match &t.kind {
        TokenKind::Ident(s) => TokenKind::Ident(s.clone()),
        TokenKind::Int(s) => TokenKind::Int(s.clone()),
        TokenKind::String(s) => TokenKind::String(s.clone()),
        TokenKind::Illegal => TokenKind::Illegal,
        TokenKind::Eof => TokenKind::Eof,
        TokenKind::UnterminatedString => TokenKind::UnterminatedString,
        TokenKind::Assign => TokenKind::Assign,
        TokenKind::Plus => TokenKind::Plus,
        TokenKind::Minus => TokenKind::Minus,
        TokenKind::Bang => TokenKind::Bang,
        TokenKind::Asterisk => TokenKind::Asterisk,
        TokenKind::Slash => TokenKind::Slash,
        TokenKind::LessThan => TokenKind::LessThan,
        TokenKind::GreaterThan => TokenKind::GreaterThan,
        TokenKind::Equal => TokenKind::Equal,
        TokenKind::NotEqual => TokenKind::NotEqual,
        TokenKind::Comma => TokenKind::Comma,
        TokenKind::Semicolon => TokenKind::Semicolon,
        TokenKind::Colon => TokenKind::Colon,
        TokenKind::LParen => TokenKind::LParen,
        TokenKind::RParen => TokenKind::RParen,
        TokenKind::LBrace => TokenKind::LBrace,
        TokenKind::RBrace => TokenKind::RBrace,
        TokenKind::LBracket => TokenKind::LBracket,
        TokenKind::RBracket => TokenKind::RBracket,
        TokenKind::Function => TokenKind::Function,
        TokenKind::Let => TokenKind::Let,
        TokenKind::True => TokenKind::True,
        TokenKind::False => TokenKind::False,
        TokenKind::If => TokenKind::If,
        TokenKind::Else => TokenKind::Else,
        TokenKind::Return => TokenKind::Return,
    };
    Token { kind, span: t.span }
}

/// Two blocks with the same statements (see `same_expr`).
pub open spec fn same_program(a: Program, b: Program) -> bool
    decreases a, 1int,
{
    a.0.len() == b.0.len() && forall|i: int|
        0 <= i < a.0.len() ==> same_statement(#[trigger] a.0[i], b.0[i])
}

/// Two statements of the same form, with the same tokens and names and the
/// same expressions.
pub open spec fn same_statement(a: Statement, b: Statement) -> bool
    decreases a, 0int,
{
    match (a, b) {
        (
            Statement::Let { token: t1, name: n1, value: v1 },
            Statement::Let { token: t2, name: n2, value: v2 },
        ) => t1 == t2 && n1@ == n2@ && same_expr(v1, v2),
        (Statement::Return { token: t1, value: v1 }, Statement::Return { token: t2, value: v2 }) => t1
            == t2 && same_expr(v1, v2),
        (Statement::Expr(e1), Statement::Expr(e2)) => same_expr(e1, e2),
        _ => false,
    }
}

/// Two expressions that are the same tree: the same node at every place,
/// with the same tokens, the same integers and booleans, and texts (names,
/// operators, string literals) with the same characters.
pub open spec fn same_expr(a: Expression, b: Expression) -> bool
    decreases a, 0int,
{
    match (a, b) {
        (Expression::Ident(x), Expression::Ident(y)) => x.0@ == y.0@,
        (Expression::IntegerLiteral(x), Expression::IntegerLiteral(y)) => x == y,
        (
            Expression::Prefix { token: t1, operator: o1, right: r1 },
            Expression::Prefix { token: t2, operator: o2, right: r2 },
        ) => t1 == t2 && o1@ == o2@ && same_expr(*r1, *r2),
        (
            Expression::Infix { token: t1, operator: o1, left: l1, right: r1 },
            Expression::Infix { token: t2, operator: o2, left: l2, right: r2 },
        ) => t1 == t2 && o1@ == o2@ && same_expr(*l1, *l2) && same_expr(*r1, *r2),
        (Expression::Boolean(x), Expression::Boolean(y)) => x == y,
        (
            Expression::If { condition: c1, consequence: k1, alternative: a1 },
            Expression::If { condition: c2, consequence: k2, alternative: a2 },
        ) => same_expr(*c1, *c2) && same_program(k1, k2) && match (a1, a2) {
            (Some(x), Some(y)) => same_program(x, y),
            (None, None) => true,
            _ => false,
        },
        (
            Expression::FunctionLiteral { parameters: p1, body: b1 },
            Expression::FunctionLiteral { parameters: p2, body: b2 },
        ) => p1.len() == p2.len() && (forall|i: int|
            0 <= i < p1.len() ==> (#[trigger] p1[i]).0@ == p2[i].0@) && same_program(b1, b2),
        (
            Expression::Call { function: f1, arguments: x1 },
            Expression::Call { function: f2, arguments: x2 },
        ) => same_expr(*f1, *f2) && x1.len() == x2.len() && forall|i: int|
            0 <= i < x1.len() ==> same_expr(#[trigger] x1[i], x2[i]),
        (Expression::StringLiteral(x), Expression::StringLiteral(y)) => x@ == y@,
        (Expression::ArrayLiteral(x1), Expression::ArrayLiteral(x2)) => x1.len() == x2.len()
            && forall|i: int| 0 <= i < x1.len() ==> same_expr(#[trigger] x1[i], x2[i]),
        (
            Expression::IndexExpr { left: l1, index: i1 },
            Expression::IndexExpr { left: l2, index: i2 },
        ) => same_expr(*l1, *l2) && same_expr(*i1, *i2),
        (Expression::HashLiteral(x1), Expression::HashLiteral(x2)) => x1.len() == x2.len()
            && forall|i: int|
            0 <= i < x1.len() ==> same_expr((#[trigger] x1[i]).0, x2[i].0) && same_expr(
                x1[i].1,
                x2[i].1,
            ),
        _ => false,
    }
}

/// A copy of a block: the same statements.
pub fn copy_program(p: &Program) -> (r: Program)
    ensures
        same_program(*p, r),
    decreases p, 1nat,
{
    let mut out: Vec<Statement> = Vec::new();
    let mut i: usize = 0;
    while i < p.0.len()
        invariant
            i <= p.0.len(),
            out.len() == i,
            forall|j: int| 0 <= j < i ==> same_statement(#[trigger] p.0[j], out[j]),
        decreases p.0.len() - i,
    {
        assert(decreases_to!(p.0 => p.0[i as int]));
        let st = copy_statement(&p.0[i]);
        out.push(st);
        i = i + 1;
    }
    let r = Program(out);
    assert(forall|j: int| 0 <= j < p.0.len() ==> same_statement(#[trigger] p.0[j], r.0[j]));
    r
}

fn copy_statement(s: &Statement) -> (r: Statement)
    ensures
        same_statement(*s, r),
    decreases s, 0nat,
{
    match s {
        Statement::Let { token, name, value } => Statement::Let {
            token: copy_token(token),
            name: name.clone(),
            value: copy_expression(value),
        },
        Statement::Return { token, value } => Statement::Return {
            token: copy_token(token),
            value: copy_expression(value),
        },
        Statement::Expr(e) => Statement::Expr(copy_expression(e)),
    }
}

fn copy_list(v: &Vec<Expression>) -> (r: Vec<Expression>)
    ensures
        r.len() == v.len(),
        forall|j: int| 0 <= j < v.len() ==> same_expr(#[trigger] v[j], r[j]),
    decreases v, v.len() + 1,
{
    let mut out: Vec<Expression> = Vec::new();
    let mut i: usize = 0;
    while i < v.len()
        invariant
            i <= v.len(),
            out.len() == i,
            forall|j: int| 0 <= j < i ==> same_expr(#[trigger] v[j], out[j]),
        decreases v.len() - i,
    {
        assert(decreases_to!(v => v[i as int]));
        out.push(copy_expression(&v[i]));
        i = i + 1;
    }
    out
}

fn copy_pairs(v: &Vec<(Expression, Expression)>) -> (r: Vec<(Expression, Expression)>)
    ensures
        r.len() == v.len(),
        forall|j: int|
            0 <= j < v.len() ==> same_expr((#[trigger] v[j]).0, r[j].0) && same_expr(v[j].1, r[j].1),
    decreases v, v.len() + 1,
{
    let mut out: Vec<(Expression, Expression)> = Vec::new();
    let mut i: usize = 0;
    while i < v.len()
        invariant
            i <= v.len(),
            out.len() == i,
            forall|j: int|
                0 <= j < i ==> same_expr((#[trigger] v[j]).0, out[j].0) && same_expr(
                    v[j].1,
                    out[j].1,
                ),
        decreases v.len() - i,
    {
        assert(decreases_to!(v => v[i as int]));
        let k = copy_expression(&v[i].0);
        let x = copy_expression(&v[i].1);
        out.push((k, x));
        i = i + 1;
    }
    out
}

/// A copy of an expression: the same tree.
pub fn copy_expression(e: &Expression) -> (r: Expression)
    ensures
        same_expr(*e, r),
    decreases e, 0nat,
{
    match e {
        Expression::Ident(id) => Expression::Ident(Identifier(id.0.clone())),
        Expression::IntegerLiteral(i) => Expression::IntegerLiteral(*i),
        Expression::Prefix { token, operator, right } => Expression::Prefix {
            token: copy_token(token),
            operator: operator.clone(),
            right: Box::new(copy_expression(right)),
        },
        Expression::Infix { token, operator, left, right } => Expression::Infix {
            token: copy_token(token),
            operator: operator.clone(),
            left: Box::new(copy_expression(left)),
            right: Box::new(copy_expression(right)),
        },
        Expression::Boolean(b) => Expression::Boolean(*b),
        Expression::If { condition, consequence, alternative } => {
            let alternative = match alternative {
                Some(alt) => Some(copy_program(alt)),
                None => None,
            };
            Expression::If {
                condition: Box::new(copy_expression(condition)),
                consequence: copy_program(consequence),
                alternative,
            }
        },
        Expression::FunctionLiteral { parameters, body } => Expression::FunctionLiteral {
            parameters: copy_identifiers(parameters),
            body: copy_program(body),
        },
        Expression::Call { function, arguments } => Expression::Call {
            function: Box::new(copy_expression(function)),
            arguments: copy_list(arguments),
        },
        Expression::StringLiteral(s) => Expression::StringLiteral(s.clone()),
        Expression::ArrayLiteral(v) => Expression::ArrayLiteral(copy_list(v)),
        Expression::IndexExpr { left, index } => Expression::IndexExpr {
            left: Box::new(copy_expression(left)),
            index: Box::new(copy_expression(index)),
        },
        Expression::HashLiteral(v) => Expression::HashLiteral(copy_pairs(v)),
    }
}

} // verus!
