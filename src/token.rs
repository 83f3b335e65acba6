use vstd::prelude::*;

verus! {

/// A lexical unit: what kind of token it is and where it stands in the source.
#[derive(Debug, Clone, PartialEq, Eq)]
pub struct Token {
    pub kind: TokenKind,
    pub span: Span,
}

impl Token {
    pub fn new(kind: TokenKind, start: usize, end: usize) -> (r: Token)
        ensures
            r.kind == kind,
            r.span == (Span { start, end }),
    {
        Token { kind, span: Span { start, end } }
    }
}

/// An inclusive range of character offsets into the source.
#[derive(Debug, Clone, Copy, PartialEq, Eq)]
pub struct Span {
    pub start: usize,
    pub end: usize,
}

#[derive(Debug, Clone, PartialEq, Eq)]
pub enum TokenKind {
    Illegal,
    Eof,
    /// A string literal whose closing quote never came.
    UnterminatedString,
    Ident(String),
    Int(String),
    String(String),
    Assign,
    Plus,
    Minus,
    Bang,
    Asterisk,
    Slash,
    LessThan,
    GreaterThan,
    Equal,
    NotEqual,
    Comma,
    Semicolon,
    Colon,
    LParen,
    RParen,
    LBrace,
    RBrace,
    LBracket,
    RBracket,
    Function,
    Let,
    True,
    False,
    If,
    Else,
    Return,
}

/// The keyword spelled by `s`, if it spells one.
pub open spec fn keyword_kind(s: Seq<char>) -> Option<TokenKind> {
    if s == "fn"@ {
        Some(TokenKind::Function)
    } else if s == "let"@ {
        Some(TokenKind::Let)
    } else if s == "true"@ {
        Some(TokenKind::True)
    } else if s == "false"@ {
        Some(TokenKind::False)
    } else if s == "if"@ {
        Some(TokenKind::If)
    } else if s == "else"@ {
        Some(TokenKind::Else)
    } else if s == "return"@ {
        Some(TokenKind::Return)
    } else {
        None
    }
}

/// Whether two strings hold the same characters.
pub fn str_eq(a: &str, b: &str) -> (r: bool)
    ensures
        r == (a@ == b@),
{
    let n = a.unicode_len();
    if n != b.unicode_len() {
        return false;
    }
    let mut i: usize = 0;
    while i < n
        invariant
            n == a@.len(),
            n == b@.len(),
            i <= n,
            a@.subrange(0, i as int) == b@.subrange(0, i as int),
        decreases n - i,
    {
        if a.get_char(i) != b.get_char(i) {
            return false;
        }
        assert(a@.subrange(0, i + 1) =~= a@.subrange(0, i as int).push(a@[i as int]));
        assert(b@.subrange(0, i + 1) =~= b@.subrange(0, i as int).push(b@[i as int]));
        i = i + 1;
    }
    assert(a@ =~= a@.subrange(0, n as int));
    assert(b@ =~= b@.subrange(0, n as int));
    true
}

/// The text a token of kind `k` is written with; for a literal, its text.
pub open spec fn kind_text(k: TokenKind) -> Seq<char> {
    match k {
        TokenKind::Illegal => "Illegal"@,
        TokenKind::Eof => "Eof"@,
        TokenKind::UnterminatedString => "UnterminatedString"@,
        TokenKind::Ident(x) => x@,
        TokenKind::Int(x) => x@,
        TokenKind::String(x) => x@,
        TokenKind::Assign => "="@,
        TokenKind::Plus => "+"@,
        TokenKind::Minus => "-"@,
        TokenKind::Bang => "!"@,
        TokenKind::Asterisk => "*"@,
        TokenKind::Slash => "/"@,
        TokenKind::LessThan => "<"@,
        TokenKind::GreaterThan => ">"@,
        TokenKind::Equal => "=="@,
        TokenKind::NotEqual => "!="@,
        TokenKind::Comma => ","@,
        TokenKind::Semicolon => ";"@,
        TokenKind::Colon => ":"@,
        TokenKind::LParen => "("@,
        TokenKind::RParen => ")"@,
        TokenKind::LBrace => "{"@,
        TokenKind::RBrace => "}"@,
        TokenKind::LBracket => "["@,
        TokenKind::RBracket => "]"@,
        TokenKind::Function => "fn"@,
        TokenKind::Let => "let"@,
        TokenKind::True => "true"@,
        TokenKind::False => "false"@,
        TokenKind::If => "if"@,
        TokenKind::Else => "else"@,
        TokenKind::Return => "return"@,
    }
}

impl TokenKind {
    pub fn to_string(&self) -> (r: String)
        ensures
            r@ == kind_text(*self),
    {
        match self {
            TokenKind::Ident(x) => x.clone(),
            TokenKind::Int(x) => x.clone(),
            TokenKind::String(x) => x.clone(),
            TokenKind::Illegal => String::from_str("Illegal"),
            TokenKind::Eof => String::from_str("Eof"),
            TokenKind::UnterminatedString => String::from_str("UnterminatedString"),
            TokenKind::Assign => String::from_str("="),
            TokenKind::Plus => String::from_str("+"),
            TokenKind::Minus => String::from_str("-"),
            TokenKind::Bang => String::from_str("!"),
            TokenKind::Asterisk => String::from_str("*"),
            TokenKind::Slash => String::from_str("/"),
            TokenKind::LessThan => String::from_str("<"),
            TokenKind::GreaterThan => String::from_str(">"),
            TokenKind::Equal => String::from_str("=="),
            TokenKind::NotEqual => String::from_str("!="),
            TokenKind::Comma => String::from_str(","),
            TokenKind::Semicolon => String::from_str(";"),
            TokenKind::Colon => String::from_str(":"),
            TokenKind::LParen => String::from_str("("),
            TokenKind::RParen => String::from_str(")"),
            TokenKind::LBrace => String::from_str("{"),
            TokenKind::RBrace => String::from_str("}"),
            TokenKind::LBracket => String::from_str("["),
            TokenKind::RBracket => String::from_str("]"),
            TokenKind::Function => String::from_str("fn"),
            TokenKind::Let => String::from_str("let"),
            TokenKind::True => String::from_str("true"),
            TokenKind::False => String::from_str("false"),
            TokenKind::If => String::from_str("if"),
            TokenKind::Else => String::from_str("else"),
            TokenKind::Return => String::from_str("return"),
        }
    }

    /// Turns an identifier that spells a keyword into that keyword; leaves
    /// every other kind as it is.
    pub fn lookup_ident(self) -> (r: TokenKind)
        ensures
            match self {
                TokenKind::Ident(s) => match keyword_kind(s@) {
                    Some(k) => r == k,
                    None => r == self,
                },
                _ => r == self,
            },
    {
        let k = match &self {
            TokenKind::Ident(ident) => {
                let s = ident.as_str();
                if str_eq(s, "fn") {
                    Some(TokenKind::Function)
                } else if str_eq(s, "let") {
                    Some(TokenKind::Let)
                } else if str_eq(s, "true") {
                    Some(TokenKind::True)
                } else if str_eq(s, "false") {
                    Some(TokenKind::False)
                } else if str_eq(s, "if") {
                    Some(TokenKind::If)
                } else if str_eq(s, "else") {
                    Some(TokenKind::Else)
                } else if str_eq(s, "return") {
                    Some(TokenKind::Return)
                } else {
                    None
                }
            },
            _ => None,
        };
        match k {
            Some(k) => k,
            None => self,
        }
    }
}

} // verus!
