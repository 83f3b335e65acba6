use vstd::prelude::*;
use crate::token::{keyword_kind, Span, Token, TokenKind};

verus! {

pub open spec fn spec_is_letter(c: char) -> bool {
    ('a' <= c && c <= 'z') || ('A' <= c && c <= 'Z') || c == '_'
}

pub open spec fn spec_is_digit(c: char) -> bool {
    '0' <= c && c <= '9'
}

/// ASCII whitespace: space, tab, line feed, form feed, carriage return.
pub open spec fn spec_is_space(c: char) -> bool {
    c == ' ' || c == '\t' || c == '\n' || c == '\x0C' || c == '\r'
}

/// The first offset at or after `p` that is not whitespace.
pub open spec fn skip_spaces(s: Seq<char>, p: int) -> int
    decreases s.len() - p,
{
    if 0 <= p < s.len() && spec_is_space(s[p]) {
        skip_spaces(s, p + 1)
    } else {
        p
    }
}

/// The end of the run of letters (or of digits) that starts at `p`.
pub open spec fn run_end(s: Seq<char>, p: int, letters: bool) -> int
    decreases s.len() - p,
{
    if 0 <= p < s.len() && (if letters { spec_is_letter(s[p]) } else { spec_is_digit(s[p]) }) {
        run_end(s, p + 1, letters)
    } else {
        p
    }
}

/// The offset of the first `"` at or after `p`, or the length of `s` if none.
pub open spec fn quote_at_or_after(s: Seq<char>, p: int) -> int
    decreases s.len() - p,
{
    if 0 <= p < s.len() && s[p] != '"' {
        quote_at_or_after(s, p + 1)
    } else {
        p
    }
}

/// The kind of a token made of the single character `c`, if there is one.
pub open spec fn single_kind(c: char) -> Option<TokenKind> {
    if c == '=' {
        Some(TokenKind::Assign)
    } else if c == '+' {
        Some(TokenKind::Plus)
    } else if c == '-' {
        Some(TokenKind::Minus)
    } else if c == '!' {
        Some(TokenKind::Bang)
    } else if c == '/' {
        Some(TokenKind::Slash)
    } else if c == '*' {
        Some(TokenKind::Asterisk)
    } else if c == '<' {
        Some(TokenKind::LessThan)
    } else if c == '>' {
        Some(TokenKind::GreaterThan)
    } else if c == ';' {
        Some(TokenKind::Semicolon)
    } else if c == ':' {
        Some(TokenKind::Colon)
    } else if c == ',' {
        Some(TokenKind::Comma)
    } else if c == '(' {
        Some(TokenKind::LParen)
    } else if c == ')' {
        Some(TokenKind::RParen)
    } else if c == '{' {
        Some(TokenKind::LBrace)
    } else if c == '}' {
        Some(TokenKind::RBrace)
    } else if c == '[' {
        Some(TokenKind::LBracket)
    } else if c == ']' {
        Some(TokenKind::RBracket)
    } else {
        None
    }
}

/// `tok` is the token that starts after the whitespace at offset `p` of `s`,
/// and `q` is the offset just past it.
pub open spec fn lexed(s: Seq<char>, p: int, tok: Token, q: int) -> bool {
    let st = skip_spaces(s, p);
    if st >= s.len() {
        tok.kind == TokenKind::Eof && tok.span.start == s.len() && tok.span.end == s.len() && q
            == s.len()
    } else {
        let c = s[st];
        let two = st + 1 < s.len() && s[st + 1] == '=';
        if (c == '=' || c == '!') && two {
            tok.kind == (if c == '=' {
                TokenKind::Equal
            } else {
                TokenKind::NotEqual
            }) && tok.span.start == st && tok.span.end == st + 1 && q == st + 2
        } else if single_kind(c).is_some() {
            tok.kind == single_kind(c).unwrap() && tok.span.start == st && tok.span.end == st
                && q == st + 1
        } else if c == '"' {
            let close = quote_at_or_after(s, st + 1);
            if close < s.len() {
                (tok.kind matches TokenKind::String(t) && t@ == s.subrange(st + 1, close))
                    && tok.span.start == st && tok.span.end == close && q == close + 1
            } else {
                tok.kind == TokenKind::UnterminatedString && tok.span.start == st
                    && tok.span.end == s.len() - 1 && q == s.len()
            }
        } else if spec_is_letter(c) {
            let e = run_end(s, st, true);
            let word = s.subrange(st, e);
            (match keyword_kind(word) {
                Some(k) => tok.kind == k,
                None => tok.kind matches TokenKind::Ident(t) && t@ == word,
            }) && tok.span.start == st && tok.span.end == e - 1 && q == e
        } else if spec_is_digit(c) {
            let e = run_end(s, st, false);
            (tok.kind matches TokenKind::Int(t) && t@ == s.subrange(st, e)) && tok.span.start
                == st && tok.span.end == e - 1 && q == e
        } else {
            tok.kind == TokenKind::Illegal && tok.span.start == st && tok.span.end == st && q == st
                + 1
        }
    }
}

proof fn lemma_skip_spaces_bounds(s: Seq<char>, p: int)
    requires
        0 <= p <= s.len(),
    ensures
        p <= skip_spaces(s, p) <= s.len(),
        skip_spaces(s, p) < s.len() ==> !spec_is_space(s[skip_spaces(s, p)]),
    decreases s.len() - p,
{
    if p < s.len() && spec_is_space(s[p]) {
        lemma_skip_spaces_bounds(s, p + 1);
    }
}

proof fn lemma_run_end_bounds(s: Seq<char>, p: int, letters: bool)
    requires
        0 <= p <= s.len(),
    ensures
        p <= run_end(s, p, letters) <= s.len(),
    decreases s.len() - p,
{
    if p < s.len() && (if letters { spec_is_letter(s[p]) } else { spec_is_digit(s[p]) }) {
        lemma_run_end_bounds(s, p + 1, letters);
    }
}

proof fn lemma_quote_bounds(s: Seq<char>, p: int)
    requires
        0 <= p <= s.len(),
    ensures
        p <= quote_at_or_after(s, p) <= s.len(),
    decreases s.len() - p,
{
    if p < s.len() && s[p] != '"' {
        lemma_quote_bounds(s, p + 1);
    }
}

/// A token lexed at offset `p` ends at or after `p`, within the source, and
/// strictly after `p` unless it is `Eof`.
pub proof fn lemma_lexed_bounds(s: Seq<char>, p: int, t: Token, q: int)
    requires
        0 <= p <= s.len(),
        lexed(s, p, t, q),
    ensures
        p <= q <= s.len(),
        t.kind != TokenKind::Eof ==> p < q,
        t.kind == TokenKind::Eof ==> q == s.len(),
{
    lemma_skip_spaces_bounds(s, p);
    let st = skip_spaces(s, p);
    if st < s.len() {
        lemma_run_end_bounds(s, st + 1, true);
        lemma_run_end_bounds(s, st + 1, false);
        lemma_quote_bounds(s, st + 1);
    }
}

/// Two token kinds that are the same, literals compared by their text.
pub open spec fn same_kind(a: TokenKind, b: TokenKind) -> bool {
    match (a, b) {
        (TokenKind::Ident(x), TokenKind::Ident(y)) => x@ == y@,
        (TokenKind::Int(x), TokenKind::Int(y)) => x@ == y@,
        (TokenKind::String(x), TokenKind::String(y)) => x@ == y@,
        _ => a == b,
    }
}

/// Lexing is deterministic: at a given offset there is one token (up to the
/// storage of its text), with one span and one end.
pub proof fn lemma_lexed_unique(s: Seq<char>, p: int, t1: Token, q1: int, t2: Token, q2: int)
    requires
        lexed(s, p, t1, q1),
        lexed(s, p, t2, q2),
    ensures
        q1 == q2,
        t1.span == t2.span,
        same_kind(t1.kind, t2.kind),
{
}

/// Splits source text into tokens, one call of `next_token` at a time.
pub struct Lexer {
    input: String,
    len: usize,
    position: usize,
}

impl Lexer {
    /// The source text.
    pub closed spec fn source(&self) -> Seq<char> {
        self.input@
    }

    /// The offset of the next character not yet read.
    pub closed spec fn pos(&self) -> int {
        self.position as int
    }

    pub closed spec fn wf(&self) -> bool {
        &&& self.len == self.input@.len()
        &&& self.position <= self.len
    }

    pub proof fn lemma_wf(&self)
        requires
            self.wf(),
        ensures
            self.pos() <= self.source().len(),
    {
    }

    pub fn new(input: &str) -> (r: Lexer)
        ensures
            r.wf(),
            r.source() == input@,
            r.pos() == 0,
    {
        let input = String::from_str(input);
        let len = input.as_str().unicode_len();
        Lexer { input, len, position: 0 }
    }

    pub fn source_code(&self) -> (r: &str)
        ensures
            r@ == self.source(),
    {
        self.input.as_str()
    }

    /// The character at offset `at`, if the source reaches that far.
    fn peek_char(&self, at: usize) -> (r: Option<char>)
        requires
            self.wf(),
        ensures
            at < self.source().len() ==> r == Some(self.source()[at as int]),
            at >= self.source().len() ==> r.is_none(),
    {
        if at < self.len {
            Some(self.input.as_str().get_char(at))
        } else {
            None
        }
    }

    fn read_char(&mut self)
        requires
            old(self).wf(),
            old(self).pos() < old(self).source().len(),
        ensures
            final(self).wf(),
            final(self).source() == old(self).source(),
            final(self).pos() == old(self).pos() + 1,
    {
        self.position = self.position + 1;
    }

    fn skip_whitespace(&mut self)
        requires
            old(self).wf(),
        ensures
            final(self).wf(),
            final(self).source() == old(self).source(),
            final(self).pos() == skip_spaces(old(self).source(), old(self).pos()),
    {
        proof {
            lemma_skip_spaces_bounds(self.source(), self.pos());
        }
        loop
            invariant
                self.wf(),
                self.source() == old(self).source(),
                skip_spaces(self.source(), self.pos()) == skip_spaces(
                    old(self).source(),
                    old(self).pos(),
                ),
            decreases self.len - self.position,
        {
            match self.peek_char(self.position) {
                Some(c) => {
                    if is_whitespace(c) {
                        self.read_char();
                    } else {
                        return;
                    }
                },
                None => {
                    return;
                },
            }
        }
    }

    /// Reads the run of letters (or digits) that starts at the current
    /// offset; returns its text and its inclusive span.
    fn read_run(&mut self, letters: bool) -> (r: (String, Span))
        requires
            old(self).wf(),
            old(self).pos() < old(self).source().len(),
            letters ==> spec_is_letter(old(self).source()[old(self).pos()]),
            !letters ==> spec_is_digit(old(self).source()[old(self).pos()]),
        ensures
            final(self).wf(),
            final(self).source() == old(self).source(),
            final(self).pos() == run_end(old(self).source(), old(self).pos(), letters),
            r.0@ == old(self).source().subrange(old(self).pos(), final(self).pos()),
            r.1.start == old(self).pos(),
            r.1.end == final(self).pos() - 1,
            final(self).pos() > old(self).pos(),
    {
        let start = self.position;
        self.read_char();
        loop
            invariant
                self.wf(),
                self.source() == old(self).source(),
                start == old(self).pos(),
                start < self.position,
                run_end(self.source(), self.pos(), letters) == run_end(
                    old(self).source(),
                    start as int,
                    letters,
                ),
            ensures
                run_end(self.source(), self.pos(), letters) == self.pos(),
            decreases self.len - self.position,
        {
            match self.peek_char(self.position) {
                Some(c) => {
                    let more = if letters {
                        is_letter(c)
                    } else {
                        is_digit(c)
                    };
                    if more {
                        self.read_char();
                    } else {
                        assert(run_end(self.source(), self.pos(), letters) == self.pos());
                        break ;
                    }
                },
                None => {
                    assert(run_end(self.source(), self.pos(), letters) == self.pos());
                    break ;
                },
            }
        }
        let text = String::from_str(self.input.as_str().substring_char(start, self.position));
        (text, Span { start, end: self.position - 1 })
    }

    /// Reads a string literal whose opening quote is at the current offset.
    /// Returns its contents (`None` when no closing quote comes) and its
    /// inclusive span, from the opening quote to the closing one.
    fn read_string(&mut self) -> (r: (Option<String>, Span))
        requires
            old(self).wf(),
            old(self).pos() < old(self).source().len(),
        ensures
            final(self).wf(),
            final(self).source() == old(self).source(),
            final(self).pos() > old(self).pos(),
            ({
                let s = old(self).source();
                let st = old(self).pos();
                let close = quote_at_or_after(s, st + 1);
                &&& r.1.start == st
                &&& close < s.len() ==> {
                    &&& r.0 matches Some(t) && t@ == s.subrange(st + 1, close)
                    &&& r.1.end == close
                    &&& final(self).pos() == close + 1
                }
                &&& close >= s.len() ==> {
                    &&& r.0.is_none()
                    &&& r.1.end == s.len() - 1
                    &&& final(self).pos() == s.len()
                }
            }),
    {
        let start = self.position;
        self.read_char();
        loop
            invariant
                self.wf(),
                self.source() == old(self).source(),
                start == old(self).pos(),
                start < self.position,
                quote_at_or_after(self.source(), self.pos()) == quote_at_or_after(
                    self.source(),
                    start + 1,
                ),
            decreases self.len - self.position,
        {
            match self.peek_char(self.position) {
                Some(c) => {
                    if c == '"' {
                        let text = String::from_str(
                            self.input.as_str().substring_char(start + 1, self.position),
                        );
                        let end = self.position;
                        self.read_char();
                        return (Some(text), Span { start, end });
                    }
                    self.read_char();
                },
                None => {
                    return (None, Span { start, end: self.len - 1 });
                },
            }
        }
    }

    /// Reads the next token. After the end of the source every call gives
    /// `Eof`.
    pub fn next_token(&mut self) -> (tok: Token)
        requires
            old(self).wf(),
        ensures
            final(self).wf(),
            final(self).source() == old(self).source(),
            lexed(old(self).source(), old(self).pos(), tok, final(self).pos()),
            old(self).pos() <= final(self).pos(),
            final(self).pos() <= final(self).source().len(),
            tok.kind != TokenKind::Eof ==> old(self).pos() < final(self).pos(),
            tok.kind == TokenKind::Eof <==> final(self).pos() == final(self).source().len()
                && skip_spaces(old(self).source(), old(self).pos()) >= old(self).source().len(),
    {
        self.skip_whitespace();
        proof {
            lemma_skip_spaces_bounds(self.source(), old(self).pos());
        }
        let st = self.position;
        let c = match self.peek_char(st) {
            Some(c) => c,
            None => {
                return Token::new(TokenKind::Eof, self.len, self.len);
            },
        };
        let next = self.peek_char(st + 1);
        if (c == '=' || c == '!') && next == Some('=') {
            self.read_char();
            self.read_char();
            let kind = if c == '=' {
                TokenKind::Equal
            } else {
                TokenKind::NotEqual
            };
            return Token::new(kind, st, st + 1);
        }
        match single_char_kind(c) {
            Some(kind) => {
                self.read_char();
                return Token::new(kind, st, st);
            },
            None => {},
        }
        if c == '"' {
            proof {
                lemma_quote_bounds(self.source(), st + 1);
            }
            let (text, span) = self.read_string();
            match text {
                Some(t) => Token::new(TokenKind::String(t), span.start, span.end),
                None => Token::new(TokenKind::UnterminatedString, span.start, span.end),
            }
        } else if is_letter(c) {
            proof {
                lemma_run_end_bounds(self.source(), st as int, true);
            }
            let (word, span) = self.read_run(true);
            Token::new(TokenKind::Ident(word).lookup_ident(), span.start, span.end)
        } else if is_digit(c) {
            proof {
                lemma_run_end_bounds(self.source(), st as int, false);
            }
            let (digits, span) = self.read_run(false);
            Token::new(TokenKind::Int(digits), span.start, span.end)
        } else {
            self.read_char();
            Token::new(TokenKind::Illegal, st, st)
        }
    }
}

fn single_char_kind(c: char) -> (r: Option<TokenKind>)
    ensures
        r == single_kind(c),
{
    match c {
        '=' => Some(TokenKind::Assign),
        '+' => Some(TokenKind::Plus),
        '-' => Some(TokenKind::Minus),
        '!' => Some(TokenKind::Bang),
        '/' => Some(TokenKind::Slash),
        '*' => Some(TokenKind::Asterisk),
        '<' => Some(TokenKind::LessThan),
        '>' => Some(TokenKind::GreaterThan),
        ';' => Some(TokenKind::Semicolon),
        ':' => Some(TokenKind::Colon),
        ',' => Some(TokenKind::Comma),
        '(' => Some(TokenKind::LParen),
        ')' => Some(TokenKind::RParen),
        '{' => Some(TokenKind::LBrace),
        '}' => Some(TokenKind::RBrace),
        '[' => Some(TokenKind::LBracket),
        ']' => Some(TokenKind::RBracket),
        _ => None,
    }
}

fn is_whitespace(c: char) -> (r: bool)
    ensures
        r == spec_is_space(c),
{
    c == ' ' || c == '\t' || c == '\n' || c == '\x0C' || c == '\r'
}

fn is_letter(character: char) -> (r: bool)
    ensures
        r == spec_is_letter(character),
{
    ('a' <= character && character <= 'z') || ('A' <= character && character <= 'Z')
        || character == '_'
}

fn is_digit(character: char) -> (r: bool)
    ensures
        r == spec_is_digit(character),
{
    '0' <= character && character <= '9'
}

} // verus!
