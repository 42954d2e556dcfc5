use vstd::prelude::*;

verus! {

/// An inclusive range of byte offsets into the source text: `start` is the
/// offset of the first byte of a lexeme, `end` the offset of its last byte.
#[derive(Clone, Copy, Debug, PartialEq, Eq, Structural)]
pub struct Span {
    pub start: usize,
    pub end: usize,
}

/// The closed set of lexical categories.
#[derive(Clone, Debug, PartialEq, Eq)]
pub enum TokenKind {
    Plus,
    Minus,
    Asterisk,
    Slash,
    Modulo,
    Assign,
    Equal,
    NotEqual,
    Less,
    Greater,
    LessEqual,
    GreaterEqual,
    And,
    Or,
    LeftParen,
    RightParen,
    LeftBrace,
    RightBrace,
    Comma,
    Hashtag,
    DoubleQuote,
    Pipe,
    Semicolon,
    Function,
    Match,
    If,
    Else,
    Return,
    For,
    Break,
    Continue,
    True,
    False,
    Integer(i64),
    Identifier { name: String },
    Eof,
}

/// A classified lexeme together with where it stands in the source.
#[derive(Clone, Debug, PartialEq, Eq)]
pub struct Token {
    pub kind: TokenKind,
    pub span: Span,
}

/// Two kinds are the same category with the same payload; identifier names
/// are compared by their characters.
pub open spec fn same_kind(a: TokenKind, b: TokenKind) -> bool {
    match (a, b) {
        (TokenKind::Identifier { name: x }, TokenKind::Identifier { name: y }) => x@ == y@,
        _ => a == b,
    }
}

/// Two tokens agree in kind, payload and span.
pub open spec fn same_token(a: Token, b: Token) -> bool {
    same_kind(a.kind, b.kind) && a.span == b.span
}

pub open spec fn digit_char(d: nat) -> char {
    (48 + d) as char
}

/// The decimal digits of `n`, most significant first, without leading zeros.
pub open spec fn decimal(n: nat) -> Seq<char>
    decreases n,
{
    if n < 10 {
        seq![digit_char(n)]
    } else {
        decimal(n / 10).push(digit_char(n % 10))
    }
}

/// The decimal text of an integer, with a leading `-` when negative.
pub open spec fn int_text(v: int) -> Seq<char> {
    if v < 0 {
        seq!['-'] + decimal((-v) as nat)
    } else {
        decimal(v as nat)
    }
}

/// Relies on i64's `Display` through `to_string`: an optional minus sign
/// followed by the decimal digits, without leading zeros.
#[verifier::external_body]
pub(crate) fn i64_text(v: i64) -> (r: String)
    ensures
        r@ == int_text(v as int),
{
    v.to_string()
}

/// The source text that a token of kind `k` stands for (empty for the end
/// marker).
pub open spec fn token_text(k: TokenKind) -> Seq<char> {
    match k {
        TokenKind::Plus => "+"@,
        TokenKind::Minus => "-"@,
        TokenKind::Asterisk => "*"@,
        TokenKind::Slash => "/"@,
        TokenKind::Modulo => "%"@,
        TokenKind::Assign => "="@,
        TokenKind::Equal => "=="@,
        TokenKind::NotEqual => "!="@,
        TokenKind::Less => "<"@,
        TokenKind::Greater => ">"@,
        TokenKind::LessEqual => "<="@,
        TokenKind::GreaterEqual => ">="@,
        TokenKind::And => "&&"@,
        TokenKind::Or => "||"@,
        TokenKind::LeftParen => "("@,
        TokenKind::RightParen => ")"@,
        TokenKind::LeftBrace => "{"@,
        TokenKind::RightBrace => "}"@,
        TokenKind::Comma => ","@,
        TokenKind::Hashtag => "#"@,
        TokenKind::DoubleQuote => "\""@,
        TokenKind::Pipe => "|"@,
        TokenKind::Semicolon => ";"@,
        TokenKind::Function => "fn"@,
        TokenKind::Match => "match"@,
        TokenKind::If => "if"@,
        TokenKind::Else => "else"@,
        TokenKind::Return => "ret"@,
        TokenKind::For => "for"@,
        TokenKind::Break => "break"@,
        TokenKind::Continue => "continue"@,
        TokenKind::True => "true"@,
        TokenKind::False => "false"@,
        TokenKind::Integer(v) => int_text(v as int),
        TokenKind::Identifier { name } => name@,
        TokenKind::Eof => ""@,
    }
}

impl TokenKind {
    /// The source text this kind stands for.
    pub fn lexeme(&self) -> (r: String)
        ensures
            r@ == token_text(*self),
    {
        match self {
            TokenKind::Plus => "+".to_string(),
            TokenKind::Minus => "-".to_string(),
            TokenKind::Asterisk => "*".to_string(),
            TokenKind::Slash => "/".to_string(),
            TokenKind::Modulo => "%".to_string(),
            TokenKind::Assign => "=".to_string(),
            TokenKind::Equal => "==".to_string(),
            TokenKind::NotEqual => "!=".to_string(),
            TokenKind::Less => "<".to_string(),
            TokenKind::Greater => ">".to_string(),
            TokenKind::LessEqual => "<=".to_string(),
            TokenKind::GreaterEqual => ">=".to_string(),
            TokenKind::And => "&&".to_string(),
            TokenKind::Or => "||".to_string(),
            TokenKind::LeftParen => "(".to_string(),
            TokenKind::RightParen => ")".to_string(),
            TokenKind::LeftBrace => "{".to_string(),
            TokenKind::RightBrace => "}".to_string(),
            TokenKind::Comma => ",".to_string(),
            TokenKind::Hashtag => "#".to_string(),
            TokenKind::DoubleQuote => "\"".to_string(),
            TokenKind::Pipe => "|".to_string(),
            TokenKind::Semicolon => ";".to_string(),
            TokenKind::Function => "fn".to_string(),
            TokenKind::Match => "match".to_string(),
            TokenKind::If => "if".to_string(),
            TokenKind::Else => "else".to_string(),
            TokenKind::Return => "ret".to_string(),
            TokenKind::For => "for".to_string(),
            TokenKind::Break => "break".to_string(),
            TokenKind::Continue => "continue".to_string(),
            TokenKind::True => "true".to_string(),
            TokenKind::False => "false".to_string(),
            TokenKind::Integer(v) => i64_text(*v),
            TokenKind::Identifier { name } => name.clone(),
            TokenKind::Eof => "".to_string(),
        }
    }
}

impl Span {
    pub fn new(start: usize, end: usize) -> (r: Span)
        ensures
            r.start == start,
            r.end == end,
    {
        Span { start, end }
    }
}

impl Token {
    pub fn new(kind: TokenKind, span: Span) -> (r: Token)
        ensures
            r.kind == kind,
            r.span == span,
    {
        Token { kind, span }
    }

    /// Whether this is the end-of-input marker.
    pub fn is_eof(&self) -> (r: bool)
        ensures
            r == (self.kind is Eof),
    {
        match self.kind {
            TokenKind::Eof => true,
            _ => false,
        }
    }
}

} // verus!
