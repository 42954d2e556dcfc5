use vstd::prelude::*;
use crate::token::{Span, Token, TokenKind, same_token};

verus! {

/// Why scanning stopped: the offset of the offending lexeme and what it holds.
#[derive(Clone, Copy, Debug, PartialEq, Eq, Structural)]
pub enum LexError {
    /// A byte that begins no lexeme (a lone `!` or `&`, or anything outside
    /// the language's alphabet).
    UnrecognizedCharacter { offset: usize, byte: u8 },
    /// A run of digits whose value exceeds `i64::MAX`.
    NumericOverflow { offset: usize },
}

pub open spec fn is_space(b: u8) -> bool {
    b == 32 || b == 9 || b == 10 || b == 13
}

pub open spec fn is_digit(b: u8) -> bool {
    48 <= b <= 57
}

/// A byte that may begin an identifier or keyword: an ASCII letter or `_`.
pub open spec fn is_word_start(b: u8) -> bool {
    (65 <= b <= 90) || (97 <= b <= 122) || b == 95
}

pub open spec fn is_word_byte(b: u8) -> bool {
    is_word_start(b) || is_digit(b)
}

pub open spec fn starts_comment(s: Seq<u8>, i: int) -> bool {
    0 <= i && i + 1 < s.len() && s[i] == 47 && s[i + 1] == 47
}

/// Where the next lexeme begins when scanning resumes at `i`: whitespace is
/// skipped, and a `//` comment up to and including the end of its line.
pub open spec fn skip_from(s: Seq<u8>, i: int, in_comment: bool) -> int
    decreases s.len() - i,
{
    if i < 0 || i >= s.len() {
        i
    } else if in_comment {
        skip_from(s, i + 1, s[i] != 10)
    } else if is_space(s[i]) {
        skip_from(s, i + 1, false)
    } else if starts_comment(s, i) {
        skip_from(s, i + 2, true)
    } else {
        i
    }
}

/// The end (exclusive) of the maximal run of identifier bytes from `i`.
pub open spec fn word_end(s: Seq<u8>, i: int) -> int
    decreases s.len() - i,
{
    if 0 <= i < s.len() && is_word_byte(s[i]) {
        word_end(s, i + 1)
    } else {
        i
    }
}

/// The end (exclusive) of the maximal run of decimal digits from `i`.
pub open spec fn digits_end(s: Seq<u8>, i: int) -> int
    decreases s.len() - i,
{
    if 0 <= i < s.len() && is_digit(s[i]) {
        digits_end(s, i + 1)
    } else {
        i
    }
}

/// The decimal value of a run of digit bytes.
pub open spec fn digits_value(d: Seq<u8>) -> int
    decreases d.len(),
{
    if d.len() == 0 {
        0
    } else {
        digits_value(d.drop_last()) * 10 + (d.last() - 48)
    }
}

/// The text of ASCII bytes as characters.
pub open spec fn ascii_text(w: Seq<u8>) -> Seq<char> {
    w.map_values(|b: u8| b as char)
}

/// The keyword table: `fn match if else ret for break continue true false`.
pub open spec fn keyword(w: Seq<u8>) -> Option<TokenKind> {
    if w == seq![102u8, 110] {
        Some(TokenKind::Function)
    } else if w == seq![109u8, 97, 116, 99, 104] {
        Some(TokenKind::Match)
    } else if w == seq![105u8, 102] {
        Some(TokenKind::If)
    } else if w == seq![101u8, 108, 115, 101] {
        Some(TokenKind::Else)
    } else if w == seq![114u8, 101, 116] {
        Some(TokenKind::Return)
    } else if w == seq![102u8, 111, 114] {
        Some(TokenKind::For)
    } else if w == seq![98u8, 114, 101, 97, 107] {
        Some(TokenKind::Break)
    } else if w == seq![99u8, 111, 110, 116, 105, 110, 117, 101] {
        Some(TokenKind::Continue)
    } else if w == seq![116u8, 114, 117, 101] {
        Some(TokenKind::True)
    } else if w == seq![102u8, 97, 108, 115, 101] {
        Some(TokenKind::False)
    } else {
        None
    }
}

/// The kind a word lexes to: its keyword, or else an identifier named by it.
pub open spec fn word_kind_is(w: Seq<u8>, k: TokenKind) -> bool {
    match keyword(w) {
        Some(kw) => k == kw,
        None => k is Identifier && k->name@ == ascii_text(w),
    }
}

/// The operator or punctuation token at `i` and its length in bytes, the
/// longest match first; `None` where no operator begins at `i`.
pub open spec fn punct(s: Seq<u8>, i: int) -> Option<(TokenKind, int)> {
    let b = s[i];
    let two = i + 1 < s.len();
    if b == 61 {
        if two && s[i + 1] == 61 { Some((TokenKind::Equal, 2)) } else { Some((TokenKind::Assign, 1)) }
    } else if b == 33 {
        if two && s[i + 1] == 61 { Some((TokenKind::NotEqual, 2)) } else { None }
    } else if b == 60 {
        if two && s[i + 1] == 61 { Some((TokenKind::LessEqual, 2)) } else { Some((TokenKind::Less, 1)) }
    } else if b == 62 {
        if two && s[i + 1] == 61 { Some((TokenKind::GreaterEqual, 2)) } else { Some((TokenKind::Greater, 1)) }
    } else if b == 38 {
        if two && s[i + 1] == 38 { Some((TokenKind::And, 2)) } else { None }
    } else if b == 124 {
        if two && s[i + 1] == 124 { Some((TokenKind::Or, 2)) } else { Some((TokenKind::Pipe, 1)) }
    } else if b == 43 {
        Some((TokenKind::Plus, 1))
    } else if b == 45 {
        Some((TokenKind::Minus, 1))
    } else if b == 42 {
        Some((TokenKind::Asterisk, 1))
    } else if b == 47 {
        Some((TokenKind::Slash, 1))
    } else if b == 37 {
        Some((TokenKind::Modulo, 1))
    } else if b == 40 {
        Some((TokenKind::LeftParen, 1))
    } else if b == 41 {
        Some((TokenKind::RightParen, 1))
    } else if b == 123 {
        Some((TokenKind::LeftBrace, 1))
    } else if b == 125 {
        Some((TokenKind::RightBrace, 1))
    } else if b == 44 {
        Some((TokenKind::Comma, 1))
    } else if b == 35 {
        Some((TokenKind::Hashtag, 1))
    } else if b == 34 {
        Some((TokenKind::DoubleQuote, 1))
    } else if b == 59 {
        Some((TokenKind::Semicolon, 1))
    } else {
        None
    }
}

/// The token (or error) that one scanning step from `pos` over `s` yields,
/// and the position `next` at which the following step resumes.
pub open spec fn step(s: Seq<u8>, pos: int, r: Result<Token, LexError>, next: int) -> bool {
    let p = skip_from(s, pos, false);
    if p >= s.len() {
        r == Ok::<Token, LexError>(Token {
            kind: TokenKind::Eof,
            span: Span { start: s.len() as usize, end: s.len() as usize },
        }) && next == s.len()
    } else if is_word_start(s[p]) {
        let e = word_end(s, p);
        &&& r is Ok
        &&& word_kind_is(s.subrange(p, e), r->Ok_0.kind)
        &&& r->Ok_0.span == Span { start: p as usize, end: (e - 1) as usize }
        &&& next == e
    } else if is_digit(s[p]) {
        let e = digits_end(s, p);
        let v = digits_value(s.subrange(p, e));
        if v <= i64::MAX {
            r == Ok::<Token, LexError>(Token {
                kind: TokenKind::Integer(v as i64),
                span: Span { start: p as usize, end: (e - 1) as usize },
            }) && next == e
        } else {
            r == Err::<Token, LexError>(LexError::NumericOverflow { offset: p as usize }) && next == p
        }
    } else {
        match punct(s, p) {
            Some((k, l)) => r == Ok::<Token, LexError>(Token {
                kind: k,
                span: Span { start: p as usize, end: (p + l - 1) as usize },
            }) && next == p + l,
            None => r == Err::<Token, LexError>(
                LexError::UnrecognizedCharacter { offset: p as usize, byte: s[p] },
            ) && next == p,
        }
    }
}


/// The end-of-input marker of `s`: its span sits at the offset just past the
/// last byte.
pub open spec fn end_marker(s: Seq<u8>) -> Token {
    Token { kind: TokenKind::Eof, span: Span { start: s.len() as usize, end: s.len() as usize } }
}

/// `toks` are the tokens that successive steps from `pos` yield, none of them
/// the end marker; each step resumes just past the previous token.
pub open spec fn scan_run(s: Seq<u8>, pos: int, toks: Seq<Token>) -> bool
    decreases toks.len(),
{
    if toks.len() == 0 {
        true
    } else {
        &&& step(s, pos, Ok(toks[0]), toks[0].span.end + 1)
        &&& !(toks[0].kind is Eof)
        &&& scan_run(s, toks[0].span.end + 1, toks.drop_first())
    }
}

/// The position at which scanning resumes after the run `toks` from `pos`.
pub open spec fn run_end(pos: int, toks: Seq<Token>) -> int {
    if toks.len() == 0 {
        pos
    } else {
        toks.last().span.end + 1
    }
}

/// `toks` are all the tokens from `pos` to the end of input.
pub open spec fn complete_scan(s: Seq<u8>, pos: int, toks: Seq<Token>) -> bool {
    scan_run(s, pos, toks) && step(s, run_end(pos, toks), Ok(end_marker(s)), s.len() as int)
}

pub proof fn lemma_skip_bounds(s: Seq<u8>, i: int, in_comment: bool)
    requires
        0 <= i <= s.len(),
    ensures
        i <= skip_from(s, i, in_comment) <= s.len(),
    decreases s.len() - i,
{
    if i < s.len() {
        if in_comment {
            lemma_skip_bounds(s, i + 1, s[i] != 10);
        } else if is_space(s[i]) {
            lemma_skip_bounds(s, i + 1, false);
        } else if starts_comment(s, i) {
            lemma_skip_bounds(s, i + 2, true);
        }
    }
}

proof fn lemma_word_end_bounds(s: Seq<u8>, i: int)
    requires
        0 <= i <= s.len(),
    ensures
        i <= word_end(s, i) <= s.len(),
    decreases s.len() - i,
{
    if i < s.len() && is_word_byte(s[i]) {
        lemma_word_end_bounds(s, i + 1);
    }
}

proof fn lemma_digits_end_bounds(s: Seq<u8>, i: int)
    requires
        0 <= i <= s.len(),
    ensures
        i <= digits_end(s, i) <= s.len(),
    decreases s.len() - i,
{
    if i < s.len() && is_digit(s[i]) {
        lemma_digits_end_bounds(s, i + 1);
    }
}

proof fn lemma_digits_value_nonneg(d: Seq<u8>)
    requires
        forall|k: int| 0 <= k < d.len() ==> is_digit(#[trigger] d[k]),
    ensures
        digits_value(d) >= 0,
    decreases d.len(),
{
    if d.len() > 0 {
        lemma_digits_value_nonneg(d.drop_last());
    }
}

/// Extending a run of digits never lowers its value.
proof fn lemma_digits_value_grows(s: Seq<u8>, p: int, i: int, e: int)
    requires
        0 <= p <= i <= e <= s.len(),
        forall|k: int| p <= k < e ==> is_digit(#[trigger] s[k]),
    ensures
        digits_value(s.subrange(p, i)) <= digits_value(s.subrange(p, e)),
    decreases e - i,
{
    if i < e {
        lemma_digits_value_grows(s, p, i, e - 1);
        assert(s.subrange(p, e).drop_last() =~= s.subrange(p, e - 1));
        lemma_digits_value_nonneg(s.subrange(p, e - 1));
    }
}

/// Relies on String::push: the character is appended at the end.
#[verifier::external_body]
fn push_char(s: &mut String, c: char)
    ensures
        final(s)@ == old(s)@.push(c),
{
    s.push(c)
}

fn skip_trivia(s: &Vec<u8>, pos: usize) -> (p: usize)
    requires
        pos <= s@.len(),
    ensures
        p == skip_from(s@, pos as int, false),
        pos <= p <= s@.len(),
{
    let mut i: usize = pos;
    let mut in_comment = false;
    while i < s.len()
        invariant
            pos <= i <= s@.len(),
            skip_from(s@, i as int, in_comment) == skip_from(s@, pos as int, false),
        decreases s@.len() - i,
    {
        let b = s[i];
        if in_comment {
            in_comment = b != 10;
            i = i + 1;
        } else if b == 32 || b == 9 || b == 10 || b == 13 {
            i = i + 1;
        } else if b == 47 && i + 1 < s.len() && s[i + 1] == 47 {
            in_comment = true;
            i = i + 2;
        } else {
            return i;
        }
    }
    i
}

fn scan_word(s: &Vec<u8>, p: usize) -> (e: usize)
    requires
        p <= s@.len(),
    ensures
        e == word_end(s@, p as int),
        p <= e <= s@.len(),
{
    let mut i: usize = p;
    while i < s.len() && (is_word_start_byte(s[i]) || is_digit_byte(s[i]))
        invariant
            p <= i <= s@.len(),
            word_end(s@, i as int) == word_end(s@, p as int),
        decreases s@.len() - i,
    {
        i = i + 1;
    }
    i
}

fn scan_digits(s: &Vec<u8>, p: usize) -> (e: usize)
    requires
        p <= s@.len(),
    ensures
        e == digits_end(s@, p as int),
        p <= e <= s@.len(),
        forall|k: int| p <= k < e ==> is_digit(#[trigger] s@[k]),
{
    let mut i: usize = p;
    while i < s.len() && is_digit_byte(s[i])
        invariant
            p <= i <= s@.len(),
            digits_end(s@, i as int) == digits_end(s@, p as int),
            forall|k: int| p <= k < i ==> is_digit(#[trigger] s@[k]),
        decreases s@.len() - i,
    {
        i = i + 1;
    }
    i
}

fn is_digit_byte(b: u8) -> (r: bool)
    ensures
        r == is_digit(b),
{
    48 <= b && b <= 57
}

fn is_word_start_byte(b: u8) -> (r: bool)
    ensures
        r == is_word_start(b),
{
    (65 <= b && b <= 90) || (97 <= b && b <= 122) || b == 95
}

/// The value of the digits `s[p..e]`, or `None` where it exceeds `i64::MAX`.
fn digits_to_i64(s: &Vec<u8>, p: usize, e: usize) -> (r: Option<i64>)
    requires
        p <= e <= s@.len(),
        forall|k: int| p <= k < e ==> is_digit(#[trigger] s@[k]),
    ensures
        r is Some <==> digits_value(s@.subrange(p as int, e as int)) <= i64::MAX,
        r is Some ==> r->0 == digits_value(s@.subrange(p as int, e as int)),
{
    let mut acc: i64 = 0;
    let mut i: usize = p;
    assert(s@.subrange(p as int, p as int) =~= Seq::<u8>::empty());
    while i < e
        invariant
            p <= i <= e <= s@.len(),
            forall|k: int| p <= k < e ==> is_digit(#[trigger] s@[k]),
            acc as int == digits_value(s@.subrange(p as int, i as int)),
            acc >= 0,
        decreases e - i,
    {
        let d = (s[i] - 48) as i64;
        assert(s@.subrange(p as int, i + 1).drop_last() =~= s@.subrange(p as int, i as int));
        if acc > (i64::MAX - d) / 10 {
            assert(acc * 10 + d > i64::MAX) by (nonlinear_arith)
                requires
                    acc > (i64::MAX - d) / 10,
                    0 <= d <= 9,
            ;
            proof {
                lemma_digits_value_grows(s@, p as int, i + 1, e as int);
            }
            return None;
        }
        assert(acc * 10 + d <= i64::MAX) by (nonlinear_arith)
            requires
                acc <= (i64::MAX - d) / 10,
                0 <= d <= 9,
        ;
        acc = acc * 10 + d;
        i = i + 1;
    }
    Some(acc)
}

/// Whether the bytes `s[p..e]` are exactly `w`.
fn bytes_equal(s: &Vec<u8>, p: usize, e: usize, w: &Vec<u8>) -> (r: bool)
    requires
        p <= e <= s@.len(),
    ensures
        r == (s@.subrange(p as int, e as int) == w@),
{
    if e - p != w.len() {
        return false;
    }
    let mut k: usize = 0;
    while k < w.len()
        invariant
            e - p == w@.len(),
            p <= e <= s@.len(),
            0 <= k <= w@.len(),
            forall|j: int| 0 <= j < k ==> s@[p + j] == w@[j],
        decreases w@.len() - k,
    {
        if s[p + k] != w[k] {
            assert(s@.subrange(p as int, e as int)[k as int] != w@[k as int]);
            return false;
        }
        k = k + 1;
    }
    assert(s@.subrange(p as int, e as int) =~= w@);
    true
}

fn keyword_at(s: &Vec<u8>, p: usize, e: usize) -> (r: Option<TokenKind>)
    requires
        p <= e <= s@.len(),
    ensures
        r == keyword(s@.subrange(p as int, e as int)),
{
    if bytes_equal(s, p, e, &vec![102u8, 110]) {
        Some(TokenKind::Function)
    } else if bytes_equal(s, p, e, &vec![109u8, 97, 116, 99, 104]) {
        Some(TokenKind::Match)
    } else if bytes_equal(s, p, e, &vec![105u8, 102]) {
        Some(TokenKind::If)
    } else if bytes_equal(s, p, e, &vec![101u8, 108, 115, 101]) {
        Some(TokenKind::Else)
    } else if bytes_equal(s, p, e, &vec![114u8, 101, 116]) {
        Some(TokenKind::Return)
    } else if bytes_equal(s, p, e, &vec![102u8, 111, 114]) {
        Some(TokenKind::For)
    } else if bytes_equal(s, p, e, &vec![98u8, 114, 101, 97, 107]) {
        Some(TokenKind::Break)
    } else if bytes_equal(s, p, e, &vec![99u8, 111, 110, 116, 105, 110, 117, 101]) {
        Some(TokenKind::Continue)
    } else if bytes_equal(s, p, e, &vec![116u8, 114, 117, 101]) {
        Some(TokenKind::True)
    } else if bytes_equal(s, p, e, &vec![102u8, 97, 108, 115, 101]) {
        Some(TokenKind::False)
    } else {
        None
    }
}

/// The characters of the ASCII bytes `s[p..e]` as a string.
fn ascii_string(s: &Vec<u8>, p: usize, e: usize) -> (r: String)
    requires
        p <= e <= s@.len(),
    ensures
        r@ == ascii_text(s@.subrange(p as int, e as int)),
{
    let mut r = String::new();
    let mut i: usize = p;
    assert(ascii_text(s@.subrange(p as int, p as int)) =~= Seq::<char>::empty());
    while i < e
        invariant
            p <= i <= e <= s@.len(),
            r@ == ascii_text(s@.subrange(p as int, i as int)),
        decreases e - i,
    {
        let c = s[i] as char;
        push_char(&mut r, c);
        assert(ascii_text(s@.subrange(p as int, i + 1)) =~= ascii_text(
            s@.subrange(p as int, i as int),
        ).push(s@[i as int] as char));
        i = i + 1;
    }
    r
}

fn punct_at(s: &Vec<u8>, i: usize) -> (r: Option<(TokenKind, usize)>)
    requires
        i < s@.len(),
    ensures
        match punct(s@, i as int) {
            Some((k, l)) => r == Some((k, l as usize)),
            None => r is None,
        },
{
    let b = s[i];
    let next: u8 = if i < s.len() - 1 { s[i + 1] } else { 0 };
    if b == 61 {
        if next == 61 { Some((TokenKind::Equal, 2)) } else { Some((TokenKind::Assign, 1)) }
    } else if b == 33 {
        if next == 61 { Some((TokenKind::NotEqual, 2)) } else { None }
    } else if b == 60 {
        if next == 61 { Some((TokenKind::LessEqual, 2)) } else { Some((TokenKind::Less, 1)) }
    } else if b == 62 {
        if next == 61 { Some((TokenKind::GreaterEqual, 2)) } else { Some((TokenKind::Greater, 1)) }
    } else if b == 38 {
        if next == 38 { Some((TokenKind::And, 2)) } else { None }
    } else if b == 124 {
        if next == 124 { Some((TokenKind::Or, 2)) } else { Some((TokenKind::Pipe, 1)) }
    } else if b == 43 {
        Some((TokenKind::Plus, 1))
    } else if b == 45 {
        Some((TokenKind::Minus, 1))
    } else if b == 42 {
        Some((TokenKind::Asterisk, 1))
    } else if b == 47 {
        Some((TokenKind::Slash, 1))
    } else if b == 37 {
        Some((TokenKind::Modulo, 1))
    } else if b == 40 {
        Some((TokenKind::LeftParen, 1))
    } else if b == 41 {
        Some((TokenKind::RightParen, 1))
    } else if b == 123 {
        Some((TokenKind::LeftBrace, 1))
    } else if b == 125 {
        Some((TokenKind::RightBrace, 1))
    } else if b == 44 {
        Some((TokenKind::Comma, 1))
    } else if b == 35 {
        Some((TokenKind::Hashtag, 1))
    } else if b == 34 {
        Some((TokenKind::DoubleQuote, 1))
    } else if b == 59 {
        Some((TokenKind::Semicolon, 1))
    } else {
        None
    }
}

/// A single-pass scanner over the bytes of a source text. Each call of
/// `next_token` consumes one lexeme; once the input is exhausted it keeps
/// returning the end-of-input marker.
pub struct Lexer {
    source: Vec<u8>,
    pos: usize,
}

impl Lexer {
    /// The bytes being scanned.
    pub closed spec fn bytes(&self) -> Seq<u8> {
        self.source@
    }

    /// The offset at which the next scanning step begins.
    pub closed spec fn position(&self) -> int {
        self.pos as int
    }

    pub open spec fn wf(&self) -> bool {
        0 <= self.position() <= self.bytes().len() <= usize::MAX
    }

    /// A lexer positioned at the start of `source`, scanning its UTF-8 bytes.
    pub fn new(source: String) -> (r: Lexer)
        ensures
            r.wf(),
            r.bytes() == vstd::utf8::encode_utf8(source@),
            r.position() == 0,
    {
        let bytes = source.as_str().as_bytes();
        let v = vstd::slice::slice_to_vec(bytes);
        // The length of a Vec fits in usize.
        let n: usize = v.len();
        assert(v@.len() == n);
        Lexer { source: v, pos: 0 }
    }

    /// Scans one lexeme: skips whitespace and `//` comments, then returns the
    /// token that begins there (the end-of-input marker where nothing is
    /// left), or the error that stops scanning there. On an error the
    /// position stays at the offending lexeme.
    pub fn next_token(&mut self) -> (r: Result<Token, LexError>)
        requires
            old(self).wf(),
        ensures
            final(self).wf(),
            final(self).bytes() == old(self).bytes(),
            step(old(self).bytes(), old(self).position(), r, final(self).position()),
    {
        let n = self.source.len();
        let p = skip_trivia(&self.source, self.pos);
        if p >= n {
            self.pos = n;
            return Ok(Token { kind: TokenKind::Eof, span: Span { start: n, end: n } });
        }
        let b = self.source[p];
        if is_word_start_byte(b) {
            let e = scan_word(&self.source, p);
            proof {
                assert(is_word_byte(self.source@[p as int]));
                assert(word_end(self.source@, p as int) == word_end(self.source@, p + 1));
                lemma_word_end_bounds(self.source@, p + 1);
            }
            let kind = match keyword_at(&self.source, p, e) {
                Some(k) => k,
                None => TokenKind::Identifier { name: ascii_string(&self.source, p, e) },
            };
            self.pos = e;
            Ok(Token { kind, span: Span { start: p, end: e - 1 } })
        } else if is_digit_byte(b) {
            let e = scan_digits(&self.source, p);
            proof {
                assert(digits_end(self.source@, p as int) == digits_end(self.source@, p + 1));
                lemma_digits_end_bounds(self.source@, p + 1);
            }
            match digits_to_i64(&self.source, p, e) {
                Some(v) => {
                    self.pos = e;
                    Ok(Token { kind: TokenKind::Integer(v), span: Span { start: p, end: e - 1 } })
                },
                None => {
                    self.pos = p;
                    Err(LexError::NumericOverflow { offset: p })
                },
            }
        } else {
            match punct_at(&self.source, p) {
                Some((k, l)) => {
                    self.pos = p + l;
                    Ok(Token { kind: k, span: Span { start: p, end: p + l - 1 } })
                },
                None => {
                    self.pos = p;
                    Err(LexError::UnrecognizedCharacter { offset: p, byte: b })
                },
            }
        }
    }

    /// Moves past one byte (none at the end of input), so that a caller can
    /// resume scanning after an error.
    pub fn skip_byte(&mut self)
        requires
            old(self).wf(),
        ensures
            final(self).wf(),
            final(self).bytes() == old(self).bytes(),
            final(self).position() == if old(self).position() < old(self).bytes().len() {
                old(self).position() + 1
            } else {
                old(self).position()
            },
    {
        if self.pos < self.source.len() {
            self.pos = self.pos + 1;
        }
    }

    /// The offset at which the next scanning step begins.
    pub fn offset(&self) -> (r: usize)
        ensures
            r == self.position(),
    {
        self.pos
    }

    /// Scans to the end of input: all the tokens up to (not including) the
    /// end-of-input marker, or the first error met on the way.
    pub fn tokenize(&mut self) -> (r: Result<Vec<Token>, LexError>)
        requires
            old(self).wf(),
        ensures
            final(self).wf(),
            final(self).bytes() == old(self).bytes(),
            match r {
                Ok(v) => complete_scan(old(self).bytes(), old(self).position(), v@)
                    && final(self).position() == old(self).bytes().len(),
                Err(e) => exists|v: Seq<Token>|
                    #![trigger scan_run(old(self).bytes(), old(self).position(), v)]
                    scan_run(old(self).bytes(), old(self).position(), v) && step(
                        old(self).bytes(),
                        run_end(old(self).position(), v),
                        Err(e),
                        final(self).position(),
                    ),
            },
    {
        let ghost s = self.bytes();
        let ghost start = self.position();
        let mut out: Vec<Token> = Vec::new();
        loop
            invariant
                self.wf(),
                self.bytes() == s,
                s == old(self).bytes(),
                start == old(self).position(),
                0 <= start <= s.len(),
                scan_run(s, start, out@),
                self.position() == run_end(start, out@),
            decreases s.len() - self.position(),
        {
            let ghost before = self.position();
            let ghost prev = out@;
            match self.next_token() {
                Ok(t) => {
                    if t.is_eof() {
                        proof {
                            lemma_eof_is_end_marker(s, before, t, self.position());
                        }
                        return Ok(out);
                    }
                    proof {
                        lemma_step_token(s, before, t, self.position());
                        lemma_scan_run_push(s, start, prev, t);
                    }
                    out.push(t);
                    assert(out@.last() == t);
                },
                Err(e) => {
                    assert(scan_run(s, start, prev));
                    return Err(e);
                },
            }
        }
    }
}

proof fn lemma_eof_is_end_marker(s: Seq<u8>, pos: int, t: Token, next: int)
    requires
        0 <= pos <= s.len(),
        step(s, pos, Ok(t), next),
        t.kind is Eof,
    ensures
        t == end_marker(s),
        next == s.len(),
{
    lemma_skip_bounds(s, pos, false);
    let p = skip_from(s, pos, false);
    if p < s.len() && is_word_start(s[p]) {
        let w = s.subrange(p, word_end(s, p));
        assert(keyword(w) is None || !(keyword(w)->0 is Eof));
    }
}

/// A token other than the end marker lies within the input, at or after the
/// position the step started from, and the next step resumes just past it.
pub proof fn lemma_step_token(s: Seq<u8>, pos: int, t: Token, next: int)
    requires
        0 <= pos <= s.len(),
        s.len() <= usize::MAX,
        step(s, pos, Ok(t), next),
        !(t.kind is Eof),
    ensures
        pos <= t.span.start <= t.span.end < next <= s.len(),
        next == t.span.end + 1,
{
    lemma_skip_bounds(s, pos, false);
    let p = skip_from(s, pos, false);
    if p >= s.len() {
        assert(t.kind is Eof);
    } else if is_word_start(s[p]) {
        assert(word_end(s, p) == word_end(s, p + 1));
        lemma_word_end_bounds(s, p + 1);
    } else if is_digit(s[p]) {
        assert(digits_end(s, p) == digits_end(s, p + 1));
        lemma_digits_end_bounds(s, p + 1);
    }
}

proof fn lemma_scan_run_push(s: Seq<u8>, pos: int, toks: Seq<Token>, t: Token)
    requires
        scan_run(s, pos, toks),
        step(s, run_end(pos, toks), Ok(t), t.span.end + 1),
        !(t.kind is Eof),
    ensures
        scan_run(s, pos, toks.push(t)),
    decreases toks.len(),
{
    let longer = toks.push(t);
    if toks.len() == 0 {
        assert(longer.drop_first() =~= Seq::<Token>::empty());
        assert(longer[0] == t);
        assert(scan_run(s, t.span.end + 1, longer.drop_first()));
    } else {
        let rest = toks.drop_first();
        assert(longer.drop_first() =~= rest.push(t));
        assert(longer[0] == toks[0]);
        assert(run_end(toks[0].span.end + 1, rest) == run_end(pos, toks));
        lemma_scan_run_push(s, toks[0].span.end + 1, rest, t);
        assert(scan_run(s, toks[0].span.end + 1, longer.drop_first()));
    }
}

/// One scanning step is a function of the input and the position: two steps
/// from the same place give the same token (kind, payload and span) or the
/// same error, and resume at the same position.
pub proof fn lemma_step_deterministic(
    s: Seq<u8>,
    pos: int,
    r1: Result<Token, LexError>,
    n1: int,
    r2: Result<Token, LexError>,
    n2: int,
)
    requires
        step(s, pos, r1, n1),
        step(s, pos, r2, n2),
    ensures
        n1 == n2,
        r1 is Ok <==> r2 is Ok,
        r1 is Ok ==> same_token(r1->Ok_0, r2->Ok_0),
        r1 is Err ==> r1 == r2,
{
}

/// Scanning the same input twice yields the same token sequence, token for
/// token in kind, payload and span.
pub proof fn lemma_scan_deterministic(s: Seq<u8>, pos: int, t1: Seq<Token>, t2: Seq<Token>)
    requires
        complete_scan(s, pos, t1),
        complete_scan(s, pos, t2),
    ensures
        t1.len() == t2.len(),
        forall|i: int| 0 <= i < t1.len() ==> same_token(#[trigger] t1[i], t2[i]),
    decreases t1.len(),
{
    if t1.len() == 0 {
        if t2.len() > 0 {
            lemma_step_deterministic(s, pos, Ok(end_marker(s)), s.len() as int, Ok(t2[0]), t2[0].span.end + 1);
        }
    } else if t2.len() == 0 {
        lemma_step_deterministic(s, pos, Ok(end_marker(s)), s.len() as int, Ok(t1[0]), t1[0].span.end + 1);
    } else {
        lemma_step_deterministic(s, pos, Ok(t1[0]), t1[0].span.end + 1, Ok(t2[0]), t2[0].span.end + 1);
        let r1 = t1.drop_first();
        let r2 = t2.drop_first();
        assert(run_end(t1[0].span.end + 1, r1) == run_end(pos, t1));
        assert(run_end(t2[0].span.end + 1, r2) == run_end(pos, t2));
        lemma_scan_deterministic(s, t1[0].span.end + 1, r1, r2);
        assert forall|i: int| 0 <= i < t1.len() implies same_token(#[trigger] t1[i], t2[i]) by {
            if i > 0 {
                assert(t1[i] == r1[i - 1]);
                assert(t2[i] == r2[i - 1]);
            }
        }
    }
}

/// The tokens of one scan lie in order and do not overlap: each span is a
/// well-formed range inside the input, and each token ends before the next
/// one starts.
pub proof fn lemma_spans_ordered(s: Seq<u8>, pos: int, toks: Seq<Token>)
    requires
        0 <= pos <= s.len(),
        s.len() <= usize::MAX,
        scan_run(s, pos, toks),
    ensures
        forall|i: int|
            0 <= i < toks.len() ==> pos <= (#[trigger] toks[i]).span.start <= toks[i].span.end
                < s.len(),
        forall|i: int, j: int|
            0 <= i < j < toks.len() ==> (#[trigger] toks[i]).span.end < (#[trigger] toks[j]).span.start,
    decreases toks.len(),
{
    if toks.len() > 0 {
        lemma_step_token(s, pos, toks[0], toks[0].span.end + 1);
        let rest = toks.drop_first();
        lemma_spans_ordered(s, toks[0].span.end + 1, rest);
        assert forall|i: int|
            0 <= i < toks.len() implies pos <= (#[trigger] toks[i]).span.start <= toks[i].span.end
            < s.len() by {
            if i > 0 {
                assert(toks[i] == rest[i - 1]);
            }
        }
        assert forall|i: int, j: int|
            0 <= i < j < toks.len() implies (#[trigger] toks[i]).span.end
            < (#[trigger] toks[j]).span.start by {
            assert(toks[j] == rest[j - 1]);
            if i > 0 {
                assert(toks[i] == rest[i - 1]);
            }
        }
    }
}

/// Once the input is exhausted, every further step returns the same
/// end-of-input marker and stays where it is.
pub proof fn lemma_end_marker_repeats(
    s: Seq<u8>,
    pos: int,
    next: int,
    r: Result<Token, LexError>,
    n: int,
)
    requires
        0 <= pos <= s.len(),
        step(s, pos, Ok(end_marker(s)), next),
        step(s, next, r, n),
    ensures
        r == Ok::<Token, LexError>(end_marker(s)),
        n == next,
{
    assert(skip_from(s, s.len() as int, false) == s.len());
}

/// Operators are matched longest first: wherever a step begins at `!=`,
/// `==`, `<=`, `>=`, `&&` or `||`, it yields one two-byte token.
pub proof fn lemma_longest_match(s: Seq<u8>, pos: int, r: Result<Token, LexError>, n: int)
    requires
        0 <= pos,
        pos + 1 < s.len(),
        skip_from(s, pos, false) == pos,
        (s[pos] == 33 || s[pos] == 61 || s[pos] == 60 || s[pos] == 62) && s[pos + 1] == 61
            || s[pos] == 38 && s[pos + 1] == 38 || s[pos] == 124 && s[pos + 1] == 124,
        step(s, pos, r, n),
    ensures
        r is Ok,
        r->Ok_0.span == (Span { start: pos as usize, end: (pos + 1) as usize }),
        n == pos + 2,
        s[pos] == 33 ==> r->Ok_0.kind == TokenKind::NotEqual,
        s[pos] == 61 ==> r->Ok_0.kind == TokenKind::Equal,
        s[pos] == 60 ==> r->Ok_0.kind == TokenKind::LessEqual,
        s[pos] == 62 ==> r->Ok_0.kind == TokenKind::GreaterEqual,
        s[pos] == 38 ==> r->Ok_0.kind == TokenKind::And,
        s[pos] == 124 ==> r->Ok_0.kind == TokenKind::Or,
{
}

} // verus!
