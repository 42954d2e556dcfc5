use frontend::{LexError, Lexer, Span, Token, TokenKind};

fn scan(input: &str) -> Vec<Token> {
    let mut lexer = Lexer::new(input.to_string());
    let mut tokens = Vec::new();
    loop {
        let token = lexer.next_token().unwrap();
        if token.is_eof() {
            return tokens;
        }
        tokens.push(token);
    }
}

fn assert_tokens(input: &str, expected_tokens: Option<&Vec<TokenKind>>, spans: Option<&Vec<Span>>) {
    let tokens = scan(input);
    if let Some(list) = expected_tokens {
        assert_eq!(tokens.len(), list.len());
    }
    for (i, token) in tokens.iter().enumerate() {
        println!("{:?}", token);
        if let Some(list) = expected_tokens {
            assert_eq!(token.kind, list[i]);
        }
        if let Some(list) = spans {
            assert_eq!(token.span.start, list[i].start);
            assert_eq!(token.span.end, list[i].end);
        }
    }
}

fn ident(name: &str) -> TokenKind {
    TokenKind::Identifier { name: name.to_string() }
}

#[test]
fn test_boolean_values() {
    assert_tokens(
        "true == false",
        Some(&vec![TokenKind::True, TokenKind::Equal, TokenKind::False]),
        None,
    );
}

#[test]
fn test_operators() {
    assert_tokens(
        "+ - * / % =",
        Some(&vec![
            TokenKind::Plus,
            TokenKind::Minus,
            TokenKind::Asterisk,
            TokenKind::Slash,
            TokenKind::Modulo,
            TokenKind::Assign,
        ]),
        None,
    );
}

#[test]
fn test_comments() {
    let input = String::from("// This is a comment! :)");
    let mut lexer = Lexer::new(input);

    lexer.next_token().unwrap();
}

#[test]
fn test_comments_and_operators() {
    assert_tokens("// Comment\n++", Some(&vec![TokenKind::Plus, TokenKind::Plus]), None);
}

#[test]
fn test_symbols() {
    assert_tokens(
        "() {} , # \" |",
        Some(&vec![
            TokenKind::LeftParen,
            TokenKind::RightParen,
            TokenKind::LeftBrace,
            TokenKind::RightBrace,
            TokenKind::Comma,
            TokenKind::Hashtag,
            TokenKind::DoubleQuote,
            TokenKind::Pipe,
        ]),
        None,
    );
}

#[test]
fn test_equals() {
    assert_tokens(
        "!= , ==",
        Some(&vec![TokenKind::NotEqual, TokenKind::Comma, TokenKind::Equal]),
        None,
    );
}

#[test]
fn test_keywords() {
    assert_tokens(
        "fn match if else ret for break continue",
        Some(&vec![
            TokenKind::Function,
            TokenKind::Match,
            TokenKind::If,
            TokenKind::Else,
            TokenKind::Return,
            TokenKind::For,
            TokenKind::Break,
            TokenKind::Continue,
        ]),
        None,
    );
}

#[test]
fn test_less_greaters() {
    assert_tokens("<= >=", Some(&vec![TokenKind::LessEqual, TokenKind::GreaterEqual]), None);
}

#[test]
fn test_and_or() {
    assert_tokens("&& ||", Some(&vec![TokenKind::And, TokenKind::Or]), None);
}

#[test]
fn test_reading_identifier() {
    assert_tokens(
        "fn foo() {}",
        Some(&vec![
            TokenKind::Function,
            ident("foo"),
            TokenKind::LeftParen,
            TokenKind::RightParen,
            TokenKind::LeftBrace,
            TokenKind::RightBrace,
        ]),
        None,
    );
}

#[test]
fn test_reading_random_identifiers() {
    assert_tokens("hello world", Some(&vec![ident("hello"), ident("world")]), None);
}

#[test]
fn test_read_integer() {
    assert_tokens("123 456", Some(&vec![TokenKind::Integer(123), TokenKind::Integer(456)]), None);
}

#[test]
fn test_spans() {
    assert_tokens("hello", Some(&vec![ident("hello")]), Some(&vec![Span { start: 0, end: 4 }]));

    assert_tokens(
        "1 + 2",
        Some(&vec![TokenKind::Integer(1), TokenKind::Plus, TokenKind::Integer(2)]),
        Some(&vec![
            Span { start: 0, end: 0 },
            Span { start: 2, end: 2 },
            Span { start: 4, end: 4 },
        ]),
    );
}

#[test]
fn test_variable_declaration() {
    assert_tokens(
        "#my_var = 10;",
        Some(&vec![
            TokenKind::Hashtag,
            ident("my_var"),
            TokenKind::Assign,
            TokenKind::Integer(10),
            TokenKind::Semicolon,
        ]),
        None,
    );
}

#[test]
fn test_function_declaration() {
    assert_tokens(
        "fn foo_bar(a, b) { ret a + b; }",
        Some(&vec![
            TokenKind::Function,
            ident("foo_bar"),
            TokenKind::LeftParen,
            ident("a"),
            TokenKind::Comma,
            ident("b"),
            TokenKind::RightParen,
            TokenKind::LeftBrace,
            TokenKind::Return,
            ident("a"),
            TokenKind::Plus,
            ident("b"),
            TokenKind::Semicolon,
            TokenKind::RightBrace,
        ]),
        None,
    );
}

#[test]
fn rescanning_gives_the_same_tokens() {
    let input = "fn f(x) { ret x * 42 >= y; } // done";
    let first = Lexer::new(input.to_string()).tokenize().unwrap();
    let second = Lexer::new(input.to_string()).tokenize().unwrap();
    assert_eq!(first, second);
    assert_eq!(first.len(), 14);
}

#[test]
fn spans_are_ordered_and_disjoint() {
    let tokens = scan("#abc == 12 // note\n  && x|y");
    for t in &tokens {
        assert!(t.span.start <= t.span.end);
    }
    for pair in tokens.windows(2) {
        assert!(pair[0].span.end < pair[1].span.start);
    }
    let spans: Vec<(usize, usize)> = tokens.iter().map(|t| (t.span.start, t.span.end)).collect();
    assert_eq!(spans, vec![(0, 0), (1, 3), (5, 6), (8, 9), (21, 22), (24, 24), (25, 25), (26, 26)]);
}

#[test]
fn not_equal_is_one_token() {
    let tokens = scan("!=");
    assert_eq!(tokens, vec![Token { kind: TokenKind::NotEqual, span: Span { start: 0, end: 1 } }]);
}

#[test]
fn end_marker_repeats() {
    let mut lexer = Lexer::new("x".to_string());
    assert_eq!(lexer.next_token().unwrap().kind, ident("x"));
    for _ in 0..3 {
        let t = lexer.next_token().unwrap();
        assert_eq!(t, Token { kind: TokenKind::Eof, span: Span { start: 1, end: 1 } });
    }
}

#[test]
fn empty_input_is_only_the_end_marker() {
    let mut lexer = Lexer::new(String::new());
    let t = lexer.next_token().unwrap();
    assert_eq!(t, Token { kind: TokenKind::Eof, span: Span { start: 0, end: 0 } });
    assert_eq!(Lexer::new(" \t\r\n".to_string()).tokenize().unwrap(), vec![]);
}

#[test]
fn comment_yields_no_tokens() {
    assert_eq!(Lexer::new("// only a comment".to_string()).tokenize().unwrap(), vec![]);
    let t = Lexer::new("// Comment\n++".to_string()).next_token().unwrap();
    assert_eq!(t.span, Span { start: 11, end: 11 });
}

#[test]
fn spans_count_bytes_after_non_ascii_comment() {
    let tokens = scan("// é\n+");
    assert_eq!(tokens, vec![Token { kind: TokenKind::Plus, span: Span { start: 6, end: 6 } }]);
}

#[test]
fn keyword_prefix_is_an_identifier() {
    assert_tokens(
        "fnx if_ return true_ falsey",
        Some(&vec![ident("fnx"), ident("if_"), ident("return"), ident("true_"), ident("falsey")]),
        None,
    );
    assert_tokens("_a1 9b", Some(&vec![ident("_a1"), TokenKind::Integer(9), ident("b")]), None);
}

#[test]
fn single_and_double_comparisons() {
    assert_tokens(
        "< > = <=> ===",
        Some(&vec![
            TokenKind::Less,
            TokenKind::Greater,
            TokenKind::Assign,
            TokenKind::LessEqual,
            TokenKind::Greater,
            TokenKind::Equal,
            TokenKind::Assign,
        ]),
        None,
    );
}

#[test]
fn largest_integer_is_accepted() {
    let tokens = scan("9223372036854775807");
    assert_eq!(tokens[0].kind, TokenKind::Integer(i64::MAX));
    assert_eq!(tokens[0].span, Span { start: 0, end: 18 });
}

#[test]
fn integer_overflow_is_an_error() {
    let mut lexer = Lexer::new("  9223372036854775808".to_string());
    assert_eq!(lexer.next_token(), Err(LexError::NumericOverflow { offset: 2 }));
    assert_eq!(lexer.offset(), 2);
    assert_eq!(lexer.next_token(), Err(LexError::NumericOverflow { offset: 2 }));
}

#[test]
fn lone_bang_is_unrecognized() {
    let mut lexer = Lexer::new("a ! b".to_string());
    assert_eq!(lexer.next_token().unwrap().kind, ident("a"));
    assert_eq!(
        lexer.next_token(),
        Err(LexError::UnrecognizedCharacter { offset: 2, byte: b'!' })
    );
    lexer.skip_byte();
    assert_eq!(lexer.next_token().unwrap().kind, ident("b"));
}

#[test]
fn lone_ampersand_and_others_are_unrecognized() {
    assert_eq!(
        Lexer::new("1 & 2".to_string()).tokenize(),
        Err(LexError::UnrecognizedCharacter { offset: 2, byte: b'&' })
    );
    assert_eq!(
        Lexer::new("x@".to_string()).tokenize(),
        Err(LexError::UnrecognizedCharacter { offset: 1, byte: b'@' })
    );
}

#[test]
fn lexemes_render_their_source_text() {
    assert_eq!(TokenKind::NotEqual.lexeme(), "!=");
    assert_eq!(TokenKind::Return.lexeme(), "ret");
    assert_eq!(TokenKind::Integer(-305).lexeme(), "-305");
    assert_eq!(ident("zed").lexeme(), "zed");
    assert_eq!(TokenKind::DoubleQuote.lexeme(), "\"");
}
