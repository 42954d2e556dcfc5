use frontend::ast::{
    format_expressions, Array, BinaryExpression, Boolean, Expression, FunctionCall,
    Identifier, Integer, Literal, StringType, UnaryExpression,
};
use frontend::{Span, Token, TokenKind};

fn num(raw: i64, start: usize, end: usize) -> Expression {
    Expression::Literal(Literal::Integer(Integer { raw, span: Span { start, end } }))
}

fn name(n: &str, start: usize) -> Expression {
    Expression::Identifier(Identifier {
        name: n.to_string(),
        span: Span { start, end: start + n.len() - 1 },
    })
}

fn op(kind: TokenKind, start: usize, end: usize) -> Token {
    Token { kind, span: Span { start, end } }
}

#[test]
fn binary_span_runs_from_left_to_right() {
    // 1 + 23
    let node = BinaryExpression::new(op(TokenKind::Plus, 2, 2), num(1, 0, 0), num(23, 4, 5));
    assert_eq!(node.span, Span { start: 0, end: 5 });
    assert_eq!(node.left.span(), Span { start: 0, end: 0 });
    assert_eq!(node.right.span(), Span { start: 4, end: 5 });
}

#[test]
fn unary_span_runs_from_operator_to_operand() {
    let node = UnaryExpression::new(op(TokenKind::Minus, 3, 3), name("abc", 4));
    assert_eq!(node.span, Span { start: 3, end: 6 });
    assert_eq!(Expression::Prefix(node).to_string(), "(-abc)");
}

#[test]
fn nested_expression_text() {
    // a * (b + 2)
    let inner = BinaryExpression::new(op(TokenKind::Plus, 7, 7), name("b", 5), num(2, 9, 9));
    let outer =
        BinaryExpression::new(op(TokenKind::Asterisk, 2, 2), name("a", 0), Expression::Infix(inner));
    assert_eq!(outer.span, Span { start: 0, end: 9 });
    assert_eq!(Expression::Infix(outer).to_string(), "(a * (b + 2))");
}

#[test]
fn literal_texts() {
    let t = Expression::Literal(Literal::Boolean(Boolean { raw: true, span: Span { start: 0, end: 3 } }));
    assert_eq!(t.to_string(), "true");
    let s = Expression::Literal(Literal::String(StringType {
        raw: "hi there".to_string(),
        span: Span { start: 0, end: 9 },
    }));
    assert_eq!(s.to_string(), "\"hi there\"");
    assert_eq!(num(-42, 0, 2).to_string(), "-42");
    let empty = Expression::Literal(Literal::Array(Array { elements: vec![], span: Span { start: 0, end: 1 } }));
    assert_eq!(empty.to_string(), "[]");
    let arr = Expression::Literal(Literal::Array(Array {
        elements: vec![num(1, 1, 1), num(1, 4, 4), name("x", 7)],
        span: Span { start: 0, end: 8 },
    }));
    assert_eq!(arr.to_string(), "[1, 1, x]");
    let hash = Expression::Literal(Literal::Hash(frontend::ast::Hash {
        pairs: vec![(name("k", 1), num(1, 4, 4)), (name("k", 7), num(2, 10, 10))],
        span: Span { start: 0, end: 11 },
    }));
    assert_eq!(hash.to_string(), "{k: 1, k: 2}");
}

#[test]
fn function_call_text() {
    let call = Expression::FunctionCall(FunctionCall {
        call: Box::new(name("add", 0)),
        arguments: vec![name("a", 4), num(7, 7, 7)],
        span: Span { start: 0, end: 8 },
    });
    assert_eq!(call.span(), Span { start: 0, end: 8 });
    assert_eq!(call.to_string(), "add(a, 7)");
}

#[test]
fn format_expressions_concatenates_in_order() {
    let exprs = vec![name("x", 0), num(5, 2, 2), name("y", 4)];
    assert_eq!(format_expressions(&exprs), "x5y");
    assert_eq!(format_expressions(&vec![]), "");
}
