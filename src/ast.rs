use vstd::prelude::*;
use crate::token::{Span, Token, TokenKind, int_text, token_text, i64_text};

verus! {

/// An expression node. Each node owns its children and carries the span of
/// source text it was built from.
#[derive(Debug)]
pub enum Expression {
    Identifier(Identifier),
    Literal(Literal),
    Prefix(UnaryExpression),
    Infix(BinaryExpression),
    FunctionCall(FunctionCall),
}

#[derive(Debug)]
pub struct FunctionCall {
    pub call: Box<Expression>,
    pub arguments: Vec<Expression>,
    pub span: Span,
}

#[derive(Debug, Clone)]
pub struct Identifier {
    pub name: String,
    pub span: Span,
}

#[derive(Debug)]
pub enum Literal {
    Integer(Integer),
    Boolean(Boolean),
    String(StringType),
    Array(Array),
    Hash(Hash),
}

#[derive(Debug)]
pub struct UnaryExpression {
    pub operator: Token,
    pub operand: Box<Expression>,
    pub span: Span,
}

#[derive(Debug)]
pub struct BinaryExpression {
    pub operator: Token,
    pub left: Box<Expression>,
    pub right: Box<Expression>,
    pub span: Span,
}

#[derive(Debug, Clone)]
pub struct Integer {
    pub raw: i64,
    pub span: Span,
}

#[derive(Debug, Clone)]
pub struct Boolean {
    pub raw: bool,
    pub span: Span,
}

#[derive(Debug, Clone)]
pub struct StringType {
    pub raw: String,
    pub span: Span,
}

#[derive(Debug)]
pub struct Array {
    pub elements: Vec<Expression>,
    pub span: Span,
}

#[derive(Debug)]
pub struct Hash {
    pub pairs: Vec<(Expression, Expression)>,
    pub span: Span,
}

pub open spec fn literal_span(l: Literal) -> Span {
    match l {
        Literal::Integer(x) => x.span,
        Literal::Boolean(x) => x.span,
        Literal::String(x) => x.span,
        Literal::Array(x) => x.span,
        Literal::Hash(x) => x.span,
    }
}

/// The span a node carries.
pub open spec fn span_of(e: Expression) -> Span {
    match e {
        Expression::Identifier(x) => x.span,
        Expression::Literal(l) => literal_span(l),
        Expression::Prefix(x) => x.span,
        Expression::Infix(x) => x.span,
        Expression::FunctionCall(x) => x.span,
    }
}

/// `inner` lies within `outer`.
pub open spec fn encloses(outer: Span, inner: Span) -> bool {
    outer.start <= inner.start && inner.end <= outer.end
}

/// Every node's span is a well-formed range that encloses the spans of all
/// its children.
pub open spec fn well_spanned(e: Expression) -> bool
    decreases e,
{
    let sp = span_of(e);
    sp.start <= sp.end && match e {
        Expression::Identifier(_) => true,
        Expression::Literal(l) => match l {
            Literal::Array(x) => all_within(x.elements@, sp),
            Literal::Hash(x) => pairs_within(x.pairs@, sp),
            _ => true,
        },
        Expression::Prefix(x) => encloses(sp, x.operator.span) && encloses(sp, span_of(*x.operand))
            && well_spanned(*x.operand),
        Expression::Infix(x) => encloses(sp, x.operator.span) && encloses(sp, span_of(*x.left))
            && encloses(sp, span_of(*x.right)) && well_spanned(*x.left) && well_spanned(*x.right),
        Expression::FunctionCall(x) => encloses(sp, span_of(*x.call)) && well_spanned(*x.call)
            && all_within(x.arguments@, sp),
    }
}

/// Each expression of `s` is well spanned and lies within `outer`.
pub open spec fn all_within(s: Seq<Expression>, outer: Span) -> bool
    decreases s,
{
    s.len() > 0 ==> {
        &&& all_within(s.drop_last(), outer)
        &&& encloses(outer, span_of(s.last()))
        &&& well_spanned(s.last())
    }
}

/// Each key and value of `s` is well spanned and lies within `outer`.
pub open spec fn pairs_within(s: Seq<(Expression, Expression)>, outer: Span) -> bool
    decreases s,
{
    s.len() > 0 ==> {
        &&& pairs_within(s.drop_last(), outer)
        &&& encloses(outer, span_of(s.last().0))
        &&& well_spanned(s.last().0)
        &&& encloses(outer, span_of(s.last().1))
        &&& well_spanned(s.last().1)
    }
}

impl Expression {
    pub fn span(&self) -> (r: Span)
        ensures
            r == span_of(*self),
    {
        match self {
            Expression::Identifier(x) => x.span,
            Expression::Literal(l) => match l {
                Literal::Integer(x) => x.span,
                Literal::Boolean(x) => x.span,
                Literal::String(x) => x.span,
                Literal::Array(x) => x.span,
                Literal::Hash(x) => x.span,
            },
            Expression::Prefix(x) => x.span,
            Expression::Infix(x) => x.span,
            Expression::FunctionCall(x) => x.span,
        }
    }
}

impl BinaryExpression {
    /// The node `left operator right`; its span runs from the start of the
    /// left operand to the end of the right one.
    pub fn new(operator: Token, left: Expression, right: Expression) -> (r: BinaryExpression)
        ensures
            r.operator == operator,
            *r.left == left,
            *r.right == right,
            r.span == (Span { start: span_of(left).start, end: span_of(right).end }),
            well_spanned(left) && well_spanned(right) && encloses(r.span, operator.span)
                && span_of(left).start <= span_of(right).start && span_of(left).end
                <= span_of(right).end ==> well_spanned(Expression::Infix(r)),
    {
        let span = Span { start: left.span().start, end: right.span().end };
        BinaryExpression { operator, left: Box::new(left), right: Box::new(right), span }
    }
}

impl UnaryExpression {
    /// The node `operator operand`; its span runs from the operator to the
    /// end of the operand.
    pub fn new(operator: Token, operand: Expression) -> (r: UnaryExpression)
        ensures
            r.operator == operator,
            *r.operand == operand,
            r.span == (Span { start: operator.span.start, end: span_of(operand).end }),
            well_spanned(operand) && operator.span.start <= operator.span.end
                && operator.span.end <= span_of(operand).end && operator.span.start <= span_of(
                operand,
            ).start ==> well_spanned(Expression::Prefix(r)),
    {
        let span = Span { start: operator.span.start, end: operand.span().end };
        UnaryExpression { operator, operand: Box::new(operand), span }
    }
}

/// The text of an expression: operators in parentheses with spaces around an
/// infix operator, literals as written, lists separated by `, `.
pub open spec fn expression_text(e: Expression) -> Seq<char>
    decreases e,
{
    match e {
        Expression::Identifier(x) => x.name@,
        Expression::Literal(l) => match l {
            Literal::Integer(x) => int_text(x.raw as int),
            Literal::Boolean(x) => if x.raw {
                "true"@
            } else {
                "false"@
            },
            Literal::String(x) => "\""@ + x.raw@ + "\""@,
            Literal::Array(x) => "["@ + list_text(x.elements@) + "]"@,
            Literal::Hash(x) => "{"@ + pairs_text(x.pairs@) + "}"@,
        },
        Expression::Prefix(x) => "("@ + token_text(x.operator.kind) + expression_text(*x.operand)
            + ")"@,
        Expression::Infix(x) => "("@ + expression_text(*x.left) + " "@ + token_text(
            x.operator.kind,
        ) + " "@ + expression_text(*x.right) + ")"@,
        Expression::FunctionCall(x) => expression_text(*x.call) + "("@ + list_text(x.arguments@)
            + ")"@,
    }
}

/// The texts of `s` in order, separated by `, `.
pub open spec fn list_text(s: Seq<Expression>) -> Seq<char>
    decreases s,
{
    if s.len() == 0 {
        Seq::empty()
    } else if s.len() == 1 {
        expression_text(s[0])
    } else {
        list_text(s.drop_last()) + ", "@ + expression_text(s.last())
    }
}

/// The pairs of `s` in order as `key: value`, separated by `, `.
pub open spec fn pairs_text(s: Seq<(Expression, Expression)>) -> Seq<char>
    decreases s,
{
    if s.len() == 0 {
        Seq::empty()
    } else if s.len() == 1 {
        expression_text(s[0].0) + ": "@ + expression_text(s[0].1)
    } else {
        pairs_text(s.drop_last()) + ", "@ + expression_text(s.last().0) + ": "@ + expression_text(
            s.last().1,
        )
    }
}

/// Relies on String::push_str: the text is appended at the end.
#[verifier::external_body]
fn push_text(out: &mut String, t: &str)
    ensures
        final(out)@ == old(out)@ + t@,
{
    out.push_str(t)
}

fn write_expression(e: &Expression, out: &mut String)
    ensures
        final(out)@ == old(out)@ + expression_text(*e),
    decreases e,
{
    let ghost start = out@;
    match e {
        Expression::Identifier(x) => push_text(out, x.name.as_str()),
        Expression::Literal(l) => match l {
            Literal::Integer(x) => {
                let t = i64_text(x.raw);
                push_text(out, t.as_str());
            },
            Literal::Boolean(x) => {
                if x.raw {
                    push_text(out, "true");
                } else {
                    push_text(out, "false");
                }
            },
            Literal::String(x) => {
                push_text(out, "\"");
                push_text(out, x.raw.as_str());
                push_text(out, "\"");
            },
            Literal::Array(x) => {
                push_text(out, "[");
                write_list(&x.elements, out);
                push_text(out, "]");
            },
            Literal::Hash(x) => {
                push_text(out, "{");
                write_pairs(&x.pairs, out);
                push_text(out, "}");
            },
        },
        Expression::Prefix(x) => {
            push_text(out, "(");
            let op = x.operator.kind.lexeme();
            push_text(out, op.as_str());
            write_expression(&x.operand, out);
            push_text(out, ")");
        },
        Expression::Infix(x) => {
            push_text(out, "(");
            write_expression(&x.left, out);
            push_text(out, " ");
            let op = x.operator.kind.lexeme();
            push_text(out, op.as_str());
            push_text(out, " ");
            write_expression(&x.right, out);
            push_text(out, ")");
        },
        Expression::FunctionCall(x) => {
            write_expression(&x.call, out);
            push_text(out, "(");
            write_list(&x.arguments, out);
            push_text(out, ")");
        },
    }
    assert(out@ =~= start + expression_text(*e));
}

fn write_list(s: &Vec<Expression>, out: &mut String)
    ensures
        final(out)@ == old(out)@ + list_text(s@),
    decreases s,
{
    let ghost start = out@;
    let mut i: usize = 0;
    assert(s@.subrange(0, 0) =~= Seq::<Expression>::empty());
    while i < s.len()
        invariant
            0 <= i <= s@.len(),
            out@ == start + list_text(s@.subrange(0, i as int)),
        decreases s@.len() - i,
    {
        let ghost before = out@;
        let ghost sub = s@.subrange(0, i + 1);
        assert(sub.drop_last() =~= s@.subrange(0, i as int));
        assert(sub.last() == s@[i as int]);
        if i > 0 {
            push_text(out, ", ");
        }
        proof {
            assert(decreases_to!(s => s@[i as int]));
        }
        write_expression(&s[i], out);
        if i == 0 {
            assert(sub =~= seq![s@[0]]);
        }
        assert(out@ =~= start + list_text(sub));
        i = i + 1;
    }
    assert(s@.subrange(0, s@.len() as int) =~= s@);
}

fn write_pairs(s: &Vec<(Expression, Expression)>, out: &mut String)
    ensures
        final(out)@ == old(out)@ + pairs_text(s@),
    decreases s,
{
    let ghost start = out@;
    let mut i: usize = 0;
    assert(s@.subrange(0, 0) =~= Seq::<(Expression, Expression)>::empty());
    while i < s.len()
        invariant
            0 <= i <= s@.len(),
            out@ == start + pairs_text(s@.subrange(0, i as int)),
        decreases s@.len() - i,
    {
        let ghost sub = s@.subrange(0, i + 1);
        assert(sub.drop_last() =~= s@.subrange(0, i as int));
        assert(sub.last() == s@[i as int]);
        if i > 0 {
            push_text(out, ", ");
        }
        proof {
            assert(decreases_to!(s => s@[i as int]));
        }
        write_expression(&s[i].0, out);
        push_text(out, ": ");
        write_expression(&s[i].1, out);
        if i == 0 {
            assert(sub =~= seq![s@[0]]);
        }
        assert(out@ =~= start + pairs_text(sub));
        i = i + 1;
    }
    assert(s@.subrange(0, s@.len() as int) =~= s@);
}

impl Expression {
    /// The text of this expression (see `expression_text`).
    pub fn to_string(&self) -> (r: String)
        ensures
            r@ == expression_text(*self),
    {
        let mut out = String::new();
        write_expression(self, &mut out);
        assert(out@ =~= expression_text(*self));
        out
    }
}

/// The concatenated texts of the expressions, in order.
pub open spec fn expressions_text(exprs: Seq<Expression>) -> Seq<char>
    decreases exprs.len(),
{
    if exprs.len() == 0 {
        Seq::empty()
    } else {
        expressions_text(exprs.drop_last()) + expression_text(exprs.last())
    }
}

/// Joins the texts of the expressions, in order, with nothing between them.
pub fn format_expressions(exprs: &Vec<Expression>) -> (r: String)
    ensures
        r@ == expressions_text(exprs@),
{
    let mut out = String::new();
    let mut i: usize = 0;
    assert(exprs@.subrange(0, 0) =~= Seq::<Expression>::empty());
    while i < exprs.len()
        invariant
            0 <= i <= exprs@.len(),
            out@ == expressions_text(exprs@.subrange(0, i as int)),
        decreases exprs@.len() - i,
    {
        let ghost sub = exprs@.subrange(0, i + 1);
        assert(sub.drop_last() =~= exprs@.subrange(0, i as int));
        write_expression(&exprs[i], &mut out);
        i = i + 1;
    }
    assert(exprs@.subrange(0, exprs@.len() as int) =~= exprs@);
    out
}

} // verus!
